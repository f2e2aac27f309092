//! File-type dispatch for document ingestion. The ingestion pipeline reads a
//! file, converts it to text and inserts that text into the store; which
//! route a file takes is decided here, from the extension alone: the run of
//! characters after the last dot of its name.

use vstd::prelude::*;
use vstd::string::*;
use crate::codec::last_dot;
use crate::codec::lemma_last_dot_at;
use crate::codec::lemma_last_dot_none;

verus! {

/// How a file is ingested, decided by its extension.
#[derive(Clone, Copy, PartialEq, Eq, Structural, Debug)]
pub enum FileKind {
    /// A word-processor document, converted to markdown by the external
    /// converter before insertion.
    Docx,
    /// A plain-text format (`md`, `txt`, `csv`, `json`), read verbatim.
    PlainText,
    /// Any other extension: refused.
    Unsupported,
}

fn str_eq(a: &str, b: &str) -> (r: bool)
    ensures
        r == (a@ == b@),
{
    let la = a.unicode_len();
    let lb = b.unicode_len();
    if la != lb {
        return false;
    }
    let mut j: usize = 0;
    while j < la
        invariant
            j <= la,
            la == a@.len(),
            la == b@.len(),
            forall|i: int| 0 <= i < j ==> a@[i] == b@[i],
        decreases la - j,
    {
        if a.get_char(j) != b.get_char(j) {
            return false;
        }
        j = j + 1;
    }
    proof {
        assert(a@ =~= b@);
    }
    true
}

/// The extension of `path`: the characters after the last `'.'`, or the
/// whole string when there is no dot.
pub fn extension_of(path: &str) -> (r: String)
    ensures
        r@ == path@.skip(last_dot(path@) + 1),
{
    let n = path.unicode_len();
    let mut k: usize = n;
    while k > 0 && path.get_char(k - 1) != '.'
        invariant
            k <= n,
            n == path@.len(),
            forall|m: int| k <= m < n ==> path@[m] != '.',
        decreases k,
    {
        k = k - 1;
    }
    proof {
        if k == 0 {
            lemma_last_dot_none(path@);
        } else {
            lemma_last_dot_at(path@, k - 1);
        }
    }
    let ext = path.substring_char(k, n);
    proof {
        assert(ext@ =~= path@.skip(last_dot(path@) + 1));
    }
    ext.to_owned()
}

/// Decides the ingestion route from an extension: `"docx"` goes through the
/// external converter, the plain-text formats are read verbatim, everything
/// else is refused.
pub fn file_kind(ext: &str) -> (k: FileKind)
    ensures
        (k == FileKind::Docx) <==> ext@ == "docx"@,
        (k == FileKind::PlainText) <==> (ext@ == "md"@ || ext@ == "txt"@ || ext@ == "csv"@
            || ext@ == "json"@),
{
    proof {
        broadcast use vstd::string::group_string_axioms;

        reveal_strlit("docx");
        reveal_strlit("md");
        reveal_strlit("txt");
        reveal_strlit("csv");
        reveal_strlit("json");
        assert("docx"@.len() == 4 && "md"@.len() == 2 && "txt"@.len() == 3 && "csv"@.len() == 3
            && "json"@.len() == 4);
        assert("docx"@[0] == 'd' && "json"@[0] == 'j');
        assert("docx"@ != "md"@ && "docx"@ != "txt"@ && "docx"@ != "csv"@ && "docx"@ != "json"@);
    }
    if str_eq(ext, "docx") {
        FileKind::Docx
    } else if str_eq(ext, "md") || str_eq(ext, "txt") || str_eq(ext, "csv") || str_eq(
        ext,
        "json",
    ) {
        FileKind::PlainText
    } else {
        FileKind::Unsupported
    }
}

} // verus!
