//! The node store and its synchronized full-text index.
//!
//! The store is the authoritative table of message nodes, keyed by path.
//! Entries are kept sorted under the codec's numeric segment order, so a
//! subtree is a contiguous range and listing it is a scan over the path
//! order. Beside the node table sits the search index: one entry per node
//! with a non-absent message body, holding that body's text. Every mutation
//! updates both inside the same call — the two are never observably out of
//! step, which `wf` states and every operation preserves.
//!
//! Deletion policy: `delete` removes exactly the named node and never its
//! descendants, which remain as an orphaned subtree (paths are freestanding
//! keys, not foreign references). Callers that want a subtree gone list it
//! with `list_subtree` and delete bottom-up. A node's path is immutable:
//! moving a subtree is delete-and-reinsert under the new paths, never an
//! update.

use vstd::prelude::*;
use vstd::string::*;
use crate::codec::decode;
use crate::codec::in_subtree;
use crate::codec::is_child_of;
use crate::codec::is_prefix_segs;
use crate::codec::lemma_path_order_trans;
use crate::codec::parse_path;
use crate::codec::seq_lt;
use crate::codec::cmp_segs;
use crate::errors::StoreError;
use crate::text::contains_sub;
use crate::text::contains_substring;

verus! {

/// A message node: everything but the path that identifies it.
/// `created_at` is immutable once the node is inserted; `message` is the
/// searchable text body and may be absent for structural placeholders;
/// `metadata` is free-form payload, not searched and not validated.
pub struct Node {
    pub role: String,
    pub name: String,
    pub created_at: u64,
    pub message: Option<String>,
    pub metadata: String,
}

/// The mathematical value of a `Node`.
pub struct NodeV {
    pub role: Seq<char>,
    pub name: Seq<char>,
    pub created_at: u64,
    pub message: Option<Seq<char>>,
    pub metadata: Seq<char>,
}

impl View for Node {
    type V = NodeV;

    open spec fn view(&self) -> NodeV {
        NodeV {
            role: self.role@,
            name: self.name@,
            created_at: self.created_at,
            message: match self.message {
                Option::Some(m) => Option::Some(m@),
                Option::None => Option::None,
            },
            metadata: self.metadata@,
        }
    }
}

impl Clone for Node {
    fn clone(&self) -> (r: Node)
        ensures
            r@ == self@,
    {
        Node {
            role: self.role.clone(),
            name: self.name.clone(),
            created_at: self.created_at,
            message: match &self.message {
                Option::Some(m) => Option::Some(m.clone()),
                Option::None => Option::None,
            },
            metadata: self.metadata.clone(),
        }
    }
}

/// The content fields an update may replace: every field of a node except
/// its path and its creation timestamp.
pub struct NodeContent {
    pub role: String,
    pub name: String,
    pub message: Option<String>,
    pub metadata: String,
}

/// The mathematical value of a `NodeContent`.
pub struct ContentV {
    pub role: Seq<char>,
    pub name: Seq<char>,
    pub message: Option<Seq<char>>,
    pub metadata: Seq<char>,
}

impl View for NodeContent {
    type V = ContentV;

    open spec fn view(&self) -> ContentV {
        ContentV {
            role: self.role@,
            name: self.name@,
            message: match self.message {
                Option::Some(m) => Option::Some(m@),
                Option::None => Option::None,
            },
            metadata: self.metadata@,
        }
    }
}

struct Entry {
    path: String,
    segs: Vec<u64>,
    node: Node,
}

struct IndexEntry {
    path: String,
    segs: Vec<u64>,
    text: String,
}

/// The mathematical value of one search-index row: the identity of a node
/// and the text of its message body.
pub struct IndexEntryV {
    pub path: Seq<char>,
    pub segs: Seq<u64>,
    pub text: Seq<char>,
}

impl View for IndexEntry {
    type V = IndexEntryV;

    closed spec fn view(&self) -> IndexEntryV {
        IndexEntryV { path: self.path@, segs: self.segs@, text: self.text@ }
    }
}

spec fn index_view(s: Seq<IndexEntry>) -> Seq<IndexEntryV> {
    s.map_values(|e: IndexEntry| e@)
}

spec fn entry_chunk(e: Entry) -> Seq<IndexEntryV> {
    match e.node.message {
        Option::Some(m) => seq![IndexEntryV { path: e.path@, segs: e.segs@, text: m@ }],
        Option::None => Seq::<IndexEntryV>::empty(),
    }
}

/// The search-index rows that a node table calls for: one per node whose
/// message is present, in table order, with matching identity and text.
spec fn index_of(s: Seq<Entry>) -> Seq<IndexEntryV>
    decreases s.len(),
{
    if s.len() == 0 {
        Seq::<IndexEntryV>::empty()
    } else {
        index_of(s.drop_last()) + entry_chunk(s.last())
    }
}

proof fn lemma_index_of_singleton(e: Entry)
    ensures
        index_of(seq![e]) == entry_chunk(e),
{
    let s = seq![e];
    assert(s.len() == 1);
    assert(s.drop_last() =~= Seq::<Entry>::empty());
    assert(s.last() == e);
    assert(index_of(s.drop_last()) == Seq::<IndexEntryV>::empty());
    assert(index_of(s) =~= entry_chunk(e));
}

proof fn lemma_index_of_add(a: Seq<Entry>, b: Seq<Entry>)
    ensures
        index_of(a + b) == index_of(a) + index_of(b),
    decreases b.len(),
{
    if b.len() == 0 {
        assert(a + b =~= a);
        assert(index_of(a) + index_of(b) =~= index_of(a));
    } else {
        lemma_index_of_add(a, b.drop_last());
        assert((a + b).drop_last() =~= a + b.drop_last());
        assert((a + b).last() == b.last());
        assert(index_of(a + b) == index_of(a + b.drop_last()) + entry_chunk(b.last()));
        assert(index_of(a) + index_of(b) =~= index_of(a) + index_of(b.drop_last()) + entry_chunk(
            b.last(),
        ));
    }
}

proof fn lemma_index_view_insert(s: Seq<IndexEntry>, i: int, e: IndexEntry)
    requires
        0 <= i <= s.len(),
    ensures
        index_view(s.insert(i, e)) == index_view(s).insert(i, e@),
{
    assert(index_view(s.insert(i, e)) =~= index_view(s).insert(i, e@));
}

proof fn lemma_index_view_remove(s: Seq<IndexEntry>, i: int)
    requires
        0 <= i < s.len(),
    ensures
        index_view(s.remove(i)) == index_view(s).remove(i),
{
    assert(index_view(s.remove(i)) =~= index_view(s).remove(i));
}

spec fn key_index_of(s: Seq<Entry>, k: Seq<u64>) -> int {
    choose|i: int| 0 <= i < s.len() && (#[trigger] s[i]).segs@ == k
}

spec fn entry_row(e: Entry) -> IndexEntryV {
    IndexEntryV { path: e.path@, segs: e.segs@, text: e.node.message->0@ }
}

/// The table position that index row `a` of `index_of(s)` came from.
spec fn src_of(s: Seq<Entry>, a: int) -> int {
    choose|t: int|
        #![trigger s[t]]
        0 <= t < s.len() && s[t].node.message is Some && index_of(s)[a] == entry_row(s[t])
}

/// The index position that the message-bearing table entry `t` produced.
spec fn pos_of(s: Seq<Entry>, t: int) -> int {
    choose|a: int|
        #![trigger index_of(s)[a]]
        0 <= a < index_of(s).len() && index_of(s)[a] == entry_row(s[t])
}

proof fn lemma_index_of_entries(s: Seq<Entry>)
    ensures
        forall|a: int|
            #![trigger index_of(s)[a]]
            0 <= a < index_of(s).len() ==> ({
                let t = src_of(s, a);
                0 <= t < s.len() && s[t].node.message is Some && index_of(s)[a] == entry_row(s[t])
            }),
        forall|t: int|
            #![trigger s[t]]
            0 <= t < s.len() && s[t].node.message is Some ==> ({
                let a = pos_of(s, t);
                0 <= a < index_of(s).len() && index_of(s)[a] == entry_row(s[t])
            }),
    decreases s.len(),
{
    if s.len() > 0 {
        let s2 = s.drop_last();
        lemma_index_of_entries(s2);
        let last = s.last();
        assert(index_of(s) == index_of(s2) + entry_chunk(last));
        assert forall|a: int|
            #![trigger index_of(s)[a]]
            0 <= a < index_of(s).len() implies ({
            let t = src_of(s, a);
            0 <= t < s.len() && s[t].node.message is Some && index_of(s)[a] == entry_row(s[t])
        }) by {
            if a < index_of(s2).len() {
                let t0 = src_of(s2, a);
                assert(s[t0] == s2[t0]);
                assert(index_of(s)[a] == index_of(s2)[a]);
                assert(0 <= t0 < s.len() && s[t0].node.message is Some && index_of(s)[a]
                    == entry_row(s[t0]));
            } else {
                let t0 = s.len() - 1;
                assert(entry_chunk(last).len() == 1);
                assert(index_of(s)[a] == entry_chunk(last)[0]);
                assert(0 <= t0 < s.len() && s[t0].node.message is Some && index_of(s)[a]
                    == entry_row(s[t0]));
            }
        }
        assert forall|t: int|
            #![trigger s[t]]
            0 <= t < s.len() && s[t].node.message is Some implies ({
            let a = pos_of(s, t);
            0 <= a < index_of(s).len() && index_of(s)[a] == entry_row(s[t])
        }) by {
            if t < s.len() - 1 {
                assert(s2[t] == s[t]);
                let a0 = pos_of(s2, t);
                assert(0 <= a0 < index_of(s2).len() && index_of(s2)[a0] == entry_row(s2[t]));
                assert(index_of(s)[a0] == entry_row(s[t]));
            } else {
                assert(entry_chunk(last).len() == 1);
                let a0 = index_of(s2).len() as int;
                assert(index_of(s)[a0] == entry_chunk(last)[0]);
                assert(index_of(s)[a0] == entry_row(s[t]));
            }
        }
    }
}

proof fn lemma_index_of_sorted(s: Seq<Entry>)
    requires
        entries_sorted(s),
    ensures
        forall|a: int, b: int|
            0 <= a < b < index_of(s).len() ==> seq_lt(
                (#[trigger] index_of(s)[a]).segs,
                (#[trigger] index_of(s)[b]).segs,
            ),
    decreases s.len(),
{
    if s.len() > 0 {
        let s2 = s.drop_last();
        assert(entries_sorted(s2));
        lemma_index_of_sorted(s2);
        lemma_index_of_entries(s2);
        let last = s.last();
        assert(index_of(s) == index_of(s2) + entry_chunk(last));
        assert forall|a: int, b: int| 0 <= a < b < index_of(s).len() implies seq_lt(
            (#[trigger] index_of(s)[a]).segs,
            (#[trigger] index_of(s)[b]).segs,
        ) by {
            if b < index_of(s2).len() {
                assert(index_of(s)[a] == index_of(s2)[a]);
                assert(index_of(s)[b] == index_of(s2)[b]);
            } else {
                assert(entry_chunk(last).len() == 1);
                assert(index_of(s)[b] == entry_chunk(last)[0]);
                assert(index_of(s)[b].segs == last.segs@);
                assert(index_of(s)[a] == index_of(s2)[a]);
                let t = src_of(s2, a);
                assert(0 <= t < s2.len() && index_of(s2)[a] == entry_row(s2[t]));
                assert(index_of(s)[a].segs == s[t].segs@);
                assert(seq_lt(s[t].segs@, last.segs@));
            }
        }
    }
}

spec fn entries_paired(s: Seq<Entry>) -> bool {
    forall|i: int| 0 <= i < s.len() ==> parse_path((#[trigger] s[i]).path@) == Some(s[i].segs@)
}

spec fn entries_sorted(s: Seq<Entry>) -> bool {
    forall|i: int, j: int| 0 <= i < j < s.len() ==> seq_lt(s[i].segs@, s[j].segs@)
}

/// The store: the node table and the full-text index over it.
pub struct Store {
    nodes: Vec<Entry>,
    index: Vec<IndexEntry>,
}

impl Store {
    /// The store's invariant. Paths are unique and the table is sorted under
    /// the codec's order; every stored path string is the canonical rendering
    /// of its segment key; and the index holds exactly one row per node with
    /// a present message, in table order, with that node's path and text.
    pub closed spec fn wf(self) -> bool {
        &&& entries_paired(self.nodes@)
        &&& entries_sorted(self.nodes@)
        &&& self.index_consistent()
    }

    /// The index-consistency half of the invariant on its own: the search
    /// index holds exactly the rows the node table calls for — one row per
    /// node with a present message, in table order, with that node's path
    /// and text. `check_index` decides exactly this predicate.
    pub closed spec fn index_consistent(self) -> bool {
        index_view(self.index@) == index_of(self.nodes@)
    }

    /// The number of nodes held.
    pub closed spec fn node_count(self) -> nat {
        self.nodes@.len()
    }

    /// A node with segment key `k` exists.
    pub closed spec fn contains_path(self, k: Seq<u64>) -> bool {
        exists|i: int| 0 <= i < self.nodes@.len() && (#[trigger] self.nodes@[i]).segs@ == k
    }

    spec fn key_index(self, k: Seq<u64>) -> int {
        key_index_of(self.nodes@, k)
    }

    /// The value of the node with segment key `k` (meaningful when
    /// `contains_path(k)`).
    pub closed spec fn node_at(self, k: Seq<u64>) -> NodeV {
        self.nodes@[self.key_index(k)].node@
    }

    /// An index row for segment key `k` exists.
    pub closed spec fn index_has(self, k: Seq<u64>) -> bool {
        exists|i: int| 0 <= i < self.index@.len() && (#[trigger] self.index@[i]).segs@ == k
    }

    spec fn index_pos(self, k: Seq<u64>) -> int {
        choose|i: int| 0 <= i < self.index@.len() && (#[trigger] self.index@[i]).segs@ == k
    }

    proof fn lemma_same_nodes(a: Store, b: Store)
        requires
            a.nodes@ == b.nodes@,
        ensures
            forall|k: Seq<u64>| #[trigger] a.contains_path(k) == b.contains_path(k),
            forall|k: Seq<u64>| #[trigger] a.node_at(k) == b.node_at(k),
    {
        assert forall|k: Seq<u64>| #[trigger] a.contains_path(k) == b.contains_path(k) by {
            if a.contains_path(k) {
                let i = choose|i: int|
                    0 <= i < a.nodes@.len() && (#[trigger] a.nodes@[i]).segs@ == k;
                assert(b.nodes@[i].segs@ == k);
            }
            if b.contains_path(k) {
                let i = choose|i: int|
                    0 <= i < b.nodes@.len() && (#[trigger] b.nodes@[i]).segs@ == k;
                assert(a.nodes@[i].segs@ == k);
            }
        }
    }

    /// The text of the index row for segment key `k` (meaningful when
    /// `index_has(k)`).
    pub closed spec fn index_text(self, k: Seq<u64>) -> Seq<char> {
        self.index@[self.index_pos(k)].text@
    }

    proof fn lemma_key_unique(self, i: int, j: int)
        requires
            entries_sorted(self.nodes@),
            0 <= i < self.nodes@.len(),
            0 <= j < self.nodes@.len(),
            self.nodes@[i].segs@ == self.nodes@[j].segs@,
        ensures
            i == j,
    {
        if i < j {
            crate::codec::lemma_path_order_total(self.nodes@[i].segs@, self.nodes@[j].segs@);
        }
        if j < i {
            crate::codec::lemma_path_order_total(self.nodes@[j].segs@, self.nodes@[i].segs@);
        }
    }

    /// Creates an empty store.
    pub fn new() -> (s: Store)
        ensures
            s.wf(),
            s.node_count() == 0,
            forall|k: Seq<u64>| !s.contains_path(k),
    {
        let s = Store { nodes: Vec::new(), index: Vec::new() };
        proof {
            assert(index_view(s.index@) =~= index_of(s.nodes@));
        }
        s
    }

    /// Finds the insertion position of `segs` in the sorted table: the
    /// number of entries sorting strictly before it, and whether the entry
    /// at that position (if any) is exactly `segs`.
    fn find_pos(&self, segs: &Vec<u64>) -> (r: (usize, bool))
        requires
            entries_sorted(self.nodes@),
        ensures
            r.0 <= self.nodes@.len(),
            forall|i: int| 0 <= i < r.0 ==> seq_lt((#[trigger] self.nodes@[i]).segs@, segs@),
            r.1 <==> (r.0 < self.nodes@.len() && self.nodes@[r.0 as int].segs@ == segs@),
            !r.1 ==> forall|i: int|
                r.0 <= i < self.nodes@.len() ==> seq_lt(segs@, (#[trigger] self.nodes@[i]).segs@),
    {
        let n = self.nodes.len();
        let mut i: usize = 0;
        while i < n
            invariant
                i <= n,
                n == self.nodes@.len(),
                forall|j: int| 0 <= j < i ==> seq_lt((#[trigger] self.nodes@[j]).segs@, segs@),
            decreases n - i,
        {
            let c = cmp_segs(&self.nodes[i].segs, segs);
            if c == 0 {
                return (i, true);
            }
            if c == 1 {
                proof {
                    assert forall|j: int|
                        i <= j < self.nodes@.len() implies seq_lt(
                        segs@,
                        (#[trigger] self.nodes@[j]).segs@,
                    ) by {
                        if j > i {
                            lemma_path_order_trans(
                                segs@,
                                self.nodes@[i as int].segs@,
                                self.nodes@[j].segs@,
                            );
                        }
                    }
                }
                return (i, false);
            }
            i = i + 1;
        }
        (i, false)
    }

    /// Counts the index rows contributed by the first `pos` table entries.
    fn count_indexed_before(&self, pos: usize) -> (c: usize)
        requires
            pos <= self.nodes@.len(),
        ensures
            c == index_of(self.nodes@.take(pos as int)).len(),
            c <= pos,
    {
        let mut c: usize = 0;
        let mut j: usize = 0;
        while j < pos
            invariant
                j <= pos,
                pos <= self.nodes@.len(),
                c <= j,
                c == index_of(self.nodes@.take(j as int)).len(),
            decreases pos - j,
        {
            proof {
                assert(self.nodes@.take(j + 1).drop_last() =~= self.nodes@.take(j as int));
                assert(self.nodes@.take(j + 1).last() == self.nodes@[j as int]);
            }
            if self.nodes[j].node.message.is_some() {
                c = c + 1;
            }
            j = j + 1;
        }
        c
    }
}

impl Store {
    /// Inserts a node at `path`. Fails with `MalformedPath` when `path` does
    /// not parse and with `DuplicatePath` when a node with that path already
    /// exists; either failure leaves the store untouched. On success the new
    /// node is present, every other node is exactly as before, and — as with
    /// every mutation — the index row for the new node's message (if any) is
    /// created in the same call.
    #[verifier::rlimit(60)]
    pub fn insert(&mut self, path: &str, node: &Node) -> (r: Result<(), StoreError>)
        requires
            old(self).wf(),
        ensures
            final(self).wf(),
            r is Ok <==> (parse_path(path@) is Some && !old(self).contains_path(
                parse_path(path@)->Some_0,
            )),
            match r {
                Ok(()) => ({
                    let k = parse_path(path@)->Some_0;
                    &&& final(self).contains_path(k)
                    &&& final(self).node_at(k) == node@
                    &&& final(self).node_count() == old(self).node_count() + 1
                    &&& forall|k2: Seq<u64>|
                        k2 != k ==> final(self).contains_path(k2) == old(self).contains_path(k2)
                    &&& forall|k2: Seq<u64>|
                        k2 != k && old(self).contains_path(k2) ==> final(self).node_at(k2) == old(self).node_at(k2)
                }),
                Err(e) => *final(self) == *old(self) && (if parse_path(path@) is None {
                    e == StoreError::MalformedPath
                } else {
                    e == StoreError::DuplicatePath
                }),
            },
    {
        let segs = match decode(path) {
            Err(e) => { return Err(e) },
            Ok(v) => v,
        };
        let ghost gsegs = segs@;
        let (pos, found) = self.find_pos(&segs);
        if found {
            proof {
                assert(old(self).contains_path(gsegs));
            }
            return Err(StoreError::DuplicatePath);
        }
        proof {
            assert forall|i: int|
                0 <= i < self.nodes@.len() implies (#[trigger] self.nodes@[i]).segs@ != gsegs by {
                if i < pos {
                    crate::codec::lemma_path_order_total(self.nodes@[i].segs@, gsegs);
                } else {
                    crate::codec::lemma_path_order_total(gsegs, self.nodes@[i].segs@);
                }
            }
            assert(!old(self).contains_path(gsegs));
        }
        let cnt = self.count_indexed_before(pos);
        let ghost nodes0 = self.nodes@;
        let ghost index0 = self.index@;
        let ghost pre = nodes0.take(pos as int);
        let ghost post = nodes0.skip(pos as int);
        proof {
            assert(nodes0 =~= pre + post);
            lemma_index_of_add(pre, post);
            assert(index_view(index0).len() == index_of(nodes0).len());
            assert(cnt <= index0.len());
        }
        let ie = match &node.message {
            Option::Some(m) => Option::Some(
                IndexEntry { path: path.to_owned(), segs: copy_segs(&segs), text: m.clone() },
            ),
            Option::None => Option::None,
        };
        let entry = Entry { path: path.to_owned(), segs, node: node.clone() };
        let ghost ge = entry;
        self.nodes.insert(pos, entry);
        proof {
            assert(self.nodes@ =~= (pre + seq![ge]) + post);
            lemma_index_of_add(pre + seq![ge], post);
            lemma_index_of_add(pre, seq![ge]);
            lemma_index_of_singleton(ge);
            assert(index_of(self.nodes@) =~= index_of(pre) + entry_chunk(ge) + index_of(post));
        }
        match ie {
            Option::Some(e) => {
                let ghost gie = e;
                self.index.insert(cnt, e);
                proof {
                    assert(entry_chunk(ge) =~= seq![gie@]);
                    assert(self.index@ == index0.insert(cnt as int, gie));
                    assert forall|i: int|
                        0 <= i < self.index@.len() implies (#[trigger] self.index@[i])@ == index_of(
                        self.nodes@,
                    )[i] by {
                        if i < cnt {
                            assert(self.index@[i] == index0[i]);
                            assert(index0[i]@ == index_view(index0)[i]);
                            assert(index_view(index0)[i] == index_of(pre)[i]);
                        } else if i == cnt {
                            assert(self.index@[i] == gie);
                        } else {
                            assert(self.index@[i] == index0[i - 1]);
                            assert(index0[i - 1]@ == index_view(index0)[i - 1]);
                            assert(index_view(index0)[i - 1] == (index_of(pre) + index_of(post))[i
                                - 1]);
                        }
                    }
                    assert(index_view(self.index@) =~= index_of(self.nodes@));
                }
            },
            Option::None => {
                proof {
                    assert(entry_chunk(ge) =~= Seq::<IndexEntryV>::empty());
                    assert(index_of(self.nodes@) =~= index_of(pre) + index_of(post));
                    assert(index_view(self.index@) =~= index_of(self.nodes@));
                }
            },
        }
        proof {
            // well-formedness of the new table
            assert forall|i: int|
                0 <= i < self.nodes@.len() implies parse_path(
                (#[trigger] self.nodes@[i]).path@,
            ) == Some(self.nodes@[i].segs@) by {
                if i < pos {
                    assert(self.nodes@[i] == nodes0[i]);
                } else if i == pos {
                    assert(self.nodes@[i] == ge);
                } else {
                    assert(self.nodes@[i] == nodes0[i - 1]);
                }
            }
            assert forall|i: int, j: int|
                0 <= i < j < self.nodes@.len() implies seq_lt(
                self.nodes@[i].segs@,
                self.nodes@[j].segs@,
            ) by {
                if i < pos {
                    assert(self.nodes@[i] == nodes0[i]);
                } else if i == pos {
                    assert(self.nodes@[i] == ge);
                } else {
                    assert(self.nodes@[i] == nodes0[i - 1]);
                }
                if j < pos {
                    assert(self.nodes@[j] == nodes0[j]);
                } else if j == pos {
                    assert(self.nodes@[j] == ge);
                } else {
                    assert(self.nodes@[j] == nodes0[j - 1]);
                }
            }
            // the inserted key is present and holds the given node
            assert(self.nodes@[pos as int] == ge);
            assert(self.contains_path(gsegs));
            let w = self.key_index(gsegs);
            assert(0 <= w < self.nodes@.len() && self.nodes@[w].segs@ == gsegs);
            self.lemma_key_unique(w, pos as int);
            assert(self.node_at(gsegs) == node@);
            // every other key is exactly as before
            assert forall|k2: Seq<u64>| k2 != gsegs implies final(self).contains_path(k2) == old(self).contains_path(k2) by {
                if old(self).contains_path(k2) {
                    let i = choose|i: int|
                        0 <= i < nodes0.len() && (#[trigger] nodes0[i]).segs@ == k2;
                    if i < pos {
                        assert(self.nodes@[i].segs@ == k2);
                    } else {
                        assert(self.nodes@[i + 1].segs@ == k2);
                    }
                }
                if final(self).contains_path(k2) {
                    let i = choose|i: int|
                        0 <= i < self.nodes@.len() && (#[trigger] self.nodes@[i]).segs@ == k2;
                    if i < pos {
                        assert(nodes0[i].segs@ == k2);
                    } else {
                        assert(i != pos);
                        assert(nodes0[i - 1].segs@ == k2);
                    }
                }
            }
            assert forall|k2: Seq<u64>|
                k2 != gsegs && old(self).contains_path(k2) implies final(self).node_at(k2) == old(self).node_at(k2) by {
                let i = choose|i: int| 0 <= i < nodes0.len() && (#[trigger] nodes0[i]).segs@ == k2;

                let ni: int = if i < pos { i } else { i + 1 };
                assert(self.nodes@[ni].segs@ == k2);
                let nw = self.key_index(k2);
                assert(self.nodes@[ni].segs@ == k2 && 0 <= ni < self.nodes@.len());
                assert(final(self).contains_path(k2));
                assert(0 <= nw < self.nodes@.len() && self.nodes@[nw].segs@ == k2);
                self.lemma_key_unique(ni, nw);
                let ow = old(self).key_index(k2);
                assert(0 <= ow < nodes0.len() && nodes0[ow].segs@ == k2);
                old(self).lemma_key_unique(i, ow);
                assert(self.nodes@[ni].node == nodes0[i].node);
            }
        }
        Ok(())
    }

    proof fn lemma_not_found(self, k: Seq<u64>, pos: int)
        requires
            entries_sorted(self.nodes@),
            0 <= pos <= self.nodes@.len(),
            forall|i: int| 0 <= i < pos ==> seq_lt((#[trigger] self.nodes@[i]).segs@, k),
            forall|i: int|
                pos <= i < self.nodes@.len() ==> seq_lt(k, (#[trigger] self.nodes@[i]).segs@),
        ensures
            !self.contains_path(k),
    {
        assert forall|i: int|
            0 <= i < self.nodes@.len() implies (#[trigger] self.nodes@[i]).segs@ != k by {
            if i < pos {
                crate::codec::lemma_path_order_total(self.nodes@[i].segs@, k);
            } else {
                crate::codec::lemma_path_order_total(k, self.nodes@[i].segs@);
            }
        }
    }

    proof fn lemma_at_pos(self, pos: int)
        requires
            entries_sorted(self.nodes@),
            0 <= pos < self.nodes@.len(),
        ensures
            self.contains_path(self.nodes@[pos].segs@),
            self.node_at(self.nodes@[pos].segs@) == self.nodes@[pos].node@,
    {
        let k = self.nodes@[pos].segs@;
        assert(self.contains_path(k));
        let w = self.key_index(k);
        assert(0 <= w < self.nodes@.len() && self.nodes@[w].segs@ == k);
        self.lemma_key_unique(w, pos);
    }

    /// Reads the node at `path`. Fails with `MalformedPath` when `path` does
    /// not parse and with `NotFound` when no node has that path.
    pub fn get(&self, path: &str) -> (r: Result<Node, StoreError>)
        requires
            self.wf(),
        ensures
            r is Ok <==> (parse_path(path@) is Some && self.contains_path(
                parse_path(path@)->Some_0,
            )),
            match r {
                Ok(n) => n@ == self.node_at(parse_path(path@)->Some_0),
                Err(e) => if parse_path(path@) is None {
                    e == StoreError::MalformedPath
                } else {
                    e == StoreError::NotFound
                },
            },
    {
        let segs = match decode(path) {
            Err(e) => { return Err(e) },
            Ok(v) => v,
        };
        let (pos, found) = self.find_pos(&segs);
        if !found {
            proof {
                self.lemma_not_found(segs@, pos as int);
            }
            return Err(StoreError::NotFound);
        }
        proof {
            self.lemma_at_pos(pos as int);
        }
        Ok(self.nodes[pos].node.clone())
    }

    /// Replaces the content fields of the node at `path`; the node's path and
    /// creation timestamp are untouched. Fails with `MalformedPath` when
    /// `path` does not parse and with `NotFound` when no node has that path;
    /// either failure leaves the store untouched. The index row for the node
    /// is replaced, created or removed in the same call, as the message field
    /// changes.
    #[verifier::rlimit(60)]
    pub fn update(&mut self, path: &str, content: NodeContent) -> (r: Result<(), StoreError>)
        requires
            old(self).wf(),
        ensures
            final(self).wf(),
            r is Ok <==> (parse_path(path@) is Some && old(self).contains_path(
                parse_path(path@)->Some_0,
            )),
            match r {
                Ok(()) => ({
                    let k = parse_path(path@)->Some_0;
                    &&& final(self).node_count() == old(self).node_count()
                    &&& forall|k2: Seq<u64>|
                        final(self).contains_path(k2) == old(self).contains_path(k2)
                    &&& final(self).node_at(k) == (NodeV {
                        role: content@.role,
                        name: content@.name,
                        created_at: old(self).node_at(k).created_at,
                        message: content@.message,
                        metadata: content@.metadata,
                    })
                    &&& forall|k2: Seq<u64>|
                        k2 != k && old(self).contains_path(k2) ==> final(self).node_at(k2) == old(self).node_at(k2)
                }),
                Err(e) => *final(self) == *old(self) && (if parse_path(path@) is None {
                    e == StoreError::MalformedPath
                } else {
                    e == StoreError::NotFound
                }),
            },
    {
        let segs = match decode(path) {
            Err(e) => { return Err(e) },
            Ok(v) => v,
        };
        let ghost gsegs = segs@;
        let (pos, found) = self.find_pos(&segs);
        if !found {
            proof {
                self.lemma_not_found(segs@, pos as int);
            }
            return Err(StoreError::NotFound);
        }
        proof {
            old(self).lemma_at_pos(pos as int);
        }
        let cnt = self.count_indexed_before(pos);
        let ghost nodes0 = self.nodes@;
        let ghost index0 = self.index@;
        let ghost pre = nodes0.take(pos as int);
        let ghost post = nodes0.skip(pos as int + 1);
        let ghost olde = nodes0[pos as int];
        proof {
            assert(nodes0 =~= (pre + seq![olde]) + post);
            lemma_index_of_add(pre + seq![olde], post);
            lemma_index_of_add(pre, seq![olde]);
            lemma_index_of_singleton(olde);
            assert(index_of(nodes0) =~= index_of(pre) + entry_chunk(olde) + index_of(post));
            assert(index_view(index0).len() == index_of(nodes0).len());
        }
        let e = self.nodes.remove(pos);
        let ie = match &content.message {
            Option::Some(m) => Option::Some(
                IndexEntry { path: e.path.clone(), segs: copy_segs(&e.segs), text: m.clone() },
            ),
            Option::None => Option::None,
        };
        let had = e.node.message.is_some();
        let new_entry = Entry {
            path: e.path,
            segs: e.segs,
            node: Node {
                role: content.role,
                name: content.name,
                created_at: e.node.created_at,
                message: content.message,
                metadata: content.metadata,
            },
        };
        let ghost ge = new_entry;
        self.nodes.insert(pos, new_entry);
        proof {
            assert(self.nodes@ =~= (pre + seq![ge]) + post);
            lemma_index_of_add(pre + seq![ge], post);
            lemma_index_of_add(pre, seq![ge]);
            lemma_index_of_singleton(ge);
            assert(index_of(self.nodes@) =~= index_of(pre) + entry_chunk(ge) + index_of(post));
        }
        if had {
            if let Option::Some(x) = ie {
                let ghost gx = x;
                proof {
                    assert(cnt < index0.len());
                }
                self.index.remove(cnt);
                let ghost index1 = self.index@;
                self.index.insert(cnt, x);
                proof {
                    lemma_index_view_remove(index0, cnt as int);
                    lemma_index_view_insert(index1, cnt as int, gx);
                    assert(entry_chunk(ge) =~= seq![gx@]);
                    assert(index_view(self.index@) =~= index_of(self.nodes@));
                }
            } else {
                proof {
                    assert(cnt < index0.len());
                }
                self.index.remove(cnt);
                proof {
                    lemma_index_view_remove(index0, cnt as int);
                    assert(entry_chunk(ge) =~= Seq::<IndexEntryV>::empty());
                    assert(index_view(self.index@) =~= index_of(self.nodes@));
                }
            }
        } else {
            if let Option::Some(x) = ie {
                let ghost gx = x;
                proof {
                    assert(cnt <= index0.len());
                }
                self.index.insert(cnt, x);
                proof {
                    lemma_index_view_insert(index0, cnt as int, gx);
                    assert(entry_chunk(ge) =~= seq![gx@]);
                    assert(entry_chunk(olde) =~= Seq::<IndexEntryV>::empty());
                    assert(index_view(self.index@) =~= index_of(self.nodes@));
                }
            } else {
                proof {
                    assert(entry_chunk(ge) =~= Seq::<IndexEntryV>::empty());
                    assert(entry_chunk(olde) =~= Seq::<IndexEntryV>::empty());
                    assert(index_view(self.index@) =~= index_of(self.nodes@));
                }
            }
        }
        proof {
            assert forall|i: int|
                0 <= i < self.nodes@.len() implies (#[trigger] self.nodes@[i]).segs@
                == nodes0[i].segs@ && parse_path(self.nodes@[i].path@) == Some(
                self.nodes@[i].segs@,
            ) by {
                if i < pos {
                    assert(self.nodes@[i] == nodes0[i]);
                } else if i == pos {
                    assert(self.nodes@[i] == ge);
                } else {
                    assert(self.nodes@[i] == nodes0[i]);
                }
            }
            assert(entries_sorted(self.nodes@));
            assert(self.nodes@[pos as int] == ge);
            self.lemma_at_pos(pos as int);
            assert forall|k2: Seq<u64>| final(self).contains_path(k2) == old(self).contains_path(
                k2,
            ) by {
                if old(self).contains_path(k2) {
                    let i = choose|i: int|
                        0 <= i < nodes0.len() && (#[trigger] nodes0[i]).segs@ == k2;
                    assert(self.nodes@[i].segs@ == k2);
                }
                if final(self).contains_path(k2) {
                    let i = choose|i: int|
                        0 <= i < self.nodes@.len() && (#[trigger] self.nodes@[i]).segs@ == k2;
                    assert(nodes0[i].segs@ == k2);
                }
            }
            assert forall|k2: Seq<u64>|
                k2 != gsegs && old(self).contains_path(k2) implies final(self).node_at(k2) == old(self).node_at(k2) by {
                let i = choose|i: int| 0 <= i < nodes0.len() && (#[trigger] nodes0[i]).segs@ == k2;
                assert(i != pos);
                assert(self.nodes@[i].segs@ == k2);
                let nw = choose|j: int|
                    0 <= j < self.nodes@.len() && (#[trigger] self.nodes@[j]).segs@ == k2;
                self.lemma_key_unique(i, nw);
                assert(self.nodes@[i].node == nodes0[i].node);
            }
        }
        Ok(())
    }

    /// Removes the node at `path` and, in the same call, its index row if it
    /// had one. Fails with `MalformedPath` when `path` does not parse and
    /// with `NotFound` when no node has that path; either failure leaves the
    /// store untouched. Descendants of the removed node are not touched:
    /// they remain as an orphaned subtree.
    #[verifier::rlimit(60)]
    pub fn delete(&mut self, path: &str) -> (r: Result<(), StoreError>)
        requires
            old(self).wf(),
        ensures
            final(self).wf(),
            r is Ok <==> (parse_path(path@) is Some && old(self).contains_path(
                parse_path(path@)->Some_0,
            )),
            match r {
                Ok(()) => ({
                    let k = parse_path(path@)->Some_0;
                    &&& !final(self).contains_path(k)
                    &&& final(self).node_count() == old(self).node_count() - 1
                    &&& forall|k2: Seq<u64>|
                        k2 != k ==> final(self).contains_path(k2) == old(self).contains_path(k2)
                    &&& forall|k2: Seq<u64>|
                        k2 != k && old(self).contains_path(k2) ==> final(self).node_at(k2) == old(self).node_at(k2)
                }),
                Err(e) => *final(self) == *old(self) && (if parse_path(path@) is None {
                    e == StoreError::MalformedPath
                } else {
                    e == StoreError::NotFound
                }),
            },
    {
        let segs = match decode(path) {
            Err(e) => { return Err(e) },
            Ok(v) => v,
        };
        let ghost gsegs = segs@;
        let (pos, found) = self.find_pos(&segs);
        if !found {
            proof {
                self.lemma_not_found(segs@, pos as int);
            }
            return Err(StoreError::NotFound);
        }
        proof {
            old(self).lemma_at_pos(pos as int);
        }
        let cnt = self.count_indexed_before(pos);
        let ghost nodes0 = self.nodes@;
        let ghost index0 = self.index@;
        let ghost pre = nodes0.take(pos as int);
        let ghost post = nodes0.skip(pos as int + 1);
        let ghost olde = nodes0[pos as int];
        proof {
            assert(nodes0 =~= (pre + seq![olde]) + post);
            lemma_index_of_add(pre + seq![olde], post);
            lemma_index_of_add(pre, seq![olde]);
            lemma_index_of_singleton(olde);
            assert(index_of(nodes0) =~= index_of(pre) + entry_chunk(olde) + index_of(post));
            assert(index_view(index0).len() == index_of(nodes0).len());
        }
        let e = self.nodes.remove(pos);
        proof {
            assert(self.nodes@ =~= pre + post);
            lemma_index_of_add(pre, post);
        }
        if e.node.message.is_some() {
            proof {
                assert(cnt < index0.len());
            }
            self.index.remove(cnt);
            proof {
                lemma_index_view_remove(index0, cnt as int);
                assert(entry_chunk(olde).len() == 1);
                assert(index_view(self.index@) =~= index_of(self.nodes@));
            }
        } else {
            proof {
                assert(entry_chunk(olde) =~= Seq::<IndexEntryV>::empty());
                assert(index_view(self.index@) =~= index_of(self.nodes@));
            }
        }
        proof {
            assert forall|i: int|
                0 <= i < self.nodes@.len() implies ((#[trigger] self.nodes@[i]) == (if i < pos {
                nodes0[i]
            } else {
                nodes0[i + 1]
            })) by {}
            assert(entries_paired(self.nodes@));
            assert(entries_sorted(self.nodes@));
            assert forall|i: int|
                0 <= i < self.nodes@.len() implies (#[trigger] self.nodes@[i]).segs@ != gsegs by {
                let oi: int = if i < pos { i } else { i + 1 };
                assert(oi != pos);
                old(self).lemma_key_unique(oi, oi);
                if nodes0[oi].segs@ == gsegs {
                    old(self).lemma_key_unique(oi, pos as int);
                }
            }
            assert(!final(self).contains_path(gsegs));
            assert forall|k2: Seq<u64>| k2 != gsegs implies final(self).contains_path(k2) == old(self).contains_path(k2) by {
                if old(self).contains_path(k2) {
                    let i = choose|i: int|
                        0 <= i < nodes0.len() && (#[trigger] nodes0[i]).segs@ == k2;
                    assert(i != pos);
                    if i < pos {
                        assert(self.nodes@[i].segs@ == k2);
                    } else {
                        assert(self.nodes@[i - 1].segs@ == k2);
                    }
                }
                if final(self).contains_path(k2) {
                    let i = choose|i: int|
                        0 <= i < self.nodes@.len() && (#[trigger] self.nodes@[i]).segs@ == k2;
                    if i < pos {
                        assert(nodes0[i].segs@ == k2);
                    } else {
                        assert(nodes0[i + 1].segs@ == k2);
                    }
                }
            }
            assert forall|k2: Seq<u64>|
                k2 != gsegs && old(self).contains_path(k2) implies final(self).node_at(k2) == old(self).node_at(k2) by {
                let i = choose|i: int| 0 <= i < nodes0.len() && (#[trigger] nodes0[i]).segs@ == k2;
                assert(i != pos);
                let ni: int = if i < pos { i } else { i - 1 };
                assert(self.nodes@[ni].segs@ == k2);
                let nw = self.key_index(k2);
                assert(self.nodes@[ni].segs@ == k2 && 0 <= ni < self.nodes@.len());
                assert(final(self).contains_path(k2));
                assert(0 <= nw < self.nodes@.len() && self.nodes@[nw].segs@ == k2);
                self.lemma_key_unique(ni, nw);
                let ow = old(self).key_index(k2);
                assert(0 <= ow < nodes0.len() && nodes0[ow].segs@ == k2);
                old(self).lemma_key_unique(i, ow);
                assert(self.nodes@[ni].node == nodes0[i].node);
            }
        }
        Ok(())
    }
}

impl Store {
    /// Lists the subtree rooted at `root`: the node at `root` (if present)
    /// and every descendant, in ascending path order, each with its canonical
    /// path string. Produced by one scan over the table in path order.
    /// Fails with `MalformedPath` exactly when `root` does not parse.
    pub fn list_subtree(&self, root: &str) -> (r: Result<Vec<(String, Node)>, StoreError>)
        requires
            self.wf(),
        ensures
            match r {
                Ok(v) => parse_path(root@) is Some && ({
                    let rk = parse_path(root@)->Some_0;
                    &&& forall|i: int|
                        0 <= i < v@.len() ==> parse_path((#[trigger] v@[i]).0@) is Some
                    &&& forall|i: int|
                        0 <= i < v@.len() ==> in_subtree(
                            rk,
                            parse_path((#[trigger] v@[i]).0@)->Some_0,
                        )
                    &&& forall|i: int|
                        0 <= i < v@.len() ==> self.contains_path(
                            parse_path((#[trigger] v@[i]).0@)->Some_0,
                        )
                    &&& forall|i: int|
                        0 <= i < v@.len() ==> (#[trigger] v@[i]).1@ == self.node_at(
                            parse_path(v@[i].0@)->Some_0,
                        )
                    &&& forall|i: int, j: int|
                        0 <= i < j < v@.len() ==> seq_lt(
                            parse_path((#[trigger] v@[i]).0@)->Some_0,
                            parse_path((#[trigger] v@[j]).0@)->Some_0,
                        )
                    &&& forall|k: Seq<u64>|
                        self.contains_path(k) && in_subtree(rk, k) ==> exists|i: int|
                            0 <= i < v@.len() && parse_path((#[trigger] v@[i]).0@) == Some(k)
                }),
                Err(e) => e == StoreError::MalformedPath && parse_path(root@) is None,
            },
    {
        let rsegs = match decode(root) {
            Err(e) => { return Err(e) },
            Ok(v) => v,
        };
        let ghost rk = rsegs@;
        let mut out: Vec<(String, Node)> = Vec::new();
        let ghost mut src: Seq<int> = Seq::empty();
        let n = self.nodes.len();
        let mut m: usize = 0;
        while m < n
            invariant
                m <= n,
                n == self.nodes@.len(),
                src.len() == out@.len(),
                forall|a: int| 0 <= a < src.len() ==> 0 <= #[trigger] src[a] < m,
                forall|a: int, b: int| 0 <= a < b < src.len() ==> src[a] < src[b],
                forall|a: int|
                    0 <= a < src.len() ==> (#[trigger] out@[a]).0@ == self.nodes@[src[a]].path@
                        && out@[a].1@ == self.nodes@[src[a]].node@ && in_subtree(
                        rk,
                        self.nodes@[src[a]].segs@,
                    ),
                forall|t: int|
                    0 <= t < m && in_subtree(rk, (#[trigger] self.nodes@[t]).segs@) ==> exists|
                        a: int,
                    |
                        0 <= a < src.len() && #[trigger] src[a] == t,
            decreases n - m,
        {
            if is_prefix_segs(&rsegs, &self.nodes[m].segs) {
                out.push((self.nodes[m].path.clone(), self.nodes[m].node.clone()));
                proof {
                    let src0 = src;
                    src = src.push(m as int);
                    assert forall|t: int|
                        0 <= t < m + 1 && in_subtree(rk, (#[trigger] self.nodes@[t]).segs@) implies exists|
                        a: int,
                    |
                        0 <= a < src.len() && #[trigger] src[a] == t by {
                        if t == m {
                            assert(src[src0.len() as int] == t);
                        } else {
                            let a = choose|a: int|
                                0 <= a < src0.len() && #[trigger] src0[a] == t;
                            assert(src[a] == t);
                        }
                    }
                }
            }
            m = m + 1;
        }
        proof {
            assert forall|i: int|
                0 <= i < out@.len() implies parse_path((#[trigger] out@[i]).0@) == Some(
                self.nodes@[src[i]].segs@,
            ) by {
                assert(out@[i].0@ == self.nodes@[src[i]].path@);
            }
            assert forall|i: int|
                0 <= i < out@.len() implies self.contains_path(
                parse_path((#[trigger] out@[i]).0@)->Some_0,
            ) && out@[i].1@ == self.node_at(parse_path(out@[i].0@)->Some_0) by {
                let t = src[i];
                self.lemma_at_pos(t);
            }
            assert forall|k: Seq<u64>|
                self.contains_path(k) && in_subtree(rk, k) implies exists|i: int|
                    0 <= i < out@.len() && parse_path((#[trigger] out@[i]).0@) == Some(k) by {
                let t = choose|t: int|
                    0 <= t < self.nodes@.len() && (#[trigger] self.nodes@[t]).segs@ == k;
                let a = choose|a: int| 0 <= a < src.len() && #[trigger] src[a] == t;
                assert(parse_path(out@[a].0@) == Some(k));
            }
        }
        Ok(out)
    }

    /// Lists the direct children of the node at `path`: the nodes whose path
    /// is one segment longer with `path`'s segments as prefix, in ascending
    /// path order. The named node itself need not exist (its children are
    /// freestanding keys). Fails with `MalformedPath` exactly when `path`
    /// does not parse.
    pub fn list_children(&self, path: &str) -> (r: Result<Vec<(String, Node)>, StoreError>)
        requires
            self.wf(),
        ensures
            match r {
                Ok(v) => parse_path(path@) is Some && ({
                    let rk = parse_path(path@)->Some_0;
                    &&& forall|i: int|
                        0 <= i < v@.len() ==> parse_path((#[trigger] v@[i]).0@) is Some
                    &&& forall|i: int|
                        0 <= i < v@.len() ==> is_child_of(
                            rk,
                            parse_path((#[trigger] v@[i]).0@)->Some_0,
                        )
                    &&& forall|i: int|
                        0 <= i < v@.len() ==> self.contains_path(
                            parse_path((#[trigger] v@[i]).0@)->Some_0,
                        )
                    &&& forall|i: int|
                        0 <= i < v@.len() ==> (#[trigger] v@[i]).1@ == self.node_at(
                            parse_path(v@[i].0@)->Some_0,
                        )
                    &&& forall|i: int, j: int|
                        0 <= i < j < v@.len() ==> seq_lt(
                            parse_path((#[trigger] v@[i]).0@)->Some_0,
                            parse_path((#[trigger] v@[j]).0@)->Some_0,
                        )
                    &&& forall|k: Seq<u64>|
                        self.contains_path(k) && is_child_of(rk, k) ==> exists|i: int|
                            0 <= i < v@.len() && parse_path((#[trigger] v@[i]).0@) == Some(k)
                }),
                Err(e) => e == StoreError::MalformedPath && parse_path(path@) is None,
            },
    {
        let rsegs = match decode(path) {
            Err(e) => { return Err(e) },
            Ok(v) => v,
        };
        let ghost rk = rsegs@;
        let mut out: Vec<(String, Node)> = Vec::new();
        let ghost mut src: Seq<int> = Seq::empty();
        let n = self.nodes.len();
        let mut m: usize = 0;
        while m < n
            invariant
                m <= n,
                n == self.nodes@.len(),
                src.len() == out@.len(),
                forall|a: int| 0 <= a < src.len() ==> 0 <= #[trigger] src[a] < m,
                forall|a: int, b: int| 0 <= a < b < src.len() ==> src[a] < src[b],
                forall|a: int|
                    0 <= a < src.len() ==> (#[trigger] out@[a]).0@ == self.nodes@[src[a]].path@
                        && out@[a].1@ == self.nodes@[src[a]].node@ && is_child_of(
                        rk,
                        self.nodes@[src[a]].segs@,
                    ),
                forall|t: int|
                    0 <= t < m && is_child_of(rk, (#[trigger] self.nodes@[t]).segs@) ==> exists|
                        a: int,
                    |
                        0 <= a < src.len() && #[trigger] src[a] == t,
            decreases n - m,
        {
            let cl = self.nodes[m].segs.len();
            if cl > rsegs.len() && cl - 1 == rsegs.len() && is_prefix_segs(
                &rsegs,
                &self.nodes[m].segs,
            ) {
                out.push((self.nodes[m].path.clone(), self.nodes[m].node.clone()));
                proof {
                    let src0 = src;
                    src = src.push(m as int);
                    assert forall|t: int|
                        0 <= t < m + 1 && is_child_of(rk, (#[trigger] self.nodes@[t]).segs@) implies exists|
                        a: int,
                    |
                        0 <= a < src.len() && #[trigger] src[a] == t by {
                        if t == m {
                            assert(src[src0.len() as int] == t);
                        } else {
                            let a = choose|a: int|
                                0 <= a < src0.len() && #[trigger] src0[a] == t;
                            assert(src[a] == t);
                        }
                    }
                }
            }
            m = m + 1;
        }
        proof {
            assert forall|i: int|
                0 <= i < out@.len() implies parse_path((#[trigger] out@[i]).0@) == Some(
                self.nodes@[src[i]].segs@,
            ) by {
                assert(out@[i].0@ == self.nodes@[src[i]].path@);
            }
            assert forall|i: int|
                0 <= i < out@.len() implies self.contains_path(
                parse_path((#[trigger] out@[i]).0@)->Some_0,
            ) && out@[i].1@ == self.node_at(parse_path(out@[i].0@)->Some_0) by {
                let t = src[i];
                self.lemma_at_pos(t);
            }
            assert forall|k: Seq<u64>|
                self.contains_path(k) && is_child_of(rk, k) implies exists|i: int|
                    0 <= i < out@.len() && parse_path((#[trigger] out@[i]).0@) == Some(k) by {
                let t = choose|t: int|
                    0 <= t < self.nodes@.len() && (#[trigger] self.nodes@[t]).segs@ == k;
                let a = choose|a: int| 0 <= a < src.len() && #[trigger] src[a] == t;
                assert(parse_path(out@[a].0@) == Some(k));
            }
        }
        Ok(out)
    }
}

/// Whether the search scope admits key `k`: no scope admits everything; a
/// scope path admits exactly its own subtree.
pub open spec fn scope_admits(scope: Option<&str>, k: Seq<u64>) -> bool {
    match scope {
        Option::Some(sp) => parse_path(sp@) is Some && in_subtree(parse_path(sp@)->Some_0, k),
        Option::None => true,
    }
}

impl Store {
    proof fn lemma_bridge(self)
        requires
            self.wf(),
        ensures
            self.index@.len() == index_of(self.nodes@).len(),
            forall|i: int|
                0 <= i < self.index@.len() ==> (#[trigger] self.index@[i])@ == index_of(
                    self.nodes@,
                )[i],
    {
        assert(index_view(self.index@).len() == self.index@.len());
        assert forall|i: int|
            0 <= i < self.index@.len() implies (#[trigger] self.index@[i])@ == index_of(
            self.nodes@,
        )[i] by {
            assert(index_view(self.index@)[i] == self.index@[i]@);
        }
    }

    proof fn lemma_index_key_unique(self, i: int, j: int)
        requires
            self.wf(),
            0 <= i < self.index@.len(),
            0 <= j < self.index@.len(),
            self.index@[i].segs@ == self.index@[j].segs@,
        ensures
            i == j,
    {
        self.lemma_bridge();
        lemma_index_of_sorted(self.nodes@);
        if i < j {
            crate::codec::lemma_path_order_total(self.index@[i].segs@, self.index@[j].segs@);
        }
        if j < i {
            crate::codec::lemma_path_order_total(self.index@[j].segs@, self.index@[i].segs@);
        }
    }

    /// The index-consistency law: in a well-formed store the search index
    /// holds a row for exactly the nodes whose message is present, and that
    /// row's text is exactly the node's message. Every operation of the
    /// store preserves well-formedness, so this holds after any sequence of
    /// inserts, updates and deletes.
    pub proof fn lemma_index_matches_store(s: Store)
        requires
            s.wf(),
        ensures
            forall|k: Seq<u64>|
                #[trigger] s.index_has(k) <==> (s.contains_path(k) && s.node_at(
                    k,
                ).message is Some),
            forall|k: Seq<u64>|
                #[trigger] s.index_has(k) ==> s.index_text(k) == s.node_at(k).message->0,
    {
        s.lemma_bridge();
        lemma_index_of_entries(s.nodes@);
        assert forall|k: Seq<u64>| #[trigger] s.index_has(k) implies (s.contains_path(k)
            && s.node_at(k).message is Some && s.index_text(k) == s.node_at(k).message->0) by {
            let i = choose|i: int|
                0 <= i < s.index@.len() && (#[trigger] s.index@[i]).segs@ == k;
            assert(s.index@[i]@ == index_of(s.nodes@)[i]);
            let t = src_of(s.nodes@, i);
            assert(0 <= t < s.nodes@.len() && s.nodes@[t].node.message is Some && index_of(
                s.nodes@,
            )[i] == entry_row(s.nodes@[t]));
            assert(s.nodes@[t].segs@ == k);
            assert(s.contains_path(k));
            let w = s.key_index(k);
            assert(0 <= w < s.nodes@.len() && s.nodes@[w].segs@ == k);
            s.lemma_key_unique(w, t);
            assert(s.node_at(k) == s.nodes@[t].node@);
            let j = s.index_pos(k);
            assert(0 <= j < s.index@.len() && s.index@[j].segs@ == k);
            s.lemma_index_key_unique(i, j);
            assert(s.index_text(k) == s.index@[i].text@);
        }
        assert forall|k: Seq<u64>|
            s.contains_path(k) && s.node_at(k).message is Some implies #[trigger] s.index_has(
            k,
        ) by {
            let t0 = choose|t: int|
                0 <= t < s.nodes@.len() && (#[trigger] s.nodes@[t]).segs@ == k;
            let w = s.key_index(k);
            assert(0 <= w < s.nodes@.len() && s.nodes@[w].segs@ == k);
            s.lemma_key_unique(w, t0);
            assert(s.nodes@[t0].node@ == s.node_at(k));
            assert(s.nodes@[t0].node.message is Some);
            let a = pos_of(s.nodes@, t0);
            assert(0 <= a < index_of(s.nodes@).len() && index_of(s.nodes@)[a] == entry_row(
                s.nodes@[t0],
            ));
            assert(s.index@[a]@ == index_of(s.nodes@)[a]);
            assert(s.index@[a].segs@ == k);
        }
    }

    /// Searches the index for bodies containing `query` as a substring,
    /// optionally restricted to the subtree of `scope`. Returns the matching
    /// rows as (path, body text) pairs, in ascending path order. Fails with
    /// `MalformedPath` exactly when a given scope does not parse.
    #[verifier::rlimit(60)]
    pub fn search(&self, query: &str, scope: Option<&str>) -> (r: Result<
        Vec<(String, String)>,
        StoreError,
    >)
        requires
            self.wf(),
        ensures
            match r {
                Ok(v) => (match scope {
                    Option::Some(sp) => parse_path(sp@) is Some,
                    Option::None => true,
                }) && ({
                    &&& forall|i: int|
                        0 <= i < v@.len() ==> parse_path((#[trigger] v@[i]).0@) is Some
                    &&& forall|i: int|
                        0 <= i < v@.len() ==> self.index_has(
                            parse_path((#[trigger] v@[i]).0@)->Some_0,
                        )
                    &&& forall|i: int|
                        0 <= i < v@.len() ==> (#[trigger] v@[i]).1@ == self.index_text(
                            parse_path(v@[i].0@)->Some_0,
                        )
                    &&& forall|i: int|
                        0 <= i < v@.len() ==> contains_sub((#[trigger] v@[i]).1@, query@)
                    &&& forall|i: int|
                        0 <= i < v@.len() ==> scope_admits(
                            scope,
                            parse_path((#[trigger] v@[i]).0@)->Some_0,
                        )
                    &&& forall|i: int, j: int|
                        0 <= i < j < v@.len() ==> seq_lt(
                            parse_path((#[trigger] v@[i]).0@)->Some_0,
                            parse_path((#[trigger] v@[j]).0@)->Some_0,
                        )
                    &&& forall|k: Seq<u64>|
                        #[trigger] self.index_has(k) && contains_sub(self.index_text(k), query@)
                            && scope_admits(scope, k) ==> exists|i: int|
                            0 <= i < v@.len() && parse_path((#[trigger] v@[i]).0@) == Some(k)
                }),
                Err(e) => e == StoreError::MalformedPath && (match scope {
                    Option::Some(sp) => parse_path(sp@) is None,
                    Option::None => false,
                }),
            },
    {
        let ssegs: Option<Vec<u64>> = match scope {
            Option::Some(sp) => match decode(sp) {
                Err(e) => { return Err(e) },
                Ok(v) => Option::Some(v),
            },
            Option::None => Option::None,
        };
        proof {
            self.lemma_bridge();
            lemma_index_of_entries(self.nodes@);
            lemma_index_of_sorted(self.nodes@);
        }
        let mut out: Vec<(String, String)> = Vec::new();
        let ghost mut src: Seq<int> = Seq::empty();
        let n = self.index.len();
        let mut m: usize = 0;
        while m < n
            invariant
                m <= n,
                n == self.index@.len(),
                ssegs is Some <==> scope is Some,
                scope is Some ==> parse_path(scope->Some_0@) == Some(ssegs->Some_0@),
                src.len() == out@.len(),
                forall|a: int| 0 <= a < src.len() ==> 0 <= #[trigger] src[a] < m,
                forall|a: int, b: int| 0 <= a < b < src.len() ==> src[a] < src[b],
                forall|a: int|
                    0 <= a < src.len() ==> (#[trigger] out@[a]).0@ == self.index@[src[a]].path@
                        && out@[a].1@ == self.index@[src[a]].text@ && contains_sub(
                        self.index@[src[a]].text@,
                        query@,
                    ) && scope_admits(scope, self.index@[src[a]].segs@),
                forall|t: int|
                    0 <= t < m && contains_sub((#[trigger] self.index@[t]).text@, query@)
                        && scope_admits(scope, self.index@[t].segs@) ==> exists|a: int|
                        0 <= a < src.len() && #[trigger] src[a] == t,
            decreases n - m,
        {
            let matched = contains_substring(self.index[m].text.as_str(), query);
            let in_scope = match &ssegs {
                Option::Some(sv) => is_prefix_segs(sv, &self.index[m].segs),
                Option::None => true,
            };
            if matched && in_scope {
                out.push((self.index[m].path.clone(), self.index[m].text.clone()));
                proof {
                    let src0 = src;
                    src = src.push(m as int);
                    let last: int = out@.len() - 1;
                    assert(src[last] == m as int);
                    assert forall|a: int|
                        0 <= a < src.len() implies (#[trigger] out@[a]).0@
                        == self.index@[src[a]].path@ && out@[a].1@ == self.index@[src[a]].text@
                        && contains_sub(self.index@[src[a]].text@, query@) && scope_admits(
                        scope,
                        self.index@[src[a]].segs@,
                    ) by {
                        if a < last {
                            assert(src[a] == src0[a]);
                        } else {
                            assert(a == last);
                            assert(src[a] == m as int);
                            assert(out@[a].0@ == self.index@[m as int].path@);
                            assert(out@[a].1@ == self.index@[m as int].text@);
                            assert(contains_sub(self.index@[m as int].text@, query@));
                            assert(scope_admits(scope, self.index@[m as int].segs@));
                        }
                    }
                    assert forall|t: int|
                        0 <= t < m + 1 && contains_sub((#[trigger] self.index@[t]).text@, query@)
                            && scope_admits(scope, self.index@[t].segs@) implies exists|a: int|
                        0 <= a < src.len() && #[trigger] src[a] == t by {
                        if t == m {
                            assert(src[src0.len() as int] == t);
                        } else {
                            let a = choose|a: int|
                                0 <= a < src0.len() && #[trigger] src0[a] == t;
                            assert(src[a] == t);
                        }
                    }
                }
            }
            m = m + 1;
        }
        proof {
            assert forall|i: int|
                0 <= i < out@.len() implies parse_path((#[trigger] out@[i]).0@) == Some(
                self.index@[src[i]].segs@,
            ) && self.index_has(self.index@[src[i]].segs@) && out@[i].1@ == self.index_text(
                self.index@[src[i]].segs@,
            ) by {
                let t = src[i];
                let k = self.index@[t].segs@;
                assert(self.index@[t]@ == index_of(self.nodes@)[t]);
                let u = src_of(self.nodes@, t);
                assert(0 <= u < self.nodes@.len() && self.nodes@[u].node.message is Some
                    && index_of(self.nodes@)[t] == entry_row(self.nodes@[u]));
                assert(self.index@[t].path@ == self.nodes@[u].path@);
                assert(parse_path(self.nodes@[u].path@) == Some(self.nodes@[u].segs@));
                assert(self.index@[t].segs@ == self.nodes@[u].segs@);
                assert(self.index_has(k));
                let j = self.index_pos(k);
                assert(0 <= j < self.index@.len() && self.index@[j].segs@ == k);
                self.lemma_index_key_unique(t, j);
            }
            assert forall|i: int, j: int| 0 <= i < j < out@.len() implies seq_lt(
                parse_path((#[trigger] out@[i]).0@)->Some_0,
                parse_path((#[trigger] out@[j]).0@)->Some_0,
            ) by {
                let a = src[i];
                let b = src[j];
                assert(self.index@[a]@ == index_of(self.nodes@)[a]);
                assert(self.index@[b]@ == index_of(self.nodes@)[b]);
                assert(seq_lt(index_of(self.nodes@)[a].segs, index_of(self.nodes@)[b].segs));
            }
            assert forall|k: Seq<u64>|
                #[trigger] self.index_has(k) && contains_sub(self.index_text(k), query@)
                    && scope_admits(scope, k) implies exists|i: int|
                0 <= i < out@.len() && parse_path((#[trigger] out@[i]).0@) == Some(k) by {
                let t = choose|t: int|
                    0 <= t < self.index@.len() && (#[trigger] self.index@[t]).segs@ == k;
                let j = self.index_pos(k);
                assert(0 <= j < self.index@.len() && self.index@[j].segs@ == k);
                self.lemma_index_key_unique(t, j);
                assert(self.index_text(k) == self.index@[t].text@);
                let a = choose|a: int| 0 <= a < src.len() && #[trigger] src[a] == t;
                assert(parse_path(out@[a].0@) == Some(k));
            }
        }
        Ok(out)
    }

    /// Drops the index and rebuilds it from the node table's current
    /// content — the repair half of drift recovery, callable on any store.
    /// Afterwards the index holds exactly the rows the node table calls
    /// for; on an already well-formed store this is an observable identity:
    /// the rebuilt index holds exactly the rows the incremental maintenance
    /// had kept. Idempotent; the node table is never touched.
    #[verifier::rlimit(60)]
    pub fn reindex(&mut self)
        ensures
            final(self).index_consistent(),
            old(self).wf() ==> final(self).wf(),
            final(self).node_count() == old(self).node_count(),
            forall|k: Seq<u64>|
                #[trigger] final(self).contains_path(k) == old(self).contains_path(k),
            forall|k: Seq<u64>| #[trigger] final(self).node_at(k) == old(self).node_at(k),
            old(self).wf() ==> (forall|k: Seq<u64>|
                #[trigger] final(self).index_has(k) == old(self).index_has(k)),
            old(self).wf() ==> (forall|k: Seq<u64>|
                old(self).index_has(k) ==> #[trigger] final(self).index_text(k) == old(
                    self,
                ).index_text(k)),
    {
        let mut new_index: Vec<IndexEntry> = Vec::new();
        let n = self.nodes.len();
        let mut j: usize = 0;
        while j < n
            invariant
                j <= n,
                n == self.nodes@.len(),
                index_view(new_index@) == index_of(self.nodes@.take(j as int)),
            decreases n - j,
        {
            proof {
                assert(self.nodes@.take(j + 1).drop_last() =~= self.nodes@.take(j as int));
                assert(self.nodes@.take(j + 1).last() == self.nodes@[j as int]);
            }
            match &self.nodes[j].node.message {
                Option::Some(m) => {
                    let row = IndexEntry {
                        path: self.nodes[j].path.clone(),
                        segs: copy_segs(&self.nodes[j].segs),
                        text: m.clone(),
                    };
                    let ghost grow = row;
                    new_index.push(row);
                    proof {
                        assert(entry_chunk(self.nodes@[j as int]) =~= seq![grow@]);
                        assert(index_view(new_index@) =~= index_of(self.nodes@.take(j + 1)));
                    }
                },
                Option::None => {
                    proof {
                        assert(entry_chunk(self.nodes@[j as int])
                            =~= Seq::<IndexEntryV>::empty());
                        assert(index_view(new_index@) =~= index_of(self.nodes@.take(j + 1)));
                    }
                },
            }
            j = j + 1;
        }
        proof {
            assert(self.nodes@.take(n as int) =~= self.nodes@);
        }
        let ghost old_index = self.index@;
        self.index = new_index;
        proof {
            assert(index_view(self.index@) == index_of(self.nodes@));
            Self::lemma_same_nodes(*self, *old(self));
            if old(self).wf() {
                assert(index_view(old_index) == index_of(self.nodes@));
                assert(old_index.len() == self.index@.len());
                assert forall|i: int|
                    0 <= i < self.index@.len() implies (#[trigger] self.index@[i])@
                    == old_index[i]@ by {
                    assert(index_view(self.index@)[i] == self.index@[i]@);
                    assert(index_view(old_index)[i] == old_index[i]@);
                }
                assert forall|k: Seq<u64>| #[trigger] final(self).index_has(k) == old(
                    self,
                ).index_has(k) by {
                    if old(self).index_has(k) {
                        let i = choose|i: int|
                            0 <= i < old_index.len() && (#[trigger] old_index[i]).segs@ == k;
                        assert(self.index@[i].segs@ == k);
                    }
                    if final(self).index_has(k) {
                        let i = choose|i: int|
                            0 <= i < self.index@.len() && (#[trigger] self.index@[i]).segs@ == k;
                        assert(old_index[i].segs@ == k);
                    }
                }
                assert forall|k: Seq<u64>|
                    old(self).index_has(k) implies #[trigger] final(self).index_text(k) == old(
                    self,
                ).index_text(k) by {
                    let i = old(self).index_pos(k);
                    assert(0 <= i < old_index.len() && old_index[i].segs@ == k);
                    assert(self.index@[i].segs@ == k);
                    let j2 = final(self).index_pos(k);
                    assert(0 <= j2 < self.index@.len() && self.index@[j2].segs@ == k);
                    self.lemma_index_key_unique(i, j2);
                }
            }
        }
    }
}

impl Store {
    /// Compares the search index row by row against what the node table
    /// calls for, deciding exactly `index_consistent` and repairing nothing
    /// (repair is `reindex`): `Ok` iff the index holds exactly the rows the
    /// node table calls for, `IndexDrift` otherwise. A well-formed store
    /// always passes: every mutation of this store maintains the index in
    /// the same call, so drift cannot arise through this interface.
    #[verifier::rlimit(60)]
    pub fn check_index(&self) -> (r: Result<(), StoreError>)
        ensures
            r is Ok <==> self.index_consistent(),
            self.wf() ==> r is Ok,
            r is Err ==> r->Err_0 == StoreError::IndexDrift,
    {
        let n = self.nodes.len();
        let mut j: usize = 0;
        let mut i: usize = 0;
        while i < n
            invariant
                i <= n,
                n == self.nodes@.len(),
                j <= self.index@.len(),
                index_view(self.index@).subrange(0, j as int) == index_of(
                    self.nodes@.take(i as int),
                ),
            decreases n - i,
        {
            let ghost pre = self.nodes@.take(i as int);
            let ghost post = self.nodes@.skip(i as int + 1);
            let ghost cur = self.nodes@[i as int];
            proof {
                assert(self.nodes@.take(i + 1).drop_last() =~= pre);
                assert(self.nodes@.take(i + 1).last() == cur);
                assert(index_of(pre).len() == j);
                assert(self.nodes@ =~= (pre + seq![cur]) + post);
                lemma_index_of_add(pre + seq![cur], post);
                lemma_index_of_add(pre, seq![cur]);
                lemma_index_of_singleton(cur);
            }
            match &self.nodes[i].node.message {
                Option::Some(m) => {
                    proof {
                        assert(entry_chunk(cur).len() == 1);
                        assert(entry_chunk(cur)[0] == entry_row(cur));
                        assert(index_of(self.nodes@)[j as int] == entry_row(cur));
                        assert(j < index_of(self.nodes@).len());
                    }
                    if j >= self.index.len() {
                        proof {
                            if self.index_consistent() {
                                assert(self.index@.len() == index_of(self.nodes@).len());
                                assert(false);
                            }
                        }
                        return Err(StoreError::IndexDrift);
                    }
                    let keys_ok = cmp_segs(&self.index[j].segs, &self.nodes[i].segs) == 0;
                    let path_ok = self.index[j].path.eq(&self.nodes[i].path);
                    let text_ok = self.index[j].text.eq(m);
                    if !(keys_ok && path_ok && text_ok) {
                        proof {
                            if self.index_consistent() {
                                assert(index_view(self.index@)[j as int] == self.index@[
                                    j as int
                                ]@);
                                assert(self.index@[j as int]@ == entry_row(cur));
                                assert(self.index@[j as int].segs@ == cur.segs@);
                                assert(self.index@[j as int].path@ == cur.path@);
                                assert(self.index@[j as int].text@ == cur.node.message->0@);
                                assert(false);
                            }
                        }
                        return Err(StoreError::IndexDrift);
                    }
                    proof {
                        assert(index_view(self.index@)[j as int] == self.index@[j as int]@);
                        assert(self.index@[j as int]@ == entry_row(cur));
                        assert(index_view(self.index@).subrange(0, j + 1) =~= index_of(
                            self.nodes@.take(i + 1),
                        ));
                    }
                    j = j + 1;
                },
                Option::None => {
                    proof {
                        assert(entry_chunk(cur) =~= Seq::<IndexEntryV>::empty());
                        assert(index_view(self.index@).subrange(0, j as int) =~= index_of(
                            self.nodes@.take(i + 1),
                        ));
                    }
                },
            }
            i = i + 1;
        }
        proof {
            assert(self.nodes@.take(n as int) =~= self.nodes@);
        }
        if j != self.index.len() {
            proof {
                if self.index_consistent() {
                    assert(index_of(self.nodes@).len() == self.index@.len());
                    assert(index_view(self.index@).subrange(0, j as int).len() == j);
                    assert(false);
                }
            }
            return Err(StoreError::IndexDrift);
        }
        proof {
            assert(index_view(self.index@).subrange(0, self.index@.len() as int) =~= index_view(
                self.index@,
            ));
        }
        Ok(())
    }
}

fn copy_segs(v: &Vec<u64>) -> (r: Vec<u64>)
    ensures
        r@ == v@,
{
    let mut r: Vec<u64> = Vec::new();
    let mut i: usize = 0;
    while i < v.len()
        invariant
            i <= v@.len(),
            r@ == v@.take(i as int),
        decreases v@.len() - i,
    {
        r.push(v[i]);
        proof {
            assert(v@.take(i + 1).drop_last() =~= v@.take(i as int));
            assert(v@.take(i + 1).last() == v@[i as int]);
            assert(r@ =~= v@.take(i + 1));
        }
        i = i + 1;
    }
    proof {
        assert(v@.take(v@.len() as int) =~= v@);
    }
    r
}

} // verus!
