use mammal_store::files::{extension_of, file_kind, FileKind};

#[test]
fn extension_is_text_after_last_dot() {
    assert_eq!(extension_of("notes.docx"), "docx");
    assert_eq!(extension_of("archive.tar.gz"), "gz");
    assert_eq!(extension_of("/tmp/a.b/readme.md"), "md");
}

#[test]
fn extension_of_dotless_name_is_whole_name() {
    assert_eq!(extension_of("Makefile"), "Makefile");
    assert_eq!(extension_of(""), "");
}

#[test]
fn file_kind_routes_by_extension() {
    assert_eq!(file_kind("docx"), FileKind::Docx);
    assert_eq!(file_kind("md"), FileKind::PlainText);
    assert_eq!(file_kind("txt"), FileKind::PlainText);
    assert_eq!(file_kind("csv"), FileKind::PlainText);
    assert_eq!(file_kind("json"), FileKind::PlainText);
    assert_eq!(file_kind("pdf"), FileKind::Unsupported);
    assert_eq!(file_kind(""), FileKind::Unsupported);
    assert_eq!(file_kind("DOCX"), FileKind::Unsupported);
}
