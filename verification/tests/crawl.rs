use file_crawler::{is_supported_file_type, should_include_file};

#[test]
fn supported_types_are_the_office_and_pdf_extensions() {
    assert!(is_supported_file_type("report.pdf"));
    assert!(is_supported_file_type("dir/sheet.xlsx"));
    assert!(is_supported_file_type("a/b/c/memo.doc"));
    assert!(is_supported_file_type("slides.docx"));
    assert!(is_supported_file_type("deck.ppt"));
    assert!(is_supported_file_type("deck.pptx"));
}

#[test]
fn extension_comparison_ignores_letter_case() {
    assert!(is_supported_file_type("REPORT.PDF"));
    assert!(is_supported_file_type("mixed.PpTx"));
}

#[test]
fn unsupported_or_missing_extensions_are_rejected() {
    assert!(!is_supported_file_type("notes.txt"));
    assert!(!is_supported_file_type("archive.tar.gz"));
    assert!(!is_supported_file_type("no_extension"));
    assert!(!is_supported_file_type(".gitignore"));
    assert!(!is_supported_file_type("dir.pdf/file"));
    assert!(!is_supported_file_type(""));
}

#[test]
fn since_filter_keeps_newer_files_and_unknown_timestamps() {
    assert!(should_include_file(None, Some(5)));
    assert!(should_include_file(None, None));
    assert!(should_include_file(Some(10), Some(10)));
    assert!(should_include_file(Some(10), Some(11)));
    assert!(!should_include_file(Some(10), Some(9)));
    assert!(should_include_file(Some(10), None));
}
