use repub::epub::{
    get_book_metadata, get_book_type, get_rootfile_path, is_epub_name, parse_char_list,
    rename_line, suggested_name, BookMetadata,
};
use repub::error::AppError;

const CONTAINER: &str = r#"<?xml version="1.0" encoding="UTF-8"?>
<container version="1.0" xmlns="urn:oasis:names:tc:opendocument:xmlns:container">
  <rootfiles>
    <rootfile full-path="OEBPS/content.opf" media-type="application/oebps-package+xml"/>
  </rootfiles>
</container>"#;

#[test]
fn resolves_rootfile_path() {
    assert_eq!(get_rootfile_path(CONTAINER).unwrap(), "OEBPS/content.opf");
}

#[test]
fn first_rootfile_wins() {
    let doc = r#"<container><rootfiles>
        <rootfile full-path="first.opf"/>
        <rootfile full-path="second.opf"/>
    </rootfiles></container>"#;
    assert_eq!(get_rootfile_path(doc).unwrap(), "first.opf");
}

#[test]
fn rootfile_path_is_unescaped() {
    let doc = r#"<container><rootfile full-path="a&amp;b/content.opf"/></container>"#;
    assert_eq!(get_rootfile_path(doc).unwrap(), "a&b/content.opf");
}

#[test]
fn missing_rootfile_is_bad_metadata_and_batch_continues() {
    let doc = r#"<?xml version="1.0"?><container><rootfiles></rootfiles></container>"#;
    match get_rootfile_path(doc) {
        Err(AppError::BadMetadataStructure { reason }) => {
            assert_eq!(reason, "Cannot find rootfile");
        }
        other => panic!("expected BadMetadataStructure, got {:?}", other.is_ok()),
    }
    // A later, valid document in the same batch is unaffected by the failure.
    assert_eq!(get_rootfile_path(CONTAINER).unwrap(), "OEBPS/content.opf");
}

#[test]
fn rootfile_without_full_path_attribute() {
    let doc = r#"<container><rootfile media-type="application/oebps-package+xml"/></container>"#;
    match get_rootfile_path(doc) {
        Err(AppError::BadMetadataStructure { reason }) => {
            assert_eq!(reason, "Cannot find full-path attribute");
        }
        _ => panic!("expected BadMetadataStructure"),
    }
}

#[test]
fn malformed_container_reports_position_and_path() {
    let doc = "<container><rootfile";
    match get_rootfile_path(doc) {
        Err(AppError::XMLSyntaxError { position, path }) => {
            assert_eq!(path, "META-INF/container.xml");
            assert_eq!(position, 11);
        }
        _ => panic!("expected XMLSyntaxError"),
    }
}

const OPF: &str = r#"<?xml version="1.0" encoding="UTF-8"?>
<package xmlns="http://www.idpf.org/2007/opf" version="2.0">
  <metadata>
    <!-- bibliographic block -->
    <dc:title>ほげほげ（２）</dc:title>
    <dc:creator>山田 太郎</dc:creator>
    <dc:language>ja</dc:language>
  </metadata>
</package>"#;

#[test]
fn extracts_author_and_title() {
    let md = get_book_metadata(OPF, "OEBPS/content.opf").unwrap();
    assert_eq!(md.author.as_deref(), Some("山田 太郎"));
    assert_eq!(md.title.as_deref(), Some("ほげほげ（２）"));
    assert!(md.is_filled());
}

#[test]
fn empty_title_element_yields_empty_string() {
    let doc = "<package><dc:creator>A</dc:creator><dc:title></dc:title></package>";
    let md = get_book_metadata(doc, "p.opf").unwrap();
    assert_eq!(md.title.as_deref(), Some(""));
    assert_eq!(md.author.as_deref(), Some("A"));
}

#[test]
fn self_closing_title_yields_empty_string() {
    let doc = "<package><dc:title/><dc:creator>A</dc:creator></package>";
    let md = get_book_metadata(doc, "p.opf").unwrap();
    assert_eq!(md.title.as_deref(), Some(""));
}

#[test]
fn missing_fields_stay_unset_without_error() {
    let doc = "<package><dc:language>ja</dc:language></package>";
    let md = get_book_metadata(doc, "p.opf").unwrap();
    assert!(md.author.is_none());
    assert!(md.title.is_none());
    assert!(!md.is_filled());
}

#[test]
fn first_title_wins() {
    let doc = "<package><dc:title>one</dc:title><dc:title>two</dc:title>\
               <dc:creator>A</dc:creator></package>";
    let md = get_book_metadata(doc, "p.opf").unwrap();
    assert_eq!(md.title.as_deref(), Some("one"));
}

#[test]
fn scan_stops_once_both_fields_are_set() {
    // The garbage after both elements is never reached.
    let doc = "<package><dc:creator>A</dc:creator><dc:title>T</dc:title><broken";
    let md = get_book_metadata(doc, "p.opf").unwrap();
    assert_eq!(md.author.as_deref(), Some("A"));
    assert_eq!(md.title.as_deref(), Some("T"));
}

#[test]
fn text_is_unescaped() {
    let doc = "<package><dc:title>A &amp; B &#x41;&#66;</dc:title></package>";
    let md = get_book_metadata(doc, "p.opf").unwrap();
    assert_eq!(md.title.as_deref(), Some("A & B AB"));
}

#[test]
fn bad_entity_is_a_syntax_error() {
    let doc = "<package><dc:title>bad &nosuch; text</dc:title></package>";
    match get_book_metadata(doc, "p.opf") {
        Err(AppError::XMLSyntaxError { position: _, path }) => {
            assert_eq!(path, "p.opf");
        }
        _ => panic!("expected XMLSyntaxError"),
    }
}

#[test]
fn truncated_opf_is_a_syntax_error() {
    let doc = "<package><dc:title>T</dc:title><dc:creator";
    match get_book_metadata(doc, "p.opf") {
        Err(AppError::XMLSyntaxError { position, path }) => {
            assert_eq!(path, "p.opf");
            assert!(position > 0);
        }
        _ => panic!("expected XMLSyntaxError"),
    }
}

#[test]
fn comments_declarations_and_cdata_are_skipped() {
    let doc = "<?xml version=\"1.0\"?><!DOCTYPE package><package>\
               <!-- a comment --><![CDATA[ignored]]>\
               <dc:title>T</dc:title><dc:creator>A</dc:creator></package>";
    let md = get_book_metadata(doc, "p.opf").unwrap();
    assert_eq!(md.title.as_deref(), Some("T"));
    assert_eq!(md.author.as_deref(), Some("A"));
}

#[test]
fn finds_book_type_attribute() {
    let doc = "<package><meta name=\"book-type\" content=\"comic\"/></package>";
    assert_eq!(get_book_type(doc, "p.opf").unwrap().as_deref(), Some("comic"));
    let doc2 = "<package><meta name=\"other\" content=\"comic\"/></package>";
    assert_eq!(get_book_type(doc2, "p.opf").unwrap(), None);
}

#[test]
fn full_pipeline_title_scenarios() {
    let patterns: Vec<String> = Vec::new();
    let cases = [
        ("xxx (1) yyy", "xxx 01 yyy"),
        ("xxx第1巻", "xxx 01"),
        ("  xxx   yyy  ", "xxx yyy"),
    ];
    for (raw, want) in cases {
        let mut md = BookMetadata {
            author: None,
            title: Some(raw.to_string()),
        };
        md.format(&patterns);
        assert_eq!(md.title.as_deref(), Some(want));
    }
}

#[test]
fn full_pipeline_author_scenario() {
    let mut md = BookMetadata {
        author: Some("ａｚ1ＡＺa０９".to_string()),
        title: None,
    };
    md.format_author();
    assert_eq!(md.author.as_deref(), Some("az1AZa09"));
}

#[test]
fn format_title_removes_listed_characters() {
    let patterns = vec!["【完結】".to_string()];
    let mut md = BookMetadata {
        author: None,
        title: Some("タイトル【完結】（３）".to_string()),
    };
    md.format(&patterns);
    assert_eq!(md.title.as_deref(), Some("タイトル 03"));
}

#[test]
fn metadata_new_is_empty() {
    let md = BookMetadata::new();
    assert!(md.author.is_none());
    assert!(md.title.is_none());
    assert!(!md.is_filled());
}

#[test]
fn rename_line_formats_the_report() {
    let md = BookMetadata {
        author: Some("Auth".to_string()),
        title: Some("Title 01".to_string()),
    };
    assert_eq!(
        rename_line("orig.epub", &md).unwrap(),
        "rename \"orig.epub\" \"[Auth]Title 01.epub\""
    );
    assert_eq!(suggested_name("A", "T"), "[A]T.epub");
}

#[test]
fn rename_line_needs_both_fields() {
    let md = BookMetadata {
        author: None,
        title: Some("T".to_string()),
    };
    assert!(rename_line("orig.epub", &md).is_none());
}

#[test]
fn parses_character_list_lines() {
    let text = "aa\n\nbb\r\ncc";
    assert_eq!(parse_char_list(text), vec!["aa", "bb", "cc"]);
    assert_eq!(parse_char_list(""), Vec::<String>::new());
    assert_eq!(parse_char_list("\r\n\n"), Vec::<String>::new());
}

#[test]
fn recognizes_epub_names_case_insensitively() {
    assert!(is_epub_name("book.epub"));
    assert!(is_epub_name("BOOK.EPUB"));
    assert!(is_epub_name("a.ePUb"));
    assert!(!is_epub_name("book.pdf"));
    assert!(!is_epub_name("epub"));
}

#[test]
fn error_messages_carry_position_and_path() {
    let e = AppError::XMLSyntaxError {
        position: 42,
        path: "OEBPS/content.opf".to_string(),
    };
    assert_eq!(e.message(), "Error at position 42 in OEBPS/content.opf");
    let b = AppError::BadArchiveStructure {
        reason: "Cannot find META-INF/container.xml".to_string(),
    };
    assert_eq!(b.message(), "Cannot find META-INF/container.xml");
}

#[test]
fn single_quoted_attributes_are_read() {
    let doc = "<container><rootfile full-path='single.opf'/></container>";
    assert_eq!(get_rootfile_path(doc).unwrap(), "single.opf");
}

#[test]
fn nested_markup_inside_element_is_skipped() {
    let doc = "<package><dc:title><span>T</span></dc:title>\
               <dc:creator>A</dc:creator></package>";
    let md = get_book_metadata(doc, "p.opf").unwrap();
    assert_eq!(md.title.as_deref(), Some("T"));
}

#[test]
fn attribute_value_with_quoted_gt_does_not_end_the_tag() {
    let doc = "<container><rootfile media-type=\"a>b\" full-path=\"x.opf\"/></container>";
    assert_eq!(get_rootfile_path(doc).unwrap(), "x.opf");
}
