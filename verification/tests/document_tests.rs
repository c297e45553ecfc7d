use mupdf_mini_rs::document::{check_page_index, join_page_texts, page_png_path, validate_page_count};
use mupdf_mini_rs::text::{push_decimal, trim_whitespace};
use mupdf_mini_rs::Error;

#[test]
fn empty_documents_are_refused() {
    assert_eq!(validate_page_count(0), Err(Error::EmptyDocument));
    assert_eq!(validate_page_count(3), Ok(3));
}

#[test]
fn page_indices_outside_the_document_are_errors() {
    // Every in-range page is accepted; one past the end is refused.
    for i in 0..3 {
        assert_eq!(check_page_index(i, 3), Ok(()));
    }
    assert_eq!(check_page_index(3, 3), Err(Error::PageOutOfRange { index: 3, count: 3 }));
    assert_eq!(check_page_index(99, 3), Err(Error::PageOutOfRange { index: 99, count: 3 }));
    assert_eq!(check_page_index(5, 1), Err(Error::PageOutOfRange { index: 5, count: 1 }));
}

#[test]
fn error_messages() {
    assert_eq!(Error::EmptyDocument.message(), "document contains no pages");
    assert_eq!(
        Error::PageOutOfRange { index: 5, count: 1 }.message(),
        "page 5 out of range (document has 1 pages)"
    );
    assert_eq!(
        Error::PageOutOfRange { index: 1024, count: 0 }.message(),
        "page 1024 out of range (document has 0 pages)"
    );
}

#[test]
fn page_texts_are_trimmed_and_joined() {
    let texts = vec![
        "  Hello MuPDF mini\n".to_string(),
        " \t\n".to_string(),
        "Page 2 of the mini viewer\u{3000}".to_string(),
        String::new(),
        "\u{a0}last".to_string(),
    ];
    assert_eq!(
        join_page_texts(&texts),
        "Hello MuPDF mini\n\nPage 2 of the mini viewer\n\nlast"
    );
}

#[test]
fn blank_documents_have_no_text() {
    assert_eq!(join_page_texts(&[]), "");
    assert_eq!(join_page_texts(&[" ".to_string(), "\n\n".to_string()]), "");
    assert_eq!(join_page_texts(&["你好，世界".to_string()]), "你好，世界");
}

#[test]
fn trimming_keeps_inner_whitespace() {
    assert_eq!(trim_whitespace("  a  b \r\n"), "a  b");
    assert_eq!(trim_whitespace("\u{2003}x\u{85}"), "x");
    assert_eq!(trim_whitespace("   "), "");
    assert_eq!(trim_whitespace("x"), "x");
}

#[test]
fn exported_pages_are_numbered() {
    assert_eq!(page_png_path("out/page", 0), "out/page-0.png");
    assert_eq!(page_png_path("page", 12), "page-12.png");
    assert_eq!(page_png_path("", 1000), "-1000.png");
}

#[test]
fn decimal_numerals() {
    let mut s = String::from("n=");
    push_decimal(&mut s, 0);
    s.push(',');
    push_decimal(&mut s, 90);
    s.push(',');
    push_decimal(&mut s, usize::MAX);
    assert_eq!(s, format!("n=0,90,{}", usize::MAX));
}
