use litecode::error::LiteCodeError;
use litecode::json::{get, insert_field, remove_field, JsonValue};
use lopdf::content::{Content, Operation};
use lopdf::{Dictionary, Document, Object, Stream};
use litecode::escapes::{decode_unicode_escapes, maybe_decode_unicode_escapes};
use litecode::file_service::{
    apply_edit, detect_image_mime_type, read_kind, read_text_file, render_text_read,
    window_file_content, FileService, ReadFileOutput, ReadKind,
};
use litecode::paths::same_path;
use litecode::pdf::{read_pdf_text, render_pdf_pages, select_pdf_pages};
use litecode::replace::{replace_all_exec, replace_first_exec};
use litecode::schema::{EditInput, WriteInput};
use litecode::text::chars_of;

fn message(e: &LiteCodeError) -> String {
    e.message()
}

fn service() -> FileService {
    FileService::new("/work".to_string())
}

fn edit_input(path: &str, old: &str, new: &str, all: bool) -> EditInput {
    EditInput {
        file_path: path.to_string(),
        old_string: old.to_string(),
        new_string: new.to_string(),
        replace_all: all,
        decode_unicode_escapes: false,
    }
}

#[test]
fn read_returns_plain_content_slice() {
    let out = render_text_read("alpha\nbeta\ngamma\n", Some(1), Some(1));
    assert_eq!(out, ReadFileOutput::Text("beta".to_string()));
}

#[test]
fn read_window_defaults_and_bounds() {
    assert_eq!(window_file_content("a\r\nb\nc", 0, 2000), "a\nb\nc");
    assert_eq!(window_file_content("a\nb\nc", 5, 2), "");
    assert_eq!(window_file_content("a\nb\nc", 1, 0), "");
    assert_eq!(window_file_content("a\nb\nc", 1, usize::MAX), "b\nc");
    assert_eq!(
        render_text_read("", None, None),
        ReadFileOutput::Text("Warning: file exists but is empty.".to_string())
    );
}

#[test]
fn read_text_file_replaces_invalid_bytes() {
    let raw = vec![b'o', b'k', 0xff, b'\n', b'x'];
    let out = read_text_file(&raw, None, None);
    assert_eq!(out, ReadFileOutput::Text("ok\u{fffd}\nx".to_string()));
}

#[test]
fn read_returns_image_output_for_supported_extensions() {
    assert_eq!(read_kind("/tmp/sample.png"), ReadKind::Image("image/png".to_string()));
    assert_eq!(read_kind("/tmp/photo.JPEG"), ReadKind::Image("image/jpeg".to_string()));
    assert_eq!(read_kind("/tmp/doc.pdf"), ReadKind::Pdf);
    assert_eq!(read_kind("/tmp/note.ipynb"), ReadKind::Notebook);
    assert_eq!(read_kind("/tmp/notes.txt"), ReadKind::Text);
    assert_eq!(detect_image_mime_type("webp"), Some("image/webp".to_string()));
    assert_eq!(detect_image_mime_type("svg"), None);
}

#[test]
fn write_existing_file_requires_read() {
    let s = service();
    let err = s.check_write_allowed("/work/sample.txt", true).unwrap_err();
    assert!(message(&err).contains("prior Read"));
    assert_eq!(
        message(&err),
        "Write requires a prior Read for existing file /work/sample.txt."
    );
    assert!(s.check_write_allowed("/work/new.txt", false).is_ok());
}

#[test]
fn write_after_read_is_allowed() {
    let mut s = service();
    s.mark_read("/work/./sample.txt");
    assert!(s.has_read("/work/sample.txt"));
    assert!(s.check_write_allowed("/work/sample.txt", true).is_ok());
    assert!(!s.has_read("/work/other.txt"));
    assert!(same_path("/a//b/./c", "/a/b/c"));
    assert!(!same_path("/a/b", "a/b"));
}

#[test]
fn write_reports_created_file() {
    let mut s = service();
    let input = WriteInput {
        file_path: "/work/sample.txt".to_string(),
        content: "after".to_string(),
        decode_unicode_escapes: false,
    };
    let (path, content) = s.prepare_write(&input).unwrap();
    let out = s.finish_write(&path, &content, false);
    assert!(out.success);
    assert_eq!(out.message, "Wrote /work/sample.txt (created new file, 5 bytes).");
    assert!(s.has_read("/work/sample.txt"));
}

#[test]
fn write_reports_overwritten_file() {
    let mut s = service();
    let out = s.finish_write("/work/sample.txt", "after!", true);
    assert_eq!(out.message, "Wrote /work/sample.txt (overwrote existing file, 6 bytes).");
    let wide = s.finish_write("/work/wide.txt", "你好", false);
    assert_eq!(wide.message, "Wrote /work/wide.txt (created new file, 6 bytes).");
}

#[test]
fn write_rejects_relative_paths() {
    let s = service();
    let input = WriteInput {
        file_path: "sample.txt".to_string(),
        content: "x".to_string(),
        decode_unicode_escapes: false,
    };
    let err = s.prepare_write(&input).unwrap_err();
    assert_eq!(message(&err), "Expected an absolute file path, got sample.txt.");
}

#[test]
fn write_decodes_unicode_escapes_when_enabled() {
    let decoded = decode_unicode_escapes("\\u4F60\\u597D \\uD83D\\uDE00").unwrap();
    assert_eq!(decoded, "你好 😀");
    let s = service();
    let input = WriteInput {
        file_path: "/work/sample.txt".to_string(),
        content: "\\u4F60\\u597D \\uD83D\\uDE00".to_string(),
        decode_unicode_escapes: true,
    };
    let (_, content) = s.prepare_write(&input).unwrap();
    assert_eq!(content, "你好 😀");
}

#[test]
fn write_rejects_invalid_unicode_escape_when_enabled() {
    let err = maybe_decode_unicode_escapes(true, "\\u12ZZ", "content").unwrap_err();
    assert!(message(&err).contains("Invalid Unicode escape in content"));
    assert_eq!(
        message(&err),
        "Invalid Unicode escape in content: invalid escape \\u12ZZ at byte 0"
    );
}

#[test]
fn unicode_escape_errors_are_reported() {
    assert_eq!(
        decode_unicode_escapes("\\u000é").unwrap_err(),
        "invalid escape at byte 0; the four bytes after \\u end inside a character"
    );
    assert!(matches!(
        maybe_decode_unicode_escapes(true, "x\\u000é", "old_string"),
        Err(LiteCodeError::InvalidInput(_))
    ));
    assert_eq!(
        decode_unicode_escapes("ab\\u12").unwrap_err(),
        "truncated escape at byte 2; expected four hexadecimal digits after \\u"
    );
    assert_eq!(
        decode_unicode_escapes("\\uDC00").unwrap_err(),
        "unexpected low surrogate \\uDC00 at byte 0"
    );
    assert_eq!(
        decode_unicode_escapes("\\uD83Dx").unwrap_err(),
        "high surrogate \\uD83D at byte 0 must be followed by a low surrogate"
    );
    assert_eq!(
        decode_unicode_escapes("\\uD83D\\u0041").unwrap_err(),
        "high surrogate \\uD83D at byte 0 must be followed by a low surrogate, found \\u0041"
    );
    assert_eq!(decode_unicode_escapes("plain \\n text").unwrap(), "plain \\n text");
    assert_eq!(maybe_decode_unicode_escapes(false, "\\u12ZZ", "content").unwrap(), "\\u12ZZ");
}

#[test]
fn edit_replaces_unique_string() {
    let mut s = service();
    s.mark_read("/work/sample.txt");
    let request = s.prepare_edit(&edit_input("/work/sample.txt", "before", "during", false)).unwrap();
    let (updated, replacements) = apply_edit(&request, "before after").unwrap();
    assert_eq!(updated, "during after");
    assert_eq!(replacements, 1);
    let out = s.finish_edit(&request.path, replacements);
    assert!(out.success);
    assert_eq!(out.message, "Edited /work/sample.txt (replaced 1 location).");
}

#[test]
fn edit_keeps_text_around_the_replacement() {
    let mut s = service();
    s.mark_read("/work/sample.txt");
    let request = s.prepare_edit(&edit_input("/work/sample.txt", "x = 1", "x = 2", false)).unwrap();
    let (updated, _) = apply_edit(&request, "fn f() {\n    x = 1;\n}\n").unwrap();
    assert_eq!(updated, "fn f() {\n    x = 2;\n}\n");
}

#[test]
fn edit_reports_all_replacements() {
    let mut s = service();
    s.mark_read("/work/sample.txt");
    let request = s.prepare_edit(&edit_input("/work/sample.txt", "before", "after", true)).unwrap();
    let (updated, replacements) = apply_edit(&request, "before and before again").unwrap();
    assert_eq!(updated, "after and after again");
    assert_eq!(replacements, 2);
    let out = s.finish_edit(&request.path, replacements);
    assert_eq!(out.message, "Edited /work/sample.txt (replaced 2 locations).");
}

#[test]
fn edit_decodes_unicode_escapes_when_enabled() {
    let mut s = service();
    s.mark_read("/work/sample.txt");
    let mut input = edit_input("/work/sample.txt", "\\u4F60\\u597D", "\\u4E16\\u754C", false);
    input.decode_unicode_escapes = true;
    let request = s.prepare_edit(&input).unwrap();
    let (updated, _) = apply_edit(&request, "你好").unwrap();
    assert_eq!(updated, "世界");
}

#[test]
fn edit_errors_are_reported() {
    let mut s = service();
    let same = s.prepare_edit(&edit_input("/work/a.txt", "x", "x", false)).unwrap_err();
    assert_eq!(message(&same), "new_string must differ from old_string.");
    let unread = s.prepare_edit(&edit_input("/work/a.txt", "x", "y", false)).unwrap_err();
    assert_eq!(message(&unread), "Edit requires a prior Read for /work/a.txt.");
    s.mark_read("/work/a.txt");
    let request = s.prepare_edit(&edit_input("/work/a.txt", "x", "y", false)).unwrap();
    let missing = apply_edit(&request, "abc").unwrap_err();
    assert_eq!(message(&missing), "old_string was not found in /work/a.txt.");
    let multiple = apply_edit(&request, "x x").unwrap_err();
    assert_eq!(
        message(&multiple),
        "old_string matched multiple locations in /work/a.txt. Provide more context or set replace_all=true."
    );
}

#[test]
fn replacement_matches_str_semantics() {
    let s = chars_of("aaaa");
    let p = chars_of("aa");
    assert_eq!(replace_all_exec(&s, &p, "b"), "aaaa".replace("aa", "b"));
    assert_eq!(replace_first_exec(&s, &p, "b"), "aaaa".replacen("aa", "b", 1));
    let e = chars_of("");
    assert_eq!(replace_all_exec(&chars_of("ab"), &e, "-"), "ab".replace("", "-"));
    assert_eq!(replace_first_exec(&chars_of("ab"), &e, "-"), "ab".replacen("", "-", 1));
}

fn numbered_pdf(n: usize) -> Vec<u8> {
    let pages: Vec<String> = (1..=n).map(|i| format!("page {i}")).collect();
    let refs: Vec<&str> = pages.iter().map(String::as_str).collect();
    test_pdf(&refs)
}

#[test]
fn read_requires_pages_for_large_pdfs() {
    let err = read_pdf_text(&numbered_pdf(11), "/work/large.pdf", None).unwrap().unwrap_err();
    assert!(message(&err).contains("must provide the pages parameter"));
    assert_eq!(
        message(&err),
        "PDF has 11 pages. You must provide the pages parameter when reading PDFs with more than 10 pages."
    );
    assert_eq!(select_pdf_pages(3, None).unwrap(), vec![1, 2, 3]);
}

#[test]
fn read_rejects_pdf_requests_larger_than_twenty_pages() {
    let err = read_pdf_text(&numbered_pdf(21), "/work/long.pdf", Some("1-21")).unwrap().unwrap_err();
    assert!(message(&err).contains("20-page maximum"));
    assert_eq!(
        message(&err),
        "PDF page selection contains 21 pages, exceeding the 20-page maximum."
    );
}

#[test]
fn pdf_page_ranges_are_the_union_of_their_parts() {
    assert_eq!(select_pdf_pages(5, Some("3-4, 1,4")).unwrap(), vec![1, 3, 4]);
    assert_eq!(
        message(&select_pdf_pages(5, Some("1,,2")).unwrap_err()),
        "Invalid PDF page range \"1,,2\"."
    );
    assert_eq!(
        message(&select_pdf_pages(5, Some("1-6")).unwrap_err()),
        "PDF page range \"1-6\" exceeds the document page count of 5."
    );
}

#[test]
fn pdf_page_ranges_are_parsed() {
    assert_eq!(select_pdf_pages(10, Some("3, 1-2,2")).unwrap(), vec![1, 2, 3]);
    assert_eq!(
        message(&select_pdf_pages(5, Some("x")).unwrap_err()),
        "Invalid PDF page range \"x\"."
    );
    assert_eq!(
        message(&select_pdf_pages(5, Some("0")).unwrap_err()),
        "Invalid PDF page range \"0\": page numbers start at 1."
    );
    assert_eq!(
        message(&select_pdf_pages(5, Some("3-2")).unwrap_err()),
        "Invalid PDF page range \"3-2\": start must be less than or equal to end."
    );
    assert_eq!(
        message(&select_pdf_pages(5, Some("4-9")).unwrap_err()),
        "PDF page range \"4-9\" exceeds the document page count of 5."
    );
}

#[test]
fn pdf_pages_are_rendered_with_headers() {
    let pages = vec![(2u32, "beta page\n".to_string()), (3u32, "   ".to_string())];
    assert_eq!(render_pdf_pages(&pages), "Page 2\nbeta page\n\nPage 3\n[no extractable text]");
}

fn test_pdf(texts: &[&str]) -> Vec<u8> {
    let mut doc = Document::with_version("1.5");
    let pages_id = doc.new_object_id();
    let mut font = Dictionary::new();
    font.set("Type", "Font");
    font.set("Subtype", "Type1");
    font.set("BaseFont", "Courier");
    let font_id = doc.add_object(font);
    let mut fonts = Dictionary::new();
    fonts.set("F1", font_id);
    let mut resources = Dictionary::new();
    resources.set("Font", fonts);
    let resources_id = doc.add_object(resources);
    let mut kids: Vec<Object> = Vec::new();
    for text in texts {
        let content = Content {
            operations: vec![
                Operation::new("BT", vec![]),
                Operation::new("Tf", vec!["F1".into(), 18.into()]),
                Operation::new("Td", vec![72.into(), 720.into()]),
                Operation::new("Tj", vec![Object::string_literal(*text)]),
                Operation::new("ET", vec![]),
            ],
        };
        let content_id = doc.add_object(Stream::new(Dictionary::new(), content.encode().unwrap()));
        let mut page = Dictionary::new();
        page.set("Type", "Page");
        page.set("Parent", pages_id);
        page.set("Contents", content_id);
        let page_id = doc.add_object(page);
        kids.push(page_id.into());
    }
    let mut pages = Dictionary::new();
    pages.set("Type", "Pages");
    pages.set("Count", texts.len() as i64);
    pages.set("Kids", kids);
    pages.set("Resources", resources_id);
    let media: Vec<Object> = vec![0.into(), 0.into(), 595.into(), 842.into()];
    pages.set("MediaBox", media);
    doc.objects.insert(pages_id, Object::Dictionary(pages));
    let mut catalog = Dictionary::new();
    catalog.set("Type", "Catalog");
    catalog.set("Pages", pages_id);
    let catalog_id = doc.add_object(catalog);
    doc.trailer.set("Root", catalog_id);
    let mut bytes = Vec::new();
    doc.save_to(&mut bytes).unwrap();
    bytes
}

#[test]
fn read_extracts_text_from_selected_pdf_pages() {
    let doc = test_pdf(&["alpha page", "beta page", "gamma page"]);
    let text = read_pdf_text(&doc, "/work/sample.pdf", Some("2-3")).unwrap().unwrap();
    assert!(text.contains("Page 2"));
    assert!(text.contains("beta page"));
    assert!(text.contains("Page 3"));
    assert!(text.contains("gamma page"));
    assert!(!text.contains("Page 1"));
}

#[test]
fn pdf_without_pages_parameter_reads_small_documents_whole() {
    let doc = test_pdf(&["one", "two"]);
    let text = read_pdf_text(&doc, "/work/small.pdf", None).unwrap().unwrap();
    assert!(text.starts_with("Page 1\n"));
    assert!(text.contains("\n\nPage 2\n"));
    let pages: Vec<String> = (1..=11).map(|i| format!("page {i}")).collect();
    let refs: Vec<&str> = pages.iter().map(String::as_str).collect();
    let big = test_pdf(&refs);
    let err = read_pdf_text(&big, "/work/large.pdf", None).unwrap().unwrap_err();
    assert!(message(&err).contains("must provide the pages parameter"));
}

#[test]
fn unreadable_pdf_bytes_are_reported() {
    let err = read_pdf_text(b"not a pdf", "/work/bad.pdf", None).unwrap().unwrap_err();
    assert!(message(&err).starts_with("Failed to read PDF /work/bad.pdf: "));
}

#[test]
fn pdf_pages_keep_their_own_texts() {
    let doc = test_pdf(&["first text", "second text"]);
    let text = read_pdf_text(&doc, "/work/two.pdf", Some("2")).unwrap().unwrap();
    assert!(text.starts_with("Page 2\n"));
    assert!(text.contains("second text"));
    assert!(!text.contains("first text"));
}

#[test]
fn notebook_edit_requires_notebook_paths() {
    let s = service();
    let mut input = litecode::schema::NotebookEditInput::default();
    input.notebook_path = "/work/notes.txt".to_string();
    let err = s.prepare_notebook_edit(&input).unwrap_err();
    assert_eq!(message(&err), "NotebookEdit requires an .ipynb file, got /work/notes.txt.");
    input.notebook_path = "/work/note.ipynb".to_string();
    assert_eq!(s.prepare_notebook_edit(&input).unwrap(), "/work/note.ipynb");
}

#[test]
fn io_errors_show_the_system_message() {
    let e = LiteCodeError::Io(std::io::Error::other("disk full"));
    assert_eq!(message(&e), "disk full");
    assert_eq!(message(&LiteCodeError::invalid_input("bad".to_string())), "bad");
    assert_eq!(message(&LiteCodeError::internal("broken".to_string())), "broken");
}

#[test]
fn single_and_absent_matches_replace_alike() {
    let s = chars_of("alpha beta gamma");
    let once = chars_of("beta");
    assert_eq!(replace_first_exec(&s, &once, "B"), replace_all_exec(&s, &once, "B"));
    assert_eq!(replace_all_exec(&s, &once, "B"), "alpha B gamma");
    let absent = chars_of("delta");
    assert_eq!(replace_all_exec(&s, &absent, "D"), "alpha beta gamma");
    assert_eq!(replace_first_exec(&s, &absent, "D"), "alpha beta gamma");
}

#[test]
fn object_fields_read_back_what_was_set() {
    let mut fields: Vec<(String, JsonValue)> = vec![
        ("a".to_string(), JsonValue::Null),
        ("c".to_string(), JsonValue::Bool(true)),
    ];
    insert_field(&mut fields, "b", JsonValue::String("x".to_string()));
    let keys: Vec<&str> = fields.iter().map(|f| f.0.as_str()).collect();
    assert_eq!(keys, vec!["a", "b", "c"]);
    insert_field(&mut fields, "c", JsonValue::Number("2".to_string()));
    let obj = JsonValue::Object(fields);
    assert!(matches!(get(&obj, "b"), Some(JsonValue::String(s)) if s == "x"));
    assert!(matches!(get(&obj, "c"), Some(JsonValue::Number(n)) if n == "2"));
    assert!(matches!(get(&obj, "a"), Some(JsonValue::Null)));
    let JsonValue::Object(mut fields) = obj else { panic!("object") };
    remove_field(&mut fields, "a");
    assert_eq!(fields.len(), 2);
    assert!(get(&JsonValue::Object(fields), "a").is_none());
}
