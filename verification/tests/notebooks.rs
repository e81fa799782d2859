use litecode::file_service::{ReadContent, ReadFileOutput};
use litecode::json::{get, to_string_pretty, JsonValue};
use litecode::notebook::{
    apply_notebook_edit, edit_notebook_json, edit_notebook_text, notebook_language, read_notebook,
    render_notebook,
    resolve_insert_index, resolve_notebook_cell, source_value, truncate_notebook_output_text,
};
use litecode::schema::{NotebookCellType, NotebookEditInput, NotebookEditMode};

fn read_nb(nb: &JsonValue) -> Result<ReadFileOutput, litecode::error::LiteCodeError> {
    read_notebook(to_string_pretty(nb).as_bytes())
}

fn s(t: &str) -> JsonValue {
    JsonValue::String(t.to_string())
}

fn n(t: &str) -> JsonValue {
    JsonValue::Number(t.to_string())
}

fn arr(items: Vec<JsonValue>) -> JsonValue {
    JsonValue::Array(items)
}

fn lines(items: &[&str]) -> JsonValue {
    arr(items.iter().map(|t| s(t)).collect())
}

/// An object with its fields in ascending order of names, as a parsed
/// notebook holds them.
fn obj(fields: Vec<(&str, JsonValue)>) -> JsonValue {
    let mut fields: Vec<(String, JsonValue)> =
        fields.into_iter().map(|(k, v)| (k.to_string(), v)).collect();
    fields.sort_by(|a, b| a.0.cmp(&b.0));
    JsonValue::Object(fields)
}

fn notebook(cells: Vec<JsonValue>) -> JsonValue {
    obj(vec![
        ("cells", arr(cells)),
        ("metadata", obj(vec![("language_info", obj(vec![("name", s("python"))]))])),
        ("nbformat", n("4")),
        ("nbformat_minor", n("5")),
    ])
}

fn text_of(out: ReadFileOutput) -> String {
    match out {
        ReadFileOutput::Text(t) => t,
        other => panic!("expected text output, got {other:?}"),
    }
}

fn cells_of(nb: &JsonValue) -> &Vec<JsonValue> {
    match get(nb, "cells") {
        Some(JsonValue::Array(c)) => c,
        _ => panic!("cells"),
    }
}

fn field_text(cell: &JsonValue, key: &str) -> Option<String> {
    match get(cell, key) {
        Some(JsonValue::String(t)) => Some(t.clone()),
        _ => None,
    }
}

fn source_text(cell: &JsonValue) -> String {
    match get(cell, "source") {
        Some(JsonValue::Array(items)) => items
            .iter()
            .map(|i| match i {
                JsonValue::String(t) => t.clone(),
                _ => String::new(),
            })
            .collect(),
        _ => String::new(),
    }
}

fn edit(mode: NotebookEditMode, id: Option<&str>, number: Option<usize>, source: &str, t: Option<NotebookCellType>) -> NotebookEditInput {
    NotebookEditInput {
        notebook_path: "/work/note.ipynb".to_string(),
        cell_id: id.map(|x| x.to_string()),
        cell_number: number,
        new_source: source.to_string(),
        cell_type: t,
        edit_mode: mode,
    }
}

fn two_cells() -> JsonValue {
    notebook(vec![
        obj(vec![
            ("id", s("cell-a")),
            ("cell_type", s("markdown")),
            ("metadata", obj(vec![])),
            ("source", lines(&["# heading\n"])),
        ]),
        obj(vec![
            ("id", s("cell-b")),
            ("cell_type", s("code")),
            ("metadata", obj(vec![])),
            ("execution_count", JsonValue::Null),
            ("outputs", arr(vec![])),
            ("source", lines(&["print('hi')\n"])),
        ]),
    ])
}

#[test]
fn read_formats_notebooks_like_structured_cells() {
    let nb = notebook(vec![
        obj(vec![
            ("id", s("cell-a")),
            ("cell_type", s("markdown")),
            ("metadata", obj(vec![])),
            ("source", lines(&["# Heading\n", "\n", "Body text.\n"])),
        ]),
        obj(vec![
            ("id", s("cell-b")),
            ("cell_type", s("code")),
            ("metadata", obj(vec![])),
            ("execution_count", n("1")),
            (
                "outputs",
                arr(vec![obj(vec![
                    ("output_type", s("stream")),
                    ("name", s("stdout")),
                    ("text", lines(&["hello\n"])),
                ])]),
            ),
            ("source", lines(&["print('hello')\n"])),
        ]),
    ]);
    let text = text_of(read_nb(&nb).unwrap());
    assert!(text.contains("<cell number=\"0\" id=\"cell-a\">"));
    assert!(text.contains("<cell_type>markdown</cell_type>"));
    assert!(text.contains("<source>"));
    assert!(text.contains("# Heading"));
    assert!(text.contains("<cell number=\"1\" id=\"cell-b\">"));
    assert!(text.contains("<language>python</language>"));
    assert!(text.contains("<outputs>"));
    assert!(text.contains("<output_type>stream</output_type>"));
    assert!(text.contains("<text>"));
    assert!(!text.contains("Cell 0 [markdown]"));
    let exact = "<cell number=\"0\" id=\"cell-a\">\n<cell_type>markdown</cell_type>\n<source>\n# Heading\n\nBody text.\n</source>\n</cell>\n<cell number=\"1\" id=\"cell-b\">\n<cell_type>code</cell_type>\n<language>python</language>\n<source>\nprint('hello')\n</source>\n<outputs>\n<output_type>stream</output_type>\n<name>stdout</name>\n<text>\nhello\n</text>\n</outputs>\n</cell>";
    assert_eq!(text, exact);
}

#[test]
fn read_truncates_long_notebook_output_text_without_truncating_source() {
    let source = format!("print({:?})\n", "source stays whole".repeat(500));
    let long_output = "output block ".repeat(800);
    let nb = notebook(vec![obj(vec![
        ("id", s("cell-a")),
        ("cell_type", s("code")),
        ("metadata", obj(vec![])),
        ("execution_count", n("1")),
        (
            "outputs",
            arr(vec![obj(vec![
                ("output_type", s("stream")),
                ("name", s("stdout")),
                ("text", arr(vec![s(&long_output)])),
            ])]),
        ),
        ("source", arr(vec![s(&source)])),
    ])]);
    let text = text_of(read_nb(&nb).unwrap());
    assert!(text.contains("source stays whole"));
    assert!(text.contains(&"source stays whole".repeat(500)));
    assert!(text.contains("output truncated for readability"));
    assert!(text.contains("Use Bash with cat and jq"));
    assert!(!text.contains(&"output block ".repeat(700)));
    assert!(text.contains("Omitted 6400 characters."));
}

#[test]
fn truncation_keeps_short_text_and_cuts_long_text() {
    assert_eq!(truncate_notebook_output_text("short".to_string()), "short");
    let exact = "x".repeat(4000);
    assert_eq!(truncate_notebook_output_text(exact.clone()), exact);
    let long = "é".repeat(4001);
    let cut = truncate_notebook_output_text(long);
    assert_eq!(
        cut,
        format!(
            "{}\n\n[output truncated for readability. Use Bash with cat and jq on the .ipynb file to inspect the full output.]\nOmitted 1 characters.",
            "é".repeat(4000)
        )
    );
}

#[test]
fn read_returns_embedded_notebook_images_as_image_content() {
    let png_bytes = vec![0x89u8, b'P', b'N', b'G', b'\r', b'\n', 0x1a, b'\n'];
    let encoded = "iVBORw0KGgo=";
    let nb = notebook(vec![obj(vec![
        ("id", s("cell-a")),
        ("cell_type", s("code")),
        ("metadata", obj(vec![])),
        ("execution_count", n("1")),
        (
            "outputs",
            arr(vec![obj(vec![
                ("output_type", s("display_data")),
                (
                    "data",
                    obj(vec![("image/png", s(encoded)), ("text/plain", lines(&["figure preview\n"]))]),
                ),
                ("metadata", obj(vec![])),
            ])]),
        ),
        ("source", lines(&["display(fig)\n"])),
    ])]);
    let parts = match read_nb(&nb).unwrap() {
        ReadFileOutput::Contents(parts) => parts,
        other => panic!("expected mixed notebook content, got {other:?}"),
    };
    assert!(parts.iter().any(|part| matches!(
        part,
        ReadContent::Image { data, mime_type } if data == &png_bytes && mime_type == "image/png"
    )));
    let joined: String = parts
        .iter()
        .filter_map(|p| match p {
            ReadContent::Text(t) => Some(t.as_str()),
            _ => None,
        })
        .collect();
    assert!(joined.contains("[image/png output rendered below]"));
    assert!(joined.contains("figure preview"));
    assert!(!joined.contains(encoded));
    assert_eq!(parts.len(), 3);
    assert!(matches!(&parts[2], ReadContent::Text(t) if t == "<metadata>{}</metadata>\n</outputs>\n</cell>"));
}

#[test]
fn broken_image_data_stays_text() {
    let nb = notebook(vec![obj(vec![
        ("cell_type", s("code")),
        (
            "outputs",
            arr(vec![obj(vec![
                ("output_type", s("display_data")),
                ("data", obj(vec![("image/png", s("not base64!"))])),
            ])]),
        ),
        ("source", lines(&["x\n"])),
    ])]);
    let text = text_of(read_nb(&nb).unwrap());
    assert!(text.contains("\"image/png\": \"not base64!\""));
    assert!(text.starts_with("<cell number=\"0\">\n"));
}

#[test]
fn several_outputs_are_numbered() {
    let nb = notebook(vec![obj(vec![
        ("cell_type", s("code")),
        (
            "outputs",
            arr(vec![
                obj(vec![("output_type", s("stream")), ("text", s("a"))]),
                obj(vec![("zeta", n("1")), ("output_type", s("error")), ("ename", s("E"))]),
            ]),
        ),
        ("source", s("x")),
    ])]);
    let text = text_of(read_nb(&nb).unwrap());
    assert!(text.contains(
        "<output number=\"0\">\n<output_type>stream</output_type>\n<text>a</text>\n</output>\n<output number=\"1\">\n<output_type>error</output_type>\n<ename>E</ename>\n<zeta>1</zeta>\n</output>"
    ));
}

#[test]
fn notebook_errors_and_empty_reads() {
    let err = read_nb(&obj(vec![("metadata", obj(vec![]))])).unwrap_err();
    assert_eq!(err.message(), "Notebook does not contain a cells array.");
    let empty = read_nb(&notebook(vec![])).unwrap();
    assert_eq!(empty, ReadFileOutput::Text("Warning: file exists but is empty.".to_string()));
    let unknown = obj(vec![("metadata", obj(vec![("kernelspec", obj(vec![("language", s("julia"))]))]))]);
    assert_eq!(notebook_language(&unknown), "julia");
    assert_eq!(notebook_language(&obj(vec![])), "unknown");
}

#[test]
fn pretty_json_matches_the_indented_form() {
    let v = obj(vec![("b", arr(vec![n("1"), s("t\"\n\u{1}")])), ("a", obj(vec![])), ("c", arr(vec![]))]);
    assert_eq!(
        to_string_pretty(&v),
        "{\n  \"a\": {},\n  \"b\": [\n    1,\n    \"t\\\"\\n\\u0001\"\n  ],\n  \"c\": []\n}"
    );
}

#[test]
fn source_values_keep_their_newlines() {
    match source_value("a\nb\n\nc") {
        JsonValue::Array(items) => {
            let texts: Vec<String> = items
                .iter()
                .map(|i| match i {
                    JsonValue::String(t) => t.clone(),
                    _ => panic!("string"),
                })
                .collect();
            assert_eq!(texts, vec!["a\n", "b\n", "\n", "c"]);
        }
        _ => panic!("array"),
    }
}

#[test]
fn notebook_replace_insert_delete_work() {
    let original = notebook(vec![obj(vec![
        ("id", s("cell-a")),
        ("cell_type", s("code")),
        ("metadata", obj(vec![])),
        ("execution_count", JsonValue::Null),
        ("outputs", arr(vec![])),
        ("source", lines(&["print('hi')\n"])),
    ])]);
    let (replaced_nb, replaced) = apply_notebook_edit(
        original,
        &edit(NotebookEditMode::Replace, Some("cell-a"), None, "print('bye')\n", None),
        "unused",
    )
    .unwrap();
    assert!(replaced.success);
    assert_eq!(replaced.cell_id, None);
    assert_eq!(source_text(&cells_of(&replaced_nb)[0]), "print('bye')\n");
    assert_eq!(field_text(&cells_of(&replaced_nb)[0], "cell_type").unwrap(), "code");

    let (inserted_nb, inserted) = edit_notebook_json(
        replaced_nb,
        &edit(NotebookEditMode::Insert, Some("cell-a"), None, "# title\n", Some(NotebookCellType::Markdown)),
    )
    .unwrap();
    assert!(inserted.success);
    let inserted_id = inserted.cell_id.clone().expect("insert should return inserted cell id");
    assert!(inserted_id.starts_with("cell-"));
    let cells = cells_of(&inserted_nb);
    assert_eq!(cells.len(), 2);
    assert_eq!(field_text(&cells[1], "id").unwrap(), inserted_id);
    assert_eq!(field_text(&cells[1], "cell_type").unwrap(), "markdown");
    assert_eq!(source_text(&cells[1]), "# title\n");
    assert!(get(&cells[1], "outputs").is_none());
    assert!(get(&cells[1], "execution_count").is_none());

    let (deleted_nb, deleted) = apply_notebook_edit(
        inserted_nb,
        &edit(NotebookEditMode::Delete, Some(&inserted_id), None, "", None),
        "unused",
    )
    .unwrap();
    assert!(deleted.success);
    let cells = cells_of(&deleted_nb);
    assert_eq!(cells.len(), 1);
    assert_eq!(field_text(&cells[0], "id").unwrap(), "cell-a");
}

#[test]
fn notebook_edit_supports_cell_number_operations() {
    let (nb, out) = apply_notebook_edit(
        two_cells(),
        &edit(NotebookEditMode::Replace, None, Some(1), "print('bye')\n", None),
        "unused",
    )
    .unwrap();
    assert!(out.success);
    assert_eq!(source_text(&cells_of(&nb)[1]), "print('bye')\n");
    assert_eq!(field_text(&cells_of(&nb)[1], "cell_type").unwrap(), "code");

    let (nb, out) = apply_notebook_edit(
        nb,
        &edit(NotebookEditMode::Insert, None, Some(1), "## middle\n", Some(NotebookCellType::Markdown)),
        "cell-new",
    )
    .unwrap();
    assert_eq!(out.cell_id.as_deref(), Some("cell-new"));
    let cells = cells_of(&nb);
    assert_eq!(cells.len(), 3);
    assert_eq!(source_text(&cells[1]), "## middle\n");
    assert_eq!(field_text(&cells[2], "id").unwrap(), "cell-b");

    let (nb, _) = apply_notebook_edit(nb, &edit(NotebookEditMode::Delete, None, Some(0), "", None), "unused").unwrap();
    let cells = cells_of(&nb);
    assert_eq!(cells.len(), 2);
    assert_eq!(field_text(&cells[0], "id").unwrap(), "cell-new");

    let err = apply_notebook_edit(nb, &edit(NotebookEditMode::Delete, None, Some(5), "", None), "unused").unwrap_err();
    assert_eq!(err.message(), "NotebookEdit delete mode requires cell_number to be within 0..1.");
}

#[test]
fn notebook_edit_rejects_conflicting_cell_selectors() {
    let err = apply_notebook_edit(
        two_cells(),
        &edit(NotebookEditMode::Replace, Some("cell-a"), Some(1), "x", None),
        "unused",
    )
    .unwrap_err();
    assert!(err.message().contains("conflicting cell_id and cell_number"));
    let err = apply_notebook_edit(
        two_cells(),
        &edit(NotebookEditMode::Insert, Some("cell-a"), Some(0), "## before\n", Some(NotebookCellType::Markdown)),
        "unused",
    )
    .unwrap_err();
    assert!(err.message().contains("conflicting cell_id and cell_number"));
}

#[test]
fn notebook_edit_errors_are_reported() {
    let missing = apply_notebook_edit(two_cells(), &edit(NotebookEditMode::Replace, None, None, "x", None), "u").unwrap_err();
    assert_eq!(missing.message(), "NotebookEdit replace mode requires cell_id or cell_number.");
    let unknown = apply_notebook_edit(two_cells(), &edit(NotebookEditMode::Delete, Some("nope"), None, "", None), "u").unwrap_err();
    assert_eq!(unknown.message(), "Notebook cell nope was not found.");
    let no_type = apply_notebook_edit(two_cells(), &edit(NotebookEditMode::Insert, None, None, "x", None), "u").unwrap_err();
    assert_eq!(no_type.message(), "NotebookEdit insert mode requires cell_type.");
    let far = apply_notebook_edit(two_cells(), &edit(NotebookEditMode::Insert, None, Some(3), "x", Some(NotebookCellType::Code)), "u").unwrap_err();
    assert_eq!(far.message(), "NotebookEdit insert mode requires cell_number to be within 0..2.");
    let not_object = notebook(vec![s("just text")]);
    let err = apply_notebook_edit(not_object, &edit(NotebookEditMode::Replace, None, Some(0), "x", None), "u").unwrap_err();
    assert!(matches!(&err, litecode::error::LiteCodeError::Internal(m) if m == "Notebook cell was not an object."));
    let no_cells = apply_notebook_edit(obj(vec![]), &edit(NotebookEditMode::Delete, None, Some(0), "", None), "u").unwrap_err();
    assert_eq!(no_cells.message(), "Notebook does not contain a cells array.");
}

#[test]
fn inserted_code_cells_get_their_shape() {
    let (nb, _) = apply_notebook_edit(
        two_cells(),
        &edit(NotebookEditMode::Insert, None, None, "a = 1\nb = 2", Some(NotebookCellType::Code)),
        "cell-x",
    )
    .unwrap();
    let cell = &cells_of(&nb)[0];
    assert_eq!(
        to_string_pretty(cell),
        "{\n  \"cell_type\": \"code\",\n  \"execution_count\": null,\n  \"id\": \"cell-x\",\n  \"metadata\": {},\n  \"outputs\": [],\n  \"source\": [\n    \"a = 1\\n\",\n    \"b = 2\"\n  ]\n}"
    );
}

#[test]
fn delete_after_insert_restores_cells() {
    let before = to_string_pretty(&two_cells());
    let (nb, out) = apply_notebook_edit(
        two_cells(),
        &edit(NotebookEditMode::Insert, Some("cell-a"), None, "x", Some(NotebookCellType::Code)),
        "cell-x",
    )
    .unwrap();
    assert_eq!(out.cell_id.as_deref(), Some("cell-x"));
    let (nb, _) = apply_notebook_edit(nb, &edit(NotebookEditMode::Delete, None, Some(1), "", None), "u").unwrap();
    assert_eq!(to_string_pretty(&nb), before);
}

#[test]
fn cell_resolution_by_id_and_number() {
    let nb = two_cells();
    let cells = cells_of(&nb);
    let r = resolve_notebook_cell(cells, Some("cell-b"), Some(1), "replace").unwrap();
    assert_eq!(r.index, 1);
    assert_eq!(r.cell_id.as_deref(), Some("cell-b"));
    let r = resolve_notebook_cell(cells, None, Some(0), "replace").unwrap();
    assert_eq!(r.cell_id.as_deref(), Some("cell-a"));
    assert_eq!(resolve_insert_index(cells, Some("cell-b"), None).unwrap(), 2);
    assert_eq!(resolve_insert_index(cells, None, None).unwrap(), 0);
    assert_eq!(resolve_insert_index(cells, Some("cell-a"), Some(1)).unwrap(), 1);
}

#[test]
fn inserted_cell_carries_the_reported_id_at_its_place() {
    let (nb, out) = apply_notebook_edit(
        two_cells(),
        &edit(NotebookEditMode::Insert, Some("cell-a"), None, "y", Some(NotebookCellType::Markdown)),
        "cell-new",
    )
    .unwrap();
    assert_eq!(out.cell_id.as_deref(), Some("cell-new"));
    let cells = cells_of(&nb);
    assert_eq!(cells.len(), 3);
    assert_eq!(field_text(&cells[1], "id").as_deref(), Some("cell-new"));
    assert_eq!(field_text(&cells[0], "id").as_deref(), Some("cell-a"));
    assert_eq!(field_text(&cells[2], "id").as_deref(), Some("cell-b"));
}

#[test]
fn delete_by_new_id_restores_cells() {
    let before = to_string_pretty(&two_cells());
    let (nb, out) = apply_notebook_edit(
        two_cells(),
        &edit(NotebookEditMode::Insert, Some("cell-b"), None, "z", Some(NotebookCellType::Code)),
        "cell-z",
    )
    .unwrap();
    assert_eq!(out.cell_id.as_deref(), Some("cell-z"));
    let (nb, out) = apply_notebook_edit(nb, &edit(NotebookEditMode::Delete, Some("cell-z"), None, "", None), "u").unwrap();
    assert_eq!(out.cell_id, None);
    assert_eq!(to_string_pretty(&nb), before);
}

#[test]
fn replaced_code_cell_becomes_markdown_without_outputs() {
    let (nb, out) = apply_notebook_edit(
        two_cells(),
        &edit(NotebookEditMode::Replace, Some("cell-b"), None, "text\nmore", Some(NotebookCellType::Markdown)),
        "u",
    )
    .unwrap();
    assert_eq!(out.cell_id, None);
    let cells = cells_of(&nb);
    assert_eq!(cells.len(), 2);
    let cell = &cells[1];
    assert_eq!(field_text(cell, "cell_type").as_deref(), Some("markdown"));
    assert_eq!(field_text(cell, "id").as_deref(), Some("cell-b"));
    assert!(get(cell, "outputs").is_none());
    assert!(get(cell, "execution_count").is_none());
    assert_eq!(source_text(cell), "text\nmore");
    assert_eq!(field_text(&cells[0], "id").as_deref(), Some("cell-a"));
}

#[test]
fn notebook_text_that_is_not_json_is_refused() {
    let err = read_notebook(b"{ not json").unwrap_err();
    assert!(matches!(&err, litecode::error::LiteCodeError::InvalidInput(m) if m.starts_with("Invalid notebook JSON: ")));
    let err = render_notebook("[1,").unwrap_err();
    assert!(err.message().starts_with("Invalid notebook JSON: "));
    let input = edit(NotebookEditMode::Delete, None, Some(0), "", None);
    let err = edit_notebook_text("nope", &input).unwrap_err();
    assert!(err.message().starts_with("Invalid notebook JSON: "));
    let (nb, out) = edit_notebook_text(&to_string_pretty(&two_cells()), &input).unwrap();
    assert!(out.success);
    assert_eq!(cells_of(&nb).len(), 1);
}

#[test]
fn images_are_sent_as_standard_base64() {
    assert_eq!(litecode::notebook::image_base64(b"hi!"), "aGkh");
    assert_eq!(litecode::notebook::image_base64(b"hi"), "aGk=");
}
