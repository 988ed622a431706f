use seren_prosemirror::{
    empty_document, extract_plain_text, validate_document, JsonNumber, JsonValue, ProseMirror,
    ProseMirrorError,
};
use serde_json::Value;

// ---------------------------------------------------------------------------
// JSON conversion between serde_json and the library's model
// ---------------------------------------------------------------------------

fn to_model(v: &Value) -> JsonValue {
    match v {
        Value::Null => JsonValue::Null,
        Value::Bool(b) => JsonValue::Bool(*b),
        Value::Number(n) => {
            if let Some(u) = n.as_u64() {
                JsonValue::Number(JsonNumber::PosInt(u))
            } else if let Some(i) = n.as_i64() {
                JsonValue::Number(JsonNumber::NegInt(i))
            } else {
                JsonValue::Number(JsonNumber::Float(n.to_string()))
            }
        }
        Value::String(s) => JsonValue::String(s.clone()),
        Value::Array(items) => JsonValue::Array(items.iter().map(to_model).collect()),
        Value::Object(map) => JsonValue::Object(
            map.iter()
                .map(|(k, v)| (k.clone(), to_model(v)))
                .collect(),
        ),
    }
}

fn from_model(v: &JsonValue) -> Value {
    match v {
        JsonValue::Null => Value::Null,
        JsonValue::Bool(b) => Value::Bool(*b),
        JsonValue::Number(JsonNumber::PosInt(n)) => Value::from(*n),
        JsonValue::Number(JsonNumber::NegInt(n)) => Value::from(*n),
        JsonValue::Number(JsonNumber::Float(s)) => serde_json::from_str(s).unwrap(),
        JsonValue::String(s) => Value::String(s.clone()),
        JsonValue::Array(items) => Value::Array(items.iter().map(from_model).collect()),
        JsonValue::Object(entries) => {
            let mut map = serde_json::Map::new();
            for (k, v) in entries {
                if !map.contains_key(k) {
                    map.insert(k.clone(), from_model(v));
                }
            }
            Value::Object(map)
        }
    }
}

fn parse(text: &str) -> Value {
    serde_json::from_str(text).unwrap()
}

fn obj(pairs: Vec<(&str, Value)>) -> Value {
    let mut map = serde_json::Map::new();
    for (k, v) in pairs {
        map.insert(k.to_string(), v);
    }
    Value::Object(map)
}

struct Pm(ProseMirror);

impl Pm {
    fn markdown_to_prosemirror(&self, markdown: &str) -> Result<Value, ProseMirrorError> {
        self.0
            .markdown_to_prosemirror(markdown)
            .map(|d| from_model(&d))
    }

    fn prosemirror_to_markdown(&self, doc: &Value) -> Result<String, ProseMirrorError> {
        self.0.prosemirror_to_markdown(&to_model(doc))
    }

    fn prosemirror_to_org(&self, doc: &Value) -> Result<String, ProseMirrorError> {
        self.0.prosemirror_to_org(&to_model(doc))
    }

    fn org_to_prosemirror(&self, org: &str) -> Result<Value, ProseMirrorError> {
        self.0.org_to_prosemirror(org).map(|d| from_model(&d))
    }
}

fn pm() -> Pm {
    Pm(ProseMirror::new("serentest://attachment/"))
}

fn pm_with(scheme: &str) -> Pm {
    Pm(ProseMirror::new(scheme))
}

fn plain_text(doc: &Value) -> String {
    extract_plain_text(&to_model(doc))
}

fn validate(doc: &Value) -> Result<(), ProseMirrorError> {
    validate_document(&to_model(doc))
}

fn assert_markdown_roundtrips(md: &str) {
    let p = pm();
    let doc = p.markdown_to_prosemirror(md).unwrap();
    let back = p.prosemirror_to_markdown(&doc).unwrap();
    assert_eq!(back, md);
}

fn nested_blockquotes(depth: usize, leaf: &str) -> Value {
    let mut node = obj(vec![("type", Value::from("text")), ("text", Value::from(leaf))]);
    for _ in 0..depth {
        node = obj(vec![
            ("type", Value::from("blockquote")),
            ("content", Value::Array(vec![node])),
        ]);
    }
    node
}

fn doc_of(blocks: Vec<Value>) -> Value {
    obj(vec![("type", Value::from("doc")), ("content", Value::Array(blocks))])
}

// ---------------------------------------------------------------------------
// Markdown and validation
// ---------------------------------------------------------------------------

#[test]
fn test_markdown_to_prosemirror_simple() {
    let doc = pm().markdown_to_prosemirror("Hello **world**!").unwrap();
    assert_eq!(doc["type"], "doc");
    assert!(!doc["content"].as_array().unwrap().is_empty());
}

#[test]
fn test_prosemirror_to_markdown_roundtrip() {
    let p = pm();
    let md = "# Heading\n\nSome **bold** and *italic* text.";
    let doc = p.markdown_to_prosemirror(md).unwrap();
    let back = p.prosemirror_to_markdown(&doc).unwrap();

    assert!(back.contains("# Heading"));
    assert!(back.contains("bold"));
    assert!(back.contains("italic"));
}

#[test]
fn test_extract_plain_text() {
    let doc = parse(
        r#"{
        "type": "doc",
        "content": [{
            "type": "paragraph",
            "content": [{
                "type": "text",
                "text": "Hello world"
            }]
        }]
    }"#,
    );
    assert_eq!(plain_text(&doc), "Hello world");
}

#[test]
fn test_validate_document() {
    let valid = parse(
        r#"{
        "type": "doc",
        "content": [{
            "type": "paragraph",
            "content": [{ "type": "text", "text": "Hello" }]
        }]
    }"#,
    );
    assert!(validate(&valid).is_ok());

    let invalid = parse(
        r#"{
        "type": "doc",
        "content": [{ "type": "unsupported_node" }]
    }"#,
    );
    assert!(validate(&invalid).is_err());
}

#[test]
fn alternate_mark_names_validate_and_render() {
    let p = pm();
    let doc = parse(
        r#"{
        "type": "doc",
        "content": [{
            "type": "paragraph",
            "content": [
                { "type": "text", "text": "strong", "marks": [{ "type": "strong" }] },
                { "type": "text", "text": " and " },
                { "type": "text", "text": "em", "marks": [{ "type": "em" }] }
            ]
        }]
    }"#,
    );
    let md = p.prosemirror_to_markdown(&doc).unwrap();

    validate(&doc).unwrap();
    assert_eq!(md, "**strong** and *em*");
}

#[test]
fn validate_document_rejects_excessive_nesting() {
    let doc = doc_of(vec![nested_blockquotes(200, "deep")]);
    let err = validate(&doc).unwrap_err();
    assert!(
        format!("{err:?}").contains("maximum depth"),
        "expected a max-depth error, got {err:?}"
    );
}

#[test]
fn prosemirror_to_markdown_rejects_excessive_nesting() {
    let doc = doc_of(vec![nested_blockquotes(200, "deep")]);
    let err = pm().prosemirror_to_markdown(&doc).unwrap_err();
    assert!(
        format!("{err:?}").contains("maximum depth"),
        "expected a max-depth error, got {err:?}"
    );
}

#[test]
fn prosemirror_to_markdown_rejects_excessive_inline_nesting() {
    let mut node = obj(vec![("type", Value::from("text")), ("text", Value::from("deep"))]);
    for _ in 0..200 {
        node = obj(vec![
            ("type", Value::from("inlineWrapper")),
            ("content", Value::Array(vec![node])),
        ]);
    }
    let doc = doc_of(vec![obj(vec![
        ("type", Value::from("paragraph")),
        ("content", Value::Array(vec![node])),
    ])]);
    let err = pm().prosemirror_to_markdown(&doc).unwrap_err();
    assert!(
        format!("{err:?}").contains("maximum depth"),
        "expected a max-depth error, got {err:?}"
    );
}

#[test]
fn prosemirror_to_markdown_rejects_excessive_mark_nesting() {
    let marks = (0..200)
        .map(|_| parse(r#"{ "type": "bold" }"#))
        .collect::<Vec<_>>();
    let doc = doc_of(vec![obj(vec![
        ("type", Value::from("paragraph")),
        (
            "content",
            Value::Array(vec![obj(vec![
                ("type", Value::from("text")),
                ("text", Value::from("deep")),
                ("marks", Value::Array(marks)),
            ])]),
        ),
    ])]);
    let err = pm().prosemirror_to_markdown(&doc).unwrap_err();
    assert!(
        format!("{err:?}").contains("maximum depth"),
        "expected a max-depth error, got {err:?}"
    );
}

#[test]
fn prosemirror_to_org_rejects_excessive_nesting() {
    let doc = doc_of(vec![nested_blockquotes(200, "deep")]);
    let err = pm().prosemirror_to_org(&doc).unwrap_err();
    assert!(
        format!("{err:?}").contains("maximum depth"),
        "expected a max-depth error, got {err:?}"
    );
}

#[test]
fn validate_document_rejects_non_doc_root() {
    let invalid = parse(
        r#"{
        "type": "paragraph",
        "content": [{ "type": "text", "text": "Hello" }]
    }"#,
    );

    assert_eq!(
        validate(&invalid),
        Err(ProseMirrorError::InvalidStructure(
            "Root must be doc".to_string()
        ))
    );
}

#[test]
fn validate_document_rejects_malformed_content_and_marks() {
    let invalid_content = parse(
        r#"{
        "type": "doc",
        "content": "not-an-array"
    }"#,
    );
    assert_eq!(
        validate(&invalid_content),
        Err(ProseMirrorError::InvalidStructure(
            "Node content must be an array".to_string()
        ))
    );

    let invalid_mark = parse(
        r#"{
        "type": "doc",
        "content": [{
            "type": "paragraph",
            "content": [{
                "type": "text",
                "text": "Hello",
                "marks": [{ "type": "link" }]
            }]
        }]
    }"#,
    );
    assert_eq!(
        validate(&invalid_mark),
        Err(ProseMirrorError::InvalidStructure(
            "Link mark missing href".to_string()
        ))
    );
}

#[test]
fn test_empty_document() {
    let doc = from_model(&empty_document());
    assert_eq!(doc["type"], "doc");
    assert!(doc["content"].as_array().unwrap().len() == 1);
}

#[test]
fn test_attachment_uri_scheme() {
    let p = pm();
    let doc = parse(
        r#"{
        "type": "doc",
        "content": [{
            "type": "attachment",
            "attrs": {
                "attachmentId": "123e4567-e89b-12d3-a456-426614174000",
                "filename": "file.pdf"
            }
        }]
    }"#,
    );

    let md = p.prosemirror_to_markdown(&doc).unwrap();
    assert!(
        md.contains("serentest://attachment/123e4567-e89b-12d3-a456-426614174000"),
        "Expected attachment URI in markdown, got: {}",
        md
    );
    assert!(md.contains("file.pdf"));
}

#[test]
fn test_attachment_roundtrip_via_link() {
    let p = pm();
    let md = "[file.pdf](serentest://attachment/123e4567-e89b-12d3-a456-426614174000)";
    let doc = p.markdown_to_prosemirror(md).unwrap();

    let first = &doc["content"][0];
    assert_eq!(first["type"], "attachment");
    assert_eq!(
        first["attrs"]["attachmentId"],
        "123e4567-e89b-12d3-a456-426614174000"
    );
}

#[test]
fn empty_attachment_scheme_does_not_capture_links() {
    let p = pm_with("");
    let md = "[file.pdf](123e4567-e89b-12d3-a456-426614174000)";
    let doc = p.markdown_to_prosemirror(md).unwrap();

    assert_eq!(doc["content"][0]["type"], "paragraph");
}

#[test]
fn attachment_image_uri_uses_attachment_attrs() {
    let p = pm();
    let md = "![diagram](serentest://attachment/123e4567-e89b-12d3-a456-426614174000)";
    let doc = p.markdown_to_prosemirror(md).unwrap();

    let image = &doc["content"][0]["content"][0];
    assert_eq!(image["type"], "image");
    assert_eq!(
        image["attrs"]["attachmentId"],
        "123e4567-e89b-12d3-a456-426614174000"
    );
    assert!(image["attrs"]["src"].is_null());
}

#[test]
fn empty_attachment_scheme_does_not_capture_images() {
    let p = pm_with("");
    let md = "![diagram](123e4567-e89b-12d3-a456-426614174000)";
    let doc = p.markdown_to_prosemirror(md).unwrap();

    let image = &doc["content"][0]["content"][0];
    assert_eq!(image["type"], "image");
    assert_eq!(
        image["attrs"]["src"],
        "123e4567-e89b-12d3-a456-426614174000"
    );
    assert!(image["attrs"].get("attachmentId").is_none());
}

#[test]
fn attachment_image_uri_without_id_keeps_src() {
    let p = pm();
    let md = "![diagram](serentest://attachment/)";
    let doc = p.markdown_to_prosemirror(md).unwrap();

    let image = &doc["content"][0]["content"][0];
    assert_eq!(image["type"], "image");
    assert_eq!(image["attrs"]["src"], "serentest://attachment/");
    assert!(image["attrs"].get("attachmentId").is_none());
}

#[test]
fn image_markdown_roundtrips() {
    assert_markdown_roundtrips("![diagram](https://example.com/diagram.png)");
}

#[test]
fn attachment_image_markdown_roundtrips() {
    assert_markdown_roundtrips(
        "![diagram](serentest://attachment/123e4567-e89b-12d3-a456-426614174000)",
    );
}

#[test]
fn org_attachment_link_roundtrips_as_attachment_node() {
    let p = pm();
    let org = "[[serentest://attachment/123e4567-e89b-12d3-a456-426614174000][file.pdf]]";
    let doc = p.org_to_prosemirror(org).unwrap();

    assert_eq!(doc["content"][0]["type"], "attachment");
    assert_eq!(
        doc["content"][0]["attrs"]["attachmentId"],
        "123e4567-e89b-12d3-a456-426614174000"
    );
    assert_eq!(doc["content"][0]["attrs"]["filename"], "file.pdf");
}

#[test]
fn org_export_preserves_inline_attachment_image_uri() {
    let p = pm();
    let doc = p
        .markdown_to_prosemirror(
            "![diagram](serentest://attachment/123e4567-e89b-12d3-a456-426614174000)",
        )
        .unwrap();
    let org = p.prosemirror_to_org(&doc).unwrap();

    assert_eq!(
        org,
        "[[serentest://attachment/123e4567-e89b-12d3-a456-426614174000][diagram]]"
    );
}

#[test]
fn test_markdown_bold_in_ordered_list() {
    let p = pm();
    let md =
        "1. **Create** the initial design\n2. **Fund** the development\n3. **Deploy** and test";
    let doc = p.markdown_to_prosemirror(md).unwrap();
    let back = p.prosemirror_to_markdown(&doc).unwrap();

    assert!(
        back.contains("**Create**"),
        "Bold 'Create' lost. Got:\n{}",
        back
    );
    assert!(
        back.contains("**Fund**"),
        "Bold 'Fund' lost. Got:\n{}",
        back
    );
    assert!(
        back.contains("**Deploy**"),
        "Bold 'Deploy' lost. Got:\n{}",
        back
    );
    assert!(
        back.contains("the initial design"),
        "Text after bold lost. Got:\n{}",
        back
    );
}

#[test]
fn test_markdown_bold_in_bullet_list() {
    let p = pm();
    let md = "- **First** item\n- **Second** item";
    let doc = p.markdown_to_prosemirror(md).unwrap();
    let back = p.prosemirror_to_markdown(&doc).unwrap();

    assert!(
        back.contains("**First**"),
        "Bold 'First' lost. Got:\n{}",
        back
    );
    assert!(
        back.contains("item"),
        "Text after bold lost. Got:\n{}",
        back
    );
}

#[test]
fn test_different_uri_schemes() {
    let swarm = pm_with("seren-bounty://attachment/");
    let notes = pm_with("seren-notes://attachment/");

    let doc = parse(
        r#"{
        "type": "doc",
        "content": [{
            "type": "attachment",
            "attrs": {
                "attachmentId": "abc-123",
                "filename": "test.txt"
            }
        }]
    }"#,
    );

    let swarm_md = swarm.prosemirror_to_markdown(&doc).unwrap();
    let notes_md = notes.prosemirror_to_markdown(&doc).unwrap();

    assert!(swarm_md.contains("seren-bounty://attachment/abc-123"));
    assert!(notes_md.contains("seren-notes://attachment/abc-123"));
}

#[test]
fn tight_ordered_list_with_nested_bullet_roundtrips() {
    assert_markdown_roundtrips(
        "1. Resolve target database with MCP:\n   - project: `alpaca-short-trader`",
    );
}

#[test]
fn plus_bullet_marker_roundtrips() {
    assert_markdown_roundtrips("1. Use flags:\n   + `--flag` keeps the source marker.");
}

#[test]
fn loose_ordered_list_spacing_roundtrips() {
    assert_markdown_roundtrips("1. First\n\n2. Second");
}

#[test]
fn loose_list_item_nested_list_spacing_roundtrips() {
    assert_markdown_roundtrips(
        "2. Parent paragraph.\n\n   1. Nested first.\n   2. Nested second.\n\n   Follow-up paragraph.",
    );
}

#[test]
fn loose_list_item_nested_list_then_inline_text_roundtrips() {
    assert_markdown_roundtrips(
        "2. Parent paragraph.\n\n   1. Nested first.\n   2. Nested second.\n\n   Follow-up text.",
    );
}

#[test]
fn ordered_list_marker_width_drives_continuation_indent() {
    assert_markdown_roundtrips("10. Resolve target database with MCP:\n    - project: `foo`");
}

#[test]
fn ordered_list_source_continuation_indent_roundtrips() {
    assert_markdown_roundtrips("11. Basic health check passes.\n   metadata continues.");
}

#[test]
fn multiline_inline_code_in_list_item_roundtrips() {
    assert_markdown_roundtrips("3. Run:\n   `cmd one\n   cmd two`\n   then continue.");
}

#[test]
fn multiline_inline_code_after_list_soft_break_roundtrips() {
    assert_markdown_roundtrips(
        "4. The agent persists the pair with\n   `record-created-market --polymarket-condition-id \"$POLY_CID\"\n   --prophet-market-id \"$PROPHET_MID\"`.",
    );
}

#[test]
fn multiline_inline_code_preserves_asymmetric_indent() {
    assert_markdown_roundtrips(
        "4. The agent persists the pair with\n     `record-created-market --polymarket-condition-id \"$POLY_CID\"\n   --prophet-market-id \"$PROPHET_MID\"`.",
    );
}

#[test]
fn wrapped_list_item_with_code_spans_roundtrips() {
    assert_markdown_roundtrips(
        "1. In 1Password admin, create a vault named `PK Salesforce Skill`\n   and add one login item named `PK Salesforce`. The item must carry\n   `username`, `password`, and a TOTP field.",
    );
}

#[test]
fn list_item_code_fence_then_paragraph_roundtrips() {
    assert_markdown_roundtrips("1. Example:\n   ```json\n   {}\n   ```\n   Then continue.");
}

#[test]
fn bold_with_inline_code_emits_single_strong_run() {
    assert_markdown_roundtrips("2. **Existing `.env` file** - check if it exists");
}

#[test]
fn blockquote_with_inner_ordered_list_keeps_quote_prefix() {
    assert_markdown_roundtrips(
        "> 1. Keep them running\n> 2. Stop all and create a new schedule\n> 3. Cancel",
    );
}

#[test]
fn email_autolink_roundtrips_as_autolink_not_link() {
    assert_markdown_roundtrips("Please send this error to <hello@serendb.com> for support.");
}

#[test]
fn table_separator_renders_with_spaces_around_dashes() {
    assert_markdown_roundtrips("| a | b |\n| --- | --- |\n| 1 | 2 |");
}

#[test]
fn table_cell_pipe_is_escaped() {
    assert_markdown_roundtrips(
        "| field | values |\n| --- | --- |\n| side | `\"long\"` \\| `\"short\"` |",
    );
}

#[test]
fn table_cell_pipe_inside_inline_code_roundtrips() {
    assert_markdown_roundtrips("| expression |\n| --- |\n| `left\\|right` |");
}

#[test]
fn table_cell_pipe_inside_link_href_roundtrips() {
    assert_markdown_roundtrips("| link |\n| --- |\n| [docs](https://example.com/a\\|b) |");
}

#[test]
fn empty_table_cell_uses_single_space_form() {
    assert_markdown_roundtrips("| total | amount |\n| --- | --- |\n| label | |");
}

#[test]
fn table_inside_list_item_keeps_continuation_indent() {
    assert_markdown_roundtrips("- table:\n  | a | b |\n  | --- | --- |\n  | 1 | 2 |");
}

#[test]
fn code_fence_inside_list_item_preserves_indent() {
    assert_markdown_roundtrips("- step:\n  ```sql\n  SELECT 1\n  ```");
}

#[test]
fn code_fence_inside_ordered_list_before_next_item_roundtrips() {
    assert_markdown_roundtrips(
        "2. Use script:\n   ```javascript\n   run()\n   ```\n3. Return result",
    );
}

#[test]
fn code_fence_with_blank_line_inside_list_item_roundtrips() {
    assert_markdown_roundtrips("- step:\n  ```sql\n  SELECT 1\n\n  SELECT 2\n  ```");
}

#[test]
fn code_fence_inside_blockquote_roundtrips() {
    assert_markdown_roundtrips("> ```sql\n> SELECT 1\n> ```");
}

#[test]
fn code_fence_containing_backticks_uses_longer_outer_fence() {
    assert_markdown_roundtrips("````\n```sql\nSELECT 1\n```\n````");
}

#[test]
fn blockquote_paragraph_then_ordered_list_keeps_blank_quote_line() {
    assert_markdown_roundtrips("> Choose one:\n>\n> 1. First\n> 2. Second");
}

#[test]
fn blockquote_paragraph_then_code_fence_keeps_blank_quote_line() {
    assert_markdown_roundtrips("> Example:\n>\n> ```sql\n> SELECT 1\n> ```");
}

#[test]
fn trailing_inline_code_at_end_of_paragraph_is_preserved() {
    assert_markdown_roundtrips(
        "This skill moves the editor auto-memory out of plaintext markdown files under `~/.editor/projects/*/memory/`.",
    );
}

#[test]
fn inline_code_containing_backtick_uses_longer_delimiter() {
    assert_markdown_roundtrips("Use `` ` `` as the delimiter.");
}

#[test]
fn inline_code_preserves_edge_spaces_with_longer_delimiter() {
    assert_markdown_roundtrips("Keep `  value  ` padded.");
}

#[test]
fn literal_tildes_are_escaped_to_prevent_strikethrough_roundtrip() {
    let doc = parse(
        r#"{
        "type": "doc",
        "content": [{
            "type": "paragraph",
            "content": [{
                "type": "text",
                "text": "use ~~ as a separator"
            }]
        }]
    }"#,
    );

    let markdown = pm().prosemirror_to_markdown(&doc).unwrap();
    let reparsed = pm().markdown_to_prosemirror(&markdown).unwrap();
    assert_eq!(plain_text(&reparsed), "use ~~ as a separator");
}

#[test]
fn validate_document_rejects_empty_attachment_id() {
    let invalid = parse(
        r#"{
        "type": "doc",
        "content": [{
            "type": "attachment",
            "attrs": { "attachmentId": "" }
        }]
    }"#,
    );
    assert_eq!(
        validate(&invalid),
        Err(ProseMirrorError::InvalidStructure(
            "Attachment node missing attachmentId".to_string()
        ))
    );
}

#[test]
fn validate_document_rejects_empty_link_href() {
    let invalid = parse(
        r#"{
        "type": "doc",
        "content": [{
            "type": "paragraph",
            "content": [{
                "type": "text",
                "text": "hi",
                "marks": [{ "type": "link", "attrs": { "href": "" } }]
            }]
        }]
    }"#,
    );
    assert_eq!(
        validate(&invalid),
        Err(ProseMirrorError::InvalidStructure(
            "Link mark missing href".to_string()
        ))
    );
}

#[test]
fn literal_markdown_metacharacters_are_escaped() {
    let doc = parse(
        r#"{
        "type": "doc",
        "content": [{
            "type": "paragraph",
            "content": [{
                "type": "text",
                "text": "**not bold** [literal](not-a-link) <tag>"
            }]
        }]
    }"#,
    );

    let markdown = pm().prosemirror_to_markdown(&doc).unwrap();
    assert_eq!(markdown, r"\*\*not bold\*\* \[literal](not-a-link) \<tag>");

    let reparsed = pm().markdown_to_prosemirror(&markdown).unwrap();
    assert_eq!(
        plain_text(&reparsed),
        "**not bold** [literal](not-a-link) <tag>"
    );
}

#[test]
fn benign_markdown_punctuation_stays_byte_stable() {
    let text = "cost ~$1, snake_case, [N], [_id], and <100 employees";
    let doc = doc_of(vec![obj(vec![
        ("type", Value::from("paragraph")),
        (
            "content",
            Value::Array(vec![obj(vec![
                ("type", Value::from("text")),
                ("text", Value::from(text)),
            ])]),
        ),
    ])]);

    let markdown = pm().prosemirror_to_markdown(&doc).unwrap();
    assert_eq!(markdown, text);
}

#[test]
fn table_alignment_markers_roundtrip() {
    assert_markdown_roundtrips("| a | b | c |\n| :--- | :---: | ---: |\n| 1 | 2 | 3 |");
}

#[test]
fn literal_block_markers_are_escaped_at_paragraph_start() {
    let doc = parse(
        r##"{
        "type": "doc",
        "content": [{
            "type": "paragraph",
            "content": [{ "type": "text", "text": "1. not a list" }]
        }, {
            "type": "paragraph",
            "content": [{ "type": "text", "text": "# not a heading" }]
        }]
    }"##,
    );

    let markdown = pm().prosemirror_to_markdown(&doc).unwrap();
    assert_eq!(markdown, "1\\. not a list\n\n\\# not a heading");

    let reparsed = pm().markdown_to_prosemirror(&markdown).unwrap();
    assert_eq!(
        plain_text(&reparsed),
        "1. not a list\n# not a heading"
    );
}

#[test]
fn inline_code_does_not_escape_markdown_metacharacters_inside_code() {
    let doc = parse(
        r#"{
        "type": "doc",
        "content": [{
            "type": "paragraph",
            "content": [{
                "type": "text",
                "text": "`raw`",
                "marks": [{ "type": "code" }]
            }]
        }]
    }"#,
    );

    assert_eq!(pm().prosemirror_to_markdown(&doc).unwrap(), "`` `raw` ``");
}

#[test]
fn soft_break_inside_paragraph_roundtrips() {
    assert_markdown_roundtrips("This paragraph is intentionally wrapped\nacross two source lines.");
}

#[test]
fn soft_break_inside_marked_text_roundtrips() {
    assert_markdown_roundtrips("This paragraph has **bold text\nwrapped across lines**.");
}

#[test]
fn list_item_paragraph_with_sibling_block_is_preserved() {
    assert_markdown_roundtrips(
        "- The user has one or more documents.\n\n  Additional context paragraph.",
    );
}

#[test]
fn list_item_paragraph_nested_list_then_paragraph_roundtrips() {
    assert_markdown_roundtrips(
        "- The user has one or more documents.\n  - Review the newest document.\n\n  Additional context paragraph.",
    );
}

#[test]
fn list_item_soft_break_continuation_keeps_indent() {
    assert_markdown_roundtrips(
        "3. Set:\n   - EIP-712 `typed_data`:\n     - compatible fallback\n       `[domainSeparator || hashStruct(message)]`",
    );
}

#[test]
fn list_item_marked_soft_break_continuation_keeps_indent() {
    assert_markdown_roundtrips("- **bold text\n  wrapped across lines**");
}

// ---------------------------------------------------------------------------
// Output escaping / injection hardening
// ---------------------------------------------------------------------------

fn link_doc(text: &str, href: &str) -> Value {
    let mut doc = parse(
        r#"{
        "type": "doc",
        "content": [{
            "type": "paragraph",
            "content": [{
                "type": "text",
                "text": "",
                "marks": [{ "type": "link", "attrs": { "href": "" } }]
            }]
        }]
    }"#,
    );
    doc["content"][0]["content"][0]["text"] = Value::from(text);
    doc["content"][0]["content"][0]["marks"][0]["attrs"]["href"] = Value::from(href);
    doc
}

fn first_inline(doc: &Value) -> &Value {
    &doc["content"][0]["content"][0]
}

#[test]
fn link_href_with_paren_breakout_payload_cannot_inject_markup() {
    let p = pm();
    let href = "http://x)![pwn](javascript:alert(1))";
    let md = p.prosemirror_to_markdown(&link_doc("click", href)).unwrap();
    let reparsed = p.markdown_to_prosemirror(&md).unwrap();

    assert_eq!(
        reparsed["content"][0]["content"].as_array().unwrap().len(),
        1
    );
    let inline = first_inline(&reparsed);
    assert_eq!(inline["marks"][0]["type"], "link");
    assert_eq!(inline["marks"][0]["attrs"]["href"], href);
}

#[test]
fn autolink_href_with_angle_brackets_cannot_inject_raw_html() {
    let p = pm();
    let href = "http://e.com#</a><img src=x onerror=alert(1)>";
    let md = p.prosemirror_to_markdown(&link_doc(href, href)).unwrap();
    let reparsed = p.markdown_to_prosemirror(&md).unwrap();

    assert_eq!(
        reparsed["content"][0]["content"].as_array().unwrap().len(),
        1
    );
    let inline = first_inline(&reparsed);
    assert_eq!(inline["marks"][0]["type"], "link");
    assert_eq!(inline["marks"][0]["attrs"]["href"], href);
}

#[test]
fn link_href_with_space_round_trips_via_angle_form() {
    let p = pm();
    let href = "http://x.com/a b";
    let md = p.prosemirror_to_markdown(&link_doc("x", href)).unwrap();
    let reparsed = p.markdown_to_prosemirror(&md).unwrap();
    assert_eq!(first_inline(&reparsed)["marks"][0]["attrs"]["href"], href);
}

#[test]
fn link_url_scheme_is_passed_through_unsanitized_by_design() {
    let p = pm();
    let md = p
        .prosemirror_to_markdown(&link_doc("click", "javascript:x=1"))
        .unwrap();
    assert_eq!(md, "[click](javascript:x=1)");
}

#[test]
fn link_title_is_preserved_and_prevents_autolink_shortcut() {
    let p = pm();
    let href = "https://example.com";
    let doc = parse(
        r#"{
        "type": "doc",
        "content": [{
            "type": "paragraph",
            "content": [{
                "type": "text",
                "text": "https://example.com",
                "marks": [{
                    "type": "link",
                    "attrs": { "href": "https://example.com", "title": "docs \"quoted\"" }
                }]
            }]
        }]
    }"#,
    );
    let md = p.prosemirror_to_markdown(&doc).unwrap();
    let reparsed = p.markdown_to_prosemirror(&md).unwrap();
    let inline = first_inline(&reparsed);

    assert!(
        !md.starts_with('<'),
        "title was lost through autolink: {md:?}"
    );
    assert_eq!(inline["marks"][0]["attrs"]["href"], href);
    assert_eq!(inline["marks"][0]["attrs"]["title"], "docs \"quoted\"");
}

#[test]
fn image_alt_and_src_breakout_payloads_cannot_inject_markup() {
    let p = pm();
    let doc = parse(
        r#"{
        "type": "doc",
        "content": [{
            "type": "image",
            "attrs": { "alt": "a](javascript:alert(1))[x", "src": "http://x)![p](data:,)" }
        }]
    }"#,
    );
    let md = p.prosemirror_to_markdown(&doc).unwrap();
    let reparsed = p.markdown_to_prosemirror(&md).unwrap();

    let para = &reparsed["content"][0];
    assert_eq!(para["content"].as_array().unwrap().len(), 1);
    let image = &para["content"][0];
    assert_eq!(image["type"], "image");
    assert_eq!(image["attrs"]["alt"], "a](javascript:alert(1))[x");
    assert_eq!(image["attrs"]["src"], "http://x)![p](data:,)");
}

#[test]
fn image_title_is_preserved() {
    let p = pm();
    let doc = parse(
        r#"{
        "type": "doc",
        "content": [{
            "type": "image",
            "attrs": {
                "alt": "diagram",
                "src": "https://example.com/a b.png",
                "title": "quoted \"title\""
            }
        }]
    }"#,
    );
    let md = p.prosemirror_to_markdown(&doc).unwrap();
    let reparsed = p.markdown_to_prosemirror(&md).unwrap();
    let image = &reparsed["content"][0]["content"][0];

    assert_eq!(image["attrs"]["src"], "https://example.com/a b.png");
    assert_eq!(image["attrs"]["title"], "quoted \"title\"");
}

#[test]
fn attachment_filename_breakout_payload_cannot_inject_markup() {
    let p = pm();
    let id = "123e4567-e89b-12d3-a456-426614174000";
    let doc = parse(
        r#"{
        "type": "doc",
        "content": [{
            "type": "attachment",
            "attrs": { "attachmentId": "123e4567-e89b-12d3-a456-426614174000", "filename": "f](javascript:alert(1))[x" }
        }]
    }"#,
    );
    let md = p.prosemirror_to_markdown(&doc).unwrap();
    let reparsed = p.markdown_to_prosemirror(&md).unwrap();

    let node = &reparsed["content"][0];
    assert_eq!(node["type"], "attachment");
    assert_eq!(node["attrs"]["attachmentId"], id);
    assert_eq!(node["attrs"]["filename"], "f](javascript:alert(1))[x");
}

// ---------------------------------------------------------------------------
// Adversarial integer attributes
// ---------------------------------------------------------------------------

fn heading_doc(level: Value) -> Value {
    let mut doc = parse(
        r#"{
        "type": "doc",
        "content": [{ "type": "heading", "attrs": { "level": 1 }, "content": [{ "type": "text", "text": "hi" }] }]
    }"#,
    );
    doc["content"][0]["attrs"]["level"] = level;
    doc
}

#[test]
fn heading_level_out_of_range_is_clamped_not_allocated() {
    let p = pm();
    let huge = p
        .prosemirror_to_markdown(&heading_doc(Value::from(i64::MAX)))
        .unwrap();
    assert!(huge.starts_with("###### "), "got: {huge}");
    let negative = p.prosemirror_to_markdown(&heading_doc(Value::from(-1))).unwrap();
    assert!(negative.starts_with("# "), "got: {negative}");
    let absurd = p
        .prosemirror_to_markdown(&heading_doc(Value::from(4_000_000_000u64)))
        .unwrap();
    assert!(absurd.starts_with("###### "), "got: {absurd}");
}

#[test]
fn ordered_list_near_max_order_does_not_overflow() {
    let p = pm();
    let mut doc = parse(
        r#"{
        "type": "doc",
        "content": [{
            "type": "orderedList",
            "attrs": { "order": 1 },
            "content": [
                { "type": "listItem", "content": [{ "type": "paragraph", "content": [{ "type": "text", "text": "a" }] }] },
                { "type": "listItem", "content": [{ "type": "paragraph", "content": [{ "type": "text", "text": "b" }] }] }
            ]
        }]
    }"#,
    );
    doc["content"][0]["attrs"]["order"] = Value::from(i64::MAX);
    let md = p.prosemirror_to_markdown(&doc).unwrap();
    assert!(md.contains(&format!("{}. ", i64::MAX)));
}

#[test]
fn heavily_marked_text_renders_without_quadratic_blowup() {
    let p = pm();
    let marks: Vec<Value> = (0..50).map(|_| parse(r#"{ "type": "bold" }"#)).collect();
    let nodes: Vec<Value> = (0..4000)
        .map(|_| {
            obj(vec![
                ("type", Value::from("text")),
                ("text", Value::from("x")),
                ("marks", Value::Array(marks.clone())),
            ])
        })
        .collect();
    let doc = doc_of(vec![obj(vec![
        ("type", Value::from("paragraph")),
        ("content", Value::Array(nodes)),
    ])]);
    let md = p.prosemirror_to_markdown(&doc).unwrap();
    assert!(md.contains(&"x".repeat(4000)));
}

#[test]
fn emphasis_whitespace_is_expelled_so_marks_survive_roundtrip() {
    let p = pm();
    let doc = parse(
        r#"{
        "type": "doc",
        "content": [{
            "type": "paragraph",
            "content": [{
                "type": "text",
                "text": " bold ",
                "marks": [{ "type": "bold" }]
            }]
        }]
    }"#,
    );
    let md = p.prosemirror_to_markdown(&doc).unwrap();
    let reparsed = p.markdown_to_prosemirror(&md).unwrap();
    let marked = reparsed["content"][0]["content"]
        .as_array()
        .unwrap()
        .iter()
        .find(|node| node["text"] == "bold")
        .expect("bold text node");

    assert_eq!(marked["marks"][0]["type"], "bold");
}

// ---------------------------------------------------------------------------
// Markdown correctness regressions
// ---------------------------------------------------------------------------

#[test]
fn thematic_break_text_is_escaped_and_preserved() {
    let p = pm();
    for text in ["---", "----", "* * *", "___"] {
        let doc = doc_of(vec![obj(vec![
            ("type", Value::from("paragraph")),
            (
                "content",
                Value::Array(vec![obj(vec![
                    ("type", Value::from("text")),
                    ("text", Value::from(text)),
                ])]),
            ),
        ])]);
        let md = p.prosemirror_to_markdown(&doc).unwrap();
        let reparsed = p.markdown_to_prosemirror(&md).unwrap();
        assert_eq!(
            plain_text(&reparsed),
            text,
            "thematic-break text lost for {text:?} (md={md:?})"
        );
    }
}

#[test]
fn leading_issue_reference_is_not_escaped_as_heading() {
    assert_markdown_roundtrips("#583 is an issue reference.");
}

#[test]
fn heading_with_embedded_newline_stays_a_single_heading() {
    let p = pm();
    let doc = parse(
        r#"{
        "type": "doc",
        "content": [{ "type": "heading", "attrs": { "level": 2 }, "content": [{ "type": "text", "text": "a\nb" }] }]
    }"#,
    );
    let md = p.prosemirror_to_markdown(&doc).unwrap();
    let reparsed = p.markdown_to_prosemirror(&md).unwrap();
    let top = reparsed["content"].as_array().unwrap();
    assert_eq!(top.len(), 1, "heading split into multiple blocks: {md:?}");
    assert_eq!(top[0]["type"], "heading");
}

#[test]
fn code_block_language_with_newline_cannot_break_fence() {
    let p = pm();
    let doc = parse(
        r#"{
        "type": "doc",
        "content": [{
            "type": "codeBlock",
            "attrs": { "language": "rust\n```\n# evil" },
            "content": [{ "type": "text", "text": "let x = 1;" }]
        }]
    }"#,
    );
    let md = p.prosemirror_to_markdown(&doc).unwrap();
    let reparsed = p.markdown_to_prosemirror(&md).unwrap();
    let blocks = reparsed["content"].as_array().unwrap();
    assert_eq!(blocks.len(), 1, "fence broke out: {md:?}");
    assert_eq!(blocks[0]["type"], "codeBlock");
    assert_eq!(blocks[0]["attrs"]["language"], "rust");
    assert!(
        blocks[0]["content"][0]["text"]
            .as_str()
            .unwrap()
            .starts_with("let x = 1;")
    );
}

#[test]
fn code_block_language_with_backticks_sizes_fence() {
    let p = pm();
    let doc = parse(
        r#"{
        "type": "doc",
        "content": [{
            "type": "codeBlock",
            "attrs": { "language": "```js" },
            "content": [{ "type": "text", "text": "x" }]
        }]
    }"#,
    );
    let md = p.prosemirror_to_markdown(&doc).unwrap();
    let reparsed = p.markdown_to_prosemirror(&md).unwrap();
    let blocks = reparsed["content"].as_array().unwrap();
    assert_eq!(blocks.len(), 1, "fence broke out: {md:?}");
    assert_eq!(blocks[0]["type"], "codeBlock");
    assert!(
        blocks[0]["content"][0]["text"]
            .as_str()
            .unwrap()
            .starts_with('x')
    );
}

#[test]
fn code_block_params_attr_is_supported() {
    let p = pm();
    let doc = parse(
        r#"{
        "type": "doc",
        "content": [{
            "type": "code_block",
            "attrs": { "params": "rust" },
            "content": [{ "type": "text", "text": "fn main() {}" }]
        }]
    }"#,
    );
    let md = p.prosemirror_to_markdown(&doc).unwrap();
    let reparsed = p.markdown_to_prosemirror(&md).unwrap();

    assert!(md.starts_with("```rust\n"), "params attr ignored: {md:?}");
    assert_eq!(reparsed["content"][0]["attrs"]["language"], "rust");
}

// ---------------------------------------------------------------------------
// Org-mode converter regressions
// ---------------------------------------------------------------------------

#[test]
fn org_multi_row_table_is_one_table_with_a_header() {
    let p = pm();
    let doc = p
        .org_to_prosemirror("| a | b |\n|---+---|\n| 1 | 2 |")
        .unwrap();
    let table = &doc["content"][0];
    assert_eq!(table["type"], "table");
    let rows = table["content"].as_array().unwrap();
    assert_eq!(rows.len(), 2, "expected one table with two rows: {doc}");
    assert_eq!(rows[0]["content"][0]["type"], "tableHeader");
    assert_eq!(rows[1]["content"][0]["type"], "tableCell");
    assert_eq!(
        plain_text(&doc).replace('\n', " ").trim(),
        "a b 1 2"
    );
}

#[test]
fn org_multi_digit_ordered_list_parses_with_order_attr() {
    let p = pm();
    let doc = p.org_to_prosemirror("10. item ten").unwrap();
    let list = &doc["content"][0];
    assert_eq!(list["type"], "orderedList");
    assert_eq!(list["attrs"]["order"], 10);
    assert_eq!(list["content"].as_array().unwrap().len(), 1);
}

#[test]
fn org_consecutive_bullets_merge_into_one_list() {
    let p = pm();
    let doc = p.org_to_prosemirror("- one\n- two\n- three").unwrap();
    let top = doc["content"].as_array().unwrap();
    assert_eq!(top.len(), 1, "bullets did not merge: {doc}");
    assert_eq!(top[0]["type"], "bulletList");
    assert_eq!(top[0]["content"].as_array().unwrap().len(), 3);
}

#[test]
fn org_consecutive_ordered_items_merge_into_one_list() {
    let p = pm();
    let doc = p.org_to_prosemirror("1. a\n2. b").unwrap();
    let top = doc["content"].as_array().unwrap();
    assert_eq!(top.len(), 1, "ordered items did not merge: {doc}");
    assert_eq!(top[0]["type"], "orderedList");
    assert_eq!(top[0]["content"].as_array().unwrap().len(), 2);
    assert!(top[0].get("attrs").is_none());
}

#[test]
fn org_table_cell_with_paragraph_child_exports_text() {
    let p = pm();
    let doc = parse(
        r#"{
        "type": "doc",
        "content": [{
            "type": "table",
            "content": [{
                "type": "tableRow",
                "content": [{
                    "type": "tableCell",
                    "content": [{ "type": "paragraph", "content": [{ "type": "text", "text": "Value" }] }]
                }]
            }]
        }]
    }"#,
    );
    let org = p.prosemirror_to_org(&doc).unwrap();
    assert!(org.contains("Value"), "cell text dropped: {org:?}");
}

#[test]
fn org_table_cell_pipe_round_trips() {
    let p = pm();
    let doc = parse(
        r#"{
        "type": "doc",
        "content": [{
            "type": "table",
            "content": [{
                "type": "tableRow",
                "content": [{ "type": "tableCell", "content": [{ "type": "text", "text": "a | b" }] }]
            }]
        }]
    }"#,
    );
    let org = p.prosemirror_to_org(&doc).unwrap();
    let back = p.org_to_prosemirror(&org).unwrap();
    let cells = back["content"][0]["content"][0]["content"]
        .as_array()
        .unwrap();
    assert_eq!(cells.len(), 1, "pipe split the cell: {org:?}");
    assert_eq!(cells[0]["content"][0]["text"], "a | b");
}

#[test]
fn org_ordered_list_start_is_preserved_on_export() {
    let p = pm();
    let doc = parse(
        r#"{
        "type": "doc",
        "content": [{
            "type": "orderedList",
            "attrs": { "order": 5 },
            "content": [
                { "type": "listItem", "content": [{ "type": "paragraph", "content": [{ "type": "text", "text": "five" }] }] },
                { "type": "listItem", "content": [{ "type": "paragraph", "content": [{ "type": "text", "text": "six" }] }] }
            ]
        }]
    }"#,
    );
    let org = p.prosemirror_to_org(&doc).unwrap();
    assert!(org.contains("5. five"), "start lost: {org:?}");
    assert!(org.contains("6. six"), "start lost: {org:?}");
}

#[test]
fn org_code_block_body_cannot_close_block_early() {
    let p = pm();
    let doc = parse(
        r#"{
        "type": "doc",
        "content": [{
            "type": "codeBlock",
            "attrs": { "language": "text" },
            "content": [{ "type": "text", "text": "safe\n#+END_SRC\n* injected" }]
        }]
    }"#,
    );
    let org = p.prosemirror_to_org(&doc).unwrap();
    let back = p.org_to_prosemirror(&org).unwrap();
    let blocks = back["content"].as_array().unwrap();

    assert_eq!(blocks.len(), 1, "source block closed early: {org:?}");
    assert_eq!(blocks[0]["type"], "codeBlock");
    assert_eq!(
        blocks[0]["content"][0]["text"],
        "safe\n#+END_SRC\n* injected"
    );
}

#[test]
fn org_heading_with_embedded_newline_stays_a_single_heading() {
    let p = pm();
    let doc = parse(
        r#"{
        "type": "doc",
        "content": [{
            "type": "heading",
            "attrs": { "level": 2 },
            "content": [{ "type": "text", "text": "a\n* injected" }]
        }]
    }"#,
    );
    let org = p.prosemirror_to_org(&doc).unwrap();
    let back = p.org_to_prosemirror(&org).unwrap();
    let blocks = back["content"].as_array().unwrap();

    assert_eq!(blocks.len(), 1, "heading split into blocks: {org:?}");
    assert_eq!(blocks[0]["type"], "heading");
    assert_eq!(plain_text(&back), "a * injected");
}

#[test]
fn org_paragraph_line_starts_cannot_become_structure() {
    let p = pm();
    let text = "#+BEGIN_SRC\n* heading\n- item\n10. ordered\n| a | b |\n-----";
    let doc = doc_of(vec![obj(vec![
        ("type", Value::from("paragraph")),
        (
            "content",
            Value::Array(vec![obj(vec![
                ("type", Value::from("text")),
                ("text", Value::from(text)),
            ])]),
        ),
    ])]);
    let org = p.prosemirror_to_org(&doc).unwrap();
    let back = p.org_to_prosemirror(&org).unwrap();
    let blocks = back["content"].as_array().unwrap();

    assert!(
        blocks.iter().all(|block| block["type"] == "paragraph"),
        "paragraph text became structure: {org:?}"
    );
    assert_eq!(plain_text(&back), text);
}

#[test]
fn org_inline_code_is_literal() {
    let p = pm();
    let doc = p.org_to_prosemirror("call ~a/b~ now").unwrap();
    let inlines = doc["content"][0]["content"].as_array().unwrap();
    let code = inlines
        .iter()
        .find(|n| n["marks"][0]["type"] == "code")
        .expect("a code run");
    assert_eq!(code["text"], "a/b");
    assert_eq!(code["marks"].as_array().unwrap().len(), 1);
    let last = inlines.last().unwrap();
    assert_eq!(last["text"], " now");
    assert!(last.get("marks").is_none());
}

#[test]
fn org_marker_in_identifier_or_arithmetic_is_literal() {
    let p = pm();
    let underscores = p.org_to_prosemirror("the some_var_name thing").unwrap();
    assert_eq!(plain_text(&underscores), "the some_var_name thing");
    let inlines = underscores["content"][0]["content"].as_array().unwrap();
    assert!(
        inlines.iter().all(|n| n.get("marks").is_none()),
        "spurious mark"
    );

    let arithmetic = p.org_to_prosemirror("compute 2 * 3 * 4 result").unwrap();
    let inlines = arithmetic["content"][0]["content"].as_array().unwrap();
    assert!(
        inlines.iter().all(|n| n.get("marks").is_none()),
        "spurious bold"
    );
}

#[test]
fn org_link_description_cannot_inject_a_second_link() {
    let p = pm();
    let doc = link_doc("text", "http://x][evil]] extra");
    let org = p.prosemirror_to_org(&doc).unwrap();
    let back = p.org_to_prosemirror(&org).unwrap();
    let inlines = back["content"][0]["content"].as_array().unwrap();
    let links = inlines
        .iter()
        .filter(|n| n["marks"][0]["type"] == "link")
        .count();
    assert_eq!(links, 1, "link breakout produced extra links: {org:?}");
}

// ---------------------------------------------------------------------------
// Plain-text extraction depth
// ---------------------------------------------------------------------------

#[test]
fn extracts_shallow_text() {
    assert!(plain_text(&nested_blockquotes(5, "shallow")).contains("shallow"));
}

#[test]
fn stops_recursing_past_a_depth_limit() {
    assert!(!plain_text(&nested_blockquotes(200, "deep")).contains("deep"));
}

// ---------------------------------------------------------------------------
// Markdown converter internals
// ---------------------------------------------------------------------------

const SCHEME: &str = "serentest://attachment/";

fn render_markdown(doc: &Value) -> Result<String, ProseMirrorError> {
    seren_prosemirror::md_render::prosemirror_to_markdown(&to_model(doc), SCHEME)
}

fn parse_markdown(markdown: &str) -> Value {
    from_model(&seren_prosemirror::md_parse::markdown_to_prosemirror(markdown, SCHEME))
}

#[test]
fn split_text_nodes_cannot_assemble_unintended_link() {
    let doc = parse(
        r#"{
        "type": "doc",
        "content": [{
            "type": "paragraph",
            "content": [
                { "type": "text", "text": "[literal" },
                { "type": "text", "text": "](not-a-link)" }
            ]
        }]
    }"#,
    );

    let markdown = render_markdown(&doc).unwrap();
    let reparsed = parse_markdown(&markdown);
    let inline = reparsed["content"][0]["content"].as_array().unwrap();

    assert_eq!(inline.len(), 1);
    assert_eq!(inline[0]["text"], "[literal](not-a-link)");
    assert!(inline[0].get("marks").is_none());
}

#[test]
fn huge_continuation_indent_attr_is_bounded() {
    let mut doc = parse(
        r#"{
        "type": "doc",
        "content": [{
            "type": "bulletList",
            "content": [{
                "type": "listItem",
                "attrs": { "continuationIndent": 0 },
                "content": [{
                    "type": "paragraph",
                    "content": [{ "type": "text", "text": "bounded" }]
                }]
            }]
        }]
    }"#,
    );
    doc["content"][0]["content"][0]["attrs"]["continuationIndent"] = Value::from(u64::MAX);

    let markdown = render_markdown(&doc).unwrap();

    assert!(markdown.len() < seren_prosemirror::md_render::MAX_LIST_CONTINUATION_PADDING + 32);
    assert!(markdown.starts_with("- bounded"));
}

#[test]
fn arbitrary_attr_types_do_not_panic() {
    let mut doc = parse(
        r#"{
        "type": "doc",
        "content": [
            { "type": "heading", "attrs": { "level": 0 }, "content": [{ "type": "text", "text": "h" }] },
            { "type": "heading", "attrs": { "level": "huge" }, "content": [{ "type": "text", "text": "h" }] },
            {
                "type": "orderedList",
                "attrs": { "order": 0 },
                "content": [{
                    "type": "listItem",
                    "attrs": { "continuationIndent": "lots", "looseAfter": "yes" },
                    "content": [{ "type": "paragraph", "content": [{ "type": "text", "text": "a" }] }]
                }]
            },
            {
                "type": "bulletList",
                "attrs": { "marker": 42 },
                "content": [{
                    "type": "listItem",
                    "attrs": { "continuationIndent": 0, "loose": 1, "looseBefore": [] },
                    "content": [
                        { "type": "paragraph", "content": [{ "type": "text", "text": "b" }] },
                        { "type": "paragraph", "content": [{ "type": "text", "text": "c" }] }
                    ]
                }]
            },
            {
                "type": "table",
                "attrs": { "alignments": "not-an-array" },
                "content": [{ "type": "tableRow", "content": [
                    { "type": "tableCell", "content": [{ "type": "text", "text": "x" }] }
                ] }]
            },
            {
                "type": "table",
                "attrs": { "alignments": [1, 2, 3] },
                "content": [{ "type": "tableRow", "attrs": { "header": true }, "content": [
                    { "type": "tableHeader", "content": [{ "type": "text", "text": "h" }] }
                ] }]
            }
        ]
    }"#,
    );
    doc["content"][0]["attrs"]["level"] = Value::from(u64::MAX);
    doc["content"][2]["attrs"]["order"] = Value::from(i64::MAX);
    doc["content"][3]["content"][0]["attrs"]["continuationIndent"] = Value::from(u64::MAX);

    let markdown = render_markdown(&doc).unwrap();
    assert!(markdown.len() < seren_prosemirror::md_render::MAX_LIST_CONTINUATION_PADDING * 4);
    parse_markdown(&markdown);
}

#[test]
fn nested_large_continuation_indent_stays_bounded() {
    let item_attrs = || obj(vec![("continuationIndent", Value::from(u64::MAX))]);
    let cont = || parse(r#"{ "type": "paragraph", "content": [{ "type": "text", "text": "cont" }] }"#);
    let mut node = obj(vec![
        ("type", Value::from("bulletList")),
        (
            "content",
            Value::Array(vec![obj(vec![
                ("type", Value::from("listItem")),
                ("attrs", item_attrs()),
                (
                    "content",
                    Value::Array(vec![
                        parse(r#"{ "type": "paragraph", "content": [{ "type": "text", "text": "leaf" }] }"#),
                        cont(),
                    ]),
                ),
            ])]),
        ),
    ]);
    for _ in 0..8 {
        node = obj(vec![
            ("type", Value::from("bulletList")),
            (
                "content",
                Value::Array(vec![obj(vec![
                    ("type", Value::from("listItem")),
                    ("attrs", item_attrs()),
                    ("content", Value::Array(vec![node, cont()])),
                ])]),
            ),
        ]);
    }
    let doc = doc_of(vec![node]);
    let markdown = render_markdown(&doc).unwrap();
    assert!(markdown.len() < 1_000_000);
}

#[test]
fn cross_mark_bracket_run_cannot_assemble_link() {
    let doc = parse(
        r#"{
        "type": "doc",
        "content": [{
            "type": "paragraph",
            "content": [
                { "type": "text", "text": "[" },
                { "type": "text", "text": "x", "marks": [{ "type": "bold" }] },
                { "type": "text", "text": "](https://example.invalid)" }
            ]
        }]
    }"#,
    );
    let markdown = render_markdown(&doc).unwrap();
    let reparsed = parse_markdown(&markdown);
    assert!(
        !reparsed.to_string().contains("\"link\""),
        "synthesized a link across the bold boundary: {markdown:?}"
    );
}

#[test]
fn multibyte_text_near_metacharacters_does_not_panic() {
    let doc = parse(
        r#"{
        "type": "doc",
        "content": [{
            "type": "paragraph",
            "content": [{ "type": "text", "text": "café[x](y) 日本語](z) ✓[ unclosed _ä_ ~ñ~" }]
        }]
    }"#,
    );
    let markdown = render_markdown(&doc).unwrap();
    parse_markdown(&markdown);
}
