use seren_prosemirror::attachment::attachment_id_from_uri;
use seren_prosemirror::md_blocks::backtick_delimiter;
use seren_prosemirror::md_events::{MdEvent, MdTag, MdTagEnd};
use seren_prosemirror::md_parse::events_to_document;
use seren_prosemirror::md_escape::should_escape_underscore;
use seren_prosemirror::md_render::{heading_level, item_number};
use seren_prosemirror::org_inline::parse_org_inline;
use seren_prosemirror::org_render::prosemirror_to_org;
use seren_prosemirror::org_text::{
    is_org_table_separator, org_escape_description, org_escape_target, org_line_starts_structure,
    org_lines, org_source_body_line, org_unescape_generated_line, parse_org_ordered_marker,
    push_org_paragraph_text, push_org_source_text, split_org_row_cells,
};
use seren_prosemirror::{
    empty_document, extract_plain_text, validate_document, JsonNumber, JsonValue, ProseMirror,
    ProseMirrorError,
};

const SCHEME: &str = "serentest://attachment/";
const UUID: &str = "123e4567-e89b-12d3-a456-426614174000";

fn chars(s: &str) -> Vec<char> {
    s.chars().collect()
}

fn text_of(v: &[char]) -> String {
    v.iter().collect()
}

fn string(s: &str) -> JsonValue {
    JsonValue::String(s.to_string())
}

fn object(entries: Vec<(&str, JsonValue)>) -> JsonValue {
    JsonValue::Object(entries.into_iter().map(|(k, v)| (k.to_string(), v)).collect())
}

fn text_node(text: &str) -> JsonValue {
    object(vec![("type", string("text")), ("text", string(text))])
}

fn paragraph(nodes: Vec<JsonValue>) -> JsonValue {
    object(vec![("type", string("paragraph")), ("content", JsonValue::Array(nodes))])
}

fn doc(blocks: Vec<JsonValue>) -> JsonValue {
    object(vec![("type", string("doc")), ("content", JsonValue::Array(blocks))])
}

fn field<'a>(v: &'a JsonValue, key: &str) -> Option<&'a JsonValue> {
    match v {
        JsonValue::Object(es) => es.iter().find(|(k, _)| k == key).map(|(_, v)| v),
        _ => None,
    }
}

fn str_field<'a>(v: &'a JsonValue, key: &str) -> Option<&'a str> {
    match field(v, key) {
        Some(JsonValue::String(s)) => Some(s.as_str()),
        _ => None,
    }
}

fn items<'a>(v: &'a JsonValue, key: &str) -> &'a [JsonValue] {
    match field(v, key) {
        Some(JsonValue::Array(a)) => a.as_slice(),
        _ => &[],
    }
}

// ----- laws on concrete values -----

#[test]
fn empty_document_is_a_valid_doc() {
    let d = empty_document();
    assert_eq!(validate_document(&d), Ok(()));
    assert_eq!(str_field(&d, "type"), Some("doc"));
    assert_eq!(items(&d, "content").len(), 1);
    assert_eq!(extract_plain_text(&d), "");
}

#[test]
fn org_link_parts_cannot_close_the_link() {
    assert_eq!(org_escape_description("a[b]\nc\rd"), "a(b) c d");
    assert_eq!(org_escape_target("x[y]\r\nz"), "x%5By%5Dz");
}

#[test]
fn org_source_lines_are_escaped_and_read_back() {
    let mut out = String::new();
    push_org_source_text(&mut out, "a\n  #+end_src \nb");
    assert_eq!(out, "a\n,  #+end_src \nb");
    let lines: Vec<&str> = out.split('\n').collect();
    assert_eq!(text_of(&org_source_body_line(&chars(lines[1]))), "  #+end_src ");
    assert_eq!(text_of(&org_source_body_line(&chars("plain"))), "plain");
}

#[test]
fn org_paragraph_lines_are_escaped_and_read_back() {
    let mut out = String::new();
    push_org_paragraph_text(&mut out, "* x\nplain\n| a |");
    assert_eq!(out, ",* x\nplain\n,| a |");
    assert_eq!(
        org_unescape_generated_line(&chars(",* x")).map(|v| text_of(&v)),
        Some("* x".to_string())
    );
    assert_eq!(org_unescape_generated_line(&chars("plain")), None);
    assert_eq!(org_unescape_generated_line(&chars(",plain")), None);
}

#[test]
fn converters_refuse_a_root_that_is_not_a_doc() {
    let p = ProseMirror::new(SCHEME);
    let not_doc = paragraph(vec![text_node("x")]);
    let expected = Err(ProseMirrorError::InvalidStructure("Root must be doc".to_string()));
    assert_eq!(p.prosemirror_to_markdown(&not_doc), expected);
    assert_eq!(p.prosemirror_to_org(&not_doc), expected);
}

#[test]
fn org_list_lines_become_one_flat_list() {
    let p = ProseMirror::new(SCHEME);
    let d = p.org_to_prosemirror("- a\n  - b\n    - c\n- d").unwrap();
    let blocks = items(&d, "content");
    assert_eq!(blocks.len(), 1);
    assert_eq!(str_field(&blocks[0], "type"), Some("bulletList"));
    let list_items = items(&blocks[0], "content");
    assert_eq!(list_items.len(), 4);
    let texts: Vec<&str> = list_items
        .iter()
        .map(|item| {
            let para = &items(item, "content")[0];
            str_field(&items(para, "content")[0], "text").unwrap()
        })
        .collect();
    assert_eq!(texts, vec!["a", "b", "c", "d"]);
}

#[test]
fn events_build_the_document_they_describe() {
    let md = "Hi *there*";
    let events = vec![
        (MdEvent::Start(MdTag::Paragraph), 0, 10),
        (MdEvent::Text("Hi ".to_string()), 0, 3),
        (MdEvent::Start(MdTag::Emphasis), 3, 10),
        (MdEvent::Text("there".to_string()), 4, 9),
        (MdEvent::End(MdTagEnd::Emphasis), 3, 10),
        (MdEvent::End(MdTagEnd::Paragraph), 0, 10),
    ];
    let d = events_to_document(md, &events, SCHEME);
    let blocks = items(&d, "content");
    assert_eq!(blocks.len(), 1);
    assert_eq!(str_field(&blocks[0], "type"), Some("paragraph"));
    let inline = items(&blocks[0], "content");
    assert_eq!(inline.len(), 2);
    assert_eq!(str_field(&inline[0], "text"), Some("Hi "));
    assert!(field(&inline[0], "marks").is_none());
    assert_eq!(str_field(&inline[1], "text"), Some("there"));
    let marks = items(&inline[1], "marks");
    assert_eq!(marks.len(), 1);
    assert_eq!(str_field(&marks[0], "type"), Some("italic"));
    let direct = p_markdown(md);
    assert_eq!(format!("{:?}", direct), format!("{:?}", d));
}

fn p_markdown(md: &str) -> JsonValue {
    ProseMirror::new(SCHEME).markdown_to_prosemirror(md).unwrap()
}

#[test]
fn events_for_a_task_item_mark_the_list() {
    let md = "- [x] done";
    let events = vec![
        (MdEvent::Start(MdTag::List(None)), 0, 10),
        (MdEvent::Start(MdTag::Item), 0, 10),
        (MdEvent::TaskListMarker(true), 2, 5),
        (MdEvent::Text("done".to_string()), 6, 10),
        (MdEvent::End(MdTagEnd::Item), 0, 10),
        (MdEvent::End(MdTagEnd::List(false)), 0, 10),
    ];
    let d = events_to_document(md, &events, SCHEME);
    let list = &items(&d, "content")[0];
    assert_eq!(str_field(list, "type"), Some("taskList"));
    let item = &items(list, "content")[0];
    assert_eq!(str_field(item, "type"), Some("taskItem"));
    assert!(matches!(field(field(item, "attrs").unwrap(), "checked"), Some(JsonValue::Bool(true))));
    let para = &items(item, "content")[0];
    assert_eq!(str_field(para, "type"), Some("paragraph"));
    assert_eq!(str_field(&items(para, "content")[0], "text"), Some("done"));
}

#[test]
fn imported_documents_always_hold_a_block() {
    let p = ProseMirror::new(SCHEME);
    for text in ["", "\n\n", "plain"] {
        let m = p.markdown_to_prosemirror(text).unwrap();
        assert_eq!(str_field(&m, "type"), Some("doc"));
        assert!(!items(&m, "content").is_empty());
        let o = p.org_to_prosemirror(text).unwrap();
        assert_eq!(str_field(&o, "type"), Some("doc"));
        assert!(!items(&o, "content").is_empty());
    }
}

#[test]
fn rendered_text_has_no_trailing_whitespace() {
    let p = ProseMirror::new(SCHEME);
    let d = doc(vec![paragraph(vec![text_node("line  ")]), paragraph(vec![])]);
    assert_eq!(p.prosemirror_to_markdown(&d).unwrap(), "line");
    assert_eq!(p.prosemirror_to_org(&d).unwrap(), "line");
}

#[test]
fn plain_text_is_trimmed() {
    let d = doc(vec![paragraph(vec![text_node("  padded  ")])]);
    assert_eq!(extract_plain_text(&d), "padded");
}

#[test]
fn attachment_uri_reads_back_its_id() {
    let uri = format!("{SCHEME}{UUID}");
    assert_eq!(attachment_id_from_uri(&uri, SCHEME), Some(UUID.to_string()));
    assert_eq!(
        attachment_id_from_uri(&format!("{uri}?download=1"), SCHEME),
        Some(UUID.to_string())
    );
    assert_eq!(attachment_id_from_uri(&uri, ""), None);
    assert_eq!(attachment_id_from_uri("https://example.com/x", SCHEME), None);
}

// ----- edge cases and formulas -----

#[test]
fn ordered_markers_of_any_width_are_read() {
    assert_eq!(parse_org_ordered_marker(&chars("12. twelve")), Some((12, 4)));
    assert_eq!(parse_org_ordered_marker(&chars("3) three")), Some((3, 3)));
    assert_eq!(parse_org_ordered_marker(&chars("1.x")), None);
    assert_eq!(parse_org_ordered_marker(&chars("x. no")), None);
    assert_eq!(
        parse_org_ordered_marker(&chars("9223372036854775807. max")),
        Some((i64::MAX, 21))
    );
    assert_eq!(parse_org_ordered_marker(&chars("9223372036854775808. over")), None);
}

#[test]
fn table_rule_lines_are_recognised() {
    assert!(is_org_table_separator(&chars("|---+---|")));
    assert!(is_org_table_separator(&chars("| - + - |")));
    assert!(!is_org_table_separator(&chars("|-|-|")));
    assert!(!is_org_table_separator(&chars("|   |")));
    assert!(!is_org_table_separator(&chars("| a |")));
}

#[test]
fn table_rows_split_at_unescaped_bars() {
    let cells: Vec<String> = split_org_row_cells(&chars("| a \\| b | c |"))
        .iter()
        .map(|c| text_of(c))
        .collect();
    assert_eq!(cells, vec!["a | b".to_string(), "c".to_string()]);
}

#[test]
fn org_lines_follow_str_lines() {
    let lines: Vec<String> = org_lines(&chars("a\r\nb\n\nc\r")).iter().map(|l| text_of(l)).collect();
    assert_eq!(lines, vec!["a", "b", "", "c\r"]);
    assert!(org_lines(&chars("")).is_empty());
    assert_eq!(org_lines(&chars("x\n")).len(), 1);
}

#[test]
fn structure_detection_uses_unicode_upper_case() {
    assert!(org_line_starts_structure(&chars("#+begin_quote")));
    assert!(org_line_starts_structure(&chars("  #+Begin_Src rust")));
    assert!(org_line_starts_structure(&chars("** heading")));
    assert!(!org_line_starts_structure(&chars("**bold**")));
    assert!(!org_line_starts_structure(&chars("plain text")));
}

#[test]
fn org_links_become_link_marked_text() {
    let nodes = parse_org_inline(&chars("see [[http://x][the docs]] now"));
    assert_eq!(nodes.len(), 3);
    assert_eq!(str_field(&nodes[1], "text"), Some("the docs"));
    let marks = items(&nodes[1], "marks");
    assert_eq!(str_field(&marks[0], "type"), Some("link"));
    assert_eq!(field(&marks[0], "attrs").and_then(|a| str_field(a, "href")), Some("http://x"));
}

#[test]
fn item_numbers_saturate() {
    assert_eq!(item_number(i64::MAX, 1), i64::MAX as u64);
    assert_eq!(item_number(-5, 2), 3);
    assert_eq!(item_number(7, 0), 7);
}

#[test]
fn heading_levels_are_clamped() {
    let h = |level: JsonValue| {
        object(vec![("type", string("heading")), ("attrs", object(vec![("level", level)]))])
    };
    assert_eq!(heading_level(&h(JsonValue::Number(JsonNumber::PosInt(9)))), 6);
    assert_eq!(heading_level(&h(JsonValue::Number(JsonNumber::NegInt(-3)))), 1);
    assert_eq!(heading_level(&h(JsonValue::Number(JsonNumber::PosInt(3)))), 3);
    assert_eq!(heading_level(&h(string("2"))), 1);
    assert_eq!(heading_level(&h(JsonValue::Number(JsonNumber::PosInt(u64::MAX)))), 6);
    assert_eq!(heading_level(&h(JsonValue::Number(JsonNumber::PosInt(0)))), 1);
}

#[test]
fn headings_beyond_i64_are_clamped_and_refused() {
    let huge = doc(vec![object(vec![
        ("type", string("heading")),
        ("attrs", object(vec![("level", JsonValue::Number(JsonNumber::PosInt(u64::MAX)))])),
        ("content", JsonValue::Array(vec![text_node("hi")])),
    ])]);
    let p = ProseMirror::new(SCHEME);
    assert!(p.prosemirror_to_markdown(&huge).unwrap().starts_with("###### hi"));
    assert!(p.prosemirror_to_org(&huge).unwrap().starts_with("****** hi"));
    assert!(matches!(
        validate_document(&huge),
        Err(ProseMirrorError::InvalidStructure(m)) if m == "Heading level must be between 1 and 6"
    ));
}

#[test]
fn list_orders_beyond_i64_saturate() {
    let item = object(vec![
        ("type", string("listItem")),
        ("content", JsonValue::Array(vec![paragraph(vec![text_node("a")])])),
    ]);
    let d = doc(vec![object(vec![
        ("type", string("orderedList")),
        ("attrs", object(vec![("order", JsonValue::Number(JsonNumber::PosInt(u64::MAX)))])),
        ("content", JsonValue::Array(vec![item])),
    ])]);
    let md = ProseMirror::new(SCHEME).prosemirror_to_markdown(&d).unwrap();
    assert!(md.starts_with("9223372036854775807. a"), "got: {md}");
    assert!(validate_document(&d).is_ok());
}

#[test]
fn every_source_block_opener_is_escaped() {
    assert!(org_line_starts_structure(&chars("#+BEGIN_SRCX")));
    assert!(org_line_starts_structure(&chars("#+begin_src\tpy")));
    let p = ProseMirror::new(SCHEME);
    let d = doc(vec![paragraph(vec![text_node("#+BEGIN_SRCX")])]);
    let org = p.prosemirror_to_org(&d).unwrap();
    assert_eq!(org, ",#+BEGIN_SRCX");
    let back = p.org_to_prosemirror(&org).unwrap();
    let para = &items(&back, "content")[0];
    assert_eq!(str_field(para, "type"), Some("paragraph"));
    assert_eq!(str_field(&items(para, "content")[0], "text"), Some("#+BEGIN_SRCX"));
}

#[test]
fn code_fences_outgrow_the_longest_backtick_run() {
    assert_eq!(backtick_delimiter(&chars("a ``` b"), 3), "````");
    assert_eq!(backtick_delimiter(&chars("plain"), 3), "```");
    assert_eq!(backtick_delimiter(&chars("`"), 1), "``");
}

#[test]
fn underscores_inside_words_stay_literal() {
    assert!(!should_escape_underscore(Some('é'), Some('x')));
    assert!(should_escape_underscore(Some(' '), Some('x')));
    assert!(!should_escape_underscore(Some('['), Some(' ')));
}

#[test]
fn attachment_links_need_a_uuid() {
    let p = ProseMirror::new(SCHEME);
    let not_uuid = p.markdown_to_prosemirror(&format!("[f]({SCHEME}not-a-uuid)")).unwrap();
    assert_eq!(str_field(&items(&not_uuid, "content")[0], "type"), Some("paragraph"));
    let uuid = p.markdown_to_prosemirror(&format!("[f]({SCHEME}{UUID})")).unwrap();
    assert_eq!(str_field(&items(&uuid, "content")[0], "type"), Some("attachment"));
}

#[test]
fn org_image_links_write_escaped_targets() {
    let image = object(vec![
        ("type", string("image")),
        ("attrs", object(vec![("src", string("http://x/[a]")), ("alt", string(""))])),
    ]);
    assert_eq!(prosemirror_to_org(&doc(vec![image]), SCHEME).unwrap(), "[[http://x/%5Ba%5D]]");
}

// ----- each error kind -----

#[test]
fn validation_reports_each_kind_of_problem() {
    let unsupported_node = doc(vec![object(vec![("type", string("sparkle"))])]);
    assert_eq!(
        validate_document(&unsupported_node),
        Err(ProseMirrorError::UnsupportedNode("sparkle".to_string()))
    );
    let marked = object(vec![
        ("type", string("text")),
        ("text", string("x")),
        ("marks", JsonValue::Array(vec![object(vec![("type", string("glow"))])])),
    ]);
    assert_eq!(
        validate_document(&doc(vec![paragraph(vec![marked])])),
        Err(ProseMirrorError::UnsupportedMark("glow".to_string()))
    );
    assert_eq!(
        validate_document(&paragraph(vec![])),
        Err(ProseMirrorError::InvalidStructure("Root must be doc".to_string()))
    );
}

#[test]
fn error_messages_name_their_kind() {
    assert_eq!(
        ProseMirrorError::InvalidStructure("x".to_string()).message(),
        "Invalid document structure: x"
    );
    assert_eq!(ProseMirrorError::UnsupportedNode("n".to_string()).message(), "Unsupported node type: n");
    assert_eq!(ProseMirrorError::UnsupportedMark("m".to_string()).message(), "Unsupported mark type: m");
    assert_eq!(ProseMirrorError::ParseError("p".to_string()).message(), "Parse error: p");
}

#[test]
fn empty_code_block_has_no_blank_line() {
    let p = ProseMirror::new(SCHEME);
    let d = doc(vec![object(vec![("type", string("codeBlock"))])]);
    assert_eq!(p.prosemirror_to_markdown(&d).unwrap(), "```\n```");
    let back = p.markdown_to_prosemirror("```\n```").unwrap();
    let block = &items(&back, "content")[0];
    assert_eq!(str_field(block, "type"), Some("codeBlock"));
    assert_eq!(p.prosemirror_to_markdown(&back).unwrap(), "```\n```");
}
