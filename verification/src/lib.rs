//! ProseMirror JSON documents, and their conversion to and from Markdown and
//! Org-mode text.
//!
//! Attachment references use a configurable URI scheme: create a
//! [`ProseMirror`] with the project's scheme, such as
//! `seren-bounty://attachment/`.

pub mod attachment;
pub mod error;
pub mod json;
pub mod lines;
pub mod md_blocks;
pub mod md_escape;
pub mod md_events;
pub mod md_inline;
pub mod md_model;
pub mod md_parse;
pub mod md_render;
pub mod md_source;
pub mod org_inline;
pub mod org_model;
pub mod org_parse;
pub mod org_render;
pub mod org_text;
pub mod schema;
pub mod strs;
pub mod text;

pub use error::ProseMirrorError;
pub use json::{JsonNumber, JsonValue};
pub use schema::validate_document;
pub use text::extract_plain_text;

use vstd::prelude::*;
use crate::json::JsonSpec;
use crate::schema::spec_validate_document;
use crate::md_events::markdown_events;
use crate::md_model::spec_events_to_document;
use crate::md_parse::{is_nonempty_doc, MARKDOWN_OPTIONS};
use crate::org_model::spec_org_to_prosemirror;

verus! {

/// How deep the converters and the validator descend into nested nodes.
pub const MAX_DEPTH: usize = 64;

/// A ProseMirror converter for one attachment URI scheme.
pub struct ProseMirror {
    attachment_uri_scheme: String,
}

impl ProseMirror {
    /// The attachment URI scheme, such as `seren-bounty://attachment/`.
    pub closed spec fn scheme(&self) -> Seq<char> {
        self.attachment_uri_scheme@
    }

    /// Creates a converter for the given attachment URI scheme; the scheme
    /// should end with its trailing slash.
    pub fn new(attachment_uri_scheme: &str) -> (r: Self)
        ensures
            r.scheme() == attachment_uri_scheme@,
    {
        ProseMirror { attachment_uri_scheme: attachment_uri_scheme.to_owned() }
    }

    /// Converts GitHub Flavored Markdown to a ProseMirror document: the
    /// document that the Markdown parser's events for `markdown` describe.
    /// It never fails.
    pub fn markdown_to_prosemirror(&self, markdown: &str) -> (r: Result<JsonValue, ProseMirrorError>)
        ensures
            r matches Ok(d) && d@ == spec_events_to_document(
                markdown@,
                markdown_events(markdown@, MARKDOWN_OPTIONS),
                self.scheme(),
            ) && is_nonempty_doc(d@),
    {
        Ok(md_parse::markdown_to_prosemirror(markdown, self.attachment_uri_scheme.as_str()))
    }

    /// Converts a document to GitHub Flavored Markdown. The root must be a
    /// `doc`; a document nested deeper than `MAX_DEPTH` is refused.
    ///
    /// Link `href` and image `src` values are escaped so they cannot break
    /// out of Markdown link syntax, but their URL scheme is passed through:
    /// `javascript:` and `data:` URLs are not removed, so the Markdown is not
    /// safe to render as trusted HTML without sanitizing URLs downstream.
    pub fn prosemirror_to_markdown(&self, doc: &JsonValue) -> (r: Result<String, ProseMirrorError>)
        ensures
            match md_render::spec_prosemirror_to_markdown(doc@, self.scheme()) {
                Ok(s) => r matches Ok(t) && t@ == s,
                Err(e) => r matches Err(f) && f@ == e,
            },
    {
        md_render::prosemirror_to_markdown(doc, self.attachment_uri_scheme.as_str())
    }

    /// Converts a document to Org-mode text, with the same root and depth
    /// rules as [`Self::prosemirror_to_markdown`]; link targets are escaped
    /// but their URL scheme is not filtered.
    pub fn prosemirror_to_org(&self, doc: &JsonValue) -> (r: Result<String, ProseMirrorError>)
        ensures
            match org_render::spec_prosemirror_to_org(doc@, self.scheme()) {
                Ok(s) => r matches Ok(t) && t@ == s,
                Err(e) => r matches Err(f) && f@ == e,
            },
    {
        org_render::prosemirror_to_org(doc, self.attachment_uri_scheme.as_str())
    }

    /// Converts Org-mode text to a ProseMirror document (basic support): the
    /// document that its lines describe. It never fails.
    pub fn org_to_prosemirror(&self, org: &str) -> (r: Result<JsonValue, ProseMirrorError>)
        ensures
            r matches Ok(d) && d@ == spec_org_to_prosemirror(org@, self.scheme()) && is_nonempty_doc(d@),
    {
        Ok(org_parse::org_to_prosemirror(org, self.attachment_uri_scheme.as_str()))
    }
}

/// The model of the empty document: a `doc` holding one empty paragraph.
pub open spec fn spec_empty_document() -> JsonSpec {
    JsonSpec::Object(
        seq![
            ("type"@, JsonSpec::Str("doc"@)),
            (
                "content"@,
                JsonSpec::Array(
                    seq![
                        JsonSpec::Object(
                            seq![
                                ("type"@, JsonSpec::Str("paragraph"@)),
                                ("content"@, JsonSpec::Array(Seq::empty())),
                            ],
                        ),
                    ],
                ),
            ),
        ],
    )
}

/// Creates an empty ProseMirror document: a `doc` holding one empty
/// paragraph.
pub fn empty_document() -> (r: JsonValue)
    ensures
        r@ == spec_empty_document(),
{
    let empty: Vec<JsonValue> = Vec::new();
    assert(json::views(empty@) =~= Seq::<JsonSpec>::empty());
    let mut para: Vec<(String, JsonValue)> = Vec::new();
    para.push(("type".to_owned(), JsonValue::from_str("paragraph")));
    para.push(("content".to_owned(), JsonValue::array(empty)));
    let p = JsonValue::object(para);
    assert(json::entry_views(para@) =~= seq![
        ("type"@, JsonSpec::Str("paragraph"@)),
        ("content"@, JsonSpec::Array(Seq::empty())),
    ]);
    let mut blocks: Vec<JsonValue> = Vec::new();
    blocks.push(p);
    assert(json::views(blocks@) =~= seq![p@]);
    let mut es: Vec<(String, JsonValue)> = Vec::new();
    es.push(("type".to_owned(), JsonValue::from_str("doc")));
    es.push(("content".to_owned(), JsonValue::array(blocks)));
    let r = JsonValue::object(es);
    assert(json::entry_views(es@) =~= seq![
        ("type"@, JsonSpec::Str("doc"@)),
        ("content"@, JsonSpec::Array(seq![p@])),
    ]);
    r
}

/// The empty document passes validation.
pub proof fn lemma_empty_document_validates()
    ensures
        spec_validate_document(spec_empty_document()) == Ok::<(), error::ErrorSpec>(()),
{
    reveal_strlit("type");
    reveal_strlit("content");
    reveal_strlit("doc");
    reveal_strlit("paragraph");
    reveal_strlit("attrs");
    reveal_strlit("marks");
    reveal_strlit("text");
    reveal_strlit("heading");
    reveal_strlit("attachment");
    reveal_strlit("orderedList");
    reveal_strlit("ordered_list");
    reveal_strlit("taskItem");
    reveal_strlit("task_item");
    let d = spec_empty_document();
    let des = d->Object_0;
    let para = des[1].1->Array_0[0];
    let pes = para->Object_0;
    assert(des.drop_first()[0] == des[1]);
    assert(pes.drop_first()[0] == pes[1]);
    assert(des.drop_first().drop_first().len() == 0);
    assert(pes.drop_first().drop_first().len() == 0);
    assert("type"@[1] != "attrs"@[1]);
    assert("content"@ != "attrs"@);
    assert("content"@[0] != "marks"@[0]);
    assert("type"@ != "marks"@);
    assert("type"@ != "content"@);
    assert(d.node_type() == Some("doc"@));
    assert(json::entries_get(des.drop_first().drop_first(), "attrs"@) is None);
    assert(json::entries_get(des.drop_first(), "attrs"@) is None);
    assert(json::entries_get(des.drop_first().drop_first(), "marks"@) is None);
    assert(json::entries_get(des.drop_first(), "marks"@) is None);
    assert(json::entries_get(pes.drop_first().drop_first(), "attrs"@) is None);
    assert(json::entries_get(pes.drop_first(), "attrs"@) is None);
    assert(json::entries_get(pes.drop_first().drop_first(), "marks"@) is None);
    assert(json::entries_get(pes.drop_first(), "marks"@) is None);
    assert(d.get("attrs"@) is None);
    assert(d.get("marks"@) is None);
    assert(json::entries_get(des.drop_first(), "content"@) == Some(des[1].1));
    assert(d.get("content"@) == Some(des[1].1));
    assert(para.node_type() == Some("paragraph"@));
    assert(para.get("attrs"@) is None);
    assert(para.get("marks"@) is None);
    assert(json::entries_get(pes.drop_first(), "content"@) == Some(pes[1].1));
    assert(para.get("content"@) == Some(JsonSpec::Array(Seq::empty())));
    assert(crate::schema::supported_node("doc"@));
    assert(crate::schema::supported_node("paragraph"@));
    assert(crate::schema::attrs_shape_ok(para));
    assert(crate::schema::attrs_shape_ok(d));
    assert("paragraph"@.len() == 9);
    assert("paragraph"@ != "text"@);
    assert("paragraph"@ != "heading"@);
    assert("paragraph"@ != "orderedList"@);
    assert("paragraph"@ != "ordered_list"@);
    assert("paragraph"@ != "taskItem"@);
    assert("paragraph"@ != "attachment"@);
    assert("paragraph"@[0] != "task_item"@[0]);
    assert("doc"@.len() == 3);
    assert("doc"@ != "text"@);
    assert("doc"@ != "heading"@);
    assert("doc"@ != "orderedList"@);
    assert("doc"@ != "attachment"@);
    assert("doc"@ != "ordered_list"@);
    assert("doc"@ != "taskItem"@);
    assert("doc"@ != "task_item"@);
    assert(crate::schema::spec_validate_node_attrs(para, "paragraph"@) == Ok::<(), error::ErrorSpec>(()));
    assert(crate::schema::spec_validate_node(para, 1) == Ok::<(), error::ErrorSpec>(()));
    assert(crate::schema::spec_validate_children(des[1].1->Array_0.drop_first(), 1) == Ok::<(), error::ErrorSpec>(()));
    assert(crate::schema::spec_validate_children(des[1].1->Array_0, 1) == Ok::<(), error::ErrorSpec>(()));
    assert(crate::schema::spec_validate_node_attrs(d, "doc"@) == Ok::<(), error::ErrorSpec>(()));
}

} // verus!
