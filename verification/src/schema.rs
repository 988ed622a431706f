//! Structural validation of ProseMirror documents against the shared schema.

use vstd::prelude::*;
use crate::error::{depth_error, depth_exceeded, root_error, root_not_doc, ErrorSpec, ProseMirrorError};
use crate::json::{views, JsonSpec, JsonValue};
use crate::strs::{chars_of, is_blank, str_eq, trim};
use crate::MAX_DEPTH;

verus! {

/// The node types of the shared schema, in both `snake_case` (ProseMirror)
/// and `camelCase` (Tiptap) spelling.
pub open spec fn supported_node(t: Seq<char>) -> bool {
    ||| t == "doc"@
    ||| t == "paragraph"@
    ||| t == "text"@
    ||| t == "heading"@
    ||| t == "blockquote"@
    ||| t == "attachment"@
    ||| t == "image"@
    ||| t == "codeBlock"@
    ||| t == "code_block"@
    ||| t == "bulletList"@
    ||| t == "bullet_list"@
    ||| t == "orderedList"@
    ||| t == "ordered_list"@
    ||| t == "listItem"@
    ||| t == "list_item"@
    ||| t == "taskList"@
    ||| t == "task_list"@
    ||| t == "taskItem"@
    ||| t == "task_item"@
    ||| t == "horizontalRule"@
    ||| t == "horizontal_rule"@
    ||| t == "hardBreak"@
    ||| t == "hard_break"@
    ||| t == "table"@
    ||| t == "tableRow"@
    ||| t == "table_row"@
    ||| t == "tableCell"@
    ||| t == "table_cell"@
    ||| t == "tableHeader"@
    ||| t == "table_header"@
}

/// The mark types of the shared schema, in Tiptap and ProseMirror spelling.
pub open spec fn supported_mark(t: Seq<char>) -> bool {
    ||| t == "bold"@
    ||| t == "strong"@
    ||| t == "italic"@
    ||| t == "em"@
    ||| t == "code"@
    ||| t == "strike"@
    ||| t == "strikethrough"@
    ||| t == "underline"@
    ||| t == "link"@
}

fn is_supported_node(t: &str) -> (r: bool)
    ensures
        r == supported_node(t@),
{
    str_eq(t, "doc") || str_eq(t, "paragraph") || str_eq(t, "text") || str_eq(t, "heading")
        || str_eq(t, "blockquote") || str_eq(t, "attachment") || str_eq(t, "image") || str_eq(
        t,
        "codeBlock",
    ) || str_eq(t, "code_block") || str_eq(t, "bulletList") || str_eq(t, "bullet_list")
        || str_eq(t, "orderedList") || str_eq(t, "ordered_list") || str_eq(t, "listItem")
        || str_eq(t, "list_item") || str_eq(t, "taskList") || str_eq(t, "task_list") || str_eq(
        t,
        "taskItem",
    ) || str_eq(t, "task_item") || str_eq(t, "horizontalRule") || str_eq(t, "horizontal_rule")
        || str_eq(t, "hardBreak") || str_eq(t, "hard_break") || str_eq(t, "table") || str_eq(
        t,
        "tableRow",
    ) || str_eq(t, "table_row") || str_eq(t, "tableCell") || str_eq(t, "table_cell") || str_eq(
        t,
        "tableHeader",
    ) || str_eq(t, "table_header")
}

fn is_supported_mark(t: &str) -> (r: bool)
    ensures
        r == supported_mark(t@),
{
    str_eq(t, "bold") || str_eq(t, "strong") || str_eq(t, "italic") || str_eq(t, "em") || str_eq(
        t,
        "code",
    ) || str_eq(t, "strike") || str_eq(t, "strikethrough") || str_eq(t, "underline") || str_eq(
        t,
        "link",
    )
}

/// An `attrs` member, where present, is an object or null.
pub open spec fn attrs_shape_ok(v: JsonSpec) -> bool {
    match v.get("attrs"@) {
        Some(a) => a is Object || a is Null,
        None => true,
    }
}

/// A string attribute that is present and not blank.
pub open spec fn has_nonblank_attr(v: JsonSpec, key: Seq<char>) -> bool {
    match v.attr_str(key) {
        Some(s) => trim(s).len() > 0,
        None => false,
    }
}

pub open spec fn invalid(m: Seq<char>) -> Result<(), ErrorSpec> {
    Err(ErrorSpec::InvalidStructure(m))
}

/// The node-specific attribute rules for a node of type `t`.
pub open spec fn spec_validate_node_attrs(node: JsonSpec, t: Seq<char>) -> Result<(), ErrorSpec> {
    if !attrs_shape_ok(node) {
        invalid("Node attrs must be an object"@)
    } else if t == "text"@ && node.str_field("text"@) is None {
        invalid("Text node missing text"@)
    } else if t == "heading"@ && (node.attr_i64_saturating("level"@) matches Some(l) && !(1 <= l <= 6)) {
        invalid("Heading level must be between 1 and 6"@)
    } else if (t == "orderedList"@ || t == "ordered_list"@) && (node.attr_i64_saturating("order"@) matches Some(
        o,
    ) && o < 1) {
        invalid("Ordered list order must be positive"@)
    } else if (t == "taskItem"@ || t == "task_item"@) && (node.attr("checked"@) matches Some(c)
        && !(c is Bool)) {
        invalid("Task item checked attr must be a boolean"@)
    } else if t == "attachment"@ && !has_nonblank_attr(node, "attachmentId"@) {
        invalid("Attachment node missing attachmentId"@)
    } else {
        Ok(())
    }
}

/// The rules for one mark.
pub open spec fn spec_validate_mark(mark: JsonSpec) -> Result<(), ErrorSpec> {
    if !(mark is Object) {
        invalid("Mark must be an object"@)
    } else {
        match mark.node_type() {
            None => invalid("Mark missing type"@),
            Some(t) => if !supported_mark(t) {
                Err(ErrorSpec::UnsupportedMark(t))
            } else if !attrs_shape_ok(mark) {
                invalid("Mark attrs must be an object"@)
            } else if t == "link"@ && !has_nonblank_attr(mark, "href"@) {
                invalid("Link mark missing href"@)
            } else {
                Ok(())
            },
        }
    }
}

/// The first mark that breaks a rule decides.
pub open spec fn spec_validate_marks(marks: Seq<JsonSpec>) -> Result<(), ErrorSpec>
    decreases marks.len(),
{
    if marks.len() == 0 {
        Ok(())
    } else {
        match spec_validate_mark(marks[0]) {
            Err(e) => Err(e),
            Ok(()) => spec_validate_marks(marks.drop_first()),
        }
    }
}

/// The rules for a node at nesting level `depth` and everything below it, in
/// document order; the first rule broken decides.
pub open spec fn spec_validate_node(node: JsonSpec, depth: int) -> Result<(), ErrorSpec>
    decreases MAX_DEPTH - depth, 0int,
{
    if depth >= MAX_DEPTH || depth < 0 {
        Err(depth_error())
    } else if !(node is Object) {
        invalid("Node must be an object"@)
    } else {
        match node.node_type() {
            None => invalid("Node missing type"@),
            Some(t) => if !supported_node(t) {
                Err(ErrorSpec::UnsupportedNode(t))
            } else {
                match spec_validate_node_attrs(node, t) {
                    Err(e) => Err(e),
                    Ok(()) => {
                        let marks_ok = match node.get("marks"@) {
                            None => Ok(()),
                            Some(JsonSpec::Array(ms)) => spec_validate_marks(ms),
                            Some(_) => invalid("Node marks must be an array"@),
                        };
                        match marks_ok {
                            Err(e) => Err(e),
                            Ok(()) => match node.get("content"@) {
                                None => Ok(()),
                                Some(JsonSpec::Array(cs)) => spec_validate_children(cs, depth + 1),
                                Some(_) => invalid("Node content must be an array"@),
                            },
                        }
                    },
                }
            },
        }
    }
}

/// The children in order, each at nesting level `depth`.
pub open spec fn spec_validate_children(children: Seq<JsonSpec>, depth: int) -> Result<(), ErrorSpec>
    decreases MAX_DEPTH - depth, 1 + children.len(),
{
    if children.len() == 0 {
        Ok(())
    } else if depth > MAX_DEPTH || depth < 0 {
        Err(depth_error())
    } else {
        match spec_validate_node(children[0], depth) {
            Err(e) => Err(e),
            Ok(()) => spec_validate_children(children.drop_first(), depth),
        }
    }
}

/// What `validate_document` decides for a document.
pub open spec fn spec_validate_document(doc: JsonSpec) -> Result<(), ErrorSpec> {
    if doc.node_type() != Some("doc"@) {
        Err(root_error())
    } else {
        spec_validate_node(doc, 0)
    }
}

pub open spec fn result_view(r: Result<(), ProseMirrorError>) -> Result<(), ErrorSpec> {
    match r {
        Ok(()) => Ok(()),
        Err(e) => Err(e@),
    }
}

fn invalid_structure(m: &str) -> (e: ProseMirrorError)
    ensures
        e@ == ErrorSpec::InvalidStructure(m@),
{
    ProseMirrorError::InvalidStructure(m.to_owned())
}

fn nonblank_attr(v: &JsonValue, key: &str) -> (r: bool)
    ensures
        r == has_nonblank_attr(v@, key@),
{
    match v.attr_str(key) {
        Some(s) => {
            let cs = chars_of(s.as_str());
            !is_blank(cs.as_slice())
        },
        None => false,
    }
}

fn attrs_ok(v: &JsonValue) -> (r: bool)
    ensures
        r == attrs_shape_ok(v@),
{
    match v.get("attrs") {
        Some(a) => a.is_object() || a.is_null(),
        None => true,
    }
}

fn validate_node_attrs(node: &JsonValue, t: &str) -> (r: Result<(), ProseMirrorError>)
    ensures
        result_view(r) == spec_validate_node_attrs(node@, t@),
{
    if !attrs_ok(node) {
        return Err(invalid_structure("Node attrs must be an object"));
    }
    if str_eq(t, "text") && node.str_field("text").is_none() {
        return Err(invalid_structure("Text node missing text"));
    }
    if str_eq(t, "heading") {
        if let Some(level) = node.attr_i64_saturating("level") {
            if !(1 <= level && level <= 6) {
                return Err(invalid_structure("Heading level must be between 1 and 6"));
            }
        }
    }
    if str_eq(t, "orderedList") || str_eq(t, "ordered_list") {
        if let Some(order) = node.attr_i64_saturating("order") {
            if order < 1 {
                return Err(invalid_structure("Ordered list order must be positive"));
            }
        }
    }
    if str_eq(t, "taskItem") || str_eq(t, "task_item") {
        if let Some(checked) = node.attr("checked") {
            if !checked.is_boolean() {
                return Err(invalid_structure("Task item checked attr must be a boolean"));
            }
        }
    }
    if str_eq(t, "attachment") && !nonblank_attr(node, "attachmentId") {
        return Err(invalid_structure("Attachment node missing attachmentId"));
    }
    proof {
        reveal_strlit("text");
        reveal_strlit("heading");
        reveal_strlit("orderedList");
        reveal_strlit("ordered_list");
        reveal_strlit("taskItem");
        reveal_strlit("task_item");
        reveal_strlit("attachment");
    }
    Ok(())
}

fn validate_mark(mark: &JsonValue) -> (r: Result<(), ProseMirrorError>)
    ensures
        result_view(r) == spec_validate_mark(mark@),
{
    if !mark.is_object() {
        return Err(invalid_structure("Mark must be an object"));
    }
    let t = match mark.node_type() {
        Some(t) => t,
        None => return Err(invalid_structure("Mark missing type")),
    };
    if !is_supported_mark(t.as_str()) {
        return Err(ProseMirrorError::UnsupportedMark(t.clone()));
    }
    if !attrs_ok(mark) {
        return Err(invalid_structure("Mark attrs must be an object"));
    }
    if str_eq(t.as_str(), "link") && !nonblank_attr(mark, "href") {
        return Err(invalid_structure("Link mark missing href"));
    }
    Ok(())
}

#[verifier::loop_isolation(false)]
fn validate_node(node: &JsonValue, depth: usize) -> (r: Result<(), ProseMirrorError>)
    ensures
        result_view(r) == spec_validate_node(node@, depth as int),
    decreases MAX_DEPTH - depth, 0int,
{
    if depth >= MAX_DEPTH {
        return Err(depth_exceeded());
    }
    if !node.is_object() {
        return Err(invalid_structure("Node must be an object"));
    }
    let t = match node.node_type() {
        Some(t) => t,
        None => return Err(invalid_structure("Node missing type")),
    };
    if !is_supported_node(t.as_str()) {
        return Err(ProseMirrorError::UnsupportedNode(t.clone()));
    }
    let attrs = validate_node_attrs(node, t.as_str());
    if attrs.is_err() {
        return attrs;
    }
    if let Some(marks_value) = node.get("marks") {
        let marks = match marks_value.as_array() {
            Some(m) => m,
            None => return Err(invalid_structure("Node marks must be an array")),
        };
        let ghost ms = views(marks@);
        let mut i: usize = 0;
        assert(ms.skip(0) =~= ms);
        while i < marks.len()
            invariant
                i <= marks@.len(),
                ms == views(marks@),
                spec_validate_marks(ms) == spec_validate_marks(ms.skip(i as int)),
            decreases marks.len() - i,
        {
            let m = validate_mark(&marks[i]);
            assert(ms.skip(i as int)[0] == marks@[i as int]@);
            if m.is_err() {
                return m;
            }
            assert(ms.skip(i as int).drop_first() =~= ms.skip(i + 1));
            i += 1;
        }
        assert(ms.skip(i as int).len() == 0);
    }
    if let Some(content_value) = node.get("content") {
        let content = match content_value.as_array() {
            Some(c) => c,
            None => return Err(invalid_structure("Node content must be an array")),
        };
        let ghost cs = views(content@);
        let mut i: usize = 0;
        assert(cs.skip(0) =~= cs);
        while i < content.len()
            invariant
                i <= content@.len(),
                depth < MAX_DEPTH,
                cs == views(content@),
                spec_validate_children(cs, depth + 1) == spec_validate_children(cs.skip(i as int), depth + 1),
            decreases content.len() - i,
        {
            let c = validate_node(&content[i], depth + 1);
            assert(cs.skip(i as int)[0] == content@[i as int]@);
            if c.is_err() {
                return c;
            }
            assert(cs.skip(i as int).drop_first() =~= cs.skip(i + 1));
            i += 1;
        }
        assert(cs.skip(i as int).len() == 0);
    }
    Ok(())
}

/// Checks that a document uses only the nodes and marks of the shared schema
/// with well-shaped attributes, within `MAX_DEPTH` levels of nesting: its
/// root is a `doc`, attribute containers are objects, heading levels lie in
/// 1..=6, ordered-list orders are positive, task-item `checked` flags are
/// booleans, and attachments and links carry their ids and hrefs.
pub fn validate_document(doc: &JsonValue) -> (r: Result<(), ProseMirrorError>)
    ensures
        result_view(r) == spec_validate_document(doc@),
{
    if !doc.has_type("doc") {
        return Err(root_not_doc());
    }
    validate_node(doc, 0)
}


/// Whether a chain of `n` nested `content` arrays leads down from `v`.
pub open spec fn nests(v: JsonSpec, n: nat) -> bool
    decreases n,
{
    if n == 0 {
        true
    } else {
        match v.get("content"@) {
            Some(JsonSpec::Array(cs)) => exists|i: int| 0 <= i < cs.len() && nests(#[trigger] cs[i], (n - 1) as nat),
            _ => false,
        }
    }
}

proof fn lemma_validate_children_each(cs: Seq<JsonSpec>, depth: int, i: int)
    requires
        spec_validate_children(cs, depth) is Ok,
        0 <= i < cs.len(),
    ensures
        spec_validate_node(cs[i], depth) is Ok,
    decreases i,
{
    if i > 0 {
        assert(cs.drop_first()[i - 1] == cs[i]);
        lemma_validate_children_each(cs.drop_first(), depth, i - 1);
    }
}

proof fn lemma_validate_node_depth(node: JsonSpec, depth: int, n: nat)
    requires
        spec_validate_node(node, depth) is Ok,
        nests(node, n),
    ensures
        0 <= depth,
        depth + n < MAX_DEPTH,
    decreases n,
{
    if n > 0 {
        let cs = node.get("content"@)->Some_0->Array_0;
        let i = choose|i: int| 0 <= i < cs.len() && nests(#[trigger] cs[i], (n - 1) as nat);
        lemma_validate_children_each(cs, depth + 1, i);
        lemma_validate_node_depth(cs[i], depth + 1, (n - 1) as nat);
    }
}

/// A document that validates nests fewer than `MAX_DEPTH` levels of content
/// below its root: a deeper document is rejected with an error.
pub proof fn lemma_valid_documents_are_shallow(doc: JsonSpec, n: nat)
    requires
        spec_validate_document(doc) is Ok,
        nests(doc, n),
    ensures
        n < MAX_DEPTH,
{
    lemma_validate_node_depth(doc, 0, n);
}

} // verus!
