//! Plain-text extraction for search indexing and previews.

use vstd::prelude::*;
use crate::json::{views, JsonSpec, JsonValue};
use crate::strs::{chars_of, is_blank, is_ws, lemma_trim_end_prefix, lemma_trim_start_suffix, str_eq, string_from_chars, trim, trim_chars, trim_start};
use crate::MAX_DEPTH;

verus! {

/// Node types whose text ends with a line break.
pub open spec fn is_text_block(t: Seq<char>) -> bool {
    ||| t == "paragraph"@
    ||| t == "heading"@
    ||| t == "blockquote"@
    ||| t == "codeBlock"@
    ||| t == "code_block"@
    ||| t == "listItem"@
    ||| t == "list_item"@
    ||| t == "taskItem"@
    ||| t == "task_item"@
    ||| t == "tableCell"@
    ||| t == "table_cell"@
    ||| t == "tableHeader"@
    ||| t == "table_header"@
}

fn text_block(t: &str) -> (r: bool)
    ensures
        r == is_text_block(t@),
{
    str_eq(t, "paragraph") || str_eq(t, "heading") || str_eq(t, "blockquote") || str_eq(
        t,
        "codeBlock",
    ) || str_eq(t, "code_block") || str_eq(t, "listItem") || str_eq(t, "list_item") || str_eq(
        t,
        "taskItem",
    ) || str_eq(t, "task_item") || str_eq(t, "tableCell") || str_eq(t, "table_cell") || str_eq(
        t,
        "tableHeader",
    ) || str_eq(t, "table_header")
}

/// A node's `content` array, or nothing.
pub open spec fn content_of(node: JsonSpec) -> Seq<JsonSpec> {
    match node.array_field("content"@) {
        Some(c) => c,
        None => Seq::empty(),
    }
}

/// The text of a node at nesting level `depth`: text nodes give their text,
/// text blocks their children's text and a line break, hard breaks a line
/// break, images their non-empty alt text and attachments their non-blank
/// filename, each on a line of its own; other nodes give their children's
/// text. Nothing at or below `MAX_DEPTH`.
pub open spec fn spec_node_text(node: JsonSpec, depth: int) -> Seq<char>
    decreases MAX_DEPTH - depth, 1int,
{
    if depth >= MAX_DEPTH || depth < 0 {
        Seq::empty()
    } else {
        match node.node_type() {
            None => spec_children_text(content_of(node), depth + 1),
            Some(t) => spec_typed_node_text(node, t, depth),
        }
    }
}

/// [`spec_node_text`] of a node of type `t`.
pub open spec fn spec_typed_node_text(node: JsonSpec, t: Seq<char>, depth: int) -> Seq<char>
    decreases MAX_DEPTH - depth, 0int,
{
    if depth >= MAX_DEPTH || depth < 0 {
        Seq::empty()
    } else {
        if t == "text"@ {
            match node.str_field("text"@) {
                Some(s) => s,
                None => Seq::empty(),
            }
        } else if is_text_block(t) {
            spec_children_text(content_of(node), depth + 1).push('\n')
        } else if t == "hardBreak"@ || t == "hard_break"@ {
            seq!['\n']
        } else if t == "image"@ {
            match node.attr_str("alt"@) {
                Some(alt) => if alt.len() > 0 {
                    alt.push('\n')
                } else {
                    Seq::empty()
                },
                None => Seq::empty(),
            }
        } else if t == "attachment"@ {
            match node.attr_str("filename"@) {
                Some(f) => if trim(f).len() > 0 {
                    f.push('\n')
                } else {
                    Seq::empty()
                },
                None => Seq::empty(),
            }
        } else {
            spec_children_text(content_of(node), depth + 1)
        }
    }
}

/// The text of the children in order, each at nesting level `depth`.
pub open spec fn spec_children_text(children: Seq<JsonSpec>, depth: int) -> Seq<char>
    decreases MAX_DEPTH - depth, 2 + children.len(),
{
    if children.len() == 0 || depth > MAX_DEPTH || depth < 0 {
        Seq::empty()
    } else {
        spec_children_text(children.drop_last(), depth) + spec_node_text(children.last(), depth)
    }
}

fn content_array(node: &JsonValue) -> (r: Option<&Vec<JsonValue>>)
    ensures
        match r {
            Some(c) => content_of(node@) == views(c@),
            None => content_of(node@) == Seq::<JsonSpec>::empty(),
        },
{
    node.array_field("content")
}

fn push_children_text(children: &Vec<JsonValue>, output: &mut String, depth: usize)
    requires
        depth <= MAX_DEPTH,
    ensures
        final(output)@ == old(output)@ + spec_children_text(views(children@), depth as int),
    decreases MAX_DEPTH - depth, 1 + children@.len(),
{
    let ghost cs = views(children@);
    let ghost start = output@;
    let mut i: usize = 0;
    assert(cs.take(0).len() == 0);
    assert(start + spec_children_text(cs.take(0), depth as int) =~= start);
    while i < children.len()
        invariant
            i <= children@.len(),
            depth <= MAX_DEPTH,
            cs == views(children@),
            output@ == start + spec_children_text(cs.take(i as int), depth as int),
        decreases children.len() - i,
    {
        extract_text_recursive(&children[i], output, depth);
        proof {
            assert(cs.take(i + 1).drop_last() =~= cs.take(i as int));
            assert(cs.take(i + 1).last() == children@[i as int]@);
        }
        i += 1;
        assert(output@ =~= start + spec_children_text(cs.take(i as int), depth as int));
    }
    assert(cs.take(i as int) =~= cs);
}

fn extract_text_recursive(node: &JsonValue, output: &mut String, depth: usize)
    requires
        depth <= MAX_DEPTH,
    ensures
        final(output)@ == old(output)@ + spec_node_text(node@, depth as int),
    decreases MAX_DEPTH - depth, 0int,
{
    if depth >= MAX_DEPTH {
        assert(old(output)@ + Seq::<char>::empty() =~= old(output)@);
        return;
    }
    let is_text = node.has_type("text");
    let is_block = match node.node_type() {
        Some(s) => text_block(s.as_str()),
        None => false,
    };
    let is_break = node.has_type("hardBreak") || node.has_type("hard_break");
    let is_image = node.has_type("image");
    let is_attachment = node.has_type("attachment");
    proof {
        reveal_strlit("text");
        reveal_strlit("hardBreak");
        reveal_strlit("hard_break");
        reveal_strlit("image");
        reveal_strlit("attachment");
    }
    if is_text {
        if let Some(text) = node.str_field("text") {
            output.append(text.as_str());
            assert(output@ =~= old(output)@ + spec_node_text(node@, depth as int));
        } else {
            assert(old(output)@ + Seq::<char>::empty() =~= old(output)@);
        }
    } else if is_block {
        match content_array(node) {
            Some(c) => push_children_text(c, output, depth + 1),
            None => {
                assert(spec_children_text(Seq::<JsonSpec>::empty(), depth + 1) =~= Seq::<char>::empty());
            },
        }
        output.push('\n');
        assert(output@ =~= old(output)@ + spec_node_text(node@, depth as int));
    } else if is_break {
        output.push('\n');
        assert(output@ =~= old(output)@ + spec_node_text(node@, depth as int));
    } else if is_image {
        match node.attr_str("alt") {
            Some(alt) => {
                let cs = chars_of(alt.as_str());
                if cs.len() > 0 {
                    output.append(alt.as_str());
                    output.push('\n');
                    assert(output@ =~= old(output)@ + spec_node_text(node@, depth as int));
                } else {
                    assert(old(output)@ + Seq::<char>::empty() =~= old(output)@);
                }
            },
            None => {
                assert(old(output)@ + Seq::<char>::empty() =~= old(output)@);
            },
        }
    } else if is_attachment {
        match node.attr_str("filename") {
            Some(f) => {
                let cs = chars_of(f.as_str());
                if !is_blank(cs.as_slice()) {
                    output.append(f.as_str());
                    output.push('\n');
                    assert(output@ =~= old(output)@ + spec_node_text(node@, depth as int));
                } else {
                    assert(old(output)@ + Seq::<char>::empty() =~= old(output)@);
                }
            },
            None => {
                assert(old(output)@ + Seq::<char>::empty() =~= old(output)@);
            },
        }
    } else {
        match content_array(node) {
            Some(c) => {
                push_children_text(c, output, depth + 1);
                assert(output@ =~= old(output)@ + spec_node_text(node@, depth as int));
            },
            None => {
                assert(old(output)@ + spec_children_text(Seq::<JsonSpec>::empty(), depth + 1) =~= old(output)@);
            },
        }
    }
}

/// The text of a document for search indexing: [`spec_node_text`] of the
/// document, trimmed.
pub fn extract_plain_text(doc: &JsonValue) -> (r: String)
    ensures
        r@ == trim(spec_node_text(doc@, 0)),
        r@.len() > 0 ==> !is_ws(r@[0]) && !is_ws(r@.last()),
{
    let mut text = String::new();
    extract_text_recursive(doc, &mut text, 0);
    assert(text@ =~= spec_node_text(doc@, 0));
    let cs = chars_of(text.as_str());
    let trimmed = trim_chars(cs.as_slice());
    proof {
        lemma_trimmed_ends(cs@);
    }
    string_from_chars(trimmed.as_slice())
}

/// Trimmed text neither starts nor ends with whitespace.
pub proof fn lemma_trimmed_ends(s: Seq<char>)
    ensures
        trim(s).len() > 0 ==> !is_ws(trim(s)[0]) && !is_ws(trim(s).last()),
{
    let t = trim_start(s);
    lemma_trim_start_suffix(s);
    lemma_trim_end_prefix(t);
    if trim(s).len() > 0 {
        assert(trim(s)[0] == t[0]);
    }
}


/// A heading's text is a line of its own, as a paragraph's is: a heading and
/// a paragraph with the same content have the same plain text, which ends in
/// a line break; so the text of a heading followed by a paragraph is the
/// heading's inline text, a line break, the paragraph's, and a line break.
pub proof fn lemma_heading_text_is_a_line(h: JsonSpec, p: JsonSpec, depth: int)
    requires
        h.node_type() == Some("heading"@),
        p.node_type() == Some("paragraph"@),
        content_of(h) == content_of(p),
        0 <= depth < MAX_DEPTH,
    ensures
        spec_node_text(h, depth) == spec_node_text(p, depth),
        spec_node_text(h, depth) == spec_children_text(content_of(h), depth + 1).push('\n'),
        spec_children_text(seq![h, p], depth) == spec_children_text(content_of(h), depth + 1) + seq!['\n']
            + spec_children_text(content_of(p), depth + 1) + seq!['\n'],
{
    reveal_strlit("heading");
    reveal_strlit("paragraph");
    reveal_strlit("text");
    assert("heading"@ != "text"@ && "paragraph"@ != "text"@) by {
        assert("heading"@.len() == 7 && "paragraph"@.len() == 9 && "text"@.len() == 4);
    }
    assert(is_text_block("heading"@) && is_text_block("paragraph"@));
    assert(spec_node_text(h, depth) == spec_typed_node_text(h, "heading"@, depth));
    assert(spec_node_text(p, depth) == spec_typed_node_text(p, "paragraph"@, depth));
    let hp = seq![h, p];
    assert(hp.drop_last() =~= seq![h]);
    assert(seq![h].drop_last() =~= Seq::<JsonSpec>::empty());
    assert(spec_children_text(seq![h], depth) == spec_node_text(h, depth)) by {
        assert(spec_children_text(Seq::<JsonSpec>::empty(), depth) == Seq::<char>::empty());
        assert(Seq::<char>::empty() + spec_node_text(h, depth) =~= spec_node_text(h, depth));
    }
    let a = spec_children_text(content_of(h), depth + 1);
    let b = spec_children_text(content_of(p), depth + 1);
    assert(a.push('\n') + b.push('\n') =~= a + seq!['\n'] + b + seq!['\n']);
}


/// Block nodes end their text with a line break: a paragraph, heading, block
/// quote, code block, list or task item, or table cell (in either spelling)
/// gives its children's text followed by a line break.
pub proof fn lemma_block_text_is_a_line(node: JsonSpec, t: Seq<char>, depth: int)
    requires
        node.node_type() == Some(t),
        0 <= depth < MAX_DEPTH,
        t == "paragraph"@ || t == "heading"@ || t == "blockquote"@ || t == "codeBlock"@ || t == "code_block"@
            || t == "listItem"@ || t == "list_item"@ || t == "taskItem"@ || t == "task_item"@ || t
            == "tableCell"@ || t == "table_cell"@ || t == "tableHeader"@ || t == "table_header"@,
    ensures
        spec_node_text(node, depth) == spec_children_text(content_of(node), depth + 1).push('\n'),
{
    reveal_strlit("text");
    assert(t != "text"@) by {
        reveal_strlit("paragraph");
        reveal_strlit("heading");
        reveal_strlit("blockquote");
        reveal_strlit("codeBlock");
        reveal_strlit("code_block");
        reveal_strlit("listItem");
        reveal_strlit("list_item");
        reveal_strlit("taskItem");
        reveal_strlit("task_item");
        reveal_strlit("tableCell");
        reveal_strlit("table_cell");
        reveal_strlit("tableHeader");
        reveal_strlit("table_header");
        assert("text"@.len() == 4);
    }
    assert(spec_node_text(node, depth) == spec_typed_node_text(node, t, depth));
}

} // verus!
