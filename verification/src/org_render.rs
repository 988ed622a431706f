//! ProseMirror JSON to Org-mode text.

use vstd::prelude::*;
use crate::error::{depth_error, depth_exceeded, rendered, root_error, root_not_doc, ErrorSpec, ProseMirrorError};
use crate::json::{JsonSpec, JsonValue};
use crate::md_inline::{concat_scheme, push_repeated, push_str_chars, push_two};
use crate::md_render::{heading_level, item_number, one_line, pipe_escaped, push_one_line, push_pipe_escaped, spec_heading_level, spec_item_number};
use crate::org_text::{escaped_description, escaped_paragraph_text, escaped_source_text, escaped_target, org_escape_description, org_escape_target, push_org_paragraph_text, push_org_source_text};
use crate::strs::{chars_of, decimal, push_decimal, string_from_chars, trim_end, trim_end_index};
use crate::MAX_DEPTH;

verus! {

// ----- inline content -----

/// The image link Org writes for an image node: `[[target][alt]]`, or
/// `[[target]]` for a plain image without alt text; none where the node
/// has neither an attachment id nor a source.
pub open spec fn org_image(node: JsonSpec, scheme: Seq<char>) -> Option<Seq<char>> {
    let alt = match node.attr_str("alt"@) {
        Some(a) => a,
        None => Seq::empty(),
    };
    match node.attr_str("attachmentId"@) {
        Some(id) => Some(seq!['[', '['] + escaped_target(scheme + id) + seq![']', '['] + escaped_description(alt) + seq![']', ']']),
        None => match node.attr_str("src"@) {
            Some(src) => if alt.len() == 0 {
                Some(seq!['[', '['] + escaped_target(src) + seq![']', ']'])
            } else {
                Some(seq!['[', '['] + escaped_target(src) + seq![']', '['] + escaped_description(alt) + seq![']', ']'])
            },
            None => None,
        },
    }
}

/// Writes an image node as an Org link; whether it had a target.
pub fn render_image_to_org(node: &JsonValue, output: &mut String, scheme: &str) -> (r: bool)
    ensures
        r == org_image(node@, scheme@) is Some,
        final(output)@ == old(output)@ + match org_image(node@, scheme@) {
            Some(s) => s,
            None => Seq::empty(),
        },
{
    let alt = match node.attr_str("alt") {
        Some(a) => a.clone(),
        None => String::new(),
    };
    if let Some(id) = node.attr_str("attachmentId") {
        let target = string_from_chars(concat_scheme(scheme, id.as_str()).as_slice());
        push_two(output, '[', '[');
        output.append(org_escape_target(target.as_str()).as_str());
        push_two(output, ']', '[');
        output.append(org_escape_description(alt.as_str()).as_str());
        push_two(output, ']', ']');
        true
    } else if let Some(src) = node.attr_str("src") {
        push_two(output, '[', '[');
        output.append(org_escape_target(src.as_str()).as_str());
        if chars_of(alt.as_str()).len() == 0 {
            push_two(output, ']', ']');
        } else {
            push_two(output, ']', '[');
            output.append(org_escape_description(alt.as_str()).as_str());
            push_two(output, ']', ']');
        }
        true
    } else {
        false
    }
}

/// The emphasis delimiter Org writes for a mark.
pub open spec fn mark_delim(m: JsonSpec) -> Seq<char> {
    let t = m.node_type();
    if t == Some("bold"@) || t == Some("strong"@) {
        seq!['*']
    } else if t == Some("italic"@) || t == Some("em"@) {
        seq!['/']
    } else if t == Some("code"@) {
        seq!['~']
    } else if t == Some("strike"@) || t == Some("strikethrough"@) {
        seq!['+']
    } else if t == Some("underline"@) {
        seq!['_']
    } else {
        Seq::empty()
    }
}

/// The delimiters that open a text's marks, in mark order.
pub open spec fn org_mark_prefix(marks: Seq<JsonSpec>) -> Seq<char>
    decreases marks.len(),
{
    if marks.len() == 0 {
        Seq::empty()
    } else {
        org_mark_prefix(marks.drop_last()) + mark_delim(marks.last())
    }
}

/// The delimiters that close a text's marks, in reverse mark order.
pub open spec fn org_mark_suffix(marks: Seq<JsonSpec>) -> Seq<char>
    decreases marks.len(),
{
    if marks.len() == 0 {
        Seq::empty()
    } else {
        mark_delim(marks.last()) + org_mark_suffix(marks.drop_last())
    }
}

/// Whether a link is among the marks.
pub open spec fn has_link_mark(marks: Seq<JsonSpec>) -> bool {
    exists|i: int| 0 <= i < marks.len() && #[trigger] marks[i].node_type() == Some("link"@)
}

/// The `href` of the last link mark that has one, or the empty string.
pub open spec fn link_mark_href(marks: Seq<JsonSpec>) -> Seq<char>
    decreases marks.len(),
{
    if marks.len() == 0 {
        Seq::empty()
    } else if marks.last().node_type() == Some("link"@) && marks.last().attr_str("href"@) is Some {
        marks.last().attr_str("href"@).unwrap()
    } else {
        link_mark_href(marks.drop_last())
    }
}

/// The Org text of one inline node: a line break, an image link, or marked
/// text, written as a link whose description carries the emphasis where a
/// link mark is present. Other nodes write nothing.
pub open spec fn org_inline_node(node: JsonSpec, scheme: Seq<char>) -> Seq<char> {
    let t = node.node_type();
    if t == Some("hardBreak"@) || t == Some("hard_break"@) {
        seq!['\n']
    } else if t == Some("image"@) {
        match org_image(node, scheme) {
            Some(s) => s,
            None => Seq::empty(),
        }
    } else if t != Some("text"@) {
        Seq::empty()
    } else {
        let text = match node.str_field("text"@) {
            Some(s) => s,
            None => Seq::empty(),
        };
        let marks = match node.array_field("marks"@) {
            Some(m) => m,
            None => Seq::empty(),
        };
        let pre = org_mark_prefix(marks);
        let suf = org_mark_suffix(marks);
        if has_link_mark(marks) {
            seq!['[', '['] + escaped_target(link_mark_href(marks)) + seq![']', '['] + pre
                + escaped_description(text) + suf + seq![']', ']']
        } else {
            pre + text + suf
        }
    }
}

/// The Org text of a run of inline nodes.
pub open spec fn org_inline_nodes(nodes: Seq<JsonSpec>, scheme: Seq<char>) -> Seq<char>
    decreases nodes.len(),
{
    if nodes.len() == 0 {
        Seq::empty()
    } else {
        org_inline_nodes(nodes.drop_last(), scheme) + org_inline_node(nodes.last(), scheme)
    }
}

fn mark_delim_char(m: &JsonValue) -> (r: Option<char>)
    ensures
        mark_delim(m@) == match r {
            Some(c) => seq![c],
            None => Seq::empty(),
        },
{
    if m.has_type("bold") || m.has_type("strong") {
        Some('*')
    } else if m.has_type("italic") || m.has_type("em") {
        Some('/')
    } else if m.has_type("code") {
        Some('~')
    } else if m.has_type("strike") || m.has_type("strikethrough") {
        Some('+')
    } else if m.has_type("underline") {
        Some('_')
    } else {
        None
    }
}

/// Writes one inline node as Org text.
pub fn text_node_to_org(node: &JsonValue, output: &mut String, scheme: &str)
    ensures
        final(output)@ == old(output)@ + org_inline_node(node@, scheme@),
{
    if node.has_type("hardBreak") || node.has_type("hard_break") {
        output.push('\n');
        return;
    }
    if node.has_type("image") {
        render_image_to_org(node, output, scheme);
        return;
    }
    if !node.has_type("text") {
        return;
    }
    let text = match node.str_field("text") {
        Some(s) => s.clone(),
        None => String::new(),
    };
    let empty: Vec<JsonValue> = Vec::new();
    let marks = match node.array_field("marks") {
        Some(m) => m,
        None => &empty,
    };
    let ghost ms = crate::json::views(marks@);
    let mut prefix: Vec<char> = Vec::new();
    let mut suffix: Vec<char> = Vec::new();
    let mut is_link = false;
    let mut link_href = String::new();
    let mut i: usize = 0;
    assert(ms.take(0) =~= Seq::<JsonSpec>::empty());
    while i < marks.len()
        invariant
            i <= marks@.len() == ms.len(),
            ms == crate::json::views(marks@),
            prefix@ == org_mark_prefix(ms.take(i as int)),
            suffix@ == org_mark_suffix(ms.take(i as int)),
            is_link == has_link_mark(ms.take(i as int)),
            link_href@ == link_mark_href(ms.take(i as int)),
        decreases marks.len() - i,
    {
        let m = &marks[i];
        let ghost tk = ms.take(i + 1);
        assert(tk.drop_last() =~= ms.take(i as int));
        assert(tk.last() == m@);
        match mark_delim_char(m) {
            Some(c) => {
                prefix.push(c);
                suffix.insert(0, c);
            },
            None => {},
        }
        assert(prefix@ =~= org_mark_prefix(tk));
        assert(suffix@ =~= org_mark_suffix(tk));
        let m_link = m.has_type("link");
        if m_link {
            is_link = true;
            assert(tk[i as int].node_type() == Some("link"@));
            if let Some(h) = m.attr_str("href") {
                link_href = h.clone();
            }
        } else {
            assert forall|j: int| 0 <= j < tk.len() && #[trigger] tk[j].node_type() == Some("link"@) implies 0 <= j < i && ms.take(i as int)[j].node_type() == Some("link"@) by {
                assert(tk[j] == ms.take(i as int)[j] || j == i);
            }
        }
        if is_link {
            assert(has_link_mark(tk)) by {
                if !m_link {
                    let j = choose|j: int| 0 <= j < i && #[trigger] ms.take(i as int)[j].node_type() == Some("link"@);
                    assert(tk[j] == ms.take(i as int)[j]);
                }
            }
        }
        i += 1;
    }
    assert(ms.take(i as int) =~= ms);
    if is_link {
        push_two(output, '[', '[');
        output.append(org_escape_target(link_href.as_str()).as_str());
        push_two(output, ']', '[');
        push_str_chars(output, prefix.as_slice());
        output.append(org_escape_description(text.as_str()).as_str());
        push_str_chars(output, suffix.as_slice());
        push_two(output, ']', ']');
    } else {
        push_str_chars(output, prefix.as_slice());
        output.append(text.as_str());
        push_str_chars(output, suffix.as_slice());
    }
}

/// Writes the inline nodes of a node's `content`.
pub fn inline_content_to_org(node: &JsonValue, output: &mut String, scheme: &str)
    ensures
        final(output)@ == old(output)@ + match node@.array_field("content"@) {
            Some(c) => org_inline_nodes(c, scheme@),
            None => Seq::empty(),
        },
{
    if let Some(content) = node.array_field("content") {
        let ghost cs = crate::json::views(content@);
        let ghost start = output@;
        let mut i: usize = 0;
        assert(cs.take(0) =~= Seq::<JsonSpec>::empty());
        while i < content.len()
            invariant
                i <= content@.len() == cs.len(),
                cs == crate::json::views(content@),
                output@ == start + org_inline_nodes(cs.take(i as int), scheme@),
            decreases content.len() - i,
        {
            text_node_to_org(&content[i], output, scheme);
            assert(cs.take(i + 1).drop_last() =~= cs.take(i as int));
            i += 1;
            assert(output@ =~= start + org_inline_nodes(cs.take(i as int), scheme@));
        }
        assert(cs.take(i as int) =~= cs);
    }
}

// ----- tables -----

/// Inline node types that a table cell writes directly.
pub open spec fn is_cell_inline(node: JsonSpec) -> bool {
    let t = node.node_type();
    t == Some("text"@) || t == Some("image"@) || t == Some("hardBreak"@) || t == Some("hard_break"@)
}

/// The Org text of a table cell: its inline nodes, and those of the blocks
/// inside it, descending at most `MAX_DEPTH` levels.
pub open spec fn org_cell(cell: JsonSpec, scheme: Seq<char>, depth: int) -> Seq<char>
    decreases MAX_DEPTH - depth, 1int, 0int,
{
    if depth >= MAX_DEPTH {
        Seq::empty()
    } else {
        match cell.array_field("content"@) {
            Some(c) => org_cell_children(c, scheme, depth),
            None => Seq::empty(),
        }
    }
}

pub open spec fn org_cell_children(children: Seq<JsonSpec>, scheme: Seq<char>, depth: int) -> Seq<char>
    decreases MAX_DEPTH - depth, 0int, children.len(),
{
    if depth >= MAX_DEPTH || children.len() == 0 {
        Seq::empty()
    } else {
        org_cell_children(children.drop_last(), scheme, depth) + if is_cell_inline(children.last()) {
            org_inline_node(children.last(), scheme)
        } else {
            org_cell(children.last(), scheme, depth + 1)
        }
    }
}

/// Writes the text of a table cell, descending through block wrappers such
/// as `tableCell > paragraph > text` to the inline nodes.
pub fn org_cell_text(cell: &JsonValue, output: &mut String, scheme: &str, depth: usize)
    ensures
        final(output)@ == old(output)@ + org_cell(cell@, scheme@, depth as int),
    decreases MAX_DEPTH - depth,
{
    if depth >= MAX_DEPTH {
        return;
    }
    if let Some(content) = cell.array_field("content") {
        let ghost cs = crate::json::views(content@);
        let ghost start = output@;
        let mut i: usize = 0;
        assert(cs.take(0) =~= Seq::<JsonSpec>::empty());
        while i < content.len()
            invariant
                depth < MAX_DEPTH,
                i <= content@.len() == cs.len(),
                cs == crate::json::views(content@),
                output@ == start + org_cell_children(cs.take(i as int), scheme@, depth as int),
            decreases content.len() - i,
        {
            let child = &content[i];
            if child.has_type("text") || child.has_type("image") || child.has_type("hardBreak")
                || child.has_type("hard_break") {
                text_node_to_org(child, output, scheme);
            } else {
                org_cell_text(child, output, scheme, depth + 1);
            }
            assert(cs.take(i + 1).drop_last() =~= cs.take(i as int));
            assert(cs.take(i + 1).last() == child@);
            i += 1;
            assert(output@ =~= start + org_cell_children(cs.take(i as int), scheme@, depth as int));
        }
        assert(cs.take(i as int) =~= cs);
    }
}

/// The cells of a table row: ` text |` each.
pub open spec fn org_row_cells(cells: Seq<JsonSpec>, scheme: Seq<char>) -> Seq<char>
    decreases cells.len(),
{
    if cells.len() == 0 {
        Seq::empty()
    } else {
        org_row_cells(cells.drop_last(), scheme) + seq![' '] + pipe_escaped(org_cell(cells.last(), scheme, 0))
            + seq![' ', '|']
    }
}

/// `---` for each of `n` columns, joined by `+`.
pub open spec fn rule_dashes(n: nat) -> Seq<char>
    decreases n,
{
    if n <= 1 {
        if n == 1 {
            seq!['-', '-', '-']
        } else {
            Seq::empty()
        }
    } else {
        rule_dashes((n - 1) as nat) + seq!['+', '-', '-', '-']
    }
}

/// The rule line under a header row of `n` cells.
pub open spec fn org_rule(n: nat) -> Seq<char> {
    if n == 0 {
        seq!['|', '\n']
    } else {
        seq!['|'] + rule_dashes(n) + seq!['|', '\n']
    }
}

/// The Org text of a table row; the first row is followed by a rule line.
pub open spec fn org_table_row(row: JsonSpec, is_first_row: bool, scheme: Seq<char>) -> Seq<char> {
    match row.array_field("content"@) {
        Some(cells) => seq!['|'] + org_row_cells(cells, scheme) + seq!['\n'] + if is_first_row {
            org_rule(cells.len())
        } else {
            Seq::empty()
        },
        None => Seq::empty(),
    }
}

/// Writes a table row, `| a | b |`, with `|` in cell text escaped; a rule
/// line follows the first row.
pub fn org_table_row_to_org(row: &JsonValue, output: &mut String, is_first_row: bool, scheme: &str)
    ensures
        final(output)@ == old(output)@ + org_table_row(row@, is_first_row, scheme@),
{
    if let Some(cells) = row.array_field("content") {
        let ghost cs = crate::json::views(cells@);
        let ghost start = output@;
        output.push('|');
        let mut i: usize = 0;
        assert(cs.take(0) =~= Seq::<JsonSpec>::empty());
        assert(output@ =~= start + seq!['|'] + org_row_cells(cs.take(0), scheme@));
        while i < cells.len()
            invariant
                i <= cells@.len() == cs.len(),
                cs == crate::json::views(cells@),
                output@ == start + seq!['|'] + org_row_cells(cs.take(i as int), scheme@),
            decreases cells.len() - i,
        {
            output.push(' ');
            let mut rendered = String::new();
            org_cell_text(&cells[i], &mut rendered, scheme, 0);
            push_pipe_escaped(output, rendered.as_str());
            output.push(' ');
            output.push('|');
            assert(cs.take(i + 1).drop_last() =~= cs.take(i as int));
            assert(cs.take(i + 1).last() == cells@[i as int]@);
            i += 1;
            assert(output@ =~= start + seq!['|'] + org_row_cells(cs.take(i as int), scheme@));
        }
        assert(cs.take(i as int) =~= cs);
        output.push('\n');
        if is_first_row {
            let ghost mid = output@;
            output.push('|');
            let n = cells.len();
            if n > 0 {
                output.push('-');
                output.push('-');
                output.push('-');
                let mut k: usize = 1;
                assert(output@ =~= mid + seq!['|'] + rule_dashes(1));
                while k < n
                    invariant
                        1 <= k <= n,
                        output@ == mid + seq!['|'] + rule_dashes(k as nat),
                    decreases n - k,
                {
                    output.push('+');
                    output.push('-');
                    output.push('-');
                    output.push('-');
                    k += 1;
                    assert(output@ =~= mid + seq!['|'] + rule_dashes(k as nat));
                }
                output.push('|');
                output.push('\n');
                assert(output@ =~= mid + org_rule(n as nat));
            } else {
                output.push('\n');
                assert(output@ =~= mid + org_rule(0));
            }
            assert(output@ =~= start + org_table_row(row@, is_first_row, scheme@));
        } else {
            assert(output@ =~= start + org_table_row(row@, is_first_row, scheme@));
        }
    }
}

// ----- blocks -----

/// Two spaces for each level of list nesting.
pub open spec fn org_indent(indent: nat) -> Seq<char> {
    Seq::new(2 * indent, |i: int| ' ')
}

/// The Org text of a node's inline `content`.
pub open spec fn node_inline(node: JsonSpec, scheme: Seq<char>) -> Seq<char> {
    match node.array_field("content"@) {
        Some(c) => org_inline_nodes(c, scheme),
        None => Seq::empty(),
    }
}

/// `s` up to its first line break.
pub open spec fn before_break(s: Seq<char>) -> Seq<char>
    decreases s.len(),
{
    if s.len() == 0 || s[0] == '\n' || s[0] == '\r' {
        Seq::empty()
    } else {
        seq![s[0]] + before_break(s.drop_first())
    }
}

/// A code block's language: its `language` attribute, or `params` where
/// there is no `language`, up to the first line break.
pub open spec fn org_code_language(node: JsonSpec) -> Seq<char> {
    let v = match node.get("attrs"@) {
        Some(a) => match a.get("language"@) {
            Some(l) => Some(l),
            None => a.get("params"@),
        },
        None => None,
    };
    match v {
        Some(l) => match l.as_str() {
            Some(s) => before_break(s),
            None => Seq::empty(),
        },
        None => Seq::empty(),
    }
}

/// The body of a source block: the text of each child, escaped.
pub open spec fn org_code_body(children: Seq<JsonSpec>) -> Seq<char>
    decreases children.len(),
{
    if children.len() == 0 {
        Seq::empty()
    } else {
        org_code_body(children.drop_last()) + match children.last().str_field("text"@) {
            Some(t) => escaped_source_text(t),
            None => Seq::empty(),
        }
    }
}

/// A source block: the body ends with a line break before the end marker.
pub open spec fn org_code_block(node: JsonSpec) -> Seq<char> {
    let body = match node.array_field("content"@) {
        Some(c) => org_code_body(c),
        None => Seq::empty(),
    };
    "#+BEGIN_SRC "@ + org_code_language(node) + seq!['\n'] + body + (if body.len() > 0 && body.last()
        != '\n' {
        seq!['\n']
    } else {
        Seq::empty()
    }) + "#+END_SRC\n"@
}

/// The three list styles and what starts each item.
pub enum OrgListStyle {
    Bullet,
    Ordered(i64),
    Task,
}

pub open spec fn org_item_marker(style: OrgListStyle, item: JsonSpec, index: int) -> Seq<char> {
    match style {
        OrgListStyle::Bullet => seq!['-', ' '],
        OrgListStyle::Ordered(start) => decimal(spec_item_number(start, index) as nat) + seq!['.', ' '],
        OrgListStyle::Task => if item.attr_bool("checked"@) == Some(true) {
            "- [X] "@
        } else {
            "- [ ] "@
        },
    }
}

/// The Org text of a block node at list nesting `indent` and nesting level
/// `depth`; none where some node lies `MAX_DEPTH` levels deep.
pub open spec fn org_node(node: JsonSpec, indent: nat, depth: int, scheme: Seq<char>) -> Option<Seq<char>>
    decreases MAX_DEPTH - depth, 3int, 0int,
{
    if depth >= MAX_DEPTH {
        None
    } else {
        let t = node.node_type();
        if t == Some("paragraph"@) {
            Some(escaped_paragraph_text(node_inline(node, scheme)) + seq!['\n'])
        } else if t == Some("attachment"@) {
            let filename = match node.attr_str("filename"@) {
                Some(f) => f,
                None => "attachment"@,
            };
            match node.attr_str("attachmentId"@) {
                Some(id) => Some(org_indent(indent) + seq!['[', '['] + escaped_target(scheme + id) + seq![']', '[']
                    + escaped_description(filename) + seq![']', ']', '\n']),
                None => Some(Seq::empty()),
            }
        } else if t == Some("heading"@) {
            Some(Seq::new(spec_heading_level(node) as nat, |i: int| '*') + seq![' '] + one_line(
                node_inline(node, scheme),
            ) + seq!['\n'])
        } else if t == Some("blockquote"@) {
            match node.array_field("content"@) {
                Some(c) => match org_nodes(c, 0, depth + 1, scheme) {
                    Some(x) => Some("#+BEGIN_QUOTE\n"@ + x + "#+END_QUOTE\n"@),
                    None => None,
                },
                None => Some("#+BEGIN_QUOTE\n"@ + "#+END_QUOTE\n"@),
            }
        } else if t == Some("codeBlock"@) || t == Some("code_block"@) {
            Some(org_code_block(node))
        } else if t == Some("bulletList"@) || t == Some("bullet_list"@) || t == Some("orderedList"@)
            || t == Some("ordered_list"@) || t == Some("taskList"@) || t == Some("task_list"@) {
            let style = if t == Some("bulletList"@) || t == Some("bullet_list"@) {
                OrgListStyle::Bullet
            } else if t == Some("orderedList"@) || t == Some("ordered_list"@) {
                OrgListStyle::Ordered(
                    match node.attr_i64_saturating("order"@) {
                        Some(o) => o,
                        None => 1,
                    },
                )
            } else {
                OrgListStyle::Task
            };
            match node.array_field("content"@) {
                Some(c) => org_list_items(c, indent, depth, scheme, style),
                None => Some(Seq::empty()),
            }
        } else if t == Some("horizontalRule"@) || t == Some("horizontal_rule"@) {
            Some("-----\n"@)
        } else if t == Some("table"@) {
            match node.array_field("content"@) {
                Some(rows) => Some(org_table_rows(rows, scheme)),
                None => Some(Seq::empty()),
            }
        } else if t == Some("hardBreak"@) || t == Some("hard_break"@) {
            Some(seq!['\n'])
        } else if t == Some("image"@) {
            match org_image(node, scheme) {
                Some(s) => Some(s + seq!['\n']),
                None => Some(Seq::empty()),
            }
        } else {
            match node.array_field("content"@) {
                Some(c) => org_nodes(c, indent, depth + 1, scheme),
                None => Some(Seq::empty()),
            }
        }
    }
}

/// Block nodes one after another, all at nesting level `depth`.
pub open spec fn org_nodes(nodes: Seq<JsonSpec>, indent: nat, depth: int, scheme: Seq<char>) -> Option<Seq<char>>
    decreases MAX_DEPTH - depth, 4int, nodes.len(),
{
    if nodes.len() == 0 {
        Some(Seq::empty())
    } else {
        match org_nodes(nodes.drop_last(), indent, depth, scheme) {
            Some(p) => match org_node(nodes.last(), indent, depth, scheme) {
                Some(x) => Some(p + x),
                None => None,
            },
            None => None,
        }
    }
}

/// The items of a list, each after its marker.
pub open spec fn org_list_items(items: Seq<JsonSpec>, indent: nat, depth: int, scheme: Seq<char>, style: OrgListStyle) -> Option<Seq<char>>
    decreases MAX_DEPTH - depth, 2int, items.len(),
{
    if items.len() == 0 {
        Some(Seq::empty())
    } else {
        match org_list_items(items.drop_last(), indent, depth, scheme, style) {
            Some(p) => match org_item(items.last(), indent, depth, scheme) {
                Some(x) => Some(p + org_indent(indent) + org_item_marker(style, items.last(), items.len() - 1) + x),
                None => None,
            },
            None => None,
        }
    }
}

/// A list item: its first child as a paragraph line, the others as blocks
/// one indent further in.
pub open spec fn org_item(item: JsonSpec, indent: nat, depth: int, scheme: Seq<char>) -> Option<Seq<char>>
    decreases MAX_DEPTH - depth, 1int, 0int,
{
    match item.array_field("content"@) {
        Some(c) => org_item_children(c, indent, depth, scheme),
        None => Some(Seq::empty()),
    }
}

pub open spec fn org_item_children(children: Seq<JsonSpec>, indent: nat, depth: int, scheme: Seq<char>) -> Option<Seq<char>>
    decreases MAX_DEPTH - depth, 0int, children.len(),
{
    if children.len() == 0 {
        Some(Seq::empty())
    } else if depth >= MAX_DEPTH {
        None
    } else {
        match org_item_children(children.drop_last(), indent, depth, scheme) {
            Some(p) => if children.len() == 1 {
                Some(p + escaped_paragraph_text(node_inline(children[0], scheme)) + seq!['\n'])
            } else {
                match org_node(children.last(), indent + 1, depth + 1, scheme) {
                    Some(x) => Some(p + x),
                    None => None,
                }
            },
            None => None,
        }
    }
}

/// The rows of a table; the first is followed by a rule line.
pub open spec fn org_table_rows(rows: Seq<JsonSpec>, scheme: Seq<char>) -> Seq<char>
    decreases rows.len(),
{
    if rows.len() == 0 {
        Seq::empty()
    } else {
        org_table_rows(rows.drop_last(), scheme) + org_table_row(rows.last(), rows.len() == 1, scheme)
    }
}

/// The document's blocks, separated by line breaks.
pub open spec fn org_blocks(nodes: Seq<JsonSpec>, scheme: Seq<char>) -> Option<Seq<char>>
    decreases nodes.len(),
{
    if nodes.len() == 0 {
        Some(Seq::empty())
    } else {
        match org_blocks(nodes.drop_last(), scheme) {
            Some(p) => match org_node(nodes.last(), 0, 0, scheme) {
                Some(x) => Some(if nodes.len() == 1 {
                    x
                } else {
                    p + seq!['\n'] + x
                }),
                None => None,
            },
            None => None,
        }
    }
}

/// What `prosemirror_to_org` gives for a document.
pub open spec fn spec_prosemirror_to_org(doc: JsonSpec, scheme: Seq<char>) -> Result<Seq<char>, ErrorSpec> {
    if doc.node_type() != Some("doc"@) {
        Err(root_error())
    } else {
        match org_blocks(
            match doc.array_field("content"@) {
                Some(c) => c,
                None => Seq::empty(),
            },
            scheme,
        ) {
            Some(s) => Ok(trim_end(s)),
            None => Err(depth_error()),
        }
    }
}

fn push_indent(output: &mut String, indent: usize)
    ensures
        final(output)@ == old(output)@ + org_indent(indent as nat),
{
    let ghost start = output@;
    let mut k: usize = 0;
    assert(start + org_indent(0) =~= start);
    while k < indent
        invariant
            k <= indent,
            output@ == start + org_indent(k as nat),
        decreases indent - k,
    {
        output.push(' ');
        output.push(' ');
        k += 1;
        assert(output@ =~= start + org_indent(k as nat));
    }
}

/// The language of a code block, up to the first line break.
fn org_code_language_exec(node: &JsonValue) -> (r: Vec<char>)
    ensures
        r@ == org_code_language(node@),
{
    let lang_value = match node.get("attrs") {
        Some(a) => match a.get("language") {
            Some(l) => Some(l),
            None => a.get("params"),
        },
        None => None,
    };
    let lang = match lang_value {
        Some(l) => match l.as_str() {
            Some(s) => chars_of(s.as_str()),
            None => return Vec::new(),
        },
        None => return Vec::new(),
    };
    let mut out: Vec<char> = Vec::new();
    let mut i: usize = 0;
    assert(lang@.skip(0) =~= lang@);
    while i < lang.len() && lang[i] != '\n' && lang[i] != '\r'
        invariant
            i <= lang@.len(),
            before_break(lang@) == out@ + before_break(lang@.skip(i as int)),
        decreases lang.len() - i,
    {
        assert(lang@.skip(i as int).drop_first() =~= lang@.skip(i + 1));
        out.push(lang[i]);
        i += 1;
        assert(before_break(lang@) =~= out@ + before_break(lang@.skip(i as int)));
    }
    assert(before_break(lang@.skip(i as int)) =~= Seq::<char>::empty());
    assert(out@ =~= before_break(lang@));
    out
}

fn org_code_block_exec(node: &JsonValue, output: &mut String)
    ensures
        final(output)@ == old(output)@ + org_code_block(node@),
{
    let language = org_code_language_exec(node);
    let mut body = String::new();
    if let Some(content) = node.array_field("content") {
        let ghost cs = crate::json::views(content@);
        let mut i: usize = 0;
        assert(cs.take(0) =~= Seq::<JsonSpec>::empty());
        assert(body@ =~= org_code_body(cs.take(0)));
        while i < content.len()
            invariant
                i <= content@.len() == cs.len(),
                cs == crate::json::views(content@),
                body@ == org_code_body(cs.take(i as int)),
            decreases content.len() - i,
        {
            if let Some(text) = content[i].str_field("text") {
                push_org_source_text(&mut body, text.as_str());
            }
            assert(cs.take(i + 1).drop_last() =~= cs.take(i as int));
            assert(cs.take(i + 1).last() == content@[i as int]@);
            i += 1;
            assert(body@ =~= org_code_body(cs.take(i as int)));
        }
        assert(cs.take(i as int) =~= cs);
    }
    let ghost start = output@;
    output.append("#+BEGIN_SRC ");
    push_str_chars(output, language.as_slice());
    output.push('\n');
    output.append(body.as_str());
    let bc = chars_of(body.as_str());
    if bc.len() > 0 && bc[bc.len() - 1] != '\n' {
        output.push('\n');
    }
    output.append("#+END_SRC\n");
    assert(output@ =~= start + org_code_block(node@));
}

/// Writes the block nodes `nodes`, all at nesting level `depth`.
fn org_nodes_exec(nodes: &Vec<JsonValue>, output: &mut String, indent: usize, depth: usize, scheme: &str) -> (r: Result<(), ProseMirrorError>)
    requires
        indent <= depth,
    ensures
        rendered(r, old(output)@, final(output)@, org_nodes(crate::json::views(nodes@), indent as nat, depth as int, scheme@)),
    decreases MAX_DEPTH - depth, 4int, 0int,
{
    let ghost cs = crate::json::views(nodes@);
    let ghost start = output@;
    let mut i: usize = 0;
    assert(cs.take(0) =~= Seq::<JsonSpec>::empty());
    assert(start + Seq::<char>::empty() =~= start);
    while i < nodes.len()
        invariant
            indent <= depth,
            i <= nodes@.len() == cs.len(),
            cs == crate::json::views(nodes@),
            org_nodes(cs.take(i as int), indent as nat, depth as int, scheme@) matches Some(p) && output@ == start + p,
        decreases nodes.len() - i,
    {
        assert(cs.take(i + 1).drop_last() =~= cs.take(i as int));
        assert(cs.take(i + 1).last() == nodes@[i as int]@);
        let ghost before = output@;
        let r = node_to_org(&nodes[i], output, indent, depth, scheme);
        if r.is_err() {
            assert(org_nodes(cs.take(i + 1), indent as nat, depth as int, scheme@) is None);
            proof {
                lemma_org_nodes_none_extends(cs, indent as nat, depth as int, scheme@, i + 1);
            }
            return r;
        }
        i += 1;
        assert(output@ =~= start + org_nodes(cs.take(i as int), indent as nat, depth as int, scheme@)->Some_0);
    }
    assert(cs.take(i as int) =~= cs);
    Ok(())
}

proof fn lemma_org_nodes_none_extends(cs: Seq<JsonSpec>, indent: nat, depth: int, scheme: Seq<char>, k: int)
    requires
        0 <= k <= cs.len(),
        org_nodes(cs.take(k), indent, depth, scheme) is None,
    ensures
        org_nodes(cs, indent, depth, scheme) is None,
    decreases cs.len() - k,
{
    if k < cs.len() {
        assert(cs.take(k + 1).drop_last() =~= cs.take(k));
        lemma_org_nodes_none_extends(cs, indent, depth, scheme, k + 1);
    } else {
        assert(cs.take(k) =~= cs);
    }
}

proof fn lemma_org_list_items_none_extends(cs: Seq<JsonSpec>, indent: nat, depth: int, scheme: Seq<char>, style: OrgListStyle, k: int)
    requires
        0 <= k <= cs.len(),
        org_list_items(cs.take(k), indent, depth, scheme, style) is None,
    ensures
        org_list_items(cs, indent, depth, scheme, style) is None,
    decreases cs.len() - k,
{
    if k < cs.len() {
        assert(cs.take(k + 1).drop_last() =~= cs.take(k));
        lemma_org_list_items_none_extends(cs, indent, depth, scheme, style, k + 1);
    } else {
        assert(cs.take(k) =~= cs);
    }
}

proof fn lemma_org_item_children_none_extends(cs: Seq<JsonSpec>, indent: nat, depth: int, scheme: Seq<char>, k: int)
    requires
        0 <= k <= cs.len(),
        org_item_children(cs.take(k), indent, depth, scheme) is None,
    ensures
        org_item_children(cs, indent, depth, scheme) is None,
    decreases cs.len() - k,
{
    if k < cs.len() {
        assert(cs.take(k + 1).drop_last() =~= cs.take(k));
        assert(cs.take(k + 1).len() > 0);
        lemma_org_item_children_none_extends(cs, indent, depth, scheme, k + 1);
    } else {
        assert(cs.take(k) =~= cs);
    }
}

fn push_item_marker(output: &mut String, style: &OrgListStyle, item: &JsonValue, index: usize)
    ensures
        final(output)@ == old(output)@ + org_item_marker(*style, item@, index as int),
{
    match style {
        OrgListStyle::Bullet => {
            push_two(output, '-', ' ');
        },
        OrgListStyle::Ordered(start) => {
            push_decimal(output, item_number(*start, index));
            push_two(output, '.', ' ');
        },
        OrgListStyle::Task => {
            let checked = match item.attr_bool("checked") {
                Some(b) => b,
                None => false,
            };
            if checked {
                output.append("- [X] ");
            } else {
                output.append("- [ ] ");
            }
        },
    }
}

/// Writes the items of a list, each after its marker.
fn org_list_items_exec(items: &Vec<JsonValue>, output: &mut String, indent: usize, depth: usize, scheme: &str, style: OrgListStyle) -> (r: Result<(), ProseMirrorError>)
    requires
        indent <= depth < MAX_DEPTH,
    ensures
        rendered(r, old(output)@, final(output)@, org_list_items(crate::json::views(items@), indent as nat, depth as int, scheme@, style)),
    decreases MAX_DEPTH - depth, 2int, 0int,
{
    let ghost cs = crate::json::views(items@);
    let ghost start = output@;
    let mut i: usize = 0;
    assert(cs.take(0) =~= Seq::<JsonSpec>::empty());
    assert(start + Seq::<char>::empty() =~= start);
    while i < items.len()
        invariant
            indent <= depth < MAX_DEPTH,
            i <= items@.len() == cs.len(),
            cs == crate::json::views(items@),
            org_list_items(cs.take(i as int), indent as nat, depth as int, scheme@, style) matches Some(p) && output@ == start + p,
        decreases items.len() - i,
    {
        assert(cs.take(i + 1).drop_last() =~= cs.take(i as int));
        assert(cs.take(i + 1).last() == items@[i as int]@);
        push_indent(output, indent);
        push_item_marker(output, &style, &items[i], i);
        let r = org_list_item_to_org(&items[i], output, indent, depth, scheme);
        if r.is_err() {
            proof {
                lemma_org_list_items_none_extends(cs, indent as nat, depth as int, scheme@, style, i + 1);
            }
            return r;
        }
        i += 1;
        assert(output@ =~= start + org_list_items(cs.take(i as int), indent as nat, depth as int, scheme@, style)->Some_0);
    }
    assert(cs.take(i as int) =~= cs);
    Ok(())
}

/// Writes a list item: its first child as a paragraph line, and the other
/// children as blocks one indent further in.
fn org_list_item_to_org(node: &JsonValue, output: &mut String, indent: usize, depth: usize, scheme: &str) -> (r: Result<(), ProseMirrorError>)
    requires
        indent <= depth < MAX_DEPTH,
    ensures
        rendered(r, old(output)@, final(output)@, org_item(node@, indent as nat, depth as int, scheme@)),
    decreases MAX_DEPTH - depth, 1int, 0int,
{
    if let Some(content) = node.array_field("content") {
        let ghost cs = crate::json::views(content@);
        let ghost start = output@;
        let mut i: usize = 0;
        assert(cs.take(0) =~= Seq::<JsonSpec>::empty());
        assert(start + Seq::<char>::empty() =~= start);
        while i < content.len()
            invariant
                indent <= depth < MAX_DEPTH,
                i <= content@.len() == cs.len(),
                cs == crate::json::views(content@),
                node@.array_field("content"@) == Some(cs),
                org_item_children(cs.take(i as int), indent as nat, depth as int, scheme@) matches Some(p) && output@ == start + p,
            decreases content.len() - i,
        {
            assert(cs.take(i + 1).drop_last() =~= cs.take(i as int));
            assert(cs.take(i + 1).last() == content@[i as int]@);
            if i == 0 {
                assert(cs.take(1)[0] == content@[0]@);
                let mut paragraph = String::new();
                inline_content_to_org(&content[i], &mut paragraph, scheme);
                push_org_paragraph_text(output, paragraph.as_str());
                output.push('\n');
            } else {
                let r = node_to_org(&content[i], output, indent + 1, depth + 1, scheme);
                if r.is_err() {
                    assert(org_node(content@[i as int]@, (indent + 1) as nat, depth + 1, scheme@) is None);
                    assert(cs.take(i + 1).len() != 1);
                    assert(org_item_children(cs.take(i + 1), indent as nat, depth as int, scheme@) is None);
                    proof {
                        lemma_org_item_children_none_extends(cs, indent as nat, depth as int, scheme@, i + 1);
                    }
                    return r;
                }
            }
            i += 1;
            assert(output@ =~= start + org_item_children(cs.take(i as int), indent as nat, depth as int, scheme@)->Some_0);
        }
        assert(cs.take(i as int) =~= cs);
    } else {
        assert(old(output)@ + Seq::<char>::empty() =~= output@);
    }
    Ok(())
}

/// Writes the rows of a table.
fn org_table_rows_exec(rows: &Vec<JsonValue>, output: &mut String, scheme: &str)
    ensures
        final(output)@ == old(output)@ + org_table_rows(crate::json::views(rows@), scheme@),
{
    let ghost cs = crate::json::views(rows@);
    let ghost start = output@;
    let mut i: usize = 0;
    assert(cs.take(0) =~= Seq::<JsonSpec>::empty());
    assert(start + Seq::<char>::empty() =~= start);
    while i < rows.len()
        invariant
            i <= rows@.len() == cs.len(),
            cs == crate::json::views(rows@),
            output@ == start + org_table_rows(cs.take(i as int), scheme@),
        decreases rows.len() - i,
    {
        assert(cs.take(i + 1).drop_last() =~= cs.take(i as int));
        assert(cs.take(i + 1).last() == rows@[i as int]@);
        org_table_row_to_org(&rows[i], output, i == 0, scheme);
        i += 1;
        assert(output@ =~= start + org_table_rows(cs.take(i as int), scheme@));
    }
    assert(cs.take(i as int) =~= cs);
}

/// Writes one block node as Org text. A node nested `MAX_DEPTH` levels
/// deep is refused.
#[verifier::rlimit(60)]
#[verifier::spinoff_prover]
fn node_to_org(node: &JsonValue, output: &mut String, indent: usize, depth: usize, scheme: &str) -> (r: Result<(), ProseMirrorError>)
    requires
        indent <= depth,
    ensures
        rendered(r, old(output)@, final(output)@, org_node(node@, indent as nat, depth as int, scheme@)),
    decreases MAX_DEPTH - depth, 3int, 0int,
{
    if depth >= MAX_DEPTH {
        return Err(depth_exceeded());
    }
    let ghost start = output@;
    if node.has_type("paragraph") {
        let mut paragraph = String::new();
        inline_content_to_org(node, &mut paragraph, scheme);
        push_org_paragraph_text(output, paragraph.as_str());
        output.push('\n');
    } else if node.has_type("attachment") {
        let filename = match node.attr_str("filename") {
            Some(f) => f.clone(),
            None => "attachment".to_owned(),
        };
        if let Some(id) = node.attr_str("attachmentId") {
            push_indent(output, indent);
            let target = string_from_chars(concat_scheme(scheme, id.as_str()).as_slice());
            push_two(output, '[', '[');
            output.append(org_escape_target(target.as_str()).as_str());
            push_two(output, ']', '[');
            output.append(org_escape_description(filename.as_str()).as_str());
            push_two(output, ']', ']');
            output.push('\n');
        }
    } else if node.has_type("heading") {
        let level = heading_level(node);
        push_repeated(output, '*', level);
        output.push(' ');
        let mut inline = String::new();
        inline_content_to_org(node, &mut inline, scheme);
        push_one_line(output, inline.as_str());
        output.push('\n');
    } else if node.has_type("blockquote") {
        output.append("#+BEGIN_QUOTE\n");
        if let Some(content) = node.array_field("content") {
            let r = org_nodes_exec(content, output, 0, depth + 1, scheme);
            if r.is_err() {
                return r;
            }
        }
        output.append("#+END_QUOTE\n");
    } else if node.has_type("codeBlock") || node.has_type("code_block") {
        org_code_block_exec(node, output);
    } else if node.has_type("bulletList") || node.has_type("bullet_list") || node.has_type("orderedList")
        || node.has_type("ordered_list") || node.has_type("taskList") || node.has_type("task_list") {
        let style = if node.has_type("bulletList") || node.has_type("bullet_list") {
            OrgListStyle::Bullet
        } else if node.has_type("orderedList") || node.has_type("ordered_list") {
            OrgListStyle::Ordered(
                match node.attr_i64_saturating("order") {
                    Some(o) => o,
                    None => 1,
                },
            )
        } else {
            OrgListStyle::Task
        };
        if let Some(content) = node.array_field("content") {
            let r = org_list_items_exec(content, output, indent, depth, scheme, style);
            if r.is_err() {
                return r;
            }
        }
    } else if node.has_type("horizontalRule") || node.has_type("horizontal_rule") {
        output.append("-----\n");
    } else if node.has_type("table") {
        if let Some(rows) = node.array_field("content") {
            org_table_rows_exec(rows, output, scheme);
        }
    } else if node.has_type("hardBreak") || node.has_type("hard_break") {
        output.push('\n');
    } else if node.has_type("image") {
        let mut image = String::new();
        if render_image_to_org(node, &mut image, scheme) {
            output.append(image.as_str());
            output.push('\n');
        }
    } else {
        if let Some(content) = node.array_field("content") {
            let r = org_nodes_exec(content, output, indent, depth + 1, scheme);
            if r.is_err() {
                return r;
            }
        }
    }
    assert(output@ =~= start + org_node(node@, indent as nat, depth as int, scheme@)->Some_0);
    Ok(())
}

/// Converts a document to Org-mode text. The root must be a `doc`; a
/// document nested `MAX_DEPTH` levels deep is refused. Link targets are
/// escaped so they cannot break out of Org link syntax, but their URL
/// scheme is kept as it is.
#[verifier::loop_isolation(false)]
pub fn prosemirror_to_org(doc: &JsonValue, attachment_uri_scheme: &str) -> (r: Result<String, ProseMirrorError>)
    ensures
        match spec_prosemirror_to_org(doc@, attachment_uri_scheme@) {
            Ok(s) => r matches Ok(t) && t@ == s,
            Err(e) => r matches Err(f) && f@ == e,
        },
{
    if !doc.has_type("doc") {
        return Err(root_not_doc());
    }
    let mut output = String::new();
    let empty: Vec<JsonValue> = Vec::new();
    let content = match doc.array_field("content") {
        Some(c) => c,
        None => &empty,
    };
    let ghost cs = crate::json::views(content@);
    assert(cs == match doc@.array_field("content"@) {
        Some(c) => c,
        None => Seq::<JsonSpec>::empty(),
    });
    let mut i: usize = 0;
    assert(cs.take(0) =~= Seq::<JsonSpec>::empty());
    while i < content.len()
        invariant
            i <= content@.len() == cs.len(),
            cs == crate::json::views(content@),
            org_blocks(cs.take(i as int), attachment_uri_scheme@) matches Some(p) && output@ == p,
        decreases content.len() - i,
    {
        assert(cs.take(i + 1).drop_last() =~= cs.take(i as int));
        assert(cs.take(i + 1).last() == content@[i as int]@);
        if i > 0 {
            output.push('\n');
        }
        let r = node_to_org(&content[i], &mut output, 0, 0, attachment_uri_scheme);
        if r.is_err() {
            proof {
                lemma_org_blocks_none_extends(cs, attachment_uri_scheme@, i + 1);
            }
            return Err(depth_exceeded());
        }
        i += 1;
        assert(output@ =~= org_blocks(cs.take(i as int), attachment_uri_scheme@)->Some_0);
    }
    assert(cs.take(i as int) =~= cs);
    let oc = chars_of(output.as_str());
    let j = trim_end_index(oc.as_slice());
    assert(oc@.take(j as int) =~= oc@.subrange(0, j as int));
    Ok(string_from_chars(&oc.as_slice()[0..j]))
}

proof fn lemma_org_blocks_none_extends(cs: Seq<JsonSpec>, scheme: Seq<char>, k: int)
    requires
        0 <= k <= cs.len(),
        org_blocks(cs.take(k), scheme) is None,
    ensures
        org_blocks(cs, scheme) is None,
    decreases cs.len() - k,
{
    if k < cs.len() {
        assert(cs.take(k + 1).drop_last() =~= cs.take(k));
        lemma_org_blocks_none_extends(cs, scheme, k + 1);
    } else {
        assert(cs.take(k) =~= cs);
    }
}

/// An exported document has no trailing whitespace.
pub proof fn lemma_org_output_trimmed(doc: JsonSpec, scheme: Seq<char>)
    ensures
        spec_prosemirror_to_org(doc, scheme) matches Ok(s) ==> trim_end(s) == s,
{
    if spec_prosemirror_to_org(doc, scheme) is Ok {
        let s = org_blocks(
            match doc.array_field("content"@) {
                Some(c) => c,
                None => Seq::empty(),
            },
            scheme,
        )->Some_0;
        crate::strs::lemma_trim_end_idempotent(s);
    }
}


/// An italic (or `em`) mark is written as Org emphasis: the Org text of a
/// text node whose only mark is italic is its text between slashes.
pub proof fn lemma_org_italic_text(node: JsonSpec, t: Seq<char>, scheme: Seq<char>)
    requires
        node.node_type() == Some("text"@),
        node.str_field("text"@) == Some(t),
        node.array_field("marks"@) matches Some(ms) && ms.len() == 1 && (ms[0].node_type() == Some("italic"@)
            || ms[0].node_type() == Some("em"@)),
    ensures
        org_inline_node(node, scheme) == seq!['/'] + t + seq!['/'],
{
    reveal_strlit("italic");
    reveal_strlit("em");
    reveal_strlit("link");
    reveal_strlit("text");
    reveal_strlit("hardBreak");
    reveal_strlit("hard_break");
    reveal_strlit("image");
    reveal_strlit("bold");
    reveal_strlit("strong");
    let ms = node.array_field("marks"@)->Some_0;
    let m = ms[0];
    assert(ms.drop_last().len() == 0);
    assert("italic"@ != "bold"@ && "italic"@ != "strong"@ && "em"@ != "bold"@ && "em"@ != "strong"@) by {
        assert("italic"@.len() == 6 && "bold"@.len() == 4 && "strong"@.len() == 6 && "em"@.len() == 2);
        assert("italic"@[0] != "strong"@[0]);
    }
    assert(mark_delim(m) == seq!['/']);
    assert(ms.last() == m);
    assert(org_mark_prefix(ms.drop_last()) == Seq::<char>::empty());
    assert(org_mark_suffix(ms.drop_last()) == Seq::<char>::empty());
    assert(org_mark_prefix(ms) == seq!['/']) by {
        assert(Seq::<char>::empty() + seq!['/'] =~= seq!['/']);
    }
    assert(org_mark_suffix(ms) == seq!['/']) by {
        assert(seq!['/'] + Seq::<char>::empty() =~= seq!['/']);
    }
    assert("italic"@ != "link"@ && "em"@ != "link"@) by {
        assert("link"@.len() == 4);
    }
    assert("text"@ != "hardBreak"@ && "text"@ != "hard_break"@ && "text"@ != "image"@) by {
        assert("text"@.len() == 4 && "hardBreak"@.len() == 9 && "hard_break"@.len() == 10 && "image"@.len() == 5);
    }
    assert(!has_link_mark(ms)) by {
        if has_link_mark(ms) {
            let i = choose|i: int| 0 <= i < ms.len() && #[trigger] ms[i].node_type() == Some("link"@);
            assert(i == 0);
        }
    }
}


/// Org export then import keeps an italic mark: a text node whose only mark
/// is italic, holding plain text that starts and ends with a character that
/// is not whitespace, is read back as that text with an `italic` mark.
pub proof fn lemma_org_italic_round_trip(node: JsonSpec, t: Seq<char>, scheme: Seq<char>)
    requires
        node.node_type() == Some("text"@),
        node.str_field("text"@) == Some(t),
        node.array_field("marks"@) matches Some(ms) && ms.len() == 1 && (ms[0].node_type() == Some("italic"@)
            || ms[0].node_type() == Some("em"@)),
        t.len() > 0,
        crate::org_inline::no_inline_markup(t),
        !crate::strs::is_ws(t[0]),
        !crate::strs::is_ws(t.last()),
    ensures
        crate::org_inline::spec_parse_org_inline(org_inline_node(node, scheme)) == seq![
            crate::json::spec_text_node(t, seq![crate::md_model::typed("italic"@)]),
        ],
{
    lemma_org_italic_text(node, t, scheme);
    crate::org_inline::lemma_org_italic_read(t);
}


/// Each emphasis mark is written as its Org delimiter around the text: a
/// text node whose only mark is bold (`*`), italic (`/`), code (`~`),
/// strike (`+`) or underline (`_`), in either spelling, is its text between
/// two of that delimiter.
pub proof fn lemma_org_emphasis_text(node: JsonSpec, t: Seq<char>, scheme: Seq<char>, ty: Seq<char>, d: char)
    requires
        node.node_type() == Some("text"@),
        node.str_field("text"@) == Some(t),
        node.array_field("marks"@) matches Some(ms) && ms.len() == 1 && ms[0].node_type() == Some(ty),
        ((ty == "bold"@ || ty == "strong"@) && d == '*') || ((ty == "italic"@ || ty == "em"@) && d == '/') || (ty
            == "code"@ && d == '~') || ((ty == "strike"@ || ty == "strikethrough"@) && d == '+') || (ty
            == "underline"@ && d == '_'),
    ensures
        org_inline_node(node, scheme) == seq![d] + t + seq![d],
{
    reveal_strlit("italic");
    reveal_strlit("em");
    reveal_strlit("link");
    reveal_strlit("text");
    reveal_strlit("hardBreak");
    reveal_strlit("hard_break");
    reveal_strlit("image");
    reveal_strlit("bold");
    reveal_strlit("strong");
    reveal_strlit("code");
    reveal_strlit("strike");
    reveal_strlit("strikethrough");
    reveal_strlit("underline");
    let ms = node.array_field("marks"@)->Some_0;
    let m = ms[0];
    assert("text"@ != "hardBreak"@ && "text"@ != "hard_break"@ && "text"@ != "image"@) by {
        assert("text"@.len() == 4 && "hardBreak"@.len() == 9 && "hard_break"@.len() == 10 && "image"@.len() == 5);
    }
    assert("bold"@.len() == 4 && "strong"@.len() == 6 && "italic"@.len() == 6 && "em"@.len() == 2 && "code"@.len()
        == 4 && "strike"@.len() == 6 && "strikethrough"@.len() == 13 && "underline"@.len() == 9 && "link"@.len() == 4);
    assert("bold"@[0] != "code"@[0] && "bold"@[0] != "link"@[0] && "code"@[0] != "link"@[0]);
    assert("strong"@[0] != "italic"@[0] && "strike"@[3] != "strong"@[3] && "strike"@[0] != "italic"@[0]);
    assert(mark_delim(m) == seq![d]);
    assert(ms.last() == m);
    assert(ms.drop_last().len() == 0);
    assert(org_mark_prefix(ms.drop_last()) == Seq::<char>::empty());
    assert(org_mark_suffix(ms.drop_last()) == Seq::<char>::empty());
    assert(org_mark_prefix(ms) == seq![d]) by {
        assert(Seq::<char>::empty() + seq![d] =~= seq![d]);
    }
    assert(org_mark_suffix(ms) == seq![d]) by {
        assert(seq![d] + Seq::<char>::empty() =~= seq![d]);
    }
    assert(!has_link_mark(ms)) by {
        if has_link_mark(ms) {
            let i = choose|i: int| 0 <= i < ms.len() && #[trigger] ms[i].node_type() == Some("link"@);
            assert(i == 0);
        }
    }
}

} // verus!
