//! The ProseMirror document that a Markdown event stream describes, stated
//! as one step per event over the state of the document being built: the
//! finished top-level blocks, the stack of open elements, the active marks
//! and the pending text.

use vstd::prelude::*;
use vstd::utf8::encode_utf8;
use crate::attachment::{spec_attachment_id, spec_upgrade_nodes};
use crate::json::{spec_text_node, JsonSpec};
use crate::md_events::{MdAlignment, MdEvent, MdTag, MdTagEnd};
use crate::md_source::{
    blank_line_behind,
    code_span_inner,
    indent_before,
    least_indent,
    range_chars,
    spec_bullet_list_attrs,
    spec_has_blank_between,
    valid_range,
    without_continuation_indent,
};
use crate::lines::split_lines;
use vstd::utf8::is_char_boundary;

verus! {

/// The kind of an open element.
#[derive(PartialEq, Eq, Structural, Clone, Copy)]
pub enum FrameKind {
    Paragraph,
    Heading,
    BlockQuote,
    CodeBlock,
    BulletList,
    OrderedList,
    TaskList,
    ListItem,
    TaskItem,
    Table,
    TableRow,
    TableHeader,
    TableCell,
    Image,
}

/// The node type an element of that kind becomes.
pub open spec fn spec_kind_name(k: FrameKind) -> Seq<char> {
    match k {
        FrameKind::Paragraph => "paragraph"@,
        FrameKind::Heading => "heading"@,
        FrameKind::BlockQuote => "blockquote"@,
        FrameKind::CodeBlock => "codeBlock"@,
        FrameKind::BulletList => "bulletList"@,
        FrameKind::OrderedList => "orderedList"@,
        FrameKind::TaskList => "taskList"@,
        FrameKind::ListItem => "listItem"@,
        FrameKind::TaskItem => "taskItem"@,
        FrameKind::Table => "table"@,
        FrameKind::TableRow => "tableRow"@,
        FrameKind::TableHeader => "tableHeader"@,
        FrameKind::TableCell => "tableCell"@,
        FrameKind::Image => "image"@,
    }
}

/// An open element: its kind, the nodes gathered so far, its attributes,
/// whether a blank line came before it, and where its last child ended.
#[verifier::ext_equal]
pub struct FrameModel {
    pub kind: FrameKind,
    pub content: Seq<JsonSpec>,
    pub attrs: Option<JsonSpec>,
    pub loose_before: bool,
    pub last_child_end: Option<usize>,
}

/// The state of the document being built.
#[verifier::ext_equal]
pub struct BuildModel {
    pub doc: Seq<JsonSpec>,
    pub stack: Seq<FrameModel>,
    pub marks: Seq<JsonSpec>,
    pub text: Seq<char>,
}

pub open spec fn typed(t: Seq<char>) -> JsonSpec {
    JsonSpec::Object(seq![("type"@, JsonSpec::Str(t))])
}

pub open spec fn single(k: Seq<char>, v: JsonSpec) -> JsonSpec {
    JsonSpec::Object(seq![(k, v)])
}

pub open spec fn or_empty(a: Option<JsonSpec>) -> JsonSpec {
    match a {
        Some(x) => x,
        None => JsonSpec::Object(Seq::empty()),
    }
}

/// Attributes with the flag `k` set.
pub open spec fn flag(a: Option<JsonSpec>, k: Seq<char>) -> Option<JsonSpec> {
    Some(or_empty(a).with_member(k, JsonSpec::Bool(true)))
}

/// `content` with the pending text, if any, added as a text node.
pub open spec fn flushed(text: Seq<char>, marks: Seq<JsonSpec>, content: Seq<JsonSpec>) -> Seq<JsonSpec> {
    if text.len() > 0 {
        content.push(spec_text_node(text, marks))
    } else {
        content
    }
}

pub open spec fn with_content(f: FrameModel, content: Seq<JsonSpec>) -> FrameModel {
    FrameModel {
        kind: f.kind,
        content,
        attrs: f.attrs,
        loose_before: f.loose_before,
        last_child_end: f.last_child_end,
    }
}

pub open spec fn with_attrs(f: FrameModel, attrs: Option<JsonSpec>) -> FrameModel {
    FrameModel {
        kind: f.kind,
        content: f.content,
        attrs,
        loose_before: f.loose_before,
        last_child_end: f.last_child_end,
    }
}

pub open spec fn with_kind(f: FrameModel, kind: FrameKind) -> FrameModel {
    FrameModel {
        kind,
        content: f.content,
        attrs: f.attrs,
        loose_before: f.loose_before,
        last_child_end: f.last_child_end,
    }
}

pub open spec fn with_stack(s: BuildModel, stack: Seq<FrameModel>) -> BuildModel {
    BuildModel { doc: s.doc, stack, marks: s.marks, text: s.text }
}

pub open spec fn with_text(s: BuildModel, text: Seq<char>) -> BuildModel {
    BuildModel { doc: s.doc, stack: s.stack, marks: s.marks, text }
}

pub open spec fn with_marks(s: BuildModel, marks: Seq<JsonSpec>) -> BuildModel {
    BuildModel { doc: s.doc, stack: s.stack, marks, text: s.text }
}

/// The pending text moved into the innermost open element.
pub open spec fn flush_top(s: BuildModel) -> BuildModel {
    if s.stack.len() > 0 {
        let top = s.stack.last();
        BuildModel {
            doc: s.doc,
            stack: s.stack.update(s.stack.len() - 1, with_content(top, flushed(s.text, s.marks, top.content))),
            marks: s.marks,
            text: Seq::empty(),
        }
    } else {
        s
    }
}

/// The pending text and then `node` added to the innermost open element;
/// nothing where no element is open.
pub open spec fn add_to_top(s: BuildModel, node: JsonSpec) -> BuildModel {
    if s.stack.len() > 0 {
        let top = s.stack.last();
        BuildModel {
            doc: s.doc,
            stack: s.stack.update(
                s.stack.len() - 1,
                with_content(top, flushed(s.text, s.marks, top.content).push(node)),
            ),
            marks: s.marks,
            text: Seq::empty(),
        }
    } else {
        s
    }
}

pub open spec fn top_last_child_end(stack: Seq<FrameModel>) -> Option<usize> {
    if stack.len() > 0 {
        stack.last().last_child_end
    } else {
        None
    }
}

pub open spec fn is_item(k: FrameKind) -> bool {
    k == FrameKind::ListItem || k == FrameKind::TaskItem
}

pub open spec fn top_is_item(stack: Seq<FrameModel>) -> bool {
    stack.len() > 0 && is_item(stack.last().kind)
}

pub open spec fn push_frame(s: BuildModel, kind: FrameKind, attrs: Option<JsonSpec>, loose_before: bool) -> BuildModel {
    with_stack(
        s,
        s.stack.push(FrameModel { kind, content: Seq::empty(), attrs, loose_before, last_child_end: None }),
    )
}

pub open spec fn spec_alignment_name(a: MdAlignment) -> Seq<char> {
    match a {
        MdAlignment::Unaligned => "none"@,
        MdAlignment::Left => "left"@,
        MdAlignment::Center => "center"@,
        MdAlignment::Right => "right"@,
    }
}

/// A table's attributes: its column alignments, where any column is aligned.
pub open spec fn table_attrs(al: Seq<MdAlignment>) -> Option<JsonSpec> {
    if exists|i: int| 0 <= i < al.len() && al[i] != MdAlignment::Unaligned {
        Some(single("alignments"@, JsonSpec::Array(al.map_values(|a: MdAlignment| JsonSpec::Str(spec_alignment_name(a))))))
    } else {
        None
    }
}

/// Whether a cell opens inside the header row.
pub open spec fn in_header_row(stack: Seq<FrameModel>) -> bool {
    exists|i: int|
        0 <= i < stack.len() && #[trigger] stack[i].kind == FrameKind::TableRow && (stack[i].attrs matches Some(
            a,
        ) && a.get("header"@) is Some)
}

pub open spec fn list_marker_attrs(b: Seq<u8>, start: int, end: int) -> Option<JsonSpec> {
    if valid_range(b, start, end) {
        spec_bullet_list_attrs(range_chars(b, start, end))
    } else {
        None
    }
}

pub open spec fn code_block_attrs(info: Option<Seq<char>>) -> Option<JsonSpec> {
    match info {
        Some(lang) => if lang.len() == 0 {
            None
        } else {
            Some(single("language"@, JsonSpec::Str(lang)))
        },
        None => None,
    }
}

/// An image's attributes: an attachment id and a null `src` where the
/// destination is an attachment URI, else the destination as `src`.
pub open spec fn image_attrs(dest: Seq<char>, title: Seq<char>, scheme: Seq<char>) -> JsonSpec {
    let a0 = single("alt"@, JsonSpec::Str(""@));
    let a1 = match spec_attachment_id(dest, scheme) {
        Some(id) => a0.with_member("attachmentId"@, JsonSpec::Str(id)).with_member("src"@, JsonSpec::Null),
        None => a0.with_member("src"@, JsonSpec::Str(dest)),
    };
    if title.len() > 0 {
        a1.with_member("title"@, JsonSpec::Str(title))
    } else {
        a1
    }
}

pub open spec fn link_mark(dest: Seq<char>, title: Seq<char>) -> JsonSpec {
    let a0 = single("href"@, JsonSpec::Str(dest));
    let a1 = if title.len() > 0 {
        a0.with_member("title"@, JsonSpec::Str(title))
    } else {
        a0
    };
    typed("link"@).with_member("attrs"@, a1)
}

/// The state after the start of an element.
pub open spec fn tag_start(
    b: Seq<u8>,
    scheme: Seq<char>,
    tag: MdTag,
    start: int,
    end: int,
    s: BuildModel,
    lb: bool,
) -> BuildModel {
    match tag {
        MdTag::Paragraph => push_frame(s, FrameKind::Paragraph, None, lb),
        MdTag::Heading(level) => push_frame(
            s,
            FrameKind::Heading,
            Some(single("level"@, JsonSpec::PosInt(level as u64))),
            lb,
        ),
        MdTag::BlockQuote => push_frame(s, FrameKind::BlockQuote, None, lb),
        MdTag::CodeBlock(info) => push_frame(
            s,
            FrameKind::CodeBlock,
            code_block_attrs(
                match info {
                    Some(l) => Some(l@),
                    None => None,
                },
            ),
            lb,
        ),
        MdTag::List(first) => match first {
            Some(n) => push_frame(s, FrameKind::OrderedList, Some(single("order"@, JsonSpec::PosInt(n))), lb),
            None => push_frame(s, FrameKind::BulletList, list_marker_attrs(b, start, end), lb),
        },
        MdTag::Item => push_frame(s, FrameKind::ListItem, None, lb),
        MdTag::Table(al) => push_frame(s, FrameKind::Table, table_attrs(al@), lb),
        MdTag::TableHead => push_frame(s, FrameKind::TableRow, Some(single("header"@, JsonSpec::Bool(true))), lb),
        MdTag::TableRow => push_frame(s, FrameKind::TableRow, None, lb),
        MdTag::TableCell => push_frame(
            s,
            if in_header_row(s.stack) {
                FrameKind::TableHeader
            } else {
                FrameKind::TableCell
            },
            None,
            lb,
        ),
        MdTag::Emphasis => with_marks(s, s.marks.push(typed("italic"@))),
        MdTag::Strong => with_marks(s, s.marks.push(typed("bold"@))),
        MdTag::Strikethrough => with_marks(s, s.marks.push(typed("strike"@))),
        MdTag::Link { dest_url, title } => with_marks(s, s.marks.push(link_mark(dest_url@, title@))),
        MdTag::Image { dest_url, title } => push_frame(
            s,
            FrameKind::Image,
            Some(image_attrs(dest_url@, title@, scheme)),
            lb,
        ),
        MdTag::Other => s,
    }
}

/// Whether a list item's content is only inline nodes.
pub open spec fn all_inline(c: Seq<JsonSpec>) -> bool {
    forall|i: int|
        0 <= i < c.len() ==> (#[trigger] c[i].node_type() == Some("text"@) || c[i].node_type() == Some(
            "hardBreak"@,
        ) || c[i].node_type() == Some("image"@))
}

pub open spec fn paragraph_of(content: Seq<JsonSpec>) -> JsonSpec {
    JsonSpec::Object(seq![("type"@, JsonSpec::Str("paragraph"@)), ("content"@, JsonSpec::Array(content))])
}

/// The node that the innermost open element becomes when it closes.
pub open spec fn closed_node(
    b: Seq<u8>,
    tag_end: MdTagEnd,
    start: int,
    end: int,
    f: FrameModel,
    text: Seq<char>,
    marks: Seq<JsonSpec>,
) -> JsonSpec {
    let c0 = flushed(text, marks, f.content);
    let c = if is_item(f.kind) && c0.len() > 0 && all_inline(c0) {
        seq![paragraph_of(c0)]
    } else {
        c0
    };
    let a0 = if f.kind == FrameKind::TableRow {
        None
    } else {
        f.attrs
    };
    let a1 = if f.loose_before {
        flag(a0, "looseBefore"@)
    } else {
        a0
    };
    let a2 = if valid_range(b, start, end) && blank_line_behind(b, start, end, 0) {
        flag(a1, "looseAfter"@)
    } else {
        a1
    };
    let a3 = if tag_end == MdTagEnd::List(true) {
        flag(a2, "loose"@)
    } else {
        a2
    };
    let e0 = seq![("type"@, JsonSpec::Str(spec_kind_name(f.kind)))];
    let e1 = if c.len() > 0 {
        e0.push(("content"@, JsonSpec::Array(c)))
    } else {
        e0
    };
    let e2 = match a3 {
        Some(a) => e1.push(("attrs"@, a)),
        None => e1,
    };
    let e3 = if f.kind == FrameKind::Image && marks.len() > 0 {
        e2.push(("marks"@, JsonSpec::Array(marks)))
    } else {
        e2
    };
    JsonSpec::Object(e3)
}

/// The state after the innermost open element closes: its node goes to the
/// element around it, or to the document.
pub open spec fn close_top(b: Seq<u8>, tag_end: MdTagEnd, start: int, end: usize, s: BuildModel) -> BuildModel {
    if s.stack.len() == 0 {
        s
    } else {
        let node = closed_node(b, tag_end, start, end as int, s.stack.last(), s.text, s.marks);
        let rest = s.stack.drop_last();
        if rest.len() > 0 {
            let p = rest.last();
            BuildModel {
                doc: s.doc,
                stack: rest.update(
                    rest.len() - 1,
                    FrameModel {
                        kind: p.kind,
                        content: p.content.push(node),
                        attrs: p.attrs,
                        loose_before: p.loose_before,
                        last_child_end: Some(end),
                    },
                ),
                marks: s.marks,
                text: Seq::empty(),
            }
        } else {
            BuildModel { doc: s.doc.push(node), stack: rest, marks: s.marks, text: Seq::empty() }
        }
    }
}

pub open spec fn is_block_end(e: MdTagEnd) -> bool {
    match e {
        MdTagEnd::Paragraph | MdTagEnd::Heading | MdTagEnd::BlockQuote | MdTagEnd::CodeBlock
        | MdTagEnd::List(_) | MdTagEnd::Item | MdTagEnd::Image | MdTagEnd::Table
        | MdTagEnd::TableHead | MdTagEnd::TableRow | MdTagEnd::TableCell => true,
        _ => false,
    }
}

/// The mark that the end of an inline element closes.
pub open spec fn end_mark_type(e: MdTagEnd) -> Option<Seq<char>> {
    match e {
        MdTagEnd::Emphasis => Some("italic"@),
        MdTagEnd::Strong => Some("bold"@),
        MdTagEnd::Strikethrough => Some("strike"@),
        MdTagEnd::Link => Some("link"@),
        _ => None,
    }
}

/// The marks without the last one of type `t`.
pub open spec fn without_last_of_type(marks: Seq<JsonSpec>, t: Seq<char>) -> Seq<JsonSpec>
    decreases marks.len(),
{
    if marks.len() == 0 {
        marks
    } else if marks.last().node_type() == Some(t) {
        marks.drop_last()
    } else {
        without_last_of_type(marks.drop_last(), t).push(marks.last())
    }
}

/// The list item that inline content belongs to: the innermost element, or
/// the one around a paragraph that is innermost.
pub open spec fn direct_item_index(stack: Seq<FrameModel>) -> Option<int> {
    let len = stack.len() as int;
    if len == 0 {
        None
    } else if is_item(stack[len - 1].kind) {
        Some(len - 1)
    } else if len >= 2 && stack[len - 1].kind == FrameKind::Paragraph && is_item(stack[len - 2].kind) {
        Some(len - 2)
    } else {
        None
    }
}

/// The stack with the flag `looseBeforeInline` on that list item.
pub open spec fn loose_inline_item(stack: Seq<FrameModel>) -> Seq<FrameModel> {
    match direct_item_index(stack) {
        Some(i) => stack.update(
            i,
            with_attrs(stack[i], Some(or_empty(stack[i].attrs).with_member("looseBeforeInline"@, JsonSpec::Bool(true)))),
        ),
        None => stack,
    }
}

/// Inline content after a blank line inside a list item marks the item.
pub open spec fn loosen_inline(b: Seq<u8>, start: int, s: BuildModel) -> BuildModel {
    if top_is_item(s.stack) && (top_last_child_end(s.stack) matches Some(pe) && spec_has_blank_between(
        b,
        pe as int,
        start,
    )) {
        with_stack(s, loose_inline_item(s.stack))
    } else {
        s
    }
}

/// The least continuation indent seen so far for that list item.
pub open spec fn continuation_value(a: JsonSpec, indent: usize) -> u64 {
    match a.get("continuationIndent"@) {
        Some(v) => match v.as_u64() {
            Some(p) => if p <= usize::MAX && p < indent {
                p
            } else {
                indent as u64
            },
            None => indent as u64,
        },
        None => indent as u64,
    }
}

pub open spec fn with_continuation_indent(stack: Seq<FrameModel>, indent: usize) -> Seq<FrameModel> {
    match direct_item_index(stack) {
        Some(i) => {
            let a = or_empty(stack[i].attrs);
            stack.update(
                i,
                with_attrs(
                    stack[i],
                    Some(a.with_member("continuationIndent"@, JsonSpec::PosInt(continuation_value(a, indent)))),
                ),
            )
        },
        None => stack,
    }
}

/// The stack after inline text meets an image on top: the text goes to its
/// alt text (and `true`) where its attributes are an object; otherwise the
/// stack stays as it was (and `false`).
pub open spec fn alt_appended(stack: Seq<FrameModel>, suffix: Seq<char>) -> (Seq<FrameModel>, bool) {
    if stack.len() > 0 && stack.last().kind == FrameKind::Image && (stack.last().attrs matches Some(a)
        && a is Object) {
        let f = stack.last();
        let a = f.attrs->Some_0;
        let alt = match a.str_field("alt"@) {
            Some(x) => x,
            None => Seq::empty(),
        };
        (
            stack.update(
                stack.len() - 1,
                with_attrs(f, Some(a.with_member("alt"@, JsonSpec::Str(alt + suffix)))),
            ),
            true,
        )
    } else {
        (stack, false)
    }
}

pub open spec fn ends_with_newline(t: Seq<char>) -> bool {
    t.len() > 0 && t.last() == '\n'
}

pub open spec fn spec_leading_indent(b: Seq<u8>, i: int) -> usize {
    if is_char_boundary(b, i) {
        let w = indent_before(b, i);
        if w <= usize::MAX {
            w as usize
        } else {
            usize::MAX
        }
    } else {
        0
    }
}

/// The text of a code span: as written in the source where it spans lines,
/// else as the parser gives it.
pub open spec fn code_text(b: Seq<u8>, start: int, end: int, code: Seq<char>) -> Seq<char> {
    if valid_range(b, start, end) {
        match code_span_inner(range_chars(b, start, end), true) {
            Some(inner) => without_continuation_indent(inner, false),
            None => code,
        }
    } else {
        code
    }
}

/// The least indent of the later lines of a code span's source.
pub open spec fn span_continuation_indent(b: Seq<u8>, start: int, end: int) -> Option<usize> {
    if valid_range(b, start, end) {
        match code_span_inner(range_chars(b, start, end), false) {
            Some(inner) => match least_indent(split_lines(inner).drop_first()) {
                Some(m) => Some(m as usize),
                None => None,
            },
            None => None,
        }
    } else {
        None
    }
}

/// The state after inline text: added to an image's alt text, or pending.
pub open spec fn text_step(b: Seq<u8>, start: int, t: Seq<char>, s: BuildModel) -> BuildModel {
    let s1 = loosen_inline(b, start, s);
    let s2 = if ends_with_newline(s.text) {
        with_stack(s1, with_continuation_indent(s1.stack, spec_leading_indent(b, start)))
    } else {
        s1
    };
    let (st, appended) = alt_appended(s2.stack, t);
    if appended {
        with_stack(s2, st)
    } else {
        BuildModel { doc: s2.doc, stack: st, marks: s2.marks, text: s2.text + t }
    }
}

pub open spec fn spaces(n: nat) -> Seq<char> {
    Seq::new(n, |i: int| ' ')
}

/// The state after a code span: a text node with a `code` mark.
pub open spec fn code_step(b: Seq<u8>, start: int, end: int, code: Seq<char>, s: BuildModel) -> BuildModel {
    let ct = code_text(b, start, end, code);
    let s1 = loosen_inline(b, start, s);
    let s2 = if ends_with_newline(s.text) {
        let si = spec_leading_indent(b, start);
        let ci = match span_continuation_indent(b, start, end) {
            Some(c) => c,
            None => si,
        };
        BuildModel {
            doc: s1.doc,
            stack: with_continuation_indent(s1.stack, ci),
            marks: s1.marks,
            text: if si > ci {
                s1.text + spaces((si - ci) as nat)
            } else {
                s1.text
            },
        }
    } else {
        s1
    };
    let (st, appended) = alt_appended(s2.stack, ct);
    let s3 = with_stack(s2, st);
    if appended {
        s3
    } else {
        add_to_top(s3, spec_text_node(ct, s3.marks.push(typed("code"@))))
    }
}

/// A soft break: a space in an image's alt text, else a pending line break.
pub open spec fn soft_break_step(s: BuildModel) -> BuildModel {
    let (st, appended) = alt_appended(s.stack, " "@);
    if appended {
        with_stack(s, st)
    } else {
        BuildModel { doc: s.doc, stack: st, marks: s.marks, text: s.text.push('\n') }
    }
}

/// A hard break: a space in an image's alt text, else a `hardBreak` node.
pub open spec fn hard_break_step(s: BuildModel) -> BuildModel {
    let (st, appended) = alt_appended(s.stack, " "@);
    if appended {
        with_stack(s, st)
    } else {
        add_to_top(with_stack(s, st), typed("hardBreak"@))
    }
}

/// A thematic break: a `horizontalRule` node.
pub open spec fn rule_step(s: BuildModel) -> BuildModel {
    if s.stack.len() > 0 {
        add_to_top(s, typed("horizontalRule"@))
    } else {
        BuildModel { doc: s.doc.push(typed("horizontalRule"@)), stack: s.stack, marks: s.marks, text: s.text }
    }
}

/// The innermost bullet list.
pub open spec fn last_bullet_index(stack: Seq<FrameModel>) -> Option<int>
    decreases stack.len(),
{
    if stack.len() == 0 {
        None
    } else if stack.last().kind == FrameKind::BulletList {
        Some(stack.len() - 1)
    } else {
        last_bullet_index(stack.drop_last())
    }
}

/// A task list marker: the item becomes a task item, the innermost bullet
/// list a task list, and the innermost element gets `checked`.
pub open spec fn task_marker_step(checked: bool, s: BuildModel) -> BuildModel {
    let st0 = s.stack;
    let st1 = if st0.len() > 0 && st0.last().kind == FrameKind::ListItem {
        st0.update(st0.len() - 1, with_kind(st0.last(), FrameKind::TaskItem))
    } else {
        st0
    };
    let st2 = match last_bullet_index(st1) {
        Some(j) => st1.update(j, with_kind(st1[j], FrameKind::TaskList)),
        None => st1,
    };
    let st3 = if st2.len() > 0 {
        st2.update(st2.len() - 1, with_attrs(st2.last(), Some(single("checked"@, JsonSpec::Bool(checked)))))
    } else {
        st2
    };
    with_stack(s, st3)
}

/// The state after one event with its byte range.
pub open spec fn md_step(b: Seq<u8>, scheme: Seq<char>, s: BuildModel, ev: (MdEvent, usize, usize)) -> BuildModel {
    let start = ev.1 as int;
    let end = ev.2;
    match ev.0 {
        MdEvent::Start(tag) => {
            let s1 = flush_top(s);
            let lb = match top_last_child_end(s1.stack) {
                Some(pe) => spec_has_blank_between(b, pe as int, start),
                None => false,
            };
            tag_start(b, scheme, tag, start, end as int, s1, lb)
        },
        MdEvent::End(e) => if is_block_end(e) {
            close_top(b, e, start, end, s)
        } else {
            match end_mark_type(e) {
                Some(t) => {
                    let s1 = flush_top(s);
                    with_marks(s1, without_last_of_type(s1.marks, t))
                },
                None => s,
            }
        },
        MdEvent::Text(t) => text_step(b, start, t@, s),
        MdEvent::Code(c) => code_step(b, start, end as int, c@, s),
        MdEvent::SoftBreak => soft_break_step(s),
        MdEvent::HardBreak => hard_break_step(s),
        MdEvent::Rule => rule_step(s),
        MdEvent::TaskListMarker(checked) => task_marker_step(checked, s),
        MdEvent::Other => s,
    }
}

pub open spec fn initial_build() -> BuildModel {
    BuildModel { doc: Seq::empty(), stack: Seq::empty(), marks: Seq::empty(), text: Seq::empty() }
}

/// The state after the first `n` events.
pub open spec fn build_upto(
    b: Seq<u8>,
    scheme: Seq<char>,
    events: Seq<(MdEvent, usize, usize)>,
    n: nat,
) -> BuildModel
    decreases n,
{
    if n == 0 {
        initial_build()
    } else {
        md_step(b, scheme, build_upto(b, scheme, events, (n - 1) as nat), events[n - 1])
    }
}

/// The top-level blocks once the events are read: pending text becomes a
/// paragraph, and an empty document gets an empty paragraph.
pub open spec fn final_blocks(s: BuildModel) -> Seq<JsonSpec> {
    let d1 = if s.text.len() > 0 {
        s.doc.push(paragraph_of(seq![spec_text_node(s.text, s.marks)]))
    } else {
        s.doc
    };
    if d1.len() == 0 {
        d1.push(paragraph_of(Seq::empty()))
    } else {
        d1
    }
}

pub open spec fn doc_of(content: Seq<JsonSpec>) -> JsonSpec {
    JsonSpec::Object(seq![("type"@, JsonSpec::Str("doc"@)), ("content"@, JsonSpec::Array(content))])
}

/// The document that the parse events of `markdown` describe, with
/// standalone attachment links upgraded to attachment nodes.
pub open spec fn spec_events_to_document(
    markdown: Seq<char>,
    events: Seq<(MdEvent, usize, usize)>,
    scheme: Seq<char>,
) -> JsonSpec {
    let b = encode_utf8(markdown);
    doc_of(spec_upgrade_nodes(final_blocks(build_upto(b, scheme, events, events.len())), scheme, 0))
}


/// The events of a Markdown heading.
pub open spec fn heading_events(level: u8, t: String, r: (usize, usize, usize, usize, usize, usize)) -> Seq<
    (MdEvent, usize, usize),
> {
    seq![
        (MdEvent::Start(MdTag::Heading(level)), r.0, r.1),
        (MdEvent::Text(t), r.2, r.3),
        (MdEvent::End(MdTagEnd::Heading), r.4, r.5),
    ]
}

/// A heading keeps its level: the events of a heading of level `level`
/// holding text build a document whose one block is a `heading` whose
/// `level` attribute is `level`.
pub proof fn lemma_heading_level_read(
    markdown: Seq<char>,
    scheme: Seq<char>,
    level: u8,
    t: String,
    r: (usize, usize, usize, usize, usize, usize),
)
    ensures
        spec_events_to_document(markdown, heading_events(level, t, r), scheme).array_field("content"@) matches Some(
            c,
        ) && c.len() == 1 && c[0].node_type() == Some("heading"@) && c[0].attr("level"@) == Some(
            JsonSpec::PosInt(level as u64),
        ),
{
    reveal_strlit("type");
    reveal_strlit("content");
    reveal_strlit("attrs");
    reveal_strlit("level");
    reveal_strlit("looseAfter");
    reveal_strlit("heading");
    reveal_strlit("paragraph");
    reveal_strlit("doc");
    let b = encode_utf8(markdown);
    let evs = heading_events(level, t, r);
    let s0 = initial_build();
    let lv = single("level"@, JsonSpec::PosInt(level as u64));
    assert(build_upto(b, scheme, evs, 0) == s0);
    let s1 = build_upto(b, scheme, evs, 1);
    assert(s1 == md_step(b, scheme, s0, evs[0]));
    assert(flush_top(s0) == s0);
    let f = FrameModel {
        kind: FrameKind::Heading,
        content: Seq::empty(),
        attrs: Some(lv),
        loose_before: false,
        last_child_end: None,
    };
    assert(s1.stack =~= seq![f]);
    assert(s1.doc.len() == 0 && s1.text.len() == 0 && s1.marks.len() == 0);
    let s2 = build_upto(b, scheme, evs, 2);
    assert(s2 == md_step(b, scheme, s1, evs[1]));
    assert(!top_is_item(s1.stack));
    assert(loosen_inline(b, r.2 as int, s1) == s1);
    assert(alt_appended(s1.stack, t@) == (s1.stack, false));
    assert(s2.stack == s1.stack && s2.doc == s1.doc && s2.marks == s1.marks);
    let s3 = build_upto(b, scheme, evs, 3);
    assert(s3 == md_step(b, scheme, s2, evs[2]));
    assert(is_block_end(MdTagEnd::Heading));
    let node = closed_node(b, MdTagEnd::Heading, r.4 as int, r.5 as int, f, s2.text, s2.marks);
    assert(s2.stack.last() == f);
    assert(s2.stack.drop_last().len() == 0);
    assert(s3.doc =~= seq![node]);
    assert(s3.text.len() == 0);
    assert(final_blocks(s3) =~= seq![node]);
    // The node: its type, and its attributes holding the level.
    let a2 = if valid_range(b, r.4 as int, r.5 as int) && blank_line_behind(b, r.4 as int, r.5 as int, 0) {
        flag(Some(lv), "looseAfter"@)
    } else {
        Some(lv)
    };
    assert("level"@ != "looseAfter"@) by {
        assert("level"@.len() == 5 && "looseAfter"@.len() == 10);
    }
    assert(a2->Some_0.get("level"@) == Some(JsonSpec::PosInt(level as u64))) by {
        let es = seq![("level"@, JsonSpec::PosInt(level as u64))];
        if a2 != Some(lv) {
            assert(crate::json::first_key_index(es.drop_first(), "looseAfter"@) == 0);
            assert(crate::json::first_key_index(es, "looseAfter"@) == 1);
            let es2 = es.push(("looseAfter"@, JsonSpec::Bool(true)));
            assert(a2->Some_0 == JsonSpec::Object(es2));
            assert(es2[0].0 == "level"@);
        }
        assert(es[0].0 == "level"@);
    }
    let c0 = flushed(s2.text, s2.marks, f.content);
    let e0 = seq![("type"@, JsonSpec::Str("heading"@))];
    let e1 = if c0.len() > 0 {
        e0.push(("content"@, JsonSpec::Array(c0)))
    } else {
        e0
    };
    let e2 = e1.push(("attrs"@, a2->Some_0));
    assert(!is_item(FrameKind::Heading));
    assert(MdTagEnd::Heading != MdTagEnd::List(true));
    assert(node == JsonSpec::Object(e2));
    assert("type"@ != "attrs"@ && "content"@ != "attrs"@ && "type"@ != "content"@) by {
        assert("type"@.len() == 4 && "attrs"@.len() == 5 && "content"@.len() == 7);
    }
    assert(e2[0].0 == "type"@);
    assert(crate::json::entries_get(e2, "type"@) == Some(JsonSpec::Str("heading"@)));
    assert(crate::json::entries_get(e2, "attrs"@) == Some(a2->Some_0)) by {
        let last = seq![("attrs"@, a2->Some_0)];
        assert(last[0].0 == "attrs"@);
        assert(crate::json::entries_get(last, "attrs"@) == Some(a2->Some_0));
        assert(crate::json::entries_get(e2, "attrs"@) == crate::json::entries_get(e2.drop_first(), "attrs"@));
        if c0.len() > 0 {
            let d1 = e2.drop_first();
            assert(d1[0].0 == "content"@);
            assert(crate::json::entries_get(d1, "attrs"@) == crate::json::entries_get(d1.drop_first(), "attrs"@));
            assert(d1.drop_first() =~= last);
        } else {
            assert(e2.drop_first() =~= last);
        }
    }
    assert(node.node_type() == Some("heading"@));
    assert(node.attr("level"@) == Some(JsonSpec::PosInt(level as u64)));
    assert("heading"@ != "paragraph"@) by {
        assert("heading"@.len() == 7 && "paragraph"@.len() == 9);
    }
    crate::attachment::lemma_upgrade_keeps_members(node, scheme, 0, "type"@);
    crate::attachment::lemma_upgrade_keeps_members(node, scheme, 0, "attrs"@);
    let up = spec_upgrade_nodes(seq![node], scheme, 0);
    assert(up.len() == 1 && up[0] == crate::attachment::spec_upgrade_node(node, scheme, 0));
    let d = doc_of(up);
    let de = seq![("type"@, JsonSpec::Str("doc"@)), ("content"@, JsonSpec::Array(up))];
    assert(de[1].0 == "content"@ && de[0].0 == "type"@);
    assert(de.drop_first()[0] == de[1]);
    assert(crate::json::entries_get(de, "content"@) == crate::json::entries_get(de.drop_first(), "content"@));
    assert(crate::json::entries_get(de.drop_first(), "content"@) == Some(JsonSpec::Array(up)));
    assert(crate::json::entries_get(de, "content"@) == Some(JsonSpec::Array(up)));
    assert(d.array_field("content"@) == Some(up));
}

} // verus!
