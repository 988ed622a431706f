//! ProseMirror JSON to GitHub Flavored Markdown: block nodes, lists, tables
//! and block quotes, each function with the Markdown text it writes as its
//! model.

use vstd::prelude::*;
use crate::error::{depth_error, depth_exceeded, opt_cat, rendered, root_error, root_not_doc, ErrorSpec, ProseMirrorError};
use crate::json::{views, JsonSpec, JsonValue};
use crate::lines::{flat_map, lemma_flat_map_step, split_lines, split_lines_exec};
use crate::md_blocks::{backtick_delimiter, backtick_fence, continued_lines, escape_markdown_block_starts, escaped_block_starts, push_with_continuation_prefix};
use crate::md_escape::{escaped_label, link_destination, push_escaped_label, push_link_destination};
use crate::md_inline::{
    concat_scheme, inline_content_to_markdown, md_image, md_inline_content, md_run, push_repeated,
    push_str_chars, push_two, render_image_to_markdown, run_text, text_node_to_markdown,
};
use crate::strs::{chars_of, decimal, is_blank, push_decimal, str_eq, string_from_chars, trim, trim_end, trim_end_index};
use crate::MAX_DEPTH;

verus! {

/// The most padding a list item's continuation indent may ask for.
pub const MAX_LIST_CONTINUATION_PADDING: usize = 4096;

// ----- attributes -----

/// A boolean attribute that is present and true.
pub open spec fn attr_flag(node: JsonSpec, key: Seq<char>) -> bool {
    node.attr_bool(key) == Some(true)
}

fn attr_flag_exec(node: &JsonValue, key: &str) -> (r: bool)
    ensures
        r == attr_flag(node@, key@),
{
    match node.attr_bool(key) {
        Some(b) => b,
        None => false,
    }
}

/// The bullet a list's items start with: its `marker` attribute where that
/// is `*` or `+`, else `-`.
pub open spec fn bullet_marker(node: JsonSpec) -> Seq<char> {
    match node.attr_str("marker"@) {
        Some(m) => if m == "*"@ {
            "* "@
        } else if m == "+"@ {
            "+ "@
        } else {
            "- "@
        },
        None => "- "@,
    }
}

fn bullet_marker_exec(node: &JsonValue) -> (r: &'static str)
    ensures
        r@ == bullet_marker(node@),
{
    match node.attr_str("marker") {
        Some(m) => {
            if str_eq(m.as_str(), "*") {
                "* "
            } else if str_eq(m.as_str(), "+") {
                "+ "
            } else {
                "- "
            }
        },
        None => "- ",
    }
}

/// The indent of a list item's continuation lines: its
/// `continuationIndent` attribute less the prefix already written, at most
/// `MAX_LIST_CONTINUATION_PADDING`; `fallback` where there is none.
pub open spec fn spec_continuation_indent(node: JsonSpec, fallback: nat, prefix_len: nat) -> nat {
    match node.attr_u64("continuationIndent"@) {
        Some(v) => if v > usize::MAX {
            fallback
        } else {
            let d = if v >= prefix_len { (v - prefix_len) as nat } else { 0 };
            if d <= MAX_LIST_CONTINUATION_PADDING { d } else { MAX_LIST_CONTINUATION_PADDING as nat }
        },
        None => fallback,
    }
}

pub fn list_item_continuation_indent(node: &JsonValue, fallback: usize, prefix_len: usize) -> (r: usize)
    ensures
        r == spec_continuation_indent(node@, fallback as nat, prefix_len as nat),
{
    match node.attr_u64("continuationIndent") {
        Some(v) => {
            if v > usize::MAX as u64 {
                fallback
            } else {
                let value = v as usize;
                let d = if value >= prefix_len { value - prefix_len } else { 0 };
                if d <= MAX_LIST_CONTINUATION_PADDING { d } else { MAX_LIST_CONTINUATION_PADDING }
            }
        },
        None => fallback,
    }
}

/// The heading level to write: an integer `level` attribute clamped to
/// 1..=6, 1 where there is none.
pub open spec fn spec_heading_level(node: JsonSpec) -> int {
    match node.attr_i64_saturating("level"@) {
        Some(l) => if l < 1 { 1 } else if l > 6 { 6 } else { l as int },
        None => 1,
    }
}

pub fn heading_level(node: &JsonValue) -> (r: usize)
    ensures
        r == spec_heading_level(node@),
        1 <= r <= 6,
{
    match node.attr_i64_saturating("level") {
        Some(l) => {
            if l < 1 {
                1
            } else if l > 6 {
                6
            } else {
                l as usize
            }
        },
        None => 1,
    }
}

/// The number of an ordered-list item: the list's start, at least 1, plus
/// the item's index, saturating at `i64::MAX`.
pub open spec fn spec_item_number(start: i64, index: int) -> int {
    let s = if start < 1 { 1 } else { start as int };
    if s + index > i64::MAX { i64::MAX as int } else { s + index }
}

pub fn item_number(start: i64, index: usize) -> (r: u64)
    ensures
        r == spec_item_number(start, index as int),
{
    let s: i64 = if start < 1 { 1 } else { start };
    if index as u64 > (i64::MAX - s) as u64 {
        i64::MAX as u64
    } else {
        (s + index as i64) as u64
    }
}

/// A code block's info string: the first line of its `language` attribute,
/// or of `params` where there is no `language`, without backticks.
pub open spec fn fence_info(s: Seq<char>) -> Seq<char>
    decreases s.len(),
{
    if s.len() == 0 || s[0] == '\n' || s[0] == '\r' {
        Seq::empty()
    } else {
        (if s[0] == '`' { Seq::empty() } else { seq![s[0]] }) + fence_info(s.drop_first())
    }
}

pub open spec fn md_code_language(node: JsonSpec) -> Seq<char> {
    let v = match node.get("attrs"@) {
        Some(a) => match a.get("language"@) {
            Some(l) => Some(l),
            None => a.get("params"@),
        },
        None => None,
    };
    match v {
        Some(l) => match l.as_str() {
            Some(s) => fence_info(s),
            None => Seq::empty(),
        },
        None => Seq::empty(),
    }
}

fn code_language(node: &JsonValue) -> (r: Vec<char>)
    ensures
        r@ == md_code_language(node@),
{
    let lang_value = match node.get("attrs") {
        Some(a) => match a.get("language") {
            Some(l) => Some(l),
            None => a.get("params"),
        },
        None => None,
    };
    let lang = match lang_value {
        Some(l) => match l.as_str() {
            Some(s) => chars_of(s.as_str()),
            None => return Vec::new(),
        },
        None => return Vec::new(),
    };
    let mut out: Vec<char> = Vec::new();
    let mut i: usize = 0;
    assert(lang@.skip(0) =~= lang@);
    while i < lang.len() && lang[i] != '\n' && lang[i] != '\r'
        invariant
            i <= lang@.len(),
            fence_info(lang@) == out@ + fence_info(lang@.skip(i as int)),
        decreases lang.len() - i,
    {
        assert(lang@.skip(i as int).drop_first() =~= lang@.skip(i + 1));
        if lang[i] != '`' {
            out.push(lang[i]);
        }
        i += 1;
        assert(fence_info(lang@) =~= out@ + fence_info(lang@.skip(i as int)));
    }
    assert(fence_info(lang@.skip(i as int)) =~= Seq::<char>::empty());
    assert(out@ =~= fence_info(lang@));
    out
}

// ----- prefixed lines -----

/// Line `k` of `ps` under a prefix: blank lines bare, a line break after all
/// but the last, and nothing for an empty last line.
pub open spec fn prefixed_piece(ps: Seq<Seq<char>>, k: int, prefix: Seq<char>) -> Seq<char> {
    let last = k + 1 == ps.len();
    let p = ps[k];
    if last && p.len() == 0 {
        Seq::empty()
    } else {
        (if trim(p).len() == 0 {
            p
        } else {
            prefix + p
        }) + (if last {
            Seq::empty()
        } else {
            seq!['\n']
        })
    }
}

/// Line `k` of `ps` inside a block quote: `>` for a blank line, `> ` before
/// the others.
pub open spec fn quoted_piece(ps: Seq<Seq<char>>, k: int, prefix: Seq<char>) -> Seq<char> {
    let last = k + 1 == ps.len();
    let p = ps[k];
    if last && p.len() == 0 {
        Seq::empty()
    } else {
        prefix + (if trim(p).len() == 0 {
            seq!['>']
        } else {
            seq!['>', ' '] + p
        }) + (if last {
            Seq::empty()
        } else {
            seq!['\n']
        })
    }
}

pub open spec fn prefixed_upto(ps: Seq<Seq<char>>, n: int, prefix: Seq<char>, quoted: bool) -> Seq<char>
    decreases n,
{
    if n <= 0 {
        Seq::empty()
    } else {
        prefixed_upto(ps, n - 1, prefix, quoted) + if quoted {
            quoted_piece(ps, n - 1, prefix)
        } else {
            prefixed_piece(ps, n - 1, prefix)
        }
    }
}

/// Text with `prefix` before each line that is not blank.
pub open spec fn prefixed_lines(body: Seq<char>, prefix: Seq<char>) -> Seq<char> {
    prefixed_upto(split_lines(body), split_lines(body).len() as int, prefix, false)
}

/// Text inside a block quote: `prefix` and `>` before each line.
pub open spec fn quoted_lines(body: Seq<char>, prefix: Seq<char>) -> Seq<char> {
    prefixed_upto(split_lines(body), split_lines(body).len() as int, prefix, true)
}

fn push_prefixed(output: &mut String, body: &str, prefix: &str, quoted: bool)
    ensures
        final(output)@ == old(output)@ + prefixed_upto(split_lines(body@), split_lines(body@).len() as int, prefix@, quoted),
{
    let bc = chars_of(body);
    let pieces = split_lines_exec(bc.as_slice());
    let ghost ps = split_lines(body@);
    let ghost start = output@;
    let mut k: usize = 0;
    assert(start + prefixed_upto(ps, 0, prefix@, quoted) =~= start);
    while k < pieces.len()
        invariant
            k <= pieces@.len() == ps.len(),
            ps == split_lines(body@),
            bc@ == body@,
            forall|j: int| 0 <= j < pieces@.len() ==> #[trigger] pieces@[j]@ == ps[j],
            output@ == start + prefixed_upto(ps, k as int, prefix@, quoted),
        decreases pieces.len() - k,
    {
        let last = k + 1 == pieces.len();
        let piece = &pieces[k];
        assert(piece@ == ps[k as int]);
        if !(last && piece.len() == 0) {
            if quoted {
                output.append(prefix);
                if is_blank(piece.as_slice()) {
                    output.push('>');
                } else {
                    push_two(output, '>', ' ');
                    push_str_chars(output, piece.as_slice());
                }
            } else {
                if is_blank(piece.as_slice()) {
                    push_str_chars(output, piece.as_slice());
                } else {
                    output.append(prefix);
                    push_str_chars(output, piece.as_slice());
                }
            }
            if !last {
                output.push('\n');
            }
        }
        k += 1;
        assert(output@ =~= start + prefixed_upto(ps, k as int, prefix@, quoted));
    }
}

// ----- tables -----

/// `s` with each `|` written as `\|`, so it cannot split a table cell.
pub open spec fn pipe_escaped(s: Seq<char>) -> Seq<char> {
    flat_map(s, |c: char| if c == '|' { seq!['\\', '|'] } else { seq![c] })
}

pub fn push_pipe_escaped(output: &mut String, text: &str)
    ensures
        final(output)@ == old(output)@ + pipe_escaped(text@),
{
    let cs = chars_of(text);
    let ghost start = output@;
    let mut i: usize = 0;
    assert(start + pipe_escaped(cs@.take(0)) =~= start);
    while i < cs.len()
        invariant
            i <= cs@.len(),
            cs@ == text@,
            output@ == start + pipe_escaped(cs@.take(i as int)),
        decreases cs.len() - i,
    {
        proof {
            lemma_flat_map_step(cs@, |c: char| if c == '|' { seq!['\\', '|'] } else { seq![c] }, i as int);
        }
        if cs[i] == '|' {
            output.push('\\');
        }
        output.push(cs[i]);
        i += 1;
        assert(output@ =~= start + pipe_escaped(cs@.take(i as int)));
    }
    assert(cs@.take(i as int) =~= cs@);
}

/// Heading text, as written, stays on the heading's line.
pub proof fn lemma_heading_text_one_line(s: Seq<char>)
    ensures
        crate::md_escape::one_line_text(one_line(s)),
{
    crate::lines::lemma_flat_map_avoids(
        s,
        |c: char| if c == '\n' || c == '\r' { seq![' '] } else { seq![c] },
        |c: char| c == '\n' || c == '\r',
    );
}

/// Every `|` in escaped cell text follows a `\`, so none can split the cell.
pub proof fn lemma_pipes_escaped(s: Seq<char>)
    ensures
        forall|i: int| 0 <= i < pipe_escaped(s).len() && #[trigger] pipe_escaped(s)[i] == '|' ==> i > 0
            && pipe_escaped(s)[i - 1] == '\\',
    decreases s.len(),
{
    if s.len() > 0 {
        lemma_pipes_escaped(s.drop_last());
        let a = pipe_escaped(s.drop_last());
        let b = if s.last() == '|' { seq!['\\', '|'] } else { seq![s.last()] };
        assert(pipe_escaped(s) == a + b);
        assert forall|i: int| 0 <= i < (a + b).len() && #[trigger] (a + b)[i] == '|' implies i > 0 && (a + b)[i - 1] == '\\' by {
            if i < a.len() {
                assert((a + b)[i] == a[i]);
                assert((a + b)[i - 1] == a[i - 1]);
            } else {
                assert((a + b)[i] == b[i - a.len()]);
                if i - a.len() == 1 {
                    assert((a + b)[i - 1] == b[0]);
                }
            }
        }
    }
}

/// A table cell in a row: ` text |`, or ` |` for an empty one.
pub open spec fn md_cell(text: Seq<char>) -> Seq<char> {
    if text.len() == 0 {
        " |"@
    } else {
        seq![' '] + pipe_escaped(text) + " |"@
    }
}

pub open spec fn md_row_cells(cells: Seq<JsonSpec>, depth: int, scheme: Seq<char>) -> Option<Seq<char>>
    decreases cells.len(),
{
    if cells.len() == 0 {
        Some(Seq::empty())
    } else {
        opt_cat(
            md_row_cells(cells.drop_last(), depth, scheme),
            match md_inline_content(cells.last(), depth + 1, scheme) {
                Some(t) => Some(md_cell(t)),
                None => None,
            },
        )
    }
}

/// The separator cell for column `i`: its alignment, where the table's
/// `alignments` attribute names one.
pub open spec fn alignment_marker(alignments: Option<Seq<JsonSpec>>, i: int) -> Seq<char> {
    let a = match alignments {
        Some(v) => if 0 <= i < v.len() {
            v[i].as_str()
        } else {
            None
        },
        None => None,
    };
    match a {
        Some(s) => if s == "left"@ {
            " :--- |"@
        } else if s == "center"@ {
            " :---: |"@
        } else if s == "right"@ {
            " ---: |"@
        } else {
            " --- |"@
        },
        None => " --- |"@,
    }
}

pub open spec fn alignment_row(alignments: Option<Seq<JsonSpec>>, n: int) -> Seq<char>
    decreases n,
{
    if n <= 0 {
        Seq::empty()
    } else {
        alignment_row(alignments, n - 1) + alignment_marker(alignments, n - 1)
    }
}

/// A table row at nesting level `depth`; the first row is followed by the
/// separator row.
pub open spec fn md_table_row(row: JsonSpec, prefix: Seq<char>, is_first_row: bool, alignments: Option<Seq<JsonSpec>>, depth: int, scheme: Seq<char>) -> Option<Seq<char>> {
    if depth >= MAX_DEPTH {
        None
    } else {
        match row.array_field("content"@) {
            Some(cells) => match md_row_cells(cells, depth, scheme) {
                Some(cs) => Some(prefix + seq!['|'] + cs + seq!['\n'] + if is_first_row {
                    prefix + seq!['|'] + alignment_row(alignments, cells.len() as int) + seq!['\n']
                } else {
                    Seq::empty()
                }),
                None => None,
            },
            None => Some(Seq::empty()),
        }
    }
}

proof fn lemma_row_cells_none_extends(cs: Seq<JsonSpec>, depth: int, scheme: Seq<char>, k: int)
    requires
        0 <= k <= cs.len(),
        md_row_cells(cs.take(k), depth, scheme) is None,
    ensures
        md_row_cells(cs, depth, scheme) is None,
    decreases cs.len() - k,
{
    if k < cs.len() {
        assert(cs.take(k + 1).drop_last() =~= cs.take(k));
        lemma_row_cells_none_extends(cs, depth, scheme, k + 1);
    } else {
        assert(cs.take(k) =~= cs);
    }
}

fn alignment_marker_exec(alignments: Option<&Vec<JsonValue>>, i: usize) -> (r: &'static str)
    ensures
        r@ == alignment_marker(match alignments {
            Some(v) => Some(views(v@)),
            None => None,
        }, i as int),
{
    let alignment = match alignments {
        Some(values) => {
            if i < values.len() {
                values[i].as_str()
            } else {
                None
            }
        },
        None => None,
    };
    match alignment {
        Some(a) => {
            if str_eq(a.as_str(), "left") {
                " :--- |"
            } else if str_eq(a.as_str(), "center") {
                " :---: |"
            } else if str_eq(a.as_str(), "right") {
                " ---: |"
            } else {
                " --- |"
            }
        },
        None => " --- |",
    }
}

/// Writes a table row, `| a | b |`, with `|` in cell text escaped; the
/// separator row follows the first row.
fn table_row_to_markdown(
    row: &JsonValue,
    output: &mut String,
    prefix: &str,
    is_first_row: bool,
    alignments: Option<&Vec<JsonValue>>,
    depth: usize,
    scheme: &str,
) -> (r: Result<(), ProseMirrorError>)
    ensures
        rendered(r, old(output)@, final(output)@, md_table_row(row@, prefix@, is_first_row, match alignments {
            Some(v) => Some(views(v@)),
            None => None,
        }, depth as int, scheme@)),
{
    if depth >= MAX_DEPTH {
        return Err(depth_exceeded());
    }
    let ghost al = match alignments {
        Some(v) => Some(views(v@)),
        None => None::<Seq<JsonSpec>>,
    };
    let ghost start = output@;
    if let Some(cells) = row.array_field("content") {
        let ghost cs = views(cells@);
        output.append(prefix);
        output.push('|');
        let ghost mid = output@;
        let mut i: usize = 0;
        assert(cs.take(0) =~= Seq::<JsonSpec>::empty());
        assert(mid + Seq::<char>::empty() =~= mid);
        while i < cells.len()
            invariant
                i <= cells@.len() == cs.len(),
                cs == views(cells@),
                row@.array_field("content"@) == Some(cs),
                depth < MAX_DEPTH,
                md_row_cells(cs.take(i as int), depth as int, scheme@) matches Some(p) && output@ == mid + p,
            decreases cells.len() - i,
        {
            assert(cs.take(i + 1).drop_last() =~= cs.take(i as int));
            assert(cs.take(i + 1).last() == cells@[i as int]@);
            let mut rendered_cell = String::new();
            let r = inline_content_to_markdown(&cells[i], &mut rendered_cell, depth + 1, scheme);
            if r.is_err() {
                proof {
                    lemma_row_cells_none_extends(cs, depth as int, scheme@, i + 1);
                }
                return r;
            }
            assert(rendered_cell@ =~= md_inline_content(cells@[i as int]@, depth + 1, scheme@)->Some_0);
            let rc = chars_of(rendered_cell.as_str());
            if rc.len() == 0 {
                output.append(" |");
            } else {
                output.push(' ');
                push_pipe_escaped(output, rendered_cell.as_str());
                output.append(" |");
            }
            i += 1;
            assert(output@ =~= mid + md_row_cells(cs.take(i as int), depth as int, scheme@)->Some_0);
        }
        assert(cs.take(i as int) =~= cs);
        output.push('\n');
        if is_first_row {
            let ghost mid2 = output@;
            output.append(prefix);
            output.push('|');
            let ghost mid3 = output@;
            let mut k: usize = 0;
            assert(mid3 + alignment_row(al, 0) =~= mid3);
            while k < cells.len()
                invariant
                    k <= cells@.len(),
                    output@ == mid3 + alignment_row(al, k as int),
                    al == match alignments {
                        Some(v) => Some(views(v@)),
                        None => None::<Seq<JsonSpec>>,
                    },
                decreases cells.len() - k,
            {
                output.append(alignment_marker_exec(alignments, k));
                k += 1;
                assert(output@ =~= mid3 + alignment_row(al, k as int));
            }
            output.push('\n');
        }
        assert(output@ =~= start + md_table_row(row@, prefix@, is_first_row, al, depth as int, scheme@)->Some_0);
    } else {
        assert(output@ =~= start + Seq::<char>::empty());
    }
    Ok(())
}

// ----- blocks -----

/// The three list styles.
pub enum MdListStyle {
    Bullet,
    Ordered,
    Task,
}

/// What a list item has written so far: whether it is still on its first
/// line, whether the current line holds inline content, whether the last
/// child was a paragraph, and whether the last child asked for a blank line
/// after it.
pub struct ItemState {
    pub first_line: bool,
    pub inline: bool,
    pub prev_para: bool,
    pub prev_loose_after: bool,
}

pub open spec fn item_start() -> ItemState {
    ItemState { first_line: true, inline: false, prev_para: false, prev_loose_after: false }
}

/// The marker that starts item `index` of a list.
pub open spec fn md_list_marker(style: MdListStyle, list: JsonSpec, item: JsonSpec, index: int) -> Seq<char> {
    match style {
        MdListStyle::Bullet => bullet_marker(list),
        MdListStyle::Ordered => decimal(
            spec_item_number(
                match list.attr_i64_saturating("order"@) {
                    Some(o) => o,
                    None => 1,
                },
                index,
            ) as nat,
        ) + ". "@,
        MdListStyle::Task => if attr_flag(item, "checked"@) {
            "- [x] "@
        } else {
            "- [ ] "@
        },
    }
}

/// The continuation prefix of a list item: the list's prefix and enough
/// spaces to line up under the item's text.
pub open spec fn item_prefix(prefix: Seq<char>, item: JsonSpec, marker_len: nat) -> Seq<char> {
    prefix + Seq::new(spec_continuation_indent(item, marker_len, prefix.len()), |i: int| ' ')
}

/// What one child of a list item writes, and the state after it: a
/// paragraph goes on its own lines, inline nodes continue the current line,
/// other blocks start a new line; blank lines come from the loose flags.
pub open spec fn item_step(child: JsonSpec, item: JsonSpec, cont: Seq<char>, st: ItemState, depth: int, scheme: Seq<char>) -> Option<(Seq<char>, ItemState)>
    decreases MAX_DEPTH - depth, 0int, 0int,
{
    let t = child.node_type();
    if depth >= MAX_DEPTH {
        None
    } else if t == Some("paragraph"@) {
        let lead = if !st.first_line {
            (if st.prev_para || attr_flag(child, "looseBefore"@) || st.prev_loose_after {
                seq!['\n']
            } else {
                Seq::empty()
            }) + cont
        } else {
            Seq::empty()
        };
        match md_inline_content(child, depth + 1, scheme) {
            Some(p) => Some(
                (
                    lead + continued_lines(escaped_block_starts(p), cont) + seq!['\n'],
                    ItemState {
                        first_line: false,
                        inline: false,
                        prev_para: true,
                        prev_loose_after: attr_flag(child, "looseAfter"@),
                    },
                ),
            ),
            None => None,
        }
    } else if t == Some("text"@) || t == Some("hardBreak"@) || t == Some("hard_break"@) {
        let lead = if !st.first_line && !st.inline {
            (if attr_flag(item, "looseBeforeInline"@) || st.prev_loose_after {
                seq!['\n']
            } else {
                Seq::empty()
            }) + cont
        } else {
            Seq::empty()
        };
        match md_run(seq![child], 0, depth + 1, scheme) {
            Some(x) => Some(
                (lead + x, ItemState { first_line: false, inline: true, prev_para: false, prev_loose_after: false }),
            ),
            None => None,
        }
    } else {
        let lead = if st.first_line || st.inline || attr_flag(child, "looseBefore"@) {
            seq!['\n']
        } else {
            Seq::empty()
        };
        match md_node(child, cont, depth + 1, scheme) {
            Some(x) => Some(
                (
                    lead + x,
                    ItemState {
                        first_line: false,
                        inline: false,
                        prev_para: false,
                        prev_loose_after: attr_flag(child, "looseAfter"@),
                    },
                ),
            ),
            None => None,
        }
    }
}

pub open spec fn item_fold(children: Seq<JsonSpec>, item: JsonSpec, cont: Seq<char>, depth: int, scheme: Seq<char>) -> Option<(Seq<char>, ItemState)>
    decreases MAX_DEPTH - depth, 0int, children.len(),
{
    if children.len() == 0 {
        Some((Seq::empty(), item_start()))
    } else {
        match item_fold(children.drop_last(), item, cont, depth, scheme) {
            Some((out, st)) => match item_step(children.last(), item, cont, st, depth, scheme) {
                Some((x, st2)) => Some((out + x, st2)),
                None => None,
            },
            None => None,
        }
    }
}

/// The Markdown of a list item's content after its marker.
pub open spec fn md_item(item: JsonSpec, cont: Seq<char>, depth: int, scheme: Seq<char>) -> Option<Seq<char>>
    decreases MAX_DEPTH - depth, 1int, 0int,
{
    if depth >= MAX_DEPTH {
        None
    } else {
        match item.array_field("content"@) {
            Some(c) => match item_fold(c, item, cont, depth, scheme) {
                Some((out, st)) => Some(out + if st.first_line || st.inline {
                    seq!['\n']
                } else {
                    Seq::empty()
                }),
                None => None,
            },
            None => Some(Seq::empty()),
        }
    }
}

/// The first `n` items of a list, each after its marker, with a blank line
/// after a loose item that is not the last.
pub open spec fn md_list_upto(items: Seq<JsonSpec>, n: int, list: JsonSpec, prefix: Seq<char>, style: MdListStyle, depth: int, scheme: Seq<char>) -> Option<Seq<char>>
    decreases MAX_DEPTH - depth, 2int, n,
{
    if n <= 0 || depth >= MAX_DEPTH {
        if n <= 0 {
            Some(Seq::empty())
        } else {
            None
        }
    } else {
        let child = items[n - 1];
        let marker = md_list_marker(style, list, child, n - 1);
        let cont = item_prefix(prefix, child, marker.len());
        opt_cat(
            md_list_upto(items, n - 1, list, prefix, style, depth, scheme),
            match md_item(child, cont, depth + 1, scheme) {
                Some(x) => Some(prefix + marker + x + if n < items.len() && attr_flag(child, "looseAfter"@) {
                    seq!['\n']
                } else {
                    Seq::empty()
                }),
                None => None,
            },
        )
    }
}

/// The first `n` children of a block quote, each quoted, with a quoted
/// blank line between them.
pub open spec fn md_quote_upto(children: Seq<JsonSpec>, n: int, prefix: Seq<char>, depth: int, scheme: Seq<char>) -> Option<Seq<char>>
    decreases MAX_DEPTH - depth, 2int, n,
{
    if n <= 0 || depth >= MAX_DEPTH {
        if n <= 0 {
            Some(Seq::empty())
        } else {
            None
        }
    } else {
        opt_cat(
            md_quote_upto(children, n - 1, prefix, depth, scheme),
            match md_node(children[n - 1], Seq::empty(), depth + 1, scheme) {
                Some(x) => Some((if n > 1 {
                    prefix + ">\n"@
                } else {
                    Seq::empty()
                }) + quoted_lines(x, prefix)),
                None => None,
            },
        )
    }
}

/// The first `n` children of a node, one after another, at level `depth`.
pub open spec fn md_children_upto(children: Seq<JsonSpec>, n: int, prefix: Seq<char>, depth: int, scheme: Seq<char>) -> Option<Seq<char>>
    decreases MAX_DEPTH - depth, 4int, n,
{
    if n <= 0 {
        Some(Seq::empty())
    } else {
        opt_cat(md_children_upto(children, n - 1, prefix, depth, scheme), md_node(children[n - 1], prefix, depth, scheme))
    }
}

/// The first `n` rows of a table.
pub open spec fn md_rows_upto(rows: Seq<JsonSpec>, n: int, prefix: Seq<char>, alignments: Option<Seq<JsonSpec>>, depth: int, scheme: Seq<char>) -> Option<Seq<char>>
    decreases n,
{
    if n <= 0 {
        Some(Seq::empty())
    } else {
        opt_cat(md_rows_upto(rows, n - 1, prefix, alignments, depth, scheme), md_table_row(rows[n - 1], prefix, n == 1, alignments, depth + 1, scheme))
    }
}

/// A fenced code block: a fence longer than any run of backticks in the
/// code, the info string, the code, a line break where the code is not
/// empty and lacks a final one, and the closing fence.
pub open spec fn md_code_block(node: JsonSpec) -> Seq<char> {
    let code = match node.array_field("content"@) {
        Some(c) => run_text(c),
        None => Seq::empty(),
    };
    let fence = backtick_fence(code, 3);
    fence + md_code_language(node) + seq!['\n'] + code + (if code.len() == 0 || code.last() == '\n' {
        Seq::empty()
    } else {
        seq!['\n']
    }) + fence + seq!['\n']
}

/// Heading text on one line: line breaks as spaces.
pub open spec fn one_line(s: Seq<char>) -> Seq<char> {
    flat_map(s, |c: char| if c == '\n' || c == '\r' { seq![' '] } else { seq![c] })
}

/// The Markdown of a block node, with `prefix` before its lines, at nesting
/// level `depth`; none where some node lies `MAX_DEPTH` levels deep.
pub open spec fn md_node(node: JsonSpec, prefix: Seq<char>, depth: int, scheme: Seq<char>) -> Option<Seq<char>>
    decreases MAX_DEPTH - depth, 3int, 0int,
{
    let t = node.node_type();
    if depth >= MAX_DEPTH {
        None
    } else if t == Some("paragraph"@) {
        match md_inline_content(node, depth, scheme) {
            Some(p) => Some(prefix + escaped_block_starts(p) + seq!['\n']),
            None => None,
        }
    } else if t == Some("attachment"@) {
        let filename = match node.attr_str("filename"@) {
            Some(f) => f,
            None => "attachment"@,
        };
        match node.attr_str("attachmentId"@) {
            Some(id) => Some(prefix + seq!['['] + escaped_label(filename) + seq![']', '('] + link_destination(scheme + id)
                + seq![')', '\n']),
            None => Some(Seq::empty()),
        }
    } else if t == Some("heading"@) {
        match md_inline_content(node, depth, scheme) {
            Some(i) => Some(prefix + Seq::new(spec_heading_level(node) as nat, |k: int| '#') + seq![' '] + one_line(i)
                + seq!['\n']),
            None => None,
        }
    } else if t == Some("blockquote"@) {
        match node.array_field("content"@) {
            Some(c) => md_quote_upto(c, c.len() as int, prefix, depth, scheme),
            None => Some(Seq::empty()),
        }
    } else if t == Some("codeBlock"@) || t == Some("code_block"@) {
        Some(prefixed_lines(md_code_block(node), prefix))
    } else if t == Some("bulletList"@) || t == Some("bullet_list"@) || t == Some("orderedList"@) || t == Some(
        "ordered_list"@,
    ) || t == Some("taskList"@) || t == Some("task_list"@) {
        let style = if t == Some("bulletList"@) || t == Some("bullet_list"@) {
            MdListStyle::Bullet
        } else if t == Some("orderedList"@) || t == Some("ordered_list"@) {
            MdListStyle::Ordered
        } else {
            MdListStyle::Task
        };
        match node.array_field("content"@) {
            Some(c) => md_list_upto(c, c.len() as int, node, prefix, style, depth, scheme),
            None => Some(Seq::empty()),
        }
    } else if t == Some("horizontalRule"@) || t == Some("horizontal_rule"@) {
        Some(prefix + "---\n"@)
    } else if t == Some("table"@) {
        let alignments = match node.attr("alignments"@) {
            Some(a) => a.as_array(),
            None => None,
        };
        match node.array_field("content"@) {
            Some(rows) => md_rows_upto(rows, rows.len() as int, prefix, alignments, depth, scheme),
            None => Some(Seq::empty()),
        }
    } else if t == Some("hardBreak"@) || t == Some("hard_break"@) {
        Some("  \n"@)
    } else if t == Some("image"@) {
        match md_image(node, scheme) {
            Some(s) => Some(prefix + s + seq!['\n']),
            None => Some(Seq::empty()),
        }
    } else if t == Some("text"@) {
        md_run(seq![node], 0, depth, scheme)
    } else {
        match node.array_field("content"@) {
            Some(c) => md_children_upto(c, c.len() as int, prefix, depth + 1, scheme),
            None => Some(Seq::empty()),
        }
    }
}

/// The first `n` top-level blocks, separated by line breaks.
pub open spec fn md_top_upto(blocks: Seq<JsonSpec>, n: int, scheme: Seq<char>) -> Option<Seq<char>>
    decreases n,
{
    if n <= 0 {
        Some(Seq::empty())
    } else {
        opt_cat(
            md_top_upto(blocks, n - 1, scheme),
            match md_node(blocks[n - 1], Seq::empty(), 0, scheme) {
                Some(x) => Some((if n > 1 {
                    seq!['\n']
                } else {
                    Seq::empty()
                }) + x),
                None => None,
            },
        )
    }
}

/// What `prosemirror_to_markdown` gives for a document.
pub open spec fn spec_prosemirror_to_markdown(doc: JsonSpec, scheme: Seq<char>) -> Result<Seq<char>, ErrorSpec> {
    if doc.node_type() != Some("doc"@) {
        Err(root_error())
    } else {
        let blocks = match doc.array_field("content"@) {
            Some(c) => c,
            None => Seq::empty(),
        };
        match md_top_upto(blocks, blocks.len() as int, scheme) {
            Some(s) => Ok(trim_end(s)),
            None => Err(depth_error()),
        }
    }
}

// ----- rendering blocks -----

proof fn lemma_item_fold_none_extends(cs: Seq<JsonSpec>, item: JsonSpec, cont: Seq<char>, depth: int, scheme: Seq<char>, k: int)
    requires
        0 <= k <= cs.len(),
        item_fold(cs.take(k), item, cont, depth, scheme) is None,
    ensures
        item_fold(cs, item, cont, depth, scheme) is None,
    decreases cs.len() - k,
{
    if k < cs.len() {
        assert(cs.take(k + 1).drop_last() =~= cs.take(k));
        lemma_item_fold_none_extends(cs, item, cont, depth, scheme, k + 1);
    } else {
        assert(cs.take(k) =~= cs);
    }
}

proof fn lemma_list_none_extends(cs: Seq<JsonSpec>, list: JsonSpec, prefix: Seq<char>, style: MdListStyle, depth: int, scheme: Seq<char>, k: int)
    requires
        0 <= k <= cs.len(),
        md_list_upto(cs, k, list, prefix, style, depth, scheme) is None,
    ensures
        md_list_upto(cs, cs.len() as int, list, prefix, style, depth, scheme) is None,
    decreases cs.len() - k,
{
    if k < cs.len() {
        lemma_list_none_extends(cs, list, prefix, style, depth, scheme, k + 1);
    }
}

proof fn lemma_quote_none_extends(cs: Seq<JsonSpec>, prefix: Seq<char>, depth: int, scheme: Seq<char>, k: int)
    requires
        0 <= k <= cs.len(),
        md_quote_upto(cs, k, prefix, depth, scheme) is None,
    ensures
        md_quote_upto(cs, cs.len() as int, prefix, depth, scheme) is None,
    decreases cs.len() - k,
{
    if k < cs.len() {
        lemma_quote_none_extends(cs, prefix, depth, scheme, k + 1);
    }
}

proof fn lemma_children_none_extends(cs: Seq<JsonSpec>, prefix: Seq<char>, depth: int, scheme: Seq<char>, k: int)
    requires
        0 <= k <= cs.len(),
        md_children_upto(cs, k, prefix, depth, scheme) is None,
    ensures
        md_children_upto(cs, cs.len() as int, prefix, depth, scheme) is None,
    decreases cs.len() - k,
{
    if k < cs.len() {
        lemma_children_none_extends(cs, prefix, depth, scheme, k + 1);
    }
}

proof fn lemma_rows_none_extends(cs: Seq<JsonSpec>, prefix: Seq<char>, al: Option<Seq<JsonSpec>>, depth: int, scheme: Seq<char>, k: int)
    requires
        0 <= k <= cs.len(),
        md_rows_upto(cs, k, prefix, al, depth, scheme) is None,
    ensures
        md_rows_upto(cs, cs.len() as int, prefix, al, depth, scheme) is None,
    decreases cs.len() - k,
{
    if k < cs.len() {
        lemma_rows_none_extends(cs, prefix, al, depth, scheme, k + 1);
    }
}

proof fn lemma_top_none_extends(cs: Seq<JsonSpec>, scheme: Seq<char>, k: int)
    requires
        0 <= k <= cs.len(),
        md_top_upto(cs, k, scheme) is None,
    ensures
        md_top_upto(cs, cs.len() as int, scheme) is None,
    decreases cs.len() - k,
{
    if k < cs.len() {
        lemma_top_none_extends(cs, scheme, k + 1);
    }
}

/// Writes one child of a list item and gives the item's state after it.
#[verifier::rlimit(60)]
#[verifier::spinoff_prover]
fn item_child_to_markdown(
    child: &JsonValue,
    node: &JsonValue,
    output: &mut String,
    continuation_prefix: &str,
    prefix_chars: &Vec<char>,
    st: (bool, bool, bool, bool),
    depth: usize,
    scheme: &str,
) -> (r: Result<(bool, bool, bool, bool), ProseMirrorError>)
    requires
        depth < MAX_DEPTH,
        prefix_chars@ == continuation_prefix@,
    ensures
        match item_step(child@, node@, continuation_prefix@, ItemState { first_line: st.0, inline: st.1, prev_para: st.2, prev_loose_after: st.3 }, depth as int, scheme@) {
            Some((x, st2)) => r matches Ok(t) && t.0 == st2.first_line && t.1 == st2.inline && t.2 == st2.prev_para && t.3 == st2.prev_loose_after && final(output)@ == old(output)@ + x,
            None => r matches Err(e) && e@ == depth_error(),
        },
    decreases MAX_DEPTH - depth, 0int,
{
    let (first_line, line_has_inline_content, previous_is_paragraph, previous_block_loose_after) = st;
    let ghost start = output@;
    if child.has_type("paragraph") {
        if !first_line {
            if previous_is_paragraph || attr_flag_exec(child, "looseBefore") || previous_block_loose_after {
                output.push('\n');
            }
            output.append(continuation_prefix);
        }
        let mut paragraph = String::new();
        let r = inline_content_to_markdown(child, &mut paragraph, depth + 1, scheme);
        if r.is_err() {
            return Err(depth_exceeded());
        }
        let pc = chars_of(paragraph.as_str());
        assert(pc@ =~= md_inline_content(child@, depth + 1, scheme@)->Some_0);
        let escaped = escape_markdown_block_starts(pc.as_slice());
        push_with_continuation_prefix(output, escaped.as_slice(), prefix_chars.as_slice());
        output.push('\n');
        let loose_after = attr_flag_exec(child, "looseAfter");
        assert(output@ =~= start + item_step(child@, node@, continuation_prefix@, ItemState { first_line: st.0, inline: st.1, prev_para: st.2, prev_loose_after: st.3 }, depth as int, scheme@)->Some_0.0);
        Ok((false, false, true, loose_after))
    } else if child.has_type("text") || child.has_type("hardBreak") || child.has_type("hard_break") {
        if !first_line && !line_has_inline_content {
            if attr_flag_exec(node, "looseBeforeInline") || previous_block_loose_after {
                output.push('\n');
            }
            output.append(continuation_prefix);
        }
        let ghost mid = output@;
        let r = text_node_to_markdown(child, output, depth + 1, scheme);
        if r.is_err() {
            return Err(depth_exceeded());
        }
        assert(output@ =~= start + item_step(child@, node@, continuation_prefix@, ItemState { first_line: st.0, inline: st.1, prev_para: st.2, prev_loose_after: st.3 }, depth as int, scheme@)->Some_0.0);
        Ok((false, true, false, false))
    } else {
        if first_line || line_has_inline_content || attr_flag_exec(child, "looseBefore") {
            output.push('\n');
        }
        let r = node_to_markdown(child, output, continuation_prefix, depth + 1, scheme);
        if r.is_err() {
            return Err(depth_exceeded());
        }
        let loose_after = attr_flag_exec(child, "looseAfter");
        assert(output@ =~= start + item_step(child@, node@, continuation_prefix@, ItemState { first_line: st.0, inline: st.1, prev_para: st.2, prev_loose_after: st.3 }, depth as int, scheme@)->Some_0.0);
        Ok((false, false, false, loose_after))
    }
}

/// Writes the content of a list item after its marker: paragraphs on their
/// own lines, inline nodes continuing the current line, other blocks on new
/// lines, with blank lines where the item's loose flags ask for them.
fn list_item_to_markdown(node: &JsonValue, output: &mut String, continuation_prefix: &str, depth: usize, scheme: &str) -> (r: Result<(), ProseMirrorError>)
    ensures
        rendered(r, old(output)@, final(output)@, md_item(node@, continuation_prefix@, depth as int, scheme@)),
    decreases MAX_DEPTH - depth, 1int,
{
    if depth >= MAX_DEPTH {
        return Err(depth_exceeded());
    }
    let ghost start = output@;
    if let Some(content) = node.array_field("content") {
        let ghost cs = views(content@);
        let ghost cont = continuation_prefix@;
        let mut st: (bool, bool, bool, bool) = (true, false, false, false);
        let prefix_chars = chars_of(continuation_prefix);
        let ghost mut acc: Seq<char> = Seq::empty();
        let mut i: usize = 0;
        assert(cs.take(0) =~= Seq::<JsonSpec>::empty());
        assert(start + acc =~= start);
        while i < content.len()
            invariant
                i <= content@.len() == cs.len(),
                cs == views(content@),
                node@.array_field("content"@) == Some(cs),
                depth < MAX_DEPTH,
                prefix_chars@ == cont,
                cont == continuation_prefix@,
                output@ == start + acc,
                item_fold(cs.take(i as int), node@, cont, depth as int, scheme@) == Some(
                    (acc, ItemState { first_line: st.0, inline: st.1, prev_para: st.2, prev_loose_after: st.3 }),
                ),
            decreases content.len() - i,
        {
            let child = &content[i];
            assert(cs.take(i + 1).drop_last() =~= cs.take(i as int));
            assert(cs.take(i + 1).last() == child@);
            let ghost before = output@;
            match item_child_to_markdown(child, node, output, continuation_prefix, &prefix_chars, st, depth, scheme) {
                Ok(next) => {
                    st = next;
                },
                Err(e) => {
                    proof {
                        lemma_item_fold_none_extends(cs, node@, cont, depth as int, scheme@, i + 1);
                    }
                    return Err(e);
                },
            }
            proof {
                let piece = output@.subrange(before.len() as int, output@.len() as int);
                assert(output@ =~= start + (acc + piece));
                acc = acc + piece;
            }
            i += 1;
        }
        assert(cs.take(i as int) =~= cs);
        if st.0 || st.1 {
            output.push('\n');
        }
        assert(output@ =~= start + md_item(node@, continuation_prefix@, depth as int, scheme@)->Some_0);
    } else {
        assert(output@ =~= start + Seq::<char>::empty());
    }
    Ok(())
}

fn continuation_prefix(prefix: &str, indent: usize) -> (r: String)
    ensures
        r@ == prefix@ + Seq::new(indent as nat, |i: int| ' '),
{
    let mut s = String::new();
    s.append(prefix);
    push_repeated(&mut s, ' ', indent);
    s
}

fn push_list_marker(marker: &mut String, style: &MdListStyle, list: &JsonValue, item: &JsonValue, index: usize)
    requires
        old(marker)@.len() == 0,
    ensures
        final(marker)@ == md_list_marker(*style, list@, item@, index as int),
{
    match style {
        MdListStyle::Bullet => marker.append(bullet_marker_exec(list)),
        MdListStyle::Ordered => {
            let start: i64 = match list.attr_i64_saturating("order") {
                Some(o) => o,
                None => 1,
            };
            push_decimal(marker, item_number(start, index));
            marker.append(". ");
        },
        MdListStyle::Task => {
            if attr_flag_exec(item, "checked") {
                marker.append("- [x] ");
            } else {
                marker.append("- [ ] ");
            }
        },
    }
}

/// Writes the items of a list, each after its marker.
#[verifier::rlimit(60)]
#[verifier::spinoff_prover]
fn list_items_to_markdown(
    node: &JsonValue,
    content: &Vec<JsonValue>,
    output: &mut String,
    prefix: &str,
    style: MdListStyle,
    depth: usize,
    scheme: &str,
) -> (r: Result<(), ProseMirrorError>)
    requires
        depth < MAX_DEPTH,
    ensures
        rendered(r, old(output)@, final(output)@, md_list_upto(views(content@), content@.len() as int, node@, prefix@, style, depth as int, scheme@)),
    decreases MAX_DEPTH - depth, 2int,
{
    let ghost cs = views(content@);
    let ghost start = output@;
    let prefix_len = chars_of(prefix).len();
    let mut i: usize = 0;
    assert(start + Seq::<char>::empty() =~= start);
    while i < content.len()
        invariant
            i <= content@.len() == cs.len(),
            cs == views(content@),
            depth < MAX_DEPTH,
            prefix_len == prefix@.len(),
            md_list_upto(cs, i as int, node@, prefix@, style, depth as int, scheme@) matches Some(p) && output@ == start + p,
        decreases content.len() - i,
    {
        let child = &content[i];
        assert(cs[i as int] == child@);
        let mut marker = String::new();
        push_list_marker(&mut marker, &style, node, child, i);
        output.append(prefix);
        output.append(marker.as_str());
        let marker_len = chars_of(marker.as_str()).len();
        let indent = list_item_continuation_indent(child, marker_len, prefix_len);
        let cont = continuation_prefix(prefix, indent);
        assert(cont@ == item_prefix(prefix@, child@, marker@.len()));
        let ghost mid = output@;
        let r = list_item_to_markdown(child, output, cont.as_str(), depth + 1, scheme);
        if r.is_err() {
            proof {
                lemma_list_none_extends(cs, node@, prefix@, style, depth as int, scheme@, i + 1);
            }
            return r;
        }
        if i + 1 < content.len() && attr_flag_exec(child, "looseAfter") {
            output.push('\n');
        }
        i += 1;
        assert(output@ =~= start + md_list_upto(cs, i as int, node@, prefix@, style, depth as int, scheme@)->Some_0);
    }
    Ok(())
}

/// Writes the children of a block quote, each quoted.
fn quote_children_to_markdown(content: &Vec<JsonValue>, output: &mut String, prefix: &str, depth: usize, scheme: &str) -> (r: Result<(), ProseMirrorError>)
    requires
        depth < MAX_DEPTH,
    ensures
        rendered(r, old(output)@, final(output)@, md_quote_upto(views(content@), content@.len() as int, prefix@, depth as int, scheme@)),
    decreases MAX_DEPTH - depth, 2int,
{
    let ghost cs = views(content@);
    let ghost start = output@;
    let mut i: usize = 0;
    assert(start + Seq::<char>::empty() =~= start);
    proof {
        reveal_strlit("");
    }
    while i < content.len()
        invariant
            i <= content@.len() == cs.len(),
            cs == views(content@),
            depth < MAX_DEPTH,
            ""@ == Seq::<char>::empty(),
            md_quote_upto(cs, i as int, prefix@, depth as int, scheme@) matches Some(p) && output@ == start + p,
        decreases content.len() - i,
    {
        assert(cs[i as int] == content@[i as int]@);
        let ghost before = output@;
        if i > 0 {
            output.append(prefix);
            output.append(">\n");
        }
        let mut child_output = String::new();
        let r = node_to_markdown(&content[i], &mut child_output, "", depth + 1, scheme);
        if r.is_err() {
            proof {
                lemma_quote_none_extends(cs, prefix@, depth as int, scheme@, i + 1);
            }
            return r;
        }
        assert(child_output@ =~= md_node(cs[i as int], Seq::empty(), depth + 1, scheme@)->Some_0);
        push_prefixed(output, child_output.as_str(), prefix, true);
        i += 1;
        assert(output@ =~= start + md_quote_upto(cs, i as int, prefix@, depth as int, scheme@)->Some_0);
    }
    Ok(())
}

/// Writes children one after another at nesting level `depth`.
fn children_to_markdown(content: &Vec<JsonValue>, output: &mut String, prefix: &str, depth: usize, scheme: &str) -> (r: Result<(), ProseMirrorError>)
    ensures
        rendered(r, old(output)@, final(output)@, md_children_upto(views(content@), content@.len() as int, prefix@, depth as int, scheme@)),
    decreases MAX_DEPTH - depth, 4int,
{
    let ghost cs = views(content@);
    let ghost start = output@;
    let mut i: usize = 0;
    assert(start + Seq::<char>::empty() =~= start);
    while i < content.len()
        invariant
            i <= content@.len() == cs.len(),
            cs == views(content@),
            md_children_upto(cs, i as int, prefix@, depth as int, scheme@) matches Some(p) && output@ == start + p,
        decreases content.len() - i,
    {
        assert(cs[i as int] == content@[i as int]@);
        let r = node_to_markdown(&content[i], output, prefix, depth, scheme);
        if r.is_err() {
            proof {
                lemma_children_none_extends(cs, prefix@, depth as int, scheme@, i + 1);
            }
            return r;
        }
        i += 1;
        assert(output@ =~= start + md_children_upto(cs, i as int, prefix@, depth as int, scheme@)->Some_0);
    }
    Ok(())
}

/// Writes the rows of a table.
fn rows_to_markdown(rows: &Vec<JsonValue>, output: &mut String, prefix: &str, alignments: Option<&Vec<JsonValue>>, depth: usize, scheme: &str) -> (r: Result<(), ProseMirrorError>)
    ensures
        rendered(r, old(output)@, final(output)@, md_rows_upto(views(rows@), rows@.len() as int, prefix@, match alignments {
            Some(v) => Some(views(v@)),
            None => None,
        }, depth as int, scheme@)),
{
    let ghost cs = views(rows@);
    let ghost al = match alignments {
        Some(v) => Some(views(v@)),
        None => None::<Seq<JsonSpec>>,
    };
    let ghost start = output@;
    let mut i: usize = 0;
    assert(start + Seq::<char>::empty() =~= start);
    while i < rows.len()
        invariant
            i <= rows@.len() == cs.len(),
            cs == views(rows@),
            al == match alignments {
                Some(v) => Some(views(v@)),
                None => None::<Seq<JsonSpec>>,
            },
            md_rows_upto(cs, i as int, prefix@, al, depth as int, scheme@) matches Some(p) && output@ == start + p,
        decreases rows.len() - i,
    {
        assert(cs[i as int] == rows@[i as int]@);
        if depth == usize::MAX {
            proof {
                assert(md_table_row(cs[i as int], prefix@, i == 0, al, depth + 1, scheme@) is None);
                lemma_rows_none_extends(cs, prefix@, al, depth as int, scheme@, i + 1);
            }
            return Err(depth_exceeded());
        }
        let r = table_row_to_markdown(&rows[i], output, prefix, i == 0, alignments, depth + 1, scheme);
        if r.is_err() {
            proof {
                lemma_rows_none_extends(cs, prefix@, al, depth as int, scheme@, i + 1);
            }
            return r;
        }
        i += 1;
        assert(output@ =~= start + md_rows_upto(cs, i as int, prefix@, al, depth as int, scheme@)->Some_0);
    }
    Ok(())
}

fn code_block_to_markdown(node: &JsonValue, output: &mut String, prefix: &str)
    ensures
        final(output)@ == old(output)@ + prefixed_lines(md_code_block(node@), prefix@),
{
    let language = code_language(node);
    let mut code_text = String::new();
    if let Some(content) = node.array_field("content") {
        let ghost cs = views(content@);
        let mut i: usize = 0;
        assert(cs.take(0) =~= Seq::<JsonSpec>::empty());
        assert(code_text@ =~= run_text(cs.take(0)));
        while i < content.len()
            invariant
                i <= content@.len() == cs.len(),
                cs == views(content@),
                code_text@ == run_text(cs.take(i as int)),
            decreases content.len() - i,
        {
            assert(cs.take(i + 1).drop_last() =~= cs.take(i as int));
            assert(cs.take(i + 1).last() == content@[i as int]@);
            if let Some(text) = content[i].str_field("text") {
                code_text.append(text.as_str());
            }
            i += 1;
            assert(code_text@ =~= run_text(cs.take(i as int)));
        }
        assert(cs.take(i as int) =~= cs);
    }
    let cc = chars_of(code_text.as_str());
    let fence = backtick_delimiter(cc.as_slice(), 3);
    let mut body = String::new();
    body.append(fence.as_str());
    push_str_chars(&mut body, language.as_slice());
    body.push('\n');
    body.append(code_text.as_str());
    let n = cc.len();
    if n > 0 && cc[n - 1] != '\n' {
        body.push('\n');
    }
    body.append(fence.as_str());
    body.push('\n');
    assert(body@ =~= md_code_block(node@));
    push_prefixed(output, body.as_str(), prefix, false);
}

pub fn push_one_line(output: &mut String, text: &str)
    ensures
        final(output)@ == old(output)@ + one_line(text@),
{
    let ic = chars_of(text);
    let ghost start = output@;
    let mut j: usize = 0;
    assert(start + one_line(ic@.take(0)) =~= start);
    while j < ic.len()
        invariant
            j <= ic@.len(),
            ic@ == text@,
            output@ == start + one_line(ic@.take(j as int)),
        decreases ic.len() - j,
    {
        proof {
            lemma_flat_map_step(ic@, |c: char| if c == '\n' || c == '\r' { seq![' '] } else { seq![c] }, j as int);
        }
        if ic[j] == '\n' || ic[j] == '\r' {
            output.push(' ');
        } else {
            output.push(ic[j]);
        }
        j += 1;
        assert(output@ =~= start + one_line(ic@.take(j as int)));
    }
    assert(ic@.take(j as int) =~= ic@);
}

/// Writes one block node, with `prefix` before its lines. A node nested
/// `MAX_DEPTH` levels deep is refused.
#[verifier::rlimit(60)]
#[verifier::spinoff_prover]
fn node_to_markdown(node: &JsonValue, output: &mut String, prefix: &str, depth: usize, scheme: &str) -> (r: Result<(), ProseMirrorError>)
    ensures
        rendered(r, old(output)@, final(output)@, md_node(node@, prefix@, depth as int, scheme@)),
    decreases MAX_DEPTH - depth, 3int,
{
    if depth >= MAX_DEPTH {
        return Err(depth_exceeded());
    }
    let ghost start = output@;
    if node.has_type("paragraph") {
        output.append(prefix);
        let mut paragraph = String::new();
        let r = inline_content_to_markdown(node, &mut paragraph, depth, scheme);
        if r.is_err() {
            return r;
        }
        let pc = chars_of(paragraph.as_str());
        assert(pc@ =~= md_inline_content(node@, depth as int, scheme@)->Some_0);
        let escaped = escape_markdown_block_starts(pc.as_slice());
        push_str_chars(output, escaped.as_slice());
        output.push('\n');
    } else if node.has_type("attachment") {
        let filename = match node.attr_str("filename") {
            Some(f) => chars_of(f.as_str()),
            None => chars_of("attachment"),
        };
        if let Some(id) = node.attr_str("attachmentId") {
            output.append(prefix);
            output.push('[');
            push_escaped_label(output, filename.as_slice());
            push_two(output, ']', '(');
            let dest = concat_scheme(scheme, id.as_str());
            push_link_destination(output, dest.as_slice());
            push_two(output, ')', '\n');
        }
    } else if node.has_type("heading") {
        let level = heading_level(node);
        output.append(prefix);
        push_repeated(output, '#', level);
        output.push(' ');
        let mut inline = String::new();
        let r = inline_content_to_markdown(node, &mut inline, depth, scheme);
        if r.is_err() {
            return r;
        }
        push_one_line(output, inline.as_str());
        output.push('\n');
    } else if node.has_type("blockquote") {
        if let Some(content) = node.array_field("content") {
            let r = quote_children_to_markdown(content, output, prefix, depth, scheme);
            if r.is_err() {
                return r;
            }
        }
    } else if node.has_type("codeBlock") || node.has_type("code_block") {
        code_block_to_markdown(node, output, prefix);
    } else if node.has_type("bulletList") || node.has_type("bullet_list") || node.has_type("orderedList")
        || node.has_type("ordered_list") || node.has_type("taskList") || node.has_type("task_list") {
        let style = if node.has_type("bulletList") || node.has_type("bullet_list") {
            MdListStyle::Bullet
        } else if node.has_type("orderedList") || node.has_type("ordered_list") {
            MdListStyle::Ordered
        } else {
            MdListStyle::Task
        };
        if let Some(content) = node.array_field("content") {
            let r = list_items_to_markdown(node, content, output, prefix, style, depth, scheme);
            if r.is_err() {
                return r;
            }
        }
    } else if node.has_type("horizontalRule") || node.has_type("horizontal_rule") {
        output.append(prefix);
        output.append("---\n");
    } else if node.has_type("table") {
        if let Some(rows) = node.array_field("content") {
            let alignments = match node.attr("alignments") {
                Some(a) => a.as_array(),
                None => None,
            };
            let r = rows_to_markdown(rows, output, prefix, alignments, depth, scheme);
            if r.is_err() {
                return r;
            }
        }
    } else if node.has_type("hardBreak") || node.has_type("hard_break") {
        output.append("  \n");
    } else if node.has_type("image") {
        let mut image = String::new();
        if render_image_to_markdown(node, &mut image, scheme) {
            output.append(prefix);
            output.append(image.as_str());
            output.push('\n');
        }
    } else if node.has_type("text") {
        return text_node_to_markdown(node, output, depth, scheme);
    } else {
        if let Some(content) = node.array_field("content") {
            let r = children_to_markdown(content, output, prefix, depth + 1, scheme);
            if r.is_err() {
                return r;
            }
        }
    }
    assert(output@ =~= start + md_node(node@, prefix@, depth as int, scheme@)->Some_0);
    Ok(())
}

/// Converts a document to GitHub Flavored Markdown. The root must be a
/// `doc`; a document nested `MAX_DEPTH` levels deep is refused. Link and
/// image destinations are escaped so they cannot break out of Markdown link
/// syntax, but their URL scheme is kept as it is.
#[verifier::loop_isolation(false)]
pub fn prosemirror_to_markdown(doc: &JsonValue, attachment_uri_scheme: &str) -> (r: Result<String, ProseMirrorError>)
    ensures
        match spec_prosemirror_to_markdown(doc@, attachment_uri_scheme@) {
            Ok(s) => r matches Ok(t) && t@ == s,
            Err(e) => r matches Err(f) && f@ == e,
        },
{
    if !doc.has_type("doc") {
        return Err(root_not_doc());
    }
    let mut output = String::new();
    let empty: Vec<JsonValue> = Vec::new();
    let content = match doc.array_field("content") {
        Some(c) => c,
        None => &empty,
    };
    let ghost cs = views(content@);
    assert(cs == match doc@.array_field("content"@) {
        Some(c) => c,
        None => Seq::<JsonSpec>::empty(),
    });
    let mut i: usize = 0;
    proof {
        reveal_strlit("");
    }
    while i < content.len()
        invariant
            i <= content@.len() == cs.len(),
            cs == views(content@),
            ""@ == Seq::<char>::empty(),
            md_top_upto(cs, i as int, attachment_uri_scheme@) matches Some(p) && output@ == p,
        decreases content.len() - i,
    {
        assert(cs[i as int] == content@[i as int]@);
        if i > 0 {
            output.push('\n');
        }
        let r = node_to_markdown(&content[i], &mut output, "", 0, attachment_uri_scheme);
        if r.is_err() {
            proof {
                lemma_top_none_extends(cs, attachment_uri_scheme@, i + 1);
            }
            return Err(depth_exceeded());
        }
        i += 1;
        assert(output@ =~= md_top_upto(cs, i as int, attachment_uri_scheme@)->Some_0);
    }
    let oc = chars_of(output.as_str());
    let j = trim_end_index(oc.as_slice());
    assert(oc@.take(j as int) =~= oc@.subrange(0, j as int));
    Ok(string_from_chars(&oc.as_slice()[0..j]))
}

/// An exported document has no trailing whitespace.
pub proof fn lemma_markdown_output_trimmed(doc: JsonSpec, scheme: Seq<char>)
    ensures
        spec_prosemirror_to_markdown(doc, scheme) matches Ok(s) ==> trim_end(s) == s,
{
    if spec_prosemirror_to_markdown(doc, scheme) is Ok {
        let blocks = match doc.array_field("content"@) {
            Some(c) => c,
            None => Seq::empty(),
        };
        crate::strs::lemma_trim_end_idempotent(md_top_upto(blocks, blocks.len() as int, scheme)->Some_0);
    }
}

} // verus!
