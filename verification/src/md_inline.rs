//! Inline content to Markdown: runs of text, marks, links, code spans and
//! images, each function with the Markdown text it writes as its model.

use vstd::prelude::*;
use crate::error::{depth_exceeded, opt_cat, rendered, ProseMirrorError};
use crate::json::{views, JsonSpec, JsonValue};
use crate::md_blocks::{backtick_delimiter, backtick_fence};
use crate::md_escape::{
    escaped_label, escaped_markdown_text, is_autolink_href, link_destination, markdown_title,
    push_escaped_label, push_escaped_markdown_text, push_link_destination, push_markdown_title,
    spec_is_autolink_href,
};
use crate::strs::{chars_of, is_ws, leading_ws_len, str_eq, string_from_chars, trim, trim_start};
use crate::MAX_DEPTH;

verus! {

pub fn push_str_chars(output: &mut String, v: &[char])
    ensures
        final(output)@ == old(output)@ + v@,
{
    output.append(string_from_chars(v).as_str());
}

pub fn push_two(output: &mut String, a: char, b: char)
    ensures
        final(output)@ == old(output)@ + seq![a, b],
{
    output.push(a);
    output.push(b);
    assert(output@ =~= old(output)@ + seq![a, b]);
}

pub fn push_repeated(output: &mut String, c: char, n: usize)
    ensures
        final(output)@ == old(output)@ + Seq::new(n as nat, |i: int| c),
{
    let ghost start = output@;
    let mut i: usize = 0;
    assert(start + Seq::new(0, |j: int| c) =~= start);
    while i < n
        invariant
            i <= n,
            output@ == start + Seq::new(i as nat, |j: int| c),
        decreases n - i,
    {
        output.push(c);
        i += 1;
        assert(output@ =~= start + Seq::new(i as nat, |j: int| c));
    }
}

/// The mark at index `idx` of a node's `marks`.
pub open spec fn spec_mark_at(node: JsonSpec, idx: int) -> Option<JsonSpec> {
    match node.array_field("marks"@) {
        Some(ms) => if 0 <= idx < ms.len() {
            Some(ms[idx])
        } else {
            None
        },
        None => None,
    }
}

pub fn mark_at(node: &JsonValue, idx: usize) -> (r: Option<&JsonValue>)
    ensures
        match r {
            Some(m) => spec_mark_at(node@, idx as int) == Some(m@),
            None => spec_mark_at(node@, idx as int) is None,
        },
{
    match node.array_field("marks") {
        Some(marks) => {
            if idx < marks.len() {
                Some(&marks[idx])
            } else {
                None
            }
        },
        None => None,
    }
}

// ----- images -----

/// The Markdown image an image node writes: `![alt](destination "title")`,
/// with an attachment id as a URI under the scheme; none where the node has
/// neither an attachment id nor a source.
pub open spec fn md_image(node: JsonSpec, scheme: Seq<char>) -> Option<Seq<char>> {
    let alt = match node.attr_str("alt"@) {
        Some(a) => a,
        None => Seq::empty(),
    };
    let title = match node.attr_str("title"@) {
        Some(t) => if t.len() > 0 {
            markdown_title(t)
        } else {
            Seq::empty()
        },
        None => Seq::empty(),
    };
    let dest = match node.attr_str("attachmentId"@) {
        Some(id) => Some(scheme + id),
        None => node.attr_str("src"@),
    };
    match dest {
        Some(d) => Some(seq!['!', '['] + escaped_label(alt) + seq![']', '('] + link_destination(d) + title
            + seq![')']),
        None => None,
    }
}

pub fn concat_scheme(scheme: &str, id: &str) -> (r: Vec<char>)
    ensures
        r@ == scheme@ + id@,
{
    let mut v = chars_of(scheme);
    let w = chars_of(id);
    let mut i: usize = 0;
    let ghost start = v@;
    while i < w.len()
        invariant
            i <= w@.len(),
            v@ == start + w@.take(i as int),
        decreases w.len() - i,
    {
        v.push(w[i]);
        i += 1;
        assert(v@ =~= start + w@.take(i as int));
    }
    assert(w@.take(i as int) =~= w@);
    v
}

fn push_title_of(output: &mut String, node: &JsonValue)
    ensures
        final(output)@ == old(output)@ + match node@.attr_str("title"@) {
            Some(t) => if t.len() > 0 {
                markdown_title(t)
            } else {
                Seq::empty()
            },
            None => Seq::empty(),
        },
{
    match node.attr_str("title") {
        Some(t) => {
            let tc = chars_of(t.as_str());
            if tc.len() > 0 {
                push_markdown_title(output, Some(tc.as_slice()));
            } else {
                push_markdown_title(output, None);
            }
        },
        None => push_markdown_title(output, None),
    }
}

/// Writes an image node as a Markdown image; whether it had a target.
pub fn render_image_to_markdown(node: &JsonValue, output: &mut String, scheme: &str) -> (r: bool)
    ensures
        r == md_image(node@, scheme@) is Some,
        final(output)@ == old(output)@ + match md_image(node@, scheme@) {
            Some(s) => s,
            None => Seq::empty(),
        },
{
    let alt = match node.attr_str("alt") {
        Some(a) => chars_of(a.as_str()),
        None => Vec::new(),
    };
    let dest = if let Some(id) = node.attr_str("attachmentId") {
        concat_scheme(scheme, id.as_str())
    } else if let Some(src) = node.attr_str("src") {
        chars_of(src.as_str())
    } else {
        assert(old(output)@ + Seq::<char>::empty() =~= output@);
        return false;
    };
    let ghost start = output@;
    push_two(output, '!', '[');
    push_escaped_label(output, alt.as_slice());
    push_two(output, ']', '(');
    push_link_destination(output, dest.as_slice());
    push_title_of(output, node);
    output.push(')');
    assert(output@ =~= start + md_image(node@, scheme@)->Some_0);
    true
}

// ----- plain text inside code and links -----

/// The text of inline nodes with their marks dropped: text, line breaks,
/// and the text inside other nodes, descending at most to `MAX_DEPTH`.
pub open spec fn md_plain(nodes: Seq<JsonSpec>, depth: int) -> Option<Seq<char>>
    decreases MAX_DEPTH - depth, nodes.len(),
{
    if depth >= MAX_DEPTH {
        None
    } else if nodes.len() == 0 {
        Some(Seq::empty())
    } else {
        let n = nodes.last();
        let piece = if n.node_type() == Some("text"@) {
            Some(
                match n.str_field("text"@) {
                    Some(t) => t,
                    None => Seq::empty(),
                },
            )
        } else if n.node_type() == Some("hardBreak"@) || n.node_type() == Some("hard_break"@) {
            Some(seq!['\n'])
        } else {
            match n.array_field("content"@) {
                Some(c) => md_plain(c, depth + 1),
                None => Some(Seq::empty()),
            }
        };
        opt_cat(md_plain(nodes.drop_last(), depth), piece)
    }
}

proof fn lemma_opt_cat_assoc(a: Option<Seq<char>>, b: Option<Seq<char>>, c: Option<Seq<char>>)
    ensures
        opt_cat(opt_cat(a, b), c) == opt_cat(a, opt_cat(b, c)),
{
    if a is Some && b is Some && c is Some {
        assert(a->Some_0 + b->Some_0 + c->Some_0 =~= a->Some_0 + (b->Some_0 + c->Some_0));
    }
}

proof fn lemma_md_plain_none_extends(vs: Seq<JsonSpec>, depth: int, k: int)
    requires
        0 <= k <= vs.len(),
        md_plain(vs.take(k), depth) is None,
    ensures
        md_plain(vs, depth) is None,
    decreases vs.len() - k,
{
    if k < vs.len() {
        assert(vs.take(k + 1).drop_last() =~= vs.take(k));
        lemma_md_plain_none_extends(vs, depth, k + 1);
    } else {
        assert(vs.take(k) =~= vs);
    }
}

pub fn render_inline_plain_text(nodes: &[JsonValue], output: &mut String, depth: usize) -> (r: Result<(), ProseMirrorError>)
    ensures
        rendered(r, old(output)@, final(output)@, md_plain(views(nodes@), depth as int)),
    decreases MAX_DEPTH - depth,
{
    if depth >= MAX_DEPTH {
        return Err(depth_exceeded());
    }
    let ghost vs = views(nodes@);
    let ghost start = output@;
    let mut i: usize = 0;
    assert(vs.take(0) =~= Seq::<JsonSpec>::empty());
    assert(start + Seq::<char>::empty() =~= start);
    while i < nodes.len()
        invariant
            i <= nodes@.len() == vs.len(),
            vs == views(nodes@),
            depth < MAX_DEPTH,
            md_plain(vs.take(i as int), depth as int) matches Some(p) && output@ == start + p,
        decreases nodes.len() - i,
    {
        let node = &nodes[i];
        assert(vs.take(i + 1).drop_last() =~= vs.take(i as int));
        assert(vs.take(i + 1).last() == node@);
        let ghost before = output@;
        if node.has_type("text") {
            if let Some(text) = node.str_field("text") {
                output.append(text.as_str());
            } else {
                assert(output@ =~= before + Seq::<char>::empty());
            }
        } else if node.has_type("hardBreak") || node.has_type("hard_break") {
            output.push('\n');
        } else if let Some(content) = node.array_field("content") {
            let r = render_inline_plain_text(content.as_slice(), output, depth + 1);
            if r.is_err() {
                proof {
                    lemma_md_plain_none_extends(vs, depth as int, i + 1);
                }
                return r;
            }
        } else {
            assert(output@ =~= before + Seq::<char>::empty());
        }
        i += 1;
        assert(output@ =~= start + md_plain(vs.take(i as int), depth as int)->Some_0);
    }
    assert(vs.take(i as int) =~= vs);
    Ok(())
}

// ----- marks -----

/// A code span: its text between backtick fences one longer than its
/// longest run of backticks, padded with spaces where it starts or ends with
/// a backtick or a space.
pub open spec fn code_span(inner: Seq<char>) -> Seq<char> {
    let d = backtick_fence(inner, 1);
    let n = inner.len();
    if n > 0 && (inner[0] == '`' || inner[0] == ' ' || inner[n - 1] == '`' || inner[n - 1] == ' ') {
        d + seq![' '] + inner + seq![' '] + d
    } else {
        d + inner + d
    }
}

/// Emphasis around text, with the text's leading and trailing whitespace
/// moved outside the delimiters; whitespace-only text is left bare.
pub open spec fn expel_whitespace(open: Seq<char>, close: Seq<char>, inner: Seq<char>) -> Seq<char> {
    let core = trim(inner);
    if core.len() == 0 {
        inner
    } else {
        let lead = leading_ws_len(inner) as int;
        inner.take(lead) + open + core + close + inner.skip(lead + core.len())
    }
}

/// How many leading nodes carry `m` as their mark at index `skip`.
pub open spec fn marked_run_len(nodes: Seq<JsonSpec>, skip: int, m: JsonSpec) -> nat
    decreases nodes.len(),
{
    if nodes.len() > 0 && spec_mark_at(nodes[0], skip) == Some(m) {
        1 + marked_run_len(nodes.drop_first(), skip, m)
    } else {
        0
    }
}

/// How many leading nodes are text nodes with no mark at index `skip`.
pub open spec fn text_run_len(nodes: Seq<JsonSpec>, skip: int) -> nat
    decreases nodes.len(),
{
    if nodes.len() > 0 && spec_mark_at(nodes[0], skip) is None && nodes[0].node_type() == Some("text"@) {
        1 + text_run_len(nodes.drop_first(), skip)
    } else {
        0
    }
}

/// The text of a run of text nodes, joined.
pub open spec fn run_text(nodes: Seq<JsonSpec>) -> Seq<char>
    decreases nodes.len(),
{
    if nodes.len() == 0 {
        Seq::empty()
    } else {
        run_text(nodes.drop_last()) + match nodes.last().str_field("text"@) {
            Some(t) => t,
            None => Seq::empty(),
        }
    }
}

pub proof fn lemma_run_lens_bounded(nodes: Seq<JsonSpec>, skip: int, m: JsonSpec)
    ensures
        marked_run_len(nodes, skip, m) <= nodes.len(),
        text_run_len(nodes, skip) <= nodes.len(),
    decreases nodes.len(),
{
    if nodes.len() > 0 {
        lemma_run_lens_bounded(nodes.drop_first(), skip, m);
    }
}

/// A link mark's `href`, or the empty string.
pub open spec fn link_href(mark: JsonSpec) -> Seq<char> {
    match mark.attr_str("href"@) {
        Some(h) => h,
        None => Seq::empty(),
    }
}

/// A link mark's title, where it has a non-empty one.
pub open spec fn link_title(mark: JsonSpec) -> Option<Seq<char>> {
    match mark.attr_str("title"@) {
        Some(t) => if t.len() > 0 {
            Some(t)
        } else {
            None
        },
        None => None,
    }
}

/// The Markdown of a run of nodes that share the mark `mark`, with the marks
/// after index `skip - 1` still to write.
pub open spec fn md_marked(mark: JsonSpec, nodes: Seq<JsonSpec>, skip: int, depth: int, scheme: Seq<char>) -> Option<Seq<char>>
    decreases MAX_DEPTH - depth, 2int, 0int,
{
    let t = mark.node_type();
    if t == Some("bold"@) || t == Some("strong"@) {
        match md_run(nodes, skip, depth, scheme) {
            Some(i) => Some(expel_whitespace("**"@, "**"@, i)),
            None => None,
        }
    } else if t == Some("italic"@) || t == Some("em"@) {
        match md_run(nodes, skip, depth, scheme) {
            Some(i) => Some(expel_whitespace("*"@, "*"@, i)),
            None => None,
        }
    } else if t == Some("code"@) {
        match md_plain(nodes, depth) {
            Some(i) => Some(code_span(i)),
            None => None,
        }
    } else if t == Some("strike"@) || t == Some("strikethrough"@) {
        match md_run(nodes, skip, depth, scheme) {
            Some(i) => Some("~~"@ + i + "~~"@),
            None => None,
        }
    } else if t == Some("underline"@) {
        match md_run(nodes, skip, depth, scheme) {
            Some(i) => Some("<u>"@ + i + "</u>"@),
            None => None,
        }
    } else if t == Some("link"@) {
        let href = link_href(mark);
        match md_plain(nodes, depth) {
            Some(raw) => if link_title(mark) is None && raw == href && spec_is_autolink_href(href) {
                Some(seq!['<'] + href + seq!['>'])
            } else {
                match md_run(nodes, skip, depth, scheme) {
                    Some(inner) => Some(seq!['['] + inner + seq![']', '('] + link_destination(href) + match link_title(mark) {
                        Some(tt) => markdown_title(tt),
                        None => Seq::empty(),
                    } + seq![')']),
                    None => None,
                }
            },
            None => None,
        }
    } else {
        md_run(nodes, skip, depth, scheme)
    }
}

/// The Markdown of inline nodes with the marks before index `skip` already
/// written: runs of nodes that share their next mark are written inside that
/// mark, runs of unmarked text are joined and escaped.
pub open spec fn md_run(nodes: Seq<JsonSpec>, skip: int, depth: int, scheme: Seq<char>) -> Option<Seq<char>>
    decreases MAX_DEPTH - depth, 1int, nodes.len(),
{
    if depth >= MAX_DEPTH {
        None
    } else if nodes.len() == 0 {
        Some(Seq::empty())
    } else {
        match spec_mark_at(nodes[0], skip) {
            Some(m) => {
                let j = marked_run_len(nodes, skip, m) as int;
                proof {
                    lemma_run_lens_bounded(nodes, skip, m);
                }
                if skip >= usize::MAX {
                    None
                } else {
                    opt_cat(md_marked(m, nodes.take(j), skip + 1, depth + 1, scheme), md_run(nodes.skip(j), skip, depth, scheme))
                }
            },
            None => if nodes[0].node_type() == Some("text"@) {
                let j = text_run_len(nodes, skip) as int;
                proof {
                    lemma_run_lens_bounded(nodes, skip, nodes[0]);
                }
                opt_cat(Some(escaped_markdown_text(run_text(nodes.take(j)))), md_run(nodes.skip(j), skip, depth, scheme))
            } else {
                opt_cat(md_unmarked(nodes[0], depth, scheme), md_run(nodes.skip(1), skip, depth, scheme))
            },
        }
    }
}

/// The Markdown of one inline node with no mark left to write.
pub open spec fn md_unmarked(node: JsonSpec, depth: int, scheme: Seq<char>) -> Option<Seq<char>>
    decreases MAX_DEPTH - depth, 0int, 0int,
{
    let t = node.node_type();
    if depth >= MAX_DEPTH {
        None
    } else if t == Some("hardBreak"@) || t == Some("hard_break"@) {
        Some("  \n"@)
    } else if t == Some("image"@) {
        Some(
            match md_image(node, scheme) {
                Some(s) => s,
                None => Seq::empty(),
            },
        )
    } else if t != Some("text"@) {
        match node.array_field("content"@) {
            Some(c) => md_run(c, 0, depth + 1, scheme),
            None => Some(Seq::empty()),
        }
    } else {
        Some(
            escaped_markdown_text(
                match node.str_field("text"@) {
                    Some(s) => s,
                    None => Seq::empty(),
                },
            ),
        )
    }
}

/// The Markdown of a node's inline `content`, one level further down.
pub open spec fn md_inline_content(node: JsonSpec, depth: int, scheme: Seq<char>) -> Option<Seq<char>> {
    match node.array_field("content"@) {
        Some(c) => if depth >= MAX_DEPTH - 1 {
            None
        } else {
            md_run(c, 0, depth + 1, scheme)
        },
        None => Some(Seq::empty()),
    }
}

// ----- rendering -----

fn same_mark(a: Option<&JsonValue>, b: &JsonValue) -> (r: bool)
    ensures
        r == (a matches Some(m) && m@ == b@),
{
    match a {
        Some(m) => m.json_eq(b),
        None => false,
    }
}

proof fn lemma_marked_run_exact(s: Seq<JsonSpec>, skip: int, m: JsonSpec, n: int)
    requires
        0 <= n <= s.len(),
        forall|k: int| 0 <= k < n ==> #[trigger] spec_mark_at(s[k], skip) == Some(m),
        n == s.len() || spec_mark_at(s[n], skip) != Some(m),
    ensures
        marked_run_len(s, skip, m) == n,
    decreases n,
{
    if n > 0 {
        assert forall|k: int| 0 <= k < n - 1 implies #[trigger] spec_mark_at(s.drop_first()[k], skip) == Some(m) by {
            assert(s.drop_first()[k] == s[k + 1]);
        }
        lemma_marked_run_exact(s.drop_first(), skip, m, n - 1);
    }
}

proof fn lemma_text_run_exact(s: Seq<JsonSpec>, skip: int, n: int)
    requires
        0 <= n <= s.len(),
        forall|k: int|
            0 <= k < n ==> #[trigger] spec_mark_at(s[k], skip) is None && s[k].node_type() == Some("text"@),
        n == s.len() || !(spec_mark_at(s[n], skip) is None && s[n].node_type() == Some("text"@)),
    ensures
        text_run_len(s, skip) == n,
    decreases n,
{
    if n > 0 {
        assert forall|k: int| 0 <= k < n - 1 implies #[trigger] spec_mark_at(s.drop_first()[k], skip) is None
            && s.drop_first()[k].node_type() == Some("text"@) by {
            assert(s.drop_first()[k] == s[k + 1]);
        }
        lemma_text_run_exact(s.drop_first(), skip, n - 1);
    }
}

/// Writes a code span of the nodes' plain text.
pub fn render_code_mark(nodes: &[JsonValue], output: &mut String, depth: usize) -> (r: Result<(), ProseMirrorError>)
    ensures
        rendered(r, old(output)@, final(output)@, match md_plain(views(nodes@), depth as int) {
            Some(i) => Some(code_span(i)),
            None => None,
        }),
{
    let mut inner = String::new();
    let r = render_inline_plain_text(nodes, &mut inner, depth);
    if r.is_err() {
        return r;
    }
    let ic = chars_of(inner.as_str());
    assert(ic@ =~= md_plain(views(nodes@), depth as int)->Some_0);
    let delimiter = backtick_delimiter(ic.as_slice(), 1);
    let ghost start = output@;
    output.append(delimiter.as_str());
    let n = ic.len();
    if n > 0 && (ic[0] == '`' || ic[0] == ' ' || ic[n - 1] == '`' || ic[n - 1] == ' ') {
        output.push(' ');
        output.append(inner.as_str());
        output.push(' ');
    } else {
        output.append(inner.as_str());
    }
    output.append(delimiter.as_str());
    assert(output@ =~= start + code_span(ic@));
    Ok(())
}

/// Writes a run of nodes between two delimiters.
pub fn render_delimited_mark(
    open: &str,
    close: &str,
    nodes: &[JsonValue],
    skip: usize,
    output: &mut String,
    depth: usize,
    scheme: &str,
) -> (r: Result<(), ProseMirrorError>)
    ensures
        rendered(r, old(output)@, final(output)@, match md_run(views(nodes@), skip as int, depth as int, scheme@) {
            Some(i) => Some(open@ + i + close@),
            None => None,
        }),
    decreases MAX_DEPTH - depth, 2int,
{
    let ghost start = output@;
    output.append(open);
    let r = render_inline_run(nodes, skip, output, depth, scheme);
    if r.is_err() {
        return r;
    }
    output.append(close);
    assert(output@ =~= start + (open@ + md_run(views(nodes@), skip as int, depth as int, scheme@)->Some_0 + close@));
    Ok(())
}

/// Writes a run of nodes as emphasis, with its leading and trailing
/// whitespace outside the delimiters so that Markdown still reads it as
/// emphasis.
pub fn render_delimited_mark_expel_whitespace(
    open: &str,
    close: &str,
    nodes: &[JsonValue],
    skip: usize,
    output: &mut String,
    depth: usize,
    scheme: &str,
) -> (r: Result<(), ProseMirrorError>)
    ensures
        rendered(r, old(output)@, final(output)@, match md_run(views(nodes@), skip as int, depth as int, scheme@) {
            Some(i) => Some(expel_whitespace(open@, close@, i)),
            None => None,
        }),
    decreases MAX_DEPTH - depth, 2int,
{
    let mut inner = String::new();
    let r = render_inline_run(nodes, skip, &mut inner, depth, scheme);
    if r.is_err() {
        return r;
    }
    let ic = chars_of(inner.as_str());
    let ghost iv = md_run(views(nodes@), skip as int, depth as int, scheme@)->Some_0;
    assert(ic@ =~= iv);
    let lead = crate::strs::trim_start_index(ic.as_slice());
    let rest = &ic.as_slice()[lead..ic.len()];
    assert(rest@ =~= ic@.skip(lead as int));
    let e = crate::strs::trim_end_index(rest);
    let end = lead + e;
    proof {
        crate::strs::lemma_trim_start_suffix(ic@);
    }
    if e == 0 {
        output.append(inner.as_str());
        return Ok(());
    }
    let ghost start = output@;
    push_str_chars(output, &ic.as_slice()[0..lead]);
    output.append(open);
    push_str_chars(output, &ic.as_slice()[lead..end]);
    output.append(close);
    push_str_chars(output, &ic.as_slice()[end..ic.len()]);
    proof {
        assert(ic@.subrange(0, lead as int) =~= ic@.take(lead as int));
        assert(ic@.subrange(lead as int, end as int) =~= rest@.take(e as int));
        assert(ic@.subrange(end as int, ic@.len() as int) =~= ic@.skip(end as int));
        assert(trim(ic@) == rest@.take(e as int));
        assert(leading_ws_len(ic@) == lead);
    }
    assert(output@ =~= start + expel_whitespace(open@, close@, ic@));
    Ok(())
}

/// Writes a run of nodes that share the mark `mark`.
pub fn render_marked_run(
    mark: &JsonValue,
    nodes: &[JsonValue],
    skip: usize,
    output: &mut String,
    depth: usize,
    scheme: &str,
) -> (r: Result<(), ProseMirrorError>)
    ensures
        rendered(r, old(output)@, final(output)@, md_marked(mark@, views(nodes@), skip as int, depth as int, scheme@)),
    decreases MAX_DEPTH - depth, 3int,
{
    if mark.has_type("bold") || mark.has_type("strong") {
        render_delimited_mark_expel_whitespace("**", "**", nodes, skip, output, depth, scheme)
    } else if mark.has_type("italic") || mark.has_type("em") {
        render_delimited_mark_expel_whitespace("*", "*", nodes, skip, output, depth, scheme)
    } else if mark.has_type("code") {
        render_code_mark(nodes, output, depth)
    } else if mark.has_type("strike") || mark.has_type("strikethrough") {
        render_delimited_mark("~~", "~~", nodes, skip, output, depth, scheme)
    } else if mark.has_type("underline") {
        render_delimited_mark("<u>", "</u>", nodes, skip, output, depth, scheme)
    } else if mark.has_type("link") {
        let href = match mark.attr_str("href") {
            Some(h) => chars_of(h.as_str()),
            None => Vec::new(),
        };
        let title: Option<Vec<char>> = match mark.attr_str("title") {
            Some(t) => {
                let tc = chars_of(t.as_str());
                if tc.len() > 0 {
                    Some(tc)
                } else {
                    None
                }
            },
            None => None,
        };
        let mut raw_inner = String::new();
        let r = render_inline_plain_text(nodes, &mut raw_inner, depth);
        if r.is_err() {
            return r;
        }
        assert(raw_inner@ =~= md_plain(views(nodes@), depth as int)->Some_0);
        let href_string = string_from_chars(href.as_slice());
        let ghost start = output@;
        if title.is_none() && str_eq(raw_inner.as_str(), href_string.as_str()) && is_autolink_href(href.as_slice()) {
            output.push('<');
            output.append(href_string.as_str());
            output.push('>');
            assert(output@ =~= start + md_marked(mark@, views(nodes@), skip as int, depth as int, scheme@)->Some_0);
        } else {
            let mut inner = String::new();
            let r = render_inline_run(nodes, skip, &mut inner, depth, scheme);
            if r.is_err() {
                return r;
            }
            output.push('[');
            output.append(inner.as_str());
            push_two(output, ']', '(');
            push_link_destination(output, href.as_slice());
            match &title {
                Some(t) => push_markdown_title(output, Some(t.as_slice())),
                None => push_markdown_title(output, None),
            }
            output.push(')');
            assert(output@ =~= start + md_marked(mark@, views(nodes@), skip as int, depth as int, scheme@)->Some_0);
        }
        Ok(())
    } else {
        render_inline_run(nodes, skip, output, depth, scheme)
    }
}

/// Writes one inline node that has no mark left to write.
pub fn render_unmarked_inline_node(node: &JsonValue, output: &mut String, depth: usize, scheme: &str) -> (r: Result<(), ProseMirrorError>)
    ensures
        rendered(r, old(output)@, final(output)@, md_unmarked(node@, depth as int, scheme@)),
    decreases MAX_DEPTH - depth, 0int,
{
    if depth >= MAX_DEPTH {
        return Err(depth_exceeded());
    }
    if node.has_type("hardBreak") || node.has_type("hard_break") {
        output.append("  \n");
        return Ok(());
    }
    if node.has_type("image") {
        render_image_to_markdown(node, output, scheme);
        return Ok(());
    }
    if !node.has_type("text") {
        if let Some(content) = node.array_field("content") {
            return render_inline_run(content.as_slice(), 0, output, depth + 1, scheme);
        }
        assert(output@ =~= old(output)@ + Seq::<char>::empty());
        return Ok(());
    }
    let text = match node.str_field("text") {
        Some(t) => chars_of(t.as_str()),
        None => Vec::new(),
    };
    push_escaped_markdown_text(output, text.as_slice());
    Ok(())
}

/// Renders a run of inline nodes, with the mark at index `skip` of each node
/// as the next one to open; marks are peeled by index, so heavily marked text
/// stays linear in the number of marks.
pub fn render_inline_run(
    nodes: &[JsonValue],
    skip: usize,
    output: &mut String,
    depth: usize,
    scheme: &str,
) -> (r: Result<(), ProseMirrorError>)
    ensures
        rendered(r, old(output)@, final(output)@, md_run(views(nodes@), skip as int, depth as int, scheme@)),
    decreases MAX_DEPTH - depth, 1int,
{
    if depth >= MAX_DEPTH {
        return Err(depth_exceeded());
    }
    let ghost vs = views(nodes@);
    let ghost start = output@;
    let ghost mut acc: Seq<char> = Seq::empty();
    let mut i: usize = 0;
    assert(vs.skip(0) =~= vs);
    assert(start + acc =~= start);
    assert(opt_cat(Some(acc), md_run(vs, skip as int, depth as int, scheme@)) == md_run(vs, skip as int, depth as int, scheme@)) by {
        if md_run(vs, skip as int, depth as int, scheme@) is Some {
            assert(acc + md_run(vs, skip as int, depth as int, scheme@)->Some_0 =~= md_run(vs, skip as int, depth as int, scheme@)->Some_0);
        }
    }
    while i < nodes.len()
        invariant
            i <= nodes@.len() == vs.len(),
            vs == views(nodes@),
            depth < MAX_DEPTH,
            output@ == start + acc,
            md_run(vs, skip as int, depth as int, scheme@) == opt_cat(Some(acc), md_run(vs.skip(i as int), skip as int, depth as int, scheme@)),
        decreases nodes.len() - i,
    {
        let ghost t = vs.skip(i as int);
        assert(t[0] == nodes@[i as int]@);
        if let Some(mark) = mark_at(&nodes[i], skip) {
            let mut j = i + 1;
            while j < nodes.len() && same_mark(mark_at(&nodes[j], skip), mark)
                invariant
                    i < j <= nodes@.len() == vs.len(),
                    vs == views(nodes@),
                    t == vs.skip(i as int),
                    forall|k: int| 0 <= k < j - i ==> #[trigger] spec_mark_at(t[k], skip as int) == Some(mark@),
                decreases nodes.len() - j,
            {
                assert(t[j - i] == nodes@[j as int]@);
                j += 1;
            }
            proof {
                if j < nodes.len() {
                    assert(t[j - i] == nodes@[j as int]@);
                }
                lemma_marked_run_exact(t, skip as int, mark@, j - i);
                lemma_run_lens_bounded(t, skip as int, mark@);
            }
            if skip == usize::MAX {
                return Err(depth_exceeded());
            }
            let ghost before = output@;
            let r = render_marked_run(mark, &nodes[i..j], skip + 1, output, depth + 1, scheme);
            assert(views(nodes@.subrange(i as int, j as int)) =~= t.take(j - i));
            assert(t.skip(j - i) =~= vs.skip(j as int));
            if r.is_err() {
                return r;
            }
            proof {
                let piece = output@.subrange(before.len() as int, output@.len() as int);
                assert(output@ =~= start + (acc + piece));
                lemma_opt_cat_assoc(Some(acc), Some(piece), md_run(vs.skip(j as int), skip as int, depth as int, scheme@));
                acc = acc + piece;
            }
            i = j;
            continue;
        }
        if nodes[i].has_type("text") {
            let mut text: Vec<char> = Vec::new();
            if let Some(value) = nodes[i].str_field("text") {
                text = chars_of(value.as_str());
            }
            assert(vs.subrange(i as int, i + 1).drop_last() =~= Seq::<JsonSpec>::empty());
            assert(vs.subrange(i as int, i + 1).last() == nodes@[i as int]@);
            assert(run_text(Seq::<JsonSpec>::empty()) =~= Seq::<char>::empty());
            assert(text@ =~= run_text(vs.subrange(i as int, i + 1)));
            let mut j = i + 1;
            while j < nodes.len() && mark_at(&nodes[j], skip).is_none() && nodes[j].has_type("text")
                invariant
                    i < j <= nodes@.len() == vs.len(),
                    vs == views(nodes@),
                    t == vs.skip(i as int),
                    spec_mark_at(t[0], skip as int) is None && t[0].node_type() == Some("text"@),
                    forall|k: int|
                        0 <= k < j - i ==> #[trigger] spec_mark_at(t[k], skip as int) is None && t[k].node_type() == Some("text"@),
                    text@ == run_text(vs.subrange(i as int, j as int)),
                decreases nodes.len() - j,
            {
                assert(t[j - i] == nodes@[j as int]@);
                let ghost before = text@;
                if let Some(value) = nodes[j].str_field("text") {
                    let vc = chars_of(value.as_str());
                    let mut k: usize = 0;
                    while k < vc.len()
                        invariant
                            k <= vc@.len(),
                            text@ == before + vc@.take(k as int),
                        decreases vc.len() - k,
                    {
                        text.push(vc[k]);
                        k += 1;
                        assert(text@ =~= before + vc@.take(k as int));
                    }
                    assert(vc@.take(k as int) =~= vc@);
                } else {
                    assert(text@ =~= before + Seq::<char>::empty());
                }
                assert(vs.subrange(i as int, j + 1).drop_last() =~= vs.subrange(i as int, j as int));
                j += 1;
            }
            proof {
                if j < nodes.len() {
                    assert(t[j - i] == nodes@[j as int]@);
                }
                lemma_text_run_exact(t, skip as int, j - i);
                lemma_run_lens_bounded(t, skip as int, t[0]);
                assert(t.take(j - i) =~= vs.subrange(i as int, j as int));
                assert(t.skip(j - i) =~= vs.skip(j as int));
            }
            let ghost before = output@;
            push_escaped_markdown_text(output, text.as_slice());
            proof {
                let piece = escaped_markdown_text(text@);
                lemma_opt_cat_assoc(Some(acc), Some(piece), md_run(vs.skip(j as int), skip as int, depth as int, scheme@));
                acc = acc + piece;
                assert(output@ =~= start + acc);
            }
            i = j;
            continue;
        }
        let ghost before = output@;
        let r = render_unmarked_inline_node(&nodes[i], output, depth, scheme);
        assert(t.skip(1) =~= vs.skip(i + 1));
        if r.is_err() {
            return r;
        }
        proof {
            let piece = output@.subrange(before.len() as int, output@.len() as int);
            assert(output@ =~= start + (acc + piece));
            lemma_opt_cat_assoc(Some(acc), Some(piece), md_run(vs.skip(i + 1), skip as int, depth as int, scheme@));
            acc = acc + piece;
        }
        i += 1;
    }
    proof {
        assert(vs.skip(i as int).len() == 0);
        assert(acc + Seq::<char>::empty() =~= acc);
    }
    Ok(())
}

/// Writes a node's inline `content`, one nesting level further down.
pub fn inline_content_to_markdown(node: &JsonValue, output: &mut String, depth: usize, scheme: &str) -> (r: Result<(), ProseMirrorError>)
    ensures
        rendered(r, old(output)@, final(output)@, md_inline_content(node@, depth as int, scheme@)),
{
    if let Some(content) = node.array_field("content") {
        if depth >= MAX_DEPTH - 1 {
            return Err(depth_exceeded());
        }
        return render_inline_run(content.as_slice(), 0, output, depth + 1, scheme);
    }
    assert(output@ =~= old(output)@ + Seq::<char>::empty());
    Ok(())
}

/// Writes one inline node at nesting level `depth`.
pub fn text_node_to_markdown(node: &JsonValue, output: &mut String, depth: usize, scheme: &str) -> (r: Result<(), ProseMirrorError>)
    ensures
        rendered(r, old(output)@, final(output)@, md_run(seq![node@], 0, depth as int, scheme@)),
{
    let mut one: Vec<JsonValue> = Vec::new();
    one.push(node.copy());
    assert(views(one@) =~= seq![node@]);
    render_inline_run(one.as_slice(), 0, output, depth, scheme)
}


/// The Markdown of one text node whose marks from index `skip` on are
/// none: its text, escaped.
proof fn lemma_single_text_run(n: JsonSpec, t: Seq<char>, skip: int, depth: int, scheme: Seq<char>)
    requires
        n.node_type() == Some("text"@),
        n.str_field("text"@) == Some(t),
        spec_mark_at(n, skip) is None,
        0 <= depth < MAX_DEPTH,
    ensures
        md_run(seq![n], skip, depth, scheme) == Some(escaped_markdown_text(t)),
{
    let ns = seq![n];
    assert(ns[0] == n);
    assert(ns.drop_first() =~= Seq::<JsonSpec>::empty());
    assert(text_run_len(ns.drop_first(), skip) == 0);
    assert(text_run_len(ns, skip) == 1);
    assert(ns.take(1) =~= ns);
    assert(ns.drop_last() =~= Seq::<JsonSpec>::empty());
    assert(ns.last() == n);
    assert(run_text(ns.drop_last()) == Seq::<char>::empty());
    assert(run_text(ns) == Seq::<char>::empty() + t);
    assert(Seq::<char>::empty() + t =~= t);
    assert(ns.skip(1) =~= Seq::<JsonSpec>::empty());
    assert(md_run(ns.skip(1), skip, depth, scheme) == Some(Seq::<char>::empty()));
    assert(escaped_markdown_text(t) + Seq::<char>::empty() =~= escaped_markdown_text(t));
}

/// A strike mark is written as GFM strikethrough: a text node whose only
/// mark is `strike` (or `strikethrough`) is written as the same text with no
/// mark, between `~~` and `~~`.
pub proof fn lemma_strike_text(marked: JsonSpec, plain: JsonSpec, t: Seq<char>, depth: int, scheme: Seq<char>)
    requires
        marked.node_type() == Some("text"@),
        plain.node_type() == Some("text"@),
        marked.str_field("text"@) == Some(t),
        plain.str_field("text"@) == Some(t),
        plain.array_field("marks"@) is None,
        marked.array_field("marks"@) matches Some(ms) && ms.len() == 1 && (ms[0].node_type() == Some(
            "strike"@,
        ) || ms[0].node_type() == Some("strikethrough"@)),
        0 <= depth,
        depth + 1 < MAX_DEPTH,
    ensures
        md_run(seq![plain], 0, depth, scheme) == Some(escaped_markdown_text(t)),
        md_run(seq![marked], 0, depth, scheme) == Some("~~"@ + escaped_markdown_text(t) + "~~"@),
{
    reveal_strlit("strike");
    reveal_strlit("strikethrough");
    reveal_strlit("bold");
    reveal_strlit("strong");
    reveal_strlit("italic");
    reveal_strlit("em");
    reveal_strlit("code");
    lemma_single_text_run(plain, t, 0, depth, scheme);
    let ms = marked.array_field("marks"@)->Some_0;
    let m = ms[0];
    let ns = seq![marked];
    assert(ns[0] == marked);
    assert(spec_mark_at(marked, 0) == Some(m));
    assert(spec_mark_at(marked, 1) is None);
    assert(ns.drop_first() =~= Seq::<JsonSpec>::empty());
    assert(marked_run_len(ns.drop_first(), 0, m) == 0);
    assert(marked_run_len(ns, 0, m) == 1);
    assert(ns.take(1) =~= ns);
    assert(ns.skip(1) =~= Seq::<JsonSpec>::empty());
    lemma_single_text_run(marked, t, 1, depth + 1, scheme);
    assert("strike"@.len() == 6 && "strikethrough"@.len() == 13 && "bold"@.len() == 4 && "strong"@.len() == 6
        && "italic"@.len() == 6 && "em"@.len() == 2 && "code"@.len() == 4);
    assert("strike"@[3] != "strong"@[3] && "strike"@[0] != "italic"@[0]);
    let e = escaped_markdown_text(t);
    assert(md_marked(m, ns, 1, depth + 1, scheme) == Some("~~"@ + e + "~~"@));
    assert(md_run(ns.skip(1), 0, depth, scheme) == Some(Seq::<char>::empty()));
    assert(("~~"@ + e + "~~"@) + Seq::<char>::empty() =~= "~~"@ + e + "~~"@);
}


/// Each delimited mark is written around the text: a text node whose only
/// mark is strike (`~~`), underline (`<u>`, `</u>`), bold (`**`) or italic
/// (`*`), in either spelling, is written as the same text with no mark
/// between the mark's delimiters; for bold and italic, where that text
/// neither starts nor ends with whitespace.
pub proof fn lemma_marked_text(
    marked: JsonSpec,
    plain: JsonSpec,
    t: Seq<char>,
    depth: int,
    scheme: Seq<char>,
    ty: Seq<char>,
    open: Seq<char>,
    close: Seq<char>,
)
    requires
        marked.node_type() == Some("text"@),
        plain.node_type() == Some("text"@),
        marked.str_field("text"@) == Some(t),
        plain.str_field("text"@) == Some(t),
        plain.array_field("marks"@) is None,
        marked.array_field("marks"@) matches Some(ms) && ms.len() == 1 && ms[0].node_type() == Some(ty),
        0 <= depth,
        depth + 1 < MAX_DEPTH,
        ((ty == "strike"@ || ty == "strikethrough"@) && open == "~~"@ && close == "~~"@) || (ty == "underline"@
            && open == "<u>"@ && close == "</u>"@) || ((ty == "bold"@ || ty == "strong"@) && open == "**"@ && close
            == "**"@) || ((ty == "italic"@ || ty == "em"@) && open == "*"@ && close == "*"@),
        (ty == "bold"@ || ty == "strong"@ || ty == "italic"@ || ty == "em"@) ==> (escaped_markdown_text(t).len() > 0
            && !is_ws(escaped_markdown_text(t)[0]) && !is_ws(escaped_markdown_text(t).last())),
    ensures
        md_run(seq![plain], 0, depth, scheme) == Some(escaped_markdown_text(t)),
        md_run(seq![marked], 0, depth, scheme) == Some(open + escaped_markdown_text(t) + close),
{
    reveal_strlit("strike");
    reveal_strlit("strikethrough");
    reveal_strlit("underline");
    reveal_strlit("bold");
    reveal_strlit("strong");
    reveal_strlit("italic");
    reveal_strlit("em");
    reveal_strlit("code");
    lemma_single_text_run(plain, t, 0, depth, scheme);
    let ms = marked.array_field("marks"@)->Some_0;
    let m = ms[0];
    let ns = seq![marked];
    assert(ns[0] == marked);
    assert(spec_mark_at(marked, 0) == Some(m));
    assert(spec_mark_at(marked, 1) is None);
    assert(ns.drop_first() =~= Seq::<JsonSpec>::empty());
    assert(marked_run_len(ns.drop_first(), 0, m) == 0);
    assert(marked_run_len(ns, 0, m) == 1);
    assert(ns.take(1) =~= ns);
    assert(ns.skip(1) =~= Seq::<JsonSpec>::empty());
    lemma_single_text_run(marked, t, 1, depth + 1, scheme);
    assert("strike"@.len() == 6 && "strikethrough"@.len() == 13 && "bold"@.len() == 4 && "strong"@.len() == 6
        && "italic"@.len() == 6 && "em"@.len() == 2 && "code"@.len() == 4 && "underline"@.len() == 9);
    assert("strike"@[3] != "strong"@[3] && "strike"@[0] != "italic"@[0] && "bold"@[0] != "code"@[0]);
    let e = escaped_markdown_text(t);
    if ty == "bold"@ || ty == "strong"@ || ty == "italic"@ || ty == "em"@ {
        assert(trim_start(e) == e);
        assert(crate::strs::trim_end(e) == e);
        assert(trim(e) == e);
        assert(leading_ws_len(e) == 0);
        assert(e.take(0) + open + e + close + e.skip(e.len() as int) =~= open + e + close);
        assert(expel_whitespace(open, close, e) == open + e + close);
    }
    assert(md_marked(m, ns, 1, depth + 1, scheme) == Some(open + e + close));
    assert(md_run(ns.skip(1), 0, depth, scheme) == Some(Seq::<char>::empty()));
    assert((open + e + close) + Seq::<char>::empty() =~= open + e + close);
}

} // verus!
