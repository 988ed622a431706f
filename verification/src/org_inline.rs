//! Org-mode inline markup: links, code spans and emphasis, read into text
//! nodes with marks.

use vstd::prelude::*;
use crate::json::{copy_values, spec_text_node, text_node, typed_node, views, JsonSpec, JsonValue};
use crate::md_model::typed;
use crate::strs::{is_whitespace, is_ws, string_from_chars};

verus! {

/// The mark an Org emphasis marker stands for.
pub open spec fn spec_emphasis_mark(c: char) -> Option<Seq<char>> {
    if c == '*' {
        Some("bold"@)
    } else if c == '/' {
        Some("italic"@)
    } else if c == '_' {
        Some("underline"@)
    } else if c == '+' {
        Some("strike"@)
    } else {
        None
    }
}

pub fn org_emphasis_mark(c: char) -> (r: Option<&'static str>)
    ensures
        match r {
            Some(t) => spec_emphasis_mark(c) == Some(t@),
            None => spec_emphasis_mark(c) is None,
        },
{
    if c == '*' {
        Some("bold")
    } else if c == '/' {
        Some("italic")
    } else if c == '_' {
        Some("underline")
    } else if c == '+' {
        Some("strike")
    } else {
        None
    }
}

/// Emphasis may open at the start of the line or after whitespace or one of
/// `-({'"`, and only before a character that is not whitespace, so markers
/// inside identifiers (`some_var_name`) or arithmetic (`2 * 3`) stay literal.
pub open spec fn spec_can_open(prev: Option<char>, next: Option<char>) -> bool {
    let pre_ok = match prev {
        None => true,
        Some(c) => is_ws(c) || c == '-' || c == '(' || c == '{' || c == '\'' || c == '"',
    };
    let post_ok = match next {
        Some(c) => !is_ws(c),
        None => false,
    };
    pre_ok && post_ok
}

/// Emphasis may close only after a character that is not whitespace.
pub open spec fn spec_can_close(prev: Option<char>) -> bool {
    match prev {
        Some(c) => !is_ws(c),
        None => false,
    }
}

pub fn org_emphasis_can_open(prev: Option<char>, next: Option<char>) -> (r: bool)
    ensures
        r == spec_can_open(prev, next),
{
    let pre_ok = match prev {
        None => true,
        Some(c) => is_whitespace(c) || c == '-' || c == '(' || c == '{' || c == '\'' || c == '"',
    };
    let post_ok = match next {
        Some(c) => !is_whitespace(c),
        None => false,
    };
    pre_ok && post_ok
}

pub fn org_emphasis_can_close(prev: Option<char>) -> (r: bool)
    ensures
        r == spec_can_close(prev),
{
    match prev {
        Some(c) => !is_whitespace(c),
        None => false,
    }
}

/// Whether a mark of type `mark_type` is among `marks`.
pub fn mark_active(marks: &[JsonValue], mark_type: &str) -> (r: bool)
    ensures
        r == has_mark(views(marks@), mark_type@),
{
    let ghost m = views(marks@);
    let mut i: usize = 0;
    while i < marks.len()
        invariant
            i <= marks@.len(),
            m == views(marks@),
            forall|j: int| 0 <= j < i ==> #[trigger] m[j].node_type() != Some(mark_type@),
        decreases marks.len() - i,
    {
        assert(m[i as int] == marks@[i as int]@);
        if marks[i].has_type(mark_type) {
            return true;
        }
        i += 1;
    }
    false
}

/// The marks without those of type `t`.
pub open spec fn without_type(marks: Seq<JsonSpec>, t: Seq<char>) -> Seq<JsonSpec>
    decreases marks.len(),
{
    if marks.len() == 0 {
        marks
    } else if marks.last().node_type() == Some(t) {
        without_type(marks.drop_last(), t)
    } else {
        without_type(marks.drop_last(), t).push(marks.last())
    }
}

/// Whether a mark of type `t` is among `marks`.
pub open spec fn has_mark(marks: Seq<JsonSpec>, t: Seq<char>) -> bool {
    exists|i: int| 0 <= i < marks.len() && #[trigger] marks[i].node_type() == Some(t)
}

/// Drops every mark of type `mark_type`.
fn remove_marks(marks: &mut Vec<JsonValue>, mark_type: &str)
    ensures
        views(final(marks)@) == without_type(views(old(marks)@), mark_type@),
{
    let ghost m = views(marks@);
    let mut kept: Vec<JsonValue> = Vec::new();
    let mut i: usize = 0;
    while i < marks.len()
        invariant
            i <= marks@.len(),
            m == views(marks@),
            views(kept@) == without_type(m.take(i as int), mark_type@),
        decreases marks.len() - i,
    {
        assert(m.take(i + 1).drop_last() =~= m.take(i as int));
        assert(m.take(i + 1).last() == marks@[i as int]@);
        if !marks[i].has_type(mark_type) {
            let c = marks[i].copy();
            assert(views(kept@.push(c)) =~= views(kept@).push(c@));
            kept.push(c);
        }
        i += 1;
    }
    assert(m.take(i as int) =~= m);
    *marks = kept;
}

/// The nodes that inline parsing produces: text nodes.
pub open spec fn all_text_nodes(nodes: Seq<JsonValue>) -> bool {
    forall|k: int| 0 <= k < nodes.len() ==> #[trigger] nodes[k]@.node_type() == Some("text"@)
}

/// Moves pending text, with the current marks, into `out` as a text node.
/// `out` with the pending text, if any, added as a text node.
pub open spec fn run_pushed(current: Seq<char>, marks: Seq<JsonSpec>, out: Seq<JsonSpec>) -> Seq<JsonSpec> {
    if current.len() > 0 {
        out.push(spec_text_node(current, marks))
    } else {
        out
    }
}

pub fn push_org_run(text: &mut Vec<char>, marks: &Vec<JsonValue>, out: &mut Vec<JsonValue>)
    ensures
        views(final(out)@) == run_pushed(old(text)@, views(marks@), views(old(out)@)),
        all_text_nodes(old(out)@) ==> all_text_nodes(final(out)@),
        final(text)@.len() == 0,
        old(text)@.len() == 0 ==> final(out)@ == old(out)@,
        old(text)@.len() > 0 ==> final(out)@.len() == old(out)@.len() + 1 && final(out)@.drop_last()
            == old(out)@ && final(out)@.last()@.str_field("text"@) == Some(old(text)@)
            && final(out)@.last()@.array_field("marks"@) == (if marks@.len() > 0 {
            Some(crate::json::views(marks@))
        } else {
            None
        }),
{
    if text.len() == 0 {
        return;
    }
    let s = string_from_chars(text.as_slice());
    let node = text_node(s, marks);
    assert(views(out@.push(node)) =~= views(out@).push(node@));
    out.push(node);
    text.clear();
    assert(out@.drop_last() =~= old(out)@);
}

/// Text free of anything Org reads as inline markup.
pub open spec fn no_inline_markup(s: Seq<char>) -> bool {
    forall|i: int|
        0 <= i < s.len() ==> !(#[trigger] s[i] == '[' || s[i] == '~' || spec_emphasis_mark(s[i]) is Some)
}

pub open spec fn spec_char_at(text: Seq<char>, i: int) -> Option<char> {
    if 0 <= i < text.len() {
        Some(text[i])
    } else {
        None
    }
}

pub open spec fn prev_char(text: Seq<char>, i: int) -> Option<char> {
    if 0 < i <= text.len() {
        Some(text[i - 1])
    } else {
        None
    }
}

/// An Org link's target, its description, and where reading resumes,
/// reading from `j` (just past `[[`) to the closing `]]` or the end.
pub open spec fn link_scan(
    text: Seq<char>,
    j: int,
    target: Seq<char>,
    desc: Seq<char>,
    in_target: bool,
) -> (Seq<char>, Seq<char>, int)
    decreases text.len() - j,
{
    if j < 0 || j >= text.len() {
        (target, desc, j)
    } else if text[j] == ']' && spec_char_at(text, j + 1) == Some('[') {
        link_scan(text, j + 2, target, desc, false)
    } else if text[j] == ']' && spec_char_at(text, j + 1) == Some(']') {
        (target, desc, j + 2)
    } else if in_target {
        link_scan(text, j + 1, target.push(text[j]), desc, true)
    } else {
        link_scan(text, j + 1, target, desc.push(text[j]), false)
    }
}

pub proof fn lemma_link_scan_advances(text: Seq<char>, j: int, target: Seq<char>, desc: Seq<char>, in_target: bool)
    requires
        0 <= j <= text.len(),
    ensures
        j <= link_scan(text, j, target, desc, in_target).2 <= text.len(),
    decreases text.len() - j,
{
    if j < text.len() {
        if text[j] == ']' && spec_char_at(text, j + 1) == Some('[') {
            lemma_link_scan_advances(text, j + 2, target, desc, false);
        } else if text[j] == ']' && spec_char_at(text, j + 1) == Some(']') {
        } else if in_target {
            lemma_link_scan_advances(text, j + 1, target.push(text[j]), desc, true);
        } else {
            lemma_link_scan_advances(text, j + 1, target, desc.push(text[j]), false);
        }
    }
}

/// The first `~` at or after `j`, or the length of the text.
pub open spec fn first_tilde(text: Seq<char>, j: int) -> int
    decreases text.len() - j,
{
    if j < 0 || j >= text.len() {
        text.len() as int
    } else if text[j] == '~' {
        j
    } else {
        first_tilde(text, j + 1)
    }
}

/// A link: its description, or its target where it has none, as text with
/// a `link` mark to the target.
pub open spec fn link_text(target: Seq<char>, desc: Seq<char>) -> JsonSpec {
    let attrs = JsonSpec::Object(Seq::empty()).with_member("href"@, JsonSpec::Str(target));
    spec_text_node(
        if desc.len() == 0 {
            target
        } else {
            desc
        },
        seq![typed("link"@).with_member("attrs"@, attrs)],
    )
}

/// The text nodes read from `text` from position `i` on, after `out`, with
/// `current` pending under `marks`.
pub open spec fn inline_scan(
    text: Seq<char>,
    i: int,
    current: Seq<char>,
    marks: Seq<JsonSpec>,
    out: Seq<JsonSpec>,
) -> Seq<JsonSpec>
    decreases text.len() - i,
{
    if i < 0 || i >= text.len() {
        run_pushed(current, marks, out)
    } else {
        let c = text[i];
        if c == '[' && spec_char_at(text, i + 1) == Some('[') {
            let link = link_scan(text, i + 2, Seq::empty(), Seq::empty(), true);
            proof {
                lemma_link_scan_advances(text, i + 2, Seq::empty(), Seq::empty(), true);
            }
            inline_scan(text, link.2, Seq::empty(), marks, run_pushed(current, marks, out).push(link_text(link.0, link.1)))
        } else if c == '~' {
            let close = first_tilde(text, i + 1);
            if spec_can_open(prev_char(text, i), spec_char_at(text, i + 1)) && close < text.len() && close > i + 1 {
                inline_scan(
                    text,
                    close + 1,
                    Seq::empty(),
                    marks,
                    run_pushed(current, marks, out).push(
                        spec_text_node(text.subrange(i + 1, close), marks.push(typed("code"@))),
                    ),
                )
            } else {
                inline_scan(text, i + 1, current.push('~'), marks, out)
            }
        } else {
            match spec_emphasis_mark(c) {
                Some(t) => if has_mark(marks, t) {
                    if spec_can_close(prev_char(text, i)) {
                        inline_scan(text, i + 1, Seq::empty(), without_type(marks, t), run_pushed(current, marks, out))
                    } else {
                        inline_scan(text, i + 1, current.push(c), marks, out)
                    }
                } else if spec_can_open(prev_char(text, i), spec_char_at(text, i + 1)) {
                    inline_scan(text, i + 1, Seq::empty(), marks.push(typed(t)), run_pushed(current, marks, out))
                } else {
                    inline_scan(text, i + 1, current.push(c), marks, out)
                },
                None => inline_scan(text, i + 1, current.push(c), marks, out),
            }
        }
    }
}

/// The text nodes that Org inline markup in `text` reads into.
pub open spec fn spec_parse_org_inline(text: Seq<char>) -> Seq<JsonSpec> {
    inline_scan(text, 0, Seq::empty(), Seq::empty(), Seq::empty())
}

fn char_at(chars: &[char], i: usize) -> (r: Option<char>)
    ensures
        r == (if i < chars@.len() {
            Some(chars@[i as int])
        } else {
            None
        }),
        r == spec_char_at(chars@, i as int),
{
    if i < chars.len() {
        Some(chars[i])
    } else {
        None
    }
}

fn link_node(target: Vec<char>, description: Vec<char>) -> (r: JsonValue)
    ensures
        r@.node_type() == Some("text"@),
        r@ == link_text(target@, description@),
{
    let display = if description.len() == 0 {
        string_from_chars(target.as_slice())
    } else {
        string_from_chars(description.as_slice())
    };
    let mut attrs = JsonValue::empty_object();
    attrs.set("href", JsonValue::String(string_from_chars(target.as_slice())));
    let mut mark = typed_node("link");
    mark.set("attrs", attrs);
    let mut marks: Vec<JsonValue> = Vec::new();
    marks.push(mark);
    assert(views(marks@) =~= seq![marks@[0]@]);
    text_node(display, &marks)
}

/// Where the first `~` at or after `j` is.
proof fn lemma_first_tilde(text: Seq<char>, j: int, close: int)
    requires
        0 <= j <= close <= text.len(),
        forall|k: int| j <= k < close ==> #[trigger] text[k] != '~',
        close == text.len() || text[close] == '~',
    ensures
        first_tilde(text, j) == close,
    decreases close - j,
{
    if j < close {
        lemma_first_tilde(text, j + 1, close);
    }
}

/// Reads Org inline markup into text nodes: `[[target]]` and
/// `[[target][description]]` links, `~code~` spans whose inside is literal,
/// and `*bold*`, `/italic/`, `_underline_` and `+strike+` emphasis where a
/// marker can open or close. Text with no such markup is one unmarked node.
pub fn parse_org_inline(text: &[char]) -> (r: Vec<JsonValue>)
    ensures
        views(r@) == spec_parse_org_inline(text@),
        all_text_nodes(r@),
        no_inline_markup(text@) && text@.len() == 0 ==> r@.len() == 0,
        no_inline_markup(text@) && text@.len() > 0 ==> r@.len() == 1 && r@[0]@.str_field("text"@)
            == Some(text@) && r@[0]@.array_field("marks"@) is None,
{
    let chars = text;
    let ghost t = text@;
    let mut result: Vec<JsonValue> = Vec::new();
    let mut current: Vec<char> = Vec::new();
    let mut marks: Vec<JsonValue> = Vec::new();
    let mut i: usize = 0;
    assert(views(result@) =~= Seq::<JsonSpec>::empty());
    assert(views(marks@) =~= Seq::<JsonSpec>::empty());
    assert(current@ =~= Seq::<char>::empty());
    while i < chars.len()
        invariant
            i <= chars@.len(),
            chars@ == text@,
            t == text@,
            spec_parse_org_inline(t) == inline_scan(t, i as int, current@, views(marks@), views(result@)),
            all_text_nodes(result@),
            no_inline_markup(text@) ==> result@.len() == 0 && marks@.len() == 0 && current@ == text@.take(
                i as int,
            ),
        decreases chars.len() - i,
    {
        let c = chars[i];
        let ghost cur0 = current@;
        let ghost out0 = views(result@);
        let ghost m0 = views(marks@);
        if c == '[' && char_at(chars, i + 1) == Some('[') {
            push_org_run(&mut current, &marks, &mut result);
            let ghost i0 = i;
            i += 2;
            let mut target: Vec<char> = Vec::new();
            let mut description: Vec<char> = Vec::new();
            let mut in_target = true;
            assert(target@ =~= Seq::<char>::empty());
            assert(description@ =~= Seq::<char>::empty());
            while i < chars.len()
                invariant_except_break
                    link_scan(t, i0 + 2, Seq::empty(), Seq::empty(), true) == link_scan(
                        t,
                        i as int,
                        target@,
                        description@,
                        in_target,
                    ),
                invariant
                    i0 + 2 <= i <= chars@.len(),
                    chars@ == t,
                ensures
                    link_scan(t, i0 + 2, Seq::empty(), Seq::empty(), true) == (target@, description@, i as int),
                decreases chars.len() - i,
            {
                let lc = chars[i];
                if lc == ']' && char_at(chars, i + 1) == Some('[') {
                    in_target = false;
                    i += 2;
                    continue;
                }
                if lc == ']' && char_at(chars, i + 1) == Some(']') {
                    i += 2;
                    break;
                }
                if in_target {
                    target.push(lc);
                } else {
                    description.push(lc);
                }
                i += 1;
            }
            let node = link_node(target, description);
            assert(views(result@.push(node)) =~= views(result@).push(node@));
            result.push(node);
            assert(current@ =~= Seq::<char>::empty());
            continue;
        }
        if c == '~' {
            let prev = if i > 0 {
                Some(chars[i - 1])
            } else {
                None
            };
            let next = char_at(chars, i + 1);
            assert(prev == prev_char(t, i as int));
            if org_emphasis_can_open(prev, next) {
                let mut close = i + 1;
                while close < chars.len() && chars[close] != '~'
                    invariant
                        i < close <= chars@.len(),
                        chars@ == t,
                        forall|k: int| i + 1 <= k < close ==> #[trigger] t[k] != '~',
                    decreases chars.len() - close,
                {
                    close += 1;
                }
                proof {
                    lemma_first_tilde(t, i + 1, close as int);
                }
                if close < chars.len() && close > i + 1 {
                    push_org_run(&mut current, &marks, &mut result);
                    let lit = crate::strs::sub_chars(chars, i + 1, close);
                    let literal = string_from_chars(lit.as_slice());
                    let mut code_marks = copy_values(&marks);
                    let cm = typed_node("code");
                    assert(views(code_marks@.push(cm)) =~= views(code_marks@).push(cm@));
                    code_marks.push(cm);
                    let node = text_node(literal, &code_marks);
                    assert(views(result@.push(node)) =~= views(result@).push(node@));
                    result.push(node);
                    assert(current@ =~= Seq::<char>::empty());
                    i = close + 1;
                    continue;
                }
            }
            current.push('~');
            i += 1;
            continue;
        }
        match org_emphasis_mark(c) {
            Some(mark_type) => {
                let prev = if i > 0 {
                    Some(chars[i - 1])
                } else {
                    None
                };
                let next = char_at(chars, i + 1);
                assert(prev == prev_char(t, i as int));
                if mark_active(marks.as_slice(), mark_type) {
                    if org_emphasis_can_close(prev) {
                        push_org_run(&mut current, &marks, &mut result);
                        remove_marks(&mut marks, mark_type);
                        assert(current@ =~= Seq::<char>::empty());
                        i += 1;
                        continue;
                    }
                } else if org_emphasis_can_open(prev, next) {
                    push_org_run(&mut current, &marks, &mut result);
                    let m = typed_node(mark_type);
                    assert(views(marks@.push(m)) =~= views(marks@).push(m@));
                    marks.push(m);
                    assert(current@ =~= Seq::<char>::empty());
                    i += 1;
                    continue;
                }
                current.push(c);
                i += 1;
            },
            None => {
                current.push(c);
                i += 1;
                assert(current@ =~= text@.take(i as int) || !no_inline_markup(text@));
            },
        }
    }
    let ghost cur = current@;
    assert(cur =~= text@.take(i as int) || !no_inline_markup(text@));
    assert(text@.take(i as int) =~= text@);
    push_org_run(&mut current, &marks, &mut result);
    result
}


/// Reading text free of inline markup only gathers it as pending text.
proof fn lemma_scan_plain(
    text: Seq<char>,
    i: int,
    j: int,
    cur: Seq<char>,
    marks: Seq<JsonSpec>,
    out: Seq<JsonSpec>,
)
    requires
        0 <= i <= j <= text.len(),
        forall|k: int|
            i <= k < j ==> !(#[trigger] text[k] == '[' || text[k] == '~' || spec_emphasis_mark(text[k]) is Some),
    ensures
        inline_scan(text, i, cur, marks, out) == inline_scan(text, j, cur + text.subrange(i, j), marks, out),
    decreases j - i,
{
    if i < j {
        let c = text[i];
        assert(!(c == '[' || c == '~' || spec_emphasis_mark(c) is Some));
        assert(inline_scan(text, i, cur, marks, out) == inline_scan(text, i + 1, cur.push(c), marks, out));
        lemma_scan_plain(text, i + 1, j, cur.push(c), marks, out);
        assert(cur.push(c) + text.subrange(i + 1, j) =~= cur + text.subrange(i, j));
    } else {
        assert(cur + text.subrange(i, j) =~= cur);
    }
}

/// Org emphasis between slashes is read as italic: `/w/`, for plain text `w`
/// that starts and ends with a character that is not whitespace, is read as
/// the one text node `w` with an `italic` mark.
pub proof fn lemma_org_italic_read(w: Seq<char>)
    requires
        w.len() > 0,
        no_inline_markup(w),
        !is_ws(w[0]),
        !is_ws(w.last()),
    ensures
        spec_parse_org_inline(seq!['/'] + w + seq!['/']) == seq![spec_text_node(w, seq![typed("italic"@)])],
{
    reveal_strlit("italic");
    reveal_strlit("type");
    let text = seq!['/'] + w + seq!['/'];
    let n = text.len() as int;
    let m = seq![typed("italic"@)];
    let e: Seq<JsonSpec> = Seq::empty();
    let z: Seq<char> = Seq::empty();
    assert(text[0] == '/');
    assert(text[1] == w[0]);
    assert(spec_emphasis_mark('/') == Some("italic"@));
    assert(!has_mark(e, "italic"@));
    assert(spec_can_open(prev_char(text, 0), spec_char_at(text, 1)));
    assert(run_pushed(z, e, e) == e);
    assert(inline_scan(text, 0, z, e, e) == inline_scan(text, 1, z, e.push(typed("italic"@)), e));
    assert(e.push(typed("italic"@)) =~= m);
    assert forall|k: int| 1 <= k < n - 1 implies !(#[trigger] text[k] == '[' || text[k] == '~'
        || spec_emphasis_mark(text[k]) is Some) by {
        assert(text[k] == w[k - 1]);
    }
    lemma_scan_plain(text, 1, n - 1, z, m, e);
    assert(z + text.subrange(1, n - 1) =~= w);
    assert(text[n - 1] == '/');
    assert(prev_char(text, n - 1) == Some(w.last()));
    let it = typed("italic"@);
    assert(it.node_type() == Some("italic"@)) by {
        let es = seq![("type"@, JsonSpec::Str("italic"@))];
        assert(es[0].0 == "type"@);
        assert(crate::json::entries_get(es, "type"@) == Some(JsonSpec::Str("italic"@)));
    }
    assert(m[0] == it);
    assert(has_mark(m, "italic"@));
    assert(spec_can_close(prev_char(text, n - 1)));
    assert(run_pushed(w, m, e) == seq![spec_text_node(w, m)]) by {
        assert(e.push(spec_text_node(w, m)) =~= seq![spec_text_node(w, m)]);
    }
    assert(inline_scan(text, n - 1, w, m, e) == inline_scan(text, n, z, without_type(m, "italic"@), seq![spec_text_node(w, m)]));
    assert(inline_scan(text, n, z, without_type(m, "italic"@), seq![spec_text_node(w, m)]) == seq![spec_text_node(w, m)]);
}

/// Org emphasis is read as its mark: `*w*` as bold, `/w/` as italic, `_w_`
/// as underline and `+w+` as strike, for plain text `w` that starts and ends
/// with a character that is not whitespace: the one text node `w` with that
/// mark.
pub proof fn lemma_org_emphasis_read(w: Seq<char>, c: char, name: Seq<char>)
    requires
        w.len() > 0,
        no_inline_markup(w),
        !is_ws(w[0]),
        !is_ws(w.last()),
        (c == '*' && name == "bold"@) || (c == '/' && name == "italic"@) || (c == '_' && name == "underline"@) || (c
            == '+' && name == "strike"@),
    ensures
        spec_parse_org_inline(seq![c] + w + seq![c]) == seq![spec_text_node(w, seq![typed(name)])],
{
    reveal_strlit("type");
    let text = seq![c] + w + seq![c];
    let n = text.len() as int;
    let m = seq![typed(name)];
    let e: Seq<JsonSpec> = Seq::empty();
    let z: Seq<char> = Seq::empty();
    assert(text[0] == c);
    assert(text[1] == w[0]);
    assert(spec_emphasis_mark(c) == Some(name));
    assert(!has_mark(e, name));
    assert(spec_can_open(prev_char(text, 0), spec_char_at(text, 1)));
    assert(run_pushed(z, e, e) == e);
    assert(c != '[' && c != '~');
    assert(inline_scan(text, 0, z, e, e) == inline_scan(text, 1, z, e.push(typed(name)), e));
    assert(e.push(typed(name)) =~= m);
    assert forall|k: int| 1 <= k < n - 1 implies !(#[trigger] text[k] == '[' || text[k] == '~'
        || spec_emphasis_mark(text[k]) is Some) by {
        assert(text[k] == w[k - 1]);
    }
    lemma_scan_plain(text, 1, n - 1, z, m, e);
    assert(z + text.subrange(1, n - 1) =~= w);
    assert(text[n - 1] == c);
    assert(prev_char(text, n - 1) == Some(w.last()));
    let it = typed(name);
    assert(it.node_type() == Some(name)) by {
        let es = seq![("type"@, JsonSpec::Str(name))];
        assert(es[0].0 == "type"@);
        assert(crate::json::entries_get(es, "type"@) == Some(JsonSpec::Str(name)));
    }
    assert(m[0] == it);
    assert(has_mark(m, name));
    assert(spec_can_close(prev_char(text, n - 1)));
    assert(run_pushed(w, m, e) == seq![spec_text_node(w, m)]) by {
        assert(e.push(spec_text_node(w, m)) =~= seq![spec_text_node(w, m)]);
    }
    assert(inline_scan(text, n - 1, w, m, e) == inline_scan(text, n, z, without_type(m, name), seq![spec_text_node(w, m)]));
    assert(inline_scan(text, n, z, without_type(m, name), seq![spec_text_node(w, m)]) == seq![spec_text_node(w, m)]);
}


} // verus!
