//! Reading the Markdown source around a parse event: blank lines between
//! elements, indentation, multi-line code spans and list markers, located by
//! byte offsets.

use vstd::prelude::*;
use vstd::string::StringSliceAdditionalSpecFns;
use vstd::utf8::{decode_utf8, is_char_boundary};
use crate::json::{JsonSpec, JsonValue};
use crate::lines::{lemma_split_lines_nonempty, split_lines, split_lines_exec};
use crate::md_blocks::{count_leading, leading_count, lemma_leading_count};
use crate::strs::{chars_of, is_blank, str_get, trim, trim_start};

verus! {

broadcast use vstd::utf8::encode_utf8_decode_utf8;

// ----- source ranges -----

/// Whether `markdown.get(start..end)` has a slice: both offsets on
/// character boundaries, in order.
pub open spec fn valid_range(b: Seq<u8>, start: int, end: int) -> bool {
    start <= end && is_char_boundary(b, start) && is_char_boundary(b, end)
}

/// The characters between two byte offsets of the source.
pub open spec fn range_chars(b: Seq<u8>, start: int, end: int) -> Seq<char> {
    decode_utf8(b.subrange(start, end))
}

/// The characters of `markdown[start..end]`, where that is a slice.
pub fn source_chars(markdown: &str, start: usize, end: usize) -> (r: Option<Vec<char>>)
    ensures
        match r {
            Some(v) => valid_range(markdown.spec_bytes(), start as int, end as int) && v@
                == range_chars(markdown.spec_bytes(), start as int, end as int),
            None => !valid_range(markdown.spec_bytes(), start as int, end as int),
        },
{
    proof {
        vstd::utf8::encode_utf8_valid_utf8(markdown@);
        if end > markdown.spec_bytes().len() {
            assert(!is_char_boundary(markdown.spec_bytes(), end as int));
        }
    }
    match str_get(markdown, start, end) {
        Some(t) => {
            let v = chars_of(t);
            assert(decode_utf8(t.spec_bytes()) == t@);
            Some(v)
        },
        None => None,
    }
}

// ----- blank lines -----

/// A space, tab or carriage return.
pub open spec fn is_inline_space(b: u8) -> bool {
    b == 32 || b == 9 || b == 13
}

/// Whether `b[i..end]`, read forward with `breaks` line breaks already
/// counted, reaches a second line break before anything but spaces, tabs
/// and carriage returns.
pub open spec fn blank_line_ahead(b: Seq<u8>, i: int, end: int, breaks: int) -> bool
    decreases end - i,
{
    if i >= end {
        false
    } else if is_inline_space(b[i]) {
        blank_line_ahead(b, i + 1, end, breaks)
    } else if b[i] == 10 {
        breaks + 1 >= 2 || blank_line_ahead(b, i + 1, end, breaks + 1)
    } else {
        false
    }
}

/// Whether `b[start..i]`, read backward, reaches a second line break before
/// anything but spaces, tabs and carriage returns.
pub open spec fn blank_line_behind(b: Seq<u8>, start: int, i: int, breaks: int) -> bool
    decreases i - start,
{
    if i <= start {
        false
    } else if is_inline_space(b[i - 1]) {
        blank_line_behind(b, start, i - 1, breaks)
    } else if b[i - 1] == 10 {
        breaks + 1 >= 2 || blank_line_behind(b, start, i - 1, breaks + 1)
    } else {
        false
    }
}

/// Whether a blank line separates the element ending at `previous_end` from
/// the one starting at `current_start` (a line break just before
/// `previous_end` counts).
pub open spec fn spec_has_blank_between(b: Seq<u8>, previous_end: int, current_start: int) -> bool {
    &&& valid_range(b, previous_end, current_start)
    &&& blank_line_ahead(
        b,
        previous_end,
        current_start,
        if previous_end > 0 && b[previous_end - 1] == 10 {
            1
        } else {
            0
        },
    )
}

/// Whether the source between two byte offsets holds a blank line.
#[verifier::loop_isolation(false)]
pub fn has_blank_between(markdown: &str, previous_end: usize, current_start: usize) -> (r: bool)
    ensures
        r == spec_has_blank_between(markdown.spec_bytes(), previous_end as int, current_start as int),
{
    let bytes = markdown.as_bytes();
    proof {
        vstd::utf8::encode_utf8_valid_utf8(markdown@);
        if current_start > bytes@.len() {
            assert(!is_char_boundary(bytes@, current_start as int));
        }
    }
    if str_get(markdown, previous_end, current_start).is_none() {
        return false;
    }
    let ghost b = bytes@;
    let mut line_breaks: usize = if previous_end > 0 && bytes[previous_end - 1] == 10u8 {
        1
    } else {
        0
    };
    let mut i = previous_end;
    while i < current_start
        invariant
            b == bytes@,
            previous_end <= i <= current_start <= b.len(),
            line_breaks <= 1,
            spec_has_blank_between(b, previous_end as int, current_start as int) == blank_line_ahead(
                b,
                i as int,
                current_start as int,
                line_breaks as int,
            ),
        decreases current_start - i,
    {
        let c = bytes[i];
        if c == 32u8 || c == 9u8 || c == 13u8 {
        } else if c == 10u8 {
            if line_breaks >= 1 {
                return true;
            }
            line_breaks += 1;
        } else {
            return false;
        }
        i += 1;
    }
    false
}

/// Whether the source of an element ends with a blank line.
#[verifier::loop_isolation(false)]
pub fn item_has_trailing_blank(markdown: &str, start: usize, end: usize) -> (r: bool)
    ensures
        r == (valid_range(markdown.spec_bytes(), start as int, end as int) && blank_line_behind(
            markdown.spec_bytes(),
            start as int,
            end as int,
            0,
        )),
{
    let bytes = markdown.as_bytes();
    proof {
        vstd::utf8::encode_utf8_valid_utf8(markdown@);
        if end > bytes@.len() {
            assert(!is_char_boundary(bytes@, end as int));
        }
    }
    if str_get(markdown, start, end).is_none() {
        return false;
    }
    let ghost b = bytes@;
    let mut line_breaks: usize = 0;
    let mut i = end;
    while i > start
        invariant
            b == bytes@,
            start <= i <= end <= b.len(),
            line_breaks <= 1,
            blank_line_behind(b, start as int, end as int, 0) == blank_line_behind(
                b,
                start as int,
                i as int,
                line_breaks as int,
            ),
        decreases i,
    {
        let c = bytes[i - 1];
        if c == 32u8 || c == 9u8 || c == 13u8 {
        } else if c == 10u8 {
            if line_breaks >= 1 {
                return true;
            }
            line_breaks += 1;
        } else {
            return false;
        }
        i -= 1;
    }
    false
}

// ----- indentation -----

/// The width of the spaces and tabs (a tab counting four) just before byte
/// `i`.
pub open spec fn indent_before(b: Seq<u8>, i: int) -> nat
    decreases i,
{
    if i <= 0 {
        0
    } else if b[i - 1] == 32 {
        1 + indent_before(b, i - 1)
    } else if b[i - 1] == 9 {
        4 + indent_before(b, i - 1)
    } else {
        0
    }
}

/// The indent just before a byte offset; zero where the offset is not on a
/// character boundary.
#[verifier::loop_isolation(false)]
pub fn leading_indent_before(markdown: &str, byte_idx: usize) -> (r: usize)
    ensures
        r == (if is_char_boundary(markdown.spec_bytes(), byte_idx as int) {
            let w = indent_before(markdown.spec_bytes(), byte_idx as int);
            if w <= usize::MAX {
                w
            } else {
                usize::MAX as nat
            }
        } else {
            0
        }),
{
    if !markdown.is_char_boundary(byte_idx) {
        return 0;
    }
    let bytes = markdown.as_bytes();
    proof {
        vstd::utf8::encode_utf8_valid_utf8(markdown@);
        if byte_idx > bytes@.len() {
            assert(!is_char_boundary(bytes@, byte_idx as int));
        }
    }
    let ghost b = bytes@;
    let ghost mut acc: nat = 0;
    let mut width: usize = 0;
    let mut i = byte_idx;
    while i > 0
        invariant
            b == bytes@,
            i <= byte_idx <= b.len(),
            indent_before(b, byte_idx as int) == acc + indent_before(b, i as int),
            width == (if acc <= usize::MAX {
                acc
            } else {
                usize::MAX as nat
            }),
        decreases i,
    {
        let c = bytes[i - 1];
        if c == 32u8 {
            width = width.saturating_add(1);
            proof {
                acc = acc + 1;
            }
        } else if c == 9u8 {
            width = width.saturating_add(4);
            proof {
                acc = acc + 4;
            }
        } else {
            return width;
        }
        i -= 1;
    }
    width
}

// ----- multi-line code spans -----

/// Line breaks as `\n`: `\r\n` and a lone `\r` each become one `\n`.
pub open spec fn normalized_breaks(s: Seq<char>) -> Seq<char>
    decreases s.len(),
{
    if s.len() == 0 {
        Seq::empty()
    } else if s[0] == '\r' && s.len() >= 2 && s[1] == '\n' {
        seq!['\n'] + normalized_breaks(s.skip(2))
    } else if s[0] == '\r' {
        seq!['\n'] + normalized_breaks(s.skip(1))
    } else {
        seq![s[0]] + normalized_breaks(s.skip(1))
    }
}

pub open spec fn has_line_break(s: Seq<char>) -> bool {
    exists|i: int| 0 <= i < s.len() && (#[trigger] s[i] == '\n' || s[i] == '\r')
}

/// The inside of a code span's source between its fences of backticks,
/// with line breaks as `\n`: none unless the source opens with a fence, is
/// long enough for a closing one (which, where `closing`, it must end with),
/// and the inside spans lines.
pub open spec fn code_span_inner(raw: Seq<char>, closing: bool) -> Option<Seq<char>> {
    let d = leading_count(raw, '`') as int;
    if d == 0 || raw.len() < 2 * d || (closing && !(forall|k: int|
        raw.len() - d <= k < raw.len() ==> #[trigger] raw[k] == '`')) {
        None
    } else {
        let inner = raw.subrange(d, raw.len() - d);
        if !has_line_break(inner) {
            None
        } else {
            Some(normalized_breaks(inner))
        }
    }
}

#[verifier::loop_isolation(false)]
fn code_span_inner_exec(raw: &[char], closing: bool) -> (r: Option<Vec<char>>)
    ensures
        match r {
            Some(v) => code_span_inner(raw@, closing) == Some(v@),
            None => code_span_inner(raw@, closing) is None,
        },
{
    let d = count_leading(raw, '`');
    proof {
        lemma_leading_count(raw@, '`');
    }
    if d == 0 || raw.len() - d < d {
        return None;
    }
    if closing {
        let mut k = raw.len() - d;
        while k < raw.len()
            invariant
                raw@.len() - d <= k <= raw@.len(),
                forall|j: int| raw@.len() - d <= j < k ==> #[trigger] raw@[j] == '`',
            decreases raw.len() - k,
        {
            if raw[k] != '`' {
                assert(raw@[k as int] != '`');
                return None;
            }
            k += 1;
        }
    }
    let stop = raw.len() - d;
    let ghost inner = raw@.subrange(d as int, stop as int);
    let mut has_break = false;
    let mut out: Vec<char> = Vec::new();
    let mut i = d;
    assert(inner.skip(0) =~= inner);
    while i < stop
        invariant
            d <= i <= stop <= raw@.len(),
            inner == raw@.subrange(d as int, stop as int),
            normalized_breaks(inner) == out@ + normalized_breaks(inner.skip(i - d)),
            has_break == exists|j: int| 0 <= j < i - d && (#[trigger] inner[j] == '\n' || inner[j] == '\r'),
        decreases stop - i,
    {
        let c = raw[i];
        let ghost t = inner.skip(i - d);
        assert(t[0] == c);
        if c == '\r' {
            has_break = true;
            if i + 1 < stop && raw[i + 1] == '\n' {
                assert(t[1] == '\n');
                out.push('\n');
                assert(t.skip(2) =~= inner.skip(i + 2 - d));
                i += 2;
                assert(inner[i - 1 - d] == '\n');
            } else {
                out.push('\n');
                assert(t.skip(1) =~= inner.skip(i + 1 - d));
                i += 1;
            }
        } else {
            if c == '\n' {
                has_break = true;
            }
            out.push(c);
            assert(t.skip(1) =~= inner.skip(i + 1 - d));
            i += 1;
        }
        assert(has_break == exists|j: int| 0 <= j < i - d && (#[trigger] inner[j] == '\n' || inner[j] == '\r'));
    }
    assert(inner.skip(i - d).len() == 0);
    assert(out@ =~= normalized_breaks(inner));
    if !has_break {
        return None;
    }
    Some(out)
}

/// Text with the spaces and tabs that follow each line break removed;
/// `at_line_start` says whether the text itself starts a continuation line.
pub open spec fn without_continuation_indent(s: Seq<char>, at_line_start: bool) -> Seq<char>
    decreases s.len(),
{
    if s.len() == 0 {
        Seq::empty()
    } else if s[0] == '\n' {
        seq!['\n'] + without_continuation_indent(s.skip(1), true)
    } else if at_line_start && (s[0] == ' ' || s[0] == '\t') {
        without_continuation_indent(s.skip(1), true)
    } else {
        seq![s[0]] + without_continuation_indent(s.skip(1), false)
    }
}

/// A multi-line code span as written in the source: its inside, each line
/// after the first without its leading spaces and tabs; none unless the
/// source range is a fenced code span that spans lines.
pub fn raw_multiline_code_span(markdown: &str, start: usize, end: usize) -> (r: Option<Vec<char>>)
    ensures
        r is Some ==> valid_range(markdown.spec_bytes(), start as int, end as int),
        valid_range(markdown.spec_bytes(), start as int, end as int) ==> match code_span_inner(
            range_chars(markdown.spec_bytes(), start as int, end as int),
            true,
        ) {
            Some(inner) => r matches Some(v) && v@ == without_continuation_indent(inner, false),
            None => r is None,
        },
{
    let raw = match source_chars(markdown, start, end) {
        Some(r) => r,
        None => return None,
    };
    let inner = match code_span_inner_exec(raw.as_slice(), true) {
        Some(i) => i,
        None => return None,
    };
    let mut out: Vec<char> = Vec::new();
    let mut at_line_start = false;
    let mut i: usize = 0;
    assert(inner@.skip(0) =~= inner@);
    while i < inner.len()
        invariant
            i <= inner@.len(),
            without_continuation_indent(inner@, false) == out@ + without_continuation_indent(
                inner@.skip(i as int),
                at_line_start,
            ),
        decreases inner.len() - i,
    {
        let c = inner[i];
        let ghost t = inner@.skip(i as int);
        assert(t[0] == c);
        assert(t.skip(1) =~= inner@.skip(i + 1));
        if c == '\n' {
            out.push(c);
            at_line_start = true;
        } else if at_line_start && (c == ' ' || c == '\t') {
        } else {
            at_line_start = false;
            out.push(c);
        }
        i += 1;
    }
    assert(inner@.skip(i as int).len() == 0);
    assert(out@ =~= without_continuation_indent(inner@, false));
    Some(out)
}

/// The number of leading spaces and tabs of a line.
pub open spec fn leading_blank_count(l: Seq<char>) -> nat
    decreases l.len(),
{
    if l.len() > 0 && (l[0] == ' ' || l[0] == '\t') {
        1 + leading_blank_count(l.drop_first())
    } else {
        0
    }
}

/// The width of the first `j` characters of a line (a tab counting four),
/// saturating at `usize::MAX`.
pub open spec fn blank_width(l: Seq<char>, j: int) -> nat
    decreases j,
{
    if j <= 0 {
        0
    } else {
        let w = blank_width(l, j - 1) + if l[j - 1] == '\t' {
            4nat
        } else {
            1nat
        };
        if w <= usize::MAX {
            w
        } else {
            usize::MAX as nat
        }
    }
}

/// A line's indent: the width of its leading spaces and tabs.
pub open spec fn line_indent(l: Seq<char>) -> nat {
    blank_width(l, leading_blank_count(l) as int)
}

/// The least indent among lines that are not blank.
pub open spec fn least_indent(ls: Seq<Seq<char>>) -> Option<nat>
    decreases ls.len(),
{
    if ls.len() == 0 {
        None
    } else {
        let rest = least_indent(ls.drop_last());
        if trim(ls.last()).len() == 0 {
            rest
        } else {
            match rest {
                None => Some(line_indent(ls.last())),
                Some(m) => Some(
                    if line_indent(ls.last()) < m {
                        line_indent(ls.last())
                    } else {
                        m
                    },
                ),
            }
        }
    }
}

proof fn lemma_leading_blank_exact(l: Seq<char>, n: int)
    requires
        0 <= n <= l.len(),
        forall|j: int| 0 <= j < n ==> (#[trigger] l[j] == ' ' || l[j] == '\t'),
        n == l.len() || !(l[n] == ' ' || l[n] == '\t'),
    ensures
        leading_blank_count(l) == n,
    decreases n,
{
    if n > 0 {
        assert forall|j: int| 0 <= j < n - 1 implies (#[trigger] l.drop_first()[j] == ' ' || l.drop_first()[j] == '\t') by {
            assert(l.drop_first()[j] == l[j + 1]);
        }
        lemma_leading_blank_exact(l.drop_first(), n - 1);
    }
}

fn line_indent_exec(line: &[char]) -> (r: usize)
    ensures
        r == line_indent(line@),
{
    let mut width: usize = 0;
    let mut j: usize = 0;
    while j < line.len() && (line[j] == ' ' || line[j] == '\t')
        invariant
            j <= line@.len(),
            forall|k: int| 0 <= k < j ==> (#[trigger] line@[k] == ' ' || line@[k] == '\t'),
            width == blank_width(line@, j as int),
        decreases line.len() - j,
    {
        width = width.saturating_add(if line[j] == '\t' { 4 } else { 1 });
        j += 1;
    }
    proof {
        lemma_leading_blank_exact(line@, j as int);
    }
    width
}

/// The least indent of a multi-line code span's continuation lines that are
/// not blank; none unless the source range is a code span that spans lines.
pub fn raw_multiline_code_span_continuation_indent(markdown: &str, start: usize, end: usize) -> (r: Option<usize>)
    ensures
        r is Some ==> valid_range(markdown.spec_bytes(), start as int, end as int),
        valid_range(markdown.spec_bytes(), start as int, end as int) ==> match code_span_inner(
            range_chars(markdown.spec_bytes(), start as int, end as int),
            false,
        ) {
            Some(inner) => match least_indent(split_lines(inner).drop_first()) {
                Some(m) => r == Some(m as usize),
                None => r is None,
            },
            None => r is None,
        },
{
    let raw = match source_chars(markdown, start, end) {
        Some(r) => r,
        None => return None,
    };
    let inner = match code_span_inner_exec(raw.as_slice(), false) {
        Some(i) => i,
        None => return None,
    };
    let lines = split_lines_exec(inner.as_slice());
    let ghost ls = split_lines(inner@);
    proof {
        lemma_split_lines_nonempty(inner@);
    }
    let mut best: Option<usize> = None;
    let mut k: usize = 1;
    assert(ls.subrange(1, 1).len() == 0);
    while k < lines.len()
        invariant
            1 <= k <= lines@.len() == ls.len(),
            ls == split_lines(inner@),
            forall|j: int| 0 <= j < lines@.len() ==> #[trigger] lines@[j]@ == ls[j],
            match least_indent(ls.subrange(1, k as int)) {
                Some(m) => best == Some(m as usize) && m <= usize::MAX,
                None => best is None,
            },
        decreases lines.len() - k,
    {
        let line = &lines[k];
        assert(ls.subrange(1, k + 1).drop_last() =~= ls.subrange(1, k as int));
        assert(ls.subrange(1, k + 1).last() == line@);
        if !is_blank(line.as_slice()) {
            let width = line_indent_exec(line.as_slice());
            best = match best {
                Some(b) => Some(if width < b { width } else { b }),
                None => Some(width),
            };
        }
        k += 1;
    }
    assert(ls.subrange(1, k as int) =~= ls.drop_first());
    best
}

// ----- list markers -----

/// A bullet list's marker attribute: `{"marker": "*"}` or `{"marker": "+"}`
/// where the list's source starts with that marker, none for `-`.
pub open spec fn spec_bullet_list_attrs(raw: Seq<char>) -> Option<JsonSpec> {
    let t = trim_start(raw);
    if t.len() > 0 && (t[0] == '*' || t[0] == '+') {
        Some(JsonSpec::Object(seq![("marker"@, JsonSpec::Str(seq![t[0]]))]))
    } else {
        None
    }
}

pub fn bullet_list_attrs(markdown: &str, start: usize, end: usize) -> (r: Option<JsonValue>)
    ensures
        match r {
            Some(v) => valid_range(markdown.spec_bytes(), start as int, end as int) && spec_bullet_list_attrs(
                range_chars(markdown.spec_bytes(), start as int, end as int),
            ) == Some(v@),
            None => !valid_range(markdown.spec_bytes(), start as int, end as int) || spec_bullet_list_attrs(
                range_chars(markdown.spec_bytes(), start as int, end as int),
            ) is None,
        },
{
    let raw = match source_chars(markdown, start, end) {
        Some(r) => r,
        None => return None,
    };
    let i = crate::strs::trim_start_index(raw.as_slice());
    if i < raw.len() && (raw[i] == '*' || raw[i] == '+') {
        let c = raw[i];
        assert(trim_start(raw@)[0] == c);
        let mut es: Vec<(String, JsonValue)> = Vec::new();
        let mut m = String::new();
        m.push(c);
        es.push(("marker".to_owned(), JsonValue::String(m)));
        let r = JsonValue::object(es);
        assert(crate::json::entry_views(es@) =~= seq![("marker"@, JsonSpec::Str(seq![c]))]);
        Some(r)
    } else {
        None
    }
}

} // verus!
