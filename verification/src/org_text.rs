//! Org-mode text rules: escaping of link parts and of lines that Org would
//! read as structure, and the line markers the importer recognises.

use vstd::prelude::*;
use crate::lines::{flat_map, lemma_flat_map_step, lemma_split_lines_nonempty, split_lines, split_lines_exec};
use crate::md_blocks::{count_leading, join_lines, leading_count, lemma_leading_count};
use crate::md_escape::is_ascii_digit;
use crate::strs::{chars_of, is_ws, str_eq, string_from_chars, trim, trim_chars, trim_start};

verus! {

// ----- link parts -----

/// How a link description writes one character.
pub open spec fn description_char(c: char) -> Seq<char> {
    if c == ']' {
        seq![')']
    } else if c == '[' {
        seq!['(']
    } else if c == '\n' || c == '\r' {
        seq![' ']
    } else {
        seq![c]
    }
}

/// A link description: brackets as parentheses, line breaks as spaces.
pub open spec fn escaped_description(s: Seq<char>) -> Seq<char> {
    flat_map(s, |c: char| description_char(c))
}

/// How a link target writes one character.
pub open spec fn target_char(c: char) -> Seq<char> {
    if c == '[' {
        seq!['%', '5', 'B']
    } else if c == ']' {
        seq!['%', '5', 'D']
    } else if c == '\n' || c == '\r' {
        Seq::empty()
    } else {
        seq![c]
    }
}

/// A link target: brackets percent-encoded, line breaks dropped.
pub open spec fn escaped_target(s: Seq<char>) -> Seq<char> {
    flat_map(s, |c: char| target_char(c))
}

/// Text that cannot end an Org link part or the line: no bracket and no
/// line break.
pub open spec fn link_safe(s: Seq<char>) -> bool {
    forall|i: int|
        0 <= i < s.len() ==> !(#[trigger] s[i] == '[' || s[i] == ']' || s[i] == '\n' || s[i] == '\r')
}

proof fn lemma_link_safe_append(a: Seq<char>, b: Seq<char>)
    requires
        link_safe(a),
        link_safe(b),
    ensures
        link_safe(a + b),
{
    assert forall|i: int| 0 <= i < (a + b).len() implies !(#[trigger] (a + b)[i] == '[' || (a
        + b)[i] == ']' || (a + b)[i] == '\n' || (a + b)[i] == '\r') by {
        if i < a.len() {
            assert((a + b)[i] == a[i]);
        } else {
            assert((a + b)[i] == b[i - a.len()]);
        }
    }
}

/// Escapes an Org link description: `[` and `]` become `(` and `)`, line
/// breaks become spaces, so the description cannot close the link.
pub fn org_escape_description(text: &str) -> (r: String)
    ensures
        r@ == escaped_description(text@),
        r@.len() == text@.len(),
        link_safe(r@),
{
    let cs = chars_of(text);
    let mut out = String::new();
    let mut i: usize = 0;
    assert(out@ =~= escaped_description(cs@.take(0)));
    while i < cs.len()
        invariant
            i <= cs@.len(),
            cs@ == text@,
            out@ == escaped_description(cs@.take(i as int)),
            out@.len() == i,
            link_safe(out@),
        decreases cs.len() - i,
    {
        proof {
            lemma_flat_map_step(cs@, |c: char| description_char(c), i as int);
        }
        let c = cs[i];
        let d = if c == ']' {
            ')'
        } else if c == '[' {
            '('
        } else if c == '\n' || c == '\r' {
            ' '
        } else {
            c
        };
        proof {
            lemma_link_safe_append(out@, seq![d]);
        }
        out.push(d);
        assert(out@ =~= escaped_description(cs@.take(i + 1)));
        i += 1;
    }
    assert(cs@.take(i as int) =~= cs@);
    out
}

/// Escapes an Org link target: `[` and `]` are percent-encoded and line
/// breaks dropped, so the target cannot close the link.
pub fn org_escape_target(target: &str) -> (r: String)
    ensures
        r@ == escaped_target(target@),
        link_safe(r@),
{
    let cs = chars_of(target);
    let mut out = String::new();
    let mut i: usize = 0;
    assert(out@ =~= escaped_target(cs@.take(0)));
    while i < cs.len()
        invariant
            i <= cs@.len(),
            cs@ == target@,
            out@ == escaped_target(cs@.take(i as int)),
            link_safe(out@),
        decreases cs.len() - i,
    {
        proof {
            lemma_flat_map_step(cs@, |c: char| target_char(c), i as int);
        }
        let c = cs[i];
        let ghost before = out@;
        if c == '[' {
            out.push('%');
            out.push('5');
            out.push('B');
        } else if c == ']' {
            out.push('%');
            out.push('5');
            out.push('D');
        } else if c == '\n' || c == '\r' {
        } else {
            out.push(c);
        }
        proof {
            assert(out@ =~= before + target_char(c));
            lemma_link_safe_append(before, target_char(c));
        }
        i += 1;
    }
    assert(cs@.take(i as int) =~= cs@);
    out
}

// ----- ordered-list markers -----

/// The number of leading ASCII digits of `s`.
pub open spec fn leading_digit_count(s: Seq<char>) -> nat
    decreases s.len(),
{
    if s.len() > 0 && is_ascii_digit(s[0]) {
        1 + leading_digit_count(s.drop_first())
    } else {
        0
    }
}

/// The number that ASCII digits `s` write.
pub open spec fn digits_value(s: Seq<char>) -> nat
    decreases s.len(),
{
    if s.len() == 0 {
        0
    } else {
        digits_value(s.drop_last()) * 10 + (s.last() as int - '0' as int) as nat
    }
}

/// An ordered-list marker at the start of `s` (`1. `, `10) `): the number,
/// where it fits `i64`, and where the item's text starts.
pub open spec fn ordered_marker(s: Seq<char>) -> Option<(i64, int)> {
    let d = leading_digit_count(s) as int;
    if d > 0 && d + 2 <= s.len() && (s[d] == '.' || s[d] == ')') && s[d + 1] == ' ' && digits_value(
        s.take(d),
    ) <= i64::MAX {
        Some((digits_value(s.take(d)) as i64, d + 2))
    } else {
        None
    }
}

proof fn lemma_leading_digits_exact(s: Seq<char>, n: int)
    requires
        0 <= n <= s.len(),
        forall|j: int| 0 <= j < n ==> is_ascii_digit(#[trigger] s[j]),
        n == s.len() || !is_ascii_digit(s[n]),
    ensures
        leading_digit_count(s) == n,
    decreases n,
{
    if n > 0 {
        assert forall|j: int| 0 <= j < n - 1 implies is_ascii_digit(#[trigger] s.drop_first()[j]) by {
            assert(s.drop_first()[j] == s[j + 1]);
        }
        lemma_leading_digits_exact(s.drop_first(), n - 1);
    }
}

proof fn lemma_digits_value_grows(s: Seq<char>, j: int, d: int)
    requires
        0 <= j <= d <= s.len(),
        forall|k: int| 0 <= k < d ==> is_ascii_digit(#[trigger] s[k]),
    ensures
        digits_value(s.take(j)) <= digits_value(s.take(d)),
    decreases d - j,
{
    if j < d {
        lemma_digits_value_grows(s, j, d - 1);
        assert(s.take(d).drop_last() =~= s.take(d - 1));
        assert(s.take(d).last() == s[d - 1]);
        assert(digits_value(s.take(d - 1)) <= digits_value(s.take(d - 1)) * 10);
    }
}

/// Reads a leading ordered-list marker of any width (`1. `, `10. `, `3) `):
/// the number and the index where the item's text starts. None where there
/// is no such marker or the number does not fit `i64`.
pub fn parse_org_ordered_marker(trimmed: &[char]) -> (r: Option<(i64, usize)>)
    ensures
        match r {
            Some((n, k)) => ordered_marker(trimmed@) == Some((n, k as int)),
            None => ordered_marker(trimmed@) is None,
        },
{
    let s = trimmed;
    let mut d: usize = 0;
    while d < s.len() && '0' <= s[d] && s[d] <= '9'
        invariant
            d <= s@.len(),
            forall|j: int| 0 <= j < d ==> is_ascii_digit(#[trigger] s@[j]),
        decreases s.len() - d,
    {
        d += 1;
    }
    proof {
        lemma_leading_digits_exact(s@, d as int);
    }
    if d == 0 || s.len() - d < 2 {
        return None;
    }
    if !((s[d] == '.' || s[d] == ')') && s[d + 1] == ' ') {
        return None;
    }
    let mut v: i64 = 0;
    let mut k: usize = 0;
    assert(s@.take(0) =~= Seq::<char>::empty());
    while k < d
        invariant
            s@ == trimmed@,
            0 < d,
            k <= d,
            d + 2 <= s@.len(),
            (s@[d as int] == '.' || s@[d as int] == ')') && s@[d + 1] == ' ',
            leading_digit_count(s@) == d,
            forall|j: int| 0 <= j < d ==> is_ascii_digit(#[trigger] s@[j]),
            v as int == digits_value(s@.take(k as int)),
        decreases d - k,
    {
        assert(is_ascii_digit(s@[k as int]));
        let digit: i64 = (s[k] as u32 - 48) as i64;
        assert(s@.take(k + 1).drop_last() =~= s@.take(k as int));
        assert(s@.take(k + 1).last() == s@[k as int]);
        assert(digits_value(s@.take(k + 1)) == v * 10 + digit);
        let m = v.checked_mul(10);
        match m {
            Some(m) => {
                match m.checked_add(digit) {
                    Some(nv) => {
                        v = nv;
                    },
                    None => {
                        proof {
                            lemma_digits_value_grows(s@, k + 1, d as int);
                            assert(digits_value(s@.take(k + 1)) > i64::MAX);
                            assert(digits_value(s@.take(d as int)) > i64::MAX);
                                }
                        return None;
                    },
                }
            },
            None => {
                proof {
                    lemma_digits_value_grows(s@, k + 1, d as int);
                    assert(v * 10 > i64::MAX);
                    assert(digits_value(s@.take(k + 1)) > i64::MAX);
                    assert(digits_value(s@.take(d as int)) > i64::MAX);
                }
                return None;
            },
        }
        k += 1;
    }
    assert(s@.take(k as int) == s@.take(d as int));
    Some((v, d + 2))
}

// ----- lines Org reads as structure -----

/// The upper-case form of a string, as `str::to_uppercase` maps it (full
/// Unicode case mapping, independent of locale).
pub uninterp spec fn unicode_uppercase(s: Seq<char>) -> Seq<char>;

/// Calls `str::to_uppercase`.
#[verifier::external_body]
pub(crate) fn to_uppercase(s: &str) -> (r: String)
    ensures
        r@ == unicode_uppercase(s@),
{
    s.to_uppercase()
}

/// Whether `s` begins with `p`.
pub fn chars_start_with(s: &[char], p: &[char]) -> (r: bool)
    ensures
        r == p@.is_prefix_of(s@),
{
    if p.len() > s.len() {
        return false;
    }
    let mut i: usize = 0;
    while i < p.len()
        invariant
            i <= p@.len() <= s@.len(),
            forall|j: int| 0 <= j < i ==> p@[j] == s@[j],
        decreases p.len() - i,
    {
        if p[i] != s[i] {
            return false;
        }
        i += 1;
    }
    true
}

/// A line Org would read as a source or quote block marker, a heading, a
/// rule, a list item or a table row: any line whose upper-cased form
/// begins with `#+BEGIN_SRC` opens a source block.
pub open spec fn line_starts_structure(line: Seq<char>) -> bool {
    let t = trim(line);
    let u = unicode_uppercase(t);
    let stars = leading_count(t, '*');
    &&& t.len() > 0
    &&& {
        ||| "#+BEGIN_SRC"@.is_prefix_of(u)
        ||| u == "#+END_SRC"@
        ||| u == "#+BEGIN_QUOTE"@
        ||| u == "#+END_QUOTE"@
        ||| "-----"@.is_prefix_of(t)
        ||| "- "@.is_prefix_of(t)
        ||| ordered_marker(t) is Some
        ||| (t[0] == '|' && t.last() == '|')
        ||| (stars > 0 && stars < t.len() && t[stars as int] == ' ')
    }
}

fn starts_with_str(s: &[char], p: &str) -> (r: bool)
    ensures
        r == p@.is_prefix_of(s@),
{
    let pc = chars_of(p);
    chars_start_with(s, pc.as_slice())
}

/// Whether a line would be read by the Org importer as block structure
/// rather than paragraph text.
pub fn org_line_starts_structure(line: &[char]) -> (r: bool)
    ensures
        r == line_starts_structure(line@),
{
    let t = trim_chars(line);
    if t.len() == 0 {
        return false;
    }
    let ts = crate::strs::string_from_chars(t.as_slice());
    let upper = to_uppercase(ts.as_str());
    let u = upper.as_str();
    if str_eq(u, "#+END_SRC") || str_eq(u, "#+BEGIN_QUOTE") || str_eq(u, "#+END_QUOTE") {
        return true;
    }
    let uc = chars_of(u);
    if starts_with_str(uc.as_slice(), "#+BEGIN_SRC") {
        return true;
    }
    if starts_with_str(t.as_slice(), "-----") || starts_with_str(t.as_slice(), "- ") {
        return true;
    }
    if parse_org_ordered_marker(t.as_slice()).is_some() {
        return true;
    }
    if t[0] == '|' && t[t.len() - 1] == '|' {
        return true;
    }
    let stars = count_leading(t.as_slice(), '*');
    stars > 0 && stars < t.len() && t[stars] == ' '
}

// ----- escaped lines -----

/// A character lower-cased as ASCII (`u8::to_ascii_lowercase`), by code.
pub open spec fn ascii_lower_code(c: char) -> u32 {
    if 'A' <= c && c <= 'Z' {
        (c as u32 + 32) as u32
    } else {
        c as u32
    }
}

/// ASCII case-insensitive equality (`str::eq_ignore_ascii_case`, for an
/// ASCII right-hand side).
pub open spec fn eq_ignore_ascii_case(a: Seq<char>, b: Seq<char>) -> bool {
    a.len() == b.len() && forall|i: int| 0 <= i < a.len() ==> #[trigger] ascii_lower_code(a[i])
        == ascii_lower_code(b[i])
}

pub fn chars_eq_ignore_ascii_case(a: &[char], b: &[char]) -> (r: bool)
    ensures
        r == eq_ignore_ascii_case(a@, b@),
{
    if a.len() != b.len() {
        return false;
    }
    let mut i: usize = 0;
    while i < a.len()
        invariant
            i <= a@.len() == b@.len(),
            forall|j: int| 0 <= j < i ==> #[trigger] ascii_lower_code(a@[j]) == ascii_lower_code(b@[j]),
        decreases a.len() - i,
    {
        let x = a[i];
        let y = b[i];
        let lx: u32 = if 'A' <= x && x <= 'Z' { x as u32 + 32 } else { x as u32 };
        let ly: u32 = if 'A' <= y && y <= 'Z' { y as u32 + 32 } else { y as u32 };
        if lx != ly {
            assert(ascii_lower_code(a@[i as int]) != ascii_lower_code(b@[i as int]));
            return false;
        }
        i += 1;
    }
    true
}

/// A source-block line that would end the block early.
pub open spec fn is_end_src_line(line: Seq<char>) -> bool {
    eq_ignore_ascii_case(trim(line), "#+END_SRC"@)
}

/// A source-block line as written: a `,` before one that would end the
/// block.
pub open spec fn source_line(line: Seq<char>) -> Seq<char> {
    if is_end_src_line(line) {
        seq![','] + line
    } else {
        line
    }
}

/// The body of a source block, line by line through [`source_line`].
pub open spec fn escaped_source_text(s: Seq<char>) -> Seq<char> {
    join_lines(split_lines(s).map_values(|l: Seq<char>| source_line(l)))
}

/// A paragraph line as written: a `,` before one that Org would read as
/// structure.
pub open spec fn paragraph_line(line: Seq<char>) -> Seq<char> {
    if line_starts_structure(line) {
        seq![','] + line
    } else {
        line
    }
}

/// Paragraph text, line by line through [`paragraph_line`].
pub open spec fn escaped_paragraph_text(s: Seq<char>) -> Seq<char> {
    join_lines(split_lines(s).map_values(|l: Seq<char>| paragraph_line(l)))
}

pub fn is_end_src(line: &[char]) -> (r: bool)
    ensures
        r == is_end_src_line(line@),
{
    let t = trim_chars(line);
    let marker = chars_of("#+END_SRC");
    chars_eq_ignore_ascii_case(t.as_slice(), marker.as_slice())
}

fn push_chars_to(output: &mut String, v: &[char])
    ensures
        final(output)@ == old(output)@ + v@,
{
    output.append(string_from_chars(v).as_str());
}

/// Writes the body of a source block, with a `,` before each line that
/// would otherwise end the block.
pub fn push_org_source_text(output: &mut String, text: &str)
    ensures
        final(output)@ == old(output)@ + escaped_source_text(text@),
{
    let tc = chars_of(text);
    let lines = split_lines_exec(tc.as_slice());
    let ghost ls = split_lines(text@).map_values(|l: Seq<char>| source_line(l));
    proof {
        lemma_split_lines_nonempty(text@);
    }
    let ghost start = output@;
    let mut k: usize = 0;
    assert(start + join_lines(ls.take(0)) =~= start);
    while k < lines.len()
        invariant
            tc@ == text@,
            k <= lines@.len() == ls.len(),
            ls == split_lines(text@).map_values(|l: Seq<char>| source_line(l)),
            forall|j: int| 0 <= j < lines@.len() ==> #[trigger] lines@[j]@ == split_lines(text@)[j],
            output@ == start + join_lines(ls.take(k as int)),
        decreases lines.len() - k,
    {
        if k > 0 {
            output.push('\n');
        }
        if is_end_src(lines[k].as_slice()) {
            output.push(',');
        }
        push_chars_to(output, lines[k].as_slice());
        proof {
            assert(ls.take(k + 1).drop_last() =~= ls.take(k as int));
            assert(ls[k as int] == source_line(lines@[k as int]@));
        }
        k += 1;
        assert(output@ =~= start + join_lines(ls.take(k as int)));
    }
    assert(ls.take(k as int) =~= ls);
}

/// Writes paragraph text, with a `,` before each line that Org would read
/// as structure.
pub fn push_org_paragraph_text(output: &mut String, text: &str)
    ensures
        final(output)@ == old(output)@ + escaped_paragraph_text(text@),
{
    let tc = chars_of(text);
    let lines = split_lines_exec(tc.as_slice());
    let ghost ls = split_lines(text@).map_values(|l: Seq<char>| paragraph_line(l));
    proof {
        lemma_split_lines_nonempty(text@);
    }
    let ghost start = output@;
    let mut k: usize = 0;
    assert(start + join_lines(ls.take(0)) =~= start);
    while k < lines.len()
        invariant
            tc@ == text@,
            k <= lines@.len() == ls.len(),
            ls == split_lines(text@).map_values(|l: Seq<char>| paragraph_line(l)),
            forall|j: int| 0 <= j < lines@.len() ==> #[trigger] lines@[j]@ == split_lines(text@)[j],
            output@ == start + join_lines(ls.take(k as int)),
        decreases lines.len() - k,
    {
        if k > 0 {
            output.push('\n');
        }
        if org_line_starts_structure(lines[k].as_slice()) {
            output.push(',');
        }
        push_chars_to(output, lines[k].as_slice());
        proof {
            assert(ls.take(k + 1).drop_last() =~= ls.take(k as int));
            assert(ls[k as int] == paragraph_line(lines@[k as int]@));
        }
        k += 1;
        assert(output@ =~= start + join_lines(ls.take(k as int)));
    }
    assert(ls.take(k as int) =~= ls);
}

/// A paragraph line that the exporter escaped: the line after its leading
/// `,`, trimmed, where that would be read as structure.
pub open spec fn unescaped_line(line: Seq<char>) -> Option<Seq<char>> {
    if line.len() > 0 && line[0] == ',' && line_starts_structure(line.drop_first()) {
        Some(trim(line.drop_first()))
    } else {
        None
    }
}

/// Undoes the exporter's escape of a paragraph line.
pub fn org_unescape_generated_line(line: &[char]) -> (r: Option<Vec<char>>)
    ensures
        match r {
            Some(v) => unescaped_line(line@) == Some(v@),
            None => unescaped_line(line@) is None,
        },
{
    if line.len() == 0 || line[0] != ',' {
        return None;
    }
    let rest = crate::strs::sub_chars(line, 1, line.len());
    assert(rest@ =~= line@.drop_first());
    if org_line_starts_structure(rest.as_slice()) {
        Some(trim_chars(rest.as_slice()))
    } else {
        None
    }
}

/// A source-block line as the importer reads it: a line the exporter
/// escaped loses its `,`.
pub open spec fn source_body_line(line: Seq<char>) -> Seq<char> {
    if line.len() > 0 && line[0] == ',' && is_end_src_line(line.drop_first()) {
        line.drop_first()
    } else {
        line
    }
}

pub fn org_source_body_line(line: &[char]) -> (r: Vec<char>)
    ensures
        r@ == source_body_line(line@),
{
    if line.len() > 0 && line[0] == ',' {
        let rest = crate::strs::sub_chars(line, 1, line.len());
        assert(rest@ =~= line@.drop_first());
        if is_end_src(rest.as_slice()) {
            return rest;
        }
    }
    crate::strs::sub_chars(line, 0, line.len())
}

/// A source-block line read back gives the line that was written, unless it
/// already began with a `,` before an end marker.
pub proof fn lemma_source_line_read_back(line: Seq<char>)
    requires
        !(line.len() > 0 && line[0] == ',' && is_end_src_line(line.drop_first())),
    ensures
        source_body_line(source_line(line)) == line,
{
    if is_end_src_line(line) {
        assert((seq![','] + line).drop_first() =~= line);
    }
}

/// No line of an escaped source-block body ends the block.
pub proof fn lemma_source_line_cannot_end_block(line: Seq<char>)
    ensures
        !is_end_src_line(source_line(line)),
{
    if is_end_src_line(line) {
        let s = seq![','] + line;
        crate::strs::lemma_trim_start_suffix(s);
        assert(trim_start(s) == s);
        reveal_strlit("#+END_SRC");
        let t = trim(s);
        crate::strs::lemma_trim_end_prefix(s);
        if t.len() == 9 {
            assert(t[0] == ',');
            assert(ascii_lower_code(t[0]) != ascii_lower_code("#+END_SRC"@[0]));
        }
    }
}

/// A paragraph line the exporter escapes is read back, trimmed.
pub proof fn lemma_paragraph_line_read_back(line: Seq<char>)
    requires
        line_starts_structure(line),
    ensures
        unescaped_line(paragraph_line(line)) == Some(trim(line)),
{
    assert((seq![','] + line).drop_first() =~= line);
}

// ----- table rows -----

/// The number of trailing characters of `s` equal to `c`.
pub open spec fn trailing_count(s: Seq<char>, c: char) -> nat
    decreases s.len(),
{
    if s.len() > 0 && s.last() == c {
        1 + trailing_count(s.drop_last(), c)
    } else {
        0
    }
}

proof fn lemma_trailing_count_exact(s: Seq<char>, c: char, n: int)
    requires
        0 <= n <= s.len(),
        forall|j: int| s.len() - n <= j < s.len() ==> #[trigger] s[j] == c,
        n == s.len() || s[s.len() - n - 1] != c,
    ensures
        trailing_count(s, c) == n,
    decreases n,
{
    if n > 0 {
        assert forall|j: int| s.drop_last().len() - (n - 1) <= j < s.drop_last().len() implies #[trigger] s.drop_last()[j] == c by {
            assert(s.drop_last()[j] == s[j]);
        }
        lemma_trailing_count_exact(s.drop_last(), c, n - 1);
    }
}

/// A row's inside: `s` without its leading and trailing `|`
/// (`str::trim_matches('|')`).
pub open spec fn bar_trimmed(s: Seq<char>) -> Seq<char> {
    let rest = s.skip(leading_count(s, '|') as int);
    rest.take(rest.len() - trailing_count(rest, '|'))
}

/// A `|---+---|` rule line: inside its bars, some character that is not
/// whitespace, and every such character a `-` or `+`.
pub open spec fn table_separator(s: Seq<char>) -> bool {
    let core = bar_trimmed(s);
    &&& exists|i: int| 0 <= i < core.len() && !is_ws(#[trigger] core[i])
    &&& forall|i: int| 0 <= i < core.len() && !is_ws(#[trigger] core[i]) ==> core[i] == '-' || core[i] == '+'
}

/// The start and end of a row's inside.
fn bar_trimmed_range(s: &[char]) -> (r: (usize, usize))
    ensures
        r.0 <= r.1 <= s@.len(),
        s@.subrange(r.0 as int, r.1 as int) == bar_trimmed(s@),
{
    let a = count_leading(s, '|');
    proof {
        lemma_leading_count(s@, '|');
    }
    let mut b = s.len();
    while b > a && s[b - 1] == '|'
        invariant
            a <= b <= s@.len(),
            a == leading_count(s@, '|'),
            forall|j: int| b <= j < s@.len() ==> #[trigger] s@[j] == '|',
        decreases b,
    {
        b -= 1;
    }
    proof {
        let rest = s@.skip(a as int);
        assert forall|j: int| rest.len() - (s@.len() - b) <= j < rest.len() implies #[trigger] rest[j] == '|' by {
            assert(rest[j] == s@[j + a]);
        }
        if b > a {
            assert(rest[rest.len() - (s@.len() - b) - 1] == s@[b - 1]);
        }
        lemma_trailing_count_exact(rest, '|', s@.len() - b);
        assert(rest.take(rest.len() - trailing_count(rest, '|')) =~= s@.subrange(a as int, b as int));
    }
    (a, b)
}

/// Whether a trimmed line is a table rule line such as `|---+---|`.
pub fn is_org_table_separator(trimmed: &[char]) -> (r: bool)
    ensures
        r == table_separator(trimmed@),
{
    let (a, b) = bar_trimmed_range(trimmed);
    let ghost core = trimmed@.subrange(a as int, b as int);
    let mut seen = false;
    let mut i = a;
    while i < b
        invariant
            a <= i <= b <= trimmed@.len(),
            core == trimmed@.subrange(a as int, b as int),
            core == bar_trimmed(trimmed@),
            seen == exists|j: int| 0 <= j < i - a && !is_ws(#[trigger] core[j]),
            forall|j: int| 0 <= j < i - a && !is_ws(#[trigger] core[j]) ==> core[j] == '-' || core[j] == '+',
        decreases b - i,
    {
        let c = trimmed[i];
        assert(core[i - a] == c);
        if !crate::strs::is_whitespace(c) {
            if c != '-' && c != '+' {
                assert(!is_ws(core[i - a]) && !(core[i - a] == '-' || core[i - a] == '+'));
                return false;
            }
            seen = true;
        }
        i += 1;
    }
    seen
}

/// The cells of a row's inside, split at each `|` that no `\` escapes, with
/// `\|` read as `|` (before trimming).
pub open spec fn row_cells(s: Seq<char>) -> Seq<Seq<char>>
    decreases s.len(),
{
    if s.len() == 0 {
        seq![Seq::empty()]
    } else if s[0] == '\\' && s.len() >= 2 && s[1] == '|' {
        let r = row_cells(s.skip(2));
        r.update(0, seq!['|'] + r[0])
    } else if s[0] == '|' {
        seq![Seq::<char>::empty()] + row_cells(s.skip(1))
    } else {
        let r = row_cells(s.skip(1));
        r.update(0, seq![s[0]] + r[0])
    }
}

proof fn lemma_row_cells_nonempty(s: Seq<char>)
    ensures
        row_cells(s).len() >= 1,
    decreases s.len(),
{
    if s.len() > 0 {
        if s[0] == '\\' && s.len() >= 2 && s[1] == '|' {
            lemma_row_cells_nonempty(s.skip(2));
        } else {
            lemma_row_cells_nonempty(s.skip(1));
        }
    }
}

/// The trimmed text of each cell of a `| a | b |` row, honouring `\|`.
pub fn split_org_row_cells(trimmed: &[char]) -> (r: Vec<Vec<char>>)
    ensures
        r@.len() == row_cells(bar_trimmed(trimmed@)).len(),
        forall|k: int| 0 <= k < r@.len() ==> #[trigger] r@[k]@ == trim(row_cells(bar_trimmed(trimmed@))[k]),
{
    let (a, b) = bar_trimmed_range(trimmed);
    let ghost core = trimmed@.subrange(a as int, b as int);
    let mut cells: Vec<Vec<char>> = Vec::new();
    let ghost mut raw: Seq<Seq<char>> = Seq::empty();
    let mut cur: Vec<char> = Vec::new();
    let mut i = a;
    proof {
        lemma_row_cells_nonempty(core);
        assert(core.skip(0) =~= core);
    }
    while i < b
        invariant
            a <= i <= b <= trimmed@.len(),
            core == trimmed@.subrange(a as int, b as int),
            cells@.len() == raw.len(),
            forall|k: int| 0 <= k < raw.len() ==> #[trigger] cells@[k]@ == trim(raw[k]),
            row_cells(core.skip(i - a)).len() >= 1,
            row_cells(core) == raw + seq![cur@ + row_cells(core.skip(i - a))[0]] + row_cells(core.skip(i - a)).drop_first(),
        decreases b - i,
    {
        let ghost t = core.skip(i - a);
        let c = trimmed[i];
        assert(t[0] == c);
        if c == '\\' && i + 1 < b && trimmed[i + 1] == '|' {
            assert(t[1] == '|');
            assert(t.skip(2) =~= core.skip(i + 2 - a));
            proof {
                lemma_row_cells_nonempty(t.skip(2));
            }
            let ghost old_cur = cur@;
            let ghost r = row_cells(t.skip(2));
            assert(row_cells(t) == r.update(0, seq!['|'] + r[0]));
            cur.push('|');
            i += 2;
            assert(old_cur + (seq!['|'] + r[0]) =~= cur@ + r[0]);
            assert(row_cells(t).drop_first() =~= r.drop_first());
            assert(row_cells(core) =~= raw + seq![cur@ + row_cells(core.skip(i - a))[0]] + row_cells(core.skip(i - a)).drop_first());
        } else if c == '|' {
            assert(t.skip(1) =~= core.skip(i + 1 - a));
            proof {
                lemma_row_cells_nonempty(t.skip(1));
            }
            let done = trim_chars(cur.as_slice());
            proof {
                raw = raw.push(cur@);
            }
            cells.push(done);
            cur = Vec::new();
            i += 1;
            assert(row_cells(core) =~= raw + seq![cur@ + row_cells(core.skip(i - a))[0]] + row_cells(core.skip(i - a)).drop_first());
        } else {
            assert(t.skip(1) =~= core.skip(i + 1 - a));
            proof {
                lemma_row_cells_nonempty(t.skip(1));
            }
            let ghost old_cur = cur@;
            let ghost r = row_cells(t.skip(1));
            assert(row_cells(t) == r.update(0, seq![c] + r[0]));
            cur.push(c);
            i += 1;
            assert(old_cur + (seq![c] + r[0]) =~= cur@ + r[0]);
            assert(row_cells(t).drop_first() =~= r.drop_first());
            assert(row_cells(core) =~= raw + seq![cur@ + row_cells(core.skip(i - a))[0]] + row_cells(core.skip(i - a)).drop_first());
        }
    }
    assert(core.skip(i - a).len() == 0);
    let last = trim_chars(cur.as_slice());
    proof {
        raw = raw.push(cur@);
        assert(row_cells(core) =~= raw);
    }
    cells.push(last);
    cells
}

// ----- lines -----

/// A line without the `\r` of a `\r\n` line break.
pub open spec fn strip_cr(l: Seq<char>) -> Seq<char> {
    if l.len() > 0 && l.last() == '\r' {
        l.drop_last()
    } else {
        l
    }
}

/// The lines of `s` as `str::lines` yields them: split at `\n`, a `\r`
/// before a `\n` dropped, and no empty line after a final line break.
pub open spec fn text_lines(s: Seq<char>) -> Seq<Seq<char>> {
    let p = split_lines(s);
    let n = if s.len() == 0 || s.last() == '\n' {
        p.len() - 1
    } else {
        p.len() as int
    };
    Seq::new(n as nat, |k: int| if k < p.len() - 1 { strip_cr(p[k]) } else { p[k] })
}

/// The lines of `text`, as `str::lines` reads them.
pub fn org_lines(text: &[char]) -> (r: Vec<Vec<char>>)
    ensures
        r@.len() == text_lines(text@).len(),
        forall|k: int| 0 <= k < r@.len() ==> #[trigger] r@[k]@ == text_lines(text@)[k],
{
    let pieces = split_lines_exec(text);
    proof {
        lemma_split_lines_nonempty(text@);
    }
    let n = if text.len() == 0 || text[text.len() - 1] == '\n' {
        pieces.len() - 1
    } else {
        pieces.len()
    };
    let mut out: Vec<Vec<char>> = Vec::new();
    let mut k: usize = 0;
    while k < n
        invariant
            k <= n <= pieces@.len(),
            n == text_lines(text@).len(),
            pieces@.len() == split_lines(text@).len(),
            forall|j: int| 0 <= j < pieces@.len() ==> #[trigger] pieces@[j]@ == split_lines(text@)[j],
            out@.len() == k,
            forall|j: int| 0 <= j < k ==> #[trigger] out@[j]@ == text_lines(text@)[j],
        decreases n - k,
    {
        let piece = &pieces[k];
        let line = if k + 1 < pieces.len() && piece.len() > 0 && piece[piece.len() - 1] == '\r' {
            crate::strs::sub_chars(piece.as_slice(), 0, piece.len() - 1)
        } else {
            crate::strs::sub_chars(piece.as_slice(), 0, piece.len())
        };
        assert(piece@.subrange(0, piece@.len() - 1) =~= piece@.drop_last());
        assert(piece@.subrange(0, piece@.len() as int) =~= piece@);
        out.push(line);
        k += 1;
    }
    out
}

} // verus!
