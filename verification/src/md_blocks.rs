//! Markdown line starts: which lines Markdown would read as block
//! structure, and how they are escaped; and backtick fences.

use vstd::prelude::*;
use crate::lines::{split_lines, split_lines_exec, lemma_split_lines_nonempty};
use crate::md_escape::{ascii_ws, is_ascii_digit, is_ascii_ws};

verus! {

/// The number of leading characters of `s` equal to `c`.
pub open spec fn leading_count(s: Seq<char>, c: char) -> nat
    decreases s.len(),
{
    if s.len() > 0 && s[0] == c {
        1 + leading_count(s.drop_first(), c)
    } else {
        0
    }
}

pub proof fn lemma_leading_count(s: Seq<char>, c: char)
    ensures
        leading_count(s, c) <= s.len(),
        forall|j: int| 0 <= j < leading_count(s, c) ==> s[j] == c,
        leading_count(s, c) < s.len() ==> s[leading_count(s, c) as int] != c,
    decreases s.len(),
{
    if s.len() > 0 && s[0] == c {
        lemma_leading_count(s.drop_first(), c);
        assert forall|j: int| 0 <= j < leading_count(s, c) implies s[j] == c by {
            if j > 0 {
                assert(s[j] == s.drop_first()[j - 1]);
            }
        }
    }
}

pub fn count_leading(s: &[char], c: char) -> (n: usize)
    ensures
        n == leading_count(s@, c),
{
    let mut n: usize = 0;
    proof {
        lemma_leading_count(s@, c);
    }
    while n < s.len() && s[n] == c
        invariant
            n <= s@.len(),
            forall|j: int| 0 <= j < n ==> s@[j] == c,
        decreases s.len() - n,
    {
        n += 1;
    }
    proof {
        lemma_leading_count_exact(s@, c, n as int);
    }
    n
}

proof fn lemma_leading_count_exact(s: Seq<char>, c: char, n: int)
    requires
        0 <= n <= s.len(),
        forall|j: int| 0 <= j < n ==> s[j] == c,
        n == s.len() || s[n] != c,
    ensures
        leading_count(s, c) == n,
    decreases n,
{
    if n > 0 {
        lemma_leading_count_exact(s.drop_first(), c, n - 1);
    }
}

/// A line that starts an ATX heading: one to six `#` followed by the end of
/// the line or ASCII whitespace.
pub open spec fn line_starts_heading(s: Seq<char>) -> bool {
    let h = leading_count(s, '#');
    1 <= h <= 6 && (h == s.len() || is_ascii_ws(s[h as int]))
}

pub fn markdown_line_starts_heading(line: &[char]) -> (r: bool)
    ensures
        r == line_starts_heading(line@),
{
    let hashes = count_leading(line, '#');
    proof {
        lemma_leading_count(line@, '#');
    }
    1 <= hashes && hashes <= 6 && (hashes == line.len() || ascii_ws(line[hashes]))
}

pub open spec fn is_break_marker(c: char) -> bool {
    c == '-' || c == '*' || c == '_'
}

/// A line of three or more of the same `-`, `*` or `_`, with only spaces and
/// tabs besides, which Markdown reads as a thematic break.
pub open spec fn is_thematic_break(s: Seq<char>) -> bool {
    &&& forall|i: int| 0 <= i < s.len() ==> (#[trigger] s[i] == ' ' || s[i] == '\t' || is_break_marker(s[i]))
    &&& forall|i: int, j: int| 0 <= i < s.len() && 0 <= j < s.len() && is_break_marker(#[trigger] s[i]) && is_break_marker(#[trigger] s[j]) ==> s[i] == s[j]
    &&& s.filter(|c: char| is_break_marker(c)).len() >= 3
}

pub fn is_thematic_break_line(line: &[char]) -> (r: bool)
    ensures
        r == is_thematic_break(line@),
{
    let mut marker: Option<char> = None;
    let mut count: usize = 0;
    let mut i: usize = 0;
    let ghost f = |c: char| is_break_marker(c);
    assert(line@.take(0).filter(f) =~= Seq::<char>::empty());
    while i < line.len()
        invariant
            i <= line@.len(),
            forall|k: int| 0 <= k < i ==> (#[trigger] line@[k] == ' ' || line@[k] == '\t' || is_break_marker(line@[k])),
            marker matches Some(m) ==> is_break_marker(m) && exists|k: int| 0 <= k < i && line@[k] == m,
            forall|k: int| 0 <= k < i && is_break_marker(#[trigger] line@[k]) ==> marker == Some(line@[k]),
            marker is None ==> forall|k: int| 0 <= k < i ==> !is_break_marker(#[trigger] line@[k]),
            count == line@.take(i as int).filter(f).len(),
            f == (|c: char| is_break_marker(c)),
        decreases line.len() - i,
    {
        let ch = line[i];
        proof {
            assert(line@.take(i + 1).drop_last() =~= line@.take(i as int));
            lemma_filter_push(line@.take(i as int), line@[i as int], f);
            assert(line@.take(i + 1) =~= line@.take(i as int).push(line@[i as int]));
        }
        if ch == ' ' || ch == '\t' {
        } else if ch == '-' || ch == '*' || ch == '_' {
            match marker {
                Some(m) => {
                    if m != ch {
                        proof {
                            let k = choose|k: int| 0 <= k < i && line@[k] == m;
                            assert(is_break_marker(line@[k]) && is_break_marker(line@[i as int]));
                        }
                        return false;
                    }
                },
                None => {},
            }
            marker = Some(ch);
            count += 1;
        } else {
            return false;
        }
        i += 1;
    }
    assert(line@.take(i as int) =~= line@);
    count >= 3
}

proof fn lemma_filter_push(s: Seq<char>, c: char, f: spec_fn(char) -> bool)
    ensures
        s.push(c).filter(f) == if f(c) {
            s.filter(f).push(c)
        } else {
            s.filter(f)
        },
{
    reveal_with_fuel(Seq::<_>::filter, 1);
    assert(s.push(c).drop_last() =~= s);
}

/// The index of the `.` or `)` after a leading run of one to nine digits that
/// a space follows: a line Markdown would read as an ordered-list item.
pub open spec fn ordered_marker_delimiter(s: Seq<char>) -> Option<int> {
    if exists|d: int| 0 <= d < s.len() && (s[d] == '.' || s[d] == ')') {
        let d = choose|d: int|
            0 <= d < s.len() && (s[d] == '.' || s[d] == ')') && forall|k: int| 0 <= k < d ==> !(s[k] == '.' || s[k] == ')');
        if 1 <= d <= 9 && (forall|k: int| 0 <= k < d ==> is_ascii_digit(#[trigger] s[k])) && d + 1 < s.len() && s[d + 1] == ' ' {
            Some(d)
        } else {
            None
        }
    } else {
        None
    }
}

#[verifier::loop_isolation(false)]
pub fn ordered_list_marker_delimiter_index(line: &[char]) -> (r: Option<usize>)
    ensures
        match r {
            Some(d) => ordered_marker_delimiter(line@) == Some(d as int),
            None => ordered_marker_delimiter(line@) is None,
        },
{
    let mut d: usize = 0;
    while d < line.len() && line[d] != '.' && line[d] != ')'
        invariant
            d <= line@.len(),
            forall|k: int| 0 <= k < d ==> !(line@[k] == '.' || line@[k] == ')'),
        decreases line.len() - d,
    {
        d += 1;
    }
    if d == line.len() {
        return None;
    }
    proof {
        let e = choose|e: int|
            0 <= e < line@.len() && (line@[e] == '.' || line@[e] == ')') && forall|k: int| 0 <= k < e ==> !(line@[k] == '.' || line@[k] == ')');
        assert(e == d) by {
            if e < d {
            } else if e > d {
                assert(!(line@[d as int] == '.' || line@[d as int] == ')'));
            }
        }
    }
    if d < 1 || d > 9 {
        return None;
    }
    let mut k: usize = 0;
    while k < d
        invariant
            k <= d < line@.len(),
            forall|j: int| 0 <= j < k ==> is_ascii_digit(#[trigger] line@[j]),
        decreases d - k,
    {
        if !('0' <= line[k] && line[k] <= '9') {
            return None;
        }
        k += 1;
    }
    if d + 1 < line.len() && line[d + 1] == ' ' {
        Some(d)
    } else {
        None
    }
}

pub open spec fn starts_with(s: Seq<char>, p: Seq<char>) -> bool {
    p.is_prefix_of(s)
}

/// A line Markdown would read as a heading, block quote, fence, list item or
/// thematic break.
pub open spec fn line_needs_leading_escape(s: Seq<char>) -> bool {
    ||| line_starts_heading(s)
    ||| (s.len() > 0 && s[0] == '>')
    ||| starts_with(s, seq!['`', '`', '`'])
    ||| starts_with(s, seq!['~', '~', '~'])
    ||| (s.len() == 1 && (s[0] == '-' || s[0] == '*' || s[0] == '+'))
    ||| starts_with(s, seq!['-', ' '])
    ||| starts_with(s, seq!['*', ' '])
    ||| starts_with(s, seq!['+', ' '])
    ||| is_thematic_break(s)
}

fn starts_with_chars(s: &[char], a: char, b: char) -> (r: bool)
    ensures
        r == starts_with(s@, seq![a, b]),
{
    s.len() >= 2 && s[0] == a && s[1] == b
}

fn starts_with_three(s: &[char], c: char) -> (r: bool)
    ensures
        r == starts_with(s@, seq![c, c, c]),
{
    s.len() >= 3 && s[0] == c && s[1] == c && s[2] == c
}

pub fn markdown_line_needs_leading_escape(line: &[char]) -> (r: bool)
    ensures
        r == line_needs_leading_escape(line@),
{
    let single = line.len() == 1 && (line[0] == '-' || line[0] == '*' || line[0] == '+');
    markdown_line_starts_heading(line) || (line.len() > 0 && line[0] == '>') || starts_with_three(
        line,
        '`',
    ) || starts_with_three(line, '~') || single || starts_with_chars(line, '-', ' ')
        || starts_with_chars(line, '*', ' ') || starts_with_chars(line, '+', ' ')
        || is_thematic_break_line(line)
}

/// A line escaped so Markdown reads it as paragraph text: a `\` before the
/// delimiter of an ordered-list marker, else before a line that would start
/// another block.
pub open spec fn escaped_line(s: Seq<char>) -> Seq<char> {
    match ordered_marker_delimiter(s) {
        Some(d) => s.take(d) + seq!['\\'] + s.skip(d),
        None => if line_needs_leading_escape(s) {
            seq!['\\'] + s
        } else {
            s
        },
    }
}

/// Lines joined with line breaks.
pub open spec fn join_lines(ls: Seq<Seq<char>>) -> Seq<char>
    decreases ls.len(),
{
    if ls.len() == 0 {
        Seq::empty()
    } else if ls.len() == 1 {
        ls[0]
    } else {
        join_lines(ls.drop_last()) + seq!['\n'] + ls.last()
    }
}

/// Paragraph text with each line escaped by [`escaped_line`].
pub open spec fn escaped_block_starts(s: Seq<char>) -> Seq<char> {
    join_lines(split_lines(s).map_values(|l: Seq<char>| escaped_line(l)))
}

fn push_escaped_line(out: &mut Vec<char>, body: &[char])
    ensures
        final(out)@ == old(out)@ + escaped_line(body@),
{
    match ordered_list_marker_delimiter_index(body) {
        Some(d) => {
            let mut i: usize = 0;
            while i < body.len()
                invariant
                    i <= body@.len(),
                    d < body@.len(),
                    out@ == old(out)@ + (if i <= d {
                        body@.take(i as int)
                    } else {
                        body@.take(d as int) + seq!['\\'] + body@.subrange(d as int, i as int)
                    }),
                decreases body.len() - i,
            {
                if i == d {
                    out.push('\\');
                }
                out.push(body[i]);
                i += 1;
                assert(out@ =~= old(out)@ + (if i <= d {
                    body@.take(i as int)
                } else {
                    body@.take(d as int) + seq!['\\'] + body@.subrange(d as int, i as int)
                }));
            }
            assert(body@.subrange(d as int, body@.len() as int) =~= body@.skip(d as int));
        },
        None => {
            if markdown_line_needs_leading_escape(body) {
                out.push('\\');
            }
            let mut i: usize = 0;
            let ghost mid = out@;
            while i < body.len()
                invariant
                    i <= body@.len(),
                    out@ == mid + body@.take(i as int),
                decreases body.len() - i,
            {
                out.push(body[i]);
                i += 1;
                assert(out@ =~= mid + body@.take(i as int));
            }
            assert(body@.take(i as int) =~= body@);
            assert(out@ =~= old(out)@ + escaped_line(body@));
        },
    }
}

/// Escapes each line of paragraph text that Markdown would read as block
/// structure.
pub fn escape_markdown_block_starts(text: &[char]) -> (r: Vec<char>)
    ensures
        r@ == escaped_block_starts(text@),
{
    let lines = split_lines_exec(text);
    let ghost ls = split_lines(text@).map_values(|l: Seq<char>| escaped_line(l));
    proof {
        lemma_split_lines_nonempty(text@);
    }
    let mut r: Vec<char> = Vec::new();
    let mut k: usize = 0;
    while k < lines.len()
        invariant
            k <= lines@.len() == ls.len(),
            ls == split_lines(text@).map_values(|l: Seq<char>| escaped_line(l)),
            forall|j: int| 0 <= j < lines@.len() ==> #[trigger] lines@[j]@ == split_lines(text@)[j],
            r@ == join_lines(ls.take(k as int)),
        decreases lines.len() - k,
    {
        if k > 0 {
            r.push('\n');
        }
        push_escaped_line(&mut r, lines[k].as_slice());
        proof {
            assert(ls.take(k + 1).drop_last() =~= ls.take(k as int));
            assert(ls[k as int] == escaped_line(lines@[k as int]@));
        }
        k += 1;
        proof {
            if k == 1 {
                assert(r@ =~= join_lines(ls.take(k as int)));
            } else {
                assert(r@ =~= join_lines(ls.take(k as int)));
            }
        }
    }
    assert(ls.take(k as int) =~= ls);
    r
}

/// Text whose lines after the first each start with `prefix`.
pub open spec fn continued_lines(s: Seq<char>, prefix: Seq<char>) -> Seq<char> {
    join_lines(split_lines(s).map(|k: int, l: Seq<char>| if k == 0 { l } else { prefix + l }))
}

pub fn push_with_continuation_prefix(output: &mut String, text: &[char], continuation_prefix: &[char])
    ensures
        final(output)@ == old(output)@ + continued_lines(text@, continuation_prefix@),
{
    let lines = split_lines_exec(text);
    let ghost ls = split_lines(text@).map(|k: int, l: Seq<char>| if k == 0 { l } else { continuation_prefix@ + l });
    let prefix = crate::strs::string_from_chars(continuation_prefix);
    let ghost start = output@;
    let mut k: usize = 0;
    assert(start + join_lines(ls.take(0)) =~= start);
    while k < lines.len()
        invariant
            k <= lines@.len() == ls.len(),
            prefix@ == continuation_prefix@,
            ls == split_lines(text@).map(|k: int, l: Seq<char>| if k == 0 { l } else { continuation_prefix@ + l }),
            forall|j: int| 0 <= j < lines@.len() ==> #[trigger] lines@[j]@ == split_lines(text@)[j],
            output@ == start + join_lines(ls.take(k as int)),
        decreases lines.len() - k,
    {
        if k > 0 {
            output.push('\n');
            output.append(prefix.as_str());
        }
        output.append(crate::strs::string_from_chars(lines[k].as_slice()).as_str());
        proof {
            assert(ls.take(k + 1).drop_last() =~= ls.take(k as int));
        }
        k += 1;
        assert(output@ =~= start + join_lines(ls.take(k as int)));
    }
    assert(ls.take(k as int) =~= ls);
}

/// The length of the run of backticks that ends `s`.
pub open spec fn backtick_run_at_end(s: Seq<char>) -> nat
    decreases s.len(),
{
    if s.len() > 0 && s.last() == '`' {
        1 + backtick_run_at_end(s.drop_last())
    } else {
        0
    }
}

/// The length of the longest run of backticks in `s`.
pub open spec fn longest_backtick_run_spec(s: Seq<char>) -> nat
    decreases s.len(),
{
    if s.len() == 0 {
        0
    } else {
        let a = longest_backtick_run_spec(s.drop_last());
        let b = backtick_run_at_end(s);
        if a >= b { a } else { b }
    }
}

pub fn longest_backtick_run(s: &[char]) -> (n: usize)
    ensures
        n == longest_backtick_run_spec(s@),
{
    let mut longest: usize = 0;
    let mut current: usize = 0;
    let mut i: usize = 0;
    while i < s.len()
        invariant
            i <= s@.len(),
            current == backtick_run_at_end(s@.take(i as int)),
            longest == longest_backtick_run_spec(s@.take(i as int)),
            current <= i,
            longest <= i,
        decreases s.len() - i,
    {
        proof {
            assert(s@.take(i + 1).drop_last() =~= s@.take(i as int));
        }
        if s[i] == '`' {
            current += 1;
            if current > longest {
                longest = current;
            }
        } else {
            current = 0;
        }
        i += 1;
    }
    assert(s@.take(i as int) =~= s@);
    longest
}

/// A fence of backticks longer than any run inside `code`, and at least
/// `min_len` long.
pub open spec fn backtick_fence(code: Seq<char>, min_len: nat) -> Seq<char> {
    let run = if longest_backtick_run_spec(code) < usize::MAX {
        longest_backtick_run_spec(code) + 1
    } else {
        usize::MAX as nat
    };
    let n = if min_len >= run {
        min_len
    } else {
        run
    };
    Seq::new(n, |i: int| '`')
}

pub fn backtick_delimiter(code: &[char], min_len: usize) -> (r: String)
    ensures
        r@ == backtick_fence(code@, min_len as nat),
{
    let longest = longest_backtick_run(code);
    proof {
        lemma_longest_run_bound(code@);
    }
    let run = if longest < usize::MAX {
        longest + 1
    } else {
        usize::MAX
    };
    let n = if min_len >= run {
        min_len
    } else {
        run
    };
    let mut r = String::new();
    let mut i: usize = 0;
    while i < n
        invariant
            i <= n,
            r@ == Seq::new(i as nat, |j: int| '`'),
        decreases n - i,
    {
        r.push('`');
        i += 1;
        assert(r@ =~= Seq::new(i as nat, |j: int| '`'));
    }
    r
}

proof fn lemma_longest_run_bound(s: Seq<char>)
    ensures
        longest_backtick_run_spec(s) <= s.len(),
        backtick_run_at_end(s) <= s.len(),
    decreases s.len(),
{
    if s.len() > 0 {
        lemma_longest_run_bound(s.drop_last());
    }
}

} // verus!
