//! Escaping for Markdown output: text, link labels, destinations and titles,
//! and line starts that Markdown would read as block structure.

use vstd::prelude::*;
use crate::lines::{flat_map, lemma_flat_map_avoids, lemma_flat_map_step};
use crate::strs::string_from_chars;

verus! {

/// ASCII whitespace as `u8::is_ascii_whitespace` defines it.
pub open spec fn is_ascii_ws(c: char) -> bool {
    c == ' ' || c == '\t' || c == '\n' || c == '\x0C' || c == '\r'
}

/// ASCII control characters as `u8::is_ascii_control` defines them.
pub open spec fn is_ascii_ctrl(c: char) -> bool {
    (c as u32) < 0x20 || (c as u32) == 0x7f
}

pub fn ascii_ws(c: char) -> (r: bool)
    ensures
        r == is_ascii_ws(c),
{
    c == ' ' || c == '\t' || c == '\n' || c == '\x0C' || c == '\r'
}

pub fn ascii_ctrl(c: char) -> (r: bool)
    ensures
        r == is_ascii_ctrl(c),
{
    (c as u32) < 0x20 || (c as u32) == 0x7f
}

pub open spec fn is_ascii_alpha(c: char) -> bool {
    ('a' <= c && c <= 'z') || ('A' <= c && c <= 'Z')
}

pub open spec fn is_ascii_digit(c: char) -> bool {
    '0' <= c && c <= '9'
}

/// Whether `char::is_alphanumeric` holds of a character.
pub uninterp spec fn unicode_alphanumeric(c: char) -> bool;

/// Asks `char::is_alphanumeric` (Unicode `Alphabetic` or `Numeric`).
#[verifier::external_body]
fn is_alphanumeric(c: char) -> (r: bool)
    ensures
        r == unicode_alphanumeric(c),
{
    c.is_alphanumeric()
}

// ----- link labels -----

pub open spec fn label_char(c: char) -> Seq<char> {
    if c == '\\' || c == '[' || c == ']' {
        seq!['\\', c]
    } else if c == '\n' || c == '\r' {
        seq![' ']
    } else {
        seq![c]
    }
}

/// A link or image label: `\`, `[` and `]` escaped, line breaks as spaces.
pub open spec fn escaped_label(s: Seq<char>) -> Seq<char> {
    flat_map(s, |c: char| label_char(c))
}

pub fn push_escaped_label(output: &mut String, text: &[char])
    ensures
        final(output)@ == old(output)@ + escaped_label(text@),
{
    let ghost start = output@;
    let mut i: usize = 0;
    assert(text@.take(0) =~= Seq::<char>::empty());
    assert(start + escaped_label(text@.take(0)) =~= start);
    while i < text.len()
        invariant
            i <= text@.len(),
            output@ == start + escaped_label(text@.take(i as int)),
        decreases text.len() - i,
    {
        let ch = text[i];
        proof {
            lemma_flat_map_step(text@, |c: char| label_char(c), i as int);
        }
        if ch == '\\' || ch == '[' || ch == ']' {
            output.push('\\');
            output.push(ch);
        } else if ch == '\n' || ch == '\r' {
            output.push(' ');
        } else {
            output.push(ch);
        }
        i += 1;
        assert(output@ =~= start + escaped_label(text@.take(i as int)));
    }
    assert(text@.take(i as int) =~= text@);
}

// ----- link destinations -----

pub open spec fn dest_needs_angle_char(c: char) -> bool {
    is_ascii_ws(c) || is_ascii_ctrl(c) || c == '(' || c == ')' || c == '<' || c == '>' || c == '\\'
}

/// A destination with whitespace, parentheses, angle brackets, a backslash or
/// a control character has to be written in the `<...>` form.
pub open spec fn dest_needs_angle(s: Seq<char>) -> bool {
    exists|i: int| 0 <= i < s.len() && dest_needs_angle_char(#[trigger] s[i])
}

pub open spec fn dest_char(c: char) -> Seq<char> {
    if c == '\n' || c == '\r' {
        Seq::empty()
    } else if c == '<' || c == '>' || c == '\\' {
        seq!['\\', c]
    } else {
        seq![c]
    }
}

/// How a link destination is written: as it is, or in the `<...>` form with
/// `<`, `>` and `\` escaped and line breaks dropped.
pub open spec fn link_destination(s: Seq<char>) -> Seq<char> {
    if dest_needs_angle(s) {
        seq!['<'] + flat_map(s, |c: char| dest_char(c)) + seq!['>']
    } else {
        s
    }
}

pub fn push_link_destination(output: &mut String, dest: &[char])
    ensures
        final(output)@ == old(output)@ + link_destination(dest@),
{
    let mut needs_angle = false;
    let mut k: usize = 0;
    while k < dest.len()
        invariant
            k <= dest@.len(),
            needs_angle == exists|j: int| 0 <= j < k && dest_needs_angle_char(#[trigger] dest@[j]),
        decreases dest.len() - k,
    {
        let b = dest[k];
        if ascii_ws(b) || ascii_ctrl(b) || b == '(' || b == ')' || b == '<' || b == '>' || b == '\\' {
            needs_angle = true;
        }
        k += 1;
    }
    if !needs_angle {
        output.append(string_from_chars(dest).as_str());
        return;
    }
    let ghost start = output@;
    output.push('<');
    let mut i: usize = 0;
    assert(dest@.take(0) =~= Seq::<char>::empty());
    assert(output@ =~= start + seq!['<'] + flat_map(dest@.take(0), |c: char| dest_char(c)));
    while i < dest.len()
        invariant
            i <= dest@.len(),
            output@ == start + seq!['<'] + flat_map(dest@.take(i as int), |c: char| dest_char(c)),
        decreases dest.len() - i,
    {
        let ch = dest[i];
        proof {
            lemma_flat_map_step(dest@, |c: char| dest_char(c), i as int);
        }
        if ch == '\n' || ch == '\r' {
        } else if ch == '<' || ch == '>' || ch == '\\' {
            output.push('\\');
            output.push(ch);
        } else {
            output.push(ch);
        }
        i += 1;
        assert(output@ =~= start + seq!['<'] + flat_map(dest@.take(i as int), |c: char| dest_char(c)));
    }
    assert(dest@.take(i as int) =~= dest@);
    output.push('>');
    assert(output@ =~= start + link_destination(dest@));
}

/// No line break: text that stays on the line it is written on.
pub open spec fn one_line_text(s: Seq<char>) -> bool {
    forall|i: int| 0 <= i < s.len() ==> #[trigger] s[i] != '\n' && s[i] != '\r'
}

/// A link destination, as written, stays on its line, so it cannot end the
/// link or start a block.
pub proof fn lemma_link_destination_one_line(s: Seq<char>)
    ensures
        one_line_text(link_destination(s)),
{
    let bad = |c: char| c == '\n' || c == '\r';
    if dest_needs_angle(s) {
        lemma_flat_map_avoids(s, |c: char| dest_char(c), bad);
        let m = flat_map(s, |c: char| dest_char(c));
        let w = seq!['<'] + m + seq!['>'];
        assert forall|i: int| 0 <= i < w.len() implies #[trigger] w[i] != '\n' && w[i] != '\r' by {
            if 0 < i < w.len() - 1 {
                assert(w[i] == m[i - 1]);
            }
        }
    } else {
        assert forall|i: int| 0 <= i < s.len() implies #[trigger] s[i] != '\n' && s[i] != '\r' by {
            if s[i] == '\n' || s[i] == '\r' {
                assert(dest_needs_angle_char(s[i]));
            }
        }
    }
}

/// A link or image label, as written, stays on its line.
pub proof fn lemma_label_one_line(s: Seq<char>)
    ensures
        one_line_text(escaped_label(s)),
{
    lemma_flat_map_avoids(s, |c: char| label_char(c), |c: char| c == '\n' || c == '\r');
}

/// A link title, as written, stays on its line.
pub proof fn lemma_title_one_line(t: Seq<char>)
    ensures
        one_line_text(markdown_title(t)),
{
    lemma_flat_map_avoids(t, |c: char| title_char(c), |c: char| c == '\n' || c == '\r');
    let m = flat_map(t, |c: char| title_char(c));
    let w = seq![' ', '"'] + m + seq!['"'];
    assert forall|i: int| 0 <= i < w.len() implies #[trigger] w[i] != '\n' && w[i] != '\r' by {
        if 2 <= i < w.len() - 1 {
            assert(w[i] == m[i - 2]);
        }
    }
}

// ----- link titles -----

pub open spec fn title_char(c: char) -> Seq<char> {
    if c == '"' || c == '\\' {
        seq!['\\', c]
    } else if c == '\n' || c == '\r' || is_ascii_ctrl(c) {
        seq![' ']
    } else {
        seq![c]
    }
}

/// A link title: ` "` and `"` around the title, with `"` and `\` escaped and
/// line breaks and control characters as spaces.
pub open spec fn markdown_title(t: Seq<char>) -> Seq<char> {
    seq![' ', '"'] + flat_map(t, |c: char| title_char(c)) + seq!['"']
}

pub fn push_markdown_title(output: &mut String, title: Option<&[char]>)
    ensures
        final(output)@ == old(output)@ + match title {
            Some(t) => markdown_title(t@),
            None => Seq::empty(),
        },
{
    let title = match title {
        Some(t) => t,
        None => {
            assert(old(output)@ + Seq::<char>::empty() =~= old(output)@);
            return;
        },
    };
    let ghost start = output@;
    output.push(' ');
    output.push('"');
    let mut i: usize = 0;
    assert(title@.take(0) =~= Seq::<char>::empty());
    assert(output@ =~= start + seq![' ', '"'] + flat_map(title@.take(0), |c: char| title_char(c)));
    while i < title.len()
        invariant
            i <= title@.len(),
            output@ == start + seq![' ', '"'] + flat_map(title@.take(i as int), |c: char| title_char(c)),
        decreases title.len() - i,
    {
        let ch = title[i];
        proof {
            lemma_flat_map_step(title@, |c: char| title_char(c), i as int);
        }
        if ch == '"' || ch == '\\' {
            output.push('\\');
            output.push(ch);
        } else if ch == '\n' || ch == '\r' || ascii_ctrl(ch) {
            output.push(' ');
        } else {
            output.push(ch);
        }
        i += 1;
        assert(output@ =~= start + seq![' ', '"'] + flat_map(title@.take(i as int), |c: char| title_char(c)));
    }
    assert(title@.take(i as int) =~= title@);
    output.push('"');
    assert(output@ =~= start + markdown_title(title@));
}

// ----- autolinks -----

pub open spec fn has_scheme_separator(s: Seq<char>) -> bool {
    exists|i: int| 0 <= i && i + 2 < s.len() && #[trigger] s[i] == ':' && s[i + 1] == '/' && s[i + 2] == '/'
}

/// Whether `href` can be written as a CommonMark autolink `<href>`: no
/// whitespace, control characters or angle brackets, and a `://` or an `@`.
pub open spec fn spec_is_autolink_href(s: Seq<char>) -> bool {
    &&& forall|i: int| 0 <= i < s.len() ==> !(is_ascii_ws(#[trigger] s[i]) || is_ascii_ctrl(s[i]) || s[i] == '<' || s[i] == '>')
    &&& (has_scheme_separator(s) || s.contains('@'))
}

pub fn is_autolink_href(href: &[char]) -> (r: bool)
    ensures
        r == spec_is_autolink_href(href@),
{
    let mut i: usize = 0;
    let mut sep = false;
    let mut at = false;
    while i < href.len()
        invariant
            i <= href@.len(),
            forall|j: int| 0 <= j < i ==> !(is_ascii_ws(#[trigger] href@[j]) || is_ascii_ctrl(href@[j]) || href@[j] == '<' || href@[j] == '>'),
            sep == exists|j: int| 0 <= j && j + 2 < href@.len() && j < i && #[trigger] href@[j] == ':' && href@[j + 1] == '/' && href@[j + 2] == '/',
            at == exists|j: int| 0 <= j < i && #[trigger] href@[j] == '@',
        decreases href.len() - i,
    {
        let b = href[i];
        if ascii_ws(b) || ascii_ctrl(b) || b == '<' || b == '>' {
            return false;
        }
        if b == ':' && href.len() - i > 2 && href[i + 1] == '/' && href[i + 2] == '/' {
            sep = true;
        }
        if b == '@' {
            at = true;
        }
        i += 1;
    }
    assert(at ==> href@.contains('@'));
    assert(href@.contains('@') ==> at);
    sep || at
}

// ----- text -----

/// Whether an `_` between `prev` and `next` has to be escaped: not after a
/// `[`, and not inside a word.
pub open spec fn spec_should_escape_underscore(prev: Option<char>, next: Option<char>) -> bool {
    if prev == Some('[') {
        false
    } else {
        !((prev matches Some(p) && unicode_alphanumeric(p)) && (next matches Some(n)
            && unicode_alphanumeric(n)))
    }
}

pub fn should_escape_underscore(prev: Option<char>, next: Option<char>) -> (r: bool)
    ensures
        r == spec_should_escape_underscore(prev, next),
{
    if prev == Some('[') {
        return false;
    }
    let p = match prev {
        Some(p) => is_alphanumeric(p),
        None => false,
    };
    let n = match next {
        Some(n) => is_alphanumeric(n),
        None => false,
    };
    !(p && n)
}

/// The scan that decides which `[` to escape, after its first `n`
/// characters: whether the next character is escaped by a `\`, the open `[`
/// positions not yet decided, and the positions decided to be escaped.
pub open spec fn bracket_scan(s: Seq<char>, n: int) -> (bool, Seq<int>, Set<int>)
    decreases n,
{
    if n <= 0 || n > s.len() {
        (false, Seq::empty(), Set::empty())
    } else {
        let (escaped, pending, starts) = bracket_scan(s, n - 1);
        let i = n - 1;
        let c = s[i];
        if escaped {
            (false, pending, starts)
        } else if c == '\\' {
            (true, pending, starts)
        } else if c == '[' {
            (false, pending.push(i), starts)
        } else if c == ']' {
            if i + 1 < s.len() && (s[i + 1] == '(' || s[i + 1] == '[') {
                (false, Seq::empty(), starts + pending.to_set())
            } else {
                (false, Seq::empty(), starts)
            }
        } else {
            (false, pending, starts)
        }
    }
}

/// The `[` positions to escape: those a `](` or `][` closes, and those left
/// open at the end.
pub open spec fn bracket_escapes(s: Seq<char>) -> Set<int> {
    let (_, pending, starts) = bracket_scan(s, s.len() as int);
    starts + pending.to_set()
}

fn markdown_bracket_escape_mask(text: &[char]) -> (mask: Vec<bool>)
    ensures
        mask@.len() == text@.len(),
        forall|i: int| 0 <= i < text@.len() ==> mask@[i] == bracket_escapes(text@).contains(i),
{
    let mut mask: Vec<bool> = Vec::new();
    let mut k: usize = 0;
    while k < text.len()
        invariant
            k <= text@.len(),
            mask@.len() == k,
            forall|j: int| 0 <= j < k ==> !mask@[j],
        decreases text.len() - k,
    {
        mask.push(false);
        k += 1;
    }
    let mut pending: Vec<usize> = Vec::new();
    let mut escaped = false;
    let mut i: usize = 0;
    while i < text.len()
        invariant
            i <= text@.len(),
            mask@.len() == text@.len(),
            escaped == bracket_scan(text@, i as int).0,
            pending@.len() == bracket_scan(text@, i as int).1.len(),
            forall|j: int| 0 <= j < pending@.len() ==> pending@[j] as int == #[trigger] bracket_scan(text@, i as int).1[j],
            forall|j: int| 0 <= j < pending@.len() ==> pending@[j] < i,
            forall|j: int| 0 <= j < text@.len() ==> mask@[j] == bracket_scan(text@, i as int).2.contains(j),
        decreases text.len() - i,
    {
        let ghost prev = bracket_scan(text@, i as int);
        let ch = text[i];
        if escaped {
            escaped = false;
        } else if ch == '\\' {
            escaped = true;
        } else if ch == '[' {
            pending.push(i);
        } else if ch == ']' {
            let closes = i + 1 < text.len() && (text[i + 1] == '(' || text[i + 1] == '[');
            if closes {
                let mut p: usize = 0;
                while p < pending.len()
                    invariant
                        p <= pending@.len(),
                        mask@.len() == text@.len(),
                        forall|j: int| 0 <= j < pending@.len() ==> pending@[j] < text@.len(),
                        forall|j: int| 0 <= j < text@.len() ==> mask@[j] == (prev.2.contains(j) || exists|q: int| 0 <= q < p && pending@[q] as int == j),
                    decreases pending.len() - p,
                {
                    let at = pending[p];
                    mask.set(at, true);
                    p += 1;
                }
                proof {
                    assert forall|j: int| 0 <= j < text@.len() implies mask@[j] == (prev.2 + prev.1.to_set()).contains(j) by {
                        if prev.1.to_set().contains(j) {
                            let q = choose|q: int| 0 <= q < prev.1.len() && prev.1[q] == j;
                            assert(pending@[q] as int == j);
                        }
                        if exists|q: int| 0 <= q < p && pending@[q] as int == j {
                            let q = choose|q: int| 0 <= q < p && pending@[q] as int == j;
                            assert(prev.1[q] == j);
                        }
                    }
                }
            }
            pending.clear();
        }
        i += 1;
        proof {
            assert(forall|j: int| 0 <= j < pending@.len() ==> pending@[j] as int == #[trigger] bracket_scan(text@, i as int).1[j]);
        }
    }
    let mut p: usize = 0;
    let ghost fin = bracket_scan(text@, i as int);
    while p < pending.len()
        invariant
            p <= pending@.len(),
            mask@.len() == text@.len(),
            forall|j: int| 0 <= j < pending@.len() ==> pending@[j] < text@.len(),
            forall|j: int| 0 <= j < text@.len() ==> mask@[j] == (fin.2.contains(j) || exists|q: int| 0 <= q < p && pending@[q] as int == j),
        decreases pending.len() - p,
    {
        let at = pending[p];
        mask.set(at, true);
        p += 1;
    }
    proof {
        assert forall|j: int| 0 <= j < text@.len() implies mask@[j] == bracket_escapes(text@).contains(j) by {
            if fin.1.to_set().contains(j) {
                let q = choose|q: int| 0 <= q < fin.1.len() && fin.1[q] == j;
                assert(pending@[q] as int == j);
            }
            if exists|q: int| 0 <= q < p && pending@[q] as int == j {
                let q = choose|q: int| 0 <= q < p && pending@[q] as int == j;
                assert(fin.1[q] == j);
            }
        }
    }
    mask
}

pub open spec fn prev_char(s: Seq<char>, i: int) -> Option<char> {
    if 0 < i <= s.len() {
        Some(s[i - 1])
    } else {
        None
    }
}

pub open spec fn next_char(s: Seq<char>, i: int) -> Option<char> {
    if 0 <= i && i + 1 < s.len() {
        Some(s[i + 1])
    } else {
        None
    }
}

/// Whether the character at `i` of Markdown text needs a `\`: always for
/// `\`, a backtick and `*`; for `_` outside words; for the `[` that
/// [`bracket_escapes`] picks; for `<` before a letter, `/`, `!` or `?`; for
/// `~` next to another `~`.
pub open spec fn text_char_escaped(s: Seq<char>, i: int) -> bool {
    let c = s[i];
    let prev = prev_char(s, i);
    let next = next_char(s, i);
    if c == '\\' || c == '`' || c == '*' {
        true
    } else if c == '_' {
        spec_should_escape_underscore(prev, next)
    } else if c == '[' {
        bracket_escapes(s).contains(i)
    } else if c == '<' {
        next matches Some(n) && (is_ascii_alpha(n) || n == '/' || n == '!' || n == '?')
    } else if c == '~' {
        prev == Some('~') || next == Some('~')
    } else {
        false
    }
}

/// The first `n` characters of `s` as escaped Markdown text.
pub open spec fn escaped_text_prefix(s: Seq<char>, n: int) -> Seq<char>
    decreases n,
{
    if n <= 0 || n > s.len() {
        Seq::empty()
    } else {
        escaped_text_prefix(s, n - 1) + (if text_char_escaped(s, n - 1) {
            seq!['\\', s[n - 1]]
        } else {
            seq![s[n - 1]]
        })
    }
}

/// Text written so that Markdown reads it back as the same literal text.
pub open spec fn escaped_markdown_text(s: Seq<char>) -> Seq<char> {
    escaped_text_prefix(s, s.len() as int)
}

pub fn push_escaped_markdown_text(output: &mut String, text: &[char])
    ensures
        final(output)@ == old(output)@ + escaped_markdown_text(text@),
{
    let mask = markdown_bracket_escape_mask(text);
    let ghost start = output@;
    let mut i: usize = 0;
    assert(start + escaped_text_prefix(text@, 0) =~= start);
    while i < text.len()
        invariant
            i <= text@.len(),
            mask@.len() == text@.len(),
            forall|j: int| 0 <= j < text@.len() ==> mask@[j] == bracket_escapes(text@).contains(j),
            output@ == start + escaped_text_prefix(text@, i as int),
        decreases text.len() - i,
    {
        let ch = text[i];
        let prev = if i > 0 {
            Some(text[i - 1])
        } else {
            None
        };
        let next = if i + 1 < text.len() {
            Some(text[i + 1])
        } else {
            None
        };
        let should_escape = if ch == '\\' || ch == '`' || ch == '*' {
            true
        } else if ch == '_' {
            should_escape_underscore(prev, next)
        } else if ch == '[' {
            mask[i]
        } else if ch == '<' {
            match next {
                Some(n) => ('a' <= n && n <= 'z') || ('A' <= n && n <= 'Z') || n == '/' || n == '!'
                    || n == '?',
                None => false,
            }
        } else if ch == '~' {
            prev == Some('~') || next == Some('~')
        } else {
            false
        };
        assert(should_escape == text_char_escaped(text@, i as int));
        if should_escape {
            output.push('\\');
        }
        output.push(ch);
        i += 1;
        assert(output@ =~= start + escaped_text_prefix(text@, i as int));
    }
}

} // verus!
