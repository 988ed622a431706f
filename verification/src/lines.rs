//! Character-sequence folds that the converters' text transforms are stated
//! with: per-character rewriting, and splitting at line breaks.

use vstd::prelude::*;

verus! {

/// `s` with each character `c` replaced by `f(c)`.
pub open spec fn flat_map(s: Seq<char>, f: spec_fn(char) -> Seq<char>) -> Seq<char>
    decreases s.len(),
{
    if s.len() == 0 {
        Seq::empty()
    } else {
        flat_map(s.drop_last(), f) + f(s.last())
    }
}

pub proof fn lemma_flat_map_step(s: Seq<char>, f: spec_fn(char) -> Seq<char>, i: int)
    requires
        0 <= i < s.len(),
    ensures
        flat_map(s.take(i + 1), f) == flat_map(s.take(i), f) + f(s[i]),
{
    assert(s.take(i + 1).drop_last() =~= s.take(i));
}

pub proof fn lemma_flat_map_append(a: Seq<char>, b: Seq<char>, f: spec_fn(char) -> Seq<char>)
    ensures
        flat_map(a + b, f) == flat_map(a, f) + flat_map(b, f),
    decreases b.len(),
{
    if b.len() == 0 {
        assert(a + b =~= a);
        assert(flat_map(a, f) + Seq::<char>::empty() =~= flat_map(a, f));
    } else {
        lemma_flat_map_append(a, b.drop_last(), f);
        assert((a + b).drop_last() =~= a + b.drop_last());
        assert(flat_map(a, f) + flat_map(b.drop_last(), f) + f(b.last()) =~= flat_map(a, f) + (
        flat_map(b.drop_last(), f) + f(b.last())));
    }
}

/// Where no character's rewrite holds a character that `bad` picks out, the
/// whole rewrite holds none.
pub proof fn lemma_flat_map_avoids(s: Seq<char>, f: spec_fn(char) -> Seq<char>, bad: spec_fn(char) -> bool)
    requires
        forall|c: char, i: int| 0 <= i < f(c).len() ==> !bad(#[trigger] f(c)[i]),
    ensures
        forall|i: int| 0 <= i < flat_map(s, f).len() ==> !bad(#[trigger] flat_map(s, f)[i]),
    decreases s.len(),
{
    if s.len() > 0 {
        lemma_flat_map_avoids(s.drop_last(), f, bad);
        let a = flat_map(s.drop_last(), f);
        let b = f(s.last());
        assert forall|i: int| 0 <= i < (a + b).len() implies !bad(#[trigger] (a + b)[i]) by {
            if i < a.len() {
                assert((a + b)[i] == a[i]);
            } else {
                assert((a + b)[i] == b[i - a.len()]);
            }
        }
    }
}

/// The pieces of `s` between line breaks (`str::split('\n')`): always at
/// least one piece, the last one after the final line break.
pub open spec fn split_lines(s: Seq<char>) -> Seq<Seq<char>>
    decreases s.len(),
{
    if s.len() == 0 {
        seq![Seq::empty()]
    } else {
        let p = split_lines(s.drop_last());
        if s.last() == '\n' {
            p.push(Seq::empty())
        } else {
            p.update(p.len() - 1, p.last().push(s.last()))
        }
    }
}

pub proof fn lemma_split_lines_nonempty(s: Seq<char>)
    ensures
        split_lines(s).len() >= 1,
    decreases s.len(),
{
    if s.len() > 0 {
        lemma_split_lines_nonempty(s.drop_last());
    }
}

pub proof fn lemma_split_lines_no_newline(s: Seq<char>)
    ensures
        forall|k: int, j: int|
            0 <= k < split_lines(s).len() && 0 <= j < split_lines(s)[k].len() ==> split_lines(s)[k][j]
                != '\n',
    decreases s.len(),
{
    if s.len() > 0 {
        lemma_split_lines_no_newline(s.drop_last());
        lemma_split_lines_nonempty(s.drop_last());
    }
}

/// The pieces of `v` between line breaks.
pub fn split_lines_exec(v: &[char]) -> (r: Vec<Vec<char>>)
    ensures
        r@.len() == split_lines(v@).len(),
        forall|k: int| 0 <= k < r@.len() ==> #[trigger] r@[k]@ == split_lines(v@)[k],
{
    let mut r: Vec<Vec<char>> = Vec::new();
    let mut cur: Vec<char> = Vec::new();
    let mut i: usize = 0;
    assert(v@.take(0) =~= Seq::<char>::empty());
    while i < v.len()
        invariant
            i <= v@.len(),
            r@.len() + 1 == split_lines(v@.take(i as int)).len(),
            forall|k: int| 0 <= k < r@.len() ==> #[trigger] r@[k]@ == split_lines(v@.take(i as int))[k],
            cur@ == split_lines(v@.take(i as int)).last(),
        decreases v.len() - i,
    {
        let c = v[i];
        proof {
            assert(v@.take(i + 1).drop_last() =~= v@.take(i as int));
            lemma_split_lines_nonempty(v@.take(i as int));
        }
        if c == '\n' {
            let mut done: Vec<char> = Vec::new();
            std::mem::swap(&mut cur, &mut done);
            r.push(done);
        } else {
            cur.push(c);
        }
        i += 1;
    }
    assert(v@.take(i as int) =~= v@);
    r.push(cur);
    r
}

} // verus!
