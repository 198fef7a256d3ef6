//! The frequency table: how often each color occurs in the grid, keyed by
//! first encounter in row-major order so that the result is deterministic.

use vstd::prelude::*;
use crate::color::Color;

verus! {

/// The table with one more occurrence of `c`: the first entry for `c` is
/// incremented, or a fresh entry with count 1 is appended.
pub open spec fn bump(s: Seq<(Color, int)>, c: Color) -> Seq<(Color, int)>
    decreases s.len(),
{
    if s.len() == 0 {
        seq![(c, 1int)]
    } else if s[0].0 == c {
        seq![(s[0].0, s[0].1 + 1)] + s.drop_first()
    } else {
        seq![s[0]] + bump(s.drop_first(), c)
    }
}

/// The frequency table of a pixel sequence, entries ordered by first
/// encounter.
pub open spec fn spec_freqs(pixels: Seq<Color>) -> Seq<(Color, int)>
    decreases pixels.len(),
{
    if pixels.len() == 0 {
        Seq::empty()
    } else {
        bump(spec_freqs(pixels.drop_last()), pixels.last())
    }
}

pub open spec fn sum_counts(s: Seq<(Color, int)>) -> int
    decreases s.len(),
{
    if s.len() == 0 {
        0
    } else {
        s[0].1 + sum_counts(s.drop_first())
    }
}

pub proof fn lemma_sum_bump(s: Seq<(Color, int)>, c: Color)
    ensures
        sum_counts(bump(s, c)) == sum_counts(s) + 1,
        bump(s, c).len() <= s.len() + 1,
    decreases s.len(),
{
    if s.len() == 0 {
        let t = bump(s, c);
        assert(t.drop_first() =~= Seq::<(Color, int)>::empty());
        assert(sum_counts(t) == t[0].1 + sum_counts(t.drop_first()));
        assert(sum_counts(Seq::<(Color, int)>::empty()) == 0);
    } else if s[0].0 == c {
        let t = bump(s, c);
        assert(t.drop_first() =~= s.drop_first());
        assert(t[0] == (s[0].0, s[0].1 + 1));
        assert(sum_counts(t) == t[0].1 + sum_counts(t.drop_first()));
        assert(sum_counts(s) == s[0].1 + sum_counts(s.drop_first()));
    } else {
        lemma_sum_bump(s.drop_first(), c);
        let t = bump(s, c);
        assert(t.drop_first() =~= bump(s.drop_first(), c));
        assert(t[0] == s[0]);
        assert(sum_counts(t) == t[0].1 + sum_counts(t.drop_first()));
        assert(sum_counts(s) == s[0].1 + sum_counts(s.drop_first()));
    }
}

/// Every count in a frequency table is at least 1.
pub proof fn lemma_bump_pos(s: Seq<(Color, int)>, c: Color)
    requires
        forall|i: int| 0 <= i < s.len() ==> (#[trigger] s[i]).1 >= 1,
    ensures
        forall|i: int| 0 <= i < bump(s, c).len() ==> (#[trigger] bump(s, c)[i]).1 >= 1,
    decreases s.len(),
{
    if s.len() == 0 {
    } else if s[0].0 == c {
    } else {
        assert forall|i: int| 0 <= i < s.drop_first().len() implies (#[trigger] s.drop_first()[i]).1
            >= 1 by {
            assert(s.drop_first()[i] == s[i + 1]);
        }
        lemma_bump_pos(s.drop_first(), c);
        assert forall|i: int| 0 <= i < bump(s, c).len() implies (#[trigger] bump(s, c)[i]).1
            >= 1 by {
            if i >= 1 {
                assert(bump(s, c)[i] == bump(s.drop_first(), c)[i - 1]);
            }
        }
    }
}

pub proof fn lemma_freqs_pos(pixels: Seq<Color>)
    ensures
        forall|i: int|
            0 <= i < spec_freqs(pixels).len() ==> (#[trigger] spec_freqs(pixels)[i]).1 >= 1,
    decreases pixels.len(),
{
    if pixels.len() > 0 {
        lemma_freqs_pos(pixels.drop_last());
        lemma_bump_pos(spec_freqs(pixels.drop_last()), pixels.last());
    }
}

/// The counts of a frequency table add up to the number of pixels counted.
pub proof fn lemma_frequency_invariant(pixels: Seq<Color>)
    ensures
        sum_counts(spec_freqs(pixels)) == pixels.len(),
        spec_freqs(pixels).len() <= pixels.len(),
    decreases pixels.len(),
{
    if pixels.len() > 0 {
        lemma_frequency_invariant(pixels.drop_last());
        lemma_sum_bump(spec_freqs(pixels.drop_last()), pixels.last());
    }
}

/// With every count non-negative, one entry's count is at most the sum.
pub proof fn lemma_entry_le_sum(s: Seq<(Color, int)>, i: int)
    requires
        forall|j: int| 0 <= j < s.len() ==> (#[trigger] s[j]).1 >= 0,
        0 <= i < s.len(),
    ensures
        s[i].1 <= sum_counts(s),
    decreases s.len(),
{
    assert forall|j: int| 0 <= j < s.drop_first().len() implies (#[trigger] s.drop_first()[j]).1
        >= 0 by {
        assert(s.drop_first()[j] == s[j + 1]);
    }
    if i == 0 {
        lemma_sum_nonneg(s.drop_first());
    } else {
        lemma_entry_le_sum(s.drop_first(), i - 1);
        assert(s.drop_first()[i - 1] == s[i]);
    }
}

pub proof fn lemma_sum_nonneg(s: Seq<(Color, int)>)
    requires
        forall|j: int| 0 <= j < s.len() ==> (#[trigger] s[j]).1 >= 0,
    ensures
        sum_counts(s) >= 0,
    decreases s.len(),
{
    if s.len() > 0 {
        assert forall|j: int| 0 <= j < s.drop_first().len() implies (#[trigger] s.drop_first()[j]).1
            >= 0 by {
            assert(s.drop_first()[j] == s[j + 1]);
        }
        lemma_sum_nonneg(s.drop_first());
    }
}

/// Incrementing the first entry for `c` is `bump` when an entry exists.
proof fn lemma_bump_update(s: Seq<(Color, int)>, c: Color, j: int)
    requires
        0 <= j < s.len(),
        s[j].0 == c,
        forall|k: int| 0 <= k < j ==> (#[trigger] s[k]).0 != c,
    ensures
        bump(s, c) == s.update(j, (c, s[j].1 + 1)),
    decreases s.len(),
{
    if j == 0 {
        assert(bump(s, c) =~= s.update(0, (c, s[0].1 + 1)));
    } else {
        assert(s[0].0 != c);
        assert forall|k: int| 0 <= k < j - 1 implies (#[trigger] s.drop_first()[k]).0 != c by {
            assert(s.drop_first()[k] == s[k + 1]);
        }
        assert(s.drop_first()[j - 1] == s[j]);
        lemma_bump_update(s.drop_first(), c, j - 1);
        assert(bump(s, c) =~= s.update(j, (c, s[j].1 + 1)));
    }
}

/// Appending a fresh entry is `bump` when no entry for `c` exists.
proof fn lemma_bump_push(s: Seq<(Color, int)>, c: Color)
    requires
        forall|k: int| 0 <= k < s.len() ==> (#[trigger] s[k]).0 != c,
    ensures
        bump(s, c) == s.push((c, 1int)),
    decreases s.len(),
{
    if s.len() == 0 {
        assert(bump(s, c) =~= s.push((c, 1int)));
    } else {
        assert forall|k: int| 0 <= k < s.drop_first().len() implies (
        #[trigger] s.drop_first()[k]).0 != c by {
            assert(s.drop_first()[k] == s[k + 1]);
        }
        lemma_bump_push(s.drop_first(), c);
        assert(bump(s, c) =~= s.push((c, 1int)));
    }
}

/// How often `c` occurs in `p`.
pub open spec fn count_of(p: Seq<Color>, c: Color) -> int
    decreases p.len(),
{
    if p.len() == 0 {
        0
    } else {
        count_of(p.drop_last(), c) + (if p.last() == c {
            1int
        } else {
            0int
        })
    }
}

pub open spec fn has_key(s: Seq<(Color, int)>, c: Color) -> bool {
    exists|j: int| 0 <= j < s.len() && (#[trigger] s[j]).0 == c
}

proof fn lemma_bump_exact(s: Seq<(Color, int)>, p: Seq<Color>, c: Color)
    requires
        forall|i: int, j: int| 0 <= i < j < s.len() ==> (#[trigger] s[i]).0 != (#[trigger] s[j]).0,
        forall|j: int| 0 <= j < s.len() ==> (#[trigger] s[j]).1 == count_of(p, s[j].0),
        !has_key(s, c) ==> count_of(p, c) == 0,
    ensures
        forall|i: int, j: int|
            0 <= i < j < bump(s, c).len() ==> (#[trigger] bump(s, c)[i]).0 != (#[trigger] bump(
                s,
                c,
            )[j]).0,
        forall|j: int|
            0 <= j < bump(s, c).len() ==> (#[trigger] bump(s, c)[j]).1 == count_of(
                p.push(c),
                bump(s, c)[j].0,
            ),
        forall|cc: Color|
            #![trigger has_key(bump(s, c), cc)]
            has_key(bump(s, c), cc) <==> has_key(s, cc) || cc == c,
    decreases s.len(),
{
    let t = bump(s, c);
    assert(p.push(c).drop_last() =~= p);
    if s.len() == 0 {
        assert(t =~= seq![(c, 1int)]);
        assert(count_of(p, c) == 0);
        assert forall|cc: Color| has_key(t, cc) <==> has_key(s, cc) || cc == c by {
            if cc == c {
                assert(t[0].0 == c);
            }
            if has_key(t, cc) {
                let j = choose|j: int| 0 <= j < t.len() && (#[trigger] t[j]).0 == cc;
                assert(j == 0);
            }
        }
    } else if s[0].0 == c {
        assert(t.drop_first() =~= s.drop_first());
        assert(t =~= seq![(c, s[0].1 + 1)] + s.drop_first());
        assert forall|j: int| 0 <= j < t.len() implies (#[trigger] t[j]).1 == count_of(
            p.push(c),
            t[j].0,
        ) by {
            if j == 0 {
                assert(s[0].1 == count_of(p, c));
            } else {
                assert(t[j] == s[j]);
                assert(s[j].0 != s[0].0);
                assert(s[j].1 == count_of(p, s[j].0));
            }
        }
        assert forall|i: int, j: int| 0 <= i < j < t.len() implies (#[trigger] t[i]).0 != (
        #[trigger] t[j]).0 by {
            assert(t[i].0 == s[i].0 && t[j].0 == s[j].0);
        }
        assert forall|cc: Color| has_key(t, cc) <==> has_key(s, cc) || cc == c by {
            if has_key(t, cc) {
                let j = choose|j: int| 0 <= j < t.len() && (#[trigger] t[j]).0 == cc;
                assert(s[j].0 == cc);
            }
            if has_key(s, cc) {
                let j = choose|j: int| 0 <= j < s.len() && (#[trigger] s[j]).0 == cc;
                assert(t[j].0 == cc);
            }
            if cc == c {
                assert(t[0].0 == cc);
            }
        }
    } else {
        assert forall|i: int, j: int| 0 <= i < j < s.drop_first().len() implies (
        #[trigger] s.drop_first()[i]).0 != (#[trigger] s.drop_first()[j]).0 by {
            assert(s.drop_first()[i] == s[i + 1] && s.drop_first()[j] == s[j + 1]);
        }
        assert forall|j: int| 0 <= j < s.drop_first().len() implies (
        #[trigger] s.drop_first()[j]).1 == count_of(p, s.drop_first()[j].0) by {
            assert(s.drop_first()[j] == s[j + 1]);
        }
        assert(!has_key(s.drop_first(), c) ==> !has_key(s, c)) by {
            if has_key(s, c) {
                let j = choose|j: int| 0 <= j < s.len() && (#[trigger] s[j]).0 == c;
                assert(j >= 1);
                assert(s.drop_first()[j - 1].0 == c);
            }
        }
        lemma_bump_exact(s.drop_first(), p, c);
        let u = bump(s.drop_first(), c);
        assert(t =~= seq![s[0]] + u);
        assert forall|j: int| 0 <= j < t.len() implies (#[trigger] t[j]).1 == count_of(
            p.push(c),
            t[j].0,
        ) by {
            if j == 0 {
                assert(t[0] == s[0]);
                assert(s[0].0 != c);
                assert(s[0].1 == count_of(p, s[0].0));
            } else {
                assert(t[j] == u[j - 1]);
            }
        }
        assert forall|i: int, j: int| 0 <= i < j < t.len() implies (#[trigger] t[i]).0 != (
        #[trigger] t[j]).0 by {
            if i == 0 {
                assert(t[j] == u[j - 1]);
                if t[0].0 == t[j].0 {
                    // the head's key would then also sit in the bumped rest,
                    // so it sat in the rest already: against uniqueness
                    assert(has_key(u, s[0].0)) by {
                        assert(u[j - 1].0 == s[0].0);
                    }
                    assert(s[0].0 != c);
                    assert(has_key(s.drop_first(), s[0].0));
                    let hd = s[0].0;
                    let l = choose|l: int|
                        0 <= l < s.drop_first().len() && (#[trigger] s.drop_first()[l]).0 == hd;
                    assert(s[l + 1].0 == s[0].0);
                    assert(false);
                }
            } else {
                assert(t[i] == u[i - 1] && t[j] == u[j - 1]);
            }
        }
        assert forall|cc: Color| has_key(t, cc) <==> has_key(s, cc) || cc == c by {
            if has_key(t, cc) {
                let j = choose|j: int| 0 <= j < t.len() && (#[trigger] t[j]).0 == cc;
                if j == 0 {
                    assert(s[0].0 == cc);
                } else {
                    assert(u[j - 1].0 == cc);
                    assert(has_key(u, cc));
                    if has_key(s.drop_first(), cc) {
                        let l = choose|l: int|
                            0 <= l < s.drop_first().len() && (#[trigger] s.drop_first()[l]).0
                                == cc;
                        assert(s[l + 1].0 == cc);
                    }
                }
            }
            if has_key(s, cc) {
                let j = choose|j: int| 0 <= j < s.len() && (#[trigger] s[j]).0 == cc;
                if j == 0 {
                    assert(t[0].0 == cc);
                } else {
                    assert(s.drop_first()[j - 1].0 == cc);
                    assert(has_key(s.drop_first(), cc));
                    assert(has_key(u, cc));
                    let l = choose|l: int| 0 <= l < u.len() && (#[trigger] u[l]).0 == cc;
                    assert(t[l + 1].0 == cc);
                }
            }
            if cc == c {
                assert(has_key(u, cc));
                let l = choose|l: int| 0 <= l < u.len() && (#[trigger] u[l]).0 == cc;
                assert(t[l + 1].0 == cc);
            }
        }
    }
}

/// The frequency table is exact: its keys are distinct, each key's count
/// is the color's number of occurrences, and every occurring color has a
/// key.
pub proof fn lemma_freqs_exact(p: Seq<Color>)
    ensures
        forall|i: int, j: int|
            0 <= i < j < spec_freqs(p).len() ==> (#[trigger] spec_freqs(p)[i]).0 != (
            #[trigger] spec_freqs(p)[j]).0,
        forall|j: int|
            0 <= j < spec_freqs(p).len() ==> (#[trigger] spec_freqs(p)[j]).1 == count_of(
                p,
                spec_freqs(p)[j].0,
            ),
        forall|cc: Color| !has_key(spec_freqs(p), cc) ==> #[trigger] count_of(p, cc) == 0,
    decreases p.len(),
{
    if p.len() > 0 {
        lemma_freqs_exact(p.drop_last());
        lemma_bump_exact(spec_freqs(p.drop_last()), p.drop_last(), p.last());
        assert(p.drop_last().push(p.last()) =~= p);
        assert forall|cc: Color| !has_key(spec_freqs(p), cc) implies #[trigger] count_of(p, cc)
            == 0 by {
            assert(!has_key(spec_freqs(p.drop_last()), cc) && cc != p.last());
            assert(count_of(p, cc) == count_of(p.drop_last(), cc));
        }
    }
}

/// The view of an executable frequency table, counts as integers.
pub open spec fn freq_view(s: Seq<(Color, u64)>) -> Seq<(Color, int)> {
    s.map_values(|p: (Color, u64)| (p.0, p.1 as int))
}

/// Count how often each color occurs, entries ordered by first encounter.
pub fn count_colors(pixels: &Vec<Color>) -> (r: Vec<(Color, u64)>)
    ensures
        freq_view(r@) == spec_freqs(pixels@),
{
    let mut r: Vec<(Color, u64)> = Vec::new();
    let mut i: usize = 0;
    proof {
        assert(pixels@.take(0) =~= Seq::<Color>::empty());
        assert(freq_view(r@) =~= spec_freqs(pixels@.take(0)));
    }
    while i < pixels.len()
        invariant
            i <= pixels@.len(),
            freq_view(r@) == spec_freqs(pixels@.take(i as int)),
        decreases pixels@.len() - i,
    {
        let c = pixels[i];
        let ghost fv = freq_view(r@);
        proof {
            assert(pixels@.take(i + 1).drop_last() =~= pixels@.take(i as int));
            assert(pixels@.take(i + 1).last() == pixels@[i as int]);
            lemma_frequency_invariant(pixels@.take(i as int));
            lemma_freqs_pos(pixels@.take(i as int));
        }
        let mut j: usize = 0;
        let mut found = false;
        while j < r.len() && !found
            invariant
                j <= r@.len(),
                found ==> j < r@.len() && r@[j as int].0 == c,
                forall|k: int| 0 <= k < j ==> (#[trigger] r@[k]).0 != c,
            decreases r@.len() - j + (if found {
                0int
            } else {
                1int
            }),
        {
            if r[j].0 == c {
                found = true;
            } else {
                j += 1;
            }
        }
        if found {
            proof {
                assert(fv[j as int] == (r@[j as int].0, r@[j as int].1 as int));
                assert forall|k: int| 0 <= k < j implies (#[trigger] fv[k]).0 != c by {
                    assert(fv[k] == (r@[k].0, r@[k].1 as int));
                }
                lemma_bump_update(fv, c, j as int);
                lemma_entry_le_sum(fv, j as int);
            }
            let n = r[j].1;
            r.set(j, (c, n + 1));
            proof {
                assert(freq_view(r@) =~= fv.update(j as int, (c, n as int + 1)));
            }
        } else {
            proof {
                assert forall|k: int| 0 <= k < fv.len() implies (#[trigger] fv[k]).0 != c by {
                    assert(fv[k] == (r@[k].0, r@[k].1 as int));
                }
                lemma_bump_push(fv, c);
            }
            r.push((c, 1));
            proof {
                assert(freq_view(r@) =~= fv.push((c, 1int)));
            }
        }
        i += 1;
    }
    proof {
        assert(pixels@.take(pixels@.len() as int) =~= pixels@);
    }
    r
}

} // verus!
