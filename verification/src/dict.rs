//! The dictionary: colors occurring at least twice, ranked by descending
//! count, ties broken by first encounter (a stable insertion sort), and
//! assigned the dense indices 0, 1, 2, ...

use vstd::prelude::*;
use crate::color::Color;
use crate::freq::spec_freqs;
use crate::freq::freq_view;

verus! {

/// `e` inserted after every entry whose count is at least as large, which
/// keeps the sort stable.
pub open spec fn insert_desc(s: Seq<(Color, int)>, e: (Color, int)) -> Seq<(Color, int)>
    decreases s.len(),
{
    if s.len() == 0 {
        seq![e]
    } else if s[0].1 >= e.1 {
        seq![s[0]] + insert_desc(s.drop_first(), e)
    } else {
        seq![e] + s
    }
}

/// The table sorted by count, largest first, stable.
pub open spec fn sort_desc(s: Seq<(Color, int)>) -> Seq<(Color, int)>
    decreases s.len(),
{
    if s.len() == 0 {
        Seq::empty()
    } else {
        insert_desc(sort_desc(s.drop_last()), s.last())
    }
}

/// The colors of the entries with count at least 2, in table order.
pub open spec fn keep_frequent(s: Seq<(Color, int)>) -> Seq<Color>
    decreases s.len(),
{
    if s.len() == 0 {
        Seq::empty()
    } else {
        keep_frequent(s.drop_last()) + (if s.last().1 >= 2 {
            seq![s.last().0]
        } else {
            Seq::<Color>::empty()
        })
    }
}

/// The dictionary of a pixel sequence: its position is a color's index.
pub open spec fn spec_dict(pixels: Seq<Color>) -> Seq<Color> {
    keep_frequent(sort_desc(spec_freqs(pixels)))
}

/// The index of the first entry equal to `c`, if any.
pub open spec fn spec_find(dict: Seq<Color>, c: Color) -> Option<int>
    decreases dict.len(),
{
    if dict.len() == 0 {
        None
    } else if dict[0] == c {
        Some(0)
    } else {
        match spec_find(dict.drop_first(), c) {
            Some(i) => Some(i + 1),
            None => None,
        }
    }
}

pub proof fn lemma_find_props(dict: Seq<Color>, c: Color)
    ensures
        match spec_find(dict, c) {
            Some(i) => 0 <= i < dict.len() && dict[i] == c && (forall|j: int|
                0 <= j < i ==> dict[j] != c),
            None => forall|j: int| 0 <= j < dict.len() ==> dict[j] != c,
        },
    decreases dict.len(),
{
    if dict.len() > 0 && dict[0] != c {
        let d = dict.drop_first();
        lemma_find_props(d, c);
        match spec_find(d, c) {
            Some(i) => {
                assert(spec_find(dict, c) == Some(i + 1));
                assert(dict[i + 1] == d[i]);
                assert forall|j: int| 0 <= j < i + 1 implies dict[j] != c by {
                    if j > 0 {
                        assert(dict[j] == d[j - 1]);
                    }
                }
            },
            None => {
                assert forall|j: int| 0 <= j < dict.len() implies dict[j] != c by {
                    if j > 0 {
                        assert(dict[j] == d[j - 1]);
                    }
                }
            },
        }
    }
}

pub proof fn lemma_find_at(dict: Seq<Color>, c: Color, i: int)
    requires
        0 <= i < dict.len(),
        dict[i] == c,
        forall|j: int| 0 <= j < i ==> dict[j] != c,
    ensures
        spec_find(dict, c) == Some(i),
    decreases dict.len(),
{
    if i > 0 {
        assert forall|j: int| 0 <= j < i - 1 implies dict.drop_first()[j] != c by {
            assert(dict.drop_first()[j] == dict[j + 1]);
        }
        assert(dict.drop_first()[i - 1] == dict[i]);
        lemma_find_at(dict.drop_first(), c, i - 1);
    }
}

proof fn lemma_insert_desc_at(s: Seq<(Color, int)>, e: (Color, int), j: int)
    requires
        0 <= j <= s.len(),
        forall|k: int| 0 <= k < j ==> (#[trigger] s[k]).1 >= e.1,
        j < s.len() ==> s[j].1 < e.1,
    ensures
        insert_desc(s, e) == s.insert(j, e),
    decreases s.len(),
{
    if j == 0 {
        if s.len() == 0 {
            assert(insert_desc(s, e) =~= s.insert(0, e));
        } else {
            assert(s[0].1 < e.1);
            assert(insert_desc(s, e) =~= s.insert(0, e));
        }
    } else {
        assert(s[0].1 >= e.1);
        assert forall|k: int| 0 <= k < j - 1 implies (#[trigger] s.drop_first()[k]).1 >= e.1 by {
            assert(s.drop_first()[k] == s[k + 1]);
        }
        if j - 1 < s.drop_first().len() {
            assert(s.drop_first()[j - 1] == s[j]);
        }
        lemma_insert_desc_at(s.drop_first(), e, j - 1);
        assert(insert_desc(s, e) =~= s.insert(j, e));
    }
}

/// Sort by count, largest first; equal counts keep their table order.
fn sort_by_count(freqs: &Vec<(Color, u64)>) -> (r: Vec<(Color, u64)>)
    ensures
        freq_view(r@) == sort_desc(freq_view(freqs@)),
{
    let mut r: Vec<(Color, u64)> = Vec::new();
    let mut i: usize = 0;
    proof {
        assert(freq_view(freqs@).take(0) =~= Seq::<(Color, int)>::empty());
        assert(freq_view(r@) =~= sort_desc(freq_view(freqs@).take(0)));
    }
    while i < freqs.len()
        invariant
            i <= freqs@.len(),
            freq_view(r@) == sort_desc(freq_view(freqs@).take(i as int)),
        decreases freqs@.len() - i,
    {
        let e = freqs[i];
        let ghost rv = freq_view(r@);
        let ghost ev = (e.0, e.1 as int);
        let mut j: usize = 0;
        while j < r.len() && r[j].1 >= e.1
            invariant
                j <= r@.len(),
                forall|k: int| 0 <= k < j ==> (#[trigger] freq_view(r@)[k]).1 >= ev.1,
                freq_view(r@) == rv,
                ev == (e.0, e.1 as int),
            decreases r@.len() - j,
        {
            proof {
                assert(freq_view(r@)[j as int] == (r@[j as int].0, r@[j as int].1 as int));
            }
            j += 1;
        }
        proof {
            if (j as int) < rv.len() {
                assert(freq_view(r@)[j as int] == (r@[j as int].0, r@[j as int].1 as int));
            }
            lemma_insert_desc_at(rv, ev, j as int);
            assert(freq_view(freqs@).take(i + 1).drop_last() =~= freq_view(freqs@).take(i as int));
            assert(freq_view(freqs@).take(i + 1).last() == freq_view(freqs@)[i as int]);
            assert(freq_view(freqs@)[i as int] == ev);
        }
        r.insert(j, e);
        proof {
            assert(freq_view(r@) =~= rv.insert(j as int, ev));
        }
        i += 1;
    }
    proof {
        assert(freq_view(freqs@).take(freqs@.len() as int) =~= freq_view(freqs@));
    }
    r
}

/// The dictionary built from a frequency table: the colors counted at
/// least twice, ranked by descending count, first encounter first.
pub fn build_dictionary(freqs: &Vec<(Color, u64)>) -> (r: Vec<Color>)
    ensures
        r@ == keep_frequent(sort_desc(freq_view(freqs@))),
{
    let sorted = sort_by_count(freqs);
    let mut r: Vec<Color> = Vec::new();
    let mut i: usize = 0;
    proof {
        assert(freq_view(sorted@).take(0) =~= Seq::<(Color, int)>::empty());
        assert(r@ =~= keep_frequent(freq_view(sorted@).take(0)));
    }
    while i < sorted.len()
        invariant
            i <= sorted@.len(),
            r@ == keep_frequent(freq_view(sorted@).take(i as int)),
        decreases sorted@.len() - i,
    {
        proof {
            assert(freq_view(sorted@).take(i + 1).drop_last() =~= freq_view(sorted@).take(
                i as int,
            ));
            assert(freq_view(sorted@).take(i + 1).last() == (sorted@[i as int].0, sorted@[
                i as int].1 as int));
        }
        let e = sorted[i];
        if e.1 >= 2 {
            r.push(e.0);
            proof {
                assert(r@ =~= keep_frequent(freq_view(sorted@).take(i + 1)));
            }
        } else {
            proof {
                assert(r@ =~= keep_frequent(freq_view(sorted@).take(i + 1)));
            }
        }
        i += 1;
    }
    proof {
        assert(freq_view(sorted@).take(sorted@.len() as int) =~= freq_view(sorted@));
    }
    r
}

/// The dictionary index of `c`, if it has one.
pub fn find_color(dict: &Vec<Color>, c: Color) -> (r: Option<usize>)
    ensures
        match r {
            Some(i) => spec_find(dict@, c) == Some(i as int),
            None => spec_find(dict@, c) is None,
        },
{
    let mut i: usize = 0;
    while i < dict.len()
        invariant
            i <= dict@.len(),
            forall|j: int| 0 <= j < i ==> dict@[j] != c,
        decreases dict@.len() - i,
    {
        if dict[i] == c {
            proof {
                lemma_find_at(dict@, c, i as int);
            }
            return Some(i);
        }
        i += 1;
    }
    proof {
        lemma_find_props(dict@, c);
        match spec_find(dict@, c) {
            Some(w) => {
                assert(dict@[w] == c);
            },
            None => {},
        }
    }
    None
}

pub proof fn lemma_insert_desc_len(s: Seq<(Color, int)>, e: (Color, int))
    ensures
        insert_desc(s, e).len() == s.len() + 1,
    decreases s.len(),
{
    if s.len() > 0 && s[0].1 >= e.1 {
        lemma_insert_desc_len(s.drop_first(), e);
    }
}

pub proof fn lemma_sort_desc_len(s: Seq<(Color, int)>)
    ensures
        sort_desc(s).len() == s.len(),
    decreases s.len(),
{
    if s.len() > 0 {
        lemma_sort_desc_len(s.drop_last());
        lemma_insert_desc_len(sort_desc(s.drop_last()), s.last());
    }
}

pub proof fn lemma_keep_frequent_len(s: Seq<(Color, int)>)
    ensures
        keep_frequent(s).len() <= s.len(),
    decreases s.len(),
{
    if s.len() > 0 {
        lemma_keep_frequent_len(s.drop_last());
    }
}

/// The dictionary never has more entries than the grid has pixels.
pub proof fn lemma_dict_len(pixels: Seq<Color>)
    ensures
        spec_dict(pixels).len() <= pixels.len(),
{
    crate::freq::lemma_frequency_invariant(pixels);
    lemma_sort_desc_len(spec_freqs(pixels));
    lemma_keep_frequent_len(sort_desc(spec_freqs(pixels)));
}

proof fn lemma_insert_desc_contains(s: Seq<(Color, int)>, e: (Color, int), x: (Color, int))
    ensures
        insert_desc(s, e).contains(x) <==> (s.contains(x) || x == e),
    decreases s.len(),
{
    let t = insert_desc(s, e);
    if s.len() == 0 {
        assert(t =~= seq![e]);
        if t.contains(x) {
            let i = choose|i: int| 0 <= i < t.len() && t[i] == x;
            assert(x == e);
        }
        if x == e {
            assert(t[0] == x);
        }
    } else if s[0].1 >= e.1 {
        lemma_insert_desc_contains(s.drop_first(), e, x);
        let u = insert_desc(s.drop_first(), e);
        assert(t =~= seq![s[0]] + u);
        if t.contains(x) {
            let i = choose|i: int| 0 <= i < t.len() && t[i] == x;
            if i == 0 {
                assert(s[0] == x);
            } else {
                assert(u[i - 1] == x);
                assert(u.contains(x));
                if s.drop_first().contains(x) {
                    let l = choose|l: int|
                        0 <= l < s.drop_first().len() && s.drop_first()[l] == x;
                    assert(s[l + 1] == x);
                }
            }
        }
        if s.contains(x) {
            let i = choose|i: int| 0 <= i < s.len() && s[i] == x;
            if i == 0 {
                assert(t[0] == x);
            } else {
                assert(s.drop_first()[i - 1] == x);
                assert(s.drop_first().contains(x));
                assert(u.contains(x));
                let l = choose|l: int| 0 <= l < u.len() && u[l] == x;
                assert(t[l + 1] == x);
            }
        }
        if x == e {
            assert(u.contains(x));
            let l = choose|l: int| 0 <= l < u.len() && u[l] == x;
            assert(t[l + 1] == x);
        }
    } else {
        assert(t =~= seq![e] + s);
        if t.contains(x) {
            let i = choose|i: int| 0 <= i < t.len() && t[i] == x;
            if i >= 1 {
                assert(s[i - 1] == x);
            }
        }
        if s.contains(x) {
            let i = choose|i: int| 0 <= i < s.len() && s[i] == x;
            assert(t[i + 1] == x);
        }
        if x == e {
            assert(t[0] == x);
        }
    }
}

/// Sorting neither loses nor invents entries.
proof fn lemma_sort_desc_contains(s: Seq<(Color, int)>, x: (Color, int))
    ensures
        sort_desc(s).contains(x) <==> s.contains(x),
    decreases s.len(),
{
    if s.len() > 0 {
        lemma_sort_desc_contains(s.drop_last(), x);
        lemma_insert_desc_contains(sort_desc(s.drop_last()), s.last(), x);
        if s.contains(x) {
            let i = choose|i: int| 0 <= i < s.len() && s[i] == x;
            if i < s.len() - 1 {
                assert(s.drop_last()[i] == x);
                assert(s.drop_last().contains(x));
            }
        }
        if s.drop_last().contains(x) {
            let i = choose|i: int| 0 <= i < s.drop_last().len() && s.drop_last()[i] == x;
            assert(s[i] == x);
        }
        if x == s.last() {
            assert(s[s.len() - 1] == x);
        }
    }
}

/// Every dictionary color comes from a table entry counted at least twice.
proof fn lemma_keep_frequent_entries(s: Seq<(Color, int)>, k: int)
    requires
        0 <= k < keep_frequent(s).len(),
    ensures
        exists|j: int|
            0 <= j < s.len() && (#[trigger] s[j]).0 == keep_frequent(s)[k] && s[j].1 >= 2,
    decreases s.len(),
{
    let kept = keep_frequent(s);
    if k < keep_frequent(s.drop_last()).len() {
        lemma_keep_frequent_entries(s.drop_last(), k);
        let j = choose|j: int|
            0 <= j < s.drop_last().len() && (#[trigger] s.drop_last()[j]).0 == keep_frequent(
                s.drop_last(),
            )[k] && s.drop_last()[j].1 >= 2;
        assert(s[j] == s.drop_last()[j]);
        assert(kept[k] == keep_frequent(s.drop_last())[k]);
    } else {
        assert(s.last().1 >= 2);
        assert(kept[k] == s.last().0);
        assert(s[s.len() - 1] == s.last());
    }
}

/// A color enters the dictionary only when it occurs at least twice in
/// the grid.
pub proof fn lemma_dict_colors_frequent(pixels: Seq<Color>, k: int)
    requires
        0 <= k < spec_dict(pixels).len(),
    ensures
        crate::freq::count_of(pixels, spec_dict(pixels)[k]) >= 2,
{
    crate::freq::lemma_freqs_exact(pixels);
    let freqs = spec_freqs(pixels);
    let sorted = sort_desc(freqs);
    lemma_keep_frequent_entries(sorted, k);
    let j = choose|j: int|
        0 <= j < sorted.len() && (#[trigger] sorted[j]).0 == keep_frequent(sorted)[k]
            && sorted[j].1 >= 2;
    lemma_sort_desc_contains(freqs, sorted[j]);
    assert(sorted.contains(sorted[j]));
    assert(freqs.contains(sorted[j]));
    let l = choose|l: int| 0 <= l < freqs.len() && freqs[l] == sorted[j];
    assert(freqs[l].1 == crate::freq::count_of(pixels, freqs[l].0));
}

/// The counts of a sorted table never increase from one entry to the next.
pub proof fn lemma_insert_desc_sorted(s: Seq<(Color, int)>, e: (Color, int))
    requires
        forall|i: int, j: int| 0 <= i <= j < s.len() ==> (#[trigger] s[i]).1 >= (#[trigger] s[j]).1,
    ensures
        forall|i: int, j: int|
            0 <= i <= j < insert_desc(s, e).len() ==> (#[trigger] insert_desc(s, e)[i]).1 >= (
            #[trigger] insert_desc(s, e)[j]).1,
    decreases s.len(),
{
    let t = insert_desc(s, e);
    if s.len() == 0 {
    } else if s[0].1 >= e.1 {
        assert forall|i: int, j: int|
            0 <= i <= j < s.drop_first().len() implies (#[trigger] s.drop_first()[i]).1 >= (
        #[trigger] s.drop_first()[j]).1 by {
            assert(s.drop_first()[i] == s[i + 1]);
            assert(s.drop_first()[j] == s[j + 1]);
        }
        lemma_insert_desc_sorted(s.drop_first(), e);
        let u = insert_desc(s.drop_first(), e);
        assert forall|i: int, j: int| 0 <= i <= j < t.len() implies (#[trigger] t[i]).1 >= (
        #[trigger] t[j]).1 by {
            if i >= 1 {
                assert(t[i] == u[i - 1]);
                assert(t[j] == u[j - 1]);
            } else if j >= 1 {
                assert(t[j] == u[j - 1]);
                // the head of u is either e or the head of the rest of s;
                // both are bounded by s[0]
                if u.len() > 0 {
                    assert(u[0].1 <= s[0].1) by {
                        if s.drop_first().len() == 0 {
                        } else if s.drop_first()[0].1 >= e.1 {
                            assert(u[0] == s.drop_first()[0]);
                            assert(s.drop_first()[0] == s[1]);
                        } else {
                            assert(u[0] == e);
                        }
                    }
                    assert(u[j - 1].1 <= u[0].1);
                }
            }
        }
    } else {
        assert forall|i: int, j: int| 0 <= i <= j < t.len() implies (#[trigger] t[i]).1 >= (
        #[trigger] t[j]).1 by {
            if i >= 1 {
                assert(t[i] == s[i - 1]);
                assert(t[j] == s[j - 1]);
            } else if j >= 1 {
                assert(t[j] == s[j - 1]);
                assert(s[j - 1].1 <= s[0].1);
                assert(s[0].1 < e.1);
            }
        }
    }
}

/// The dictionary ranks colors by descending count: the sorted table's
/// counts never increase from one entry to the next.
pub proof fn lemma_sort_desc_sorted(s: Seq<(Color, int)>)
    ensures
        forall|i: int, j: int|
            0 <= i <= j < sort_desc(s).len() ==> (#[trigger] sort_desc(s)[i]).1 >= (
            #[trigger] sort_desc(s)[j]).1,
    decreases s.len(),
{
    if s.len() > 0 {
        lemma_sort_desc_sorted(s.drop_last());
        lemma_insert_desc_sorted(sort_desc(s.drop_last()), s.last());
    }
}

} // verus!
