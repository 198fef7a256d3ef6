//! Byte strings: splitting on a separator, joining with one, and the fact
//! that the two are inverse when no field holds the separator.

use vstd::prelude::*;

verus! {

/// The views of a vector of byte strings.
pub open spec fn seqs_of(v: Seq<Vec<u8>>) -> Seq<Seq<u8>> {
    v.map_values(|x: Vec<u8>| x@)
}

pub open spec fn has_byte(s: Seq<u8>, b: u8) -> bool {
    exists|i: int| 0 <= i < s.len() && s[i] == b
}

/// Splitting, with the field read so far carried along: how a left-to-right
/// scan cuts `s` at every occurrence of `sep`.
pub open spec fn split_rec(s: Seq<u8>, sep: u8, cur: Seq<u8>) -> Seq<Seq<u8>>
    decreases s.len(),
{
    if s.len() == 0 {
        seq![cur]
    } else if s[0] == sep {
        seq![cur] + split_rec(s.drop_first(), sep, Seq::empty())
    } else {
        split_rec(s.drop_first(), sep, cur.push(s[0]))
    }
}

/// The fields of `s` cut at every `sep`; one more field than separators, so
/// never empty (the empty string has the single field `""`).
pub open spec fn spec_split(s: Seq<u8>, sep: u8) -> Seq<Seq<u8>> {
    split_rec(s, sep, Seq::empty())
}

/// The fields joined with `sep` between consecutive ones.
pub open spec fn spec_join(parts: Seq<Seq<u8>>, sep: u8) -> Seq<u8>
    decreases parts.len(),
{
    if parts.len() == 0 {
        Seq::empty()
    } else if parts.len() == 1 {
        parts[0]
    } else {
        parts[0] + seq![sep] + spec_join(parts.drop_first(), sep)
    }
}

/// A separator-free prefix is absorbed into the field being read.
proof fn lemma_split_rec_clean(p: Seq<u8>, t: Seq<u8>, sep: u8, cur: Seq<u8>)
    requires
        !has_byte(p, sep),
    ensures
        split_rec(p + t, sep, cur) == split_rec(t, sep, cur + p),
    decreases p.len(),
{
    if p.len() == 0 {
        assert(p + t =~= t);
        assert(cur + p =~= cur);
    } else {
        assert((p + t)[0] == p[0]);
        assert(p[0] != sep);
        assert((p + t).drop_first() =~= p.drop_first() + t);
        assert(!has_byte(p.drop_first(), sep)) by {
            assert forall|i: int| 0 <= i < p.drop_first().len() implies p.drop_first()[i]
                != sep by {
                assert(p.drop_first()[i] == p[i + 1]);
            }
        }
        lemma_split_rec_clean(p.drop_first(), t, sep, cur.push(p[0]));
        assert(cur.push(p[0]) + p.drop_first() =~= cur + p);
    }
}

/// Splitting undoes joining, as long as no field holds the separator.
pub proof fn lemma_split_join(parts: Seq<Seq<u8>>, sep: u8)
    requires
        parts.len() >= 1,
        forall|i: int| 0 <= i < parts.len() ==> !has_byte(#[trigger] parts[i], sep),
    ensures
        spec_split(spec_join(parts, sep), sep) == parts,
    decreases parts.len(),
{
    if parts.len() == 1 {
        lemma_split_rec_clean(parts[0], Seq::empty(), sep, Seq::empty());
        assert(parts[0] + Seq::<u8>::empty() =~= parts[0]);
        assert(Seq::<u8>::empty() + parts[0] =~= parts[0]);
        assert(spec_split(spec_join(parts, sep), sep) =~= parts);
    } else {
        let rest = parts.drop_first();
        let jr = spec_join(rest, sep);
        let tail = seq![sep] + jr;
        assert(spec_join(parts, sep) =~= parts[0] + tail);
        lemma_split_rec_clean(parts[0], tail, sep, Seq::empty());
        assert(Seq::<u8>::empty() + parts[0] =~= parts[0]);
        assert(tail[0] == sep);
        assert(tail.drop_first() =~= jr);
        assert(split_rec(tail, sep, parts[0]) == seq![parts[0]] + split_rec(
            jr,
            sep,
            Seq::empty(),
        ));
        assert forall|i: int| 0 <= i < rest.len() implies !has_byte(#[trigger] rest[i], sep) by {
            assert(rest[i] == parts[i + 1]);
        }
        lemma_split_join(rest, sep);
        assert(seq![parts[0]] + rest =~= parts);
    }
}

/// Appending one more field to a non-empty join appends a separator and it.
pub proof fn lemma_join_push(parts: Seq<Seq<u8>>, p: Seq<u8>, sep: u8)
    requires
        parts.len() >= 1,
    ensures
        spec_join(parts.push(p), sep) == spec_join(parts, sep) + seq![sep] + p,
    decreases parts.len(),
{
    if parts.len() == 1 {
        let w = parts.push(p);
        assert(w.len() == 2);
        assert(w.drop_first() =~= seq![p]);
        assert(spec_join(w.drop_first(), sep) == p);
        assert(spec_join(w, sep) == parts[0] + seq![sep] + p);
    } else {
        let w = parts.push(p);
        assert(w.drop_first() =~= parts.drop_first().push(p));
        lemma_join_push(parts.drop_first(), p, sep);
        assert(spec_join(w, sep) == w[0] + seq![sep] + spec_join(w.drop_first(), sep));
        assert(w[0] == parts[0]);
        assert(parts[0] + seq![sep] + (spec_join(parts.drop_first(), sep) + seq![sep] + p) =~= (
        parts[0] + seq![sep] + spec_join(parts.drop_first(), sep)) + seq![sep] + p);
    }
}

/// A fresh copy of a byte string.
pub fn copy_bytes(v: &Vec<u8>) -> (r: Vec<u8>)
    ensures
        r@ == v@,
{
    let mut r: Vec<u8> = Vec::new();
    let mut i: usize = 0;
    while i < v.len()
        invariant
            i <= v@.len(),
            r@ == v@.subrange(0, i as int),
        decreases v@.len() - i,
    {
        r.push(v[i]);
        proof {
            assert(r@ =~= v@.subrange(0, i + 1));
        }
        i += 1;
    }
    proof {
        assert(v@.subrange(0, v@.len() as int) =~= v@);
    }
    r
}

/// The fields of `s` cut at every occurrence of `sep`.
pub fn split_bytes(s: &Vec<u8>, sep: u8) -> (r: Vec<Vec<u8>>)
    ensures
        seqs_of(r@) == spec_split(s@, sep),
{
    let mut out: Vec<Vec<u8>> = Vec::new();
    let mut cur: Vec<u8> = Vec::new();
    let mut i: usize = 0;
    proof {
        assert(s@.skip(0) =~= s@);
        assert(seqs_of(out@) + split_rec(s@, sep, cur@) =~= spec_split(s@, sep));
    }
    while i < s.len()
        invariant
            i <= s@.len(),
            spec_split(s@, sep) == seqs_of(out@) + split_rec(s@.skip(i as int), sep, cur@),
        decreases s@.len() - i,
    {
        proof {
            assert(s@.skip(i as int).drop_first() =~= s@.skip(i + 1));
            assert(s@.skip(i as int)[0] == s@[i as int]);
        }
        if s[i] == sep {
            let ghost old_out = out@;
            let ghost old_cur = cur@;
            out.push(cur);
            cur = Vec::new();
            proof {
                assert(seqs_of(out@) =~= seqs_of(old_out).push(old_cur));
                assert(seqs_of(old_out) + (seq![old_cur] + split_rec(
                    s@.skip(i + 1),
                    sep,
                    Seq::empty(),
                )) =~= seqs_of(out@) + split_rec(s@.skip(i + 1), sep, cur@));
            }
        } else {
            cur.push(s[i]);
        }
        i += 1;
    }
    proof {
        assert(s@.skip(i as int) =~= Seq::<u8>::empty());
    }
    let ghost old_out = out@;
    let ghost old_cur = cur@;
    out.push(cur);
    proof {
        assert(seqs_of(out@) =~= seqs_of(old_out).push(old_cur));
        assert(seqs_of(old_out) + seq![old_cur] =~= seqs_of(out@));
    }
    out
}

/// The fields joined with `sep` between consecutive ones.
pub fn join_bytes(parts: &Vec<Vec<u8>>, sep: u8) -> (r: Vec<u8>)
    ensures
        r@ == spec_join(seqs_of(parts@), sep),
{
    let mut r: Vec<u8> = Vec::new();
    let mut i: usize = 0;
    while i < parts.len()
        invariant
            i <= parts@.len(),
            r@ == spec_join(seqs_of(parts@).take(i as int), sep),
        decreases parts@.len() - i,
    {
        let ghost before = r@;
        if i > 0 {
            r.push(sep);
        }
        let part = &parts[i];
        let mut j: usize = 0;
        while j < part.len()
            invariant
                j <= part@.len(),
                r@ == (if i > 0 {
                    before + seq![sep]
                } else {
                    before
                }) + part@.subrange(0, j as int),
            decreases part@.len() - j,
        {
            r.push(part[j]);
            proof {
                assert(part@.subrange(0, j as int).push(part@[j as int]) =~= part@.subrange(
                    0,
                    j + 1,
                ));
                assert(((if i > 0 {
                    before + seq![sep]
                } else {
                    before
                }) + part@.subrange(0, j as int)).push(part@[j as int]) =~= (if i > 0 {
                    before + seq![sep]
                } else {
                    before
                }) + part@.subrange(0, j + 1));
            }
            j += 1;
        }
        proof {
            let pv = seqs_of(parts@);
            assert(part@.subrange(0, part@.len() as int) =~= part@);
            assert(pv[i as int] == part@);
            if i == 0 {
                assert(pv.take(1) =~= seq![part@]);
                assert(r@ =~= before + part@);
                assert(before =~= Seq::<u8>::empty());
                assert(Seq::<u8>::empty() + part@ =~= part@);
            } else {
                assert(pv.take(i as int).push(pv[i as int]) =~= pv.take(i + 1));
                lemma_join_push(pv.take(i as int), pv[i as int], sep);
                assert(r@ =~= (before + seq![sep]) + part@);
                assert((before + seq![sep]) + part@ =~= before + seq![sep] + part@);
            }
        }
        i += 1;
    }
    proof {
        assert(seqs_of(parts@).take(parts@.len() as int) =~= seqs_of(parts@));
    }
    r
}

} // verus!
