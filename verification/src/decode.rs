//! The decoder: document lines back to a pixel grid. Structural faults are
//! fatal; per-cell faults degrade to substitute values and decoding goes on.

use vstd::prelude::*;
use crate::color::Color;
use crate::color::black;
use crate::color::spec_hex_pair;
use crate::color::hex_pair;
use crate::grid::PixelGrid;
use crate::grid::grid_wf;
use crate::num::spec_parse_num;
use crate::num::parse_num;
use crate::text::seqs_of;
use crate::text::spec_split;
use crate::text::split_bytes;
use crate::text::copy_bytes;

verus! {

/// Why a decode is refused outright; anything else degrades locally.
#[derive(Clone, Copy, PartialEq, Eq, Structural, Debug)]
pub enum FormatError {
    /// The document has no dimensions line at all.
    MissingDimensions,
    /// The document has no dictionary line.
    MissingDictionary,
    /// The dimensions line does not hold two non-negative integers.
    InvalidDimensions,
    /// The pixel count would not fit in memory on this machine.
    ImageTooLarge,
}

/// What parsing the dimensions line yields: every comma-separated field
/// must read as a `u32`, and there must be at least two; the first two are
/// width and height.
pub open spec fn spec_parse_dims(line: Seq<u8>) -> Option<(u32, u32)> {
    let parts = spec_split(line, 44);
    if parts.len() < 2 {
        None
    } else if exists|i: int|
        0 <= i < parts.len() && spec_parse_num(#[trigger] parts[i], u32::MAX as int) is None {
        None
    } else {
        match (spec_parse_num(parts[0], u32::MAX as int), spec_parse_num(
            parts[1],
            u32::MAX as int,
        )) {
            (Some(w), Some(h)) => Some((w as u32, h as u32)),
            _ => None,
        }
    }
}

/// The dictionary map with `k` bound to `v`: the first binding of `k` is
/// replaced, or a fresh one appended.
pub open spec fn dmap_set(m: Seq<(int, Seq<u8>)>, k: int, v: Seq<u8>) -> Seq<(int, Seq<u8>)>
    decreases m.len(),
{
    if m.len() == 0 {
        seq![(k, v)]
    } else if m[0].0 == k {
        seq![(k, v)] + m.drop_first()
    } else {
        seq![m[0]] + dmap_set(m.drop_first(), k, v)
    }
}

/// The first binding of `k`, if any.
pub open spec fn dmap_get(m: Seq<(int, Seq<u8>)>, k: int) -> Option<Seq<u8>>
    decreases m.len(),
{
    if m.len() == 0 {
        None
    } else if m[0].0 == k {
        Some(m[0].1)
    } else {
        dmap_get(m.drop_first(), k)
    }
}

/// The dictionary read from the line's comma-separated entries, left to
/// right. An entry without exactly one `=`, or whose index does not read
/// as an integer, is skipped rather than refused.
pub open spec fn spec_parse_dict_entries(entries: Seq<Seq<u8>>) -> Seq<(int, Seq<u8>)>
    decreases entries.len(),
{
    if entries.len() == 0 {
        Seq::empty()
    } else {
        let m = spec_parse_dict_entries(entries.drop_last());
        let parts = spec_split(entries.last(), 61);
        if parts.len() == 2 {
            match spec_parse_num(parts[0], usize::MAX as int) {
                Some(k) => dmap_set(m, k, parts[1]),
                None => m,
            }
        } else {
            m
        }
    }
}

pub open spec fn spec_parse_dict(line: Seq<u8>) -> Seq<(int, Seq<u8>)> {
    spec_parse_dict_entries(spec_split(line, 44))
}

/// The color a resolved token stands for: a token that reads as an integer
/// bound in the dictionary follows the binding, anything else is taken
/// literally; a `#` is prefixed if absent; a string of seven or more bytes
/// yields its three leading hex pairs (an unreadable pair degrades to 0),
/// a shorter one degrades to black.
pub open spec fn spec_resolve_token(t: Seq<u8>, m: Seq<(int, Seq<u8>)>) -> Color {
    let s = match spec_parse_num(t, usize::MAX as int) {
        Some(k) => match dmap_get(m, k) {
            Some(hx) => hx,
            None => t,
        },
        None => t,
    };
    let n = if s.len() > 0 && s[0] == 35 {
        s
    } else {
        seq![35u8] + s
    };
    if n.len() >= 7 {
        Color { r: spec_hex_pair(n[1], n[2]), g: spec_hex_pair(n[3], n[4]), b: spec_hex_pair(
            n[5],
            n[6],
        ) }
    } else {
        black()
    }
}

/// A row's colors from its tokens, walked left to right: an empty token
/// resolves the token before it again, a non-empty one becomes the new
/// state. `last` is empty at a row's start, so an empty first token
/// degrades to black through the length check.
pub open spec fn spec_decode_tokens(
    tokens: Seq<Seq<u8>>,
    m: Seq<(int, Seq<u8>)>,
    last: Seq<u8>,
) -> Seq<Color>
    decreases tokens.len(),
{
    if tokens.len() == 0 {
        Seq::empty()
    } else {
        let t = if tokens[0].len() == 0 {
            last
        } else {
            tokens[0]
        };
        seq![spec_resolve_token(t, m)] + spec_decode_tokens(tokens.drop_first(), m, t)
    }
}

/// Exactly `w` colors: the decoded ones, cut off past `w` and padded with
/// black when the row is short.
pub open spec fn pad_row(colors: Seq<Color>, w: int) -> Seq<Color> {
    Seq::new(w as nat, |x: int| if x < colors.len() {
        colors[x]
    } else {
        black()
    })
}

/// Row `y` of the decoded grid: its line's tokens if the document has that
/// line, all black otherwise.
pub open spec fn spec_decoded_row(lines: Seq<Seq<u8>>, y: int, m: Seq<(int, Seq<u8>)>, w: int) -> Seq<
    Color,
> {
    if 2 + y < lines.len() {
        pad_row(spec_decode_tokens(spec_split(lines[2 + y], 44), m, Seq::empty()), w)
    } else {
        pad_row(Seq::empty(), w)
    }
}

/// The decoded rows 0 through `h - 1`, concatenated.
pub open spec fn spec_decoded_pixels(
    lines: Seq<Seq<u8>>,
    m: Seq<(int, Seq<u8>)>,
    w: int,
    h: int,
) -> Seq<Color>
    decreases h,
{
    if h <= 0 {
        Seq::empty()
    } else {
        spec_decoded_pixels(lines, m, w, h - 1) + spec_decoded_row(lines, h - 1, m, w)
    }
}

/// Where row `y`, column `x` sits in the concatenation of decoded rows.
pub proof fn lemma_decoded_pixels_index(
    lines: Seq<Seq<u8>>,
    m: Seq<(int, Seq<u8>)>,
    w: int,
    h: int,
    y: int,
    x: int,
)
    requires
        w >= 0,
        0 <= y < h,
        0 <= x < w,
    ensures
        spec_decoded_pixels(lines, m, w, h).len() == h * w,
        spec_decoded_pixels(lines, m, w, h)[y * w + x] == spec_decoded_row(lines, y, m, w)[x],
    decreases h,
{
    lemma_decoded_pixels_len(lines, m, w, h);
    if y == h - 1 {
        lemma_decoded_pixels_len(lines, m, w, h - 1);
        vstd::arithmetic::mul::lemma_mul_is_distributive_add_other_way(w, h - 1, 1);
        assert(y * w <= y * w + x < (h - 1) * w + w);
    } else {
        lemma_decoded_pixels_index(lines, m, w, h - 1, y, x);
        lemma_decoded_pixels_len(lines, m, w, h - 1);
        vstd::arithmetic::mul::lemma_mul_inequality(y + 1, h - 1, w);
        vstd::arithmetic::mul::lemma_mul_is_distributive_add_other_way(w, y, 1);
        assert(y * w + x < (y + 1) * w);
    }
}

pub proof fn lemma_decoded_pixels_len(
    lines: Seq<Seq<u8>>,
    m: Seq<(int, Seq<u8>)>,
    w: int,
    h: int,
)
    requires
        w >= 0,
        h >= 0,
    ensures
        spec_decoded_pixels(lines, m, w, h).len() == h * w,
    decreases h,
{
    if h == 0 {
        assert(spec_decoded_pixels(lines, m, w, 0) =~= Seq::<Color>::empty());
        assert(0 * w == 0) by (nonlinear_arith);
    } else {
        lemma_decoded_pixels_len(lines, m, w, h - 1);
        vstd::arithmetic::mul::lemma_mul_is_distributive_add_other_way(w, h - 1, 1);
        assert(spec_decoded_pixels(lines, m, w, h) == spec_decoded_pixels(lines, m, w, h - 1)
            + spec_decoded_row(lines, h - 1, m, w));
        assert(spec_decoded_row(lines, h - 1, m, w).len() == w);
        assert(((h - 1) + 1) * w == (h - 1) * w + 1 * w);
        assert(spec_decoded_pixels(lines, m, w, h).len() == (h - 1) * w + w);
        assert((h - 1) * w + w == h * w);
    }
}

/// Width and height from the dimensions line; `None` exactly when
/// `spec_parse_dims` refuses it.
pub fn parse_dims(line: &Vec<u8>) -> (r: Option<(u32, u32)>)
    ensures
        r == spec_parse_dims(line@),
{
    let parts = split_bytes(line, 44);
    if parts.len() < 2 {
        proof {
            assert(seqs_of(parts@).len() < 2);
        }
        return None;
    }
    let mut i: usize = 0;
    let mut w: u32 = 0;
    let mut h: u32 = 0;
    while i < parts.len()
        invariant
            i <= parts@.len(),
            parts@.len() >= 2,
            seqs_of(parts@) == spec_split(line@, 44),
            forall|j: int|
                0 <= j < i ==> spec_parse_num(#[trigger] seqs_of(parts@)[j], u32::MAX as int)
                    is Some,
            i >= 1 ==> spec_parse_num(seqs_of(parts@)[0], u32::MAX as int) == Some(w as int),
            i >= 2 ==> spec_parse_num(seqs_of(parts@)[1], u32::MAX as int) == Some(h as int),
        decreases parts@.len() - i,
    {
        proof {
            assert(seqs_of(parts@)[i as int] == parts@[i as int]@);
        }
        match parse_num(&parts[i], 0xffff_ffff) {
            Some(v) => {
                if i == 0 {
                    w = v as u32;
                } else if i == 1 {
                    h = v as u32;
                }
            },
            None => {
                return None;
            },
        }
        i += 1;
    }
    Some((w, h))
}

/// The dictionary of index-to-color-text bindings read from line 1.
pub fn parse_dict_line(line: &Vec<u8>) -> (r: Vec<(usize, Vec<u8>)>)
    ensures
        dmap_view(r@) == spec_parse_dict(line@),
{
    let entries = split_bytes(line, 44);
    let mut m: Vec<(usize, Vec<u8>)> = Vec::new();
    let mut i: usize = 0;
    proof {
        assert(seqs_of(entries@).take(0) =~= Seq::<Seq<u8>>::empty());
        assert(dmap_view(m@) =~= spec_parse_dict_entries(seqs_of(entries@).take(0)));
    }
    while i < entries.len()
        invariant
            i <= entries@.len(),
            seqs_of(entries@) == spec_split(line@, 44),
            dmap_view(m@) == spec_parse_dict_entries(seqs_of(entries@).take(i as int)),
        decreases entries@.len() - i,
    {
        proof {
            assert(seqs_of(entries@).take(i + 1).drop_last() =~= seqs_of(entries@).take(i as int));
            assert(seqs_of(entries@).take(i + 1).last() == seqs_of(entries@)[i as int]);
            assert(seqs_of(entries@)[i as int] == entries@[i as int]@);
        }
        let parts = split_bytes(&entries[i], 61);
        if parts.len() == 2 {
            proof {
                assert(seqs_of(parts@)[0] == parts@[0]@);
                assert(seqs_of(parts@)[1] == parts@[1]@);
            }
            match parse_num(&parts[0], usize_max()) {
                Some(k) => {
                    let v = copy_bytes(&parts[1]);
                    dmap_put(&mut m, k as usize, v);
                },
                None => {},
            }
        }
        i += 1;
    }
    proof {
        assert(seqs_of(entries@).take(entries@.len() as int) =~= seqs_of(entries@));
    }
    m
}

/// The view of the executable dictionary map.
pub open spec fn dmap_view(m: Seq<(usize, Vec<u8>)>) -> Seq<(int, Seq<u8>)> {
    m.map_values(|p: (usize, Vec<u8>)| (p.0 as int, p.1@))
}

/// `usize::MAX` as the bound `str::parse::<usize>` enforces.
fn usize_max() -> (r: u64)
    ensures
        r == usize::MAX as u64,
{
    usize::MAX as u64
}

proof fn lemma_dmap_set_update(m: Seq<(int, Seq<u8>)>, k: int, v: Seq<u8>, j: int)
    requires
        0 <= j < m.len(),
        m[j].0 == k,
        forall|l: int| 0 <= l < j ==> (#[trigger] m[l]).0 != k,
    ensures
        dmap_set(m, k, v) == m.update(j, (k, v)),
    decreases m.len(),
{
    if j == 0 {
        assert(dmap_set(m, k, v) =~= m.update(0, (k, v)));
    } else {
        assert(m[0].0 != k);
        assert forall|l: int| 0 <= l < j - 1 implies (#[trigger] m.drop_first()[l]).0 != k by {
            assert(m.drop_first()[l] == m[l + 1]);
        }
        assert(m.drop_first()[j - 1] == m[j]);
        lemma_dmap_set_update(m.drop_first(), k, v, j - 1);
        assert(dmap_set(m, k, v) =~= m.update(j, (k, v)));
    }
}

proof fn lemma_dmap_set_push(m: Seq<(int, Seq<u8>)>, k: int, v: Seq<u8>)
    requires
        forall|l: int| 0 <= l < m.len() ==> (#[trigger] m[l]).0 != k,
    ensures
        dmap_set(m, k, v) == m.push((k, v)),
    decreases m.len(),
{
    if m.len() == 0 {
        assert(dmap_set(m, k, v) =~= m.push((k, v)));
    } else {
        assert forall|l: int| 0 <= l < m.drop_first().len() implies (
        #[trigger] m.drop_first()[l]).0 != k by {
            assert(m.drop_first()[l] == m[l + 1]);
        }
        lemma_dmap_set_push(m.drop_first(), k, v);
        assert(dmap_set(m, k, v) =~= m.push((k, v)));
    }
}

/// Bind `k` to `v`, replacing the first binding of `k` if one exists.
fn dmap_put(m: &mut Vec<(usize, Vec<u8>)>, k: usize, v: Vec<u8>)
    ensures
        dmap_view(final(m)@) == dmap_set(dmap_view(old(m)@), k as int, v@),
{
    let ghost mv = dmap_view(m@);
    let ghost vv = v@;
    let mut j: usize = 0;
    while j < m.len()
        invariant
            j <= m@.len(),
            dmap_view(m@) == mv,
            mv == dmap_view(old(m)@),
            v@ == vv,
            forall|l: int| 0 <= l < j ==> (#[trigger] dmap_view(m@)[l]).0 != k,
        decreases m@.len() - j,
    {
        proof {
            assert(dmap_view(m@)[j as int] == (m@[j as int].0 as int, m@[j as int].1@));
        }
        if m[j].0 == k {
            proof {
                lemma_dmap_set_update(mv, k as int, vv, j as int);
            }
            m.set(j, (k, v));
            proof {
                assert(dmap_view(m@) =~~= mv.update(j as int, (k as int, vv)));
                assert(dmap_view(m@) == dmap_set(mv, k as int, vv));
            }
            return ;
        }
        j += 1;
    }
    proof {
        assert forall|l: int| 0 <= l < mv.len() implies (#[trigger] mv[l]).0 != k by {}
        lemma_dmap_set_push(mv, k as int, vv);
    }
    m.push((k, v));
    proof {
        assert(dmap_view(m@) =~~= mv.push((k as int, vv)));
    }
}

/// The first binding of `k`, copied out.
fn dmap_lookup(m: &Vec<(usize, Vec<u8>)>, k: usize) -> (r: Option<Vec<u8>>)
    ensures
        match r {
            Some(v) => dmap_get(dmap_view(m@), k as int) == Some(v@),
            None => dmap_get(dmap_view(m@), k as int) is None,
        },
{
    let mut j: usize = 0;
    proof {
        assert(dmap_view(m@).skip(0) =~= dmap_view(m@));
    }
    while j < m.len()
        invariant
            j <= m@.len(),
            dmap_get(dmap_view(m@), k as int) == dmap_get(
                dmap_view(m@).skip(j as int),
                k as int,
            ),
        decreases m@.len() - j,
    {
        proof {
            assert(dmap_view(m@).skip(j as int)[0] == (m@[j as int].0 as int, m@[j as int].1@));
            assert(dmap_view(m@).skip(j as int).drop_first() =~= dmap_view(m@).skip(j + 1));
        }
        if m[j].0 == k {
            let v = copy_bytes(&m[j].1);
            return Some(v);
        }
        j += 1;
    }
    proof {
        assert(dmap_view(m@).skip(j as int) =~= Seq::<(int, Seq<u8>)>::empty());
    }
    None
}

/// The color one resolved token stands for.
fn resolve_token(t: &Vec<u8>, m: &Vec<(usize, Vec<u8>)>) -> (c: Color)
    ensures
        c == spec_resolve_token(t@, dmap_view(m@)),
{
    let s: Vec<u8> = match parse_num(t, usize_max()) {
        Some(k) => match dmap_lookup(m, k as usize) {
            Some(hx) => hx,
            None => copy_bytes(t),
        },
        None => copy_bytes(t),
    };
    let n: Vec<u8> = if s.len() > 0 && s[0] == 35 {
        s
    } else {
        let mut p: Vec<u8> = Vec::new();
        p.push(35);
        let ghost sv = s@;
        let mut rest = s;
        p.append(&mut rest);
        proof {
            assert(p@ =~= seq![35u8] + sv);
        }
        p
    };
    if n.len() >= 7 {
        Color { r: hex_pair(n[1], n[2]), g: hex_pair(n[3], n[4]), b: hex_pair(n[5], n[6]) }
    } else {
        Color { r: 0, g: 0, b: 0 }
    }
}

/// A row's colors from its line: exactly `width` of them, short rows
/// padded with black, long rows cut off.
pub fn decode_row(line: &Vec<u8>, m: &Vec<(usize, Vec<u8>)>, width: usize) -> (r: Vec<Color>)
    ensures
        r@ == pad_row(
            spec_decode_tokens(spec_split(line@, 44), dmap_view(m@), Seq::empty()),
            width as int,
        ),
        r@.len() == width,
{
    let tokens = split_bytes(line, 44);
    let ghost tv = seqs_of(tokens@);
    let mut colors: Vec<Color> = Vec::new();
    let mut last: Vec<u8> = Vec::new();
    let mut i: usize = 0;
    proof {
        assert(tv.skip(0) =~= tv);
        assert(colors@ + spec_decode_tokens(tv, dmap_view(m@), Seq::empty())
            =~= spec_decode_tokens(tv, dmap_view(m@), Seq::empty()));
    }
    while i < tokens.len()
        invariant
            i <= tokens@.len(),
            tv == seqs_of(tokens@),
            spec_decode_tokens(tv, dmap_view(m@), Seq::empty()) == colors@ + spec_decode_tokens(
                tv.skip(i as int),
                dmap_view(m@),
                last@,
            ),
        decreases tokens@.len() - i,
    {
        proof {
            assert(tv.skip(i as int)[0] == tokens@[i as int]@);
            assert(tv.skip(i as int).drop_first() =~= tv.skip(i + 1));
        }
        let t: Vec<u8> = if tokens[i].len() == 0 {
            copy_bytes(&last)
        } else {
            copy_bytes(&tokens[i])
        };
        last = copy_bytes(&t);
        let c = resolve_token(&t, m);
        let ghost old_colors = colors@;
        colors.push(c);
        proof {
            assert(old_colors + (seq![c] + spec_decode_tokens(
                tv.skip(i + 1),
                dmap_view(m@),
                t@,
            )) =~= colors@ + spec_decode_tokens(tv.skip(i + 1), dmap_view(m@), t@));
        }
        i += 1;
    }
    proof {
        assert(tv.skip(i as int) =~= Seq::<Seq<u8>>::empty());
        assert(colors@ + Seq::<Color>::empty() =~= colors@);
    }
    let mut r: Vec<Color> = Vec::new();
    let mut x: usize = 0;
    while x < width
        invariant
            x <= width,
            colors@ == spec_decode_tokens(tv, dmap_view(m@), Seq::empty()),
            r@ == pad_row(colors@, width as int).take(x as int),
        decreases width - x,
    {
        let c = if x < colors.len() {
            colors[x]
        } else {
            Color { r: 0, g: 0, b: 0 }
        };
        r.push(c);
        proof {
            assert(r@ =~= pad_row(colors@, width as int).take(x + 1));
        }
        x += 1;
    }
    proof {
        assert(pad_row(colors@, width as int).take(width as int) =~= pad_row(
            colors@,
            width as int,
        ));
    }
    r
}

/// Decode document lines into a grid. Fails exactly on a missing
/// dimensions or dictionary line, an unreadable dimensions line, or a
/// pixel count beyond this machine; everything else decodes, cell faults
/// degrading to black or zeroed channels as the resolution rules say.
pub fn decode(lines: &Vec<Vec<u8>>) -> (r: Result<PixelGrid, FormatError>)
    ensures
        match r {
            Ok(g) => {
                &&& lines@.len() >= 2
                &&& spec_parse_dims(seqs_of(lines@)[0]) == Some((g.width, g.height))
                &&& g.width * g.height <= usize::MAX
                &&& grid_wf(g)
                &&& g.pixels@ == spec_decoded_pixels(
                    seqs_of(lines@),
                    spec_parse_dict(seqs_of(lines@)[1]),
                    g.width as int,
                    g.height as int,
                )
            },
            Err(e) => {
                &&& (e == FormatError::MissingDimensions <==> lines@.len() == 0)
                &&& (e == FormatError::MissingDictionary <==> lines@.len() == 1)
                &&& (e == FormatError::InvalidDimensions <==> lines@.len() >= 2
                    && spec_parse_dims(seqs_of(lines@)[0]) is None)
                &&& (e == FormatError::ImageTooLarge <==> lines@.len() >= 2 && match spec_parse_dims(
                    seqs_of(lines@)[0],
                ) {
                    Some((w, h)) => w * h > usize::MAX,
                    None => false,
                })
            },
        },
        r is Err <==> (lines@.len() < 2 || spec_parse_dims(seqs_of(lines@)[0]) is None
            || (match spec_parse_dims(seqs_of(lines@)[0]) {
            Some((w, h)) => w * h > usize::MAX,
            None => false,
        })),
{
    if lines.len() == 0 {
        return Err(FormatError::MissingDimensions);
    }
    if lines.len() == 1 {
        return Err(FormatError::MissingDictionary);
    }
    proof {
        assert(seqs_of(lines@)[0] == lines@[0]@);
        assert(seqs_of(lines@)[1] == lines@[1]@);
    }
    let (w, h) = match parse_dims(&lines[0]) {
        Some(d) => d,
        None => {
            return Err(FormatError::InvalidDimensions);
        },
    };
    proof {
        vstd::arithmetic::mul::lemma_mul_upper_bound(
            w as int,
            u32::MAX as int,
            h as int,
            u32::MAX as int,
        );
    }
    let total64: u64 = (w as u64) * (h as u64);
    if total64 > usize_max() {
        return Err(FormatError::ImageTooLarge);
    }
    let m = parse_dict_line(&lines[1]);
    let ghost lv = seqs_of(lines@);
    let ghost mv = dmap_view(m@);
    let mut pixels: Vec<Color> = Vec::new();
    let mut y: u32 = 0;
    proof {
        assert(pixels@ =~= spec_decoded_pixels(lv, mv, w as int, 0));
    }
    while y < h
        invariant
            y <= h,
            lv == seqs_of(lines@),
            mv == dmap_view(m@),
            mv == spec_parse_dict(lv[1]),
            lines@.len() >= 2,
            w * h <= usize::MAX,
            pixels@ == spec_decoded_pixels(lv, mv, w as int, y as int),
        decreases h - y,
    {
        proof {
            lemma_decoded_pixels_len(lv, mv, w as int, y as int);
            vstd::arithmetic::mul::lemma_mul_is_distributive_add_other_way(
                w as int,
                y as int,
                1,
            );
            vstd::arithmetic::mul::lemma_mul_inequality(y + 1, h as int, w as int);
            vstd::arithmetic::mul::lemma_mul_is_commutative(w as int, h as int);
        }
        let mut row: Vec<Color> = if 2 <= lines.len() && (y as usize) < lines.len() - 2 {
            proof {
                assert(lv[2 + y as int] == lines@[2 + y as int]@);
            }
            decode_row(&lines[2 + (y as usize)], &m, w as usize)
        } else {
            let mut blanks: Vec<Color> = Vec::new();
            let mut x: usize = 0;
            while x < (w as usize)
                invariant
                    x <= w,
                    blanks@ == pad_row(Seq::<Color>::empty(), w as int).take(x as int),
                decreases w - x,
            {
                blanks.push(Color { r: 0, g: 0, b: 0 });
                proof {
                    assert(blanks@ =~= pad_row(Seq::<Color>::empty(), w as int).take(x + 1));
                }
                x += 1;
            }
            proof {
                assert(pad_row(Seq::<Color>::empty(), w as int).take(w as int) =~= pad_row(
                    Seq::<Color>::empty(),
                    w as int,
                ));
            }
            blanks
        };
        proof {
            assert(row@ == spec_decoded_row(lv, y as int, mv, w as int));
        }
        pixels.append(&mut row);
        y += 1;
    }
    proof {
        lemma_decoded_pixels_len(lv, mv, w as int, h as int);
        vstd::arithmetic::mul::lemma_mul_is_commutative(w as int, h as int);
    }
    Ok(PixelGrid { width: w, height: h, pixels })
}

} // verus!
