//! The codec's laws: decoding inverts encoding, index tokens always name
//! dictionary keys, and the frequency table counts every pixel once.

use vstd::prelude::*;
use crate::color::Color;
use crate::color::spec_color_hex;
use crate::color::lemma_color_hex_bytes;
use crate::color::lemma_hex_pair_of_byte;
use crate::decode::dmap_get;
use crate::decode::spec_parse_dict;
use crate::decode::spec_parse_dict_entries;
use crate::decode::spec_parse_dims;
use crate::decode::spec_resolve_token;
use crate::decode::spec_decode_tokens;
use crate::decode::spec_decoded_row;
use crate::decode::spec_decoded_pixels;
use crate::decode::pad_row;
use crate::dict::spec_dict;
use crate::dict::spec_find;
use crate::dict::lemma_find_props;
use crate::dict::lemma_dict_len;
use crate::encode::spec_token_for;
use crate::encode::spec_row_tokens;
use crate::encode::spec_row_line;
use crate::encode::spec_dims_line;
use crate::encode::spec_dict_entry;
use crate::encode::spec_dict_entries;
use crate::encode::spec_dict_line;
use crate::encode::spec_encode;
use crate::grid::PixelGrid;
use crate::grid::grid_wf;
use crate::grid::row_of;
use crate::grid::lemma_row_of_len;
use crate::num::dec_digits;
use crate::num::spec_parse_num;
use crate::num::lemma_dec_digits_shape;
use crate::num::lemma_parse_of_dec_digits;
use crate::text::has_byte;
use crate::text::spec_split;
use crate::text::spec_join;
use crate::text::lemma_split_join;

verus! {

/// The dictionary map decoded from line 1 binds exactly the indices
/// `0 .. dict.len()`, each to its color's hex serialization.
pub open spec fn dmap_of(dict: Seq<Color>, m: Seq<(int, Seq<u8>)>) -> bool {
    &&& forall|k: int|
        0 <= k < dict.len() ==> #[trigger] dmap_get(m, k) == Some(spec_color_hex(dict[k]))
    &&& forall|k: int| !(0 <= k < dict.len()) ==> #[trigger] dmap_get(m, k) is None
}

/// A color outside the dictionary is safe to emit literally: its hex
/// serialization, read as a decimal integer, is no dictionary index. The
/// format cannot tell an all-digit literal from an index, so this is the
/// one side condition the inverse needs.
pub open spec fn literal_safe(c: Color, dict: Seq<Color>) -> bool {
    spec_find(dict, c) is None ==> match spec_parse_num(
        spec_color_hex(c),
        usize::MAX as int,
    ) {
        Some(v) => v >= dict.len(),
        None => true,
    }
}

/// Every color of the grid is either in its dictionary or safe to emit
/// literally.
pub open spec fn no_index_collision(pixels: Seq<Color>) -> bool {
    forall|i: int|
        0 <= i < pixels.len() ==> literal_safe(#[trigger] pixels[i], spec_dict(pixels))
}

/// A color's token is never empty and holds no comma.
proof fn lemma_token_shape(c: Color, dict: Seq<Color>)
    ensures
        spec_token_for(c, dict).len() >= 1,
        !has_byte(spec_token_for(c, dict), 44),
        !has_byte(spec_token_for(c, dict), 61),
{
    lemma_find_props(dict, c);
    match spec_find(dict, c) {
        Some(i) => {
            lemma_dec_digits_shape(i as nat);
            let t = dec_digits(i as nat);
            assert forall|j: int| 0 <= j < t.len() implies t[j] != 44 && t[j] != 61 by {
                assert(crate::num::is_dec_digit(t[j]));
            }
        },
        None => {
            lemma_color_hex_bytes(c);
            let t = spec_color_hex(c);
            assert forall|j: int| 0 <= j < t.len() implies t[j] != 44 && t[j] != 61 by {}
        },
    }
}

/// Resolving a color's own token under a faithful dictionary map gives
/// the color back.
proof fn lemma_resolve_token_for(c: Color, dict: Seq<Color>, m: Seq<(int, Seq<u8>)>)
    requires
        dict.len() <= usize::MAX,
        dmap_of(dict, m),
        literal_safe(c, dict),
    ensures
        spec_resolve_token(spec_token_for(c, dict), m) == c,
{
    lemma_find_props(dict, c);
    let t = spec_token_for(c, dict);
    let hx = spec_color_hex(c);
    lemma_color_hex_bytes(c);
    match spec_find(dict, c) {
        Some(i) => {
            assert(0 <= i < dict.len() && dict[i] == c);
            assert(t == dec_digits(i as nat));
            lemma_parse_of_dec_digits(i as nat, usize::MAX as int);
            assert(spec_parse_num(t, usize::MAX as int) == Some(i));
            assert(dmap_get(m, i) == Some(hx));
        },
        None => {
            match spec_parse_num(hx, usize::MAX as int) {
                Some(v) => {
                    assert(v >= dict.len());
                    assert(dmap_get(m, v) is None);
                },
                None => {},
            }
        },
    }
    // either way the string to read is the color's own hex serialization
    let n = seq![35u8] + hx;
    assert(hx.len() > 0 && hx[0] != 35);
    assert(n.len() == 7);
    assert(n[1] == hx[0] && n[2] == hx[1] && n[3] == hx[2] && n[4] == hx[3] && n[5] == hx[4]
        && n[6] == hx[5]);
    assert(hx[0] == crate::color::spec_hex_byte(c.r)[0]);
    assert(hx[1] == crate::color::spec_hex_byte(c.r)[1]);
    assert(hx[2] == crate::color::spec_hex_byte(c.g)[0]);
    assert(hx[3] == crate::color::spec_hex_byte(c.g)[1]);
    assert(hx[4] == crate::color::spec_hex_byte(c.b)[0]);
    assert(hx[5] == crate::color::spec_hex_byte(c.b)[1]);
    lemma_hex_pair_of_byte(c.r);
    lemma_hex_pair_of_byte(c.g);
    lemma_hex_pair_of_byte(c.b);
}

/// A row's tokens, one per cell: empty exactly where a run continues,
/// otherwise the cell's own token; none holds a comma.
proof fn lemma_row_tokens_shape(row: Seq<Color>, dict: Seq<Color>, last: Option<Color>)
    ensures
        spec_row_tokens(row, dict, last).len() == row.len(),
        forall|i: int|
            0 <= i < row.len() ==> !has_byte(#[trigger] spec_row_tokens(row, dict, last)[i], 44),
        forall|i: int|
            0 <= i < row.len() ==> (spec_row_tokens(row, dict, last)[i].len() == 0
                || #[trigger] spec_row_tokens(row, dict, last)[i] == spec_token_for(
                row[i],
                dict,
            )),
    decreases row.len(),
{
    if row.len() > 0 {
        lemma_row_tokens_shape(row.drop_first(), dict, Some(row[0]));
        lemma_token_shape(row[0], dict);
        let toks = spec_row_tokens(row, dict, last);
        let rest = spec_row_tokens(row.drop_first(), dict, Some(row[0]));
        assert forall|i: int| 0 <= i < row.len() implies !has_byte(#[trigger] toks[i], 44) && (
        toks[i].len() == 0 || toks[i] == spec_token_for(row[i], dict)) by {
            if i >= 1 {
                assert(toks[i] == rest[i - 1]);
                assert(row.drop_first()[i - 1] == row[i]);
            } else {
                if last == Some(row[0]) {
                    assert(toks[0].len() == 0);
                    assert(!has_byte(Seq::<u8>::empty(), 44));
                } else {
                    assert(toks[0] == spec_token_for(row[0], dict));
                }
            }
        }
    }
}

/// Decoding a row's tokens left to right gives the row back: the walk
/// state on each side stays in step — the decoder's remembered token is
/// always the token of the encoder's remembered color.
proof fn lemma_row_roundtrip(
    row: Seq<Color>,
    dict: Seq<Color>,
    m: Seq<(int, Seq<u8>)>,
    lastc: Option<Color>,
    lastt: Seq<u8>,
)
    requires
        dict.len() <= usize::MAX,
        dmap_of(dict, m),
        forall|i: int| 0 <= i < row.len() ==> literal_safe(#[trigger] row[i], dict),
        match lastc {
            Some(c0) => lastt == spec_token_for(c0, dict) && literal_safe(c0, dict),
            None => true,
        },
    ensures
        spec_decode_tokens(spec_row_tokens(row, dict, lastc), m, lastt) == row,
    decreases row.len(),
{
    let toks = spec_row_tokens(row, dict, lastc);
    if row.len() == 0 {
        assert(toks =~= Seq::<Seq<u8>>::empty());
        assert(spec_decode_tokens(toks, m, lastt) =~= row);
    } else {
        let c0 = row[0];
        let rest = spec_row_tokens(row.drop_first(), dict, Some(c0));
        assert(toks.drop_first() =~= rest);
        lemma_token_shape(c0, dict);
        assert forall|i: int| 0 <= i < row.drop_first().len() implies literal_safe(
            #[trigger] row.drop_first()[i],
            dict,
        ) by {
            assert(row.drop_first()[i] == row[i + 1]);
        }
        if lastc == Some(c0) {
            assert(toks[0] =~= Seq::<u8>::empty());
            assert(lastt == spec_token_for(c0, dict));
            lemma_resolve_token_for(c0, dict, m);
            assert(spec_resolve_token(lastt, m) == c0);
            lemma_row_roundtrip(row.drop_first(), dict, m, Some(c0), lastt);
            assert(spec_decode_tokens(toks, m, lastt) == seq![c0] + spec_decode_tokens(
                rest,
                m,
                lastt,
            ));
            assert(seq![c0] + row.drop_first() =~= row);
        } else {
            assert(toks[0] == spec_token_for(c0, dict));
            assert(toks[0].len() > 0);
            lemma_resolve_token_for(c0, dict, m);
            lemma_row_roundtrip(row.drop_first(), dict, m, Some(c0), toks[0]);
            assert(spec_decode_tokens(toks, m, lastt) == seq![c0] + spec_decode_tokens(
                rest,
                m,
                toks[0],
            ));
            assert(seq![c0] + row.drop_first() =~= row);
        }
    }
}

proof fn lemma_dmap_get_set(m: Seq<(int, Seq<u8>)>, k: int, v: Seq<u8>, k2: int)
    ensures
        dmap_get(crate::decode::dmap_set(m, k, v), k2) == (if k2 == k {
            Some(v)
        } else {
            dmap_get(m, k2)
        }),
    decreases m.len(),
{
    let t = crate::decode::dmap_set(m, k, v);
    if m.len() == 0 {
        assert(t =~~= seq![(k, v)]);
        assert(t.drop_first() =~= Seq::<(int, Seq<u8>)>::empty());
        assert(dmap_get(Seq::<(int, Seq<u8>)>::empty(), k2) is None);
        assert(t[0] == (k, v));
        if k2 == k {
            assert(dmap_get(t, k2) == Some(v));
        } else {
            assert(dmap_get(t, k2) == dmap_get(t.drop_first(), k2));
        }
    } else if m[0].0 == k {
        assert(t.drop_first() =~= m.drop_first());
        assert(t[0] == (k, v));
        if k2 == k {
            assert(dmap_get(t, k2) == Some(v));
        } else {
            assert(dmap_get(t, k2) == dmap_get(m.drop_first(), k2));
            assert(dmap_get(m, k2) == dmap_get(m.drop_first(), k2));
        }
    } else {
        lemma_dmap_get_set(m.drop_first(), k, v, k2);
        assert(t[0] == m[0]);
        assert(t.drop_first() =~= crate::decode::dmap_set(m.drop_first(), k, v));
        if t[0].0 == k2 {
            assert(dmap_get(t, k2) == Some(t[0].1));
            assert(dmap_get(m, k2) == Some(m[0].1));
        } else {
            assert(dmap_get(t, k2) == dmap_get(t.drop_first(), k2));
            assert(dmap_get(m, k2) == dmap_get(m.drop_first(), k2));
        }
    }
}

/// One dictionary entry's text splits back into its numeral and its hex
/// serialization.
proof fn lemma_dict_entry_parse(i: int, c: Color)
    requires
        0 <= i <= usize::MAX,
    ensures
        spec_split(spec_dict_entry(i, c), 61) == seq![dec_digits(i as nat), spec_color_hex(c)],
        spec_parse_num(dec_digits(i as nat), usize::MAX as int) == Some(i),
        !has_byte(spec_dict_entry(i, c), 44),
{
    lemma_dec_digits_shape(i as nat);
    lemma_color_hex_bytes(c);
    let a = dec_digits(i as nat);
    let hx = spec_color_hex(c);
    let parts = seq![a, hx];
    assert forall|j: int| 0 <= j < parts.len() implies !has_byte(#[trigger] parts[j], 61) by {
        if j == 0 {
            assert forall|l: int| 0 <= l < a.len() implies a[l] != 61 by {
                assert(crate::num::is_dec_digit(a[l]));
            }
        } else {
            assert forall|l: int| 0 <= l < hx.len() implies hx[l] != 61 by {}
        }
    }
    lemma_split_join(parts, 61);
    assert(parts.drop_first() =~= seq![hx]);
    assert(spec_join(seq![hx], 61) == hx);
    assert(spec_join(parts, 61) == parts[0] + seq![61u8] + spec_join(parts.drop_first(), 61));
    assert(spec_join(parts, 61) == a + seq![61u8] + hx);
    assert(spec_dict_entry(i, c) == a + seq![61u8] + hx);
    lemma_parse_of_dec_digits(i as nat, usize::MAX as int);
    let e = spec_dict_entry(i, c);
    assert forall|l: int| 0 <= l < e.len() implies e[l] != 44 by {
        if l < a.len() {
            assert(e[l] == a[l]);
            assert(crate::num::is_dec_digit(a[l]));
        } else if l == a.len() {
            assert(e[l] == 61);
        } else {
            assert(e[l] == hx[l - a.len() - 1]);
        }
    }
}

#[verifier::rlimit(50)]
proof fn lemma_dict_entries_parse(dict: Seq<Color>, j: int)
    requires
        dict.len() <= usize::MAX,
        0 <= j <= dict.len(),
    ensures
        dmap_of(dict.take(j), spec_parse_dict_entries(spec_dict_entries(dict).take(j))),
    decreases j,
{
    let entries = spec_dict_entries(dict);
    if j == 0 {
        assert(entries.take(0) =~= Seq::<Seq<u8>>::empty());
        let m = spec_parse_dict_entries(entries.take(0));
        assert(m =~= Seq::<(int, Seq<u8>)>::empty());
        assert forall|k: int| !(0 <= k < dict.take(0).len()) implies #[trigger] dmap_get(m, k)
            is None by {}
    } else {
        lemma_dict_entries_parse(dict, j - 1);
        let prev = spec_parse_dict_entries(entries.take(j - 1));
        assert(entries.take(j).drop_last() =~= entries.take(j - 1));
        assert(entries.take(j).last() == entries[j - 1]);
        assert(entries[j - 1] == spec_dict_entry(j - 1, dict[j - 1]));
        lemma_dict_entry_parse(j - 1, dict[j - 1]);
        let m = spec_parse_dict_entries(entries.take(j));
        assert(m == crate::decode::dmap_set(prev, j - 1, spec_color_hex(dict[j - 1])));
        assert forall|k: int| 0 <= k < dict.take(j).len() implies #[trigger] dmap_get(m, k)
            == Some(spec_color_hex(dict.take(j)[k])) by {
            lemma_dmap_get_set(prev, j - 1, spec_color_hex(dict[j - 1]), k);
            if k < j - 1 {
                assert(dmap_get(prev, k) == Some(spec_color_hex(dict.take(j - 1)[k])));
            }
        }
        assert forall|k: int| !(0 <= k < dict.take(j).len()) implies #[trigger] dmap_get(m, k)
            is None by {
            lemma_dmap_get_set(prev, j - 1, spec_color_hex(dict[j - 1]), k);
        }
    }
}

/// Parsing the encoder's dictionary line gives the faithful map: index
/// `k` is bound exactly for `k` below the dictionary's length, to the hex
/// serialization of the color at `k`.
proof fn lemma_dict_line_parse(dict: Seq<Color>)
    requires
        dict.len() <= usize::MAX,
    ensures
        dmap_of(dict, spec_parse_dict(spec_dict_line(dict))),
{
    let entries = spec_dict_entries(dict);
    let line = spec_dict_line(dict);
    if dict.len() == 0 {
        assert(entries =~= Seq::<Seq<u8>>::empty());
        assert(line =~= Seq::<u8>::empty());
        let fields = spec_split(line, 44);
        assert(fields =~~= seq![Seq::<u8>::empty()]);
        assert(fields.drop_last() =~= Seq::<Seq<u8>>::empty());
        assert(spec_parse_dict_entries(Seq::<Seq<u8>>::empty()) =~= Seq::<(
            int,
            Seq<u8>,
        )>::empty());
        assert(fields.last() =~= Seq::<u8>::empty());
        assert(spec_split(fields.last(), 61) =~~= seq![Seq::<u8>::empty()]);
        assert(spec_split(fields.last(), 61).len() == 1);
        let m = spec_parse_dict(line);
        assert(m == spec_parse_dict_entries(fields));
        assert(m =~= Seq::<(int, Seq<u8>)>::empty());
        assert forall|k: int| !(0 <= k < dict.len()) implies #[trigger] dmap_get(m, k)
            is None by {}
    } else {
        assert forall|i: int| 0 <= i < entries.len() implies !has_byte(
            #[trigger] entries[i],
            44,
        ) by {
            lemma_dict_entry_parse(i, dict[i]);
            assert(entries[i] == spec_dict_entry(i, dict[i]));
        }
        lemma_split_join(entries, 44);
        lemma_dict_entries_parse(dict, dict.len() as int);
        assert(entries.take(dict.len() as int) =~= entries);
        assert(dict.take(dict.len() as int) =~= dict);
    }
}

/// Parsing the encoder's dimensions line gives the dimensions back.
proof fn lemma_dims_parse(w: u32, h: u32)
    ensures
        spec_parse_dims(spec_dims_line(w, h)) == Some((w, h)),
{
    let a = dec_digits(w as nat);
    let b = dec_digits(h as nat);
    lemma_dec_digits_shape(w as nat);
    lemma_dec_digits_shape(h as nat);
    let parts = seq![a, b];
    assert forall|j: int| 0 <= j < parts.len() implies !has_byte(#[trigger] parts[j], 44) by {
        if j == 0 {
            assert forall|l: int| 0 <= l < a.len() implies a[l] != 44 by {
                assert(crate::num::is_dec_digit(a[l]));
            }
        } else {
            assert forall|l: int| 0 <= l < b.len() implies b[l] != 44 by {
                assert(crate::num::is_dec_digit(b[l]));
            }
        }
    }
    lemma_split_join(parts, 44);
    assert(parts.drop_first() =~= seq![b]);
    assert(spec_join(seq![b], 44) == b);
    assert(spec_join(parts, 44) == parts[0] + seq![44u8] + spec_join(parts.drop_first(), 44));
    assert(spec_join(parts, 44) == a + seq![44u8] + b);
    assert(spec_dims_line(w, h) == a + seq![44u8] + b);
    lemma_parse_of_dec_digits(w as nat, u32::MAX as int);
    lemma_parse_of_dec_digits(h as nat, u32::MAX as int);
    let fields = spec_split(spec_dims_line(w, h), 44);
    assert(fields == parts);
    assert forall|i: int| 0 <= i < fields.len() implies spec_parse_num(
        #[trigger] fields[i],
        u32::MAX as int,
    ) is Some by {
        if i == 0 {
            assert(fields[0] == a);
        } else {
            assert(fields[1] == b);
        }
    }
}

/// Row `y` of the decode of an encode is row `y` of the grid.
proof fn lemma_row_decode(g: PixelGrid, y: int)
    requires
        grid_wf(g),
        no_index_collision(g.pixels@),
        0 <= y < g.height,
    ensures
        spec_decoded_row(
            spec_encode(g),
            y,
            spec_parse_dict(spec_encode(g)[1]),
            g.width as int,
        ) == row_of(g, y),
{
    vstd::std_specs::vec::axiom_spec_len(&g.pixels);
    let lines = spec_encode(g);
    let dict = spec_dict(g.pixels@);
    let m = spec_parse_dict(lines[1]);
    lemma_dict_len(g.pixels@);
    assert(lines[1] == spec_dict_line(dict));
    lemma_dict_line_parse(dict);
    let row = row_of(g, y);
    lemma_row_of_len(g, y);
    assert(lines.len() == 2 + g.height);
    assert(lines[2 + y] == spec_row_line(row, dict));
    let toks = spec_row_tokens(row, dict, None);
    lemma_row_tokens_shape(row, dict, None);
    assert forall|i: int| 0 <= i < row.len() implies literal_safe(#[trigger] row[i], dict) by {
        lemma_row_of_len(g, y);
        vstd::arithmetic::mul::lemma_mul_is_distributive_add_other_way(g.width as int, y, 1);
        assert(0 <= y * g.width + i < g.pixels@.len());
        assert(row[i] == g.pixels@[y * g.width + i]);
        assert(literal_safe(g.pixels@[y * g.width + i], spec_dict(g.pixels@)));
    }
    lemma_row_roundtrip(row, dict, m, None, Seq::empty());
    if g.width == 0 {
        assert(spec_decoded_row(lines, y, m, 0) =~= row);
    } else {
        lemma_split_join(toks, 44);
        assert(spec_split(lines[2 + y], 44) == toks);
        assert(spec_decode_tokens(toks, m, Seq::empty()) == row);
        assert(pad_row(row, g.width as int) =~= row);
        assert(spec_decoded_row(lines, y, m, g.width as int) == row);
    }
}

proof fn lemma_rows_concat(g: PixelGrid, y: int)
    requires
        grid_wf(g),
        no_index_collision(g.pixels@),
        0 <= y <= g.height,
    ensures
        spec_decoded_pixels(
            spec_encode(g),
            spec_parse_dict(spec_encode(g)[1]),
            g.width as int,
            y,
        ) == g.pixels@.subrange(0, y * g.width),
    decreases y,
{
    vstd::std_specs::vec::axiom_spec_len(&g.pixels);
    let lines = spec_encode(g);
    let m = spec_parse_dict(lines[1]);
    let w = g.width as int;
    if y == 0 {
        assert(0 * w == 0);
        assert(spec_decoded_pixels(lines, m, w, 0) =~= g.pixels@.subrange(0, 0));
        assert(spec_decoded_pixels(lines, m, w, y) == g.pixels@.subrange(0, y * w));
    } else {
        lemma_rows_concat(g, y - 1);
        lemma_row_decode(g, y - 1);
        lemma_row_of_len(g, y - 1);
        assert(spec_decoded_pixels(lines, m, w, y) == g.pixels@.subrange(0, (y - 1) * w)
            + row_of(g, y - 1));
        assert(g.pixels@.subrange(0, (y - 1) * w) + g.pixels@.subrange((y - 1) * w, y * w)
            =~= g.pixels@.subrange(0, y * w)) by {
            vstd::arithmetic::mul::lemma_mul_is_distributive_add_other_way(w, y - 1, 1);
            vstd::arithmetic::mul::lemma_mul_nonnegative(y - 1, w);
            lemma_row_of_len(g, y - 1);
        }
        assert(row_of(g, y - 1) == g.pixels@.subrange((y - 1) * w, y * w)) by {
            vstd::arithmetic::mul::lemma_mul_is_distributive_add_other_way(w, y - 1, 1);
        }
        assert(spec_decoded_pixels(lines, m, w, y) == g.pixels@.subrange(0, y * w));
    }
}

/// Round trip: decoding an encoded document reproduces the grid exactly —
/// the dimensions line parses back to the grid's dimensions and the
/// decoded rows are the grid's rows. The one excluded family of grids is
/// those with an index/literal collision: a color outside the dictionary
/// whose six hex digits, read as a decimal integer, name an existing
/// dictionary index; the format itself cannot represent such a grid
/// unambiguously.
pub proof fn lemma_round_trip(g: PixelGrid)
    requires
        grid_wf(g),
        no_index_collision(g.pixels@),
    ensures
        spec_encode(g).len() == 2 + g.height,
        spec_parse_dims(spec_encode(g)[0]) == Some((g.width, g.height)),
        g.width * g.height <= usize::MAX,
        spec_decoded_pixels(
            spec_encode(g),
            spec_parse_dict(spec_encode(g)[1]),
            g.width as int,
            g.height as int,
        ) == g.pixels@,
{
    vstd::std_specs::vec::axiom_spec_len(&g.pixels);
    let lines = spec_encode(g);
    assert(lines[0] == spec_dims_line(g.width, g.height));
    lemma_dims_parse(g.width, g.height);
    lemma_rows_concat(g, g.height as int);
    vstd::arithmetic::mul::lemma_mul_is_commutative(g.width as int, g.height as int);
    assert(g.pixels@.subrange(0, (g.height as int) * (g.width as int)) =~= g.pixels@);
}

/// Dictionary soundness: every token of an encoded row is either empty,
/// or the literal hex of its cell's color, or that color's dictionary
/// index — and every such index is a key of the dictionary parsed back
/// from line 1, bound to that very color's serialization.
pub proof fn lemma_dictionary_soundness(g: PixelGrid, y: int, x: int)
    requires
        grid_wf(g),
        0 <= y < g.height,
        0 <= x < g.width,
    ensures
        ({
            let dict = spec_dict(g.pixels@);
            let m = spec_parse_dict(spec_encode(g)[1]);
            let toks = spec_row_tokens(row_of(g, y), dict, None);
            let c = row_of(g, y)[x];
            &&& toks.len() == g.width
            &&& toks[x].len() == 0 || toks[x] == spec_token_for(c, dict)
            &&& match spec_find(dict, c) {
                Some(k) => spec_token_for(c, dict) == dec_digits(k as nat) && dmap_get(m, k)
                    == Some(spec_color_hex(c)),
                None => spec_token_for(c, dict) == spec_color_hex(c),
            }
        }),
{
    vstd::std_specs::vec::axiom_spec_len(&g.pixels);
    let dict = spec_dict(g.pixels@);
    lemma_dict_len(g.pixels@);
    assert(spec_encode(g)[1] == spec_dict_line(dict));
    lemma_dict_line_parse(dict);
    lemma_row_of_len(g, y);
    lemma_row_tokens_shape(row_of(g, y), dict, None);
    lemma_find_props(dict, row_of(g, y)[x]);
}

/// Frequency invariant: the counts of the table the encoder builds add up
/// to width times height exactly.
pub proof fn lemma_grid_frequency_invariant(g: PixelGrid)
    requires
        grid_wf(g),
    ensures
        crate::freq::sum_counts(crate::freq::spec_freqs(g.pixels@)) == g.width * g.height,
{
    crate::freq::lemma_frequency_invariant(g.pixels@);
}

} // verus!
