//! The encoder: a pixel grid becomes a dimensions line, a dictionary line,
//! and one run-length/dictionary-substituted token line per row.

use vstd::prelude::*;
use crate::color::Color;
use crate::color::spec_color_hex;
use crate::color::color_hex;
use crate::dict::spec_dict;
use crate::dict::spec_find;
use crate::dict::build_dictionary;
use crate::dict::find_color;
use crate::freq::count_colors;
use crate::grid::PixelGrid;
use crate::grid::grid_wf;
use crate::grid::row_of;
use crate::num::dec_digits;
use crate::num::to_dec;
use crate::text::seqs_of;
use crate::text::spec_join;
use crate::text::join_bytes;

verus! {

/// The token of a color that opens or interrupts a run: its dictionary
/// index when it has one, its literal hex serialization otherwise.
pub open spec fn spec_token_for(c: Color, dict: Seq<Color>) -> Seq<u8> {
    match spec_find(dict, c) {
        Some(i) => dec_digits(i as nat),
        None => spec_color_hex(c),
    }
}

/// The tokens of a row walked left to right: a cell equal to the one
/// before it becomes the empty token, any other cell its color's token.
/// `last` is the color before the walk, `None` at a row's start.
pub open spec fn spec_row_tokens(row: Seq<Color>, dict: Seq<Color>, last: Option<Color>) -> Seq<
    Seq<u8>,
>
    decreases row.len(),
{
    if row.len() == 0 {
        Seq::empty()
    } else {
        let t = if last == Some(row[0]) {
            Seq::<u8>::empty()
        } else {
            spec_token_for(row[0], dict)
        };
        seq![t] + spec_row_tokens(row.drop_first(), dict, Some(row[0]))
    }
}

/// Line 0: `"width,height"`.
pub open spec fn spec_dims_line(w: u32, h: u32) -> Seq<u8> {
    dec_digits(w as nat) + seq![44u8] + dec_digits(h as nat)
}

/// One dictionary entry, `"index=RRGGBB"`.
pub open spec fn spec_dict_entry(i: int, c: Color) -> Seq<u8> {
    dec_digits(i as nat) + seq![61u8] + spec_color_hex(c)
}

pub open spec fn spec_dict_entries(dict: Seq<Color>) -> Seq<Seq<u8>> {
    Seq::new(dict.len(), |i: int| spec_dict_entry(i, dict[i]))
}

/// Line 1: the dictionary entries comma-joined, index ascending; empty for
/// an empty dictionary.
pub open spec fn spec_dict_line(dict: Seq<Color>) -> Seq<u8> {
    spec_join(spec_dict_entries(dict), 44)
}

/// A row's line: its tokens comma-joined.
pub open spec fn spec_row_line(row: Seq<Color>, dict: Seq<Color>) -> Seq<u8> {
    spec_join(spec_row_tokens(row, dict, None), 44)
}

/// The whole document: dimensions, dictionary, then one line per row in
/// top-to-bottom order.
pub open spec fn spec_encode(g: PixelGrid) -> Seq<Seq<u8>> {
    seq![spec_dims_line(g.width, g.height), spec_dict_line(spec_dict(g.pixels@))] + Seq::new(
        g.height as nat,
        |y: int| spec_row_line(row_of(g, y), spec_dict(g.pixels@)),
    )
}

/// The state the encoder's walk carries into cell `i` of a row.
pub open spec fn walk_state(row: Seq<Color>, i: int) -> Option<Color> {
    if i == 0 {
        None
    } else {
        Some(row[i - 1])
    }
}

fn token_for(c: Color, dict: &Vec<Color>) -> (r: Vec<u8>)
    ensures
        r@ == spec_token_for(c, dict@),
{
    match find_color(dict, c) {
        Some(i) => to_dec(i as u64),
        None => color_hex(c),
    }
}

/// The tokens of one row, left to right, runs collapsed to empty tokens.
pub fn encode_row_tokens(row: &Vec<Color>, dict: &Vec<Color>) -> (r: Vec<Vec<u8>>)
    ensures
        seqs_of(r@) == spec_row_tokens(row@, dict@, None),
{
    let mut out: Vec<Vec<u8>> = Vec::new();
    let mut i: usize = 0;
    proof {
        assert(row@.skip(0) =~= row@);
        assert(seqs_of(out@) + spec_row_tokens(row@, dict@, None) =~= spec_row_tokens(
            row@,
            dict@,
            None,
        ));
    }
    while i < row.len()
        invariant
            i <= row@.len(),
            spec_row_tokens(row@, dict@, None) == seqs_of(out@) + spec_row_tokens(
                row@.skip(i as int),
                dict@,
                walk_state(row@, i as int),
            ),
        decreases row@.len() - i,
    {
        let ghost old_out = out@;
        proof {
            assert(row@.skip(i as int)[0] == row@[i as int]);
            assert(row@.skip(i as int).drop_first() =~= row@.skip(i + 1));
        }
        let c = row[i];
        if i > 0 && c == row[i - 1] {
            out.push(Vec::new());
            proof {
                assert(seqs_of(out@) =~= seqs_of(old_out).push(Seq::<u8>::empty()));
            }
        } else {
            let t = token_for(c, dict);
            let ghost tv = t@;
            out.push(t);
            proof {
                assert(seqs_of(out@) =~= seqs_of(old_out).push(tv));
            }
        }
        proof {
            assert(seqs_of(old_out) + (seq![seqs_of(out@).last()] + spec_row_tokens(
                row@.skip(i + 1),
                dict@,
                Some(row@[i as int]),
            )) =~= seqs_of(out@) + spec_row_tokens(
                row@.skip(i + 1),
                dict@,
                Some(row@[i as int]),
            ));
        }
        i += 1;
    }
    proof {
        assert(row@.skip(i as int) =~= Seq::<Color>::empty());
        assert(seqs_of(out@) + Seq::<Seq<u8>>::empty() =~= seqs_of(out@));
    }
    out
}

/// The colors of row `y`, copied out of the grid.
fn extract_row(g: &PixelGrid, y: u32) -> (r: Vec<Color>)
    requires
        grid_wf(*g),
        y < g.height,
    ensures
        r@ == row_of(*g, y as int),
{
    let mut r: Vec<Color> = Vec::new();
    let mut x: u32 = 0;
    while x < g.width
        invariant
            grid_wf(*g),
            y < g.height,
            x <= g.width,
            r@ == row_of(*g, y as int).subrange(0, x as int),
        decreases g.width - x,
    {
        let c = g.pixel_at(x, y);
        r.push(c);
        proof {
            crate::grid::lemma_row_of_len(*g, y as int);
            assert(row_of(*g, y as int).subrange(0, x as int).push(
                row_of(*g, y as int)[x as int],
            ) =~= row_of(*g, y as int).subrange(0, x + 1));
        }
        x += 1;
    }
    proof {
        crate::grid::lemma_row_of_len(*g, y as int);
        assert(row_of(*g, y as int).subrange(0, g.width as int) =~= row_of(*g, y as int));
    }
    r
}

/// Encode a grid as document lines: the dimensions line, the dictionary
/// line, then one token line per row, top to bottom.
pub fn encode(g: &PixelGrid) -> (r: Vec<Vec<u8>>)
    requires
        grid_wf(*g),
    ensures
        seqs_of(r@) == spec_encode(*g),
{
    let freqs = count_colors(&g.pixels);
    let dict = build_dictionary(&freqs);
    proof {
        assert(dict@ == spec_dict(g.pixels@));
    }

    let mut dims = to_dec(g.width as u64);
    dims.push(44);
    let mut hline = to_dec(g.height as u64);
    dims.append(&mut hline);
    proof {
        assert(dims@ =~= spec_dims_line(g.width, g.height));
    }

    let mut entries: Vec<Vec<u8>> = Vec::new();
    let mut i: usize = 0;
    proof {
        assert(seqs_of(entries@) =~= spec_dict_entries(dict@).take(0));
    }
    while i < dict.len()
        invariant
            i <= dict@.len(),
            dict@ == spec_dict(g.pixels@),
            seqs_of(entries@) == spec_dict_entries(dict@).take(i as int),
        decreases dict@.len() - i,
    {
        let ghost old_entries = entries@;
        let mut e = to_dec(i as u64);
        e.push(61);
        let mut hx = color_hex(dict[i]);
        e.append(&mut hx);
        proof {
            assert(e@ =~= spec_dict_entry(i as int, dict@[i as int]));
        }
        let ghost ev = e@;
        entries.push(e);
        proof {
            assert(seqs_of(entries@) =~= seqs_of(old_entries).push(ev));
            assert(spec_dict_entries(dict@).take(i as int).push(
                spec_dict_entries(dict@)[i as int],
            ) =~= spec_dict_entries(dict@).take(i + 1));
        }
        i += 1;
    }
    proof {
        assert(spec_dict_entries(dict@).take(dict@.len() as int) =~= spec_dict_entries(dict@));
    }
    let dict_line = join_bytes(&entries, 44);

    let mut out: Vec<Vec<u8>> = Vec::new();
    let ghost dims_v = dims@;
    let ghost dict_line_v = dict_line@;
    out.push(dims);
    out.push(dict_line);
    let ghost head = seq![dims_v, dict_line_v];
    proof {
        assert(seqs_of(out@) =~= head + Seq::new(0, |y: int| spec_row_line(
            row_of(*g, y),
            dict@,
        )));
    }
    let mut y: u32 = 0;
    while y < g.height
        invariant
            grid_wf(*g),
            y <= g.height,
            dict@ == spec_dict(g.pixels@),
            head == seq![spec_dims_line(g.width, g.height), spec_dict_line(spec_dict(g.pixels@))],
            seqs_of(out@) == head + Seq::new(y as nat, |yy: int| spec_row_line(
                row_of(*g, yy),
                dict@,
            )),
        decreases g.height - y,
    {
        let row = extract_row(g, y);
        let tokens = encode_row_tokens(&row, &dict);
        let line = join_bytes(&tokens, 44);
        let ghost old_out = out@;
        let ghost lv = line@;
        out.push(line);
        proof {
            assert(lv == spec_row_line(row_of(*g, y as int), dict@));
            assert(seqs_of(out@) =~= seqs_of(old_out).push(lv));
            assert(seqs_of(old_out).push(lv) =~= head + Seq::new((y + 1) as nat, |yy: int|
                spec_row_line(row_of(*g, yy), dict@)));
        }
        y += 1;
    }
    proof {
        assert(seqs_of(out@) =~= spec_encode(*g));
    }
    out
}

} // verus!
