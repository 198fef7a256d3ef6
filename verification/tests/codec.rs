use ved::color::Color;
use ved::decode::decode;
use ved::decode::decode_row;
use ved::decode::parse_dict_line;
use ved::decode::parse_dims;
use ved::decode::FormatError;
use ved::encode::encode;
use ved::freq::count_colors;
use ved::grid::PixelGrid;

fn bytes(s: &str) -> Vec<u8> {
    s.bytes().collect()
}

fn lines(ls: &[&str]) -> Vec<Vec<u8>> {
    ls.iter().map(|s| bytes(s)).collect()
}

fn rgb(r: u8, g: u8, b: u8) -> Color {
    Color { r, g, b }
}

fn grid(width: u32, height: u32, pixels: Vec<Color>) -> PixelGrid {
    assert_eq!(pixels.len() as u64, width as u64 * height as u64);
    PixelGrid { width, height, pixels }
}

fn assert_round_trip(g: &PixelGrid) {
    let doc = encode(g);
    let back = decode(&doc).expect("round trip must decode");
    assert_eq!(back.width, g.width);
    assert_eq!(back.height, g.height);
    assert_eq!(back.pixels, g.pixels);
}

#[test]
fn round_trip_single_pixel() {
    assert_round_trip(&grid(1, 1, vec![rgb(0xAB, 0xCD, 0xEF)]));
}

#[test]
fn round_trip_uniform_50x50() {
    let g = grid(50, 50, vec![rgb(0x12, 0x34, 0xF6); 2500]);
    assert_round_trip(&g);
}

#[test]
fn round_trip_checkerboard() {
    let a = rgb(0xAA, 0xBB, 0xCC);
    let b = rgb(0x11, 0x22, 0x33);
    let mut pixels = Vec::new();
    for y in 0..4 {
        for x in 0..4 {
            pixels.push(if (x + y) % 2 == 0 { a } else { b });
        }
    }
    assert_round_trip(&grid(4, 4, pixels));
}

#[test]
fn round_trip_all_unique_empty_dictionary() {
    let g = grid(
        2,
        2,
        vec![
            rgb(0x01, 0x02, 0x03),
            rgb(0x04, 0x05, 0x06),
            rgb(0x07, 0x08, 0x09),
            rgb(0x0A, 0x0B, 0x0C),
        ],
    );
    let doc = encode(&g);
    assert_eq!(doc[1], bytes(""));
    assert_round_trip(&g);
}

#[test]
fn round_trip_empty_image() {
    let g = grid(0, 0, vec![]);
    let doc = encode(&g);
    assert_eq!(doc.len(), 2);
    assert_eq!(doc[0], bytes("0,0"));
    assert_eq!(doc[1], bytes(""));
    assert_round_trip(&g);
}

#[test]
fn round_trip_zero_width_rows() {
    assert_round_trip(&grid(0, 2, vec![]));
}

#[test]
fn repeated_pixel_encodes_index_then_empty_token() {
    let g = grid(2, 1, vec![rgb(255, 0, 0), rgb(255, 0, 0)]);
    let doc = encode(&g);
    assert_eq!(doc.len(), 3);
    assert_eq!(doc[0], bytes("2,1"));
    assert_eq!(doc[1], bytes("0=FF0000"));
    assert_eq!(doc[2], bytes("0,"));
    let back = decode(&doc).unwrap();
    assert_eq!(back.pixels, vec![rgb(255, 0, 0), rgb(255, 0, 0)]);
}

#[test]
fn distinct_singletons_encode_literals_and_empty_dictionary() {
    let g = grid(2, 1, vec![rgb(255, 0, 0), rgb(0, 255, 0)]);
    let doc = encode(&g);
    assert_eq!(doc.len(), 3);
    assert_eq!(doc[0], bytes("2,1"));
    assert_eq!(doc[1], bytes(""));
    assert_eq!(doc[2], bytes("FF0000,00FF00"));
}

#[test]
fn dictionary_ranks_by_descending_count() {
    // blue occurs three times, red twice, green once
    let g = grid(
        6,
        1,
        vec![
            rgb(255, 0, 0),
            rgb(0, 0, 255),
            rgb(0, 0, 255),
            rgb(0, 255, 0),
            rgb(0, 0, 255),
            rgb(255, 0, 0),
        ],
    );
    let doc = encode(&g);
    assert_eq!(doc[1], bytes("0=0000FF,1=FF0000"));
    assert_eq!(doc[2], bytes("1,0,,00FF00,0,1"));
    assert_round_trip(&g);
}

#[test]
fn rows_are_emitted_top_to_bottom_and_ties_keep_encounter_order() {
    let a = rgb(1, 1, 1);
    let b = rgb(2, 2, 2);
    let g = grid(2, 2, vec![a, a, b, b]);
    let doc = encode(&g);
    assert_eq!(doc[0], bytes("2,2"));
    // both counts are 2: the tie keeps first-encounter order
    assert_eq!(doc[1], bytes("0=010101,1=020202"));
    assert_eq!(doc[2], bytes("0,"));
    assert_eq!(doc[3], bytes("1,"));
    assert_round_trip(&g);
}

#[test]
fn short_row_pads_with_opaque_black() {
    let doc = lines(&["3,2", "", "FF0000", "AA00BB,0000FF,112233,445566"]);
    let g = decode(&doc).unwrap();
    assert_eq!(g.pixels.len(), 6);
    assert_eq!(g.pixels[0], rgb(0xFF, 0, 0));
    assert_eq!(g.pixels[1], rgb(0, 0, 0));
    assert_eq!(g.pixels[2], rgb(0, 0, 0));
    // the over-length second row is cut off at the width
    assert_eq!(g.pixels[3], rgb(0xAA, 0x00, 0xBB));
    assert_eq!(g.pixels[4], rgb(0x00, 0x00, 0xFF));
    assert_eq!(g.pixels[5], rgb(0x11, 0x22, 0x33));
}

#[test]
fn missing_row_lines_stay_black() {
    let doc = lines(&["2,2", "", "FF0000,00FF00"]);
    let g = decode(&doc).unwrap();
    assert_eq!(g.pixels[0], rgb(255, 0, 0));
    assert_eq!(g.pixels[1], rgb(0, 255, 0));
    assert_eq!(g.pixels[2], rgb(0, 0, 0));
    assert_eq!(g.pixels[3], rgb(0, 0, 0));
}

#[test]
fn empty_first_token_degrades_to_black() {
    let doc = lines(&["2,1", "", ",FF0000"]);
    let g = decode(&doc).unwrap();
    assert_eq!(g.pixels[0], rgb(0, 0, 0));
    assert_eq!(g.pixels[1], rgb(255, 0, 0));
}

#[test]
fn empty_token_repeats_index_resolution() {
    let doc = lines(&["3,1", "0=ABCDEF", "0,,"]);
    let g = decode(&doc).unwrap();
    assert_eq!(g.pixels, vec![rgb(0xAB, 0xCD, 0xEF); 3]);
}

#[test]
fn malformed_dictionary_entries_are_skipped() {
    let doc = lines(&["1,1", "0=FF0000,garbage,x=AABBCC,1=2=3,1=00FF00", "1"]);
    let g = decode(&doc).unwrap();
    assert_eq!(g.pixels[0], rgb(0, 255, 0));
}

#[test]
fn later_dictionary_binding_wins() {
    let doc = lines(&["1,1", "0=FF0000,0=00FF00", "0"]);
    let g = decode(&doc).unwrap();
    assert_eq!(g.pixels[0], rgb(0, 255, 0));
}

#[test]
fn hash_prefixed_literal_is_accepted() {
    let doc = lines(&["1,1", "", "#FF8001"]);
    let g = decode(&doc).unwrap();
    assert_eq!(g.pixels[0], rgb(0xFF, 0x80, 0x01));
}

#[test]
fn trailing_bytes_of_long_literal_are_ignored() {
    let doc = lines(&["1,1", "", "FF0000FFFF"]);
    let g = decode(&doc).unwrap();
    assert_eq!(g.pixels[0], rgb(255, 0, 0));
}

#[test]
fn unreadable_hex_pair_degrades_to_zero() {
    let doc = lines(&["1,1", "", "GG00FF"]);
    let g = decode(&doc).unwrap();
    assert_eq!(g.pixels[0], rgb(0, 0, 0xFF));
}

#[test]
fn short_literal_degrades_to_black() {
    let doc = lines(&["1,1", "", "ABC"]);
    let g = decode(&doc).unwrap();
    assert_eq!(g.pixels[0], rgb(0, 0, 0));
}

#[test]
fn unknown_index_shaped_token_stays_literal() {
    // 123456 reads as an integer but no dictionary key 123456 exists,
    // so it is taken as the hex color 0x12 0x34 0x56
    let doc = lines(&["1,1", "0=FF0000", "123456"]);
    let g = decode(&doc).unwrap();
    assert_eq!(g.pixels[0], rgb(0x12, 0x34, 0x56));
}

#[test]
fn all_digit_literal_reads_as_existing_index() {
    // the format's known ambiguity: a color outside the dictionary whose
    // hex digits read as an existing index decodes to that index's color
    let g = grid(3, 1, vec![rgb(0, 0, 0), rgb(255, 0, 0), rgb(255, 0, 0)]);
    let doc = encode(&g);
    assert_eq!(doc[1], bytes("0=FF0000"));
    assert_eq!(doc[2], bytes("000000,0,"));
    let back = decode(&doc).unwrap();
    assert_eq!(back.pixels[0], rgb(255, 0, 0));
}

#[test]
fn missing_dimensions_line_is_fatal() {
    assert_eq!(decode(&lines(&[])), Err(FormatError::MissingDimensions));
}

#[test]
fn missing_dictionary_line_is_fatal() {
    assert_eq!(decode(&lines(&["5,5"])), Err(FormatError::MissingDictionary));
}

#[test]
fn unreadable_dimensions_are_fatal() {
    assert_eq!(decode(&lines(&["a,b", ""])), Err(FormatError::InvalidDimensions));
    assert_eq!(decode(&lines(&["5", ""])), Err(FormatError::InvalidDimensions));
    assert_eq!(decode(&lines(&["1,2,x", ""])), Err(FormatError::InvalidDimensions));
    assert_eq!(decode(&lines(&["-1,2", ""])), Err(FormatError::InvalidDimensions));
    assert_eq!(decode(&lines(&["4294967296,1", ""])), Err(FormatError::InvalidDimensions));
}

#[test]
fn extra_dimension_fields_are_tolerated() {
    let g = decode(&lines(&["1,2,3", "", "FF0000", "00FF00"])).unwrap();
    assert_eq!(g.width, 1);
    assert_eq!(g.height, 2);
}

#[test]
fn plus_signed_dimensions_parse() {
    let d = parse_dims(&bytes("+2,1"));
    assert_eq!(d, Some((2, 1)));
}

#[test]
fn frequency_counts_cover_every_pixel() {
    let pixels = vec![
        rgb(1, 1, 1),
        rgb(2, 2, 2),
        rgb(1, 1, 1),
        rgb(3, 3, 3),
        rgb(1, 1, 1),
        rgb(2, 2, 2),
    ];
    let freqs = count_colors(&pixels);
    let total: u64 = freqs.iter().map(|e| e.1).sum();
    assert_eq!(total, 6);
    assert_eq!(freqs[0], (rgb(1, 1, 1), 3));
    assert_eq!(freqs[1], (rgb(2, 2, 2), 2));
    assert_eq!(freqs[2], (rgb(3, 3, 3), 1));
}

#[test]
fn decode_row_yields_exactly_width_colors() {
    let dict = parse_dict_line(&bytes("0=FF0000"));
    let row = decode_row(&bytes("0,"), &dict, 5);
    assert_eq!(row.len(), 5);
    assert_eq!(row[0], rgb(255, 0, 0));
    assert_eq!(row[1], rgb(255, 0, 0));
    assert_eq!(row[2], rgb(0, 0, 0));
    let cut = decode_row(&bytes("0,0,0"), &dict, 2);
    assert_eq!(cut.len(), 2);
}
