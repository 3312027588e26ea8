use ascii_dither::rle::{decode_pieces, encode_row, encode_row_text, render_pieces, RlePiece};
use ascii_dither::{find_closest_character, Palette, PaletteEntry};

fn chars(s: &str) -> Vec<char> {
    s.chars().collect()
}

fn text(v: &Vec<char>) -> String {
    v.iter().collect()
}

#[test]
fn nearest_tie_breaks_to_earlier_entry() {
    // 237 is at distance 18 from both 255 and 219; the first-scanned entry
    // (255, glyph '0') must win by the strict-less-than rule.
    assert_eq!(find_closest_character(237), ('0', 255));
}

#[test]
fn nearest_is_total_over_byte_range() {
    for v in 0..=255 {
        let (_, b) = find_closest_character(v);
        assert!((0..=255).contains(&b));
    }
    // Values outside the byte range still resolve.
    assert_eq!(find_closest_character(-5), ('M', 0));
    assert_eq!(find_closest_character(300), ('0', 255));
}

#[test]
fn nearest_picks_expected_classic_entries() {
    assert_eq!(find_closest_character(0), ('M', 0));
    assert_eq!(find_closest_character(255), ('0', 255));
    assert_eq!(find_closest_character(128), (';', 146));
    assert_eq!(find_closest_character(121), ('I', 109));
}

#[test]
fn banded_palette_lookup() {
    let p = Palette::banded();
    assert_eq!(p.nearest(255), ('0', 239));
    assert_eq!(p.nearest(0), ('M', 15));
    assert_eq!(p.nearest(120), ('I', 111));
}

#[test]
fn custom_palette_order_decides_ties() {
    let a = Palette::from_entries(vec![
        PaletteEntry { glyph: 'x', brightness: 10 },
        PaletteEntry { glyph: 'y', brightness: 20 },
    ]);
    // 15 is equidistant; 'x' is declared first.
    assert_eq!(a.nearest(15), ('x', 10));
    let b = Palette::from_entries(vec![
        PaletteEntry { glyph: 'y', brightness: 20 },
        PaletteEntry { glyph: 'x', brightness: 10 },
    ]);
    assert_eq!(b.nearest(15), ('y', 20));
}

#[test]
fn boundary_row_encodes_with_threshold_two() {
    let row = chars("aaabbccccd");
    let pieces = encode_row(&row, 2);
    assert_eq!(
        pieces,
        vec![
            RlePiece::Run('a', 3),
            RlePiece::Lit('b'),
            RlePiece::Lit('b'),
            RlePiece::Run('c', 4),
            RlePiece::Lit('d'),
        ]
    );
    let rendered = render_pieces(&pieces);
    assert_eq!(text(&rendered), " (a 3) bb (c 4) d");
}

#[test]
fn encoder_round_trips_for_many_thresholds() {
    let rows = ["aaabbccccd", "", "aaaa", "abc", "aabbaabb", "zzzzzzzzzz"];
    for row in rows {
        for t in 1..=4 {
            let row: Vec<char> = chars(row);
            let pieces = encode_row(&row, t);
            assert_eq!(decode_pieces(&pieces), row);
        }
    }
}

#[test]
fn final_run_is_flushed() {
    // The last run must be emitted exactly once, token form, trailing space,
    // no leading space.
    let row = chars("dcccc");
    assert_eq!(text(&encode_row_text(&row, 2)), "d(c 4) ");
}

#[test]
fn multi_digit_counts_render_in_decimal() {
    let row: Vec<char> = std::iter::repeat('x').take(123).collect();
    assert_eq!(text(&encode_row_text(&row, 2)), "(x 123) ");
}

#[test]
fn threshold_one_encodes_pairs() {
    let row = chars("aabbb");
    let pieces = encode_row(&row, 1);
    assert_eq!(pieces, vec![RlePiece::Run('a', 2), RlePiece::Run('b', 3)]);
    assert_eq!(text(&render_pieces(&pieces)), " (a 2) (b 3) ");
}

#[test]
fn empty_row_encodes_to_nothing() {
    let row: Vec<char> = Vec::new();
    let pieces = encode_row(&row, 2);
    assert!(pieces.is_empty());
    assert!(decode_pieces(&pieces).is_empty());
}
