//! Tests for the decoder and for the encode/decode round trip.

use gimp_palette::Color;
use gimp_palette::NewPaletteError;
use gimp_palette::Palette;

fn invalid_data(err: NewPaletteError) -> (usize, String) {
    match err {
        NewPaletteError::InvalidData { line_num, val } => (line_num, val),
        NewPaletteError::NoColors => panic!("expected InvalidData, got NoColors"),
    }
}

#[test]
fn decode_sample_file() {
    let text = "GIMP Palette\nName: test-palette\nColumns: 3\n255   0   0\n  0 255   0\n  0   0 255\n";
    let pal = Palette::from_gpl_string(text).unwrap();
    assert_eq!(pal.get_name(), "test-palette");
    let expected = [
        Color { r: 255, g: 0, b: 0 },
        Color { r: 0, g: 255, b: 0 },
        Color { r: 0, g: 0, b: 255 },
    ];
    assert_eq!(pal.get_colors(), &expected[..]);
}

#[test]
fn decode_wrong_signature() {
    let text = "NOT GIMP Palette\nName: x\nColumns: 0\n";
    let (line_num, val) = invalid_data(Palette::from_gpl_string(text).unwrap_err());
    assert_eq!(line_num, 1);
    assert_eq!(val, "NOT GIMP Palette");
}

#[test]
fn decode_bad_color_line() {
    let text = "GIMP Palette\nName: x\nColumns: 1\nabc 0 0\n";
    let (line_num, val) = invalid_data(Palette::from_gpl_string(text).unwrap_err());
    assert_eq!(line_num, 4);
    assert_eq!(val, "abc 0 0");
}

#[test]
fn decode_missing_name_line() {
    let text = "GIMP Palette\nColumns: 3\n";
    let (line_num, val) = invalid_data(Palette::from_gpl_string(text).unwrap_err());
    assert_eq!(line_num, 2);
    assert_eq!(val, "Columns: 3");
}

#[test]
fn decode_comments_and_blanks_only() {
    let text = "# foo\n\n   \n# bar\n";
    let pal = Palette::from_gpl_string(text).unwrap();
    assert_eq!(pal.get_name(), "");
    assert_eq!(pal.get_colors().len(), 0);
}

#[test]
fn decode_empty_input() {
    let pal = Palette::from_gpl_string("").unwrap();
    assert_eq!(pal.get_name(), "");
    assert_eq!(pal.get_colors().len(), 0);
}

#[test]
fn decode_header_after_comments() {
    let text = "# leading comment\n\nGIMP Palette\nName: late\nColumns: 0\n";
    let pal = Palette::from_gpl_string(text).unwrap();
    assert_eq!(pal.get_name(), "late");
    assert_eq!(pal.get_colors().len(), 0);
}

#[test]
fn decode_error_line_number_counts_skipped_lines() {
    let text = "# one\nGIMP Palette\n# three\nName: x\nColumns: 0\nbad line\n";
    let (line_num, val) = invalid_data(Palette::from_gpl_string(text).unwrap_err());
    assert_eq!(line_num, 6);
    assert_eq!(val, "bad line");
}

#[test]
fn decode_crlf_lines() {
    let text = "GIMP Palette\r\nName: x\r\nColumns: 1\r\n1 2 3\r\n";
    let pal = Palette::from_gpl_string(text).unwrap();
    assert_eq!(pal.get_name(), "x");
    assert_eq!(pal.get_colors(), &[Color { r: 1, g: 2, b: 3 }][..]);
}

#[test]
fn decode_trims_name() {
    let text = "GIMP Palette\nName:   spaced out  \nColumns: 0\n";
    let pal = Palette::from_gpl_string(text).unwrap();
    assert_eq!(pal.get_name(), "spaced out");
}

#[test]
fn decode_empty_name_line() {
    let text = "GIMP Palette\nName:\nColumns: 0\n";
    let pal = Palette::from_gpl_string(text).unwrap();
    assert_eq!(pal.get_name(), "");
}

#[test]
fn decode_column_count_not_enforced() {
    let text = "GIMP Palette\nName: x\nColumns: 99\n1 1 1\n";
    let pal = Palette::from_gpl_string(text).unwrap();
    assert_eq!(pal.get_colors().len(), 1);
}

#[test]
fn decode_extra_tokens_ignored() {
    let text = "GIMP Palette\nName: x\nColumns: 1\n1 2 3 a color comment\n";
    let pal = Palette::from_gpl_string(text).unwrap();
    assert_eq!(pal.get_colors(), &[Color { r: 1, g: 2, b: 3 }][..]);
}

#[test]
fn decode_plus_signed_channels() {
    let text = "GIMP Palette\nName: x\nColumns: 1\n+1 +2 +3\n";
    let pal = Palette::from_gpl_string(text).unwrap();
    assert_eq!(pal.get_colors(), &[Color { r: 1, g: 2, b: 3 }][..]);
}

#[test]
fn decode_channel_overflow() {
    let text = "GIMP Palette\nName: x\nColumns: 1\n256 0 0\n";
    let (line_num, val) = invalid_data(Palette::from_gpl_string(text).unwrap_err());
    assert_eq!(line_num, 4);
    assert_eq!(val, "256 0 0");
}

#[test]
fn decode_negative_channel() {
    let text = "GIMP Palette\nName: x\nColumns: 1\n-1 0 0\n";
    let (line_num, _) = invalid_data(Palette::from_gpl_string(text).unwrap_err());
    assert_eq!(line_num, 4);
}

#[test]
fn decode_too_few_tokens() {
    let text = "GIMP Palette\nName: x\nColumns: 1\n255 0\n";
    let (line_num, val) = invalid_data(Palette::from_gpl_string(text).unwrap_err());
    assert_eq!(line_num, 4);
    assert_eq!(val, "255 0");
}

#[test]
fn round_trip_simple() {
    let colors = vec![
        Color { r: 255, g: 0, b: 0 },
        Color { r: 0, g: 255, b: 0 },
        Color { r: 0, g: 0, b: 255 },
    ];
    let pal = Palette::new("trip".to_string(), colors.clone()).unwrap();
    let back = Palette::from_gpl_string(&pal.to_gpl_string()).unwrap();
    assert_eq!(back.get_name(), "trip");
    assert_eq!(back.get_colors(), &colors[..]);
}

#[test]
fn round_trip_duplicates_and_boundaries() {
    let colors = vec![
        Color { r: 0, g: 0, b: 0 },
        Color { r: 255, g: 255, b: 255 },
        Color { r: 0, g: 0, b: 0 },
        Color { r: 255, g: 0, b: 255 },
        Color { r: 0, g: 0, b: 0 },
    ];
    let pal = Palette::new("dupes".to_string(), colors.clone()).unwrap();
    let back = Palette::from_gpl_string(&pal.to_gpl_string()).unwrap();
    assert_eq!(back.get_name(), "dupes");
    assert_eq!(back.get_colors(), &colors[..]);
}

#[test]
fn round_trip_trims_name() {
    let colors = vec![Color { r: 1, g: 1, b: 1 }];
    let pal = Palette::new("  padded name \t".to_string(), colors.clone()).unwrap();
    let back = Palette::from_gpl_string(&pal.to_gpl_string()).unwrap();
    assert_eq!(back.get_name(), "padded name");
    assert_eq!(back.get_colors(), &colors[..]);
}
