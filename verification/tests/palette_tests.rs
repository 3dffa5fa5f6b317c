//! Tests for palette construction, rendering and encoding.

use gimp_palette::create_string_from_colors;
use gimp_palette::Color;
use gimp_palette::NewPaletteError;
use gimp_palette::Palette;

#[test]
fn colorless_palette_err() {
    assert!(Palette::new("Failure".to_string(), vec![]).is_err());
}

#[test]
fn colors_1() {
    let colors = vec![Color { r: 255, g: 0, b: 0 }];

    assert_eq!(create_string_from_colors(&colors), "255   0   0\n");
}

#[test]
fn colors_3() {
    let colors = vec![
        Color { r: 255, g: 0, b: 0 },
        Color { r: 0, g: 255, b: 0 },
        Color { r: 0, g: 0, b: 255 },
    ];

    assert_eq!(
        create_string_from_colors(&colors),
        "255   0   0\n  0 255   0\n  0   0 255\n"
    );
}

#[test]
fn colorless_palette_err_is_no_colors() {
    let err = Palette::new("Empty".to_string(), vec![]).unwrap_err();
    assert!(matches!(err, NewPaletteError::NoColors));
}

#[test]
fn new_keeps_name_and_color_order() {
    let colors = vec![
        Color { r: 1, g: 2, b: 3 },
        Color { r: 4, g: 5, b: 6 },
    ];
    let pal = Palette::new("Ordered".to_string(), colors.clone()).unwrap();
    assert_eq!(pal.get_name(), "Ordered");
    assert_eq!(pal.get_colors(), &colors[..]);
}

#[test]
fn render_single_color() {
    let s = Color { r: 255, g: 0, b: 0 }.to_string();
    assert_eq!(s, "255   0   0");
    assert_eq!(s.len(), 11);
}

#[test]
fn render_pads_each_width() {
    assert_eq!(Color { r: 0, g: 7, b: 42 }.to_string(), "  0   7  42");
    assert_eq!(Color { r: 100, g: 10, b: 9 }.to_string(), "100  10   9");
}

#[test]
fn encode_whole_palette() {
    let colors = vec![
        Color { r: 255, g: 0, b: 0 },
        Color { r: 0, g: 255, b: 0 },
    ];
    let pal = Palette::new("test".to_string(), colors).unwrap();
    assert_eq!(
        pal.to_gpl_string(),
        "GIMP Palette\nName: test\nColumns: 2\n255   0   0\n  0 255   0\n"
    );
}

#[test]
fn encode_empty_name() {
    let colors = vec![Color { r: 9, g: 9, b: 9 }];
    let pal = Palette::new(String::new(), colors).unwrap();
    assert_eq!(
        pal.to_gpl_string(),
        "GIMP Palette\nName: \nColumns: 1\n  9   9   9\n"
    );
}
