use papyrus_pdf::display::{normalize_rotate, premultiply_if_needed};
use papyrus_pdf::encoding::{
    build_standard_encoding, build_win_ansi_encoding, glyph_name_to_unicode,
};
use papyrus_pdf::image::{cmyk_to_rgb, ColorSpaceKind};

#[test]
fn ascii_range_is_identity() {
    assert_eq!(build_win_ansi_encoding()[b'A' as usize], Some('A'));
    assert_eq!(build_standard_encoding()[b'z' as usize], Some('z'));
}

#[test]
fn win_ansi_high_range_maps_to_latin1() {
    assert_eq!(build_win_ansi_encoding()[0xE9], Some('\u{00E9}'));
    assert_eq!(build_win_ansi_encoding()[0x80], Some('\u{20AC}'));
}

#[test]
fn codes_without_a_character_have_none() {
    let win = build_win_ansi_encoding();
    for code in [0usize, 0x1F, 0x7F, 0x81, 0x8D, 0x8F, 0x90, 0x9D] {
        assert_eq!(win[code], None);
    }
    let standard = build_standard_encoding();
    assert_eq!(standard[0x27], Some('\u{2019}'));
    assert_eq!(standard[0x60], Some('\u{2018}'));
    assert_eq!(standard[0xE9], None);
}

#[test]
fn glyph_names_resolve() {
    assert_eq!(glyph_name_to_unicode("eacute"), Some('\u{00E9}'));
    assert_eq!(glyph_name_to_unicode("space"), Some(' '));
    assert_eq!(glyph_name_to_unicode("uni00E9"), Some('\u{00E9}'));
    assert_eq!(glyph_name_to_unicode("nonexistentglyph"), None);
}

#[test]
fn glyph_names_with_numbers() {
    assert_eq!(glyph_name_to_unicode("u1F600"), Some('\u{1F600}'));
    assert_eq!(glyph_name_to_unicode("uniD800"), None);
    assert_eq!(glyph_name_to_unicode("u12"), None);
    assert_eq!(glyph_name_to_unicode("u"), Some('u'));
    assert_eq!(glyph_name_to_unicode("quoteright"), Some('\''));
    assert_eq!(glyph_name_to_unicode("backslash"), Some('\\'));
    assert_eq!(glyph_name_to_unicode("\u{E9}"), None);
}

#[test]
fn cmyk_black_is_rgb_black_and_white_is_white() {
    assert_eq!(cmyk_to_rgb(0, 0, 0, 255), (0, 0, 0));
    assert_eq!(cmyk_to_rgb(0, 0, 0, 0), (255, 255, 255));
}

#[test]
fn cmyk_is_rounded_to_the_nearest() {
    for c in 0..=255u8 {
        for k in 0..=255u8 {
            let r = (1.0 - c as f32 / 255.0) * (1.0 - k as f32 / 255.0);
            assert_eq!(cmyk_to_rgb(c, 0, 0, k).0, (r * 255.0).round() as u8);
        }
    }
}

#[test]
fn color_space_kind_component_counts() {
    assert_eq!(ColorSpaceKind::Gray.components(), 1);
    assert_eq!(ColorSpaceKind::Rgb.components(), 3);
    assert_eq!(ColorSpaceKind::Cmyk.components(), 4);
}

#[test]
fn premultiply_if_needed_skips_copy_when_opaque() {
    let rgba = vec![10, 20, 30, 255, 40, 50, 60, 255];
    let out = premultiply_if_needed(&rgba);
    assert!(matches!(out, std::borrow::Cow::Borrowed(_)));
    assert_eq!(&*out, rgba.as_slice());
}

#[test]
fn premultiply_if_needed_scales_color_by_alpha() {
    let rgba = vec![255u8, 0, 0, 128];
    let out = premultiply_if_needed(&rgba);
    assert!(matches!(out, std::borrow::Cow::Owned(_)));
    assert_eq!(out[0], (255u32 * 128 / 255) as u8);
    assert_eq!(out[1], 0);
    assert_eq!(out[2], 0);
    assert_eq!(out[3], 128);
}

#[test]
fn rotations_go_to_the_nearest_quarter() {
    assert_eq!(normalize_rotate(0), 0);
    assert_eq!(normalize_rotate(44), 0);
    assert_eq!(normalize_rotate(45), 90);
    assert_eq!(normalize_rotate(-90), 270);
    assert_eq!(normalize_rotate(540), 180);
    assert_eq!(normalize_rotate(i32::MIN), 270);
}

#[test]
fn names_made_of_a_number_or_a_letter_mean_their_character() {
    for c in ['A', '\u{E9}', '\u{4E2D}', '\u{1F600}'] {
        assert_eq!(glyph_name_to_unicode(&format!("uni{:04X}", c as u32)), Some(c));
        assert_eq!(glyph_name_to_unicode(&format!("u{:04X}", c as u32)), Some(c));
    }
    for b in 0u8..128 {
        let c = b as char;
        assert_eq!(glyph_name_to_unicode(&c.to_string()), Some(c));
    }
    assert_eq!(glyph_name_to_unicode("u041"), None);
    assert_eq!(glyph_name_to_unicode("uniD800"), None);
}
