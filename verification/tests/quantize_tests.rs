use std::collections::HashSet;

use quantize_image::color::Color;
use quantize_image::quantize::{quantize, quantize_image, QuantizeError};

fn distinct_values(entries: &Vec<(Color, Color)>) -> usize {
    let mut colors = HashSet::new();
    for &(_, value) in entries {
        colors.insert(value);
    }
    colors.len()
}

/// 300 distinct colors: 256 grayscale-like reds plus 44 more with a green
/// offset, all opaque.
fn three_hundred_distinct_colors() -> Vec<Color> {
    let mut pixels = Vec::new();
    for i in 0..300usize {
        let r = (i % 256) as u8;
        let g = ((i / 256) * 50) as u8;
        pixels.push(Color::new(r, g, 0, 255));
    }
    pixels
}

#[test]
fn has_256_colors() {
    let pixels = three_hundred_distinct_colors();
    let quantization_map = quantize_image(&pixels);
    assert_eq!(distinct_values(&quantization_map.entries), 256);
}

#[test]
fn rgb_is_zero_if_alpha_is() {
    let mut pixels = three_hundred_distinct_colors();
    pixels.push(Color::new(5, 5, 5, 0));
    pixels.push(Color::new(0, 0, 0, 0));
    let quantization_map = quantize_image(&pixels);
    for &(_, value) in &quantization_map.entries {
        if value.a == 0 {
            assert_eq!(value, Color::new(0, 0, 0, 0));
        }
    }
}

#[test]
fn transparent_color_maps_to_zero() {
    let pixels = vec![
        Color::new(5, 5, 5, 0),
        Color::new(10, 20, 30, 255),
        Color::new(10, 20, 30, 255),
    ];
    let quantization_map = quantize_image(&pixels);
    assert_eq!(
        quantization_map.lookup(&Color::new(5, 5, 5, 0)),
        Some(Color::new(0, 0, 0, 0))
    );
    assert_eq!(
        quantization_map.lookup(&Color::new(10, 20, 30, 255)),
        Some(Color::new(10, 20, 30, 255))
    );
    assert_eq!(quantization_map.lookup(&Color::new(1, 1, 1, 1)), None);
}

#[test]
fn small_palette_is_identity() {
    let mut pixels = Vec::new();
    for i in 0..200usize {
        let c = Color::new(i as u8, (i * 3) as u8, (i * 7) as u8, 255);
        pixels.push(c);
        pixels.push(c);
    }
    let quantization_map = quantize_image(&pixels);
    assert_eq!(quantization_map.entries.len(), 200);
    for &(key, value) in &quantization_map.entries {
        assert_eq!(key, value);
    }
}

#[test]
fn empty_input_yields_empty_map() {
    let pixels: Vec<Color> = Vec::new();
    let quantization_map = quantize_image(&pixels);
    assert_eq!(quantization_map.entries.len(), 0);
    assert_eq!(quantization_map.len(), 0);
}

#[test]
fn zero_target_count_is_rejected() {
    let pixels = vec![Color::new(1, 2, 3, 255)];
    let result = quantize(&pixels, 0, false);
    match result {
        Err(error) => assert_eq!(error, QuantizeError::InvalidTargetCount),
        Ok(_) => panic!("a target count of zero must be rejected"),
    }
}

#[test]
fn palette_bound_holds_for_small_targets() {
    let pixels = three_hundred_distinct_colors();
    let quantization_map = quantize(&pixels, 16, false).unwrap();
    assert!(distinct_values(&quantization_map.entries) <= 16);
    assert_eq!(quantization_map.entries.len(), 300);
}

#[test]
fn packed_values_are_rgb5a3_representable() {
    let mut pixels = three_hundred_distinct_colors();
    pixels.push(Color::new(0xED, 0x04, 0x05, 0xED));
    let quantization_map = quantize(&pixels, 256, true).unwrap();
    for &(_, value) in &quantization_map.entries {
        if value.a == 0 {
            assert_eq!(value, Color::new(0, 0, 0, 0));
        } else {
            // a packed, canonicalized value repacks to itself
            assert_eq!(value.as_rgb5a3(), value);
        }
    }
}

#[test]
fn packing_applies_to_small_palettes_too() {
    let pixels = vec![Color::new(0xED, 0x04, 0x05, 0xED)];
    let quantization_map = quantize(&pixels, 256, true).unwrap();
    assert_eq!(
        quantization_map.lookup(&Color::new(0xED, 0x04, 0x05, 0xED)),
        Some(Color::new(0xEF, 0x00, 0x08, 0xFF))
    );
}

#[test]
fn keys_are_exactly_the_distinct_input_colors() {
    let pixels = vec![
        Color::new(1, 1, 1, 255),
        Color::new(2, 2, 2, 255),
        Color::new(1, 1, 1, 255),
    ];
    let quantization_map = quantize_image(&pixels);
    let keys: Vec<Color> = quantization_map.entries.iter().map(|e| e.0).collect();
    assert_eq!(keys, vec![Color::new(1, 1, 1, 255), Color::new(2, 2, 2, 255)]);
}
