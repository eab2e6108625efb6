use quantize_image::color::{approximate_n, canonicalize, Color};
use quantize_image::k_means::Grouped;

#[test]
fn color_as_rgb5a3_test() {
    let test_data = [
        ([0xFF, 0x00, 0x08, 0xFF], [0xFF, 0x00, 0x08, 0xFF]),
        ([0xED, 0x04, 0x05, 0xED], [0xEF, 0x00, 0x08, 0xFF]),
        ([0xEC, 0x08, 0x09, 0xEC], [0xEE, 0x00, 0x11, 0xDB]),
    ];
    for &(test_data, expected_data) in &test_data {
        let test_color = Color::new(test_data[0], test_data[1], test_data[2], test_data[3]);
        let expected = Color::new(
            expected_data[0],
            expected_data[1],
            expected_data[2],
            expected_data[3],
        );
        let result = test_color.as_rgb5a3();
        assert_eq!(expected, result);
    }
}

#[test]
fn color_distance_test() {
    let test_data = [
        ([0xFF, 0xFF, 0xFF, 0xFF], [0x00, 0x00, 0x00, 0xFF], 12_684_751_875),
        ([0xFF, 0xFF, 0xFF, 0xFF], [0x00, 0x00, 0x00, 0x00], 12_684_751_875),
    ];
    for &(first_color, second_color, expected_distance) in &test_data {
        let first = Color::new(first_color[0], first_color[1], first_color[2], first_color[3]);
        let second = Color::new(
            second_color[0],
            second_color[1],
            second_color[2],
            second_color[3],
        );
        let result = first.distance_to(&second);
        assert_eq!(expected_distance, result);
    }
}

#[test]
fn color_mean_test() {
    let test_data = [
        ([([0xFF, 0x80, 0x00, 0xFF], 1), ([0x00, 0x00, 0x00, 0xFF], 1)], [0x80, 0x40, 0x00, 0xFF]),
        ([([0xFF, 0xFF, 0xFF, 0x00], 1), ([0x80, 0x80, 0x80, 0x00], 1)], [0x00, 0x00, 0x00, 0x00]),
        ([([0xFF, 0x80, 0x00, 0x80], 2), ([0x00, 0x00, 0x00, 0xFF], 1)], [0x80, 0x40, 0x00, 0xAA]),
    ];
    for &(colors, expected_data) in &test_data {
        let nodes: Vec<_> = colors
            .iter()
            .map(|&(color_data, count)| Grouped {
                data: Color::new(color_data[0], color_data[1], color_data[2], color_data[3]),
                count: count,
            })
            .collect();
        let expected_mean = Color::new(
            expected_data[0],
            expected_data[1],
            expected_data[2],
            expected_data[3],
        );
        let result = Grouped::<Color>::mean_of(&nodes);
        assert_eq!(expected_mean, result);
    }
}

#[test]
fn approximate_is_idempotent_for_every_byte_and_depth() {
    for n in [3u8, 4, 5] {
        for v in 0..=255u8 {
            let once = approximate_n(v, n);
            let twice = approximate_n(once, n);
            assert_eq!(once, twice);
        }
    }
}

#[test]
fn approximate_keeps_range_endpoints() {
    for n in [3u8, 4, 5] {
        assert_eq!(approximate_n(0, n), 0);
        assert_eq!(approximate_n(255, n), 255);
    }
}

#[test]
fn distance_is_symmetric_and_zero_on_self() {
    let samples = [
        Color::new(0, 0, 0, 0),
        Color::new(255, 255, 255, 255),
        Color::new(0xED, 0x04, 0x05, 0xED),
        Color::new(1, 2, 3, 4),
        Color::new(200, 100, 50, 25),
    ];
    for a in &samples {
        assert_eq!(a.distance_to(a), 0);
        for b in &samples {
            assert_eq!(a.distance_to(b), b.distance_to(a));
        }
    }
}

#[test]
fn packing_is_deterministic() {
    let c1 = Color::new(0xED, 0x04, 0x05, 0xED);
    let c2 = Color::new(0xED, 0x04, 0x05, 0xED);
    assert_eq!(c1.as_rgb5a3(), c2.as_rgb5a3());
}

#[test]
fn canonicalize_zeroes_transparent_colors_only() {
    assert_eq!(canonicalize(Color::new(7, 8, 9, 0)), Color::new(0, 0, 0, 0));
    assert_eq!(canonicalize(Color::new(7, 8, 9, 1)), Color::new(7, 8, 9, 1));
    assert_eq!(canonicalize(Color::new(0, 0, 0, 0)), Color::new(0, 0, 0, 0));
}
