use dither::accumulator::Accumulator;
use dither::color::Color;
use dither::dither::dither;
use dither::dither::ConfigurationError;
use dither::dither::DitherEngine;
use dither::quantize::PaletteEntry;
use dither::quantize::PaletteTable;
use dither::vector::Fixed16;
use dither::vector::Vector;

fn entry(value: Color, centroid: Color) -> PaletteEntry<Color> {
    PaletteEntry { value, color: value, centroid }
}

fn grey(v: u8) -> Color {
    Color::new(v, v, v)
}

/// The black-and-grey palette of the dithering scenario. The centroids
/// are chosen above the palette colors so that the accumulated error
/// drifts downward and crosses the palette midpoint at the expected
/// pixels; a lattice sweep of this palette would place both centroids
/// lower.
fn scenario_palette() -> PaletteTable<Color> {
    PaletteTable {
        entries: vec![
            entry(grey(0x00), grey(0xAA)),
            entry(grey(0xAA), grey(0xFF)),
        ],
    }
}

/// An exact palette: every centroid is the palette color itself, so
/// quantization of a palette color leaves no error.
fn exact_palette() -> PaletteTable<Color> {
    PaletteTable {
        entries: vec![
            entry(grey(0x00), grey(0x00)),
            entry(grey(0xAA), grey(0xAA)),
        ],
    }
}

fn floyd_steinberg(width: isize) -> Vec<(isize, u8)> {
    vec![(1, 7), (width - 1, 3), (width, 5), (width + 1, 1)]
}

#[test]
fn three_by_three_grey_scenario() {
    let source = vec![grey(0xCC); 9];
    let out = dither(&scenario_palette(), 3, floyd_steinberg(3), source, grey(0)).unwrap();
    let g = grey(0xAA);
    let b = grey(0x00);
    assert_eq!(out, vec![g, g, g, g, g, b, g, b, b]);
}

#[test]
fn exact_palette_image_is_reproduced() {
    let source = vec![
        grey(0x00),
        grey(0xAA),
        grey(0xAA),
        grey(0x00),
        grey(0xAA),
        grey(0x00),
    ];
    let out = dither(&exact_palette(), 2, floyd_steinberg(2), source.clone(), grey(0)).unwrap();
    assert_eq!(out, source);
}

#[test]
fn uniform_zero_error_image_stays_uniform() {
    let source = vec![grey(0xAA); 7];
    let out = dither(&exact_palette(), 1, vec![(1, 12), (2, 4)], source, grey(0)).unwrap();
    assert_eq!(out, vec![grey(0xAA); 7]);
}

#[test]
fn zero_width_is_a_configuration_error() {
    let r = dither(&exact_palette(), 0, vec![(1, 7)], vec![grey(1)], grey(0));
    assert_eq!(r.err(), Some(ConfigurationError::ZeroWidth));
}

#[test]
fn kernel_offset_outside_window_is_a_configuration_error() {
    let r = dither(&exact_palette(), 3, vec![(0, 7)], vec![grey(1)], grey(0));
    assert_eq!(r.err(), Some(ConfigurationError::KernelOffsetOutOfRange));
    let r = dither(&exact_palette(), 3, vec![(5, 7)], vec![grey(1)], grey(0));
    assert_eq!(r.err(), Some(ConfigurationError::KernelOffsetOutOfRange));
}

#[test]
fn empty_image_dithers_to_nothing() {
    let out = dither(&exact_palette(), 3, floyd_steinberg(3), vec![], grey(0)).unwrap();
    assert_eq!(out, vec![]);
}

#[test]
fn short_source_is_padded_with_the_fill_color() {
    // Two pixels of an exact palette color with a window of four slots:
    // the priming pads with the fill color, and the two pixels come back
    // unchanged.
    let source = vec![grey(0xAA), grey(0x00)];
    let out = dither(&exact_palette(), 3, floyd_steinberg(3), source.clone(), grey(0)).unwrap();
    assert_eq!(out, source);
}

#[test]
fn engine_steps_match_the_batch_run() {
    let source = vec![grey(0xCC); 9];
    let palette = scenario_palette();
    let mut engine =
        DitherEngine::new(3, floyd_steinberg(3), source.clone(), grey(0)).unwrap();
    let mut streamed = Vec::new();
    while engine.remaining() > 0 {
        streamed.push(engine.step(&palette));
    }
    let batch = dither(&palette, 3, floyd_steinberg(3), source, grey(0)).unwrap();
    assert_eq!(streamed, batch);
}

#[test]
fn kernel_shares_lose_only_truncation() {
    // The canonical kernel's numerators sum to 16: diffusing an error of
    // 100 hands out 43 + 18 + 31 + 6 = 98, within 4 units of the error.
    let e = Accumulator::new((100, 100, 100));
    let shares: Vec<i32> = [7, 3, 5, 1]
        .iter()
        .map(|n| e.mul(*n).shr(4).r)
        .collect();
    assert_eq!(shares, vec![43, 18, 31, 6]);
    let total: i32 = shares.iter().sum();
    assert_eq!(total, 98);
    assert!(100 - 4 < total && total <= 100);
}

#[test]
fn accumulator_shift_rounds_toward_negative_infinity() {
    let e = Accumulator::new((-51, -51, -51));
    let scaled = e.mul(7).shr(4);
    assert_eq!((scaled.r, scaled.g, scaled.b), (-23, -23, -23));
}

#[test]
fn accumulator_narrowing_saturates() {
    let a = Accumulator::new((300, -5, 128));
    assert_eq!(a.to_color(), Color::new(255, 0, 128));
}

#[test]
fn accumulator_arithmetic() {
    let mut a = Accumulator::new((10, 20, 30));
    a.add_assign(Accumulator::new((1, 2, 3)));
    assert_eq!((a.r, a.g, a.b), (11, 22, 33));
    let d = a.sub(Accumulator::new((1, 2, 3)));
    assert_eq!((d.r, d.g, d.b), (10, 20, 30));
    let m = d.mul(3);
    assert_eq!((m.r, m.g, m.b), (30, 60, 90));
    let s = m.shr(1);
    assert_eq!((s.r, s.g, s.b), (15, 30, 45));
    let f = Accumulator::from_color(Color::new(1, 2, 3));
    assert_eq!((f.r, f.g, f.b), (1, 2, 3));
}

#[test]
fn fixed_point_arithmetic() {
    let three = Fixed16::from_num(3);
    let eight = Fixed16::from_num(8);
    assert_eq!(three.add(eight), Fixed16::from_num(11));
    assert_eq!(three.sub(eight), Fixed16::from_num(-5));
    assert_eq!(three.mul(eight), Fixed16::from_num(24));
    assert_eq!(three.abs_diff(eight), Fixed16::from_num(5));
    assert_eq!(eight.abs_diff(three), Fixed16::from_num(5));
    // 0.75 * 8 == 6
    let three_quarters = Fixed16::from_bits(0xC000);
    assert_eq!(three_quarters.mul(eight), Fixed16::from_num(6));
    // Fixed-point products round toward negative infinity.
    let minus_one = Fixed16::from_num(-1);
    let half = Fixed16::from_bits(0x8000);
    assert_eq!(minus_one.mul(half).bits, -0x8000);
}

#[test]
fn vector_componentwise_arithmetic() {
    let v = Vector::from_num(Fixed16::from_num(2));
    assert_eq!(v.0, Fixed16::from_num(2));
    assert_eq!(v.1, Fixed16::from_num(2));
    assert_eq!(v.2, Fixed16::from_num(2));

    let mut w = Vector::from_rgb888(Color::new(1, 2, 3));
    w.add_assign(Vector::from_num(Fixed16::from_num(1)));
    assert_eq!(w.0, Fixed16::from_num(2));
    assert_eq!(w.1, Fixed16::from_num(3));
    assert_eq!(w.2, Fixed16::from_num(4));

    let p = w.mul(Fixed16::from_num(2));
    assert_eq!(p.0, Fixed16::from_num(4));

    let d = p.sub(Vector::from_num(Fixed16::from_num(4)));
    assert_eq!(d.0, Fixed16::from_num(0));
    assert_eq!(d.1, Fixed16::from_num(2));
    assert_eq!(d.2, Fixed16::from_num(4));
}
