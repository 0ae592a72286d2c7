use dither::color::Color as Rgb;
use dither::color_cube::ColorCube;
use dither::color_cube::LatticeColor;
use dither::dither::ConfigurationError;
use dither::quantize::PaletteEntry;
use dither::quantize::PaletteTable;
use dither::quantize::Quantizer;

#[derive(Eq, Hash, Debug, PartialEq, Copy, Clone)]
enum Color {
    White,
    Black,
    Red,
    Green,
    Blue,
    Yellow,
    Magenta,
    Cyan,
}

impl LatticeColor for Color {
    fn eq_color(&self, other: &Self) -> bool {
        *self == *other
    }
}

fn eight_corner_cube() -> ColorCube<Color, 2> {
    ColorCube::from(&|r: u8, g: u8, b: u8| match (r > 0x80, g > 0x80, b > 0x80) {
        (true, true, true) => Color::White,
        (false, false, false) => Color::Black,
        (true, false, false) => Color::Red,
        (false, true, false) => Color::Green,
        (false, false, true) => Color::Blue,
        (true, true, false) => Color::Yellow,
        (true, false, true) => Color::Magenta,
        (false, true, true) => Color::Cyan,
    })
    .unwrap()
}

#[test]
fn test_cube() {
    let color_cube = eight_corner_cube();

    assert_eq!(color_cube.lattice_at(0, 0, 0), Color::Black);
    assert_eq!(color_cube.lattice_at(1, 1, 1), Color::White);
    assert_eq!(color_cube.lattice_at(1, 0, 0), Color::Red);
    assert_eq!(color_cube.lattice_at(0, 1, 0), Color::Green);
    assert_eq!(color_cube.lattice_at(0, 0, 1), Color::Blue);
    assert_eq!(color_cube.lattice_at(1, 1, 0), Color::Yellow);
    assert_eq!(color_cube.lattice_at(1, 0, 1), Color::Magenta);
    assert_eq!(color_cube.lattice_at(0, 1, 1), Color::Cyan);
}

#[test]
fn test_cube_index() {
    let color_cube = eight_corner_cube();

    assert_eq!(color_cube.lookup(Rgb::new(0x00, 0x00, 0x00)), Color::Black);
    assert_eq!(color_cube.lookup(Rgb::new(0xff, 0xff, 0xff)), Color::White);
    assert_eq!(color_cube.lookup(Rgb::new(0xff, 0x00, 0x00)), Color::Red);
    assert_eq!(color_cube.lookup(Rgb::new(0x00, 0xff, 0x00)), Color::Green);
    assert_eq!(color_cube.lookup(Rgb::new(0x00, 0x00, 0xff)), Color::Blue);
    assert_eq!(color_cube.lookup(Rgb::new(0xff, 0xff, 0x00)), Color::Yellow);
    assert_eq!(color_cube.lookup(Rgb::new(0xff, 0x00, 0xff)), Color::Magenta);
    assert_eq!(color_cube.lookup(Rgb::new(0x00, 0xff, 0xff)), Color::Cyan);
}

#[test]
fn test_error() {
    let color_cube = eight_corner_cube();

    assert_eq!(
        color_cube.with_error(Rgb::new(0x01, 0x01, 0x01)),
        (Color::Black, (1, 1, 1))
    );
    assert_eq!(
        color_cube.with_error(Rgb::new(0xf0, 0xf0, 0xf0)),
        (Color::White, (-15, -15, -15))
    );
}

#[test]
fn cube_error_is_color_minus_centroid() {
    // With a 2-cell lattice each palette color is hit by exactly one
    // sample, so its centroid is that corner and the error follows it.
    let color_cube = eight_corner_cube();
    assert_eq!(
        color_cube.with_error(Rgb::new(0x20, 0xff, 0x00)),
        (Color::Green, (0x20, 0xff - 0xff, 0x00))
    );
}

#[derive(Debug, PartialEq, Eq, Copy, Clone)]
struct Pair(u8, u8);

impl LatticeColor for Pair {
    fn eq_color(&self, other: &Self) -> bool {
        *self == *other
    }
}

#[test]
fn cube_rejects_oversized_palette() {
    // A 16-cell lattice swept through a function of two channels yields
    // 256 distinct colors, more than the centroid map holds.
    let result: Result<ColorCube<Pair, 16>, ConfigurationError> =
        ColorCube::from(&|r: u8, g: u8, _b: u8| Pair(r, g));
    assert_eq!(result.err(), Some(ConfigurationError::PaletteTooLarge));
}

#[test]
fn cube_accepts_small_palette() {
    let result: Result<ColorCube<Pair, 16>, ConfigurationError> =
        ColorCube::from(&|r: u8, _g: u8, _b: u8| Pair(r >> 7, 0));
    assert!(result.is_ok());
}

fn grey_table() -> PaletteTable<Rgb> {
    // The palette of the dithering scenario: black and light grey. The
    // centroids sit above the palette colors on purpose; a lattice sweep
    // of this palette would place both lower.
    PaletteTable {
        entries: vec![
            PaletteEntry {
                value: Rgb::new(0x00, 0x00, 0x00),
                color: Rgb::new(0x00, 0x00, 0x00),
                centroid: Rgb::new(0xAA, 0xAA, 0xAA),
            },
            PaletteEntry {
                value: Rgb::new(0xAA, 0xAA, 0xAA),
                color: Rgb::new(0xAA, 0xAA, 0xAA),
                centroid: Rgb::new(0xFF, 0xFF, 0xFF),
            },
        ],
    }
}

#[test]
fn palette_table_with_error_round_trip() {
    let table = grey_table();
    // 100 is nearer to the grey entry; the error is measured against that
    // entry's centroid, not against the entry itself.
    let (value, err) = table.with_error(Rgb::new(100, 100, 100));
    assert_eq!(value, Rgb::new(0xAA, 0xAA, 0xAA));
    assert_eq!(err, (100 - 0xFF, 100 - 0xFF, 100 - 0xFF));

    // 60 is nearer to black.
    let (value, err) = table.with_error(Rgb::new(60, 60, 60));
    assert_eq!(value, Rgb::new(0x00, 0x00, 0x00));
    assert_eq!(err, (60 - 0xAA, 60 - 0xAA, 60 - 0xAA));
}

#[test]
fn cube_neighbours_sweep_order() {
    let color_cube = eight_corner_cube();
    assert_eq!(
        color_cube.neighbours(0, 0, 0),
        vec![
            Color::Black,
            Color::Blue,
            Color::Green,
            Color::Cyan,
            Color::Red,
            Color::Magenta,
            Color::Yellow,
            Color::White,
        ]
    );
}
