use dither::ring_buffer::RingBuffer;
use dither::vector::Fixed16;
use dither::windowing_convolution::WindowingConvolution;
use dither::wrapping_vec::WrappingVec;

#[test]
fn test_wrapping_vec() {
    let a: Vec<i16> = vec![1, 2, 3, 4, 5, 6];
    let mut wv: WrappingVec<i16> = WrappingVec::new(4, a, vec![], 0);

    assert_eq!(wv.next(), Some(1));
    assert_eq!(wv.next(), Some(2));
    assert_eq!(wv.next(), Some(3));
    assert_eq!(wv.next(), Some(4));
    assert_eq!(wv.next(), Some(5));
    assert_eq!(wv.next(), Some(1));

    wv.push(9);
    assert_eq!(wv.next(), Some(2));
    assert_eq!(wv.next(), Some(3));
    assert_eq!(wv.next(), Some(4));
    assert_eq!(wv.next(), Some(5));
    assert_eq!(wv.next(), Some(9));
    assert_eq!(wv.next(), Some(2));
}

#[test]
fn test_wrapping_vec_convolution() {
    let a: Vec<i16> = vec![1, 2, 3, 4, 5, 6];
    let mut wv: WrappingVec<i16> = WrappingVec::new(4, a, vec![((1, 0), (2, 1))], 0);

    assert_eq!(wv.next(), Some(1));
    assert_eq!(wv.next(), Some(2));
    assert_eq!(wv.next(), Some(3));
    assert_eq!(wv.next(), Some(4));
    assert_eq!(wv.next(), Some(5));
    assert_eq!(wv.next(), Some(1));

    wv.apply_kernel(10);

    assert_eq!(wv.next(), Some(2));
    assert_eq!(wv.next(), Some(23));
    assert_eq!(wv.next(), Some(4));
    assert_eq!(wv.next(), Some(5));
    assert_eq!(wv.next(), Some(6));
    assert_eq!(wv.next(), Some(2));
}

#[test]
fn test_wrapping_vec_x_range() {
    // Every offset wraps modulo the window size, so the backward offset
    // lands on a slot ahead of the cursor instead of being dropped: each
    // sweep adds 70 / 16 = 4 to three wrapped slots.
    let a: Vec<i16> = vec![1, 2, 3, 4, 5, 6, 7, 8, 9, 10];
    let kernel = vec![((0, 0), (7, 16)), ((4, 0), (7, 16)), ((-4, 0), (7, 16))];
    let mut wv: WrappingVec<i16> = WrappingVec::new(4, a, kernel, 0);

    assert_eq!(wv.next(), Some(1));
    wv.apply_kernel(10);

    assert_eq!(wv.next(), Some(6));
    wv.apply_kernel(10);

    assert_eq!(wv.next(), Some(11));
    wv.apply_kernel(10);

    assert_eq!(wv.next(), Some(12));
    wv.apply_kernel(10);
}

#[test]
fn test_wrapping_vec_y_range() {
    let a: Vec<i16> = vec![1, 2, 3, 4, 5, 6, 7, 8, 9, 10];
    let kernel = vec![((0, 1), (7, 16))];
    let mut wv: WrappingVec<i16> = WrappingVec::new(4, a, kernel, 0);

    assert_eq!(wv.next(), Some(1));
    println!("{:?}", wv);
}

#[test]
fn horizon_share_is_divided() {
    // An offset that wraps onto the horizon slot takes the same scaled,
    // divided share as any other slot: 16 * 16 / 16 = 16, not 256.
    let a: Vec<i16> = vec![0, 0, 0, 0, 0, 9];
    let mut wv: WrappingVec<i16> = WrappingVec::new(4, a, vec![((4, 0), (16, 16))], 0);
    wv.apply_kernel(16);
    assert_eq!(wv.next(), Some(9));
    assert_eq!(wv.next(), Some(0));
    assert_eq!(wv.next(), Some(0));
    assert_eq!(wv.next(), Some(0));
    assert_eq!(wv.next(), Some(16));
}

#[test]
fn sweep_pads_with_the_fill_value_when_the_source_is_exhausted() {
    // Priming consumes the whole source; the next sweep pulls the fill
    // value as the new horizon instead of failing.
    let a: Vec<i16> = vec![1, 2, 3];
    let mut wv: WrappingVec<i16> = WrappingVec::new(2, a, vec![], 7);
    wv.apply_kernel(5);
    assert_eq!(wv.next(), Some(7));
    assert_eq!(wv.next(), Some(2));
    assert_eq!(wv.next(), Some(3));
}

#[test]
fn ring_buffer_reads_writes_and_pushes() {
    let source = vec![10u8, 20, 30];
    let mut rb: RingBuffer<u8> = RingBuffer::new(3, &source, 0);
    assert_eq!(rb.read(0), 10);
    assert_eq!(rb.read(1), 20);
    assert_eq!(rb.read(2), 30);
    assert_eq!(rb.read(3), 0);

    rb.write(1, 21);
    assert_eq!(rb.read(1), 21);

    rb.push(40);
    assert_eq!(rb.read(0), 21);
    assert_eq!(rb.read(1), 30);
    assert_eq!(rb.read(2), 0);
    assert_eq!(rb.read(3), 40);
}

fn quantize_ten(a: Fixed16) -> (Fixed16, Fixed16) {
    let greys: [Fixed16; 5] = [
        Fixed16::from_num(0x00),
        Fixed16::from_num(0x40),
        Fixed16::from_num(0x80),
        Fixed16::from_num(0xC0),
        Fixed16::from_num(0xF0),
    ];
    let mut value = greys[0];
    let mut best = greys[0].abs_diff(a);
    for g in greys.iter().skip(1) {
        let d = g.abs_diff(a);
        if d.bits < best.bits {
            best = d;
            value = *g;
        }
    }
    (value, Fixed16::from_num(10))
}

#[test]
fn test_windowing_convolution_x_range() {
    let a: Vec<Fixed16> = vec![
        Fixed16::from_num(1),
        Fixed16::from_num(30),
        Fixed16::from_num(3),
        Fixed16::from_num(90),
        Fixed16::from_num(10),
        Fixed16::from_num(6),
        Fixed16::from_num(7),
        Fixed16::from_num(8),
    ];
    let kernel = vec![((1, 0), Fixed16::from_num(3))];
    let mut wv: WindowingConvolution<Fixed16, _> =
        WindowingConvolution::new(4, a, kernel, quantize_ten);

    assert_eq!(wv.next(), Some(Fixed16::from_num(0)));
    assert_eq!(wv.next(), Some(Fixed16::from_num(64)));
    assert_eq!(wv.next(), Some(Fixed16::from_num(64)));
    assert_eq!(wv.next(), Some(Fixed16::from_num(128)));

    assert_eq!(wv.next(), Some(Fixed16::from_num(0)));
    assert_eq!(wv.next(), Some(Fixed16::from_num(64)));
    assert_eq!(wv.next(), Some(Fixed16::from_num(64)));
    assert_eq!(wv.next(), Some(Fixed16::from_num(64)));

    assert_eq!(wv.next(), None);
}

#[test]
fn test_windowing_convolution_x_2_range() {
    let a: Vec<Fixed16> = vec![
        Fixed16::from_num(1),
        Fixed16::from_num(30),
        Fixed16::from_num(3),
        Fixed16::from_num(90),
        Fixed16::from_num(10),
        Fixed16::from_num(6),
        Fixed16::from_num(7),
        Fixed16::from_num(8),
    ];
    let kernel = vec![((2, 0), Fixed16::from_num(3))];
    let mut wv: WindowingConvolution<Fixed16, _> =
        WindowingConvolution::new(4, a, kernel, quantize_ten);

    assert_eq!(wv.next(), Some(Fixed16::from_num(0)));
    assert_eq!(wv.next(), Some(Fixed16::from_num(0)));
    assert_eq!(wv.next(), Some(Fixed16::from_num(64)));
    assert_eq!(wv.next(), Some(Fixed16::from_num(128)));

    assert_eq!(wv.next(), Some(Fixed16::from_num(0)));
    assert_eq!(wv.next(), Some(Fixed16::from_num(0)));
    assert_eq!(wv.next(), Some(Fixed16::from_num(64)));
    assert_eq!(wv.next(), Some(Fixed16::from_num(64)));

    assert_eq!(wv.next(), None);
}
