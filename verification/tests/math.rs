use jkl::math::{R8U, Rgb565, Rgb8U, Rgba8U};

#[test]
fn rgb565_bytes_roundtrip() {
    for bits in [0u16, 1, 0x1234, 0xABCD, 0xFFFF, 0x8000] {
        let c = Rgb565::from_bits(bits);
        assert_eq!(Rgb565::from_bytes(c.bytes()), c);
    }
    assert_eq!(Rgb565::from_bits(0x1234).bytes(), [0x34, 0x12]);
}

#[test]
fn rgb565_channels() {
    let c = Rgb565::new(31, 63, 31);
    assert_eq!(c.bits(), 0xFFFF);
    assert_eq!((c.r(), c.g(), c.b()), (31, 63, 31));

    let c = Rgb565::new(1, 2, 3);
    assert_eq!(c.bits(), (1 << 11) | (2 << 5) | 3);
    assert_eq!((c.r(), c.g(), c.b()), (1, 2, 3));

    let mut c = Rgb565::new(0, 0, 0);
    c.set_r(7);
    c.set_g(8);
    c.set_b(9);
    assert_eq!((c.r(), c.g(), c.b()), (7, 8, 9));
}

#[test]
fn rgb565_wrapping_arithmetic() {
    let a = Rgb565::new(30, 60, 30);
    let b = Rgb565::new(5, 10, 5);
    let sum = Rgb565::wrapping_add(a, b);
    assert_eq!((sum.r(), sum.g(), sum.b()), ((30 + 5) % 32, (60 + 10) % 64, (30 + 5) % 32));
    let diff = Rgb565::wrapping_sub(b, a);
    assert_eq!(
        (diff.r(), diff.g(), diff.b()),
        ((5 + 32 - 30) % 32, (10 + 64 - 60) % 64, (5 + 32 - 30) % 32)
    );
}

#[test]
fn rgb565_interleaved_roundtrip() {
    for bits in [0u16, 0xFFFF, 0x1234, 0x8421] {
        let c = Rgb565::from_bits(bits);
        assert_eq!(Rgb565::from_bits_interleaved(c.bits_interleaved()), c);
    }
}

#[test]
fn byte_colors() {
    let c = Rgb8U::new(1, 2, 3);
    assert_eq!(c.bytes(), [1, 2, 3]);
    assert_eq!(Rgb8U::from_bytes([1, 2, 3]), c);
    assert_eq!(c.with_alpha(9), Rgba8U::new(1, 2, 3, 9));
    assert_eq!(c.into_opaque(), Rgba8U::new(1, 2, 3, 255));

    let s = Rgb8U::wrapping_add(Rgb8U::new(250, 250, 250), Rgb8U::new(10, 10, 10));
    assert_eq!(s, Rgb8U::new(4, 4, 4));
    let d = Rgb8U::wrapping_sub(Rgb8U::new(1, 1, 1), Rgb8U::new(2, 2, 2));
    assert_eq!(d, Rgb8U::new(255, 255, 255));

    let a = Rgba8U::new(1, 2, 3, 4);
    assert_eq!(a.bytes(), [1, 2, 3, 4]);
    assert_eq!(a.rgb(), Rgb8U::new(1, 2, 3));

    let r = R8U::new(200);
    assert_eq!(r.wrapping_add(R8U::new(100)).bits(), 44);
    assert_eq!(r.wrapping_sub(R8U::new(201)).bits(), 255);
}
