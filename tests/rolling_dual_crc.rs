use rolling_dual_crc::{DualCrc, RollingDualCrc};

#[test]
fn new_get_get32_get64() {
    let crc = RollingDualCrc::new(b"123456789");

    // "check" values from "Catalogue of parametrised CRC algorithms"
    assert_eq!(crc.get(), (0xE3069283, 0x995DC9BBDF1939FA));
    assert_eq!(crc.get32(), 0xE3069283);
    assert_eq!(crc.get64(), 0x995DC9BBDF1939FA);
}

#[test]
fn roll_1_3() {
    let mut crc = RollingDualCrc::new(b"a");
    assert_eq!(crc.get(), (0xC1D04330, 0x330284772E652B05));
    crc.roll(b'b');
    assert_eq!(crc.get(), (0xD280B0C4, 0x74A8FE9E8582D431));
    crc.roll(b'c');
    assert_eq!(crc.get(), (0x20EB33C7, 0xC786B22086258B5E));
}

#[test]
fn roll_3_5() {
    let mut crc = RollingDualCrc::new(b"abc");
    assert_eq!(crc.get(), (0x364B3FB7, 0x2CD8094A1A277627));
    crc.roll(b'd');
    assert_eq!(crc.get(), (0x1B0D0358, 0x0557EA6AA1219070));
    crc.roll(b'e');
    assert_eq!(crc.get(), (0x364ADB60, 0xB534844A0AD06B72));
    crc.roll(b'f');
    assert_eq!(crc.get(), (0x4248D48A, 0x1B4421C40BF0643A));
    crc.roll(b'g');
    assert_eq!(crc.get(), (0x21856D6E, 0x6A5A06867C4C4589));
    crc.roll(b'h');
    assert_eq!(crc.get(), (0x861A094E, 0xB47462AF38541FB8));
}

/// Deterministic pseudo-random bytes (xorshift64).
fn noise(len: usize, mut state: u64) -> Vec<u8> {
    let mut out = Vec::with_capacity(len);
    for _ in 0..len {
        state ^= state << 13;
        state ^= state >> 7;
        state ^= state << 17;
        out.push((state >> 24) as u8);
    }
    out
}

#[test]
fn roll_1k() {
    const WINDOW_SIZE: usize = 1024;

    // pseudo-random data; each window's checksums are checked against the
    // one-shot checksums of the same bytes
    let input = noise(3 * WINDOW_SIZE + 12, 0x9E37_79B9_7F4A_7C15);

    let mut crc = RollingDualCrc::new(&input[..WINDOW_SIZE]);
    for pos in 0..input.len() - WINDOW_SIZE {
        if pos != 0 {
            crc.roll(input[pos + WINDOW_SIZE - 1]);
        }
        let window = &input[pos..pos + WINDOW_SIZE];
        assert_eq!(crc.get32(), DualCrc::checksum32(window));
        assert_eq!(crc.get64(), DualCrc::checksum64(window));
    }
}

#[test]
fn roll_slice_empty() {
    let mut crc = RollingDualCrc::new(b"abc");
    assert_eq!(crc.get(), (0x364B3FB7, 0x2CD8094A1A277627));
    crc.roll_slice(&[]);
    assert_eq!(crc.get(), (0x364B3FB7, 0x2CD8094A1A277627));
}

#[test]
fn roll_slice_smaller_than_window() {
    let mut crc = RollingDualCrc::new(b"abcde");
    assert_eq!(crc.get(), (0xC450D697, 0x040BDF58FB0895F2));
    crc.roll_slice(b"fgh");
    assert_eq!(crc.get(), (0xB5546D6F, 0xEA828BEC74913B8F));
    crc.roll_slice(b"ijk");
    assert_eq!(crc.get(), (0x3289B67D, 0x9E7D97E675837DE2));
    crc.roll_slice(b"lmn");
    assert_eq!(crc.get(), (0x399B0EF4, 0x67906E3C3EC81347));
}

#[test]
fn roll_slice_same_size_than_window() {
    let mut crc = RollingDualCrc::new(b"abc");
    assert_eq!(crc.get(), (0x364B3FB7, 0x2CD8094A1A277627));
    crc.roll_slice(b"def");
    assert_eq!(crc.get(), (0x4248D48A, 0x1B4421C40BF0643A));
    crc.roll_slice(b"ghi");
    assert_eq!(crc.get(), (0x364912CE, 0x1435316184304F5D));
}

#[test]
fn roll_slice_larger_than_window() {
    let mut crc = RollingDualCrc::new(b"abc");
    assert_eq!(crc.get(), (0x364B3FB7, 0x2CD8094A1A277627));
    crc.roll_slice(b"defgh");
    assert_eq!(crc.get(), (0x861A094E, 0xB47462AF38541FB8));
    crc.roll_slice(b"ijklm");
    assert_eq!(crc.get(), (0x19D67ED2, 0x38309BD2C6060C2E));
}
