use rolling_dual_crc::{DualCrc, RollingDualCrc, Zeros};

#[test]
fn empty_input_checksums_are_zero() {
    assert_eq!(DualCrc::checksum(b""), (0x00000000, 0x0000000000000000));
}

#[test]
fn single_byte_checksums() {
    assert_eq!(DualCrc::checksum(b"a"), (0xC1D04330, 0x330284772E652B05));
}

#[test]
fn hello_world_checksums() {
    assert_eq!(
        DualCrc::checksum(b"Hello, world!"),
        (0xC8A106E5, 0x8E59E143665877C4)
    );
}

#[test]
fn check_values() {
    assert_eq!(
        DualCrc::checksum(b"123456789"),
        (0xE3069283, 0x995DC9BBDF1939FA)
    );
}

#[test]
fn streaming_in_two_parts() {
    let mut crc = DualCrc::new();
    crc.update(b"Hello");
    assert_eq!(crc.get(), (0x81D90E1B, 0x51CF5C3BC87BACC8));
    crc.update(b", world!");
    assert_eq!(crc.get(), (0xC8A106E5, 0x8E59E143665877C4));
}

#[test]
fn append_matches_one_shot_at_every_split() {
    let data: Vec<u8> = (0..100u32).map(|i| (i * 37 + 11) as u8).collect();
    let whole = DualCrc::checksum(&data);
    for split in 0..=data.len() {
        let mut crc = DualCrc::new();
        crc.update(&data[..split]);
        crc.update(&data[split..]);
        assert_eq!(crc.get(), whole);
    }
}

#[test]
fn zeros_padding_to_4096() {
    let data = b"Hello, world!";
    let mut crc = DualCrc::new();
    crc.update(data);
    crc.update_with_zeros(&Zeros::new(4096 - data.len()));
    assert_eq!(crc.get32(), 0xCED9AB00);
}

#[test]
fn zeros_match_zero_bytes() {
    for n in [0usize, 1, 7, 8, 9, 63, 64, 100, 1000, 4099] {
        let mut fast = DualCrc::new();
        fast.update(b"prefix");
        fast.update_with_zeros(&Zeros::new(n));
        let mut slow = DualCrc::new();
        slow.update(b"prefix");
        slow.update(&vec![0u8; n]);
        assert_eq!(fast.get(), slow.get());
    }
}

#[test]
fn zero_zeros_is_identity() {
    let mut crc = DualCrc::new();
    crc.update(b"abc");
    let before = crc.get();
    crc.update_with_zeros(&Zeros::new(0));
    assert_eq!(crc.get(), before);
}

#[test]
fn zeros_compose_additively() {
    let mut twice = DualCrc::new();
    twice.update(b"xyz");
    twice.update_with_zeros(&Zeros::new(300));
    twice.update_with_zeros(&Zeros::new(4000));
    let mut once = DualCrc::new();
    once.update(b"xyz");
    once.update_with_zeros(&Zeros::new(4300));
    assert_eq!(twice.get(), once.get());
}

#[test]
fn get_is_inverted_register() {
    let mut crc = DualCrc::new();
    assert_eq!(crc.get(), (0, 0));
    crc.update(b"abc");
    assert_eq!(crc.get(), (crc.get32(), crc.get64()));
    assert_eq!(crc.get(), (0x364B3FB7, 0x2CD8094A1A277627));
}

#[test]
fn large_zero_run() {
    let mut crc = DualCrc::new();
    crc.update_with_zeros(&Zeros::new(1usize << 31));
    assert_eq!(crc.get(), (0x527D5351, 0xF15374CE0B53F6C1));
}

#[test]
fn zero_run_of_u32_max_bytes() {
    let mut crc = DualCrc::new();
    crc.update_with_zeros(&Zeros::new((1usize << 32) - 1));
    assert_eq!(crc.get(), (0x527D5351, 0xFE7E66DF9D7120E1));
}

#[test]
fn rolling_abc_de() {
    let mut crc = RollingDualCrc::new(b"abc");
    assert_eq!(crc.get32(), 0x364B3FB7);
    crc.roll(b'd');
    assert_eq!(crc.get32(), 0x1B0D0358);
    crc.roll(b'e');
    assert_eq!(crc.get32(), 0x364ADB60);
}

#[test]
fn rolling_matches_checksum_of_window() {
    let seed = b"window";
    let rest = b"slides along these bytes, 0123456789";
    let mut all = seed.to_vec();
    all.extend_from_slice(rest);
    let mut crc = RollingDualCrc::new(seed);
    for (k, b) in rest.iter().enumerate() {
        crc.roll(*b);
        let w = &all[k + 1..k + 1 + seed.len()];
        assert_eq!(crc.get(), DualCrc::checksum(w));
    }
    let mut sliced = RollingDualCrc::new(seed);
    sliced.roll_slice(rest);
    assert_eq!(sliced.get(), crc.get());
}

#[test]
fn rolling_window_of_one_byte() {
    let mut crc = RollingDualCrc::new(b"x");
    crc.roll(b'x');
    assert_eq!(crc.get(), DualCrc::checksum(b"x"));
    crc.roll(0);
    assert_eq!(crc.get(), DualCrc::checksum(&[0u8]));
}

#[test]
fn rolling_same_byte_in_and_out() {
    let mut crc = RollingDualCrc::new(b"aab");
    crc.roll(b'a');
    assert_eq!(crc.get(), DualCrc::checksum(b"aba"));
}

#[test]
fn rolling_all_zero_window() {
    let mut crc = RollingDualCrc::new(&[0u8; 16]);
    crc.roll(0);
    assert_eq!(crc.get(), DualCrc::checksum(&[0u8; 16]));
    crc.roll(1);
    let mut expected = [0u8; 16];
    expected[15] = 1;
    assert_eq!(crc.get(), DualCrc::checksum(&expected));
}

#[test]
fn default_is_new() {
    assert_eq!(DualCrc::default().get(), DualCrc::new().get());
}
