use rolling_dual_crc::tables::{crc32_slices, crc64_slices, pow256_32_table, pow256_64_table};
use rolling_dual_crc::DualCrc;

#[test]
fn crc32_table_checksums() {
    let mut crc = DualCrc::new();
    for inner in crc32_slices() {
        for x in inner {
            crc.update(&x.to_le_bytes());
        }
    }
    assert_eq!(crc.get(), (0x3F85CEA3, 0xC9BC02D60DD946D2));
}

#[test]
fn crc64_table_checksums() {
    let mut crc = DualCrc::new();
    for inner in crc64_slices() {
        for x in inner {
            crc.update(&x.to_le_bytes());
        }
    }
    assert_eq!(crc.get(), (0x3D345BF2, 0x014ED9B63590C55E));
}

#[test]
fn pow256_32_table_checksums() {
    let mut crc = DualCrc::new();
    for x in pow256_32_table() {
        crc.update(&x.to_le_bytes());
    }
    assert_eq!(crc.get(), (0xB3683DC1, 0xAB7DB56545FE470F));
}

#[test]
fn pow256_64_table_checksums() {
    let mut crc = DualCrc::new();
    for x in pow256_64_table() {
        crc.update(&x.to_le_bytes());
    }
    assert_eq!(crc.get(), (0x49BABB74, 0x0F7DE3B7F5984AEF));
}

#[test]
fn crc32_row0_matches_bitwise_steps() {
    let t = crc32_slices();
    for b in 0..256usize {
        let mut crc = b as u32;
        for _ in 0..8 {
            crc = (crc >> 1) ^ (0u32.wrapping_sub(crc & 1) & 0x82F63B78);
        }
        assert_eq!(t[0][b], crc);
        for k in 0..7 {
            assert_eq!(t[k + 1][b], (t[k][b] >> 8) ^ t[0][(t[k][b] & 0xFF) as usize]);
        }
    }
}

#[test]
fn crc64_row0_matches_bitwise_steps() {
    let t = crc64_slices();
    for b in 0..256usize {
        let mut crc = b as u64;
        for _ in 0..8 {
            crc = (crc >> 1) ^ (0u64.wrapping_sub(crc & 1) & 0xC96C5795D7870F42);
        }
        assert_eq!(t[0][b], crc);
        for k in 0..7 {
            assert_eq!(t[k + 1][b], (t[k][b] >> 8) ^ t[0][(t[k][b] & 0xFF) as usize]);
        }
    }
}

#[test]
fn pow256_tables_start_at_256() {
    assert_eq!(pow256_32_table()[0], 256);
    assert_eq!(pow256_64_table()[0], 256);
    assert_eq!(pow256_32_table().len(), 64);
    assert_eq!(pow256_64_table().len(), 64);
}
