use leghorn::rounding::{round_up_atom, round_up_u32, round_up_u64, round_up_usize};

#[test]
fn round_up_exact_values() {
    assert_eq!(round_up_u32(0, 8), 0);
    assert_eq!(round_up_u32(1, 8), 8);
    assert_eq!(round_up_u32(8, 8), 8);
    assert_eq!(round_up_u32(9, 8), 16);
    assert_eq!(round_up_u64(44, 32), 64);
    assert_eq!(round_up_u64(64, 32), 64);
    assert_eq!(round_up_usize(100 * 1024, 4096), 102_400);
    assert_eq!(round_up_usize(100 * 1024 + 1, 4096), 102_400 + 4096);
    assert_eq!(round_up_atom(98, 32), 128);
}
