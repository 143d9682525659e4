use riddle::noise::{hash, splat_hash, splat_seed};

#[test]
fn streams_are_fixed() {
    assert_eq!(hash(0, 0), 0);
    assert_eq!(hash(7, 0), 0xA977_C379);
    assert_eq!(hash(7, 1), 0x3D3D_E592);
    assert_eq!(hash(42, 5), 0xBF2C_4EEA);
    assert_eq!(hash(u32::MAX, u32::MAX), 0xE48B_0E54);
    for i in 0..100 {
        assert_eq!(hash(99, i), splat_hash(99, i));
    }
}

#[test]
fn each_place_has_its_own_seed() {
    assert_eq!(splat_seed(0, 0), 0);
    assert_eq!(splat_seed(100, 200), 0xE2FC_FE39);
    assert_eq!(splat_seed(-1, -1), 0x4AB1_3ABA);
    assert_eq!(splat_seed(810, 1080), 0x0A73_D10A);
}
