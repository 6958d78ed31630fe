use transmitwave_core::fhss::get_band_for_symbol;

#[test]
fn test_get_band_for_symbol_deterministic() {
    let band1 = get_band_for_symbol(5, 3);
    let band2 = get_band_for_symbol(5, 3);
    assert_eq!(band1, band2);
}

#[test]
fn test_get_band_for_symbol_different_indices() {
    let bands: Vec<_> = (0..10).map(|i| get_band_for_symbol(i, 3)).collect();
    let unique_bands: std::collections::HashSet<_> = bands.into_iter().collect();
    assert!(unique_bands.len() >= 2);
}

#[test]
fn test_get_band_for_symbol_within_range() {
    for i in 0..100 {
        let band = get_band_for_symbol(i, 3);
        assert!(band < 3);
    }
}

fn reference_band(symbol_index: usize, num_bands: usize) -> usize {
    let mut lfsr: u16 = (symbol_index as u16).wrapping_add(0x6359);
    for _ in 0..8 {
        let lsb = lfsr & 1;
        lfsr >>= 1;
        if lsb == 1 {
            lfsr ^= 0x8016;
        }
    }
    lfsr as usize % num_bands
}

#[test]
fn band_out_of_range_counts_and_exact_values() {
    assert_eq!(get_band_for_symbol(7, 0), 0);
    assert_eq!(get_band_for_symbol(7, 1), 0);
    assert_eq!(get_band_for_symbol(7, 5), 0);
    // 0x6359 shifted eight times through the register gives 0xC57E.
    assert_eq!(get_band_for_symbol(0, 2), 0xC57E % 2);
    assert_eq!(get_band_for_symbol(0, 3), 0xC57E % 3);
    assert_eq!(get_band_for_symbol(0, 4), 0xC57E % 4);
    for i in [0usize, 1, 2, 1000, 65535, 65536, 123456] {
        for n in 2..=4 {
            assert_eq!(get_band_for_symbol(i, n), reference_band(i, n));
        }
    }
}
