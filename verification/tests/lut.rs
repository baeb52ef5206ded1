use oximedia::lut::{GpuLutHints, LutCache, LutColorSpace, LutFormat, LutInterpolation, LutSize};

#[test]
fn lut_size_values_and_round_trip() {
    assert_eq!(LutSize::Size17.as_usize(), 17);
    assert_eq!(LutSize::Size33.as_usize(), 33);
    assert_eq!(LutSize::Size65.as_usize(), 65);
    assert_eq!(LutSize::Custom(9).as_usize(), 9);
    assert_eq!(LutSize::from_usize(33), LutSize::Size33);
    assert_eq!(LutSize::from_usize(9), LutSize::Custom(9));
    for n in [0usize, 1, 16, 17, 18, 33, 64, 65, 129, usize::MAX] {
        assert_eq!(LutSize::from_usize(n).as_usize(), n);
    }
    for s in [LutSize::Size17, LutSize::Size33, LutSize::Size65, LutSize::Custom(2)] {
        assert_eq!(LutSize::from_usize(s.as_usize()), s);
    }
    // a custom size spelled like a named one comes back named
    assert_eq!(LutSize::from_usize(LutSize::Custom(17).as_usize()), LutSize::Size17);
}

#[test]
fn formats_from_extensions() {
    assert_eq!(LutFormat::from_extension("cube"), Some(LutFormat::Cube));
    assert_eq!(LutFormat::from_extension("CUBE"), Some(LutFormat::Cube));
    assert_eq!(LutFormat::from_extension("3DL"), Some(LutFormat::Threedl));
    assert_eq!(LutFormat::from_extension("Csp"), Some(LutFormat::Csp));
    assert_eq!(LutFormat::from_extension("csv"), Some(LutFormat::Csv));
    assert_eq!(LutFormat::from_extension("txt"), None);
    assert_eq!(LutFormat::from_extension(""), None);
    assert_eq!(LutFormat::from_extension("cubes"), None);
}

#[test]
fn lut_defaults() {
    assert_eq!(LutInterpolation::default(), LutInterpolation::Trilinear);
    assert_eq!(LutSize::default(), LutSize::Size33);
    assert_eq!(LutColorSpace::default(), LutColorSpace::Linear);
    let h = GpuLutHints::default();
    assert!(h.use_texture_3d && !h.prefer_compute && h.cache_on_gpu);
}

#[test]
fn cache_returns_what_was_inserted() {
    let mut cache: LutCache<u32> = LutCache::new(3);
    assert_eq!(cache.get("a.cube"), None);
    cache.insert("a.cube", 1);
    cache.insert("b.3dl", 2);
    assert_eq!(cache.get("a.cube"), Some(&1));
    assert_eq!(cache.get("b.3dl"), Some(&2));
    assert_eq!(cache.stats().entries, 2);
    assert_eq!(cache.stats().max_size, 3);
}

#[test]
fn full_cache_evicts_the_oldest() {
    let mut cache: LutCache<u32> = LutCache::new(2);
    cache.insert("a", 1);
    cache.insert("b", 2);
    cache.insert("c", 3);
    assert_eq!(cache.get("a"), None);
    assert_eq!(cache.get("b"), Some(&2));
    assert_eq!(cache.get("c"), Some(&3));
    assert_eq!(cache.stats().entries, 2);
}

#[test]
fn reinserting_a_path_replaces_its_lut() {
    let mut cache: LutCache<u32> = LutCache::new(2);
    cache.insert("a", 1);
    cache.insert("b", 2);
    cache.insert("a", 5);
    assert_eq!(cache.get("a"), Some(&5));
    assert_eq!(cache.get("b"), Some(&2));
    assert_eq!(cache.stats().entries, 2);
}

#[test]
fn cache_of_size_zero_keeps_the_last() {
    let mut cache: LutCache<u32> = LutCache::new(0);
    cache.insert("a", 1);
    cache.insert("b", 2);
    assert_eq!(cache.get("a"), None);
    assert_eq!(cache.get("b"), Some(&2));
    assert_eq!(cache.stats().entries, 1);
}

#[test]
fn cleared_cache_is_empty_with_default_size() {
    let mut cache: LutCache<u32> = LutCache::default();
    assert_eq!(cache.stats().max_size, 10);
    cache.insert("a", 1);
    cache.clear();
    assert_eq!(cache.get("a"), None);
    assert_eq!(cache.stats().entries, 0);
}
