use rebytes::Config;

#[test]
fn default_settings() {
    let c = Config::default();
    assert_eq!(c.minimum_allocation_size, 16);
    assert_eq!(c.maximum_allocation_size, 16 * 1024);
    assert_eq!(c.memory_limit, None);
    assert_eq!(c.slab_size, 256 * 1024);
}

#[test]
fn builders_set_fields() {
    let c = Config::default()
        .minimum_allocation_size(4)
        .maximum_allocation_size(1000)
        .memory_limit(4096)
        .batch_allocation_size(2048);
    assert_eq!(c.minimum_allocation_size, 4);
    assert_eq!(c.maximum_allocation_size, 1000);
    assert_eq!(c.memory_limit, Some(4096));
    assert_eq!(c.slab_size, 2048);
}

#[test]
fn finish_clamps_bypass_size() {
    let ring = Config::default().batch_allocation_size(1024).finish().unwrap();
    assert_eq!(ring.config().maximum_allocation_size, 1024);
    let ring = Config::default().finish().unwrap();
    assert_eq!(ring.config().maximum_allocation_size, 16 * 1024);
    assert_eq!(Config::default().batch_allocation_size(10).clamped().maximum_allocation_size, 10);
}

#[test]
fn finish_rejects_oversized_slab() {
    assert!(Config::default().batch_allocation_size(usize::MAX).finish().is_err());
    assert!(Config::default().batch_allocation_size(isize::MAX as usize).finish().is_ok());
}

#[test]
fn cap_test_handles_overflow() {
    let c = Config::default().memory_limit(usize::MAX).batch_allocation_size(usize::MAX / 2 + 1);
    assert!(c.may_add_slab(1));
    assert!(!c.may_add_slab(2));
    assert!(Config::default().may_add_slab(usize::MAX));
    let c = Config::default().memory_limit(128).batch_allocation_size(64);
    assert!(c.may_add_slab(1));
    assert!(!c.may_add_slab(2));
}
