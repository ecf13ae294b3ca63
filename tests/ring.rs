use rebytes::ring::{next_position, step_back};
use rebytes::{Config, Region, SlabRing};

fn ring(stripe: usize, slab: usize, cap: Option<usize>) -> SlabRing {
    let mut config = Config::default()
        .minimum_allocation_size(stripe)
        .batch_allocation_size(slab);
    if let Some(cap) = cap {
        config = config.memory_limit(cap);
    }
    config.finish().unwrap()
}

fn spans(ring: &SlabRing, k: usize) -> Vec<(usize, usize)> {
    ring.slab(k).free_spans().iter().map(|s| (s.first, s.stripes)).collect()
}

#[test]
fn single_slab_best_fit() {
    let mut r = ring(16, 64, Some(64));
    assert_eq!(r.config().maximum_allocation_size, 64);
    for n in [1usize, 2, 8, 16] {
        let (k, reg) = r.allocate(n).unwrap();
        assert_eq!(k, 0);
        assert_eq!(reg.len, 16);
    }
    assert!(r.allocate(16).is_none());
    assert_eq!(r.slab_count(), 1);
}

#[test]
fn ring_coalescing_then_large_request() {
    let mut r = ring(16, 64, Some(64));
    let regs: Vec<(usize, Region)> = [1usize, 2, 8, 16].iter().map(|&n| r.allocate(n).unwrap()).collect();
    r.free(regs[1].0, regs[1].1);
    r.free(regs[3].0, regs[3].1);
    r.free(regs[2].0, regs[2].1);
    assert_eq!(spans(&r, 0), vec![(1, 3)]);
    assert_eq!(r.allocate(48).unwrap(), (0, Region { offset: 16, len: 48 }));
}

#[test]
fn full_reclamation() {
    let mut r = ring(16, 64, Some(64));
    let regs: Vec<(usize, Region)> = [1usize, 2, 8, 16].iter().map(|&n| r.allocate(n).unwrap()).collect();
    for (k, reg) in regs {
        r.free(k, reg);
    }
    assert_eq!(spans(&r, 0), vec![(0, 4)]);
    // A whole slab is at the bypass size, so the ring declines it.
    assert!(r.allocate(64).is_none());
    assert_eq!(r.allocate(63).unwrap(), (0, Region { offset: 0, len: 64 }));
}

#[test]
fn growth_under_cap() {
    let mut r = ring(16, 64, Some(128));
    for _ in 0..4 {
        assert_eq!(r.allocate(16).unwrap().0, 0);
    }
    assert_eq!(r.allocate(16).unwrap().0, 1);
    assert_eq!(r.slab_count(), 2);
    for _ in 0..3 {
        assert!(r.allocate(16).is_some());
    }
    assert!(r.allocate(16).is_none());
    assert_eq!(r.slab_count(), 2);
}

#[test]
fn cap_not_a_multiple_of_slab_size() {
    let mut r = ring(16, 64, Some(100));
    for _ in 0..8 {
        assert!(r.allocate(16).is_some());
    }
    assert!(r.allocate(16).is_none());
    assert_eq!(r.slab_count(), 2);
}

#[test]
fn slab_count_never_exceeds_cap() {
    let mut r = ring(16, 64, Some(192));
    for _ in 0..20 {
        let _ = r.allocate(16);
        assert!(r.slab_count() <= 3);
    }
    assert_eq!(r.slab_count(), 3);
}

#[test]
fn no_cap_keeps_growing() {
    let mut r = ring(16, 64, None);
    for _ in 0..10 {
        assert!(r.allocate(40).is_some());
    }
    assert_eq!(r.slab_count(), 10);
}

#[test]
fn request_at_bypass_size_is_declined() {
    let mut r = Config::default().maximum_allocation_size(100).finish().unwrap();
    assert!(r.allocate(100).is_none());
    assert_eq!(r.slab_count(), 0);
    assert!(!r.config().serves_from_slabs(100));
}

#[test]
fn request_just_under_bypass_size_is_served() {
    let mut r = Config::default().maximum_allocation_size(100).finish().unwrap();
    let (k, reg) = r.allocate(99).unwrap();
    assert_eq!(k, 0);
    assert_eq!(reg.len, 112);
    assert!(r.config().serves_from_slabs(99));
}

#[test]
fn request_over_slab_size_is_declined() {
    let mut r = ring(16, 64, None);
    assert!(r.allocate(65).is_none());
    assert!(r.allocate(1 << 20).is_none());
    assert_eq!(r.slab_count(), 0);
}

#[test]
fn laps_rotate_start() {
    let mut r = ring(16, 64, None);
    assert!(r.iter().is_empty());
    for _ in 0..3 {
        assert!(r.new_slab().is_some());
    }
    assert_eq!(r.iter(), vec![2, 0, 1]);
    assert_eq!(r.iter(), vec![1, 2, 0]);
    assert_eq!(r.iter(), vec![0, 1, 2]);
    assert_eq!(r.iter(), vec![2, 0, 1]);
}

#[test]
fn rotation_spreads_requests() {
    let mut r = ring(16, 1024, None);
    for _ in 0..3 {
        r.new_slab().unwrap();
    }
    let mut served = [0usize; 3];
    for _ in 0..150 {
        let (k, reg) = r.allocate(16).unwrap();
        served[k] += 1;
        r.free(k, reg);
    }
    assert_eq!(r.slab_count(), 3);
    assert!(served.iter().all(|&n| n > 0));
}

#[test]
fn new_slab_respects_cap() {
    let mut r = ring(16, 64, Some(128));
    assert_eq!(r.new_slab(), Some(0));
    assert_eq!(r.new_slab(), Some(1));
    assert_eq!(r.new_slab(), None);
}

#[test]
fn cursor_steps_back() {
    assert_eq!(step_back(0, 3), 2);
    assert_eq!(step_back(2, 3), 1);
    assert_eq!(step_back(0, 1), 0);
}

#[test]
fn positions_of_a_lap() {
    assert_eq!(next_position(None, 0, 0), None);
    assert_eq!(next_position(None, 1, 3), Some(1));
    assert_eq!(next_position(Some(1), 1, 3), Some(2));
    assert_eq!(next_position(Some(2), 1, 3), Some(0));
    assert_eq!(next_position(Some(0), 1, 3), None);
}
