use rebytes::{Region, Slab, Span};

fn spans(slab: &Slab) -> Vec<(usize, usize)> {
    slab.free_spans().iter().map(|s| (s.first, s.stripes)).collect()
}

#[test]
fn slab_basic_tests() {
    let mut slab = Slab::new(64, 16);

    // Four blocks, each rounded up to 16 bytes.
    let alloc1 = slab.allocate(1).unwrap();
    let alloc2 = slab.allocate(2).unwrap();
    let alloc3 = slab.allocate(8).unwrap();
    let alloc4 = slab.allocate(16).unwrap();

    assert!(slab.allocate(16).is_none(), "slab should be full");

    // Free and reallocate
    slab.free(alloc1);
    let alloc1 = slab.allocate(16).unwrap();

    // Discontiguous frees
    slab.free(alloc2);
    slab.free(alloc4);
    slab.free(alloc3);

    // Now 48 bytes fit.
    let alloc2 = slab.allocate(48).unwrap();

    // Free everything
    slab.free(alloc2);
    slab.free(alloc1);

    // The entire slab
    let alloc1 = slab.allocate(64).unwrap();
    slab.free(alloc1);
}

#[test]
fn new_slab_is_one_span() {
    let slab = Slab::new(64, 16);
    assert_eq!(spans(&slab), vec![(0, 4)]);
    assert_eq!(slab.minimum_allocation_size(), 16);
}

#[test]
fn remainder_bytes_unused() {
    let mut slab = Slab::new(70, 16);
    assert_eq!(spans(&slab), vec![(0, 4)]);
    assert!(slab.allocate(65).is_none());
    assert_eq!(slab.allocate(64).unwrap(), Region { offset: 0, len: 64 });
}

#[test]
fn slab_smaller_than_stripe_has_no_spans() {
    let mut slab = Slab::new(8, 16);
    assert!(slab.free_spans().is_empty());
    assert!(slab.allocate(0).is_none());
}

#[test]
fn lengths_round_up_to_stripes() {
    let mut slab = Slab::new(256, 16);
    assert_eq!(slab.allocate(1).unwrap(), Region { offset: 0, len: 16 });
    assert_eq!(slab.allocate(17).unwrap(), Region { offset: 16, len: 32 });
    assert_eq!(slab.allocate(32).unwrap(), Region { offset: 48, len: 32 });
    assert_eq!(slab.allocate(0).unwrap(), Region { offset: 80, len: 0 });
    assert_eq!(spans(&slab), vec![(5, 11)]);
}

#[test]
fn coalescing_collapses_to_one_span() {
    let mut slab = Slab::new(64, 16);
    let a1 = slab.allocate(1).unwrap();
    let a2 = slab.allocate(2).unwrap();
    let a3 = slab.allocate(8).unwrap();
    let a4 = slab.allocate(16).unwrap();
    assert_eq!(a1, Region { offset: 0, len: 16 });
    assert_eq!(a4, Region { offset: 48, len: 16 });
    slab.free(a2);
    slab.free(a4);
    assert_eq!(spans(&slab), vec![(1, 1), (3, 1)]);
    slab.free(a3);
    assert_eq!(spans(&slab), vec![(1, 3)]);
    assert_eq!(slab.allocate(48).unwrap(), Region { offset: 16, len: 48 });
    assert!(slab.free_spans().is_empty());
    slab.free(a1);
    assert_eq!(spans(&slab), vec![(0, 1)]);
}

#[test]
fn best_fit_prefers_smallest_residual() {
    let mut slab = Slab::new(160, 16);
    let held: Vec<Region> = (0..10).map(|_| slab.allocate(16).unwrap()).collect();
    // Free spans of 3, 1 and 2 stripes, apart from each other.
    slab.free(Region { offset: 16, len: 48 });
    slab.free(Region { offset: 96, len: 16 });
    slab.free(Region { offset: 128, len: 32 });
    assert_eq!(spans(&slab), vec![(1, 3), (6, 1), (8, 2)]);
    // Two stripes: the 2-stripe span fits exactly.
    assert_eq!(slab.allocate(32).unwrap(), Region { offset: 128, len: 32 });
    // One stripe: the 1-stripe span fits exactly.
    assert_eq!(slab.allocate(16).unwrap(), Region { offset: 96, len: 16 });
    assert_eq!(spans(&slab), vec![(1, 3)]);
    assert_eq!(held.len(), 10);
}

#[test]
fn best_fit_tie_takes_first() {
    let mut slab = Slab::new(96, 16);
    let _held: Vec<Region> = (0..6).map(|_| slab.allocate(16).unwrap()).collect();
    slab.free(Region { offset: 0, len: 16 });
    slab.free(Region { offset: 32, len: 16 });
    slab.free(Region { offset: 64, len: 32 });
    assert_eq!(spans(&slab), vec![(0, 1), (2, 1), (4, 2)]);
    assert_eq!(slab.allocate(10).unwrap(), Region { offset: 0, len: 16 });
    assert_eq!(slab.allocate(10).unwrap(), Region { offset: 32, len: 16 });
}

#[test]
fn free_merges_with_both_neighbours() {
    let mut slab = Slab::new(64, 16);
    let a = slab.allocate(16).unwrap();
    let b = slab.allocate(16).unwrap();
    let c = slab.allocate(16).unwrap();
    slab.free(a);
    slab.free(c);
    assert_eq!(spans(&slab), vec![(0, 1), (2, 2)]);
    slab.free(b);
    assert_eq!(spans(&slab), vec![(0, 4)]);
}

#[test]
fn allocate_then_free_restores_spans() {
    let mut slab = Slab::new(128, 16);
    let a = slab.allocate(16).unwrap();
    let _b = slab.allocate(16).unwrap();
    slab.free(a);
    let before: Vec<Span> = slab.free_spans().clone();
    let r = slab.allocate(20).unwrap();
    assert_ne!(slab.free_spans(), &before);
    slab.free(r);
    assert_eq!(slab.free_spans(), &before);
}

#[test]
fn free_order_does_not_matter() {
    let orders: [[usize; 3]; 3] = [[0, 1, 2], [2, 0, 1], [1, 2, 0]];
    let mut results = Vec::new();
    for order in orders {
        let mut slab = Slab::new(128, 16);
        let regions = [
            slab.allocate(16).unwrap(),
            slab.allocate(40).unwrap(),
            slab.allocate(16).unwrap(),
        ];
        let _keep = slab.allocate(16).unwrap();
        for i in order {
            slab.free(regions[i]);
        }
        results.push(spans(&slab));
    }
    assert_eq!(results[0], vec![(0, 5), (6, 2)]);
    assert_eq!(results[0], results[1]);
    assert_eq!(results[1], results[2]);
}

#[test]
fn live_regions_are_disjoint() {
    let mut slab = Slab::new(256, 16);
    let mut live: Vec<Region> = Vec::new();
    for n in [1usize, 40, 16, 7, 33, 64] {
        live.push(slab.allocate(n).unwrap());
    }
    slab.free(live.remove(1));
    live.push(slab.allocate(20).unwrap());
    for (i, a) in live.iter().enumerate() {
        for b in live.iter().skip(i + 1) {
            assert!(a.offset + a.len <= b.offset || b.offset + b.len <= a.offset);
        }
        for s in slab.free_spans() {
            let start = s.first * 16;
            let end = start + s.stripes * 16;
            assert!(a.offset + a.len <= start || end <= a.offset);
        }
    }
    let free_bytes: usize = slab.free_spans().iter().map(|s| s.stripes * 16).sum();
    let live_bytes: usize = live.iter().map(|r| r.len).sum();
    assert_eq!(free_bytes + live_bytes, 256);
}

#[test]
fn can_free_checks_region() {
    let mut slab = Slab::new(64, 16);
    let a = slab.allocate(16).unwrap();
    assert!(slab.can_free(a));
    assert!(!slab.can_free(Region { offset: 8, len: 16 }));
    assert!(!slab.can_free(Region { offset: 0, len: 0 }));
    assert!(!slab.can_free(Region { offset: 16, len: 16 }));
    assert!(!slab.can_free(Region { offset: 48, len: 32 }));
    slab.free(a);
    assert!(!slab.can_free(a));
}
