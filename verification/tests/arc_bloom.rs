//! Tests of the arc model, the content hashing and the bloom filters.

use sharded_gossip::arc::ArcInterval;
use sharded_gossip::arc::ArcSet;
use sharded_gossip::arc::DhtArc;
use sharded_gossip::bloom::BloomFilter;
use sharded_gossip::bloom::params_for_fp_rate;
use sharded_gossip::hashing::basis_of;
use sharded_gossip::hashing::content_hash;

fn covered_points(s: &ArcSet, probes: &[u32]) -> Vec<u32> {
    probes.iter().copied().filter(|p| s.contains(*p)).collect()
}

#[test]
fn arc_contains_basics() {
    let arc = DhtArc::new(1000, 11);
    assert!(arc.contains(1000));
    assert!(arc.contains(990));
    assert!(arc.contains(1010));
    assert!(!arc.contains(989));
    assert!(!arc.contains(1011));
    assert!(!DhtArc::empty().contains(0));
    assert!(DhtArc::full().contains(0));
    assert!(DhtArc::full().contains(u32::MAX));
}

#[test]
fn arc_intersection_commutes() {
    let a = ArcSet::from_arc(&DhtArc::new(100, 51));
    let b = ArcSet::from_arc(&DhtArc::new(140, 31));
    let ab = a.intersect(&b);
    let ba = b.intersect(&a);
    let probes: Vec<u32> = (0..400).collect();
    assert_eq!(covered_points(&ab, &probes), covered_points(&ba, &probes));
    // The overlap is exactly [110, 150].
    assert!(ab.contains(110));
    assert!(ab.contains(150));
    assert!(!ab.contains(109));
    assert!(!ab.contains(151));
}

#[test]
fn arc_wraparound() {
    // An arc centered near the top of the space, wide enough to wrap.
    let wrapping = DhtArc::new(u32::MAX - 10, 101);
    assert!(wrapping.contains(u32::MAX));
    assert!(wrapping.contains(0));
    assert!(wrapping.contains(89));
    assert!(!wrapping.contains(90));
    assert!(wrapping.contains(u32::MAX - 110));
    assert!(!wrapping.contains(u32::MAX - 111));

    // It intersects arcs on both sides of the wrap point.
    let w = ArcSet::from_arc(&wrapping);
    let below = ArcSet::from_arc(&DhtArc::new(u32::MAX - 50, 21));
    let above = ArcSet::from_arc(&DhtArc::new(40, 21));
    let with_below = w.intersect(&below);
    let with_above = w.intersect(&above);
    assert!(with_below.contains(u32::MAX - 50));
    assert!(with_above.contains(40));
    assert!(!with_below.is_empty());
    assert!(!with_above.is_empty());

    // The wrapping interval form covers both ends of the space.
    match wrapping.to_interval() {
        ArcInterval::Bounded { start, end } => {
            assert!(start > end);
            let iv_set = ArcSet::from_interval(ArcInterval::Bounded { start, end });
            assert!(iv_set.contains(0));
            assert!(iv_set.contains(u32::MAX));
        }
        other => panic!("expected a bounded interval, got {:?}", other),
    }
}

#[test]
fn arc_union_covers_both() {
    let a = ArcSet::from_arc(&DhtArc::new(100, 11));
    let b = ArcSet::from_arc(&DhtArc::new(300, 11));
    let u = a.union(&b);
    assert!(u.contains(100));
    assert!(u.contains(300));
    assert!(!u.contains(200));
    assert!(ArcSet::new_empty().is_empty());
    assert!(!ArcSet::new_full().is_empty());
}

#[test]
fn arc_union_coalesces() {
    // Two overlapping arcs and one adjacent arc merge into one interval.
    let a = ArcSet::from_arc(&DhtArc::new(100, 11)); // [90, 110]
    let b = ArcSet::from_arc(&DhtArc::new(115, 11)); // [105, 125]
    let u = a.union(&b);
    assert_eq!(u.intervals, vec![ArcInterval::Bounded { start: 90, end: 125 }]);
    let c = ArcSet::from_arc(&DhtArc::new(131, 6)); // [126, 136], adjacent
    let u2 = u.union(&c);
    assert_eq!(u2.intervals, vec![ArcInterval::Bounded { start: 90, end: 136 }]);
    // Separated arcs stay separate, in ascending order.
    let d = ArcSet::from_arc(&DhtArc::new(500, 11)); // [490, 510]
    let u3 = d.union(&u2);
    assert_eq!(
        u3.intervals,
        vec![
            ArcInterval::Bounded { start: 90, end: 136 },
            ArcInterval::Bounded { start: 490, end: 510 },
        ]
    );
}

#[test]
fn content_hash_is_deterministic() {
    let h1 = content_hash(&[1, 2, 3]);
    let h2 = content_hash(&[1, 2, 3]);
    let h3 = content_hash(&[1, 2, 4]);
    assert_eq!(h1, h2);
    assert_ne!(h1, h3);
    assert_eq!(basis_of(h1) as u64, h1 % 0x1_0000_0000);
}

#[test]
fn bloom_no_false_negatives() {
    let mut bloom = BloomFilter::new(1000, 10, 7);
    let mut keys: Vec<Vec<u8>> = Vec::new();
    for i in 0..1000u64 {
        keys.push(i.to_le_bytes().to_vec());
    }
    for k in &keys {
        bloom.insert(k);
    }
    // Every inserted key still tests positive, whatever came after it.
    for k in &keys {
        assert!(bloom.check(k));
    }
}

#[test]
fn bloom_false_positive_rate_within_tolerance() {
    let mut bloom = BloomFilter::new(1000, 10, 7);
    for i in 0..1000u64 {
        bloom.insert(&i.to_le_bytes());
    }
    // Keys never inserted: at 10 bits and 7 hashes per item the target
    // rate is about one percent; allow a generous tolerance.
    let mut false_positives = 0usize;
    let trials = 10_000u64;
    for i in 0..trials {
        if bloom.check(&(1_000_000 + i).to_le_bytes()) {
            false_positives += 1;
        }
    }
    assert!(
        false_positives < 500,
        "false positive rate too high: {} of {}",
        false_positives,
        trials
    );
}

#[test]
fn bloom_is_deterministic() {
    let mut a = BloomFilter::new(10, 10, 7);
    let mut b = BloomFilter::new(10, 10, 7);
    for i in 0..10u64 {
        a.insert(&i.to_le_bytes());
        b.insert(&i.to_le_bytes());
    }
    assert_eq!(a.bits, b.bits);
    assert_eq!(a.num_bits, b.num_bits);
    assert_eq!(a.num_hashes, b.num_hashes);
}

#[test]
fn bloom_empty_rejects() {
    let bloom = BloomFilter::new(100, 10, 7);
    assert!(!bloom.check(&7u64.to_le_bytes()));
}

#[test]
fn bloom_params_from_rate() {
    // One percent: inverse 100, log2 ceiling 7.
    let (bits, hashes) = params_for_fp_rate(10_000);
    assert_eq!(hashes, 7);
    assert_eq!(bits, (7 * 144 + 99) / 100);
    // The loosest rate still uses at least one bit and one hash.
    let (bits, hashes) = params_for_fp_rate(1_000_000);
    assert_eq!(bits, 1);
    assert_eq!(hashes, 1);
}
