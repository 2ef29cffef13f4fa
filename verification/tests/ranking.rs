use fiducia_cli::{closest_index, rank_order};

/// A region's name and median latency in ms (`None`: unreachable).
#[derive(Clone, Debug)]
struct Latency {
    name: &'static str,
    median_ms: Option<f64>,
}

fn rl(name: &'static str, ms: Option<f64>) -> Latency {
    Latency { name, median_ms: ms }
}

/// The order key of a median, as the binary computes it: order-preserving on
/// numbers, with NaN before every number.
fn key(median_ms: Option<f64>) -> Option<u64> {
    median_ms.map(|x| {
        if x.is_nan() {
            0
        } else {
            // -0.0 and 0.0 compare equal, so they share a key.
            let bits = if x == 0.0 { 0.0f64.to_bits() } else { x.to_bits() };
            if bits >> 63 == 1 {
                !bits
            } else {
                bits | (1 << 63)
            }
        }
    })
}

fn rank(rs: Vec<Latency>) -> Vec<Latency> {
    let keys: Vec<Option<u64>> = rs.iter().map(|r| key(r.median_ms)).collect();
    rank_order(&keys).into_iter().map(|i| rs[i].clone()).collect()
}

fn closest(ranked: &[Latency]) -> Option<&Latency> {
    let keys: Vec<Option<u64>> = ranked.iter().map(|r| key(r.median_ms)).collect();
    closest_index(&keys).map(|i| &ranked[i])
}

fn names(ranked: &[Latency]) -> Vec<&str> {
    ranked.iter().map(|r| r.name).collect()
}

fn for_each_permutation<T: Clone>(items: &mut [T], start: usize, visit: &mut impl FnMut(&[T])) {
    if start == items.len() {
        visit(items);
        return;
    }
    for index in start..items.len() {
        items.swap(start, index);
        for_each_permutation(items, start + 1, visit);
        items.swap(start, index);
    }
}

#[test]
fn rank_orders_by_latency_unreachable_last() {
    let ranked = rank(vec![
        rl("far", Some(120.0)),
        rl("down", None),
        rl("near", Some(8.0)),
        rl("mid", Some(40.0)),
    ]);
    assert_eq!(names(&ranked), ["near", "mid", "far", "down"]);
    assert_eq!(closest(&ranked).unwrap().name, "near");
}

#[test]
fn closest_selection_is_deterministic_for_fixed_latencies() {
    let profiles: [(&str, Vec<Latency>); 3] = [
        ("gcp", vec![rl("gcp", Some(4.0)), rl("aws", Some(90.0)), rl("hetzner", Some(55.0))]),
        ("aws", vec![rl("gcp", Some(80.0)), rl("aws", Some(6.0)), rl("hetzner", Some(70.0))]),
        ("hetzner", vec![rl("gcp", Some(60.0)), rl("aws", Some(75.0)), rl("hetzner", Some(3.0))]),
    ];
    for (expected, latencies) in profiles {
        for _ in 0..3 {
            let ranked = rank(latencies.clone());
            assert_eq!(
                closest(&ranked).expect("reachable region").name,
                expected,
                "profile nearest to {expected} must always pick {expected}"
            );
        }
    }

    let tied = vec![rl("first", Some(10.0)), rl("second", Some(10.0))];
    for _ in 0..3 {
        assert_eq!(closest(&rank(tied.clone())).unwrap().name, "first");
    }
}

#[test]
fn rank_tolerates_non_finite_medians_without_panicking() {
    let ranked = rank(vec![
        rl("nan", Some(f64::NAN)),
        rl("down", None),
        rl("near", Some(5.0)),
        rl("far", Some(500.0)),
    ]);
    assert_eq!(ranked.len(), 4);
    assert_eq!(ranked.last().unwrap().name, "down", "unreachable regions must always sort last");
    let near_pos = ranked.iter().position(|r| r.name == "near").unwrap();
    let far_pos = ranked.iter().position(|r| r.name == "far").unwrap();
    assert!(near_pos < far_pos, "finite medians must stay ascending");
    assert!(closest(&ranked).unwrap().median_ms.is_some());
}

#[test]
fn closest_none_when_all_unreachable() {
    let ranked = rank(vec![rl("a", None), rl("b", None)]);
    assert!(closest(&ranked).is_none());
}

#[test]
fn rank_is_total_and_deterministic_for_every_input_permutation() {
    let mut regions = [
        rl("slow", Some(90.0)),
        rl("down", None),
        rl("fast", Some(3.0)),
        rl("mid", Some(25.0)),
    ];
    let mut visited = 0usize;
    for_each_permutation(&mut regions, 0, &mut |order| {
        visited += 1;
        let ranked = rank(order.to_vec());
        assert_eq!(names(&ranked), ["fast", "mid", "slow", "down"]);
        assert_eq!(closest(&ranked).map(|region| region.name), Some("fast"));
    });
    assert_eq!(visited, 24, "4! permutations must be exercised");
}

#[test]
fn rank_order_is_stable_on_integer_keys() {
    let keys = vec![Some(5), None, Some(1), Some(5), None, Some(1)];
    assert_eq!(rank_order(&keys), [2, 5, 0, 3, 1, 4]);
    assert_eq!(rank_order(&Vec::new()), Vec::<usize>::new());
    assert_eq!(closest_index(&vec![None, Some(3), Some(1)]), Some(1));
    assert_eq!(closest_index(&vec![None, None]), None);
}

#[test]
fn signed_zero_medians_tie_and_keep_input_order() {
    let ranked = rank(vec![rl("neg", Some(-0.0)), rl("pos", Some(0.0))]);
    assert_eq!(names(&ranked), ["neg", "pos"]);
    let ranked = rank(vec![rl("pos", Some(0.0)), rl("neg", Some(-0.0))]);
    assert_eq!(names(&ranked), ["pos", "neg"]);
}
