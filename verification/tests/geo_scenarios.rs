//! Scenario tests that pair the verified ranking with the distance
//! capability the application composes it with: great-circle distances from
//! geoutils, expressed in kilometres and encoded as IEEE 754 bits.

use geoutils::Location;
use proximity_rank::rank::{rank_by_proximity, ProximityEntry};

fn distance_km(a: (f64, f64), b: (f64, f64)) -> f64 {
    let from = Location::new(a.0, a.1);
    let to = Location::new(b.0, b.1);
    from.haversine_distance_to(&to).meters() / 1000.0
}

fn measured(name: &str, reference: (f64, f64), point: (f64, f64)) -> ProximityEntry {
    ProximityEntry {
        name: name.to_string(),
        distance_km_bits: distance_km(reference, point).to_bits(),
    }
}

const BERLIN: (f64, f64) = (52.518611, 13.408056);
const MOSCOW: (f64, f64) = (55.751667, 37.617778);
const JAKARTA: (f64, f64) = (-6.125556, 106.655833);
const KATHMANDU: (f64, f64) = (27.740068, 85.337576);

#[test]
fn distance_is_symmetric() {
    let pairs = [
        (BERLIN, MOSCOW),
        (BERLIN, JAKARTA),
        (MOSCOW, KATHMANDU),
        ((0.0, 0.0), (0.0, 1.0)),
        ((-45.0, -170.0), (45.0, 170.0)),
    ];
    for (a, b) in pairs {
        let ab = distance_km(a, b);
        let ba = distance_km(b, a);
        assert!((ab - ba).abs() <= 1e-9 * ab.max(1.0));
    }
}

#[test]
fn distance_to_self_is_zero() {
    for p in [BERLIN, MOSCOW, JAKARTA, KATHMANDU, (0.0, 0.0)] {
        assert_eq!(distance_km(p, p), 0.0);
    }
}

#[test]
fn distance_satisfies_triangle_inequality() {
    let triples = [
        (BERLIN, MOSCOW, JAKARTA),
        (MOSCOW, KATHMANDU, BERLIN),
        ((0.0, 0.0), (0.0, 90.0), (0.0, 179.0)),
        ((10.0, 20.0), (-30.0, 40.0), (50.0, -60.0)),
    ];
    for (a, b, c) in triples {
        let ac = distance_km(a, c);
        let ab = distance_km(a, b);
        let bc = distance_km(b, c);
        assert!(ac <= ab + bc + 1e-6);
    }
}

#[test]
fn equator_scenario_ranks_b_then_tied_a_c() {
    let reference = (0.0, 0.0);
    let entries = vec![
        measured("A", reference, (0.0, 1.0)),
        measured("B", reference, (0.0, 0.5)),
        measured("C", reference, (0.0, 1.0)),
    ];
    let ranked = rank_by_proximity(entries);
    let got: Vec<&str> = ranked.iter().map(|e| e.name.as_str()).collect();
    assert_eq!(got, vec!["B", "A", "C"]);
    let b_km = f64::from_bits(ranked[0].distance_km_bits);
    let a_km = f64::from_bits(ranked[1].distance_km_bits);
    let c_km = f64::from_bits(ranked[2].distance_km_bits);
    assert!((b_km - 55.5).abs() < 0.2);
    assert!((a_km - 111.0).abs() < 0.3);
    assert_eq!(a_km.to_bits(), c_km.to_bits());
}

#[test]
fn reference_equal_to_a_customer_sorts_that_customer_first() {
    let reference = KATHMANDU;
    let entries = vec![
        measured("elsewhere", reference, (27.740286, 85.337059)),
        measured("same-spot", reference, KATHMANDU),
        measured("berlin", reference, BERLIN),
    ];
    let ranked = rank_by_proximity(entries);
    assert_eq!(ranked[0].name, "same-spot");
    assert_eq!(ranked[0].distance_km_bits, 0.0f64.to_bits());
    assert_eq!(f64::from_bits(ranked[0].distance_km_bits), 0.0);
}
