use airports::Airport;
use airports::AirportError;
use airports::DoubleLoopAirportFinder;
use airports::HashAirportFinder;
use airports::ProjectedPoint;

fn airport(name: &str, abr: &str, lat: f32, long: f32, id: usize) -> Airport {
    Airport {
        name: name.to_string(),
        abr: abr.to_string(),
        lat: lat.to_bits(),
        long: long.to_bits(),
        id,
    }
}

fn sample() -> Vec<Airport> {
    vec![airport("JFK", "JFK", 40.64, -73.78, 0), airport("LAX", "LAX", 33.94, -118.41, 1)]
}

/// The projection every strategy shares, as the reference dataset defines it:
/// x = cos(long) * sin(lat), y = sin(long) * sin(lat), z = cos(lat), all in
/// radians. The tests perform the floating-point arithmetic themselves and
/// hand the library only bit patterns.
fn project(lat: f32, long: f32) -> [f32; 3] {
    let lo = long.to_radians();
    let la = lat.to_radians();
    [lo.cos() * la.sin(), lo.sin() * la.sin(), la.cos()]
}

fn projected_point(lat: f32, long: f32) -> ProjectedPoint {
    let p = project(lat, long);
    ProjectedPoint { x: p[0].to_bits(), y: p[1].to_bits(), z: p[2].to_bits() }
}

fn brute_finder(airports: &[(f32, f32)]) -> DoubleLoopAirportFinder {
    let points: Vec<ProjectedPoint> =
        airports.iter().map(|&(lat, long)| projected_point(lat, long)).collect();
    DoubleLoopAirportFinder::new(points)
}

/// Squared distances from a query coordinate to every stored point, each as
/// the bit pattern of the (non-negative) 32-bit value, whose unsigned order
/// is the numeric order of the distances.
fn dists_to(finder: &DoubleLoopAirportFinder, airports: &[(f32, f32)], lat: f32, long: f32) -> Vec<u32> {
    let q = project(lat, long);
    let mut dists: Vec<u32> = Vec::new();
    for i in 0..finder.len() {
        let p = project(airports[i].0, airports[i].1);
        let d = (q[0] - p[0]) * (q[0] - p[0]) + (q[1] - p[1]) * (q[1] - p[1])
            + (q[2] - p[2]) * (q[2] - p[2]);
        dists.push(d.to_bits());
    }
    dists
}

#[test]
fn hash_finder_resolves_exact_coordinates() {
    let f = HashAirportFinder::new(&sample()).unwrap();
    assert_eq!(f.closest_ind(40.64f32.to_bits(), (-73.78f32).to_bits()), Ok(0));
    assert_eq!(f.closest_ind(33.94f32.to_bits(), (-118.41f32).to_bits()), Ok(1));
}

#[test]
fn hash_finder_rejects_inexact_coordinates() {
    let f = HashAirportFinder::new(&sample()).unwrap();
    let r = f.closest_ind(34.05f32.to_bits(), (-118.24f32).to_bits());
    assert_eq!(r, Err(AirportError::NoExactMatch));
}

#[test]
fn hash_finder_rejects_coordinate_collisions() {
    let twins = vec![
        airport("One", "ONE", 12.5, -7.25, 0),
        airport("Two", "TWO", 12.5, -7.25, 1),
    ];
    assert_eq!(HashAirportFinder::new(&twins).unwrap_err(), AirportError::Collision);
}

#[test]
fn hash_finder_is_deterministic() {
    let f = HashAirportFinder::new(&sample()).unwrap();
    let lat = 40.64f32.to_bits();
    let long = (-73.78f32).to_bits();
    assert_eq!(f.closest_ind(lat, long), f.closest_ind(lat, long));
}

#[test]
fn hash_finder_single_record_round_trip() {
    let one = vec![airport("OSL", "OSL", 59.95, 10.62, 7)];
    let f = HashAirportFinder::new(&one).unwrap();
    assert_eq!(f.closest_ind(59.95f32.to_bits(), 10.62f32.to_bits()), Ok(0));
}

#[test]
fn hash_finder_keys_on_bit_patterns_not_numbers() {
    // 0.0 and -0.0 compare equal numerically but carry different bit
    // patterns, so they are different records to the exact-hash finder and
    // each query resolves to its own position.
    let records = vec![airport("Zero", "ZRO", 0.0, 1.0, 0), airport("NegZero", "NZR", -0.0, 1.0, 1)];
    let f = HashAirportFinder::new(&records).unwrap();
    assert_eq!(f.closest_ind(0.0f32.to_bits(), 1.0f32.to_bits()), Ok(0));
    assert_eq!(f.closest_ind((-0.0f32).to_bits(), 1.0f32.to_bits()), Ok(1));
}

#[test]
fn brute_finder_empty_query_fails() {
    let f = DoubleLoopAirportFinder::new(Vec::new());
    let dists: Vec<u32> = Vec::new();
    assert_eq!(f.closest_by_dists(&dists), Err(AirportError::EmptyIndex));
}

#[test]
fn brute_finder_single_record_always_zero() {
    let coords = [(59.95f32, 10.62f32)];
    let f = brute_finder(&coords);
    for &(lat, long) in
        &[(59.95f32, 10.62f32), (0.0, 0.0), (-89.9, 179.9), (40.64, -73.78)]
    {
        let dists = dists_to(&f, &coords, lat, long);
        assert_eq!(f.closest_by_dists(&dists), Ok(0));
    }
}

#[test]
fn brute_finder_prefers_earliest_on_ties() {
    let f = DoubleLoopAirportFinder::new(vec![
        ProjectedPoint { x: 0, y: 0, z: 0 },
        ProjectedPoint { x: 1, y: 0, z: 0 },
        ProjectedPoint { x: 2, y: 0, z: 0 },
    ]);
    let dists: Vec<u32> = vec![5, 3, 3];
    assert_eq!(f.closest_by_dists(&dists), Ok(1));
}

#[test]
fn brute_finder_resolves_stored_and_nearby_coordinates() {
    let coords = [(40.64f32, -73.78f32), (33.94f32, -118.41f32)];
    let f = brute_finder(&coords);

    let exact_jfk = dists_to(&f, &coords, 40.64, -73.78);
    assert_eq!(f.closest_by_dists(&exact_jfk), Ok(0));

    let exact_lax = dists_to(&f, &coords, 33.94, -118.41);
    assert_eq!(f.closest_by_dists(&exact_lax), Ok(1));

    let near_lax = dists_to(&f, &coords, 34.05, -118.24);
    assert_eq!(f.closest_by_dists(&near_lax), Ok(1));
}

#[test]
fn brute_finder_is_deterministic() {
    let coords = [(40.64f32, -73.78f32), (33.94f32, -118.41f32)];
    let f = brute_finder(&coords);
    let dists = dists_to(&f, &coords, 34.05, -118.24);
    assert_eq!(f.closest_by_dists(&dists), f.closest_by_dists(&dists));
}

#[test]
fn brute_finder_reports_its_points() {
    let p = ProjectedPoint { x: 1, y: 2, z: 3 };
    let q = ProjectedPoint { x: 4, y: 5, z: 6 };
    let f = DoubleLoopAirportFinder::new(vec![p, q]);
    assert_eq!(f.len(), 2);
    assert_eq!(f.point(0), p);
    assert_eq!(f.point(1), q);
}
