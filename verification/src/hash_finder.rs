use vstd::prelude::*;

use crate::errors::AirportError;
use crate::record::Airport;

use std::collections::HashMap;

verus! {

broadcast use vstd::std_specs::hash::group_hash_axioms;

/// The fixed-width bit key of a coordinate pair: the latitude bit pattern in
/// the high 32 bits, the longitude bit pattern in the low 32 bits. Two
/// coordinate pairs get the same key exactly when both bit patterns agree.
pub open spec fn key_of(lat: u32, long: u32) -> u64 {
    ((lat as int) * 0x1_0000_0000 + (long as int)) as u64
}

/// The key fits in 64 bits, so the cast in `key_of` truncates nothing.
proof fn lemma_key_in_range(lat: u32, long: u32)
    ensures
        0 <= (lat as int) * 0x1_0000_0000 + (long as int) < 0x1_0000_0000_0000_0000,
{
    assert((lat as int) * 0x1_0000_0000 <= 0xFFFF_FFFF * 0x1_0000_0000) by (nonlinear_arith)
        requires
            lat as int <= 0xFFFF_FFFF,
    ;
    assert((lat as int) * 0x1_0000_0000 >= 0) by (nonlinear_arith);
}

/// Distinct coordinate pairs always get distinct keys.
pub proof fn lemma_key_injective(lat1: u32, long1: u32, lat2: u32, long2: u32)
    requires
        key_of(lat1, long1) == key_of(lat2, long2),
    ensures
        lat1 == lat2 && long1 == long2,
{
    lemma_key_in_range(lat1, long1);
    lemma_key_in_range(lat2, long2);
    assert(lat1 == lat2 && long1 == long2) by (nonlinear_arith)
        requires
            (lat1 as int) * 0x1_0000_0000 + (long1 as int) == (lat2 as int) * 0x1_0000_0000
                + (long2 as int),
            0 <= (long1 as int) < 0x1_0000_0000,
            0 <= (long2 as int) < 0x1_0000_0000,
    ;
}

/// No two records of the sequence carry the same coordinate bit patterns.
/// Only datasets with this property can be served by the exact-hash finder.
pub open spec fn distinct_coords(airports: Seq<Airport>) -> bool {
    forall|i: int, j: int|
        0 <= i < j < airports.len() ==> !(#[trigger] airports[i].lat == #[trigger] airports[j].lat
            && airports[i].long == airports[j].long)
}

/// The mapping holds exactly the keys of the given records, and sends the key
/// of each record to that record's position in the sequence.
pub open spec fn indexes_all(m: Map<u64, usize>, airports: Seq<Airport>) -> bool {
    &&& forall|i: int|
        0 <= i < airports.len() ==> m.contains_key(
            #[trigger] key_of(airports[i].lat, airports[i].long),
        ) && m[key_of(airports[i].lat, airports[i].long)] as int == i
    &&& forall|k: u64|
        #[trigger] m.contains_key(k) ==> exists|i: int|
            0 <= i < airports.len() && k == key_of(airports[i].lat, airports[i].long)
}

/// What a query returns for a given table state: the stored position on an
/// exact bit-level hit, and a `NoExactMatch` failure otherwise. This pins the
/// result as a function of the table and the query alone.
pub open spec fn query_of(m: Map<u64, usize>, lat: u32, long: u32) -> Result<usize, AirportError> {
    if m.contains_key(key_of(lat, long)) {
        Ok(m[key_of(lat, long)])
    } else {
        Err(AirportError::NoExactMatch)
    }
}

/// The exact-hash finder: a mapping from coordinate bit keys to sequence
/// positions. It answers only queries whose coordinates are stored verbatim;
/// it is a degenerate fast path for round-trip lookups, not a nearest-neighbor
/// search.
#[derive(Debug)]
pub struct HashAirportFinder {
    map: HashMap<u64, usize>,
}

impl View for HashAirportFinder {
    type V = Map<u64, usize>;

    closed spec fn view(&self) -> Map<u64, usize> {
        self.map@
    }
}

impl HashAirportFinder {
    /// Build the key table over the full record sequence. Fails with
    /// `Collision` exactly when two records share their coordinate bit
    /// patterns, in which case this strategy is unusable for the dataset.
    pub fn new(airports: &Vec<Airport>) -> (r: Result<Self, AirportError>)
        ensures
            match r {
                Ok(f) => distinct_coords(airports@) && indexes_all(f@, airports@),
                Err(e) => e == AirportError::Collision && !distinct_coords(airports@),
            },
    {
        let mut map: HashMap<u64, usize> = HashMap::new();
        let n: usize = airports.len();
        let mut i: usize = 0;
        while i < n
            invariant
                n == airports@.len(),
                0 <= i <= n,
                distinct_coords(airports@.take(i as int)),
                indexes_all(map@, airports@.take(i as int)),
            decreases n - i,
        {
            let key = Self::bucket_coord(airports[i].lat, airports[i].long);
            let res = map.insert(key, i);
            if res.is_some() {
                proof {
                    let prefix = airports@.take(i as int);
                    let j = choose|j: int|
                        0 <= j < prefix.len() && key == key_of(prefix[j].lat, prefix[j].long);
                    lemma_key_injective(
                        airports@[i as int].lat,
                        airports@[i as int].long,
                        airports@[j].lat,
                        airports@[j].long,
                    );
                    assert(airports@[j].lat == airports@[i as int].lat && airports@[j].long
                        == airports@[i as int].long);
                    assert(!distinct_coords(airports@));
                }
                return Err(AirportError::Collision);
            }
            proof {
                let prev = airports@.take(i as int);
                let now = airports@.take(i as int + 1);
                assert(now.drop_last() =~= prev);
                assert(now.last() == airports@[i as int]);
                assert forall|a: int, b: int| 0 <= a < b < now.len() implies !(#[trigger] now[a].lat
                    == #[trigger] now[b].lat && now[a].long == now[b].long) by {
                    if b < i as int {
                        assert(now[a] == prev[a] && now[b] == prev[b]);
                    } else {
                        assert(now[b] == airports@[i as int]);
                        assert(now[a] == prev[a]);
                        if now[a].lat == now[b].lat && now[a].long == now[b].long {
                            lemma_key_injective(now[a].lat, now[a].long, now[b].lat, now[b].long);
                        }
                    }
                }
                assert forall|a: int| 0 <= a < now.len() implies map@.contains_key(
                    #[trigger] key_of(now[a].lat, now[a].long),
                ) && map@[key_of(now[a].lat, now[a].long)] as int == a by {
                    if a < i as int {
                        assert(now[a] == prev[a]);
                        if key_of(now[a].lat, now[a].long) == key {
                            lemma_key_injective(
                                now[a].lat,
                                now[a].long,
                                airports@[i as int].lat,
                                airports@[i as int].long,
                            );
                        }
                    }
                }
            }
            i = i + 1;
        }
        proof {
            assert(airports@.take(n as int) =~= airports@);
        }
        Ok(HashAirportFinder { map })
    }

    /// The explicit bit-representation key of one coordinate pair.
    fn bucket_coord(lat: u32, long: u32) -> (key: u64)
        ensures
            key == key_of(lat, long),
    {
        proof {
            lemma_key_in_range(lat, long);
        }
        (lat as u64) * 0x1_0000_0000u64 + (long as u64)
    }

    /// Resolve a query coordinate to the position whose record stores exactly
    /// these bit patterns; fails with `NoExactMatch` when no record does.
    pub fn closest_ind(&self, lat: u32, long: u32) -> (r: Result<usize, AirportError>)
        ensures
            r == query_of(self@, lat, long),
    {
        let key = Self::bucket_coord(lat, long);
        match self.map.get(&key) {
            Some(v) => Ok(*v),
            None => Err(AirportError::NoExactMatch),
        }
    }
}

/// Round-trip law: querying a table built over the full sequence with the
/// stored coordinate of the record at position `i` resolves to `i` itself.
pub proof fn lemma_hash_round_trip(f: HashAirportFinder, airports: Seq<Airport>, i: int)
    requires
        indexes_all(f@, airports),
        0 <= i < airports.len(),
    ensures
        query_of(f@, airports[i].lat, airports[i].long) == Ok::<usize, AirportError>(i as usize),
{
}

/// Determinism law: the result of a query is a function of the finder's table
/// and the query coordinate alone, so repeated identical queries against the
/// same finder resolve identically.
pub proof fn lemma_hash_query_deterministic(
    f: HashAirportFinder,
    lat: u32,
    long: u32,
    r1: Result<usize, AirportError>,
    r2: Result<usize, AirportError>,
)
    requires
        r1 == query_of(f@, lat, long),
        r2 == query_of(f@, lat, long),
    ensures
        r1 == r2,
{
}

} // verus!
