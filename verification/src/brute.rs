use vstd::prelude::*;

use crate::errors::AirportError;
use crate::record::ProjectedPoint;

verus! {

/// The position of the minimum of a non-empty sequence of distance keys,
/// preferring the earliest position on ties. A distance key is the bit
/// pattern of a non-negative 32-bit IEEE value, whose unsigned order agrees
/// with the numeric order of the distances it encodes, so minimizing the key
/// minimizes the squared distance.
pub open spec fn closest_of(dists: Seq<u32>) -> int
    decreases dists.len(),
{
    if dists.len() <= 1 {
        0
    } else {
        let prev = closest_of(dists.drop_last());
        if dists.last() < dists[prev] {
            dists.len() - 1
        } else {
            prev
        }
    }
}

/// `closest_of` picks a valid position, its key is minimal, and every earlier
/// position has a strictly larger key: the earliest minimum wins.
pub proof fn lemma_closest_of_props(dists: Seq<u32>)
    requires
        dists.len() >= 1,
    ensures
        0 <= closest_of(dists) < dists.len(),
        forall|j: int| 0 <= j < dists.len() ==> dists[closest_of(dists)] <= #[trigger] dists[j],
        forall|j: int| 0 <= j < closest_of(dists) ==> #[trigger] dists[j] > dists[closest_of(dists)],
    decreases dists.len(),
{
    if dists.len() > 1 {
        let prev = dists.drop_last();
        lemma_closest_of_props(prev);
        assert forall|j: int| 0 <= j < dists.len() implies dists[closest_of(dists)]
            <= #[trigger] dists[j] by {
            if j < prev.len() {
                assert(dists[j] == prev[j]);
                assert(prev[closest_of(prev)] <= prev[j]);
            }
        }
        assert forall|j: int| 0 <= j < closest_of(dists) implies #[trigger] dists[j]
            > dists[closest_of(dists)] by {
            assert(dists[j] == prev[j]);
            if closest_of(dists) < prev.len() {
                assert(prev[j] > prev[closest_of(prev)]);
            } else {
                assert(prev[closest_of(prev)] <= prev[j]);
                assert(dists.last() < prev[closest_of(prev)]);
            }
        }
    }
}

/// What a query returns for a given sequence of distance keys: the earliest
/// position of the minimal key, and an `EmptyIndex` failure when there is
/// nothing to choose from.
pub open spec fn query_of_dists(dists: Seq<u32>) -> Result<usize, AirportError> {
    if dists.len() == 0 {
        Err(AirportError::EmptyIndex)
    } else {
        Ok(closest_of(dists) as usize)
    }
}

/// The brute-force finder: a plain ordered sequence of projected points, one
/// per record of the loaded dataset, with no auxiliary index. It is the
/// ground-truth oracle for the other strategies.
#[derive(Debug)]
pub struct DoubleLoopAirportFinder {
    points: Vec<ProjectedPoint>,
}

impl View for DoubleLoopAirportFinder {
    type V = Seq<ProjectedPoint>;

    closed spec fn view(&self) -> Seq<ProjectedPoint> {
        self.points@
    }
}

impl DoubleLoopAirportFinder {
    /// Store the projected points of the dataset, in sequence order.
    pub fn new(points: Vec<ProjectedPoint>) -> (r: Self)
        ensures
            r@ == points@,
    {
        DoubleLoopAirportFinder { points }
    }

    /// How many points the finder holds.
    pub fn len(&self) -> (n: usize)
        ensures
            n == self@.len(),
    {
        self.points.len()
    }

    /// The stored projected point at a sequence position.
    pub fn point(&self, i: usize) -> (p: ProjectedPoint)
        requires
            i < self@.len(),
        ensures
            p == self@[i as int],
    {
        self.points[i]
    }

    /// Resolve a query from the squared distances between the query's
    /// projected point and each stored point, given as one distance key per
    /// position: return the earliest position with the minimal key, or an
    /// `EmptyIndex` failure when the finder holds no points.
    pub fn closest_by_dists(&self, dists: &Vec<u32>) -> (r: Result<usize, AirportError>)
        requires
            dists@.len() == self@.len(),
        ensures
            r == query_of_dists(dists@),
            r matches Ok(i) ==> i < self@.len(),
    {
        let n: usize = dists.len();
        if n == 0 {
            return Err(AirportError::EmptyIndex);
        }
        proof {
            lemma_closest_of_props(dists@);
        }
        let mut best: usize = 0;
        let mut i: usize = 1;
        while i < n
            invariant
                n == dists@.len(),
                1 <= i <= n,
                0 <= best < i,
                best as int == closest_of(dists@.take(i as int)),
            decreases n - i,
        {
            proof {
                let now = dists@.take(i as int + 1);
                assert(now.drop_last() =~= dists@.take(i as int));
                assert(now.last() == dists@[i as int]);
                lemma_closest_of_props(dists@.take(i as int));
                assert(now[best as int] == dists@[best as int]);
            }
            if dists[i] < dists[best] {
                best = i;
            }
            i = i + 1;
        }
        proof {
            assert(dists@.take(n as int) =~= dists@);
        }
        Ok(best)
    }
}

/// Boundary law: over a single stored point every query resolves to position
/// zero, whatever its distance key is.
pub proof fn lemma_single_point(dists: Seq<u32>)
    requires
        dists.len() == 1,
    ensures
        query_of_dists(dists) == Ok::<usize, AirportError>(0),
{
}

/// Round-trip law, on the selection side: a position whose distance key lies
/// strictly below every other position's key is the one the query resolves
/// to. In particular, when a query repeats the stored coordinate of a record
/// that no other record shares, that record's position carries the unique
/// minimal squared distance and is therefore returned.
pub proof fn lemma_unique_minimum(dists: Seq<u32>, i: int)
    requires
        0 <= i < dists.len(),
        forall|j: int| 0 <= j < dists.len() && j != i ==> dists[i] < #[trigger] dists[j],
    ensures
        query_of_dists(dists) == Ok::<usize, AirportError>(i as usize),
{
    lemma_closest_of_props(dists);
    let c = closest_of(dists);
    assert(dists[c] <= dists[i]);
}

/// Determinism law: the selected position is a function of the distance keys
/// alone, so repeated identical queries against the same finder resolve
/// identically.
pub proof fn lemma_dists_query_deterministic(
    dists: Seq<u32>,
    r1: Result<usize, AirportError>,
    r2: Result<usize, AirportError>,
)
    requires
        r1 == query_of_dists(dists),
        r2 == query_of_dists(dists),
    ensures
        r1 == r2,
{
}

} // verus!
