use vstd::prelude::*;

verus! {

/// One airport of the reference dataset.
///
/// The source file stores latitude and longitude as 32-bit IEEE 754 values.
/// This library never performs real arithmetic itself, so it carries each
/// coordinate as its raw bit pattern: two coordinates are "the same" exactly
/// when their bit patterns are equal, which is the notion every finder
/// strategy here is specified against. Callers that hold floating-point
/// values convert them to and from these bit patterns at the boundary.
#[derive(Debug)]
pub struct Airport {
    /// Full text label of the airport.
    pub name: String,
    /// Short text code of the airport.
    pub abr: String,
    /// Latitude in degrees, as the bit pattern of the source's 32-bit value.
    pub lat: u32,
    /// Longitude in degrees, as the bit pattern of the source's 32-bit value.
    pub long: u32,
    /// Identifier as supplied by the source data; distinct from the record's
    /// position in the loaded sequence, which is what finders return.
    pub id: usize,
}

/// A projected coordinate: the three components of the fixed projection that
/// every finder uses as its distance surrogate, each carried as the bit
/// pattern of a 32-bit IEEE 754 value. The projection itself is performed by
/// the caller; inside the library a projected point is exactly its bits.
#[derive(Clone, Copy, Debug, PartialEq, Eq, Structural)]
pub struct ProjectedPoint {
    pub x: u32,
    pub y: u32,
    pub z: u32,
}

} // verus!
