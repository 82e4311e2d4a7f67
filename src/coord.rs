use vstd::prelude::*;

verus! {

/// A geographic point. Latitude and longitude are degrees, each held as the
/// IEEE-754 bit pattern of a double, so that two points are equal exactly
/// when both fields are bit-identical.
#[derive(Clone, Copy, Debug, PartialEq, Eq, Hash, Structural)]
pub struct Coord {
    pub lat_bits: u64,
    pub lon_bits: u64,
}

impl Coord {
    pub fn new(lat_bits: u64, lon_bits: u64) -> (r: Coord)
        ensures
            r.lat_bits == lat_bits,
            r.lon_bits == lon_bits,
    {
        Coord { lat_bits, lon_bits }
    }
}

} // verus!
