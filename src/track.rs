use vstd::prelude::*;

use crate::coord::Coord;
use crate::error::TrackError;

verus! {

/// The points that a GPX document holds, where it is one: those of every
/// segment of every track, in document order.
pub uninterp spec fn gpx_points(bytes: Seq<u8>) -> Option<Seq<Coord>>;

/// Relies on `gpx::read`, which decodes a GPX document or fails, and on
/// `Waypoint::point`, whose `y` is the latitude and `x` the longitude.
#[verifier::external_body]
fn read_gpx_points(bytes: &[u8]) -> (r: Option<Vec<Coord>>)
    ensures
        match r {
            Some(v) => gpx_points(bytes@) == Some(v@),
            None => gpx_points(bytes@) is None,
        },
{
    let doc = match gpx::read(bytes) {
        Ok(doc) => doc,
        Err(_) => return None,
    };
    let mut coords = Vec::new();
    for track in doc.tracks {
        for segment in track.segments {
            for point in segment.points {
                let p = point.point();
                coords.push(Coord { lat_bits: p.y().to_bits(), lon_bits: p.x().to_bits() });
            }
        }
    }
    Some(coords)
}

/// The points of a track file from its bytes. A track decodes whole or not
/// at all: a malformed document fails with `DecodeFailure`.
pub fn decode_track(bytes: &[u8]) -> (r: Result<Vec<Coord>, TrackError>)
    ensures
        match r {
            Ok(v) => gpx_points(bytes@) == Some(v@),
            Err(e) => gpx_points(bytes@) is None && e == TrackError::DecodeFailure,
        },
{
    match read_gpx_points(bytes) {
        Some(v) => Ok(v),
        None => Err(TrackError::DecodeFailure),
    }
}

} // verus!
