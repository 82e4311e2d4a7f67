use trackmatch::{decode_track, Coord, TrackError};

fn pt(lat: f64, lon: f64) -> Coord {
    Coord::new(lat.to_bits(), lon.to_bits())
}

const DOC: &str = "<?xml version=\"1.0\" encoding=\"UTF-8\"?>\
<gpx version=\"1.1\" creator=\"test\" xmlns=\"http://www.topografix.com/GPX/1/1\">\
<trk><name>one</name>\
<trkseg><trkpt lat=\"48.8534\" lon=\"2.3488\"></trkpt><trkpt lat=\"1.5\" lon=\"-3.25\"></trkpt></trkseg>\
<trkseg><trkpt lat=\"0\" lon=\"0.0001\"></trkpt></trkseg>\
</trk></gpx>";

#[test]
fn gpx_points_in_document_order_lat_lon() {
    let points = decode_track(DOC.as_bytes()).unwrap();
    assert_eq!(points, vec![pt(48.8534, 2.3488), pt(1.5, -3.25), pt(0.0, 0.0001)]);
}

#[test]
fn malformed_gpx_is_a_decode_failure() {
    assert_eq!(decode_track(b"not a gpx document"), Err(TrackError::DecodeFailure));
    assert_eq!(decode_track(b""), Err(TrackError::DecodeFailure));
}
