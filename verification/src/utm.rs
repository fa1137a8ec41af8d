//! Universal Transverse Mercator zones: the whole-number part of a zone's
//! definition.
use vstd::prelude::*;

verus! {

/// The central meridian, in degrees, of UTM zone `zone`: zones are six
/// degrees wide and zone 1 begins at 180° W.
pub open spec fn central_meridian(zone: int) -> int {
    (zone - 1) * 6 - 180 + 3
}

/// The false northing, in meters: none in the northern hemisphere, ten
/// thousand kilometres in the southern.
pub open spec fn false_northing(north: bool) -> int {
    if north {
        0
    } else {
        10_000_000
    }
}

/// The central meridian (degrees) and the false northing (meters) of a UTM
/// zone in the given hemisphere.
pub fn utm_origin(zone: u8, north: bool) -> (r: (i32, u32))
    ensures
        r.0 == central_meridian(zone as int),
        r.1 == false_northing(north),
{
    let lon0: i32 = (zone as i32 - 1) * 6 - 180 + 3;
    let northing: u32 = if north {
        0
    } else {
        10_000_000
    };
    (lon0, northing)
}

/// The sixty zones tile the globe: each spans six degrees centred on its
/// meridian, zone 1 starts at 180° W, zone 60 ends at 180° E, and each zone
/// starts where the one before it ends.
pub proof fn lemma_zones_tile_the_globe(zone: int)
    requires
        1 <= zone <= 60,
    ensures
        -180 <= central_meridian(zone) - 3,
        central_meridian(zone) + 3 <= 180,
        zone == 1 ==> central_meridian(zone) - 3 == -180,
        zone == 60 ==> central_meridian(zone) + 3 == 180,
        zone < 60 ==> central_meridian(zone + 1) - 3 == central_meridian(zone) + 3,
{
}

} // verus!
