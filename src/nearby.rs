//! The grid scan behind a proximity search. The scan proposes points of a
//! latitude/longitude box in fixed steps; the caller measures each one and
//! reports whether it lies within the radius.
use vstd::prelude::*;
use crate::codec::{encode, encoding, token_of};
use crate::error::Grid9Error;
use crate::grid::{LON_LIMIT, UNITS_PER_DEGREE};
use crate::laws::lemma_round_trip;

verus! {

/// The scan keeps to latitudes within 80 degrees of the equator.
pub const SCAN_LAT_LIMIT: i64 = 800_000_000;

/// Meters in one degree of latitude, the approximation the scan relies on.
pub const METERS_PER_DEGREE: i64 = 111_320;

/// The scan step: 3 meters, in coordinate units (3 / 111320 degrees).
pub const SCAN_STEP: i64 = 269;

pub open spec fn min_int(a: int, b: int) -> int {
    if a <= b {
        a
    } else {
        b
    }
}

pub open spec fn max_int(a: int, b: int) -> int {
    if a >= b {
        a
    } else {
        b
    }
}

/// Half the height of the search box for a radius in meters, in coordinate
/// units: the radius over 111320 meters per degree, rounded down.
pub open spec fn lat_delta(radius_m: int) -> int {
    radius_m * (UNITS_PER_DEGREE as int) / (METERS_PER_DEGREE as int)
}

/// `t` is the token of a point of the box.
pub open spec fn token_in_box(t: Seq<char>, min_lat: i64, max_lat: i64, min_lon: i64, max_lon: i64) -> bool {
    exists|a: int, b: int|
        min_lat <= a <= max_lat && min_lon <= b <= max_lon && t == #[trigger] token_of(a, b)
}

/// A proximity search in progress.
pub struct NearbyScan {
    /// Token of the search center.
    pub center: String,
    pub min_lat: i64,
    pub max_lat: i64,
    pub min_lon: i64,
    pub max_lon: i64,
    /// The point to be measured next.
    pub lat: i64,
    pub lon: i64,
    pub max_results: usize,
    /// Tokens accepted so far, in scan order.
    pub results: Vec<String>,
}

impl NearbyScan {
    /// The box lies inside the scanned range, the cursor at or past its
    /// south-west corner, and no more tokens were accepted than asked for.
    pub open spec fn wf(&self) -> bool {
        &&& -SCAN_LAT_LIMIT <= self.min_lat
        &&& self.max_lat <= SCAN_LAT_LIMIT
        &&& -LON_LIMIT <= self.min_lon
        &&& self.max_lon <= LON_LIMIT
        &&& self.min_lat <= self.lat
        &&& self.min_lon <= self.lon
        &&& self.results@.len() <= self.max_results
        &&& forall|i: int|
            0 <= i < self.results@.len() ==> token_in_box(
                #[trigger] self.results@[i]@,
                self.min_lat,
                self.max_lat,
                self.min_lon,
                self.max_lon,
            )
    }

    /// Whether a point is still to be measured.
    pub open spec fn pending(&self) -> bool {
        self.lat <= self.max_lat && self.lon <= self.max_lon && self.results@.len()
            < self.max_results
    }

    /// Starts a search around a center point for a radius in meters.
    /// `lon_delta` is half the width of the box in coordinate units; it
    /// depends on the cosine of the latitude, which the caller works out.
    /// Fails where the radius is not positive, or the center cannot be
    /// encoded.
    pub fn start(
        center_lat: i64,
        center_lon: i64,
        radius_m: i64,
        lon_delta: i64,
        max_results: usize,
    ) -> (r: Result<NearbyScan, Grid9Error>)
        requires
            lon_delta >= 0,
        ensures
            radius_m <= 0 ==> r == Err::<NearbyScan, Grid9Error>(
                Grid9Error::InvalidRadius(radius_m),
            ),
            radius_m > 0 && encoding(center_lat, center_lon, false) is Err ==> r
                == Err::<NearbyScan, Grid9Error>(encoding(center_lat, center_lon, false)->Err_0),
            radius_m > 0 && encoding(center_lat, center_lon, false) is Ok ==> r is Ok,
            r matches Ok(s) ==> {
                &&& s.wf()
                &&& s.center@ == token_of(center_lat as int, center_lon as int)
                &&& s.min_lat == max_int(center_lat - lat_delta(radius_m as int), -SCAN_LAT_LIMIT)
                &&& s.max_lat == min_int(center_lat + lat_delta(radius_m as int), SCAN_LAT_LIMIT as int)
                &&& s.min_lon == max_int(center_lon - lon_delta, -LON_LIMIT)
                &&& s.max_lon == min_int(center_lon + lon_delta, LON_LIMIT as int)
                &&& s.lat == s.min_lat
                &&& s.lon == s.min_lon
                &&& s.max_results == max_results
                &&& s.results@.len() == 0
            },
    {
        if radius_m <= 0 {
            return Err(Grid9Error::InvalidRadius(radius_m));
        }
        let center = match encode(center_lat, center_lon, false) {
            Err(e) => {
                return Err(e);
            },
            Ok(t) => t,
        };
        let dlat: i128 = (radius_m as i128) * (UNITS_PER_DEGREE as i128) / (METERS_PER_DEGREE as i128);
        let lo_lat: i128 = center_lat as i128 - dlat;
        let hi_lat: i128 = center_lat as i128 + dlat;
        let lo_lon: i128 = center_lon as i128 - lon_delta as i128;
        let hi_lon: i128 = center_lon as i128 + lon_delta as i128;
        let min_lat: i64 = if lo_lat < -SCAN_LAT_LIMIT as i128 {
            -SCAN_LAT_LIMIT
        } else {
            lo_lat as i64
        };
        let max_lat: i64 = if hi_lat > SCAN_LAT_LIMIT as i128 {
            SCAN_LAT_LIMIT
        } else {
            hi_lat as i64
        };
        let min_lon: i64 = if lo_lon < -LON_LIMIT as i128 {
            -LON_LIMIT
        } else {
            lo_lon as i64
        };
        let max_lon: i64 = if hi_lon > LON_LIMIT as i128 {
            LON_LIMIT
        } else {
            hi_lon as i64
        };
        Ok(NearbyScan {
            center,
            min_lat,
            max_lat,
            min_lon,
            max_lon,
            lat: min_lat,
            lon: min_lon,
            max_results,
            results: Vec::new(),
        })
    }

    /// The token of the point to be measured next, or `None` once the box is
    /// exhausted or enough tokens were accepted.
    pub fn candidate(&self) -> (r: Option<String>)
        requires
            self.wf(),
        ensures
            self.pending() ==> r is Some && r->Some_0@ == token_of(self.lat as int, self.lon as int),
            !self.pending() ==> r is None,
    {
        if self.lat <= self.max_lat && self.lon <= self.max_lon && self.results.len()
            < self.max_results {
            match encode(self.lat, self.lon, false) {
                Ok(t) => Some(t),
                Err(_) => None,
            }
        } else {
            None
        }
    }

    /// Records whether the point last proposed lies within the radius, and
    /// moves to the next point: one step east, or back to the west edge one
    /// step north at the end of a row.
    pub fn record(&mut self, within_radius: bool)
        requires
            old(self).wf(),
            old(self).pending(),
        ensures
            final(self).wf(),
            final(self).center == old(self).center,
            final(self).min_lat == old(self).min_lat,
            final(self).max_lat == old(self).max_lat,
            final(self).min_lon == old(self).min_lon,
            final(self).max_lon == old(self).max_lon,
            final(self).max_results == old(self).max_results,
            within_radius ==> final(self).results@.len() == old(self).results@.len() + 1
                && final(self).results@.last()@ == token_of(old(self).lat as int, old(self).lon as int)
                && final(self).results@.drop_last() == old(self).results@,
            !within_radius ==> final(self).results@ == old(self).results@,
            old(self).lon + SCAN_STEP <= old(self).max_lon ==> final(self).lat == old(self).lat
                && final(self).lon == old(self).lon + SCAN_STEP,
            old(self).lon + SCAN_STEP > old(self).max_lon ==> final(self).lat == old(self).lat
                + SCAN_STEP && final(self).lon == old(self).min_lon,
    {
        if within_radius {
            proof {
                lemma_round_trip(self.lat, self.lon);
            }
            let t = encode(self.lat, self.lon, false);
            match t {
                Ok(t) => {
                    let ghost before = self.results@;
                    self.results.push(t);
                    assert(self.results@.drop_last() =~= before);
                    assert(token_in_box(
                        self.results@.last()@,
                        self.min_lat,
                        self.max_lat,
                        self.min_lon,
                        self.max_lon,
                    ));
                    assert(forall|i: int|
                        0 <= i < before.len() ==> self.results@[i] == before[i]);
                },
                Err(_) => {},
            }
        }
        if self.lon + SCAN_STEP <= self.max_lon {
            self.lon = self.lon + SCAN_STEP;
        } else {
            self.lat = self.lat + SCAN_STEP;
            self.lon = self.min_lon;
        }
    }

    /// The tokens accepted, in scan order: no more than asked for, each the
    /// token of a point of the box.
    pub fn into_results(self) -> (r: Vec<String>)
        requires
            self.wf(),
        ensures
            r@ == self.results@,
            r@.len() <= self.max_results,
            forall|i: int|
                0 <= i < r@.len() ==> token_in_box(
                    #[trigger] r@[i]@,
                    self.min_lat,
                    self.max_lat,
                    self.min_lon,
                    self.max_lon,
                ),
    {
        self.results
    }
}

} // verus!
