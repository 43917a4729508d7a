//! Operations over collections of coordinates and tokens.
use vstd::prelude::*;
use crate::codec::{encode, decode, encoding, decoding};
use crate::error::Grid9Error;
use vstd::arithmetic::div_mod::{
    lemma_fundamental_div_mod,
    lemma_fundamental_div_mod_converse_div,
    lemma_mod_bound,
};

verus! {

/// A coordinate in ten-millionths of a degree.
#[derive(Debug, Clone, Copy, PartialEq, Eq, Structural)]
pub struct Coordinate {
    pub lat: i64,
    pub lon: i64,
}

impl Coordinate {
    /// A coordinate from its latitude and longitude.
    pub fn new(lat: i64, lon: i64) -> (r: Coordinate)
        ensures
            r.lat == lat,
            r.lon == lon,
    {
        Coordinate { lat, lon }
    }
}

/// The smallest latitude/longitude box around a set of coordinates.
#[derive(Debug, Clone, Copy, PartialEq, Eq, Structural)]
pub struct BoundingBox {
    pub min_lat: i64,
    pub max_lat: i64,
    pub min_lon: i64,
    pub max_lon: i64,
}

impl BoundingBox {
    /// A box from its four edges.
    pub fn new(min_lat: i64, max_lat: i64, min_lon: i64, max_lon: i64) -> (r: BoundingBox)
        ensures
            r.min_lat == min_lat,
            r.max_lat == max_lat,
            r.min_lon == min_lon,
            r.max_lon == max_lon,
    {
        BoundingBox { min_lat, max_lat, min_lon, max_lon }
    }
}

pub open spec fn strings_view(v: Seq<String>) -> Seq<Seq<char>> {
    v.map_values(|s: String| s@)
}

/// What `batch_encode` returns: every token in order, or the error of the
/// first coordinate that fails.
pub open spec fn batch_encoding(cs: Seq<Coordinate>, human_readable: bool) -> Result<
    Seq<Seq<char>>,
    Grid9Error,
>
    decreases cs.len(),
{
    if cs.len() == 0 {
        Ok(seq![])
    } else {
        match batch_encoding(cs.drop_last(), human_readable) {
            Err(e) => Err(e),
            Ok(ts) => match encoding(cs.last().lat, cs.last().lon, human_readable) {
                Err(e) => Err(e),
                Ok(t) => Ok(ts.push(t)),
            },
        }
    }
}

/// What `batch_decode` returns: every coordinate in order, or the error of
/// the first token that fails.
pub open spec fn batch_decoding(ts: Seq<Seq<char>>) -> Result<Seq<Coordinate>, Grid9Error>
    decreases ts.len(),
{
    if ts.len() == 0 {
        Ok(seq![])
    } else {
        match batch_decoding(ts.drop_last()) {
            Err(e) => Err(e),
            Ok(cs) => match decoding(ts.last()) {
                Err(e) => Err(e),
                Ok(p) => Ok(cs.push(Coordinate { lat: p.0, lon: p.1 })),
            },
        }
    }
}

/// Encodes every coordinate; fails as a whole on the first one that fails.
pub fn batch_encode(coordinates: &[Coordinate], human_readable: bool) -> (r: Result<
    Vec<String>,
    Grid9Error,
>)
    ensures
        match r {
            Ok(v) => batch_encoding(coordinates@, human_readable) == Ok::<
                Seq<Seq<char>>,
                Grid9Error,
            >(strings_view(v@)),
            Err(e) => batch_encoding(coordinates@, human_readable) == Err::<
                Seq<Seq<char>>,
                Grid9Error,
            >(e),
        },
{
    let mut out: Vec<String> = Vec::new();
    let mut i: usize = 0;
    assert(coordinates@.subrange(0, 0) =~= Seq::<Coordinate>::empty());
    assert(strings_view(out@) =~= Seq::<Seq<char>>::empty());
    while i < coordinates.len()
        invariant
            i <= coordinates@.len(),
            batch_encoding(coordinates@.subrange(0, i as int), human_readable) == Ok::<
                Seq<Seq<char>>,
                Grid9Error,
            >(strings_view(out@)),
        decreases coordinates@.len() - i,
    {
        let c = coordinates[i];
        assert(coordinates@.subrange(0, i as int + 1).drop_last() =~= coordinates@.subrange(
            0,
            i as int,
        ));
        match encode(c.lat, c.lon, human_readable) {
            Err(e) => {
                assert(batch_encoding(coordinates@.subrange(0, i as int + 1), human_readable) == Err::<
                    Seq<Seq<char>>,
                    Grid9Error,
                >(e));
                proof {
                    lemma_batch_encoding_err(coordinates@, human_readable, i as int + 1);
                }
                return Err(e);
            },
            Ok(s) => {
                let ghost old_out = out@;
                out.push(s);
                assert(strings_view(out@) =~= strings_view(old_out).push(s@));
            },
        }
        i = i + 1;
    }
    assert(coordinates@.subrange(0, i as int) =~= coordinates@);
    Ok(out)
}

/// Once a prefix fails, the whole batch fails with the same error.
pub proof fn lemma_batch_encoding_err(cs: Seq<Coordinate>, human_readable: bool, k: int)
    requires
        0 <= k <= cs.len(),
        batch_encoding(cs.subrange(0, k), human_readable) is Err,
    ensures
        batch_encoding(cs, human_readable) == batch_encoding(cs.subrange(0, k), human_readable),
    decreases cs.len() - k,
{
    if k < cs.len() {
        assert(cs.subrange(0, k + 1).drop_last() =~= cs.subrange(0, k));
        lemma_batch_encoding_err(cs, human_readable, k + 1);
    } else {
        assert(cs.subrange(0, k) =~= cs);
    }
}

/// Once a prefix fails, the whole batch fails with the same error.
pub proof fn lemma_batch_decoding_err(ts: Seq<Seq<char>>, k: int)
    requires
        0 <= k <= ts.len(),
        batch_decoding(ts.subrange(0, k)) is Err,
    ensures
        batch_decoding(ts) == batch_decoding(ts.subrange(0, k)),
    decreases ts.len() - k,
{
    if k < ts.len() {
        assert(ts.subrange(0, k + 1).drop_last() =~= ts.subrange(0, k));
        lemma_batch_decoding_err(ts, k + 1);
    } else {
        assert(ts.subrange(0, k) =~= ts);
    }
}

/// Decodes every token; fails as a whole on the first one that fails.
pub fn batch_decode(encoded: &[String]) -> (r: Result<Vec<Coordinate>, Grid9Error>)
    ensures
        match r {
            Ok(v) => batch_decoding(strings_view(encoded@)) == Ok::<Seq<Coordinate>, Grid9Error>(
                v@,
            ),
            Err(e) => batch_decoding(strings_view(encoded@)) == Err::<
                Seq<Coordinate>,
                Grid9Error,
            >(e),
        },
{
    let ghost ts = strings_view(encoded@);
    let mut out: Vec<Coordinate> = Vec::new();
    let mut i: usize = 0;
    assert(ts.subrange(0, 0) =~= Seq::<Seq<char>>::empty());
    assert(out@ =~= Seq::<Coordinate>::empty());
    while i < encoded.len()
        invariant
            i <= encoded@.len(),
            ts == strings_view(encoded@),
            batch_decoding(ts.subrange(0, i as int)) == Ok::<Seq<Coordinate>, Grid9Error>(out@),
        decreases encoded@.len() - i,
    {
        assert(ts.subrange(0, i as int + 1).drop_last() =~= ts.subrange(0, i as int));
        assert(ts[i as int] == encoded@[i as int]@);
        match decode(encoded[i].as_str()) {
            Err(e) => {
                proof {
                    lemma_batch_decoding_err(ts, i as int + 1);
                }
                return Err(e);
            },
            Ok(p) => {
                out.push(Coordinate::new(p.0, p.1));
            },
        }
        i = i + 1;
    }
    assert(ts.subrange(0, i as int) =~= ts);
    Ok(out)
}

/// `b` is the smallest box that holds every coordinate of `cs`.
pub open spec fn is_bounding_box(b: BoundingBox, cs: Seq<Coordinate>) -> bool {
    &&& forall|i: int|
        0 <= i < cs.len() ==> b.min_lat <= #[trigger] cs[i].lat <= b.max_lat && b.min_lon
            <= cs[i].lon <= b.max_lon
    &&& exists|i: int| 0 <= i < cs.len() && #[trigger] cs[i].lat == b.min_lat
    &&& exists|i: int| 0 <= i < cs.len() && #[trigger] cs[i].lat == b.max_lat
    &&& exists|i: int| 0 <= i < cs.len() && #[trigger] cs[i].lon == b.min_lon
    &&& exists|i: int| 0 <= i < cs.len() && #[trigger] cs[i].lon == b.max_lon
}

/// The smallest box that holds every coordinate; fails on an empty input.
pub fn get_bounding_box(coordinates: &[Coordinate]) -> (r: Result<BoundingBox, Grid9Error>)
    ensures
        coordinates@.len() == 0 ==> r == Err::<BoundingBox, Grid9Error>(Grid9Error::EmptyInput),
        coordinates@.len() > 0 ==> r is Ok && is_bounding_box(r->Ok_0, coordinates@),
{
    if coordinates.len() == 0 {
        return Err(Grid9Error::EmptyInput);
    }
    let first = coordinates[0];
    let mut b = BoundingBox::new(first.lat, first.lat, first.lon, first.lon);
    let mut i: usize = 1;
    assert(coordinates@.subrange(0, 1)[0] == first);
    while i < coordinates.len()
        invariant
            1 <= i <= coordinates@.len(),
            is_bounding_box(b, coordinates@.subrange(0, i as int)),
        decreases coordinates@.len() - i,
    {
        let c = coordinates[i];
        let ghost prev = coordinates@.subrange(0, i as int);
        let ghost next = coordinates@.subrange(0, i as int + 1);
        assert(forall|j: int| 0 <= j < i ==> next[j] == #[trigger] prev[j]);
        assert(next[i as int] == c);
        if c.lat < b.min_lat {
            b.min_lat = c.lat;
        }
        if c.lat > b.max_lat {
            b.max_lat = c.lat;
        }
        if c.lon < b.min_lon {
            b.min_lon = c.lon;
        }
        if c.lon > b.max_lon {
            b.max_lon = c.lon;
        }
        i = i + 1;
    }
    assert(coordinates@.subrange(0, i as int) =~= coordinates@);
    Ok(b)
}

/// Sum of the latitudes of `cs`.
pub open spec fn sum_lat(cs: Seq<Coordinate>) -> int
    decreases cs.len(),
{
    if cs.len() == 0 {
        0
    } else {
        sum_lat(cs.drop_last()) + cs.last().lat
    }
}

/// Sum of the longitudes of `cs`.
pub open spec fn sum_lon(cs: Seq<Coordinate>) -> int
    decreases cs.len(),
{
    if cs.len() == 0 {
        0
    } else {
        sum_lon(cs.drop_last()) + cs.last().lon
    }
}

/// The arithmetic mean of the latitudes and of the longitudes of a non-empty
/// `cs`, each rounded down to a whole unit.
pub open spec fn center_of(cs: Seq<Coordinate>) -> Coordinate {
    Coordinate {
        lat: (sum_lat(cs) / cs.len() as int) as i64,
        lon: (sum_lon(cs) / cs.len() as int) as i64,
    }
}

pub open spec fn sum_fits(sum: int, n: int) -> bool {
    n * (i64::MIN as int) <= sum <= n * (i64::MAX as int)
}

/// `sum / n` rounded down, for a sum of `n` values of type `i64`.
fn floor_mean(sum: i128, n: usize) -> (q: i64)
    requires
        n > 0,
        sum_fits(sum as int, n as int),
    ensures
        q as int == sum as int / n as int,
{
    let ghost m = n as int;
    proof {
        lemma_fundamental_div_mod(sum as int, m);
        lemma_mod_bound(sum as int, m);
    }
    let ghost f = sum as int / m;
    assert(i64::MIN <= f <= i64::MAX) by (nonlinear_arith)
        requires
            sum as int == m * f + (sum as int) % m,
            0 <= (sum as int) % m < m,
            m * (i64::MIN as int) <= sum as int <= m * (i64::MAX as int),
            m > 0,
    ;
    if sum >= 0 {
        let q = (sum as u128) / (n as u128);
        q as i64
    } else {
        let x: u128 = (-sum) as u128;
        let c: u128 = (x + n as u128 - 1) / (n as u128);
        proof {
            let y = x + m - 1;
            lemma_fundamental_div_mod(y, m);
            lemma_mod_bound(y, m);
            assert(0 <= sum + c * m < m) by (nonlinear_arith)
                requires
                    y == m * c + y % m,
                    0 <= y % m < m,
                    y == x + m - 1,
                    x == -sum,
            ;
            assert(sum as int == (-c) * m + (sum + c * m)) by (nonlinear_arith);
            lemma_fundamental_div_mod_converse_div(sum as int, m, -c, sum + c * m);
        }
        (-(c as i128)) as i64
    }
}

/// The mean of the latitudes and of the longitudes, each rounded down to a
/// whole unit; fails on an empty input.
pub fn get_center_point(coordinates: &[Coordinate]) -> (r: Result<Coordinate, Grid9Error>)
    ensures
        coordinates@.len() == 0 ==> r == Err::<Coordinate, Grid9Error>(Grid9Error::EmptyInput),
        coordinates@.len() > 0 ==> r == Ok::<Coordinate, Grid9Error>(center_of(coordinates@)),
{
    let n = coordinates.len();
    if n == 0 {
        return Err(Grid9Error::EmptyInput);
    }
    let mut total_lat: i128 = 0;
    let mut total_lon: i128 = 0;
    let mut i: usize = 0;
    assert(coordinates@.subrange(0, 0) =~= Seq::<Coordinate>::empty());
    while i < n
        invariant
            n == coordinates@.len(),
            i <= n,
            total_lat as int == sum_lat(coordinates@.subrange(0, i as int)),
            total_lon as int == sum_lon(coordinates@.subrange(0, i as int)),
            sum_fits(total_lat as int, i as int),
            sum_fits(total_lon as int, i as int),
        decreases n - i,
    {
        let c = coordinates[i];
        assert(coordinates@.subrange(0, i as int + 1).drop_last() =~= coordinates@.subrange(
            0,
            i as int,
        ));
        assert(i + 1 <= usize::MAX);
        assert(sum_fits(total_lat + c.lat, i + 1) && sum_fits(total_lon + c.lon, i + 1))
            by (nonlinear_arith)
            requires
                sum_fits(total_lat as int, i as int),
                sum_fits(total_lon as int, i as int),
                i64::MIN <= c.lat <= i64::MAX,
                i64::MIN <= c.lon <= i64::MAX,
        ;
        assert((i as int + 1) * (i64::MAX as int) < i128::MAX) by (nonlinear_arith)
            requires
                i + 1 <= 0xFFFF_FFFF_FFFF_FFFFint,
        ;
        total_lat = total_lat + c.lat as i128;
        total_lon = total_lon + c.lon as i128;
        i = i + 1;
    }
    assert(coordinates@.subrange(0, n as int) =~= coordinates@);
    let lat = floor_mean(total_lat, n);
    let lon = floor_mean(total_lon, n);
    Ok(Coordinate::new(lat, lon))
}

/// The coordinates of `cs` whose token in `ts` is `key`, in input order.
pub open spec fn members_of(cs: Seq<Coordinate>, ts: Seq<Seq<char>>, key: Seq<char>) -> Seq<
    Coordinate,
>
    decreases cs.len(),
{
    if cs.len() == 0 || ts.len() == 0 {
        seq![]
    } else if ts.last() == key {
        members_of(cs.drop_last(), ts.drop_last(), key).push(cs.last())
    } else {
        members_of(cs.drop_last(), ts.drop_last(), key)
    }
}

/// `key` is the token of some coordinate.
pub open spec fn token_occurs(ts: Seq<Seq<char>>, key: Seq<char>) -> bool {
    exists|j: int| 0 <= j < ts.len() && ts[j] == key
}

/// Some group has the token `key`.
pub open spec fn has_group(groups: Seq<(String, Vec<Coordinate>)>, key: Seq<char>) -> bool {
    exists|a: int| 0 <= a < groups.len() && groups[a].0@ == key
}

/// `key` is one of `keys`.
pub open spec fn key_listed(keys: Seq<String>, key: Seq<char>) -> bool {
    exists|a: int| 0 <= a < keys.len() && keys[a]@ == key
}

/// A grouping of `cs` by token: one group per distinct token of `ts`, each
/// holding the coordinates with that token in input order.
pub open spec fn is_grouping(
    groups: Seq<(String, Vec<Coordinate>)>,
    cs: Seq<Coordinate>,
    ts: Seq<Seq<char>>,
) -> bool {
    &&& forall|a: int, b: int|
        0 <= a < b < groups.len() ==> (#[trigger] groups[a]).0@ != (#[trigger] groups[b]).0@
    &&& forall|a: int| 0 <= a < groups.len() ==> token_occurs(ts, (#[trigger] groups[a]).0@)
    &&& forall|i: int| 0 <= i < ts.len() ==> has_group(groups, #[trigger] ts[i])
    &&& forall|a: int|
        0 <= a < groups.len() ==> (#[trigger] groups[a]).1@ == members_of(cs, ts, groups[a].0@)
}

/// The coordinates whose token is `key`, in input order.
fn collect_members(coordinates: &[Coordinate], tokens: &Vec<String>, key: &String) -> (r: Vec<
    Coordinate,
>)
    requires
        tokens@.len() == coordinates@.len(),
    ensures
        r@ == members_of(coordinates@, strings_view(tokens@), key@),
{
    let ghost ts = strings_view(tokens@);
    let mut r: Vec<Coordinate> = Vec::new();
    let mut i: usize = 0;
    assert(coordinates@.subrange(0, 0) =~= Seq::<Coordinate>::empty());
    while i < coordinates.len()
        invariant
            i <= coordinates@.len(),
            tokens@.len() == coordinates@.len(),
            ts == strings_view(tokens@),
            r@ == members_of(coordinates@.subrange(0, i as int), ts.subrange(0, i as int), key@),
        decreases coordinates@.len() - i,
    {
        assert(coordinates@.subrange(0, i as int + 1).drop_last() =~= coordinates@.subrange(
            0,
            i as int,
        ));
        assert(ts.subrange(0, i as int + 1).drop_last() =~= ts.subrange(0, i as int));
        if tokens[i] == *key {
            r.push(coordinates[i]);
        }
        i = i + 1;
    }
    assert(coordinates@.subrange(0, i as int) =~= coordinates@);
    assert(ts.subrange(0, i as int) =~= ts);
    r
}

/// Groups the coordinates by their tokens: one group per distinct token, in
/// order of first appearance, each holding its coordinates in input order.
/// Fails on the first coordinate that cannot be encoded.
pub fn group_by_grid9(coordinates: &[Coordinate], human_readable: bool) -> (r: Result<
    Vec<(String, Vec<Coordinate>)>,
    Grid9Error,
>)
    ensures
        match r {
            Ok(g) => batch_encoding(coordinates@, human_readable) is Ok && is_grouping(
                g@,
                coordinates@,
                batch_encoding(coordinates@, human_readable)->Ok_0,
            ),
            Err(e) => batch_encoding(coordinates@, human_readable) == Err::<
                Seq<Seq<char>>,
                Grid9Error,
            >(e),
        },
{
    let tokens = match batch_encode(coordinates, human_readable) {
        Err(e) => {
            return Err(e);
        },
        Ok(t) => t,
    };
    let ghost ts = strings_view(tokens@);
    assert(ts.len() == coordinates@.len()) by {
        lemma_batch_encoding_len(coordinates@, human_readable);
    }
    let mut keys: Vec<String> = Vec::new();
    let mut i: usize = 0;
    while i < tokens.len()
        invariant
            i <= tokens@.len(),
            ts == strings_view(tokens@),
            forall|a: int, b: int|
                0 <= a < b < keys@.len() ==> (#[trigger] keys@[a])@ != (#[trigger] keys@[b])@,
            forall|a: int| 0 <= a < keys@.len() ==> token_occurs(ts, (#[trigger] keys@[a])@),
            forall|j: int| 0 <= j < i ==> key_listed(keys@, #[trigger] ts[j]),
        decreases tokens@.len() - i,
    {
        let mut found = false;
        let mut k: usize = 0;
        while k < keys.len()
            invariant
                k <= keys@.len(),
                i < tokens@.len(),
                found ==> key_listed(keys@, ts[i as int]),
                !found ==> forall|a: int| 0 <= a < k ==> (#[trigger] keys@[a])@ != ts[i as int],
                ts == strings_view(tokens@),
            decreases keys@.len() - k,
        {
            if keys[k] == tokens[i] {
                found = true;
            }
            k = k + 1;
        }
        if !found {
            let ghost old_keys = keys@;
            keys.push(tokens[i].clone());
            assert(keys@[old_keys.len() as int]@ == ts[i as int]);
            assert forall|j: int| 0 <= j < i implies key_listed(keys@, #[trigger] ts[j]) by {
                assert(key_listed(old_keys, ts[j]));
                let a = choose|a: int| 0 <= a < old_keys.len() && old_keys[a]@ == ts[j];
                assert(keys@[a] == old_keys[a]);
            }
            assert forall|a: int| 0 <= a < keys@.len() implies token_occurs(
                ts,
                (#[trigger] keys@[a])@,
            ) by {
                if a == old_keys.len() {
                    assert(ts[i as int] == keys@[a]@);
                } else {
                    assert(keys@[a] == old_keys[a]);
                }
            }
        }
        assert(key_listed(keys@, ts[i as int]));
        i = i + 1;
    }
    let mut groups: Vec<(String, Vec<Coordinate>)> = Vec::new();
    let mut a: usize = 0;
    while a < keys.len()
        invariant
            a <= keys@.len(),
            groups@.len() == a,
            tokens@.len() == coordinates@.len(),
            ts == strings_view(tokens@),
            forall|b: int| 0 <= b < a ==> (#[trigger] groups@[b]).0@ == keys@[b]@,
            forall|b: int|
                0 <= b < a ==> (#[trigger] groups@[b]).1@ == members_of(
                    coordinates@,
                    ts,
                    keys@[b]@,
                ),
        decreases keys@.len() - a,
    {
        let members = collect_members(coordinates, &tokens, &keys[a]);
        groups.push((keys[a].clone(), members));
        a = a + 1;
    }
    assert forall|x: int, y: int| 0 <= x < y < groups@.len() implies (
    #[trigger] groups@[x]).0@ != (#[trigger] groups@[y]).0@ by {
        assert(keys@[x]@ != keys@[y]@);
    }
    assert forall|x: int| 0 <= x < groups@.len() implies token_occurs(
        ts,
        (#[trigger] groups@[x]).0@,
    ) by {
        assert(groups@[x].0@ == keys@[x]@);
        assert(token_occurs(ts, keys@[x]@));
    }
    assert forall|j: int| 0 <= j < ts.len() implies has_group(groups@, #[trigger] ts[j]) by {
        assert(key_listed(keys@, ts[j]));
        let x = choose|x: int| 0 <= x < keys@.len() && keys@[x]@ == ts[j];
        assert(groups@[x].0@ == keys@[x]@);
    }
    assert forall|x: int| 0 <= x < groups@.len() implies (#[trigger] groups@[x]).1@ == members_of(
        coordinates@,
        ts,
        groups@[x].0@,
    ) by {
        assert(groups@[x].0@ == keys@[x]@);
    }
    Ok(groups)
}

/// A batch that encodes yields one token per coordinate.
pub proof fn lemma_batch_encoding_len(cs: Seq<Coordinate>, human_readable: bool)
    requires
        batch_encoding(cs, human_readable) is Ok,
    ensures
        batch_encoding(cs, human_readable)->Ok_0.len() == cs.len(),
    decreases cs.len(),
{
    if cs.len() > 0 {
        lemma_batch_encoding_len(cs.drop_last(), human_readable);
    }
}

} // verus!
