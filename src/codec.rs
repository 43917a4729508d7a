//! Encoding a coordinate as a token, and decoding a token back to the start
//! of its cell.
use vstd::prelude::*;
use vstd::arithmetic::div_mod::{
    lemma_fundamental_div_mod,
    lemma_fundamental_div_mod_converse_div,
    lemma_fundamental_div_mod_converse_mod,
    lemma_mod_bound,
};
use crate::alphabet::{symbol, symbol_value, is_symbol, symbol_of, value_of_symbol};
use crate::error::Grid9Error;
use crate::grid::{
    quantize,
    cell_start,
    lemma_quantize_range,
    lemma_cell_start_quantize,
    LAT_LIMIT,
    LON_LIMIT,
    LAT_SPAN,
    LON_SPAN,
    LAT_MAX,
    LON_MAX,
    LON_CELLS,
};
use crate::text::{strip_dashes, dashed, remove_formatting, format_for_humans};

verus! {

/// Number of symbols in a token.
pub const TOKEN_LEN: usize = 9;

pub open spec fn valid_latitude(lat: int) -> bool {
    -(LAT_LIMIT as int) <= lat <= LAT_LIMIT as int
}

pub open spec fn valid_longitude(lon: int) -> bool {
    -(LON_LIMIT as int) <= lon <= LON_LIMIT as int
}

/// The outcome of checking a coordinate: latitude first, then longitude.
pub open spec fn coordinate_check(lat: i64, lon: i64) -> Result<(), Grid9Error> {
    if !valid_latitude(lat as int) {
        Err(Grid9Error::InvalidLatitude(lat))
    } else if !valid_longitude(lon as int) {
        Err(Grid9Error::InvalidLongitude(lon))
    } else {
        Ok(())
    }
}

/// The latitude cell (22-bit field) of a valid latitude.
pub open spec fn lat_cell(lat: int) -> int {
    quantize(lat + LAT_LIMIT, LAT_SPAN as int, LAT_MAX as int)
}

/// The longitude cell (23-bit field) of a valid longitude.
pub open spec fn lon_cell(lon: int) -> int {
    quantize(lon + LON_LIMIT, LON_SPAN as int, LON_MAX as int)
}

/// The 45-bit packed value: latitude field above longitude field.
pub open spec fn packed_value(lat: int, lon: int) -> int {
    lat_cell(lat) * LON_CELLS + lon_cell(lon)
}

pub open spec fn pow32(n: nat) -> int
    decreases n,
{
    if n == 0 {
        1
    } else {
        32 * pow32((n - 1) as nat)
    }
}

/// The last `n` base-32 digits of `p`, most significant first, as symbols.
pub open spec fn digits(p: int, n: nat) -> Seq<char>
    decreases n,
{
    if n == 0 {
        seq![]
    } else {
        digits(p / 32, (n - 1) as nat).push(symbol(p % 32))
    }
}

/// The undashed token of a valid coordinate.
pub open spec fn token_of(lat: int, lon: int) -> Seq<char> {
    digits(packed_value(lat, lon), 9)
}

/// What `encode` returns.
pub open spec fn encoding(lat: i64, lon: i64, human_readable: bool) -> Result<
    Seq<char>,
    Grid9Error,
> {
    match coordinate_check(lat, lon) {
        Err(e) => Err(e),
        Ok(_) => if human_readable {
            Ok(dashed(token_of(lat as int, lon as int)))
        } else {
            Ok(token_of(lat as int, lon as int))
        },
    }
}

/// Reads the symbols of `t` as base-32 digits, most significant first.
pub open spec fn value_of(t: Seq<char>) -> int
    decreases t.len(),
{
    if t.len() == 0 {
        0
    } else {
        value_of(t.drop_last()) * 32 + symbol_value(t.last())
    }
}

pub open spec fn all_symbols(t: Seq<char>) -> bool {
    forall|i: int| 0 <= i < t.len() ==> is_symbol(t[i])
}

/// Index of the first character of `t` from `i` on that is no symbol, or the
/// length of `t` where there is none.
pub open spec fn first_non_symbol(t: Seq<char>, i: int) -> int
    decreases t.len() - i,
{
    if 0 <= i < t.len() {
        if !is_symbol(t[i]) {
            i
        } else {
            first_non_symbol(t, i + 1)
        }
    } else {
        t.len() as int
    }
}

/// The outcome of checking an undashed token.
pub open spec fn token_check(t: Seq<char>) -> Result<(), Grid9Error> {
    if t.len() == 0 {
        Err(Grid9Error::EmptyInput)
    } else if t.len() != 9 {
        Err(Grid9Error::InvalidLength(t.len() as usize))
    } else if !all_symbols(t) {
        Err(Grid9Error::InvalidCharacter(t[first_non_symbol(t, 0)]))
    } else {
        Ok(())
    }
}

/// The latitude where latitude cell `b` starts.
pub open spec fn lat_of_cell(b: int) -> int {
    cell_start(b, LAT_SPAN as int, LAT_MAX as int) - LAT_LIMIT
}

/// The longitude where longitude cell `b` starts.
pub open spec fn lon_of_cell(b: int) -> int {
    cell_start(b, LON_SPAN as int, LON_MAX as int) - LON_LIMIT
}

/// The coordinate that a packed value decodes to.
pub open spec fn position_of(v: int) -> (i64, i64) {
    (lat_of_cell(v / LON_CELLS as int) as i64, lon_of_cell(v % LON_CELLS as int) as i64)
}

/// What `decode` returns.
pub open spec fn decoding(s: Seq<char>) -> Result<(i64, i64), Grid9Error> {
    let t = strip_dashes(s);
    match token_check(t) {
        Err(e) => Err(e),
        Ok(_) => Ok(position_of(value_of(t))),
    }
}

pub open spec fn string_result(r: Result<String, Grid9Error>) -> Result<Seq<char>, Grid9Error> {
    match r {
        Ok(s) => Ok(s@),
        Err(e) => Err(e),
    }
}

/// Checks that a latitude lies in [-90, 90] degrees and a longitude in
/// [-180, 180] degrees, latitude first.
pub fn validate_coordinates(latitude: i64, longitude: i64) -> (r: Result<(), Grid9Error>)
    ensures
        r == coordinate_check(latitude, longitude),
{
    if latitude < -LAT_LIMIT || latitude > LAT_LIMIT {
        return Err(Grid9Error::InvalidLatitude(latitude));
    }
    if longitude < -LON_LIMIT || longitude > LON_LIMIT {
        return Err(Grid9Error::InvalidLongitude(longitude));
    }
    Ok(())
}

/// Checks an undashed token: not empty, nine characters, each a symbol.
pub fn validate_encoded_string(encoded: &str) -> (r: Result<(), Grid9Error>)
    ensures
        r == token_check(encoded@),
{
    let n = encoded.unicode_len();
    if n == 0 {
        return Err(Grid9Error::EmptyInput);
    }
    if n != TOKEN_LEN {
        return Err(Grid9Error::InvalidLength(n));
    }
    let mut i: usize = 0;
    while i < n
        invariant
            n == encoded@.len(),
            n == TOKEN_LEN,
            i <= n,
            forall|j: int| 0 <= j < i ==> is_symbol(#[trigger] encoded@[j]),
            first_non_symbol(encoded@, 0) == first_non_symbol(encoded@, i as int),
        decreases n - i,
    {
        let c = encoded.get_char(i);
        if value_of_symbol(c).is_none() {
            assert(!is_symbol(encoded@[i as int]));
            assert(first_non_symbol(encoded@, i as int) == i);
            return Err(Grid9Error::InvalidCharacter(c));
        }
        i = i + 1;
    }
    Ok(())
}

/// The nine symbols of a packed value, most significant first.
fn token_string(packed: u64) -> (r: String)
    ensures
        r@ == digits(packed as int, 9),
{
    let mut ds: Vec<char> = vec!['0'; 9];
    let mut temp: u64 = packed;
    let mut k: usize = 0;
    while k < TOKEN_LEN
        invariant
            k <= 9,
            ds@.len() == 9,
            digits(packed as int, 9) == digits(temp as int, (9 - k) as nat) + ds@.subrange(
                9 - k as int,
                9,
            ),
        decreases 9 - k,
    {
        let d = temp % 32;
        let c = symbol_of(d);
        let ghost old_ds = ds@;
        ds.set(8 - k, c);
        assert(ds@.subrange(8 - k as int, 9) =~= seq![c] + old_ds.subrange(9 - k as int, 9));
        assert(digits(temp as int, (9 - k) as nat) == digits(temp as int / 32, (8 - k) as nat).push(c));
        assert(digits(temp as int / 32, (8 - k) as nat).push(c) + old_ds.subrange(9 - k as int, 9)
            =~= digits(temp as int / 32, (8 - k) as nat) + ds@.subrange(8 - k as int, 9));
        temp = temp / 32;
        k = k + 1;
    }
    assert(ds@.subrange(0, 9) =~= ds@);
    assert(digits(temp as int, 0) + ds@ =~= ds@);
    let mut r = String::new();
    let mut i: usize = 0;
    while i < TOKEN_LEN
        invariant
            i <= 9,
            ds@.len() == 9,
            r@ == ds@.subrange(0, i as int),
        decreases 9 - i,
    {
        crate::text::push_char(&mut r, ds[i]);
        assert(ds@.subrange(0, i as int + 1) =~= ds@.subrange(0, i as int).push(ds@[i as int]));
        i = i + 1;
    }
    r
}

/// Both cells of a valid coordinate lie in their fields, and the packed value
/// splits back into them.
pub proof fn lemma_packed_value(lat: int, lon: int)
    requires
        valid_latitude(lat),
        valid_longitude(lon),
    ensures
        0 <= lat_cell(lat) <= LAT_MAX,
        0 <= lon_cell(lon) <= LON_MAX,
        0 <= packed_value(lat, lon) < pow32(9),
        packed_value(lat, lon) / LON_CELLS as int == lat_cell(lat),
        packed_value(lat, lon) % LON_CELLS as int == lon_cell(lon),
{
    lemma_quantize_range(lat + LAT_LIMIT, LAT_SPAN as int, LAT_MAX as int);
    lemma_quantize_range(lon + LON_LIMIT, LON_SPAN as int, LON_MAX as int);
    reveal_with_fuel(pow32, 10);
    let v = packed_value(lat, lon);
    lemma_fundamental_div_mod_converse_div(v, LON_CELLS as int, lat_cell(lat), lon_cell(lon));
    lemma_fundamental_div_mod_converse_mod(v, LON_CELLS as int, lat_cell(lat), lon_cell(lon));
}

/// Encodes a coordinate, in ten-millionths of a degree, as a nine-symbol
/// token, or as `XXX-XXX-XXX` when `human_readable` is set.
pub fn encode(latitude: i64, longitude: i64, human_readable: bool) -> (r: Result<String, Grid9Error>)
    ensures
        string_result(r) == encoding(latitude, longitude, human_readable),
{
    match validate_coordinates(latitude, longitude) {
        Err(e) => {
            return Err(e);
        },
        Ok(_) => {},
    }
    proof {
        lemma_packed_value(latitude as int, longitude as int);
    }
    let lat_bits: u64 = ((latitude + LAT_LIMIT) as u64) * LAT_MAX / LAT_SPAN;
    let lon_bits: u64 = ((longitude + LON_LIMIT) as u64) * LON_MAX / LON_SPAN;
    let packed: u64 = lat_bits * LON_CELLS + lon_bits;
    let token = token_string(packed);
    if human_readable {
        Ok(format_for_humans(token.as_str()))
    } else {
        Ok(token)
    }
}

/// A packed value below 2^45 splits into a latitude and a longitude cell.
pub proof fn lemma_split_range(v: int)
    requires
        0 <= v < pow32(9),
    ensures
        0 <= v / LON_CELLS as int <= LAT_MAX,
        0 <= v % LON_CELLS as int <= LON_MAX,
{
    reveal_with_fuel(pow32, 10);
    lemma_fundamental_div_mod(v, LON_CELLS as int);
    lemma_mod_bound(v, LON_CELLS as int);
}

/// Decodes a token, with or without dashes, to the coordinate where its cell
/// starts, in ten-millionths of a degree.
pub fn decode(encoded: &str) -> (r: Result<(i64, i64), Grid9Error>)
    ensures
        r == decoding(encoded@),
{
    let clean = remove_formatting(encoded);
    let t = clean.as_str();
    match validate_encoded_string(t) {
        Err(e) => {
            return Err(e);
        },
        Ok(_) => {},
    }
    let mut packed: u64 = 0;
    let mut i: usize = 0;
    while i < TOKEN_LEN
        invariant
            t@ == strip_dashes(encoded@),
            t@.len() == 9,
            all_symbols(t@),
            i <= 9,
            packed as int == value_of(t@.subrange(0, i as int)),
            packed < pow32(i as nat),
        decreases 9 - i,
    {
        let c = t.get_char(i);
        let v = match value_of_symbol(c) {
            Some(v) => v,
            None => {
                return Err(Grid9Error::InvalidCharacter(c));
            },
        };
        proof {
            lemma_pow32_mono(i as nat + 1, 9);
            assert(t@.subrange(0, i as int + 1).drop_last() =~= t@.subrange(0, i as int));
            assert(packed * 32 + v < pow32(i as nat + 1)) by (nonlinear_arith)
                requires
                    packed < pow32(i as nat),
                    v < 32,
                    pow32(i as nat + 1) == 32 * pow32(i as nat),
            ;
            reveal_with_fuel(pow32, 10);
        }
        packed = packed * 32 + v;
        i = i + 1;
    }
    assert(t@.subrange(0, 9) =~= t@);
    proof {
        lemma_split_range(packed as int);
        lemma_cell_start_quantize((packed / LON_CELLS) as int, LAT_SPAN as int, LAT_MAX as int);
        lemma_cell_start_quantize((packed % LON_CELLS) as int, LON_SPAN as int, LON_MAX as int);
    }
    let lat_bits = packed / LON_CELLS;
    let lon_bits = packed % LON_CELLS;
    let lat = ((lat_bits * LAT_SPAN + LAT_MAX - 1) / LAT_MAX) as i64 - LAT_LIMIT;
    let lon = ((lon_bits * LON_SPAN + LON_MAX - 1) / LON_MAX) as i64 - LON_LIMIT;
    Ok((lat, lon))
}

pub proof fn lemma_pow32_mono(a: nat, b: nat)
    requires
        a <= b,
    ensures
        1 <= pow32(a) <= pow32(b),
    decreases b,
{
    if b > 0 {
        if a < b {
            lemma_pow32_mono(a, (b - 1) as nat);
        } else {
            lemma_pow32_mono(0, (b - 1) as nat);
        }
    }
}

/// Whether `encoded`, once its dashes are taken out, is nine symbols.
pub fn is_valid_encoding(encoded: &str) -> (r: bool)
    ensures
        r == (token_check(strip_dashes(encoded@)) is Ok),
        r == (strip_dashes(encoded@).len() == 9 && all_symbols(strip_dashes(encoded@))),
{
    let clean = remove_formatting(encoded);
    validate_encoded_string(clean.as_str()).is_ok()
}

} // verus!
