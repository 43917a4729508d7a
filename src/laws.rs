//! Properties that relate the codec's operations to one another.
use vstd::prelude::*;
use crate::alphabet::{symbol, symbol_value, is_symbol, lemma_symbol_value};
use crate::codec::{
    encoding,
    decoding,
    token_of,
    token_check,
    digits,
    value_of,
    all_symbols,
    pow32,
    packed_value,
    lat_cell,
    lon_cell,
    position_of,
    lat_of_cell,
    lon_of_cell,
    valid_latitude,
    valid_longitude,
    lemma_packed_value,
    lemma_split_range,
    lemma_pow32_mono,
};
use crate::grid::{
    lemma_cell_start_bounds,
    lemma_cell_start_quantize,
    LAT_LIMIT,
    LON_LIMIT,
    LAT_SPAN,
    LON_SPAN,
    LAT_MAX,
    LON_MAX,
    LON_CELLS,
};
use crate::text::{strip_dashes, dashed, has_no_dash, lemma_strip_no_dash, lemma_strip_concat};
use crate::error::Grid9Error;
use vstd::arithmetic::div_mod::{lemma_fundamental_div_mod, lemma_mod_bound};

verus! {

/// The digits of a value below 32^n are n symbols, free of dashes, and read
/// back as the value.
pub proof fn lemma_digits(p: int, n: nat)
    requires
        0 <= p < pow32(n),
    ensures
        digits(p, n).len() == n,
        all_symbols(digits(p, n)),
        has_no_dash(digits(p, n)),
        value_of(digits(p, n)) == p,
    decreases n,
{
    if n > 0 {
        let m = (n - 1) as nat;
        lemma_fundamental_div_mod(p, 32);
        lemma_mod_bound(p, 32);
        lemma_pow32_mono(m, m);
        assert(0 <= p / 32 < pow32(m)) by (nonlinear_arith)
            requires
                p == 32 * (p / 32) + p % 32,
                0 <= p % 32 < 32,
                0 <= p,
                p < 32 * pow32(m),
        ;
        lemma_digits(p / 32, m);
        lemma_symbol_value(p % 32);
        let d = digits(p / 32, m);
        assert(d.push(symbol(p % 32)).drop_last() =~= d);
    }
}

/// A sequence of n symbols is the n digits of the value it reads as.
pub proof fn lemma_value_digits(t: Seq<char>)
    requires
        all_symbols(t),
    ensures
        0 <= value_of(t) < pow32(t.len()),
        digits(value_of(t), t.len()) == t,
    decreases t.len(),
{
    if t.len() > 0 {
        let u = t.drop_last();
        let c = t.last();
        assert(is_symbol(t[t.len() - 1]));
        lemma_value_digits(u);
        let v = value_of(t);
        assert(0 <= symbol_value(c) < 32);
        assert(0 <= v < pow32(t.len())) by (nonlinear_arith)
            requires
                v == value_of(u) * 32 + symbol_value(c),
                0 <= value_of(u) < pow32(u.len()),
                0 <= symbol_value(c) < 32,
                pow32(t.len()) == 32 * pow32(u.len()),
        ;
        assert(v / 32 == value_of(u) && v % 32 == symbol_value(c)) by {
            vstd::arithmetic::div_mod::lemma_fundamental_div_mod_converse(
                v,
                32,
                value_of(u),
                symbol_value(c),
            );
        }
        assert(symbol(symbol_value(c)) == c);
        assert(u.push(c) =~= t);
    }
}

/// Round trip: a valid coordinate encodes without error, and its token
/// decodes to the start of its cell, which lies at most 429 units (under
/// 0.0000430 degrees) south of the latitude and west of the longitude.
pub proof fn lemma_round_trip(lat: i64, lon: i64)
    requires
        valid_latitude(lat as int),
        valid_longitude(lon as int),
    ensures
        encoding(lat, lon, false) == Ok::<Seq<char>, Grid9Error>(token_of(lat as int, lon as int)),
        decoding(token_of(lat as int, lon as int)) is Ok,
        ({
            let (a, b) = decoding(token_of(lat as int, lon as int))->Ok_0;
            &&& a <= lat <= a + 429
            &&& b <= lon <= b + 429
        }),
{
    lemma_packed_value(lat as int, lon as int);
    let p = packed_value(lat as int, lon as int);
    let t = token_of(lat as int, lon as int);
    lemma_digits(p, 9);
    lemma_strip_no_dash(t);
    assert(token_check(t) is Ok);
    lemma_cell_start_bounds(lat + LAT_LIMIT, LAT_SPAN as int, LAT_MAX as int);
    lemma_cell_start_bounds(lon + LON_LIMIT, LON_SPAN as int, LON_MAX as int);
    let a = lat_of_cell(lat_cell(lat as int));
    let b = lon_of_cell(lon_cell(lon as int));
    assert(lat - a <= 429) by (nonlinear_arith)
        requires
            (lat - a) * 4_194_303 < 1_800_000_000,
    ;
    assert(lon - b <= 429) by (nonlinear_arith)
        requires
            (lon - b) * 8_388_607 < 3_600_000_000,
    ;
}

/// Decoding a valid token and encoding the result gives back the token
/// without its dashes.
pub proof fn lemma_decode_encode(s: Seq<char>)
    requires
        decoding(s) is Ok,
    ensures
        encoding(decoding(s)->Ok_0.0, decoding(s)->Ok_0.1, false) == Ok::<Seq<char>, Grid9Error>(
            strip_dashes(s),
        ),
{
    let t = strip_dashes(s);
    let v = value_of(t);
    lemma_value_digits(t);
    lemma_split_range(v);
    let lb = v / LON_CELLS as int;
    let ob = v % LON_CELLS as int;
    lemma_cell_start_quantize(lb, LAT_SPAN as int, LAT_MAX as int);
    lemma_cell_start_quantize(ob, LON_SPAN as int, LON_MAX as int);
    let (a, b) = position_of(v);
    assert(lat_cell(a as int) == lb);
    assert(lon_cell(b as int) == ob);
    lemma_fundamental_div_mod(v, LON_CELLS as int);
    assert(packed_value(a as int, b as int) == v);
}

/// A dash between two sequences is dropped by stripping.
pub proof fn lemma_strip_around_dash(x: Seq<char>, y: Seq<char>)
    ensures
        strip_dashes(x + seq!['-'] + y) == strip_dashes(x) + strip_dashes(y),
{
    let d = seq!['-'];
    assert(d.drop_last() =~= Seq::<char>::empty());
    assert(d.last() == '-');
    assert(strip_dashes(Seq::<char>::empty()) == Seq::<char>::empty());
    assert(strip_dashes(d) =~= Seq::<char>::empty());
    lemma_strip_concat(x, d);
    assert(strip_dashes(x) + strip_dashes(d) =~= strip_dashes(x));
    lemma_strip_concat(x + d, y);
}

/// Stripping the dashes from the dashed form of a nine-character sequence
/// gives the same as stripping the sequence itself.
pub proof fn lemma_strip_dashed(t: Seq<char>)
    requires
        t.len() == 9,
    ensures
        strip_dashes(dashed(t)) == strip_dashes(t),
{
    let a = t.subrange(0, 3);
    let b = t.subrange(3, 6);
    let c = t.subrange(6, 9);
    lemma_strip_around_dash(a, b);
    lemma_strip_around_dash(a + seq!['-'] + b, c);
    lemma_strip_concat(a, b);
    lemma_strip_concat(a + b, c);
    assert(a + b + c =~= t);
}

/// Format idempotence: a dash-free nine-character token survives formatting
/// and unformatting unchanged, and any nine-character sequence decodes to
/// exactly the same result as its dashed form.
pub proof fn lemma_format_round_trip(t: Seq<char>)
    requires
        t.len() == 9,
    ensures
        has_no_dash(t) ==> strip_dashes(dashed(t)) == t,
        decoding(dashed(t)) == decoding(t),
{
    lemma_strip_dashed(t);
    if has_no_dash(t) {
        lemma_strip_no_dash(t);
    }
}

/// Token lengths: nine symbols without dashes; with them, eleven characters
/// whose only dashes stand at positions 3 and 7.
pub proof fn lemma_encoding_length(lat: i64, lon: i64, human_readable: bool)
    requires
        encoding(lat, lon, human_readable) is Ok,
    ensures
        ({
            let s = encoding(lat, lon, human_readable)->Ok_0;
            if human_readable {
                &&& s.len() == 11
                &&& s[3] == '-'
                &&& s[7] == '-'
                &&& forall|i: int| 0 <= i < 11 && i != 3 && i != 7 ==> s[i] != '-'
                &&& strip_dashes(s).len() == 9
            } else {
                &&& s.len() == 9
                &&& has_no_dash(s)
            }
        }),
{
    lemma_packed_value(lat as int, lon as int);
    let t = token_of(lat as int, lon as int);
    lemma_digits(packed_value(lat as int, lon as int), 9);
    lemma_format_round_trip(t);
    lemma_strip_no_dash(t);
}

} // verus!
