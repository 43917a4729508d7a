use vstd::prelude::*;

verus! {

/// Code point of the symbol for digit `d` (0..32): `0-9` then the capital
/// letters without `I`, `L`, `O` and `U`.
pub open spec fn symbol_code(d: int) -> int {
    if d < 10 {
        48 + d
    } else if d < 18 {
        55 + d
    } else if d < 20 {
        56 + d
    } else if d < 22 {
        57 + d
    } else if d < 27 {
        58 + d
    } else {
        59 + d
    }
}

/// The symbol that stands for the five-bit digit `d`.
pub open spec fn symbol(d: int) -> char {
    symbol_code(d) as char
}

/// The digit that the character `c` stands for, or -1 where `c` is no symbol.
pub open spec fn symbol_value(c: char) -> int {
    let u = c as int;
    if 48 <= u <= 57 {
        u - 48
    } else if 65 <= u <= 72 {
        u - 55
    } else if 74 <= u <= 75 {
        u - 56
    } else if 77 <= u <= 78 {
        u - 57
    } else if 80 <= u <= 84 {
        u - 58
    } else if 86 <= u <= 90 {
        u - 59
    } else {
        -1
    }
}

pub open spec fn is_symbol(c: char) -> bool {
    symbol_value(c) >= 0
}

/// Each digit has a symbol, and that symbol reads back as the digit.
pub proof fn lemma_symbol_value(d: int)
    requires
        0 <= d < 32,
    ensures
        symbol_value(symbol(d)) == d,
        is_symbol(symbol(d)),
        symbol(d) != '-',
{
}

/// The symbol for a digit below 32.
pub fn symbol_of(d: u64) -> (c: char)
    requires
        d < 32,
    ensures
        c == symbol(d as int),
{
    let code: u8 = if d < 10 {
        48 + d as u8
    } else if d < 18 {
        55 + d as u8
    } else if d < 20 {
        56 + d as u8
    } else if d < 22 {
        57 + d as u8
    } else if d < 27 {
        58 + d as u8
    } else {
        59 + d as u8
    };
    code as char
}

/// The digit that `c` stands for, or `None` where `c` is not a symbol.
pub fn value_of_symbol(c: char) -> (r: Option<u64>)
    ensures
        match r {
            Some(v) => is_symbol(c) && v as int == symbol_value(c) && v < 32,
            None => !is_symbol(c),
        },
{
    let u = c as u32;
    if 48 <= u && u <= 57 {
        Some((u - 48) as u64)
    } else if 65 <= u && u <= 72 {
        Some((u - 55) as u64)
    } else if 74 <= u && u <= 75 {
        Some((u - 56) as u64)
    } else if 77 <= u && u <= 78 {
        Some((u - 57) as u64)
    } else if 80 <= u && u <= 84 {
        Some((u - 58) as u64)
    } else if 86 <= u && u <= 90 {
        Some((u - 59) as u64)
    } else {
        None
    }
}

} // verus!
