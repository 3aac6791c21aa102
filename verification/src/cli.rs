use vstd::prelude::*;

verus! {

/// The decimal digit `c` stands for, if it is one.
pub open spec fn digit_value(c: char) -> Option<int> {
    if '0' <= c && c <= '9' {
        Some(c as int - '0' as int)
    } else {
        None
    }
}

/// The number the decimal digits `s` write, if `s` is one or more decimal digits.
pub open spec fn digits_value(s: Seq<char>) -> Option<int>
    decreases s.len(),
{
    if s.len() == 0 {
        None
    } else {
        match digit_value(s.last()) {
            None => None,
            Some(d) => if s.len() == 1 {
                Some(d)
            } else {
                match digits_value(s.drop_last()) {
                    Some(v) => Some(10 * v + d),
                    None => None,
                }
            },
        }
    }
}

/// The `u16` that `s` writes: decimal digits, perhaps after a `+`, of a value that fits.
pub open spec fn parses_u16(s: Seq<char>) -> Option<u16> {
    let d = if s.len() > 0 && s[0] == '+' {
        s.subrange(1, s.len() as int)
    } else {
        s
    };
    match digits_value(d) {
        Some(v) => if v <= u16::MAX {
            Some(v as u16)
        } else {
            None
        },
        None => None,
    }
}

/// The decimal digits of `n`.
pub open spec fn decimal(n: nat) -> Seq<char>
    decreases n,
{
    if n < 10 {
        seq![('0' as u8 + n) as char]
    } else {
        decimal(n / 10).push(('0' as u8 + n % 10) as char)
    }
}

/// The message that `n` is out of the range `min` to `max`: the three numbers in decimal.
pub open spec fn out_of_range_text(n: nat, min: nat, max: nat) -> Seq<char> {
    decimal(n) + " is outside range ("@ + decimal(min) + ", "@ + decimal(max) + ")."@
}

/// What checking that the `u16` that `s` writes lies from `min` to `max` gives: `Ok` when it
/// does; the out-of-range message when it writes one outside; some error (that of the
/// parse) when it writes none.
pub open spec fn range_checked(s: Seq<char>, min: u16, max: u16, r: Result<(), String>) -> bool {
    match parses_u16(s) {
        Some(v) => if min <= v && v <= max {
            r is Ok
        } else {
            r matches Err(m) && m@ == out_of_range_text(v as nat, min as nat, max as nat)
        },
        None => r is Err,
    }
}

/// `str::parse::<u16>`: the number `s` writes (see [`parses_u16`]); its error's message
/// otherwise, of which this contract says nothing.
#[verifier::external_body]
fn parse_u16(s: &str) -> (r: Result<u16, String>)
    ensures
        match r {
            Ok(v) => parses_u16(s@) == Some(v),
            Err(_) => parses_u16(s@) is None,
        },
{
    match s.parse::<u16>() {
        Ok(v) => Ok(v),
        Err(e) => Err(e.to_string()),
    }
}

/// `format!` of the message that `n` is out of the range `min` to `max`: the three numbers
/// in decimal.
#[verifier::external_body]
fn out_of_range_message(n: u16, min: u16, max: u16) -> (r: String)
    ensures
        r@ == out_of_range_text(n as nat, min as nat, max as nat),
{
    format!("{} is outside range ({}, {}).", n, min, max)
}

/// `Ok` when `n` is between `min` and `max` (both included); otherwise an error that says so.
pub fn num_is_between(n: u16, min: u16, max: u16) -> (r: Result<(), String>)
    ensures
        (r is Ok) == (min <= n && n <= max),
        match r {
            Ok(()) => true,
            Err(m) => m@ == out_of_range_text(n as nat, min as nat, max as nat),
        },
{
    if min <= n && n <= max {
        Ok(())
    } else {
        Err(out_of_range_message(n, min, max))
    }
}

/// Checks a number of chains: a `u16` from 1 to 999.
pub fn validate_n_chains(s: String) -> (r: Result<(), String>)
    ensures
        range_checked(s@, 1, 999, r),
{
    match parse_u16(s.as_str()) {
        Ok(v) => num_is_between(v, 1, 999),
        Err(e) => Err(e),
    }
}

/// Checks a number of blocks for the difficulty adjustment: a `u16` from 5 to 2000.
pub fn validate_daa2_n_blocks(s: String) -> (r: Result<(), String>)
    ensures
        range_checked(s@, 5, 2000, r),
{
    match parse_u16(s.as_str()) {
        Ok(v) => num_is_between(v, 5, 2_000),
        Err(e) => Err(e),
    }
}

} // verus!
