//! Text rendering helpers: decimal and lowercase hexadecimal digits, and the
//! `~0` / `~1` escaping that JSON Pointer tokens require.

use vstd::prelude::*;
use vstd::string::StringExecFns;

verus! {

/// The character for one decimal digit.
pub open spec fn spec_digit(d: u64) -> char {
    if d == 0 {
        '0'
    } else if d == 1 {
        '1'
    } else if d == 2 {
        '2'
    } else if d == 3 {
        '3'
    } else if d == 4 {
        '4'
    } else if d == 5 {
        '5'
    } else if d == 6 {
        '6'
    } else if d == 7 {
        '7'
    } else if d == 8 {
        '8'
    } else {
        '9'
    }
}

/// The decimal rendering of `n`, most significant digit first.
pub open spec fn spec_dec(n: u64) -> Seq<char>
    decreases n,
{
    if n < 10 {
        seq![spec_digit(n)]
    } else {
        spec_dec(n / 10).push(spec_digit(n % 10))
    }
}

/// The string holding one decimal digit.
fn digit_str(d: u64) -> (r: &'static str)
    requires
        d < 10,
    ensures
        r@ == seq![spec_digit(d)],
{
    proof {
        reveal_strlit("0");
        reveal_strlit("1");
        reveal_strlit("2");
        reveal_strlit("3");
        reveal_strlit("4");
        reveal_strlit("5");
        reveal_strlit("6");
        reveal_strlit("7");
        reveal_strlit("8");
        reveal_strlit("9");
    }
    match d {
        0 => "0",
        1 => "1",
        2 => "2",
        3 => "3",
        4 => "4",
        5 => "5",
        6 => "6",
        7 => "7",
        8 => "8",
        _ => "9",
    }
}

/// Render `n` in decimal.
pub fn u64_to_dec(n: u64) -> (s: String)
    ensures
        s@ == spec_dec(n),
    decreases n,
{
    if n < 10 {
        digit_str(n).to_owned()
    } else {
        let prefix = u64_to_dec(n / 10);
        prefix.concat(digit_str(n % 10))
    }
}

/// The character for one lowercase hexadecimal digit.
pub open spec fn spec_hex_digit(d: u128) -> char {
    if d == 0 {
        '0'
    } else if d == 1 {
        '1'
    } else if d == 2 {
        '2'
    } else if d == 3 {
        '3'
    } else if d == 4 {
        '4'
    } else if d == 5 {
        '5'
    } else if d == 6 {
        '6'
    } else if d == 7 {
        '7'
    } else if d == 8 {
        '8'
    } else if d == 9 {
        '9'
    } else if d == 10 {
        'a'
    } else if d == 11 {
        'b'
    } else if d == 12 {
        'c'
    } else if d == 13 {
        'd'
    } else if d == 14 {
        'e'
    } else {
        'f'
    }
}

/// The lowest `digits` hexadecimal digits of `v`, most significant first,
/// with leading zeros kept.
pub open spec fn spec_hex(v: u128, digits: nat) -> Seq<char>
    decreases digits,
{
    if digits == 0 {
        Seq::empty()
    } else {
        spec_hex(v / 16, (digits - 1) as nat).push(spec_hex_digit(v % 16))
    }
}

/// The string holding one lowercase hexadecimal digit.
fn hex_digit_str(d: u128) -> (r: &'static str)
    requires
        d < 16,
    ensures
        r@ == seq![spec_hex_digit(d)],
{
    proof {
        reveal_strlit("0");
        reveal_strlit("1");
        reveal_strlit("2");
        reveal_strlit("3");
        reveal_strlit("4");
        reveal_strlit("5");
        reveal_strlit("6");
        reveal_strlit("7");
        reveal_strlit("8");
        reveal_strlit("9");
        reveal_strlit("a");
        reveal_strlit("b");
        reveal_strlit("c");
        reveal_strlit("d");
        reveal_strlit("e");
        reveal_strlit("f");
    }
    match d {
        0 => "0",
        1 => "1",
        2 => "2",
        3 => "3",
        4 => "4",
        5 => "5",
        6 => "6",
        7 => "7",
        8 => "8",
        9 => "9",
        10 => "a",
        11 => "b",
        12 => "c",
        13 => "d",
        14 => "e",
        _ => "f",
    }
}

/// Render the lowest `digits` hexadecimal digits of `v`, most significant
/// first, with leading zeros kept.
pub fn u128_to_hex(v: u128, digits: u32) -> (s: String)
    ensures
        s@ == spec_hex(v, digits as nat),
    decreases digits,
{
    if digits == 0 {
        String::new()
    } else {
        let prefix = u128_to_hex(v / 16, digits - 1);
        prefix.concat(hex_digit_str(v % 16))
    }
}

/// Every occurrence of `from` replaced by `to`; other characters kept.
pub open spec fn spec_replace(s: Seq<char>, from: char, to: Seq<char>) -> Seq<char>
    decreases s.len(),
{
    if s.len() == 0 {
        Seq::empty()
    } else {
        (if s[0] == from {
            to
        } else {
            seq![s[0]]
        }) + spec_replace(s.drop_first(), from, to)
    }
}

/// Relies on str::replace with a char pattern: every occurrence of `from`
/// is replaced by `to`, and all other characters are kept in order.
#[verifier::external_body]
fn str_replace_char(s: &str, from: char, to: &str) -> (r: String)
    ensures
        r@ == spec_replace(s@, from, to@),
{
    s.replace(from, to)
}

/// A token escaped for use in a JSON Pointer: `~` becomes `~0`, then `/`
/// becomes `~1`.
pub open spec fn spec_escape(t: Seq<char>) -> Seq<char> {
    spec_replace(spec_replace(t, '~', "~0"@), '/', "~1"@)
}

/// Escape a pointer token.
pub fn escape_token(t: &str) -> (r: String)
    ensures
        r@ == spec_escape(t@),
{
    let step = str_replace_char(t, '~', "~0");
    str_replace_char(step.as_str(), '/', "~1")
}

/// The pointer `parent` extended by one token.
pub open spec fn spec_pointer_append(parent: Seq<char>, token: Seq<char>) -> Seq<char> {
    parent + "/"@ + spec_escape(token)
}

/// Extend a JSON Pointer by one (still unescaped) token.
pub fn pointer_append(parent: &String, token: &str) -> (r: String)
    ensures
        r@ == spec_pointer_append(parent@, token@),
{
    parent.clone().concat("/").concat(escape_token(token).as_str())
}

} // verus!
