//! Entity identifiers. Questions and options carry a 128-bit
//! identifier, assigned at random when the authored input does not
//! provide one, and rendered in the canonical hyphenated lowercase
//! hexadecimal form when it names an image file.

use vstd::prelude::*;
use vstd::string::*;


verus! {

/// Relies on `uuid::Uuid::new_v4`: a freshly drawn random identifier.
/// Nothing is promised of the value.
#[verifier::external_body]
pub fn fresh_id() -> u128 {
    uuid::Uuid::new_v4().as_u128()
}

/// The sixteen hexadecimal digits, lowercase.
pub open spec fn hex_char(n: int) -> char {
    seq!['0', '1', '2', '3', '4', '5', '6', '7', '8', '9', 'a', 'b', 'c', 'd', 'e', 'f'][n]
}

/// The two hexadecimal digits of one byte.
pub open spec fn byte_hex(b: u8) -> Seq<char> {
    seq![hex_char((b >> 4) as int), hex_char((b & 0xf) as int)]
}

/// The canonical string form of a 128-bit identifier: 32 lowercase
/// hexadecimal digits in groups of 8, 4, 4, 4 and 12, separated by
/// hyphens.
pub open spec fn id_str_of(x: u128) -> Seq<char> {
    byte_hex((x >> 120) as u8) + byte_hex((x >> 112) as u8) + byte_hex((x >> 104) as u8)
        + byte_hex((x >> 96) as u8) + seq!['-'] + byte_hex((x >> 88) as u8) + byte_hex(
        (x >> 80) as u8,
    ) + seq!['-'] + byte_hex((x >> 72) as u8) + byte_hex((x >> 64) as u8) + seq!['-'] + byte_hex(
        (x >> 56) as u8,
    ) + byte_hex((x >> 48) as u8) + seq!['-'] + byte_hex((x >> 40) as u8) + byte_hex(
        (x >> 32) as u8,
    ) + byte_hex((x >> 24) as u8) + byte_hex((x >> 16) as u8) + byte_hex((x >> 8) as u8) + byte_hex(
        x as u8,
    )
}

fn append_hex_digit(s: &mut String, n: u8)
    requires
        n < 16,
    ensures
        final(s)@ == old(s)@ + seq![hex_char(n as int)],
{
    proof {
        reveal_strlit("0");
        reveal_strlit("1");
        reveal_strlit("2");
        reveal_strlit("3");
        reveal_strlit("4");
        reveal_strlit("5");
        reveal_strlit("6");
        reveal_strlit("7");
        reveal_strlit("8");
        reveal_strlit("9");
        reveal_strlit("a");
        reveal_strlit("b");
        reveal_strlit("c");
        reveal_strlit("d");
        reveal_strlit("e");
        reveal_strlit("f");
    }
    match n {
        0 => s.append("0"),
        1 => s.append("1"),
        2 => s.append("2"),
        3 => s.append("3"),
        4 => s.append("4"),
        5 => s.append("5"),
        6 => s.append("6"),
        7 => s.append("7"),
        8 => s.append("8"),
        9 => s.append("9"),
        10 => s.append("a"),
        11 => s.append("b"),
        12 => s.append("c"),
        13 => s.append("d"),
        14 => s.append("e"),
        _ => s.append("f"),
    }
}

fn append_byte_hex(s: &mut String, b: u8)
    ensures
        final(s)@ == old(s)@ + byte_hex(b),
{
    proof {
        assert((b >> 4) < 16 && (b & 0xf) < 16) by (bit_vector);
    }
    append_hex_digit(s, b >> 4);
    append_hex_digit(s, b & 0xf);
    proof {
        assert(final(s)@ =~= old(s)@ + byte_hex(b));
    }
}

fn append_hyphen(s: &mut String)
    ensures
        final(s)@ == old(s)@ + seq!['-'],
{
    proof {
        reveal_strlit("-");
    }
    s.append("-");
}

/// The canonical string form of an identifier.
pub fn id_string(x: u128) -> (r: String)
    ensures
        r@ == id_str_of(x),
{
    let mut s = String::new();
    append_byte_hex(&mut s, (x >> 120) as u8);
    append_byte_hex(&mut s, (x >> 112) as u8);
    append_byte_hex(&mut s, (x >> 104) as u8);
    append_byte_hex(&mut s, (x >> 96) as u8);
    append_hyphen(&mut s);
    append_byte_hex(&mut s, (x >> 88) as u8);
    append_byte_hex(&mut s, (x >> 80) as u8);
    append_hyphen(&mut s);
    append_byte_hex(&mut s, (x >> 72) as u8);
    append_byte_hex(&mut s, (x >> 64) as u8);
    append_hyphen(&mut s);
    append_byte_hex(&mut s, (x >> 56) as u8);
    append_byte_hex(&mut s, (x >> 48) as u8);
    append_hyphen(&mut s);
    append_byte_hex(&mut s, (x >> 40) as u8);
    append_byte_hex(&mut s, (x >> 32) as u8);
    append_byte_hex(&mut s, (x >> 24) as u8);
    append_byte_hex(&mut s, (x >> 16) as u8);
    append_byte_hex(&mut s, (x >> 8) as u8);
    append_byte_hex(&mut s, x as u8);
    proof {
        assert(s@ =~= id_str_of(x));
    }
    s
}

} // verus!
