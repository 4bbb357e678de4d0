//! Hexadecimal encoding and decoding of byte strings, with a proved
//! round trip. Encoding is lowercase; decoding accepts both cases.

use vstd::prelude::*;

verus! {

/// The lowercase hex digit for a nibble.
pub open spec fn nibble_char(n: u8) -> char
    recommends
        n < 16,
{
    if n < 10 {
        (n + 48) as char
    } else {
        (n + 87) as char
    }
}

pub open spec fn is_hex_char(c: char) -> bool {
    ('0' <= c && c <= '9') || ('a' <= c && c <= 'f') || ('A' <= c && c <= 'F')
}

/// The value of a hex digit.
pub open spec fn hex_val(c: char) -> u8
    recommends
        is_hex_char(c),
{
    if '0' <= c && c <= '9' {
        (c as u8 - 48) as u8
    } else if 'a' <= c && c <= 'f' {
        (c as u8 - 87) as u8
    } else {
        (c as u8 - 55) as u8
    }
}

/// The hex spelling of a byte string, two digits per byte.
pub open spec fn hex_of_bytes(b: Seq<u8>) -> Seq<char>
    decreases b.len(),
{
    if b.len() == 0 {
        Seq::empty()
    } else {
        seq![nibble_char(b[0] / 16), nibble_char(b[0] % 16)] + hex_of_bytes(b.drop_first())
    }
}

/// The bytes a hex string spells, or `None` when a character is not a
/// hex digit or the length is odd.
pub open spec fn bytes_of_hex(s: Seq<char>) -> Option<Seq<u8>>
    decreases s.len(),
{
    if s.len() == 0 {
        Some(Seq::empty())
    } else if s.len() == 1 {
        None
    } else if !is_hex_char(s[0]) || !is_hex_char(s[1]) {
        None
    } else {
        match bytes_of_hex(s.skip(2)) {
            Some(rest) => Some(seq![(hex_val(s[0]) * 16 + hex_val(s[1])) as u8] + rest),
            None => None,
        }
    }
}

/// Decoding inverts encoding.
pub proof fn lemma_hex_round_trip(b: Seq<u8>)
    ensures
        bytes_of_hex(hex_of_bytes(b)) == Some(b),
    decreases b.len(),
{
    if b.len() == 0 {
        assert(bytes_of_hex(hex_of_bytes(b)) == Some(b));
    } else {
        lemma_hex_round_trip(b.drop_first());
        let s = hex_of_bytes(b);
        let hi = b[0] / 16;
        let lo = b[0] % 16;
        assert(hi < 16 && lo < 16);
        assert(s[0] == nibble_char(hi) && s[1] == nibble_char(lo));
        assert(is_hex_char(nibble_char(hi)) && hex_val(nibble_char(hi)) == hi);
        assert(is_hex_char(nibble_char(lo)) && hex_val(nibble_char(lo)) == lo);
        assert(s.skip(2) =~= hex_of_bytes(b.drop_first()));
        assert(hex_val(s[0]) * 16 + hex_val(s[1]) == b[0]);
        assert(bytes_of_hex(s).unwrap() =~= b);
    }
}

proof fn lemma_hex_snoc(b: Seq<u8>, x: u8)
    ensures
        hex_of_bytes(b.push(x)) == hex_of_bytes(b) + seq![
            nibble_char(x / 16),
            nibble_char(x % 16),
        ],
    decreases b.len(),
{
    if b.len() == 0 {
        assert(b.push(x).drop_first() =~= b);
        assert(hex_of_bytes(b.push(x)) =~= hex_of_bytes(b) + seq![
            nibble_char(x / 16),
            nibble_char(x % 16),
        ]);
    } else {
        assert(b.push(x).drop_first() =~= b.drop_first().push(x));
        lemma_hex_snoc(b.drop_first(), x);
        assert(hex_of_bytes(b.push(x)) =~= hex_of_bytes(b) + seq![
            nibble_char(x / 16),
            nibble_char(x % 16),
        ]);
    }
}

/// The hex digit for a nibble, as a one-character string slice.
fn nibble_str(n: u8) -> (r: &'static str)
    requires
        n < 16,
    ensures
        r@ == seq![nibble_char(n)],
{
    proof {
        reveal_strlit("0");
        reveal_strlit("1");
        reveal_strlit("2");
        reveal_strlit("3");
        reveal_strlit("4");
        reveal_strlit("5");
        reveal_strlit("6");
        reveal_strlit("7");
        reveal_strlit("8");
        reveal_strlit("9");
        reveal_strlit("a");
        reveal_strlit("b");
        reveal_strlit("c");
        reveal_strlit("d");
        reveal_strlit("e");
        reveal_strlit("f");
    }
    match n {
        0 => "0",
        1 => "1",
        2 => "2",
        3 => "3",
        4 => "4",
        5 => "5",
        6 => "6",
        7 => "7",
        8 => "8",
        9 => "9",
        10 => "a",
        11 => "b",
        12 => "c",
        13 => "d",
        14 => "e",
        _ => "f",
    }
}

/// Spells a byte string in lowercase hex.
pub fn hex_encode(b: &Vec<u8>) -> (r: String)
    ensures
        r@ == hex_of_bytes(b@),
{
    let mut out = String::new();
    let mut i: usize = 0;
    while i < b.len()
        invariant
            i <= b.len(),
            out@ == hex_of_bytes(b@.take(i as int)),
        decreases b.len() - i,
    {
        let x = b[i];
        out.append(nibble_str(x / 16));
        out.append(nibble_str(x % 16));
        proof {
            lemma_hex_snoc(b@.take(i as int), b@[i as int]);
            assert(b@.take(i as int).push(b@[i as int]) =~= b@.take(i as int + 1));
        }
        i = i + 1;
    }
    proof {
        assert(b@.take(b@.len() as int) =~= b@);
    }
    out
}

/// The value of a hex digit character, or `None` for any other character.
fn hex_digit(c: char) -> (r: Option<u8>)
    ensures
        r is Some <==> is_hex_char(c),
        r matches Some(v) ==> v == hex_val(c) && v < 16,
{
    if '0' <= c && c <= '9' {
        Some((c as u8) - 48)
    } else if 'a' <= c && c <= 'f' {
        Some((c as u8) - 87)
    } else if 'A' <= c && c <= 'F' {
        Some((c as u8) - 55)
    } else {
        None
    }
}

/// Reads a hex string back into bytes; `None` when a character is not a
/// hex digit or the length is odd.
pub fn hex_decode(s: &str) -> (r: Option<Vec<u8>>)
    ensures
        r is Some <==> bytes_of_hex(s@) is Some,
        r matches Some(v) ==> bytes_of_hex(s@) == Some(v@),
{
    let n = s.unicode_len();
    if n % 2 != 0 {
        proof {
            lemma_odd_hex_none(s@);
        }
        return None;
    }
    let mut out: Vec<u8> = Vec::new();
    let mut i: usize = 0;
    proof {
        assert(s@.skip(0) =~= s@);
        if bytes_of_hex(s@) is Some {
            assert(Seq::<u8>::empty() + bytes_of_hex(s@).unwrap() =~= bytes_of_hex(s@).unwrap());
        }
    }
    while i < n
        invariant
            i <= n,
            n == s@.len(),
            n % 2 == 0,
            i % 2 == 0,
            match bytes_of_hex(s@.skip(i as int)) {
                Some(rest) => bytes_of_hex(s@) == Some(out@ + rest),
                None => bytes_of_hex(s@) is None,
            },
        decreases n - i,
    {
        let c0 = s.get_char(i);
        let c1 = s.get_char(i + 1);
        proof {
            assert(s@.skip(i as int)[0] == s@[i as int]);
            assert(s@.skip(i as int)[1] == s@[i as int + 1]);
            assert(s@.skip(i as int).skip(2) =~= s@.skip(i as int + 2));
        }
        let v0 = match hex_digit(c0) {
            Some(v) => v,
            None => {
                return None;
            },
        };
        let v1 = match hex_digit(c1) {
            Some(v) => v,
            None => {
                return None;
            },
        };
        out.push(v0 * 16 + v1);
        i = i + 2;
    }
    proof {
        assert(s@.skip(n as int) =~= Seq::<char>::empty());
        assert(out@ + Seq::<u8>::empty() =~= out@);
    }
    Some(out)
}

proof fn lemma_odd_hex_none(s: Seq<char>)
    requires
        s.len() % 2 == 1,
    ensures
        bytes_of_hex(s) is None,
    decreases s.len(),
{
    if s.len() > 1 {
        lemma_odd_hex_none(s.skip(2));
    }
}

} // verus!
