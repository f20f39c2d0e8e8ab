//! The hex-string adapter for 12-byte object identifiers: an identifier
//! renders as twenty-four lowercase hex digits, and parses back from
//! digits of either case.

use vstd::prelude::*;

verus! {

/// The lowercase hex digit of a value below sixteen.
pub open spec fn hex_digit(n: u8) -> u8 {
    if n < 10 {
        (48 + n) as u8
    } else {
        (87 + n) as u8
    }
}

/// The value of one hex digit, of either case, if it is one.
pub open spec fn hex_digit_value(c: u8) -> Option<u8> {
    if 48 <= c <= 57 {
        Some((c - 48) as u8)
    } else if 97 <= c <= 102 {
        Some((c - 87) as u8)
    } else if 65 <= c <= 70 {
        Some((c - 55) as u8)
    } else {
        None
    }
}

/// The lowercase hex rendering of bytes: two digits for each byte, the
/// high digit first.
pub open spec fn hex_of(bytes: Seq<u8>) -> Seq<u8>
    decreases bytes.len(),
{
    if bytes.len() == 0 {
        seq![]
    } else {
        seq![hex_digit((bytes[0] / 16) as u8), hex_digit((bytes[0] % 16) as u8)] + hex_of(
            bytes.drop_first(),
        )
    }
}

/// The bytes that hex digits of either case stand for, if every character
/// is such a digit and they come in pairs.
pub open spec fn hex_parse(s: Seq<u8>) -> Option<Seq<u8>>
    decreases s.len(),
{
    if s.len() == 0 {
        Some(seq![])
    } else if s.len() == 1 {
        None
    } else {
        match (hex_digit_value(s[0]), hex_digit_value(s[1])) {
            (Some(hi), Some(lo)) => match hex_parse(s.skip(2)) {
                Some(rest) => Some(seq![(hi * 16 + lo) as u8] + rest),
                None => None,
            },
            _ => None,
        }
    }
}

/// Parsing undoes rendering: the hex text of any bytes parses back to
/// those bytes.
pub proof fn lemma_hex_roundtrip(bytes: Seq<u8>)
    ensures
        hex_of(bytes).len() == 2 * bytes.len(),
        hex_parse(hex_of(bytes)) == Some(bytes),
    decreases bytes.len(),
{
    if bytes.len() > 0 {
        lemma_hex_roundtrip(bytes.drop_first());
        let s = hex_of(bytes);
        assert(s.skip(2) =~= hex_of(bytes.drop_first()));
        assert(seq![bytes[0]] + bytes.drop_first() =~= bytes);
    }
}

/// Renders bytes as lowercase hex text, two digits for each byte.
pub fn bytes_to_hex(bytes: &Vec<u8>) -> (r: Vec<u8>)
    ensures
        r@ == hex_of(bytes@),
{
    let n = bytes.len();
    let mut out: Vec<u8> = Vec::new();
    let mut i: usize = 0;
    proof {
        assert(bytes@.skip(0) =~= bytes@);
        assert(Seq::<u8>::empty() + hex_of(bytes@) =~= hex_of(bytes@));
    }
    while i < n
        invariant
            0 <= i <= n,
            n == bytes@.len(),
            out@ + hex_of(bytes@.skip(i as int)) == hex_of(bytes@),
        decreases n - i,
    {
        let b = bytes[i];
        let ghost out0 = out@;
        let hi = b / 16;
        let lo = b % 16;
        out.push(if hi < 10 { 48 + hi } else { 87 + hi });
        out.push(if lo < 10 { 48 + lo } else { 87 + lo });
        proof {
            let t = bytes@.skip(i as int);
            assert(t[0] == bytes@[i as int]);
            assert(t.drop_first() =~= bytes@.skip(i + 1));
            assert(out@ =~= out0 + seq![hex_digit(hi), hex_digit(lo)]);
            assert(out@ + hex_of(bytes@.skip(i + 1)) =~= out0 + hex_of(t));
        }
        i = i + 1;
    }
    assert(bytes@.skip(n as int) =~= Seq::<u8>::empty());
    assert(out@ =~= hex_of(bytes@));
    out
}

/// Parses hex text of either case back to bytes. Succeeds exactly when
/// every character is a hex digit and they come in pairs.
pub fn hex_to_bytes(s: &[u8]) -> (r: Option<Vec<u8>>)
    ensures
        match r {
            Some(b) => hex_parse(s@) == Some(b@),
            None => hex_parse(s@) is None,
        },
{
    let n = s.len();
    let mut out: Vec<u8> = Vec::new();
    let mut i: usize = 0;
    proof {
        assert(s@.skip(0) =~= s@);
    }
    while i < n
        invariant
            0 <= i <= n,
            i % 2 == 0,
            n == s@.len(),
            match hex_parse(s@.skip(i as int)) {
                Some(rest) => hex_parse(s@) == Some(out@ + rest),
                None => hex_parse(s@) is None,
            },
        decreases n - i,
    {
        let ghost t = s@.skip(i as int);
        assert(t[0] == s@[i as int]);
        if n - i == 1 {
            return None;
        }
        assert(t[1] == s@[i + 1]);
        let c0 = s[i];
        let c1 = s[i + 1];
        let hi = match hex_value(c0) {
            Some(v) => v,
            None => {
                return None;
            },
        };
        let lo = match hex_value(c1) {
            Some(v) => v,
            None => {
                return None;
            },
        };
        let ghost out0 = out@;
        out.push(hi * 16 + lo);
        proof {
            assert(t.skip(2) =~= s@.skip(i + 2));
            assert(out@ =~= out0 + seq![(hi * 16 + lo) as u8]);
            match hex_parse(s@.skip(i + 2)) {
                Some(rest) => {
                    assert(out@ + rest =~= out0 + (seq![(hi * 16 + lo) as u8] + rest));
                },
                None => {},
            }
        }
        i = i + 2;
    }
    assert(s@.skip(n as int) =~= Seq::<u8>::empty());
    assert(out@ + Seq::<u8>::empty() =~= out@);
    Some(out)
}

/// The value of one hex digit, of either case.
fn hex_value(c: u8) -> (r: Option<u8>)
    ensures
        r == hex_digit_value(c),
{
    if 48 <= c && c <= 57 {
        Some(c - 48)
    } else if 97 <= c && c <= 102 {
        Some(c - 87)
    } else if 65 <= c && c <= 70 {
        Some(c - 55)
    } else {
        None
    }
}

/// Renders a 12-byte identifier as its twenty-four-digit hex text.
pub fn object_id_to_hex(id: &Vec<u8>) -> (r: Option<Vec<u8>>)
    ensures
        r is Some <==> id@.len() == 12,
        r matches Some(h) ==> h@ == hex_of(id@) && h@.len() == 24,
{
    if id.len() != 12 {
        return None;
    }
    proof {
        lemma_hex_roundtrip(id@);
    }
    Some(bytes_to_hex(id))
}

/// Parses twenty-four hex digits of either case into a 12-byte
/// identifier. Succeeds exactly when the text is such digits.
pub fn object_id_parse_hex(s: &[u8]) -> (r: Option<Vec<u8>>)
    ensures
        match r {
            Some(id) => s@.len() == 24 && hex_parse(s@) == Some(id@) && id@.len() == 12,
            None => s@.len() != 24 || hex_parse(s@) is None,
        },
{
    if s.len() != 24 {
        return None;
    }
    match hex_to_bytes(s) {
        Some(id) => {
            proof {
                lemma_hex_parse_len(s@);
            }
            Some(id)
        },
        None => None,
    }
}

/// A parse yields one byte for every two digits.
proof fn lemma_hex_parse_len(s: Seq<u8>)
    ensures
        hex_parse(s) matches Some(b) ==> b.len() * 2 == s.len(),
    decreases s.len(),
{
    if s.len() >= 2 && hex_parse(s) is Some {
        lemma_hex_parse_len(s.skip(2));
    }
}

} // verus!
