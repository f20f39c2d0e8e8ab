//! Byte-level text handling: an exact UTF-8 validator, and the lossy
//! transform that replaces ill-formed sequences with the Unicode
//! replacement character.

use vstd::prelude::*;
use vstd::utf8::{valid_utf8, valid_first_scalar, length_of_first_scalar, pop_first_scalar, codepoint_width_2, codepoint_width_3, codepoint_width_4};

verus! {

/// Relates validity of a whole sequence to validity of its tail after one
/// well-formed scalar of `k` bytes.
proof fn lemma_valid_utf8_step(s: Seq<u8>, i: int, k: int)
    requires
        0 <= i,
        i + k <= s.len(),
        1 <= k,
        valid_first_scalar(s.skip(i)),
        length_of_first_scalar(s.skip(i)) == k,
    ensures
        valid_utf8(s.skip(i)) <==> valid_utf8(s.skip(i + k)),
{
    let t = s.skip(i);
    assert(pop_first_scalar(t) =~= s.skip(i + k));
}

/// Checks whether the bytes beginning at `i` start with a well-formed
/// scalar encoding, returning its byte width, or `None` when they do not.
fn first_scalar_width(bytes: &[u8], i: usize) -> (r: Option<usize>)
    requires
        i < bytes@.len(),
    ensures
        match r {
            Some(k) => 1 <= k <= 4 && i + k <= bytes@.len() && valid_first_scalar(bytes@.skip(i as int))
                && length_of_first_scalar(bytes@.skip(i as int)) == k,
            None => !valid_first_scalar(bytes@.skip(i as int)),
        },
{
    let n = bytes.len();
    let t = Ghost(bytes@.skip(i as int));
    assert(t@[0] == bytes@[i as int]);
    let b0 = bytes[i];
    if b0 <= 0x7f {
        proof {
            assert((b0 & 0x7f) == b0) by (bit_vector)
                requires
                    b0 <= 0x7f,
            ;
        }
        Some(1)
    } else if 0xc0 <= b0 && b0 <= 0xdf {
        if n - i < 2 {
            return None;
        }
        assert(t@[1] == bytes@[i + 1]);
        let b1 = bytes[i + 1];
        if !(0x80 <= b1 && b1 <= 0xbf) {
            return None;
        }
        let cp: u32 = (((b0 & 0x1f) as u32) << 6u32) | ((b1 & 0x3f) as u32);
        assert(cp == codepoint_width_2(b0, b1));
        if cp < 0x80 {
            return None;
        }
        proof {
            assert(cp <= 0x7ff) by (bit_vector)
                requires
                    cp == (((b0 & 0x1f) as u32) << 6u32) | ((b1 & 0x3f) as u32),
            ;
        }
        Some(2)
    } else if 0xe0 <= b0 && b0 <= 0xef {
        if n - i < 3 {
            return None;
        }
        assert(t@[1] == bytes@[i + 1]);
        assert(t@[2] == bytes@[i + 2]);
        let b1 = bytes[i + 1];
        let b2 = bytes[i + 2];
        if !(0x80 <= b1 && b1 <= 0xbf) || !(0x80 <= b2 && b2 <= 0xbf) {
            return None;
        }
        let cp: u32 = (((b0 & 0x0f) as u32) << 12u32) | (((b1 & 0x3f) as u32) << 6u32) | ((b2
            & 0x3f) as u32);
        assert(cp == codepoint_width_3(b0, b1, b2));
        if cp < 0x800 || (0xd800 <= cp && cp <= 0xdfff) {
            return None;
        }
        Some(3)
    } else if 0xf0 <= b0 && b0 <= 0xf7 {
        if n - i < 4 {
            return None;
        }
        assert(t@[1] == bytes@[i + 1]);
        assert(t@[2] == bytes@[i + 2]);
        assert(t@[3] == bytes@[i + 3]);
        let b1 = bytes[i + 1];
        let b2 = bytes[i + 2];
        let b3 = bytes[i + 3];
        if !(0x80 <= b1 && b1 <= 0xbf) || !(0x80 <= b2 && b2 <= 0xbf) || !(0x80 <= b3 && b3
            <= 0xbf) {
            return None;
        }
        let cp: u32 = (((b0 & 0x07) as u32) << 18u32) | (((b1 & 0x3f) as u32) << 12u32) | (((b2
            & 0x3f) as u32) << 6u32) | ((b3 & 0x3f) as u32);
        assert(cp == codepoint_width_4(b0, b1, b2, b3));
        if cp < 0x10000 || cp > 0x10ffff {
            return None;
        }
        Some(4)
    } else {
        None
    }
}

/// Decides whether the given bytes are a well-formed UTF-8 encoding.
pub fn is_valid_utf8(bytes: &[u8]) -> (r: bool)
    ensures
        r == valid_utf8(bytes@),
{
    let n = bytes.len();
    let mut i: usize = 0;
    assert(bytes@.skip(0) =~= bytes@);
    while i < n
        invariant
            0 <= i <= n,
            n == bytes@.len(),
            valid_utf8(bytes@) <==> valid_utf8(bytes@.skip(i as int)),
        decreases n - i,
    {
        match first_scalar_width(bytes, i) {
            Some(k) => {
                proof {
                    lemma_valid_utf8_step(bytes@, i as int, k as int);
                }
                i = i + k;
            },
            None => {
                assert(!valid_utf8(bytes@.skip(i as int)));
                return false;
            },
        }
    }
    assert(bytes@.skip(n as int) =~= Seq::<u8>::empty());
    true
}

/// Replaces every maximal ill-formed byte with the replacement character;
/// well-formed scalars are kept as they are.
pub open spec fn lossy_utf8(s: Seq<u8>) -> Seq<u8>
    decreases s.len(),
{
    if s.len() == 0 {
        seq![]
    } else if vstd::utf8::valid_first_scalar(s) {
        s.subrange(0, vstd::utf8::length_of_first_scalar(s)) + lossy_utf8(
            vstd::utf8::pop_first_scalar(s),
        )
    } else {
        seq![0xefu8, 0xbfu8, 0xbdu8] + lossy_utf8(s.drop_first())
    }
}

/// What the lossy repair guarantees: it is well-formed UTF-8, it keeps
/// well-formed input unchanged, and it introduces no null byte into
/// null-free input.
pub proof fn lemma_lossy_utf8(s: Seq<u8>)
    ensures
        valid_utf8(lossy_utf8(s)),
        valid_utf8(s) ==> lossy_utf8(s) == s,
        (forall|j: int| 0 <= j < s.len() ==> s[j] != 0u8) ==> forall|j: int|
            0 <= j < lossy_utf8(s).len() ==> lossy_utf8(s)[j] != 0u8,
    decreases s.len(),
{
    broadcast use vstd::utf8::valid_utf8_concat;

    if s.len() == 0 {
    } else if vstd::utf8::valid_first_scalar(s) {
        let k = vstd::utf8::length_of_first_scalar(s);
        let head = s.subrange(0, k);
        let tail = vstd::utf8::pop_first_scalar(s);
        lemma_lossy_utf8(tail);
        assert(vstd::utf8::valid_first_scalar(head));
        assert(valid_utf8(Seq::<u8>::empty()));
        assert(vstd::utf8::pop_first_scalar(head) =~= Seq::<u8>::empty());
        assert(valid_utf8(head));
        if valid_utf8(s) {
            assert(lossy_utf8(s) =~= s);
        }
        assert forall|j: int|
            (forall|i: int| 0 <= i < s.len() ==> s[i] != 0u8) && 0 <= j < lossy_utf8(s).len()
                implies lossy_utf8(s)[j] != 0u8 by {
            if j < k {
                assert(lossy_utf8(s)[j] == s[j]);
            } else {
                assert(lossy_utf8(s)[j] == lossy_utf8(tail)[j - k]);
                assert(forall|i: int| 0 <= i < tail.len() ==> tail[i] != 0u8);
            }
        }
    } else {
        let tail = s.drop_first();
        lemma_lossy_utf8(tail);
        let rep = seq![0xefu8, 0xbfu8, 0xbdu8];
        assert(valid_utf8(Seq::<u8>::empty()));
        assert(valid_utf8(rep)) by {
            assert(valid_utf8(Seq::<u8>::empty()));
            assert(vstd::utf8::valid_first_scalar(rep)) by {
                assert((((0xefu8 & 0x0fu8) as u32) << 12u32) | (((0xbfu8 & 0x3fu8) as u32)
                    << 6u32) | ((0xbdu8 & 0x3fu8) as u32) == 0xfffdu32) by (bit_vector);
            }
            assert(vstd::utf8::pop_first_scalar(rep) =~= Seq::<u8>::empty());
        }
        assert forall|j: int|
            (forall|i: int| 0 <= i < s.len() ==> s[i] != 0u8) && 0 <= j < lossy_utf8(s).len()
                implies lossy_utf8(s)[j] != 0u8 by {
            if j >= 3 {
                assert(lossy_utf8(s)[j] == lossy_utf8(tail)[j - 3]);
                assert(forall|i: int| 0 <= i < tail.len() ==> tail[i] != 0u8);
            }
        }
    }
}


/// Repairs bytes into well-formed UTF-8: well-formed scalars are kept,
/// and each ill-formed byte becomes the replacement character.
pub fn utf8_lossy(bytes: &[u8]) -> (r: Vec<u8>)
    ensures
        r@ == lossy_utf8(bytes@),
{
    let n = bytes.len();
    let mut out: Vec<u8> = Vec::new();
    let mut i: usize = 0;
    assert(bytes@.skip(0) =~= bytes@);
    while i < n
        invariant
            0 <= i <= n,
            n == bytes@.len(),
            out@ + lossy_utf8(bytes@.skip(i as int)) == lossy_utf8(bytes@),
        decreases n - i,
    {
        let ghost t = bytes@.skip(i as int);
        let ghost out0 = out@;
        match first_scalar_width(bytes, i) {
            Some(k) => {
                let piece = vstd::slice::slice_subrange(bytes, i, i + k);
                out.extend_from_slice(piece);
                proof {
                    assert(t.subrange(0, k as int) =~= bytes@.subrange(i as int, i + k));
                    assert(vstd::utf8::pop_first_scalar(t) =~= bytes@.skip(i + k));
                    assert(out@ + lossy_utf8(bytes@.skip(i + k)) =~= out0 + lossy_utf8(t));
                }
                i = i + k;
            },
            None => {
                out.push(0xef);
                out.push(0xbf);
                out.push(0xbd);
                proof {
                    assert(t.drop_first() =~= bytes@.skip(i + 1));
                    assert(out@ =~= out0 + seq![0xefu8, 0xbfu8, 0xbdu8]);
                    assert(out@ + lossy_utf8(bytes@.skip(i + 1)) =~= out0 + lossy_utf8(t));
                }
                i = i + 1;
            },
        }
    }
    assert(bytes@.skip(n as int) =~= Seq::<u8>::empty());
    assert(out@ =~= lossy_utf8(bytes@));
    out
}

} // verus!
