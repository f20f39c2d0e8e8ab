//! The legacy encodings of a 16-byte universally-unique identifier:
//! three mutually incompatible historical byte orders of the same bytes,
//! selected by an explicit representation tag. Encoding wraps the
//! reordered bytes as binary data with the legacy subtype; decoding
//! requires the subtype to match and reorders back.

use vstd::prelude::*;
use crate::value::{Bson, BsonV};

verus! {

/// The binary subtype of an identifier in the standard representation.
pub const UUID_SUBTYPE: u8 = 0x04;

/// The binary subtype shared by the three legacy representations.
pub const UUID_LEGACY_SUBTYPE: u8 = 0x03;

/// Which historical byte order an identifier is carried in.
#[derive(Clone, Copy, PartialEq, Eq, Structural, Debug)]
pub enum UuidRepresentation {
    Standard,
    JavaLegacy,
    PythonLegacy,
    CSharpLegacy,
}

/// The Java-driver legacy order: each eight-byte half reversed.
pub open spec fn java_legacy_of(s: Seq<u8>) -> Seq<u8> {
    Seq::new(
        16,
        |i: int|
            if i < 8 {
                s[7 - i]
            } else {
                s[23 - i]
            },
    )
}

/// The C#-driver legacy order: the first three groups stored little
/// endian, the rest unchanged.
pub open spec fn csharp_legacy_of(s: Seq<u8>) -> Seq<u8> {
    Seq::new(
        16,
        |i: int|
            if i < 4 {
                s[3 - i]
            } else if i < 6 {
                s[9 - i]
            } else if i < 8 {
                s[13 - i]
            } else {
                s[i]
            },
    )
}

/// The wire order of an identifier under a representation. The Python
/// legacy order keeps the standard bytes; only its subtype differs.
pub open spec fn uuid_wire_of(rep: UuidRepresentation, s: Seq<u8>) -> Seq<u8> {
    match rep {
        UuidRepresentation::Standard => s,
        UuidRepresentation::JavaLegacy => java_legacy_of(s),
        UuidRepresentation::PythonLegacy => s,
        UuidRepresentation::CSharpLegacy => csharp_legacy_of(s),
    }
}

/// The binary subtype an identifier is wrapped with under a
/// representation.
pub open spec fn uuid_subtype_of(rep: UuidRepresentation) -> u8 {
    match rep {
        UuidRepresentation::Standard => UUID_SUBTYPE,
        _ => UUID_LEGACY_SUBTYPE,
    }
}

/// Every representation's reorder undoes itself: applying it twice gives
/// the identifier back.
pub proof fn lemma_uuid_wire_involution(rep: UuidRepresentation, s: Seq<u8>)
    requires
        s.len() == 16,
    ensures
        uuid_wire_of(rep, uuid_wire_of(rep, s)) == s,
{
    assert(uuid_wire_of(rep, uuid_wire_of(rep, s)) =~= s);
}

/// Why an identifier conversion was refused: the bytes are not sixteen,
/// or the binary subtype does not match the representation asked for.
#[derive(Clone, Copy, PartialEq, Eq, Structural, Debug)]
pub enum UuidError {
    InvalidLength,
    SubtypeMismatch,
}

/// Reorders sixteen identifier bytes into their wire order under `rep`.
pub fn uuid_reorder(b: &Vec<u8>, rep: UuidRepresentation) -> (r: Vec<u8>)
    requires
        b@.len() == 16,
    ensures
        r@ == uuid_wire_of(rep, b@),
        r@.len() == 16,
{
    let mut out: Vec<u8> = Vec::new();
    match rep {
        UuidRepresentation::Standard | UuidRepresentation::PythonLegacy => {
            out.extend_from_slice(b.as_slice());
            assert(out@ =~= uuid_wire_of(rep, b@));
        },
        UuidRepresentation::JavaLegacy => {
            out.push(b[7]);
            out.push(b[6]);
            out.push(b[5]);
            out.push(b[4]);
            out.push(b[3]);
            out.push(b[2]);
            out.push(b[1]);
            out.push(b[0]);
            out.push(b[15]);
            out.push(b[14]);
            out.push(b[13]);
            out.push(b[12]);
            out.push(b[11]);
            out.push(b[10]);
            out.push(b[9]);
            out.push(b[8]);
            assert(out@ =~= java_legacy_of(b@));
        },
        UuidRepresentation::CSharpLegacy => {
            out.push(b[3]);
            out.push(b[2]);
            out.push(b[1]);
            out.push(b[0]);
            out.push(b[5]);
            out.push(b[4]);
            out.push(b[7]);
            out.push(b[6]);
            out.push(b[8]);
            out.push(b[9]);
            out.push(b[10]);
            out.push(b[11]);
            out.push(b[12]);
            out.push(b[13]);
            out.push(b[14]);
            out.push(b[15]);
            assert(out@ =~= csharp_legacy_of(b@));
        },
    }
    out
}

/// Wraps a 16-byte identifier as binary data in the byte order and with
/// the subtype of the chosen representation. Succeeds exactly when the
/// identifier has sixteen bytes.
pub fn uuid_to_binary(uuid: &Vec<u8>, rep: UuidRepresentation) -> (r: Result<Bson, UuidError>)
    ensures
        r is Ok <==> uuid@.len() == 16,
        r matches Ok(v) ==> v@ == BsonV::Binary(uuid_subtype_of(rep), uuid_wire_of(rep, uuid@)),
{
    if uuid.len() != 16 {
        return Err(UuidError::InvalidLength);
    }
    let subtype = match rep {
        UuidRepresentation::Standard => UUID_SUBTYPE,
        _ => UUID_LEGACY_SUBTYPE,
    };
    Ok(Bson::Binary(subtype, uuid_reorder(uuid, rep)))
}

/// Unwraps binary data into the identifier it carries under the chosen
/// representation. Succeeds exactly when the subtype matches the
/// representation and the payload has sixteen bytes; the identifier is
/// then the payload reordered back.
pub fn uuid_from_binary(subtype: u8, bytes: &Vec<u8>, rep: UuidRepresentation) -> (r: Result<
    Vec<u8>,
    UuidError,
>)
    ensures
        r is Ok <==> subtype == uuid_subtype_of(rep) && bytes@.len() == 16,
        r matches Ok(u) ==> u@ == uuid_wire_of(rep, bytes@) && uuid_wire_of(rep, u@) == bytes@,
{
    if subtype != (match rep {
        UuidRepresentation::Standard => UUID_SUBTYPE,
        _ => UUID_LEGACY_SUBTYPE,
    }) {
        return Err(UuidError::SubtypeMismatch);
    }
    if bytes.len() != 16 {
        return Err(UuidError::InvalidLength);
    }
    let u = uuid_reorder(bytes, rep);
    proof {
        lemma_uuid_wire_involution(rep, bytes@);
    }
    Ok(u)
}

} // verus!
