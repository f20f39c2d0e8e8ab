//! The raw buffer builders: an owned, growable byte buffer that is a
//! well-formed encoded document after every operation. Appending writes
//! the element's bytes before the terminator and rewrites the four-byte
//! length prefix, so the buffer never needs a separate finalize step.

use vstd::bytes::{spec_u32_to_le_bytes};
use vstd::prelude::*;
use crate::decoding::{dec_doc, decode_document, entry_values, keys_are_indices, DecodeError};
use crate::encoding::{
    dec_repr,
    el_tag,
    enc_array,
    enc_array_elems_from,
    enc_cstring,
    enc_doc,
    enc_entries_from,
    enc_value,
    encode_value_into,
    index_key_bytes,
    tag_of,
    EncodeError,
    MAX_DOCUMENT_LEN,
};
use crate::roundtrip::{lemma_array_elems_eq, lemma_dec_doc_sound, lemma_dec_enc_doc};
use crate::decoding::lemma_dec_repr_cstring;
use crate::value::{
    Bson,
    BsonV,
    bson_view,
    elems_view_from,
    entries_view_from,
    valid_bson,
    valid_cstring,
    valid_elems_from,
    valid_entries_from,
};

verus! {

/// Appending an entry appends its element bytes to the element region.
proof fn lemma_enc_entries_push(entries: Seq<(Seq<u8>, BsonV)>, e: (Seq<u8>, BsonV), i: int)
    requires
        0 <= i <= entries.len(),
    ensures
        enc_entries_from(entries.push(e), i) == enc_entries_from(entries, i) + (seq![el_tag(e.1)]
            + enc_cstring(e.0) + enc_value(e.1)),
        valid_entries_from(entries.push(e), i) == (valid_entries_from(entries, i) && valid_cstring(
            e.0,
        ) && valid_bson(e.1)),
    decreases entries.len() - i,
{
    let whole = entries.push(e);
    if i < entries.len() {
        assert(whole[i] == entries[i]);
        lemma_enc_entries_push(entries, e, i + 1);
        assert(enc_entries_from(whole, i) =~= enc_entries_from(entries, i) + (seq![el_tag(e.1)]
            + enc_cstring(e.0) + enc_value(e.1)));
        assert(valid_entries_from(whole, i) == (valid_entries_from(entries, i) && valid_cstring(
            e.0,
        ) && valid_bson(e.1)));
    } else {
        assert(whole[i] == e);
        assert(enc_entries_from(whole, i + 1) =~= Seq::<u8>::empty());
        assert(enc_entries_from(whole, i) =~= enc_entries_from(entries, i) + (seq![el_tag(e.1)]
            + enc_cstring(e.0) + enc_value(e.1)));
        assert(valid_entries_from(whole, i + 1));
        assert(valid_entries_from(whole, i) == (valid_cstring(e.0) && valid_bson(e.1)));
        assert(valid_entries_from(entries, i));
    }
}

/// Every element takes at least three bytes on the wire.
proof fn lemma_enc_entries_count(entries: Seq<(Seq<u8>, BsonV)>, i: int)
    requires
        0 <= i <= entries.len(),
    ensures
        enc_entries_from(entries, i).len() >= 2 * (entries.len() - i),
    decreases entries.len() - i,
{
    if i < entries.len() {
        lemma_enc_entries_count(entries, i + 1);
    }
}

/// An index-keyed document encodes exactly as the array of its values.
proof fn lemma_array_doc_encoding(entries: Seq<(Seq<u8>, BsonV)>)
    requires
        crate::decoding::keys_are_indices(entries),
    ensures
        enc_doc(entries) == enc_array(entry_values(entries)),
{
    lemma_array_elems_eq(entries, 0);
    assert(enc_doc(entries) =~= enc_array(entry_values(entries)));
}

/// The encoded elements of an array prefix, followed by the encoded
/// elements from the cut on, are the encoded elements of the whole.
proof fn lemma_enc_array_elems_split(ev: Seq<BsonV>, j: int, i: int)
    requires
        0 <= i <= j <= ev.len(),
    ensures
        enc_array_elems_from(ev.subrange(0, j), i) + enc_array_elems_from(ev, j)
            == enc_array_elems_from(ev, i),
    decreases j - i,
{
    let pre = ev.subrange(0, j);
    if i == j {
        assert(enc_array_elems_from(pre, i) =~= Seq::<u8>::empty());
        assert(Seq::<u8>::empty() + enc_array_elems_from(ev, j) =~= enc_array_elems_from(ev, j));
    } else {
        assert(pre[i] == ev[i]);
        lemma_enc_array_elems_split(ev, j, i + 1);
        assert(enc_array_elems_from(pre, i) + enc_array_elems_from(ev, j) =~= enc_array_elems_from(
            ev,
            i,
        ));
    }
}

/// An owned, growable buffer of encoded document bytes. The buffer is a
/// well-formed document after every successful operation; its entry list
/// is the builder's model.
pub struct RawDocumentBuf {
    buf: Vec<u8>,
    model: Ghost<Seq<(Seq<u8>, BsonV)>>,
}

impl RawDocumentBuf {
    /// The entries the buffer holds, in order.
    pub closed spec fn entries(&self) -> Seq<(Seq<u8>, BsonV)> {
        self.model@
    }

    /// Well-formedness: the bytes are exactly the wire form of the
    /// entries, the entries are representable, and the whole stays under
    /// the size ceiling.
    pub closed spec fn wf(&self) -> bool {
        &&& valid_entries_from(self.model@, 0)
        &&& self.buf@ == enc_doc(self.model@)
        &&& self.buf@.len() <= MAX_DOCUMENT_LEN
    }

    /// An empty document: length prefix five, no elements, terminator.
    pub fn new() -> (r: RawDocumentBuf)
        ensures
            r.wf(),
            r.entries() == Seq::<(Seq<u8>, BsonV)>::empty(),
    {
        proof {
            vstd::bytes::lemma_auto_spec_u32_to_from_le_bytes();
        }
        let mut buf: Vec<u8> = Vec::new();
        let lb = vstd::bytes::u32_to_le_bytes(5);
        buf.extend_from_slice(lb.as_slice());
        buf.push(0);
        let ghost entries = Seq::<(Seq<u8>, BsonV)>::empty();
        assert(enc_entries_from(entries, 0) =~= Seq::<u8>::empty());
        assert(buf@ =~= enc_doc(entries));
        RawDocumentBuf { buf, model: Ghost(entries) }
    }

    /// Takes ownership of already-encoded bytes, after validating them in
    /// full. Succeeds exactly when the bytes parse as one document; the
    /// builder's entries are then that parse.
    pub fn from_vec(bytes: Vec<u8>) -> (r: Result<RawDocumentBuf, DecodeError>)
        ensures
            match r {
                Ok(d) => d.wf() && dec_doc(bytes@, false) == Some(d.entries()),
                Err(_) => dec_doc(bytes@, false) is None,
            },
    {
        match decode_document(bytes.as_slice()) {
            Ok(es) => {
                let ghost ev = entries_view_from(es@, 0);
                proof {
                    lemma_dec_doc_sound(bytes@, false);
                }
                Ok(RawDocumentBuf { buf: bytes, model: Ghost(ev) })
            },
            Err(e) => Err(e),
        }
    }

    /// The encoded bytes: a well-formed document at every moment.
    pub fn as_bytes(&self) -> (r: &Vec<u8>)
        requires
            self.wf(),
        ensures
            r@ == enc_doc(self.entries()),
    {
        &self.buf
    }

    /// Gives the encoded bytes up.
    pub fn into_vec(self) -> (r: Vec<u8>)
        requires
            self.wf(),
        ensures
            r@ == enc_doc(self.entries()),
    {
        self.buf
    }

    /// Appends one element before the terminator and rewrites the length
    /// prefix. Succeeds exactly when the key is a well-formed C-string,
    /// the value is representable, and the grown buffer stays under the
    /// size ceiling; the buffer then holds the entry list with the new
    /// entry at its end. A failed append leaves the builder unchanged.
    #[verifier::rlimit(60)]
    pub fn append(&mut self, key: &Vec<u8>, value: &Bson) -> (r: Result<(), EncodeError>)
        requires
            old(self).wf(),
        ensures
            final(self).wf(),
            r is Ok <==> valid_cstring(key@) && valid_bson(value@) && enc_doc(
                old(self).entries(),
            ).len() + 2 + key@.len() + enc_value(value@).len() <= MAX_DOCUMENT_LEN,
            r is Ok ==> final(self).entries() == old(self).entries().push((key@, value@)),
            r is Err ==> *final(self) == *old(self),
    {
        proof {
            vstd::bytes::lemma_auto_spec_u32_to_from_le_bytes();
        }
        match crate::encoding::check_cstring(key.as_slice()) {
            Ok(()) => {},
            Err(e) => {
                return Err(e);
            },
        }
        let mut tmp: Vec<u8> = Vec::new();
        match encode_value_into(value, &mut tmp) {
            Ok(()) => {},
            Err(e) => {
                return Err(e);
            },
        }
        if key.len() > MAX_DOCUMENT_LEN {
            return Err(EncodeError::Oversize);
        }
        let n = self.buf.len();
        if key.len() + tmp.len() > MAX_DOCUMENT_LEN - 2 || n > MAX_DOCUMENT_LEN - 2 - key.len()
            - tmp.len() {
            return Err(EncodeError::Oversize);
        }
        let ghost old_entries = self.model@;
        let ghost e = (key@, value@);
        let total = n + 2 + key.len() + tmp.len();
        self.model = Ghost(old_entries.push(e));
        self.buf.truncate(n - 1);
        self.buf.push(tag_of(value));
        self.buf.extend_from_slice(key.as_slice());
        self.buf.push(0);
        self.buf.extend_from_slice(tmp.as_slice());
        self.buf.push(0);
        let lb = vstd::bytes::u32_to_le_bytes(total as u32);
        let b0 = lb[0];
        let b1 = lb[1];
        let b2 = lb[2];
        let b3 = lb[3];
        self.buf.set(0, b0);
        self.buf.set(1, b1);
        self.buf.set(2, b2);
        self.buf.set(3, b3);
        proof {
            lemma_enc_entries_push(old_entries, e, 0);
            assert(old(self).buf@.subrange(0, n - 1) =~= spec_u32_to_le_bytes(
                (enc_entries_from(old_entries, 0).len() + 5) as u32,
            ) + enc_entries_from(old_entries, 0));
            assert(self.buf@ =~= spec_u32_to_le_bytes(total as u32) + enc_entries_from(
                old_entries.push(e),
                0,
            ) + seq![0u8]);
        }
        Ok(())
    }
}

impl Default for RawDocumentBuf {
    /// An empty document.
    fn default() -> (r: RawDocumentBuf)
        ensures
            r.wf(),
            r.entries() == Seq::<(Seq<u8>, BsonV)>::empty(),
    {
        RawDocumentBuf::new()
    }
}

/// An owned, growable buffer of encoded array bytes: a document whose
/// keys are the decimal strings of the element indices, synthesized from
/// a count the builder maintains.
pub struct RawArrayBuf {
    inner: RawDocumentBuf,
    len: usize,
}

impl RawArrayBuf {
    /// The elements the buffer holds, in order.
    pub closed spec fn elems(&self) -> Seq<BsonV> {
        entry_values(self.inner.entries())
    }

    /// Well-formedness: the underlying document is well-formed, its keys
    /// are exactly the element indices, and the count matches.
    pub closed spec fn wf(&self) -> bool {
        &&& self.inner.wf()
        &&& keys_are_indices(self.inner.entries())
        &&& self.len == self.inner.entries().len()
    }

    /// Constructs a new, empty array buffer.
    pub fn new() -> (r: RawArrayBuf)
        ensures
            r.wf(),
            r.elems() == Seq::<BsonV>::empty(),
            r.entries() == Seq::<(Seq<u8>, BsonV)>::empty(),
    {
        let r = RawArrayBuf { inner: RawDocumentBuf::new(), len: 0 };
        proof {
            assert(entry_values(r.inner.entries()) =~= Seq::<BsonV>::empty());
        }
        r
    }

    /// Constructs an array buffer from an encoded document whose keys are
    /// already the element indices. One pass over the buffer counts the
    /// elements; the count is maintained from then on, never recomputed.
    pub fn from_raw_document_buf(doc: RawDocumentBuf) -> (r: RawArrayBuf)
        requires
            doc.wf(),
            keys_are_indices(doc.entries()),
        ensures
            r.wf(),
            r.elems() == entry_values(doc.entries()),
            r.entries() == doc.entries(),
    {
        proof {
            lemma_dec_enc_doc(doc.entries(), false);
        }
        let n = match decode_document(doc.as_bytes().as_slice()) {
            Ok(es) => {
                proof {
                    crate::encoding::lemma_entries_view_from(es@, 0);
                }
                es.len()
            },
            Err(_) => {
                proof {
                    assert(false);
                }
                0
            },
        };
        RawArrayBuf { inner: doc, len: n }
    }

    /// The underlying document buffer's entries.
    pub closed spec fn entries(&self) -> Seq<(Seq<u8>, BsonV)> {
        self.inner.entries()
    }

    /// The encoded bytes: the wire form of the array the builder holds.
    pub fn as_bytes(&self) -> (r: &Vec<u8>)
        requires
            self.wf(),
        ensures
            r@ == enc_array(self.elems()),
            r@ == enc_doc(self.entries()),
    {
        proof {
            lemma_array_doc_encoding(self.inner.entries());
        }
        self.inner.as_bytes()
    }

    /// Appends a value at the end of the array, synthesizing its key from
    /// the maintained count. Succeeds exactly when the value is
    /// representable and the grown buffer stays under the size ceiling.
    pub fn push(&mut self, value: &Bson) -> (r: Result<(), EncodeError>)
        requires
            old(self).wf(),
        ensures
            final(self).wf(),
            r is Ok <==> valid_bson(value@) && enc_array(old(self).elems()).len() + 2 + dec_repr(
                old(self).elems().len(),
            ).len() + enc_value(value@).len() <= MAX_DOCUMENT_LEN,
            r is Ok ==> final(self).elems() == old(self).elems().push(value@),
            r is Ok ==> final(self).entries() == old(self).entries().push(
                (dec_repr(old(self).elems().len()), value@),
            ),
            r is Err ==> *final(self) == *old(self),
    {
        let key = index_key_bytes(self.len);
        proof {
            lemma_dec_repr_cstring(self.len as nat);
            lemma_enc_entries_count(self.inner.entries(), 0);
            lemma_array_doc_encoding(self.inner.entries());
        }
        let ghost old_entries = self.inner.entries();
        match self.inner.append(&key, value) {
            Ok(()) => {
                proof {
                    assert forall|i: int|
                        0 <= i < old_entries.len() + 1 implies #[trigger] old_entries.push(
                        (key@, value@),
                    )[i].0 == dec_repr(i as nat) by {
                        if i < old_entries.len() {
                            assert(old_entries.push((key@, value@))[i] == old_entries[i]);
                        }
                    }
                    assert(entry_values(old_entries.push((key@, value@))) =~= entry_values(
                        old_entries,
                    ).push(value@));
                }
                self.len = self.len + 1;
                Ok(())
            },
            Err(e) => Err(e),
        }
    }

    /// Builds an array buffer from a list of typed values, pushing each
    /// in turn. Succeeds exactly when every value is representable and
    /// the array's encoding stays under the size ceiling; the buffer then
    /// holds precisely those values.
    pub fn from_values(values: &Vec<Bson>) -> (r: Result<RawArrayBuf, EncodeError>)
        ensures
            r is Ok <==> valid_elems_from(elems_view_from(values@, 0), 0) && enc_array(
                elems_view_from(values@, 0),
            ).len() <= MAX_DOCUMENT_LEN,
            r matches Ok(a) ==> a.wf() && a.elems() == elems_view_from(values@, 0),
    {
        proof {
            vstd::bytes::lemma_auto_spec_u32_to_from_le_bytes();
        }
        let ghost ev = elems_view_from(values@, 0);
        proof {
            crate::encoding::lemma_elems_view_from(values@, 0);
            assert forall|k: int| 0 <= k < values@.len() implies #[trigger] ev[k] == bson_view(
                values@[k],
            ) by {
                assert(elems_view_from(values@, 0)[k - 0] == bson_view(values@[k]));
            }
        }
        let n = values.len();
        let mut arr = RawArrayBuf::new();
        let mut j: usize = 0;
        proof {
            assert(arr.elems() =~= ev.subrange(0, 0));
        }
        while j < n
            invariant
                0 <= j <= n,
                n == values@.len(),
                ev == elems_view_from(values@, 0),
                ev.len() == n,
                forall|k: int| 0 <= k < n ==> #[trigger] ev[k] == bson_view(values@[k]),
                arr.wf(),
                arr.elems() == ev.subrange(0, j as int),
                valid_elems_from(ev, 0) <==> valid_elems_from(ev, j as int),
            decreases n - j,
        {
            let ghost pre = arr.elems();
            match arr.push(&values[j]) {
                Ok(()) => {},
                Err(e) => {
                    proof {
                        vstd::bytes::lemma_auto_spec_u32_to_from_le_bytes();
                        if valid_bson(ev[j as int]) {
                            // The failed push was a size failure; the whole
                            // array's encoding is larger than what failed.
                            lemma_enc_array_elems_split(ev, j as int, 0);
                            assert(enc_array_elems_from(ev, j as int) == seq![el_tag(
                                ev[j as int],
                            )] + enc_cstring(dec_repr(j as nat)) + enc_value(ev[j as int])
                                + enc_array_elems_from(ev, j + 1));
                            assert(enc_array(pre).len() == 5 + enc_array_elems_from(pre, 0).len());
                            assert(enc_array(ev).len() == 5 + enc_array_elems_from(ev, 0).len());
                            assert(enc_array(ev).len() > MAX_DOCUMENT_LEN);
                        } else {
                            assert(!valid_elems_from(ev, j as int));
                        }
                    }
                    return Err(e);
                },
            }
            proof {
                assert(arr.elems() =~= ev.subrange(0, j + 1));
            }
            j = j + 1;
        }
        proof {
            assert(ev.subrange(0, n as int) =~= ev);
            lemma_array_doc_encoding(arr.inner.entries());
        }
        Ok(arr)
    }

    /// The number of elements, as maintained by the builder.
    pub fn element_count(&self) -> (r: usize)
        requires
            self.wf(),
        ensures
            r == self.elems().len(),
    {
        proof {
            assert(entry_values(self.inner.entries()).len() == self.inner.entries().len());
        }
        self.len
    }
}


impl Default for RawArrayBuf {
    /// An empty array.
    fn default() -> (r: RawArrayBuf)
        ensures
            r.wf(),
            r.elems() == Seq::<BsonV>::empty(),
            r.entries() == Seq::<(Seq<u8>, BsonV)>::empty(),
    {
        RawArrayBuf::new()
    }
}

} // verus!
