//! The ownership-erasure wrapper: one reference-counted, heap-stable byte
//! buffer together with the value tree decoded from it, behind a handle
//! whose type no longer mentions the aliasing.
//!
//! The spans inside the tree point only into the wrapped buffer, and the
//! buffer lives exactly as long as any unit that shares it: construction
//! takes (a share of) the buffer, projection hands out a borrow whose
//! lifetime the compiler ties to the unit, and dropping the last sharer
//! releases the buffer.
use std::sync::Arc;

use vstd::prelude::*;

use crate::parse::{sp_doc, DecodeError, MAX_DEPTH, PR};
use crate::ser::{ser_val, SR};
use crate::value::{fits_depth, no_bytes_leaf, wf_gval, GValue, Value};

verus! {

/// A decoded document whose string leaves alias the wrapped buffer.
pub struct ErasedDoc {
    buf: Arc<Vec<u8>>,
    val: Value,
}

impl ErasedDoc {
    /// The bytes of the wrapped buffer.
    pub closed spec fn buf_bytes(self) -> Seq<u8> {
        self.buf@
    }

    /// The decoded tree, as its ghost mirror.
    pub closed spec fn gval(self) -> GValue {
        self.val.dview()
    }

    /// The tree is exactly what decoding the buffer yields, and is
    /// therefore well formed against it: every span in bounds, every
    /// text leaf UTF-8, keys sorted and unique, nesting bounded, no
    /// `Bytes` leaves.
    #[verifier::type_invariant]
    pub closed spec fn inv(self) -> bool {
        &&& sp_doc(self.buf@) == PR::POk(self.val.dview(), self.buf@.len() as int)
        &&& wf_gval(self.buf@, self.val.dview())
        &&& fits_depth(self.val.dview(), MAX_DEPTH as nat)
        &&& no_bytes_leaf(self.val.dview())
    }

    /// Decodes the shared buffer and stores the aliasing tree beside it.
    /// Another unit may hold a clone of the same `Arc` and decode it
    /// independently; the buffer is freed only when the last share drops.
    pub fn decode_and_erase(buf: Arc<Vec<u8>>) -> (res: Result<ErasedDoc, DecodeError>)
        ensures
            match res {
                Ok(d) => d.buf_bytes() == buf@ && sp_doc(buf@) == PR::POk(
                    d.gval(),
                    buf@.len() as int,
                ),
                Err(e) => sp_doc(buf@) == PR::<GValue>::PFail(e),
            },
    {
        let slice: &[u8] = buf.as_slice();
        let n = slice.len();
        match crate::parse::decode(slice) {
            Ok(v) => {
                proof {
                    crate::parse::lemma_sp_doc_wf(buf@);
                }
                Ok(ErasedDoc { buf, val: v })
            },
            Err(e) => Err(e),
        }
    }

    /// Decodes a buffer that is not yet shared.
    pub fn decode_owned(bytes: Vec<u8>) -> (res: Result<ErasedDoc, DecodeError>)
        ensures
            match res {
                Ok(d) => d.buf_bytes() == bytes@ && sp_doc(bytes@) == PR::POk(
                    d.gval(),
                    bytes@.len() as int,
                ),
                Err(e) => sp_doc(bytes@) == PR::<GValue>::PFail(e),
            },
    {
        Self::decode_and_erase(Arc::new(bytes))
    }

    /// A scoped, read-only projection of the decoded value. The borrow is
    /// tied to the unit, so no projection can outlive the wrapper.
    pub fn get(&self) -> (r: &Value)
        ensures
            r.dview() == self.gval(),
    {
        &self.val
    }

    /// Read-only access to the wrapped buffer's bytes, for resolving the
    /// spans of the projected tree.
    pub fn buffer(&self) -> (r: &[u8])
        ensures
            r@ == self.buf_bytes(),
    {
        self.buf.as_slice()
    }

    /// Re-encodes the wrapped tree to JSON bytes. A decoded tree always
    /// encodes, so this cannot fail.
    pub fn to_bytes(&self) -> (r: Vec<u8>)
        ensures
            ser_val(self.buf_bytes(), self.gval()) == SR::SOk(r@),
    {
        proof {
            use_type_invariant(self);
            crate::ser::lemma_wf_ser_ok(self.buf@, self.val.dview());
        }
        match crate::ser::encode(self.buf.as_slice(), &self.val) {
            Ok(o) => o,
            Err(_) => {
                proof {
                    assert(false);
                }
                Vec::new()
            },
        }
    }
}

} // verus!
