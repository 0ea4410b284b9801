use crate::decode::{read_header, read_tensors, read_value};
use crate::error::{GGUFError, GGUFReaderErrorKind};
use crate::header::{alignment_of, GGUFHeader, TensorDescriptor};
use crate::value::GGUFValue;
use crate::wire::{
    align_up, le_at, parse_header, parse_tensors, parse_value, Decoded, GGUF_MAGIC,
};
use vstd::prelude::*;

verus! {

/// `r` is what a read gives according to `d`, and the position moves with
/// it: behind the thing that was decoded, and not at all on an error.
pub open spec fn advanced<T: DeepView>(
    r: Result<T, GGUFError>,
    d: Decoded<T::V>,
    before: int,
    after: int,
) -> bool {
    match d {
        Ok((v, next)) => r matches Ok(x) && x.deep_view() == v && after == next,
        Err(k) => r matches Err(e) && e.spec_kind() == k && after == before,
    }
}

/// Where the data section starts for a reader at `pos` and an alignment of
/// `alignment`: at the next multiple of the alignment; an error of the
/// kind given where there is no alignment, and `Unexpected` where the start
/// does not fit in 64 bits.
pub open spec fn data_start(pos: int, alignment: Result<u32, GGUFReaderErrorKind>) -> Result<
    u64,
    GGUFReaderErrorKind,
> {
    match alignment {
        Err(k) => Err(k),
        Ok(a) => if align_up(pos, a as int) <= u64::MAX {
            Ok(align_up(pos, a as int) as u64)
        } else {
            Err(GGUFReaderErrorKind::Unexpected)
        },
    }
}

/// The next multiple of the alignment is a multiple of it, not before the
/// position, and less than one alignment behind it.
pub proof fn lemma_align_up(pos: int, alignment: int)
    requires
        pos >= 0,
        alignment > 0,
    ensures
        align_up(pos, alignment) % alignment == 0,
        pos <= align_up(pos, alignment) < pos + alignment,
{
    let x = pos + alignment - 1;
    vstd::arithmetic::div_mod::lemma_fundamental_div_mod(x, alignment);
    vstd::arithmetic::div_mod::lemma_mod_bound(x, alignment);
    vstd::arithmetic::div_mod::lemma_mod_multiples_basic(x / alignment, alignment);
    assert((x / alignment) * alignment == alignment * (x / alignment)) by (nonlinear_arith);
}

/// The position `pos` rounded up to the next multiple of `alignment`.
pub fn align_position(pos: usize, alignment: u32) -> (r: Result<u64, GGUFError>)
    requires
        alignment > 0,
    ensures
        match data_start(pos as int, Ok(alignment)) {
            Ok(start) => r == Ok::<u64, GGUFError>(start),
            Err(k) => r matches Err(e) && e.spec_kind() == k,
        },
{
    let a: u128 = alignment as u128;
    let x: u128 = pos as u128 + a - 1;
    let q: u128 = x / a;
    assert(q * a <= x) by (nonlinear_arith)
        requires
            q == x / a,
            a > 0,
            x >= 0,
    ;
    let start: u128 = q * a;
    if start > u64::MAX as u128 {
        Err(GGUFError::unexpected("the data section starts beyond 64 bits"))
    } else {
        Ok(start as u64)
    }
}

/// A reader that goes forward through the bytes of a container.
pub struct GGUFReader {
    buf: Vec<u8>,
    pos: usize,
}

impl GGUFReader {
    #[verifier::type_invariant]
    spec fn inv(self) -> bool {
        self.pos <= self.buf@.len()
    }

    /// The bytes that the reader goes through.
    pub closed spec fn bytes(&self) -> Seq<u8> {
        self.buf@
    }

    /// The number of bytes that the reader has behind it, for contracts.
    pub closed spec fn spec_position(&self) -> int {
        self.pos as int
    }

    /// A reader at the start of `buf`.
    pub fn new(buf: Vec<u8>) -> (r: GGUFReader)
        ensures
            r.bytes() == buf@,
            r.spec_position() == 0,
    {
        GGUFReader { buf, pos: 0 }
    }

    /// The number of bytes that the reader has behind it.
    pub fn position(&self) -> (p: usize)
        ensures
            p == self.spec_position(),
            p <= self.bytes().len(),
    {
        proof {
            use_type_invariant(self);
        }
        self.pos
    }

    /// The number of bytes that the reader has in front of it.
    pub fn remaining(&self) -> (n: usize)
        ensures
            n == self.bytes().len() - self.spec_position(),
    {
        proof {
            use_type_invariant(self);
        }
        self.buf.len() - self.pos
    }

    /// Reads a value with its tag in front.
    pub fn read_value(&mut self) -> (r: Result<GGUFValue, GGUFError>)
        ensures
            final(self).bytes() == old(self).bytes(),
            advanced(
                r,
                parse_value(old(self).bytes(), old(self).spec_position()),
                old(self).spec_position(),
                final(self).spec_position(),
            ),
            r matches Ok(v) ==> v@.wf(),
    {
        proof {
            use_type_invariant(&*self);
        }
        match read_value(self.buf.as_slice(), self.pos) {
            Ok((v, next)) => {
                self.pos = next;
                Ok(v)
            },
            Err(e) => Err(e),
        }
    }

    /// Reads the header: magic, version, the two counts and the metadata.
    /// Bytes that do not begin with the magic are a `DataError`, and so is
    /// another version than 2; input that ends inside a field is
    /// `Unexpected`.
    pub fn decode(&mut self) -> (r: Result<GGUFHeader, GGUFError>)
        ensures
            final(self).bytes() == old(self).bytes(),
            advanced(
                r,
                parse_header(old(self).bytes(), old(self).spec_position()),
                old(self).spec_position(),
                final(self).spec_position(),
            ),
            r matches Ok(h) ==> h.wf(),
            old(self).spec_position() + 4 > old(self).bytes().len() ==> (r matches Err(e)
                && e.spec_kind() == GGUFReaderErrorKind::Unexpected),
            old(self).spec_position() + 4 <= old(self).bytes().len() && le_at(
                old(self).bytes(),
                old(self).spec_position(),
                4,
            ) != GGUF_MAGIC ==> (r matches Err(e) && e.spec_kind()
                == GGUFReaderErrorKind::DataError),
    {
        proof {
            use_type_invariant(&*self);
        }
        match read_header(self.buf.as_slice(), self.pos) {
            Ok((h, next)) => {
                self.pos = next;
                Ok(h)
            },
            Err(e) => Err(e),
        }
    }

    /// Reads the descriptions of `tensor_count` tensors.
    pub fn read_tensor_table(&mut self, tensor_count: u64) -> (r: Result<
        Vec<TensorDescriptor>,
        GGUFError,
    >)
        ensures
            final(self).bytes() == old(self).bytes(),
            advanced(
                r,
                parse_tensors(old(self).bytes(), old(self).spec_position(), tensor_count as nat),
                old(self).spec_position(),
                final(self).spec_position(),
            ),
    {
        proof {
            use_type_invariant(&*self);
        }
        match read_tensors(self.buf.as_slice(), self.pos, tensor_count) {
            Ok((tensors, next)) => {
                self.pos = next;
                Ok(tensors)
            },
            Err(e) => Err(e),
        }
    }

    /// Where the data section starts once header and tensor table are read:
    /// at the position of the reader, rounded up to the next multiple of
    /// the alignment that the header asks for.
    pub fn data_section_start(&self, header: &GGUFHeader) -> (r: Result<u64, GGUFError>)
        ensures
            match data_start(self.spec_position(), alignment_of(header@.metadata)) {
                Ok(start) => r == Ok::<u64, GGUFError>(start),
                Err(k) => r matches Err(e) && e.spec_kind() == k,
            },
    {
        match header.alignment() {
            Err(e) => Err(e),
            Ok(a) => align_position(self.pos, a),
        }
    }
}

} // verus!
