use crate::error::GGUFReaderErrorKind;
use crate::kinds::GGUFValueType;
use crate::value::GGUFValueView;
use vstd::prelude::*;
use vstd::utf8::{decode_utf8, valid_utf8};

verus! {

/// The four bytes `GGUF`, read as a little-endian number.
pub const GGUF_MAGIC: u32 = 0x46554747;

/// The one version of the format that is decoded.
pub const GGUF_VERSION: u32 = 2;

/// The alignment of the data section where the metadata names none.
pub const GGUF_DEFAULT_ALIGNMENT: u32 = 32;

/// What decoding from a position gives: the thing decoded with the position
/// behind it, or the kind of the first error.
pub type Decoded<T> = Result<(T, int), GGUFReaderErrorKind>;

/// The number that the `width` bytes of `s` from `at` on stand for, lowest
/// byte first.
pub open spec fn le_at(s: Seq<u8>, at: int, width: nat) -> nat
    decreases width,
{
    if width == 0 {
        0
    } else {
        s[at] as nat + 256 * le_at(s, at + 1, (width - 1) as nat)
    }
}

/// The two's complement reading of `v`, a number below twice `half`.
pub open spec fn signed(v: nat, half: nat) -> int {
    if v >= half {
        v - 2 * half
    } else {
        v as int
    }
}

/// The value of a type of fixed width that the bytes of `s` from `at` on
/// stand for.
pub open spec fn scalar_at(s: Seq<u8>, at: int, ty: GGUFValueType) -> GGUFValueView
    recommends
        ty.spec_width() is Some,
{
    match ty {
        GGUFValueType::U8 => GGUFValueView::U8(le_at(s, at, 1) as u8),
        GGUFValueType::I8 => GGUFValueView::I8(signed(le_at(s, at, 1), 0x80) as i8),
        GGUFValueType::U16 => GGUFValueView::U16(le_at(s, at, 2) as u16),
        GGUFValueType::I16 => GGUFValueView::I16(signed(le_at(s, at, 2), 0x8000) as i16),
        GGUFValueType::U32 => GGUFValueView::U32(le_at(s, at, 4) as u32),
        GGUFValueType::I32 => GGUFValueView::I32(signed(le_at(s, at, 4), 0x8000_0000) as i32),
        GGUFValueType::U64 => GGUFValueView::U64(le_at(s, at, 8) as u64),
        GGUFValueType::I64 => GGUFValueView::I64(
            signed(le_at(s, at, 8), 0x8000_0000_0000_0000) as i64,
        ),
        GGUFValueType::F32 => GGUFValueView::F32(le_at(s, at, 4) as u32),
        GGUFValueType::F64 => GGUFValueView::F64(le_at(s, at, 8) as u64),
        _ => GGUFValueView::Bool(le_at(s, at, 1) as u8),
    }
}

/// A text at `at`: its length in bytes as a 64-bit number, then that many
/// bytes of UTF-8.
pub open spec fn parse_text(s: Seq<u8>, at: int) -> Decoded<Seq<char>> {
    if at < 0 || at + 8 > s.len() {
        Err(GGUFReaderErrorKind::Unexpected)
    } else if at + 8 + le_at(s, at, 8) > s.len() {
        Err(GGUFReaderErrorKind::Unexpected)
    } else {
        let end = at + 8 + le_at(s, at, 8);
        let body = s.subrange(at + 8, end);
        if valid_utf8(body) {
            Ok((decode_utf8(body), end))
        } else {
            Err(GGUFReaderErrorKind::DataError)
        }
    }
}

/// The value of type `ty` at `at`, without a tag in front. An array is the
/// tag of its element type, the number of its elements as a 64-bit number,
/// and the elements one behind the other. The tag of the element type is
/// looked at once both fields are read.
pub open spec fn parse_payload(s: Seq<u8>, at: int, ty: GGUFValueType) -> Decoded<GGUFValueView>
    decreases s.len() - at, 0nat,
{
    if at < 0 || at > s.len() {
        Err(GGUFReaderErrorKind::Unexpected)
    } else {
        match ty {
            GGUFValueType::String => match parse_text(s, at) {
                Ok((t, next)) => Ok((GGUFValueView::String(t), next)),
                Err(k) => Err(k),
            },
            GGUFValueType::Array => if at + 12 > s.len() {
                Err(GGUFReaderErrorKind::Unexpected)
            } else {
                match GGUFValueType::spec_from_tag(le_at(s, at, 4) as u32) {
                    None => Err(GGUFReaderErrorKind::DataError),
                    Some(elem) => match parse_items(s, at + 12, elem, le_at(s, at + 4, 8)) {
                        Ok((items, next)) => Ok((GGUFValueView::Array(elem, items), next)),
                        Err(k) => Err(k),
                    },
                }
            },
            GGUFValueType::Bool => if at + 1 > s.len() {
                Err(GGUFReaderErrorKind::Unexpected)
            } else if s[at] > 1 {
                Err(GGUFReaderErrorKind::DataError)
            } else {
                Ok((GGUFValueView::Bool(s[at]), at + 1))
            },
            _ => {
                let w = ty.spec_width()->0;
                if at + w > s.len() {
                    Err(GGUFReaderErrorKind::Unexpected)
                } else {
                    Ok((scalar_at(s, at, ty), at + w))
                }
            },
        }
    }
}

/// The first `n` values of type `elem` from `at` on, one behind the other.
/// The first one that fails makes the whole fail with its error.
pub open spec fn parse_items(s: Seq<u8>, at: int, elem: GGUFValueType, n: nat) -> Decoded<
    Seq<GGUFValueView>,
>
    decreases s.len() - at, n + 1,
{
    if at < 0 || at > s.len() {
        Err(GGUFReaderErrorKind::Unexpected)
    } else if n == 0 {
        Ok((Seq::empty(), at))
    } else {
        match parse_items(s, at, elem, (n - 1) as nat) {
            Err(k) => Err(k),
            Ok((items, p)) => if p < at || p > s.len() {
                Err(GGUFReaderErrorKind::Unexpected)
            } else {
                match parse_payload(s, p, elem) {
                    Err(k) => Err(k),
                    Ok((v, next)) => Ok((items.push(v), next)),
                }
            },
        }
    }
}

/// A value with its tag in front: a 32-bit tag, which must stand for a
/// type, then the value of that type.
pub open spec fn parse_value(s: Seq<u8>, at: int) -> Decoded<GGUFValueView> {
    if at < 0 || at + 4 > s.len() {
        Err(GGUFReaderErrorKind::Unexpected)
    } else {
        match GGUFValueType::spec_from_tag(le_at(s, at, 4) as u32) {
            None => Err(GGUFReaderErrorKind::DataError),
            Some(ty) => parse_payload(s, at + 4, ty),
        }
    }
}

/// A value that decodes has the type asked for, is well formed, takes at
/// least one byte and ends inside the input.
pub proof fn lemma_payload_wf(s: Seq<u8>, at: int, ty: GGUFValueType)
    ensures
        parse_payload(s, at, ty) matches Ok((v, next)) ==> v.value_type() == ty && v.wf() && at
            < next <= s.len(),
    decreases s.len() - at, 0nat,
{
    if 0 <= at <= s.len() && ty == GGUFValueType::Array && at + 12 <= s.len() {
        match GGUFValueType::spec_from_tag(le_at(s, at, 4) as u32) {
            Some(elem) => {
                lemma_items_wf(s, at + 12, elem, le_at(s, at + 4, 8));
            },
            None => {},
        }
    }
}

/// Where `n` values of one type decode, there are `n` of them, each of
/// that type and well formed, and they end inside the input.
pub proof fn lemma_items_wf(s: Seq<u8>, at: int, elem: GGUFValueType, n: nat)
    ensures
        parse_items(s, at, elem, n) matches Ok((items, next)) ==> {
            &&& items.len() == n
            &&& at <= next <= s.len()
            &&& forall|i: int|
                0 <= i < items.len() ==> (#[trigger] items[i]).value_type() == elem
                    && items[i].wf()
        },
    decreases s.len() - at, n + 1,
{
    if 0 <= at <= s.len() && n > 0 {
        lemma_items_wf(s, at, elem, (n - 1) as nat);
        if let Ok((_, p)) = parse_items(s, at, elem, (n - 1) as nat) {
            if at <= p <= s.len() {
                lemma_payload_wf(s, p, elem);
            }
        }
    }
}

/// A value that decodes with its tag in front is well formed.
pub proof fn lemma_value_wf(s: Seq<u8>, at: int)
    ensures
        parse_value(s, at) matches Ok((v, next)) ==> v.wf() && at + 4 < next <= s.len(),
{
    if 0 <= at && at + 4 <= s.len() {
        match GGUFValueType::spec_from_tag(le_at(s, at, 4) as u32) {
            Some(ty) => {
                lemma_payload_wf(s, at + 4, ty);
            },
            None => {},
        }
    }
}

/// A metadata entry: the key as a text, then the value with its tag.
pub open spec fn parse_entry(s: Seq<u8>, at: int) -> Decoded<(Seq<char>, GGUFValueView)> {
    match parse_text(s, at) {
        Err(k) => Err(k),
        Ok((key, p)) => match parse_value(s, p) {
            Err(k) => Err(k),
            Ok((v, next)) => Ok(((key, v), next)),
        },
    }
}

/// Whether one of `entries` has the key `key`.
pub open spec fn has_key(entries: Seq<(Seq<char>, GGUFValueView)>, key: Seq<char>) -> bool {
    exists|i: int| 0 <= i < entries.len() && (#[trigger] entries[i]).0 == key
}

/// The first `n` metadata entries from `at` on. An entry whose key came
/// before is a `DataError`, found once the entry is decoded.
pub open spec fn parse_entries(s: Seq<u8>, at: int, n: nat) -> Decoded<
    Seq<(Seq<char>, GGUFValueView)>,
>
    decreases n,
{
    if n == 0 {
        if at < 0 || at > s.len() {
            Err(GGUFReaderErrorKind::Unexpected)
        } else {
            Ok((Seq::empty(), at))
        }
    } else {
        match parse_entries(s, at, (n - 1) as nat) {
            Err(k) => Err(k),
            Ok((entries, p)) => match parse_entry(s, p) {
                Err(k) => Err(k),
                Ok((e, next)) => if has_key(entries, e.0) {
                    Err(GGUFReaderErrorKind::DataError)
                } else {
                    Ok((entries.push(e), next))
                },
            },
        }
    }
}

/// What a header is: its three numbers and the metadata entries in the
/// order of the container.
pub struct GGUFHeaderView {
    pub magic: u32,
    pub version: u32,
    pub tensor_count: u64,
    pub metadata: Seq<(Seq<char>, GGUFValueView)>,
}

/// The header at `at`: magic and version, each 32 bits and each tested as
/// soon as it is read, the number of tensors and the number of metadata
/// entries, each 64 bits, then the entries.
pub open spec fn parse_header(s: Seq<u8>, at: int) -> Decoded<GGUFHeaderView> {
    if at < 0 || at + 4 > s.len() {
        Err(GGUFReaderErrorKind::Unexpected)
    } else if le_at(s, at, 4) != GGUF_MAGIC {
        Err(GGUFReaderErrorKind::DataError)
    } else if at + 8 > s.len() {
        Err(GGUFReaderErrorKind::Unexpected)
    } else if le_at(s, at + 4, 4) != GGUF_VERSION {
        Err(GGUFReaderErrorKind::DataError)
    } else if at + 24 > s.len() {
        Err(GGUFReaderErrorKind::Unexpected)
    } else {
        match parse_entries(s, at + 24, le_at(s, at + 16, 8)) {
            Err(k) => Err(k),
            Ok((metadata, next)) => Ok(
                (
                    GGUFHeaderView {
                        magic: GGUF_MAGIC,
                        version: GGUF_VERSION,
                        tensor_count: le_at(s, at + 8, 8) as u64,
                        metadata,
                    },
                    next,
                ),
            ),
        }
    }
}

/// What the description of a tensor is.
pub struct TensorView {
    pub name: Seq<char>,
    pub dimensions: Seq<u64>,
    pub kind: u32,
    pub offset: u64,
}

/// The description of a tensor at `at`: the name as a text, the number of
/// dimensions as a 32-bit number, that many sizes of 64 bits, the tag of
/// the element type, 32 bits, and the offset into the data section, 64
/// bits.
pub open spec fn parse_tensor(s: Seq<u8>, at: int) -> Decoded<TensorView> {
    match parse_text(s, at) {
        Err(k) => Err(k),
        Ok((name, p)) => if p + 4 > s.len() {
            Err(GGUFReaderErrorKind::Unexpected)
        } else {
            let n = le_at(s, p, 4);
            if p + 16 + 8 * n > s.len() {
                Err(GGUFReaderErrorKind::Unexpected)
            } else {
                Ok(
                    (
                        TensorView {
                            name,
                            dimensions: Seq::new(n, |i: int| le_at(s, p + 4 + 8 * i, 8) as u64),
                            kind: le_at(s, p + 4 + 8 * n, 4) as u32,
                            offset: le_at(s, p + 8 + 8 * n, 8) as u64,
                        },
                        p + 16 + 8 * n,
                    ),
                )
            }
        },
    }
}

/// The first `n` tensor descriptions from `at` on.
pub open spec fn parse_tensors(s: Seq<u8>, at: int, n: nat) -> Decoded<Seq<TensorView>>
    decreases n,
{
    if n == 0 {
        if at < 0 || at > s.len() {
            Err(GGUFReaderErrorKind::Unexpected)
        } else {
            Ok((Seq::empty(), at))
        }
    } else {
        match parse_tensors(s, at, (n - 1) as nat) {
            Err(k) => Err(k),
            Ok((tensors, p)) => match parse_tensor(s, p) {
                Err(k) => Err(k),
                Ok((t, next)) => Ok((tensors.push(t), next)),
            },
        }
    }
}

/// `pos` rounded up to the next multiple of `alignment`.
pub open spec fn align_up(pos: int, alignment: int) -> int
    recommends
        pos >= 0,
        alignment > 0,
{
    ((pos + alignment - 1) / alignment) * alignment
}

} // verus!
