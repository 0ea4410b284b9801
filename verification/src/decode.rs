use crate::error::GGUFError;
use crate::error::GGUFReaderErrorKind;
use crate::kinds::GGUFValueType;
use crate::header::{distinct_keys, values_wf, GGUFHeader, TensorDescriptor};
use crate::value::{lemma_array_view, GGUFValue, GGUFValueView};
use crate::wire::{
    has_key, le_at, lemma_value_wf, parse_entries, parse_entry, parse_header, parse_items,
    parse_payload, parse_tensor, parse_tensors, parse_text, parse_value, scalar_at, Decoded,
    TensorView, GGUF_MAGIC, GGUF_VERSION,
};
use vstd::prelude::*;
use vstd::slice::{slice_subrange, slice_to_vec};
use vstd::utf8::{decode_utf8, valid_utf8};

verus! {

/// `r` is what decoding gives according to `d`: the same thing with the
/// same position behind it, or an error of the same kind.
pub open spec fn agrees<T: DeepView>(r: Result<(T, usize), GGUFError>, d: Decoded<T::V>) -> bool {
    match d {
        Ok((v, next)) => r matches Ok((x, p)) && x.deep_view() == v && p == next,
        Err(k) => r matches Err(e) && e.spec_kind() == k,
    }
}

/// `String::from_utf8` of std: the text that the bytes encode where they
/// are valid UTF-8, and `None` where they are not.
#[verifier::external_body]
fn text_from_utf8(bytes: Vec<u8>) -> (r: Option<String>)
    ensures
        r is Some <==> valid_utf8(bytes@),
        r matches Some(t) ==> t@ == decode_utf8(bytes@),
{
    match String::from_utf8(bytes) {
        Ok(t) => Some(t),
        Err(_) => None,
    }
}

fn read_u16(buf: &[u8], at: usize) -> (v: u16)
    requires
        at + 2 <= buf@.len(),
    ensures
        v == le_at(buf@, at as int, 2),
{
    proof {
        reveal_with_fuel(le_at, 3);
    }
    (buf[at] as u16) + (buf[at + 1] as u16) * 256
}

fn read_u32(buf: &[u8], at: usize) -> (v: u32)
    requires
        at + 4 <= buf@.len(),
    ensures
        v == le_at(buf@, at as int, 4),
{
    proof {
        reveal_with_fuel(le_at, 5);
    }
    (buf[at] as u32) + (buf[at + 1] as u32) * 0x100 + (buf[at + 2] as u32) * 0x1_0000 + (buf[at
        + 3] as u32) * 0x100_0000
}

fn read_u64(buf: &[u8], at: usize) -> (v: u64)
    requires
        at + 8 <= buf@.len(),
    ensures
        v == le_at(buf@, at as int, 8),
{
    proof {
        reveal_with_fuel(le_at, 9);
    }
    (buf[at] as u64) + (buf[at + 1] as u64) * 0x100 + (buf[at + 2] as u64) * 0x1_0000 + (buf[at
        + 3] as u64) * 0x100_0000 + (buf[at + 4] as u64) * 0x1_0000_0000 + (buf[at + 5] as u64)
        * 0x100_0000_0000 + (buf[at + 6] as u64) * 0x1_0000_0000_0000 + (buf[at + 7] as u64)
        * 0x100_0000_0000_0000
}

/// The value of a type of fixed width other than a boolean.
fn read_scalar(buf: &[u8], at: usize, ty: GGUFValueType) -> (v: GGUFValue)
    requires
        ty.spec_width() matches Some(w) && at + w <= buf@.len(),
        ty != GGUFValueType::Bool,
    ensures
        v@ == scalar_at(buf@, at as int, ty),
{
    proof {
        reveal_with_fuel(le_at, 2);
    }
    match ty {
        GGUFValueType::U8 => GGUFValue::U8(buf[at]),
        GGUFValueType::I8 => {
            let b: u8 = buf[at];
            if b >= 0x80 {
                GGUFValue::I8((b as i16 - 0x100) as i8)
            } else {
                GGUFValue::I8(b as i8)
            }
        },
        GGUFValueType::U16 => GGUFValue::U16(read_u16(buf, at)),
        GGUFValueType::I16 => {
            let v: u16 = read_u16(buf, at);
            if v >= 0x8000 {
                GGUFValue::I16((v as i32 - 0x1_0000) as i16)
            } else {
                GGUFValue::I16(v as i16)
            }
        },
        GGUFValueType::U32 => GGUFValue::U32(read_u32(buf, at)),
        GGUFValueType::I32 => {
            let v: u32 = read_u32(buf, at);
            if v >= 0x8000_0000 {
                GGUFValue::I32((v as i64 - 0x1_0000_0000) as i32)
            } else {
                GGUFValue::I32(v as i32)
            }
        },
        GGUFValueType::U64 => GGUFValue::U64(read_u64(buf, at)),
        GGUFValueType::I64 => {
            let v: u64 = read_u64(buf, at);
            if v >= 0x8000_0000_0000_0000 {
                GGUFValue::I64((v as i128 - 0x1_0000_0000_0000_0000) as i64)
            } else {
                GGUFValue::I64(v as i64)
            }
        },
        GGUFValueType::F32 => GGUFValue::F32(read_u32(buf, at)),
        _ => GGUFValue::F64(read_u64(buf, at)),
    }
}

/// A text: its length in bytes, 64 bits, then the bytes, which must be
/// UTF-8.
fn read_text(buf: &[u8], at: usize) -> (r: Result<(String, usize), GGUFError>)
    ensures
        agrees(r, parse_text(buf@, at as int)),
        r matches Ok((_, p)) ==> at + 8 <= p <= buf@.len(),
{
    let len: usize = buf.len();
    if at > len || len - at < 8 {
        return Err(GGUFError::unexpected("input ends inside the length of a text"));
    }
    let n: u64 = read_u64(buf, at);
    let start: usize = at + 8;
    if n > (len - start) as u64 {
        return Err(GGUFError::unexpected("input ends inside a text"));
    }
    let end: usize = start + n as usize;
    let body: Vec<u8> = slice_to_vec(slice_subrange(buf, start, end));
    match text_from_utf8(body) {
        Some(t) => Ok((t, end)),
        None => Err(GGUFError::data_error("a text is not valid UTF-8")),
    }
}

/// Once the first `k` values fail to decode, so do the first `n`, for any
/// `n` from `k` on, and with the same error.
pub proof fn lemma_items_error(s: Seq<u8>, at: int, elem: GGUFValueType, k: nat, n: nat)
    requires
        k <= n,
        parse_items(s, at, elem, k) is Err,
    ensures
        parse_items(s, at, elem, n) == parse_items(s, at, elem, k),
    decreases n,
{
    if k < n {
        lemma_items_error(s, at, elem, k, (n - 1) as nat);
    }
}

/// The value of type `ty` at `at`, without a tag in front.
pub fn read_payload(buf: &[u8], at: usize, ty: GGUFValueType) -> (r: Result<
    (GGUFValue, usize),
    GGUFError,
>)
    ensures
        agrees(r, parse_payload(buf@, at as int, ty)),
        r matches Ok((_, p)) ==> at < p <= buf@.len(),
    decreases buf@.len() - at, 0nat,
{
    let len: usize = buf.len();
    if at > len {
        return Err(GGUFError::unexpected("a value lies behind the end of the input"));
    }
    match ty {
        GGUFValueType::String => match read_text(buf, at) {
            Ok((t, next)) => Ok((GGUFValue::String(t), next)),
            Err(e) => Err(e),
        },
        GGUFValueType::Array => {
            if len - at < 12 {
                return Err(GGUFError::unexpected("input ends inside the head of an array"));
            }
            let tag: u32 = read_u32(buf, at);
            let n: u64 = read_u64(buf, at + 4);
            match GGUFValueType::from_tag(tag) {
                None => Err(GGUFError::data_error("an array names an unknown element type")),
                Some(elem) => match read_items(buf, at + 12, elem, n) {
                    Ok((items, next)) => {
                        proof {
                            lemma_array_view(elem, items);
                        }
                        Ok((GGUFValue::Array(elem, items), next))
                    },
                    Err(e) => Err(e),
                },
            }
        },
        GGUFValueType::Bool => {
            if len - at < 1 {
                return Err(GGUFError::unexpected("input ends before a boolean"));
            }
            let b: u8 = buf[at];
            if b > 1 {
                return Err(GGUFError::data_error("a boolean is neither 0 nor 1"));
            }
            Ok((GGUFValue::Bool(b), at + 1))
        },
        _ => {
            let w: usize = ty.width().unwrap();
            if len - at < w {
                return Err(GGUFError::unexpected("input ends inside a number"));
            }
            Ok((read_scalar(buf, at, ty), at + w))
        },
    }
}

/// `n` values of type `elem` from `at` on, one behind the other.
pub fn read_items(buf: &[u8], at: usize, elem: GGUFValueType, n: u64) -> (r: Result<
    (Vec<GGUFValue>, usize),
    GGUFError,
>)
    ensures
        agrees(r, parse_items(buf@, at as int, elem, n as nat)),
        r matches Ok((_, p)) ==> at <= p <= buf@.len(),
    decreases buf@.len() - at, n + 1,
{
    if at > buf.len() {
        return Err(GGUFError::unexpected("values lie behind the end of the input"));
    }
    let mut items: Vec<GGUFValue> = Vec::new();
    let mut pos: usize = at;
    let mut i: u64 = 0;
    assert(items.deep_view() =~= Seq::empty());
    while i < n
        invariant
            at <= pos <= buf@.len(),
            i <= n,
            parse_items(buf@, at as int, elem, i as nat) == Ok::<
                (Seq<GGUFValueView>, int),
                GGUFReaderErrorKind,
            >((items.deep_view(), pos as int)),
        decreases n - i,
    {
        let ghost before = items.deep_view();
        match read_payload(buf, pos, elem) {
            Err(e) => {
                proof {
                    lemma_items_error(buf@, at as int, elem, (i + 1) as nat, n as nat);
                }
                return Err(e);
            },
            Ok((v, next)) => {
                items.push(v);
                pos = next;
                assert(items.deep_view() =~= before.push(v.deep_view()));
            },
        }
        i += 1;
    }
    Ok((items, pos))
}

/// A value with its tag in front.
pub fn read_value(buf: &[u8], at: usize) -> (r: Result<(GGUFValue, usize), GGUFError>)
    ensures
        agrees(r, parse_value(buf@, at as int)),
        r matches Ok((v, p)) ==> at < p <= buf@.len() && v@.wf(),
{
    proof {
        lemma_value_wf(buf@, at as int);
    }
    if at > buf.len() || buf.len() - at < 4 {
        return Err(GGUFError::unexpected("input ends inside the tag of a value"));
    }
    let tag: u32 = read_u32(buf, at);
    match GGUFValueType::from_tag(tag) {
        None => Err(GGUFError::data_error("a value names an unknown type")),
        Some(ty) => read_payload(buf, at + 4, ty),
    }
}

/// A metadata entry: the key, then the value with its tag.
pub fn read_entry(buf: &[u8], at: usize) -> (r: Result<((String, GGUFValue), usize), GGUFError>)
    ensures
        agrees(r, parse_entry(buf@, at as int)),
        r matches Ok((e, p)) ==> at < p <= buf@.len() && e.1@.wf(),
{
    match read_text(buf, at) {
        Err(e) => Err(e),
        Ok((key, p)) => match read_value(buf, p) {
            Err(e) => Err(e),
            Ok((v, next)) => Ok(((key, v), next)),
        },
    }
}

/// Whether one of `entries` has the key `key`.
fn contains_key(entries: &Vec<(String, GGUFValue)>, key: &String) -> (b: bool)
    ensures
        b == has_key(entries.deep_view(), key@),
{
    let mut i: usize = 0;
    while i < entries.len()
        invariant
            i <= entries@.len(),
            forall|j: int| 0 <= j < i ==> (#[trigger] entries.deep_view()[j]).0 != key@,
        decreases entries@.len() - i,
    {
        assert(entries.deep_view()[i as int].0 == entries@[i as int].0@);
        if entries[i].0 == *key {
            return true;
        }
        i += 1;
    }
    false
}

/// Once the first `k` entries fail to decode, so do the first `n`, for any
/// `n` from `k` on, and with the same error.
pub proof fn lemma_entries_error(s: Seq<u8>, at: int, k: nat, n: nat)
    requires
        k <= n,
        parse_entries(s, at, k) is Err,
    ensures
        parse_entries(s, at, n) == parse_entries(s, at, k),
    decreases n,
{
    if k < n {
        lemma_entries_error(s, at, k, (n - 1) as nat);
    }
}

/// `n` metadata entries from `at` on. An entry whose key came before is a
/// `DataError`.
pub fn read_entries(buf: &[u8], at: usize, n: u64) -> (r: Result<
    (Vec<(String, GGUFValue)>, usize),
    GGUFError,
>)
    ensures
        agrees(r, parse_entries(buf@, at as int, n as nat)),
        r matches Ok((entries, p)) ==> at <= p <= buf@.len() && distinct_keys(
            entries.deep_view(),
        ) && values_wf(entries.deep_view()),
{
    if at > buf.len() {
        proof {
            lemma_entries_error(buf@, at as int, 0, n as nat);
        }
        return Err(GGUFError::unexpected("metadata lie behind the end of the input"));
    }
    let mut entries: Vec<(String, GGUFValue)> = Vec::new();
    let mut pos: usize = at;
    let mut i: u64 = 0;
    assert(entries.deep_view() =~= Seq::empty());
    while i < n
        invariant
            at <= pos <= buf@.len(),
            i <= n,
            distinct_keys(entries.deep_view()),
            values_wf(entries.deep_view()),
            parse_entries(buf@, at as int, i as nat) == Ok::<
                (Seq<(Seq<char>, GGUFValueView)>, int),
                GGUFReaderErrorKind,
            >((entries.deep_view(), pos as int)),
        decreases n - i,
    {
        let ghost before = entries.deep_view();
        match read_entry(buf, pos) {
            Err(e) => {
                proof {
                    lemma_entries_error(buf@, at as int, (i + 1) as nat, n as nat);
                }
                return Err(e);
            },
            Ok((entry, next)) => {
                if contains_key(&entries, &entry.0) {
                    proof {
                        lemma_entries_error(buf@, at as int, (i + 1) as nat, n as nat);
                    }
                    return Err(GGUFError::data_error("a metadata key occurs twice"));
                }
                let ghost e = entry.deep_view();
                entries.push(entry);
                pos = next;
                assert(entries.deep_view() =~= before.push(e));
                assert(!has_key(before, e.0));
                assert forall|a: int| 0 <= a < before.len() + 1 implies (#[trigger] before.push(
                    e,
                )[a]).1.wf() by {
                    if a < before.len() {
                        assert(before[a].1.wf());
                    }
                }
                assert forall|a: int, b: int| 0 <= a < b < before.len() + 1 implies (
                #[trigger] before.push(e)[a]).0 != (#[trigger] before.push(e)[b]).0 by {
                    if b == before.len() {
                        assert(before[a].0 != e.0);
                    } else {
                        assert(before[a].0 != before[b].0);
                    }
                }
            },
        }
        i += 1;
    }
    Ok((entries, pos))
}

/// The header at `at`: magic, version, the two counts and the metadata.
pub fn read_header(buf: &[u8], at: usize) -> (r: Result<(GGUFHeader, usize), GGUFError>)
    ensures
        agrees(r, parse_header(buf@, at as int)),
        r matches Ok((h, p)) ==> at < p <= buf@.len() && h.wf(),
{
    let len: usize = buf.len();
    if at > len || len - at < 4 {
        return Err(GGUFError::unexpected("input ends inside the magic"));
    }
    let magic: u32 = read_u32(buf, at);
    if magic != GGUF_MAGIC {
        return Err(GGUFError::data_error("the magic is not that of a container"));
    }
    if len - at < 8 {
        return Err(GGUFError::unexpected("input ends inside the version"));
    }
    let version: u32 = read_u32(buf, at + 4);
    if version != GGUF_VERSION {
        return Err(GGUFError::data_error("the version is not supported"));
    }
    if len - at < 24 {
        return Err(GGUFError::unexpected("input ends inside the counts"));
    }
    let tensor_count: u64 = read_u64(buf, at + 8);
    let kv_count: u64 = read_u64(buf, at + 16);
    match read_entries(buf, at + 24, kv_count) {
        Err(e) => Err(e),
        Ok((metadata, next)) => {
            Ok((GGUFHeader::new(magic, version, tensor_count, metadata), next))
        },
    }
}

/// The description of a tensor at `at`.
pub fn read_tensor(buf: &[u8], at: usize) -> (r: Result<(TensorDescriptor, usize), GGUFError>)
    ensures
        agrees(r, parse_tensor(buf@, at as int)),
        r matches Ok((_, p)) ==> at < p <= buf@.len(),
{
    let len: usize = buf.len();
    match read_text(buf, at) {
        Err(e) => Err(e),
        Ok((name, p)) => {
            if len - p < 4 {
                return Err(GGUFError::unexpected("input ends inside a number of dimensions"));
            }
            let n: u32 = read_u32(buf, p);
            if 16 + 8 * (n as u64) > (len - p) as u64 {
                return Err(GGUFError::unexpected("input ends inside the shape of a tensor"));
            }
            let count: usize = n as usize;
            let mut dimensions: Vec<u64> = Vec::new();
            let mut i: usize = 0;
            while i < count
                invariant
                    i <= count,
                    count == n,
                    p + 16 + 8 * count <= buf@.len() <= usize::MAX,
                    dimensions@ == Seq::new(
                        i as nat,
                        |j: int| le_at(buf@, p + 4 + 8 * j, 8) as u64,
                    ),
                decreases count - i,
            {
                let d: u64 = read_u64(buf, p + 4 + 8 * i);
                dimensions.push(d);
                i += 1;
                assert(dimensions@ =~= Seq::new(
                    i as nat,
                    |j: int| le_at(buf@, p + 4 + 8 * j, 8) as u64,
                ));
            }
            let kind: u32 = read_u32(buf, p + 4 + 8 * count);
            let offset: u64 = read_u64(buf, p + 8 + 8 * count);
            Ok((TensorDescriptor { name, dimensions, kind, offset }, p + 16 + 8 * count))
        },
    }
}

/// Once the first `k` descriptions fail to decode, so do the first `n`, for
/// any `n` from `k` on, and with the same error.
pub proof fn lemma_tensors_error(s: Seq<u8>, at: int, k: nat, n: nat)
    requires
        k <= n,
        parse_tensors(s, at, k) is Err,
    ensures
        parse_tensors(s, at, n) == parse_tensors(s, at, k),
    decreases n,
{
    if k < n {
        lemma_tensors_error(s, at, k, (n - 1) as nat);
    }
}

/// `n` tensor descriptions from `at` on.
pub fn read_tensors(buf: &[u8], at: usize, n: u64) -> (r: Result<
    (Vec<TensorDescriptor>, usize),
    GGUFError,
>)
    ensures
        agrees(r, parse_tensors(buf@, at as int, n as nat)),
        r matches Ok((_, p)) ==> at <= p <= buf@.len(),
{
    if at > buf.len() {
        proof {
            lemma_tensors_error(buf@, at as int, 0, n as nat);
        }
        return Err(GGUFError::unexpected("tensors lie behind the end of the input"));
    }
    let mut tensors: Vec<TensorDescriptor> = Vec::new();
    let mut pos: usize = at;
    let mut i: u64 = 0;
    assert(tensors.deep_view() =~= Seq::empty());
    while i < n
        invariant
            at <= pos <= buf@.len(),
            i <= n,
            parse_tensors(buf@, at as int, i as nat) == Ok::<
                (Seq<TensorView>, int),
                GGUFReaderErrorKind,
            >((tensors.deep_view(), pos as int)),
        decreases n - i,
    {
        let ghost before = tensors.deep_view();
        match read_tensor(buf, pos) {
            Err(e) => {
                proof {
                    lemma_tensors_error(buf@, at as int, (i + 1) as nat, n as nat);
                }
                return Err(e);
            },
            Ok((t, next)) => {
                let ghost tv = t.deep_view();
                tensors.push(t);
                pos = next;
                assert(tensors.deep_view() =~= before.push(tv));
            },
        }
        i += 1;
    }
    Ok((tensors, pos))
}

} // verus!
