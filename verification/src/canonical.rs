use crate::encode::{
    encodable, encodable_entry, encodable_tensor, encode_entries, encode_entry, encode_header,
    encode_items, encode_payload, encode_scalar, encode_sizes, encode_tensor, encode_tensors,
    encode_text, encode_value, le_bytes, lemma_le_bytes_len, lemma_limits, limit, unsigned,
};
use crate::header::{distinct_keys, values_wf};
use crate::kinds::{lemma_tag_round_trip, GGUFValueType};
use crate::value::GGUFValueView;
use crate::wire::{
    has_key, le_at, lemma_payload_wf, parse_entries, parse_entry, parse_header, parse_items,
    parse_payload, parse_tensor, parse_tensors, parse_text, parse_value, scalar_at, signed,
    GGUF_MAGIC, GGUF_VERSION,
};
use vstd::prelude::*;
use vstd::utf8::{decode_utf8_encode_utf8, encode_utf8};

verus! {

/// The bytes that stand for the number read from `s` at `at` are the bytes
/// of `s` there, and the number is below the limit of its width.
pub proof fn lemma_le_bytes_at(s: Seq<u8>, at: int, width: nat)
    requires
        0 <= at,
        at + width <= s.len(),
    ensures
        le_bytes(le_at(s, at, width), width) == s.subrange(at, at + width),
        le_at(s, at, width) < limit(width),
    decreases width,
{
    if width == 0 {
        assert(s.subrange(at, at + 0) =~= Seq::empty());
    } else {
        lemma_le_bytes_at(s, at + 1, (width - 1) as nat);
        let rest = le_at(s, at + 1, (width - 1) as nat);
        let v = le_at(s, at, width);
        assert(v == s[at] + 256 * rest);
        assert(v % 256 == s[at] as nat);
        assert(v / 256 == rest);
        assert(le_bytes(v, width) =~= s.subrange(at, at + width)) by {
            assert(le_bytes(v, width) == seq![s[at]] + s.subrange(at + 1, at + width));
        }
    }
}

/// The number that stands for the two's complement reading of `v` is `v`.
pub proof fn lemma_unsigned_signed(v: nat, half: nat)
    requires
        v < 2 * half,
    ensures
        -half <= signed(v, half) < half,
        unsigned(signed(v, half), half) == v,
{
}

/// A text that decodes was encoded: the bytes it was decoded from are its
/// bytes.
pub proof fn lemma_text_canonical(s: Seq<u8>, at: int)
    ensures
        parse_text(s, at) matches Ok((t, next)) ==> {
            &&& at + 8 <= next <= s.len()
            &&& encode_utf8(t).len() < 0x1_0000_0000_0000_0000
            &&& encode_text(t) == s.subrange(at, next)
        },
{
    if let Ok((t, next)) = parse_text(s, at) {
        let n = le_at(s, at, 8);
        let body = s.subrange(at + 8, next);
        lemma_le_bytes_at(s, at, 8);
        lemma_limits();
        decode_utf8_encode_utf8(body);
        assert(encode_text(t) =~= s.subrange(at, next));
    }
}

/// A value of fixed width other than a boolean that is read from `s` was
/// encoded: the bytes it was read from are its bytes.
pub proof fn lemma_scalar_canonical(s: Seq<u8>, at: int, ty: GGUFValueType)
    requires
        0 <= at,
        ty.spec_width() matches Some(w) && at + w <= s.len(),
        ty != GGUFValueType::Bool,
    ensures
        scalar_at(s, at, ty).value_type() == ty,
        encode_scalar(scalar_at(s, at, ty)) == s.subrange(at, at + ty.spec_width()->0),
{
    let w = ty.spec_width()->0;
    lemma_le_bytes_at(s, at, w);
    lemma_limits();
    match ty {
        GGUFValueType::I8 => {
            lemma_unsigned_signed(le_at(s, at, 1), 0x80);
        },
        GGUFValueType::I16 => {
            lemma_unsigned_signed(le_at(s, at, 2), 0x8000);
        },
        GGUFValueType::I32 => {
            lemma_unsigned_signed(le_at(s, at, 4), 0x8000_0000);
        },
        GGUFValueType::I64 => {
            lemma_unsigned_signed(le_at(s, at, 8), 0x8000_0000_0000_0000);
        },
        _ => {},
    }
}

/// The bytes of the first `k` of some values do not depend on the values
/// behind them.
pub proof fn lemma_encode_items_front(a: Seq<GGUFValueView>, b: Seq<GGUFValueView>, k: nat)
    requires
        k <= a.len(),
        k <= b.len(),
        a.take(k as int) == b.take(k as int),
    ensures
        encode_items(a, k) == encode_items(b, k),
    decreases k,
{
    if k > 0 {
        assert(a.take(k - 1) =~= a.take(k as int).take(k - 1));
        assert(b.take(k - 1) =~= b.take(k as int).take(k - 1));
        lemma_encode_items_front(a, b, (k - 1) as nat);
        assert(a[k - 1] == a.take(k as int)[k - 1]);
        assert(b[k - 1] == b.take(k as int)[k - 1]);
    }
}

/// A value that decodes was encoded: it can stand in a container, and the
/// bytes it was decoded from are its bytes.
pub proof fn lemma_payload_canonical(s: Seq<u8>, at: int, ty: GGUFValueType)
    ensures
        parse_payload(s, at, ty) matches Ok((v, next)) ==> {
            &&& 0 <= at < next <= s.len()
            &&& v.value_type() == ty
            &&& encodable(v)
            &&& encode_payload(v) == s.subrange(at, next)
        },
    decreases s.len() - at, 0nat,
{
    if let Ok((v, next)) = parse_payload(s, at, ty) {
        lemma_payload_wf(s, at, ty);
        match ty {
            GGUFValueType::String => {
                lemma_text_canonical(s, at);
            },
            GGUFValueType::Array => {
                let elem = GGUFValueType::spec_from_tag(le_at(s, at, 4) as u32)->0;
                let n = le_at(s, at + 4, 8);
                lemma_le_bytes_at(s, at, 4);
                lemma_le_bytes_at(s, at + 4, 8);
                lemma_limits();
                lemma_tag_round_trip(elem, le_at(s, at, 4) as u32);
                lemma_items_canonical(s, at + 12, elem, n);
                assert(encode_payload(v) =~= s.subrange(at, next));
            },
            GGUFValueType::Bool => {
                lemma_le_bytes_at(s, at, 1);
                reveal_with_fuel(le_at, 2);
            },
            _ => {
                lemma_scalar_canonical(s, at, ty);
            },
        }
    }
}

/// Values that decode one behind the other were encoded one behind the
/// other.
pub proof fn lemma_items_canonical(s: Seq<u8>, at: int, elem: GGUFValueType, n: nat)
    ensures
        parse_items(s, at, elem, n) matches Ok((items, next)) ==> {
            &&& 0 <= at <= next <= s.len()
            &&& items.len() == n
            &&& forall|i: int|
                0 <= i < items.len() ==> (#[trigger] items[i]).value_type() == elem && encodable(
                    items[i],
                )
            &&& encode_items(items, n) == s.subrange(at, next)
        },
    decreases s.len() - at, n + 1,
{
    if let Ok((items, next)) = parse_items(s, at, elem, n) {
        if n == 0 {
            assert(s.subrange(at, at) =~= Seq::empty());
        } else {
            lemma_items_canonical(s, at, elem, (n - 1) as nat);
            let (front, p) = parse_items(s, at, elem, (n - 1) as nat)->Ok_0;
            lemma_payload_canonical(s, p, elem);
            let v = parse_payload(s, p, elem)->Ok_0.0;
            assert(items == front.push(v));
            assert(items.take(n - 1) =~= front.take(n - 1));
            lemma_encode_items_front(items, front, (n - 1) as nat);
            assert(encode_items(items, n) =~= s.subrange(at, next));
        }
    }
}

/// A value that decodes with its tag was encoded with its tag.
pub proof fn lemma_value_canonical(s: Seq<u8>, at: int)
    ensures
        parse_value(s, at) matches Ok((v, next)) ==> {
            &&& 0 <= at < next <= s.len()
            &&& encodable(v)
            &&& encode_value(v) == s.subrange(at, next)
        },
{
    if let Ok((v, next)) = parse_value(s, at) {
        let tag = le_at(s, at, 4) as u32;
        let ty = GGUFValueType::spec_from_tag(tag)->0;
        lemma_le_bytes_at(s, at, 4);
        lemma_limits();
        lemma_tag_round_trip(ty, tag);
        lemma_payload_canonical(s, at + 4, ty);
        assert(encode_value(v) =~= s.subrange(at, next));
    }
}

/// A metadata entry that decodes was encoded.
pub proof fn lemma_entry_canonical(s: Seq<u8>, at: int)
    ensures
        parse_entry(s, at) matches Ok((e, next)) ==> {
            &&& 0 <= at < next <= s.len()
            &&& encodable_entry(e)
            &&& encode_entry(e) == s.subrange(at, next)
        },
{
    if let Ok((e, next)) = parse_entry(s, at) {
        lemma_text_canonical(s, at);
        let p = parse_text(s, at)->Ok_0.1;
        lemma_value_canonical(s, p);
        assert(encode_entry(e) =~= s.subrange(at, next));
    }
}

/// The bytes of the first `k` of some entries do not depend on the entries
/// behind them.
pub proof fn lemma_encode_entries_front(
    a: Seq<(Seq<char>, GGUFValueView)>,
    b: Seq<(Seq<char>, GGUFValueView)>,
    k: nat,
)
    requires
        k <= a.len(),
        k <= b.len(),
        a.take(k as int) == b.take(k as int),
    ensures
        encode_entries(a, k) == encode_entries(b, k),
    decreases k,
{
    if k > 0 {
        assert(a.take(k - 1) =~= a.take(k as int).take(k - 1));
        assert(b.take(k - 1) =~= b.take(k as int).take(k - 1));
        lemma_encode_entries_front(a, b, (k - 1) as nat);
        assert(a[k - 1] == a.take(k as int)[k - 1]);
        assert(b[k - 1] == b.take(k as int)[k - 1]);
    }
}

/// Metadata that decode were encoded: there are as many entries as were
/// asked for, their keys are distinct, each can stand in a container, and
/// the bytes they were decoded from are their bytes.
pub proof fn lemma_entries_canonical(s: Seq<u8>, at: int, n: nat)
    ensures
        parse_entries(s, at, n) matches Ok((entries, next)) ==> {
            &&& 0 <= at <= next <= s.len()
            &&& entries.len() == n
            &&& distinct_keys(entries)
            &&& values_wf(entries)
            &&& forall|i: int| 0 <= i < entries.len() ==> encodable_entry(#[trigger] entries[i])
            &&& encode_entries(entries, n) == s.subrange(at, next)
        },
    decreases n,
{
    if let Ok((entries, next)) = parse_entries(s, at, n) {
        if n == 0 {
            assert(s.subrange(at, at) =~= Seq::empty());
        } else {
            lemma_entries_canonical(s, at, (n - 1) as nat);
            let (front, p) = parse_entries(s, at, (n - 1) as nat)->Ok_0;
            lemma_entry_canonical(s, p);
            let e = parse_entry(s, p)->Ok_0.0;
            assert(entries == front.push(e));
            assert(entries.take(n - 1) =~= front.take(n - 1));
            lemma_encode_entries_front(entries, front, (n - 1) as nat);
            assert(encode_entries(entries, n) =~= s.subrange(at, next));
            assert forall|a: int, b: int| 0 <= a < b < entries.len() implies (
            #[trigger] entries[a]).0 != (#[trigger] entries[b]).0 by {
                if b == n - 1 {
                    assert(front[a].0 != e.0);
                } else {
                    assert(front[a].0 != front[b].0);
                }
            }
            assert forall|i: int| 0 <= i < entries.len() implies (#[trigger] entries[i]).1.wf() by {
                if i < n - 1 {
                    assert(front[i].1.wf());
                } else {
                    crate::wire::lemma_value_wf(s, parse_text(s, p)->Ok_0.1);
                }
            }
        }
    }
}

/// A header that decodes was encoded: it has the magic and the version of
/// the format, its keys are distinct, its values are well formed, and the
/// bytes it was decoded from are its bytes.
pub proof fn lemma_header_canonical(s: Seq<u8>, at: int)
    ensures
        parse_header(s, at) matches Ok((h, next)) ==> {
            &&& 0 <= at < next <= s.len()
            &&& h.magic == GGUF_MAGIC
            &&& h.version == GGUF_VERSION
            &&& distinct_keys(h.metadata)
            &&& values_wf(h.metadata)
            &&& forall|i: int|
                0 <= i < h.metadata.len() ==> encodable_entry(#[trigger] h.metadata[i])
            &&& encode_header(h) == s.subrange(at, next)
        },
{
    if let Ok((h, next)) = parse_header(s, at) {
        let n = le_at(s, at + 16, 8);
        lemma_limits();
        lemma_le_bytes_at(s, at, 4);
        lemma_le_bytes_at(s, at + 4, 4);
        lemma_le_bytes_at(s, at + 8, 8);
        lemma_le_bytes_at(s, at + 16, 8);
        lemma_entries_canonical(s, at + 24, n);
        assert(encode_header(h) =~= s.subrange(at, next));
    }
}

/// Sizes that are read from `s` were encoded there.
pub proof fn lemma_sizes_canonical(s: Seq<u8>, at: int, sizes: Seq<u64>, k: nat)
    requires
        0 <= at,
        k <= sizes.len(),
        at + 8 * k <= s.len(),
        forall|i: int| 0 <= i < k ==> #[trigger] sizes[i] == le_at(s, at + 8 * i, 8),
    ensures
        encode_sizes(sizes, k) == s.subrange(at, at + 8 * k),
    decreases k,
{
    if k == 0 {
        assert(s.subrange(at, at + 0) =~= Seq::empty());
    } else {
        lemma_sizes_canonical(s, at, sizes, (k - 1) as nat);
        lemma_le_bytes_at(s, at + 8 * (k - 1), 8);
        lemma_limits();
        assert(sizes[k - 1] == le_at(s, at + 8 * (k - 1), 8));
        assert(encode_sizes(sizes, k) =~= s.subrange(at, at + 8 * k));
    }
}

/// The description of a tensor that decodes was encoded.
pub proof fn lemma_tensor_canonical(s: Seq<u8>, at: int)
    ensures
        parse_tensor(s, at) matches Ok((t, next)) ==> {
            &&& 0 <= at < next <= s.len()
            &&& encodable_tensor(t)
            &&& encode_tensor(t) == s.subrange(at, next)
        },
{
    if let Ok((t, next)) = parse_tensor(s, at) {
        lemma_text_canonical(s, at);
        let p = parse_text(s, at)->Ok_0.1;
        let d = le_at(s, p, 4);
        lemma_limits();
        lemma_le_bytes_at(s, p, 4);
        lemma_le_bytes_at(s, p + 4 + 8 * d, 4);
        lemma_le_bytes_at(s, p + 8 + 8 * d, 8);
        assert forall|i: int| 0 <= i < d implies #[trigger] t.dimensions[i] == le_at(
            s,
            p + 4 + 8 * i,
            8,
        ) by {
            lemma_le_bytes_at(s, p + 4 + 8 * i, 8);
        }
        lemma_sizes_canonical(s, p + 4, t.dimensions, d);
        assert(encode_tensor(t) =~= s.subrange(at, next));
    }
}

/// The bytes of the first `k` of some descriptions do not depend on the
/// descriptions behind them.
pub proof fn lemma_encode_tensors_front(a: Seq<crate::wire::TensorView>, b: Seq<
    crate::wire::TensorView,
>, k: nat)
    requires
        k <= a.len(),
        k <= b.len(),
        a.take(k as int) == b.take(k as int),
    ensures
        encode_tensors(a, k) == encode_tensors(b, k),
    decreases k,
{
    if k > 0 {
        assert(a.take(k - 1) =~= a.take(k as int).take(k - 1));
        assert(b.take(k - 1) =~= b.take(k as int).take(k - 1));
        lemma_encode_tensors_front(a, b, (k - 1) as nat);
        assert(a[k - 1] == a.take(k as int)[k - 1]);
        assert(b[k - 1] == b.take(k as int)[k - 1]);
    }
}

/// A tensor table that decodes was encoded.
pub proof fn lemma_tensors_canonical(s: Seq<u8>, at: int, n: nat)
    ensures
        parse_tensors(s, at, n) matches Ok((tensors, next)) ==> {
            &&& 0 <= at <= next <= s.len()
            &&& tensors.len() == n
            &&& forall|i: int| 0 <= i < tensors.len() ==> encodable_tensor(#[trigger] tensors[i])
            &&& encode_tensors(tensors, n) == s.subrange(at, next)
        },
    decreases n,
{
    if let Ok((tensors, next)) = parse_tensors(s, at, n) {
        if n == 0 {
            assert(s.subrange(at, at) =~= Seq::empty());
        } else {
            lemma_tensors_canonical(s, at, (n - 1) as nat);
            let (front, p) = parse_tensors(s, at, (n - 1) as nat)->Ok_0;
            lemma_tensor_canonical(s, p);
            let t = parse_tensor(s, p)->Ok_0.0;
            assert(tensors == front.push(t));
            assert(tensors.take(n - 1) =~= front.take(n - 1));
            lemma_encode_tensors_front(tensors, front, (n - 1) as nat);
            assert(encode_tensors(tensors, n) =~= s.subrange(at, next));
        }
    }
}

} // verus!
