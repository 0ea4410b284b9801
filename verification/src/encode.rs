use crate::header::distinct_keys;
use crate::kinds::{lemma_tag_round_trip, GGUFValueType};
use crate::value::GGUFValueView;
use crate::wire::{
    has_key, le_at, parse_entries, parse_entry, parse_header, parse_items, parse_payload,
    parse_tensor, parse_tensors, parse_text, parse_value, scalar_at, signed, Decoded,
    GGUFHeaderView, TensorView, GGUF_MAGIC, GGUF_VERSION,
};
use vstd::prelude::*;
use vstd::utf8::{encode_utf8, encode_utf8_decode_utf8, encode_utf8_valid_utf8};

verus! {

/// The `width` bytes that stand for the number `v`, lowest byte first.
pub open spec fn le_bytes(v: nat, width: nat) -> Seq<u8>
    decreases width,
{
    if width == 0 {
        Seq::empty()
    } else {
        seq![(v % 256) as u8] + le_bytes(v / 256, (width - 1) as nat)
    }
}

/// The number of numbers that `width` bytes can stand for.
pub open spec fn limit(width: nat) -> nat
    decreases width,
{
    if width == 0 {
        1
    } else {
        256 * limit((width - 1) as nat)
    }
}

/// The number below twice `half` whose two's complement reading is `x`.
pub open spec fn unsigned(x: int, half: nat) -> nat {
    if x < 0 {
        (x + 2 * half) as nat
    } else {
        x as nat
    }
}

/// A number takes as many bytes as it is given.
pub proof fn lemma_le_bytes_len(v: nat, width: nat)
    ensures
        le_bytes(v, width).len() == width,
    decreases width,
{
    if width > 0 {
        lemma_le_bytes_len(v / 256, (width - 1) as nat);
    }
}

/// The limits of the widths in use.
pub proof fn lemma_limits()
    ensures
        limit(1) == 0x100,
        limit(2) == 0x1_0000,
        limit(4) == 0x1_0000_0000,
        limit(8) == 0x1_0000_0000_0000_0000,
{
    reveal_with_fuel(limit, 9);
}

/// Where the bytes of `s` from `at` on are those that stand for `v`, the
/// number read there is `v`.
pub proof fn lemma_le_at_bytes(s: Seq<u8>, at: int, v: nat, width: nat)
    requires
        0 <= at,
        at + width <= s.len(),
        s.subrange(at, at + width) == le_bytes(v, width),
        v < limit(width),
    ensures
        le_at(s, at, width) == v,
    decreases width,
{
    if width > 0 {
        let rest = le_bytes(v / 256, (width - 1) as nat);
        lemma_le_bytes_len(v / 256, (width - 1) as nat);
        assert(s[at] == s.subrange(at, at + width)[0]);
        assert(s.subrange(at + 1, at + width) =~= rest) by {
            assert forall|i: int| 0 <= i < width - 1 implies s.subrange(at + 1, at + width)[i]
                == rest[i] by {
                assert(s.subrange(at, at + width)[i + 1] == s[at + 1 + i]);
            }
        }
        lemma_le_at_bytes(s, at + 1, v / 256, (width - 1) as nat);
    }
}

/// The two's complement reading of the number that stands for `x` is `x`.
pub proof fn lemma_signed_unsigned(x: int, half: nat)
    requires
        -half <= x < half,
    ensures
        unsigned(x, half) < 2 * half,
        signed(unsigned(x, half), half) == x,
{
}

/// The bytes of a text: the number of bytes of its UTF-8 form, 64 bits,
/// then that form.
pub open spec fn encode_text(t: Seq<char>) -> Seq<u8> {
    le_bytes(encode_utf8(t).len(), 8) + encode_utf8(t)
}

/// Where the bytes of `s` from `at` on are those of the text `t`, it is `t`
/// that is decoded there.
pub proof fn lemma_text_round_trip(t: Seq<char>, s: Seq<u8>, at: int)
    requires
        encode_utf8(t).len() < 0x1_0000_0000_0000_0000,
        0 <= at,
        at + encode_text(t).len() <= s.len(),
        s.subrange(at, at + encode_text(t).len()) == encode_text(t),
    ensures
        parse_text(s, at) == Decoded::<Seq<char>>::Ok((t, at + encode_text(t).len())),
        encode_text(t).len() == 8 + encode_utf8(t).len(),
{
    let body = encode_utf8(t);
    let n = body.len();
    lemma_le_bytes_len(n, 8);
    lemma_limits();
    let e = encode_text(t);
    assert(s.subrange(at, at + 8) =~= le_bytes(n, 8)) by {
        assert forall|i: int| 0 <= i < 8 implies s.subrange(at, at + 8)[i] == le_bytes(n, 8)[i] by {
            assert(s.subrange(at, at + e.len())[i] == e[i]);
        }
    }
    lemma_le_at_bytes(s, at, n, 8);
    assert(s.subrange(at + 8, at + 8 + n) =~= body) by {
        assert forall|i: int| 0 <= i < n implies s.subrange(at + 8, at + 8 + n)[i] == body[i] by {
            assert(s.subrange(at, at + e.len())[8 + i] == e[8 + i]);
        }
    }
    encode_utf8_valid_utf8(t);
    encode_utf8_decode_utf8(t);
}

/// The bytes of a value of fixed width.
pub open spec fn encode_scalar(v: GGUFValueView) -> Seq<u8> {
    match v {
        GGUFValueView::U8(x) => le_bytes(x as nat, 1),
        GGUFValueView::I8(x) => le_bytes(unsigned(x as int, 0x80), 1),
        GGUFValueView::U16(x) => le_bytes(x as nat, 2),
        GGUFValueView::I16(x) => le_bytes(unsigned(x as int, 0x8000), 2),
        GGUFValueView::U32(x) => le_bytes(x as nat, 4),
        GGUFValueView::I32(x) => le_bytes(unsigned(x as int, 0x8000_0000), 4),
        GGUFValueView::U64(x) => le_bytes(x as nat, 8),
        GGUFValueView::I64(x) => le_bytes(unsigned(x as int, 0x8000_0000_0000_0000), 8),
        GGUFValueView::F32(x) => le_bytes(x as nat, 4),
        GGUFValueView::F64(x) => le_bytes(x as nat, 8),
        GGUFValueView::Bool(x) => le_bytes(x as nat, 1),
        _ => Seq::empty(),
    }
}

/// Where the bytes of `s` from `at` on are those of a value of fixed width
/// other than a boolean, that value is read there.
pub proof fn lemma_scalar_round_trip(v: GGUFValueView, s: Seq<u8>, at: int)
    requires
        v.value_type().spec_width() is Some,
        v.value_type() != GGUFValueType::Bool,
        0 <= at,
        at + encode_scalar(v).len() <= s.len(),
        s.subrange(at, at + encode_scalar(v).len()) == encode_scalar(v),
    ensures
        encode_scalar(v).len() == v.value_type().spec_width()->0,
        scalar_at(s, at, v.value_type()) == v,
{
    lemma_limits();
    match v {
        GGUFValueView::U8(x) => {
            lemma_le_bytes_len(x as nat, 1);
            lemma_le_at_bytes(s, at, x as nat, 1);
        },
        GGUFValueView::I8(x) => {
            lemma_le_bytes_len(unsigned(x as int, 0x80), 1);
            lemma_le_at_bytes(s, at, unsigned(x as int, 0x80), 1);
        },
        GGUFValueView::U16(x) => {
            lemma_le_bytes_len(x as nat, 2);
            lemma_le_at_bytes(s, at, x as nat, 2);
        },
        GGUFValueView::I16(x) => {
            lemma_le_bytes_len(unsigned(x as int, 0x8000), 2);
            lemma_le_at_bytes(s, at, unsigned(x as int, 0x8000), 2);
        },
        GGUFValueView::U32(x) => {
            lemma_le_bytes_len(x as nat, 4);
            lemma_le_at_bytes(s, at, x as nat, 4);
        },
        GGUFValueView::I32(x) => {
            lemma_le_bytes_len(unsigned(x as int, 0x8000_0000), 4);
            lemma_le_at_bytes(s, at, unsigned(x as int, 0x8000_0000), 4);
        },
        GGUFValueView::U64(x) => {
            lemma_le_bytes_len(x as nat, 8);
            lemma_le_at_bytes(s, at, x as nat, 8);
        },
        GGUFValueView::I64(x) => {
            lemma_le_bytes_len(unsigned(x as int, 0x8000_0000_0000_0000), 8);
            lemma_le_at_bytes(s, at, unsigned(x as int, 0x8000_0000_0000_0000), 8);
        },
        GGUFValueView::F32(x) => {
            lemma_le_bytes_len(x as nat, 4);
            lemma_le_at_bytes(s, at, x as nat, 4);
        },
        GGUFValueView::F64(x) => {
            lemma_le_bytes_len(x as nat, 8);
            lemma_le_at_bytes(s, at, x as nat, 8);
        },
        _ => {},
    }
}

/// The bytes of a value, without a tag in front.
pub open spec fn encode_payload(v: GGUFValueView) -> Seq<u8>
    decreases v, 0nat,
{
    match v {
        GGUFValueView::String(t) => encode_text(t),
        GGUFValueView::Array(elem, items) => le_bytes(elem.spec_tag() as nat, 4) + le_bytes(
            items.len(),
            8,
        ) + encode_items(items, items.len()),
        _ => encode_scalar(v),
    }
}

/// The bytes of the first `n` of `items`, one value behind the other.
pub open spec fn encode_items(items: Seq<GGUFValueView>, n: nat) -> Seq<u8>
    decreases items, n,
{
    if n == 0 || n > items.len() {
        Seq::empty()
    } else {
        encode_items(items, (n - 1) as nat) + encode_payload(items[n - 1])
    }
}

/// A value can stand in a container where it is well formed and the
/// lengths in it fit in 64 bits.
pub open spec fn encodable(v: GGUFValueView) -> bool
    decreases v,
{
    match v {
        GGUFValueView::String(t) => encode_utf8(t).len() < 0x1_0000_0000_0000_0000,
        GGUFValueView::Array(elem, items) => items.len() < 0x1_0000_0000_0000_0000 && forall|
            i: int,
        |
            0 <= i < items.len() ==> (#[trigger] items[i]).value_type() == elem && encodable(
                items[i],
            ),
        GGUFValueView::Bool(b) => b <= 1,
        _ => true,
    }
}

/// Decoding undoes encoding: where the bytes of `s` from `at` on are those
/// of the value `v`, it is `v` that is decoded there, and the position
/// behind it is that behind its bytes.
pub proof fn lemma_payload_round_trip(v: GGUFValueView, s: Seq<u8>, at: int)
    requires
        encodable(v),
        0 <= at,
        at + encode_payload(v).len() <= s.len(),
        s.subrange(at, at + encode_payload(v).len()) == encode_payload(v),
    ensures
        parse_payload(s, at, v.value_type()) == Decoded::<GGUFValueView>::Ok(
            (v, at + encode_payload(v).len()),
        ),
    decreases v, 0nat,
{
    let e = encode_payload(v);
    match v {
        GGUFValueView::String(t) => {
            lemma_text_round_trip(t, s, at);
        },
        GGUFValueView::Array(elem, items) => {
            let tag = elem.spec_tag() as nat;
            let n = items.len();
            let body = encode_items(items, n);
            lemma_le_bytes_len(tag, 4);
            lemma_le_bytes_len(n, 8);
            lemma_limits();
            lemma_tag_round_trip(elem, 0);
            assert(s.subrange(at, at + 4) =~= le_bytes(tag, 4)) by {
                assert forall|i: int| 0 <= i < 4 implies s.subrange(at, at + 4)[i] == le_bytes(
                    tag,
                    4,
                )[i] by {
                    assert(s.subrange(at, at + e.len())[i] == e[i]);
                }
            }
            lemma_le_at_bytes(s, at, tag, 4);
            assert(s.subrange(at + 4, at + 12) =~= le_bytes(n, 8)) by {
                assert forall|i: int| 0 <= i < 8 implies s.subrange(at + 4, at + 12)[i]
                    == le_bytes(n, 8)[i] by {
                    assert(s.subrange(at, at + e.len())[4 + i] == e[4 + i]);
                }
            }
            lemma_le_at_bytes(s, at + 4, n, 8);
            assert(s.subrange(at + 12, at + 12 + body.len()) =~= body) by {
                assert forall|i: int| 0 <= i < body.len() implies s.subrange(
                    at + 12,
                    at + 12 + body.len(),
                )[i] == body[i] by {
                    assert(s.subrange(at, at + e.len())[12 + i] == e[12 + i]);
                }
            }
            lemma_items_round_trip(items, elem, s, at + 12, n);
            assert(items.take(n as int) =~= items);
        },
        GGUFValueView::Bool(b) => {
            lemma_le_bytes_len(b as nat, 1);
            assert(s[at] == s.subrange(at, at + e.len())[0]);
            assert(le_bytes(b as nat, 1)[0] == b);
        },
        _ => {
            lemma_scalar_round_trip(v, s, at);
        },
    }
}

/// Decoding undoes encoding for values one behind the other.
pub proof fn lemma_items_round_trip(
    items: Seq<GGUFValueView>,
    elem: GGUFValueType,
    s: Seq<u8>,
    at: int,
    k: nat,
)
    requires
        forall|i: int|
            0 <= i < items.len() ==> (#[trigger] items[i]).value_type() == elem && encodable(
                items[i],
            ),
        k <= items.len(),
        0 <= at,
        at + encode_items(items, k).len() <= s.len(),
        s.subrange(at, at + encode_items(items, k).len()) == encode_items(items, k),
    ensures
        parse_items(s, at, elem, k) == Decoded::<Seq<GGUFValueView>>::Ok(
            (items.take(k as int), at + encode_items(items, k).len()),
        ),
    decreases items, k,
{
    if k == 0 {
        assert(items.take(0) =~= Seq::empty());
    } else {
        let e = encode_items(items, k);
        let front = encode_items(items, (k - 1) as nat);
        let last = encode_payload(items[k - 1]);
        assert(s.subrange(at, at + front.len()) =~= front) by {
            assert forall|i: int| 0 <= i < front.len() implies s.subrange(at, at + front.len())[i]
                == front[i] by {
                assert(s.subrange(at, at + e.len())[i] == e[i]);
            }
        }
        lemma_items_round_trip(items, elem, s, at, (k - 1) as nat);
        let p = at + front.len();
        assert(s.subrange(p, p + last.len()) =~= last) by {
            assert forall|i: int| 0 <= i < last.len() implies s.subrange(p, p + last.len())[i]
                == last[i] by {
                assert(s.subrange(at, at + e.len())[front.len() + i] == e[front.len() + i]);
            }
        }
        lemma_payload_round_trip(items[k - 1], s, p);
        assert(items.take(k as int) =~= items.take(k - 1).push(items[k - 1]));
    }
}

/// The bytes of a value with its tag in front.
pub open spec fn encode_value(v: GGUFValueView) -> Seq<u8> {
    le_bytes(v.value_type().spec_tag() as nat, 4) + encode_payload(v)
}

/// Decoding undoes encoding for a value with its tag.
pub proof fn lemma_value_round_trip(v: GGUFValueView, s: Seq<u8>, at: int)
    requires
        encodable(v),
        0 <= at,
        at + encode_value(v).len() <= s.len(),
        s.subrange(at, at + encode_value(v).len()) == encode_value(v),
    ensures
        parse_value(s, at) == Decoded::<GGUFValueView>::Ok((v, at + encode_value(v).len())),
{
    let e = encode_value(v);
    let tag = v.value_type().spec_tag() as nat;
    let body = encode_payload(v);
    lemma_le_bytes_len(tag, 4);
    lemma_limits();
    lemma_tag_round_trip(v.value_type(), 0);
    assert(s.subrange(at, at + 4) =~= le_bytes(tag, 4)) by {
        assert forall|i: int| 0 <= i < 4 implies s.subrange(at, at + 4)[i] == le_bytes(tag, 4)[i] by {
            assert(s.subrange(at, at + e.len())[i] == e[i]);
        }
    }
    lemma_le_at_bytes(s, at, tag, 4);
    assert(s.subrange(at + 4, at + 4 + body.len()) =~= body) by {
        assert forall|i: int| 0 <= i < body.len() implies s.subrange(at + 4, at + 4 + body.len())[i]
            == body[i] by {
            assert(s.subrange(at, at + e.len())[4 + i] == e[4 + i]);
        }
    }
    lemma_payload_round_trip(v, s, at + 4);
}

/// A part of an encoding is found in every sequence that holds the
/// encoding: where `s` holds `whole` from `at` on, and `part` is what
/// `whole` holds from `from` on, `s` holds `part` from `at + from` on.
pub proof fn lemma_part(s: Seq<u8>, at: int, whole: Seq<u8>, from: int, part: Seq<u8>)
    requires
        0 <= at,
        at + whole.len() <= s.len(),
        s.subrange(at, at + whole.len()) == whole,
        0 <= from,
        from + part.len() <= whole.len(),
        whole.subrange(from, from + part.len()) == part,
    ensures
        s.subrange(at + from, at + from + part.len()) == part,
{
    assert(s.subrange(at + from, at + from + part.len()) =~= part) by {
        assert forall|i: int| 0 <= i < part.len() implies s.subrange(
            at + from,
            at + from + part.len(),
        )[i] == part[i] by {
            assert(s.subrange(at, at + whole.len())[from + i] == whole[from + i]);
            assert(whole.subrange(from, from + part.len())[i] == whole[from + i]);
        }
    }
}

/// The bytes of a metadata entry: the key as a text, then the value with
/// its tag.
pub open spec fn encode_entry(e: (Seq<char>, GGUFValueView)) -> Seq<u8> {
    encode_text(e.0) + encode_value(e.1)
}

/// The bytes of the first `n` of `entries`.
pub open spec fn encode_entries(entries: Seq<(Seq<char>, GGUFValueView)>, n: nat) -> Seq<u8>
    decreases n,
{
    if n == 0 || n > entries.len() {
        Seq::empty()
    } else {
        encode_entries(entries, (n - 1) as nat) + encode_entry(entries[n - 1])
    }
}

/// An entry can stand in a container where its key and its value can.
pub open spec fn encodable_entry(e: (Seq<char>, GGUFValueView)) -> bool {
    encode_utf8(e.0).len() < 0x1_0000_0000_0000_0000 && encodable(e.1)
}

/// Decoding undoes encoding for a metadata entry.
pub proof fn lemma_entry_round_trip(e: (Seq<char>, GGUFValueView), s: Seq<u8>, at: int)
    requires
        encodable_entry(e),
        0 <= at,
        at + encode_entry(e).len() <= s.len(),
        s.subrange(at, at + encode_entry(e).len()) == encode_entry(e),
    ensures
        parse_entry(s, at) == Decoded::<(Seq<char>, GGUFValueView)>::Ok(
            (e, at + encode_entry(e).len()),
        ),
{
    let whole = encode_entry(e);
    let key = encode_text(e.0);
    let value = encode_value(e.1);
    assert(whole.subrange(0, key.len() as int) =~= key);
    assert(whole.subrange(key.len() as int, (key.len() + value.len()) as int) =~= value);
    lemma_part(s, at, whole, 0, key);
    lemma_part(s, at, whole, key.len() as int, value);
    lemma_text_round_trip(e.0, s, at);
    lemma_value_round_trip(e.1, s, at + key.len());
}

/// Decoding undoes encoding for metadata entries with distinct keys.
pub proof fn lemma_entries_round_trip(
    entries: Seq<(Seq<char>, GGUFValueView)>,
    s: Seq<u8>,
    at: int,
    k: nat,
)
    requires
        distinct_keys(entries),
        forall|i: int| 0 <= i < entries.len() ==> encodable_entry(#[trigger] entries[i]),
        k <= entries.len(),
        0 <= at,
        at + encode_entries(entries, k).len() <= s.len(),
        s.subrange(at, at + encode_entries(entries, k).len()) == encode_entries(entries, k),
    ensures
        parse_entries(s, at, k) == Decoded::<Seq<(Seq<char>, GGUFValueView)>>::Ok(
            (entries.take(k as int), at + encode_entries(entries, k).len()),
        ),
    decreases k,
{
    if k == 0 {
        assert(entries.take(0) =~= Seq::empty());
    } else {
        let whole = encode_entries(entries, k);
        let front = encode_entries(entries, (k - 1) as nat);
        let last = encode_entry(entries[k - 1]);
        assert(whole.subrange(0, front.len() as int) =~= front);
        assert(whole.subrange(front.len() as int, (front.len() + last.len()) as int) =~= last);
        lemma_part(s, at, whole, 0, front);
        lemma_part(s, at, whole, front.len() as int, last);
        lemma_entries_round_trip(entries, s, at, (k - 1) as nat);
        lemma_entry_round_trip(entries[k - 1], s, at + front.len());
        let before = entries.take(k - 1);
        assert(!has_key(before, entries[k - 1].0)) by {
            if has_key(before, entries[k - 1].0) {
                let i = choose|i: int|
                    0 <= i < before.len() && (#[trigger] before[i]).0 == entries[k - 1].0;
                assert(entries[i].0 != entries[k - 1].0);
            }
        }
        assert(entries.take(k as int) =~= before.push(entries[k - 1]));
    }
}

/// The bytes of a header: magic, version, the number of tensors, the
/// number of metadata entries, and the entries.
pub open spec fn encode_header(h: GGUFHeaderView) -> Seq<u8> {
    le_bytes(h.magic as nat, 4) + le_bytes(h.version as nat, 4) + le_bytes(
        h.tensor_count as nat,
        8,
    ) + le_bytes(h.metadata.len(), 8) + encode_entries(h.metadata, h.metadata.len())
}

/// Decoding undoes encoding for a header: where the bytes of `s` from `at`
/// on are those of a header with the magic and the version of the format,
/// distinct keys and entries that can stand in a container, that header is
/// decoded there.
pub proof fn lemma_header_round_trip(h: GGUFHeaderView, s: Seq<u8>, at: int)
    requires
        h.magic == GGUF_MAGIC,
        h.version == GGUF_VERSION,
        h.metadata.len() < 0x1_0000_0000_0000_0000,
        distinct_keys(h.metadata),
        forall|i: int| 0 <= i < h.metadata.len() ==> encodable_entry(#[trigger] h.metadata[i]),
        0 <= at,
        at + encode_header(h).len() <= s.len(),
        s.subrange(at, at + encode_header(h).len()) == encode_header(h),
    ensures
        parse_header(s, at) == Decoded::<GGUFHeaderView>::Ok((h, at + encode_header(h).len())),
{
    let whole = encode_header(h);
    let n = h.metadata.len();
    let body = encode_entries(h.metadata, n);
    lemma_limits();
    lemma_le_bytes_len(h.magic as nat, 4);
    lemma_le_bytes_len(h.version as nat, 4);
    lemma_le_bytes_len(h.tensor_count as nat, 8);
    lemma_le_bytes_len(n, 8);
    assert(whole.subrange(0, 4) =~= le_bytes(h.magic as nat, 4));
    assert(whole.subrange(4, 8) =~= le_bytes(h.version as nat, 4));
    assert(whole.subrange(8, 16) =~= le_bytes(h.tensor_count as nat, 8));
    assert(whole.subrange(16, 24) =~= le_bytes(n, 8));
    assert(whole.subrange(24, (24 + body.len()) as int) =~= body);
    lemma_part(s, at, whole, 0, le_bytes(h.magic as nat, 4));
    lemma_part(s, at, whole, 4, le_bytes(h.version as nat, 4));
    lemma_part(s, at, whole, 8, le_bytes(h.tensor_count as nat, 8));
    lemma_part(s, at, whole, 16, le_bytes(n, 8));
    lemma_part(s, at, whole, 24, body);
    lemma_le_at_bytes(s, at, h.magic as nat, 4);
    lemma_le_at_bytes(s, at + 4, h.version as nat, 4);
    lemma_le_at_bytes(s, at + 8, h.tensor_count as nat, 8);
    lemma_le_at_bytes(s, at + 16, n, 8);
    lemma_entries_round_trip(h.metadata, s, at + 24, n);
    assert(h.metadata.take(n as int) =~= h.metadata);
}

/// The bytes of the first `n` of `sizes`, 64 bits each.
pub open spec fn encode_sizes(sizes: Seq<u64>, n: nat) -> Seq<u8>
    decreases n,
{
    if n == 0 || n > sizes.len() {
        Seq::empty()
    } else {
        encode_sizes(sizes, (n - 1) as nat) + le_bytes(sizes[n - 1] as nat, 8)
    }
}

/// Sizes take eight bytes each, and each is read back from its place.
pub proof fn lemma_sizes_round_trip(sizes: Seq<u64>, s: Seq<u8>, at: int, k: nat)
    requires
        k <= sizes.len(),
        0 <= at,
        at + encode_sizes(sizes, k).len() <= s.len(),
        s.subrange(at, at + encode_sizes(sizes, k).len()) == encode_sizes(sizes, k),
    ensures
        encode_sizes(sizes, k).len() == 8 * k,
        forall|i: int| 0 <= i < k ==> le_at(s, at + 8 * i, 8) == #[trigger] sizes[i],
    decreases k,
{
    if k > 0 {
        let whole = encode_sizes(sizes, k);
        let front = encode_sizes(sizes, (k - 1) as nat);
        let last = le_bytes(sizes[k - 1] as nat, 8);
        lemma_le_bytes_len(sizes[k - 1] as nat, 8);
        lemma_limits();
        assert(whole.subrange(0, front.len() as int) =~= front);
        assert(whole.subrange(front.len() as int, (front.len() + last.len()) as int) =~= last);
        lemma_part(s, at, whole, 0, front);
        lemma_part(s, at, whole, front.len() as int, last);
        lemma_sizes_round_trip(sizes, s, at, (k - 1) as nat);
        lemma_le_at_bytes(s, at + 8 * (k - 1), sizes[k - 1] as nat, 8);
        assert forall|i: int| 0 <= i < k implies le_at(s, at + 8 * i, 8) == #[trigger] sizes[i] by {
            if i == k - 1 {
                assert(le_at(s, at + 8 * (k - 1), 8) == sizes[k - 1]);
            }
        }
    }
}

/// The bytes of the description of a tensor.
pub open spec fn encode_tensor(t: TensorView) -> Seq<u8> {
    encode_text(t.name) + le_bytes(t.dimensions.len(), 4) + encode_sizes(
        t.dimensions,
        t.dimensions.len(),
    ) + le_bytes(t.kind as nat, 4) + le_bytes(t.offset as nat, 8)
}

/// The description of a tensor can stand in a container where its name
/// fits in 64 bits and the number of its dimensions in 32.
pub open spec fn encodable_tensor(t: TensorView) -> bool {
    encode_utf8(t.name).len() < 0x1_0000_0000_0000_0000 && t.dimensions.len() < 0x1_0000_0000
}

/// Decoding undoes encoding for the description of a tensor.
pub proof fn lemma_tensor_round_trip(t: TensorView, s: Seq<u8>, at: int)
    requires
        encodable_tensor(t),
        0 <= at,
        at + encode_tensor(t).len() <= s.len(),
        s.subrange(at, at + encode_tensor(t).len()) == encode_tensor(t),
    ensures
        parse_tensor(s, at) == Decoded::<TensorView>::Ok((t, at + encode_tensor(t).len())),
{
    let whole = encode_tensor(t);
    let name = encode_text(t.name);
    let d = t.dimensions.len();
    let sizes = encode_sizes(t.dimensions, d);
    lemma_limits();
    lemma_le_bytes_len(encode_utf8(t.name).len(), 8);
    lemma_le_bytes_len(d, 4);
    lemma_le_bytes_len(t.kind as nat, 4);
    lemma_le_bytes_len(t.offset as nat, 8);
    let p = name.len() as int;
    let q = p + 4 + sizes.len();
    assert(whole.subrange(0, p) =~= name);
    assert(whole.subrange(p, p + 4) =~= le_bytes(d, 4));
    assert(whole.subrange(p + 4, p + 4 + sizes.len()) =~= sizes);
    assert(whole.subrange(q, q + 4) =~= le_bytes(t.kind as nat, 4));
    assert(whole.subrange(q + 4, q + 12) =~= le_bytes(t.offset as nat, 8));
    lemma_part(s, at, whole, 0, name);
    lemma_part(s, at, whole, p, le_bytes(d, 4));
    lemma_part(s, at, whole, p + 4, sizes);
    lemma_part(s, at, whole, q, le_bytes(t.kind as nat, 4));
    lemma_part(s, at, whole, q + 4, le_bytes(t.offset as nat, 8));
    lemma_text_round_trip(t.name, s, at);
    lemma_le_at_bytes(s, at + p, d, 4);
    lemma_sizes_round_trip(t.dimensions, s, at + p + 4, d);
    lemma_le_at_bytes(s, at + q, t.kind as nat, 4);
    lemma_le_at_bytes(s, at + q + 4, t.offset as nat, 8);
    let got = parse_tensor(s, at)->Ok_0.0;
    assert(got.dimensions =~= t.dimensions) by {
        assert forall|i: int| 0 <= i < d implies #[trigger] got.dimensions[i] == t.dimensions[i] by {
            assert(le_at(s, at + p + 4 + 8 * i, 8) == t.dimensions[i]);
        }
    }
}

/// The bytes of the first `n` of `tensors`.
pub open spec fn encode_tensors(tensors: Seq<TensorView>, n: nat) -> Seq<u8>
    decreases n,
{
    if n == 0 || n > tensors.len() {
        Seq::empty()
    } else {
        encode_tensors(tensors, (n - 1) as nat) + encode_tensor(tensors[n - 1])
    }
}

/// Decoding undoes encoding for a tensor table.
pub proof fn lemma_tensors_round_trip(tensors: Seq<TensorView>, s: Seq<u8>, at: int, k: nat)
    requires
        forall|i: int| 0 <= i < tensors.len() ==> encodable_tensor(#[trigger] tensors[i]),
        k <= tensors.len(),
        0 <= at,
        at + encode_tensors(tensors, k).len() <= s.len(),
        s.subrange(at, at + encode_tensors(tensors, k).len()) == encode_tensors(tensors, k),
    ensures
        parse_tensors(s, at, k) == Decoded::<Seq<TensorView>>::Ok(
            (tensors.take(k as int), at + encode_tensors(tensors, k).len()),
        ),
    decreases k,
{
    if k == 0 {
        assert(tensors.take(0) =~= Seq::empty());
    } else {
        let whole = encode_tensors(tensors, k);
        let front = encode_tensors(tensors, (k - 1) as nat);
        let last = encode_tensor(tensors[k - 1]);
        assert(whole.subrange(0, front.len() as int) =~= front);
        assert(whole.subrange(front.len() as int, (front.len() + last.len()) as int) =~= last);
        lemma_part(s, at, whole, 0, front);
        lemma_part(s, at, whole, front.len() as int, last);
        lemma_tensors_round_trip(tensors, s, at, (k - 1) as nat);
        lemma_tensor_round_trip(tensors[k - 1], s, at + front.len());
        assert(tensors.take(k as int) =~= tensors.take(k - 1).push(tensors[k - 1]));
    }
}

} // verus!
