use crate::error::GGUFReaderErrorKind;
use crate::kinds::GGUFValueType;
use crate::wire::{
    le_at, lemma_items_wf, lemma_payload_wf, parse_entries, parse_entry, parse_header,
    parse_items, parse_payload, parse_tensor, parse_tensors, parse_text, parse_value, scalar_at,
    Decoded,
};
use vstd::prelude::*;

verus! {

/// How decoding from the first `n` bytes relates to decoding from all of
/// them, where the latter succeeds: with the decoded thing inside the
/// first `n` bytes the result is the same, and with the cut inside or
/// before it the result is the error `Unexpected`.
pub open spec fn cut_off<T>(whole: Decoded<T>, cut: Decoded<T>, n: int) -> bool {
    whole matches Ok((_, next)) ==> if n >= next {
        cut == whole
    } else {
        cut matches Err(k) && k == GGUFReaderErrorKind::Unexpected
    }
}

/// A number that lies inside the first `n` bytes is the same number there.
pub proof fn lemma_le_at_take(s: Seq<u8>, n: int, at: int, width: nat)
    requires
        0 <= at,
        at + width <= n <= s.len(),
    ensures
        le_at(s.take(n), at, width) == le_at(s, at, width),
    decreases width,
{
    if width > 0 {
        lemma_le_at_take(s, n, at + 1, (width - 1) as nat);
    }
}

/// A value of fixed width that lies inside the first `n` bytes is the same
/// value there.
pub proof fn lemma_scalar_at_take(s: Seq<u8>, n: int, at: int, ty: GGUFValueType)
    requires
        0 <= at,
        ty.spec_width() matches Some(w) && at + w <= n <= s.len(),
    ensures
        scalar_at(s.take(n), at, ty) == scalar_at(s, at, ty),
{
    lemma_le_at_take(s, n, at, ty.spec_width()->0);
}

/// A text cut short is `Unexpected`; bytes behind it do not matter.
pub proof fn lemma_text_cut(s: Seq<u8>, at: int, n: int)
    requires
        0 <= n <= s.len(),
    ensures
        cut_off(parse_text(s, at), parse_text(s.take(n), at), n),
{
    if let Ok((_, next)) = parse_text(s, at) {
        if n >= at + 8 {
            lemma_le_at_take(s, n, at, 8);
            if n >= next {
                assert(s.take(n).subrange(at + 8, next) =~= s.subrange(at + 8, next));
            }
        }
    }
}

/// A value cut short is `Unexpected`; bytes behind it do not matter.
pub proof fn lemma_payload_cut(s: Seq<u8>, at: int, ty: GGUFValueType, n: int)
    requires
        0 <= n <= s.len(),
    ensures
        cut_off(parse_payload(s, at, ty), parse_payload(s.take(n), at, ty), n),
    decreases s.len() - at, 0nat,
{
    if let Ok((_, next)) = parse_payload(s, at, ty) {
        lemma_payload_wf(s, at, ty);
        if at <= n {
            match ty {
                GGUFValueType::String => {
                    lemma_text_cut(s, at, n);
                },
                GGUFValueType::Array => {
                    let elem = GGUFValueType::spec_from_tag(le_at(s, at, 4) as u32)->0;
                    let count = le_at(s, at + 4, 8);
                    lemma_items_wf(s, at + 12, elem, count);
                    if n >= at + 12 {
                        lemma_le_at_take(s, n, at, 4);
                        lemma_le_at_take(s, n, at + 4, 8);
                        lemma_items_cut(s, at + 12, elem, count, n);
                    }
                },
                GGUFValueType::Bool => {},
                _ => {
                    if n >= next {
                        lemma_scalar_at_take(s, n, at, ty);
                    }
                },
            }
        }
    }
}

/// Values cut short are `Unexpected`; bytes behind them do not matter.
pub proof fn lemma_items_cut(s: Seq<u8>, at: int, elem: GGUFValueType, k: nat, n: int)
    requires
        0 <= n <= s.len(),
    ensures
        cut_off(parse_items(s, at, elem, k), parse_items(s.take(n), at, elem, k), n),
    decreases s.len() - at, k + 1,
{
    if let Ok((_, next)) = parse_items(s, at, elem, k) {
        if k > 0 {
            lemma_items_cut(s, at, elem, (k - 1) as nat, n);
            let p = parse_items(s, at, elem, (k - 1) as nat)->Ok_0.1;
            lemma_payload_wf(s, p, elem);
            lemma_payload_cut(s, p, elem, n);
        }
    }
}

/// A value with its tag, cut short, is `Unexpected`; bytes behind it do
/// not matter.
pub proof fn lemma_value_cut(s: Seq<u8>, at: int, n: int)
    requires
        0 <= n <= s.len(),
    ensures
        cut_off(parse_value(s, at), parse_value(s.take(n), at), n),
        parse_value(s, at) matches Ok((_, next)) ==> at < next <= s.len(),
{
    if let Ok((_, next)) = parse_value(s, at) {
        let ty = GGUFValueType::spec_from_tag(le_at(s, at, 4) as u32)->0;
        lemma_payload_wf(s, at + 4, ty);
        if n >= at + 4 {
            lemma_le_at_take(s, n, at, 4);
            lemma_payload_cut(s, at + 4, ty, n);
        }
    }
}

/// A metadata entry cut short is `Unexpected`; bytes behind it do not
/// matter.
pub proof fn lemma_entry_cut(s: Seq<u8>, at: int, n: int)
    requires
        0 <= n <= s.len(),
    ensures
        cut_off(parse_entry(s, at), parse_entry(s.take(n), at), n),
        parse_entry(s, at) matches Ok((_, next)) ==> at < next <= s.len(),
{
    if let Ok((_, next)) = parse_entry(s, at) {
        let p = parse_text(s, at)->Ok_0.1;
        lemma_text_cut(s, at, n);
        lemma_value_cut(s, p, n);
    }
}

/// Metadata entries cut short are `Unexpected`; bytes behind them do not
/// matter.
pub proof fn lemma_entries_cut(s: Seq<u8>, at: int, k: nat, n: int)
    requires
        0 <= n <= s.len(),
    ensures
        cut_off(parse_entries(s, at, k), parse_entries(s.take(n), at, k), n),
        parse_entries(s, at, k) matches Ok((_, next)) ==> at <= next <= s.len(),
    decreases k,
{
    if let Ok((_, next)) = parse_entries(s, at, k) {
        if k > 0 {
            lemma_entries_cut(s, at, (k - 1) as nat, n);
            let p = parse_entries(s, at, (k - 1) as nat)->Ok_0.1;
            lemma_entry_cut(s, p, n);
        }
    }
}

/// A container whose bytes end inside the header decodes to the error
/// `Unexpected`, and bytes behind a header do not change what it decodes
/// to: for a header that decodes from `s` and any `n`, decoding the first
/// `n` bytes of `s` gives the same header where it lies inside them, and
/// `Unexpected` where it does not.
pub proof fn lemma_header_cut(s: Seq<u8>, at: int, n: int)
    requires
        0 <= n <= s.len(),
    ensures
        cut_off(parse_header(s, at), parse_header(s.take(n), at), n),
        parse_header(s, at) matches Ok((_, next)) ==> at + 24 <= next <= s.len(),
{
    if let Ok((_, next)) = parse_header(s, at) {
        lemma_entries_cut(s, at + 24, le_at(s, at + 16, 8), n);
        if n >= at + 4 {
            lemma_le_at_take(s, n, at, 4);
        }
        if n >= at + 8 {
            lemma_le_at_take(s, n, at + 4, 4);
        }
        if n >= at + 24 {
            lemma_le_at_take(s, n, at + 8, 8);
            lemma_le_at_take(s, n, at + 16, 8);
        }
    }
}

/// The description of a tensor cut short is `Unexpected`; bytes behind it
/// do not matter.
pub proof fn lemma_tensor_cut(s: Seq<u8>, at: int, n: int)
    requires
        0 <= n <= s.len(),
    ensures
        cut_off(parse_tensor(s, at), parse_tensor(s.take(n), at), n),
        parse_tensor(s, at) matches Ok((_, next)) ==> at < next <= s.len(),
{
    if let Ok((t, next)) = parse_tensor(s, at) {
        let p = parse_text(s, at)->Ok_0.1;
        lemma_text_cut(s, at, n);
        if n >= p + 4 {
            lemma_le_at_take(s, n, p, 4);
            let d = le_at(s, p, 4);
            if n >= next {
                lemma_le_at_take(s, n, p + 4 + 8 * d, 4);
                lemma_le_at_take(s, n, p + 8 + 8 * d, 8);
                let cut = parse_tensor(s.take(n), at)->Ok_0.0;
                assert(cut.dimensions =~= t.dimensions) by {
                    assert forall|i: int| 0 <= i < d implies #[trigger] cut.dimensions[i]
                        == t.dimensions[i] by {
                        lemma_le_at_take(s, n, p + 4 + 8 * i, 8);
                    }
                }
            }
        }
    }
}

/// A tensor table cut short is `Unexpected`; bytes behind it do not
/// matter.
pub proof fn lemma_tensors_cut(s: Seq<u8>, at: int, k: nat, n: int)
    requires
        0 <= n <= s.len(),
    ensures
        cut_off(parse_tensors(s, at, k), parse_tensors(s.take(n), at, k), n),
        parse_tensors(s, at, k) matches Ok((_, next)) ==> at <= next <= s.len(),
    decreases k,
{
    if let Ok((_, next)) = parse_tensors(s, at, k) {
        if k > 0 {
            lemma_tensors_cut(s, at, (k - 1) as nat, n);
            let p = parse_tensors(s, at, (k - 1) as nat)->Ok_0.1;
            lemma_tensor_cut(s, p, n);
        }
    }
}

} // verus!
