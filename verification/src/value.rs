use crate::kinds::GGUFValueType;
use vstd::prelude::*;

verus! {

/// A metadata value. The two floating-point kinds hold the bit pattern of
/// the number, a boolean holds its byte, and an array holds the type of its
/// elements beside them.
#[derive(Debug, PartialEq, Eq)]
pub enum GGUFValue {
    U8(u8),
    I8(i8),
    U16(u16),
    I16(i16),
    U32(u32),
    I32(i32),
    U64(u64),
    I64(i64),
    F32(u32),
    F64(u64),
    Bool(u8),
    String(String),
    Array(GGUFValueType, Vec<GGUFValue>),
}

/// What a metadata value is: the same tagged union over sequences.
pub enum GGUFValueView {
    U8(u8),
    I8(i8),
    U16(u16),
    I16(i16),
    U32(u32),
    I32(i32),
    U64(u64),
    I64(i64),
    F32(u32),
    F64(u64),
    Bool(u8),
    String(Seq<char>),
    Array(GGUFValueType, Seq<GGUFValueView>),
}

impl GGUFValueView {
    /// The type whose tag stands in front of this value in a container.
    pub open spec fn value_type(self) -> GGUFValueType {
        match self {
            GGUFValueView::U8(_) => GGUFValueType::U8,
            GGUFValueView::I8(_) => GGUFValueType::I8,
            GGUFValueView::U16(_) => GGUFValueType::U16,
            GGUFValueView::I16(_) => GGUFValueType::I16,
            GGUFValueView::U32(_) => GGUFValueType::U32,
            GGUFValueView::I32(_) => GGUFValueType::I32,
            GGUFValueView::U64(_) => GGUFValueType::U64,
            GGUFValueView::I64(_) => GGUFValueType::I64,
            GGUFValueView::F32(_) => GGUFValueType::F32,
            GGUFValueView::F64(_) => GGUFValueType::F64,
            GGUFValueView::Bool(_) => GGUFValueType::Bool,
            GGUFValueView::String(_) => GGUFValueType::String,
            GGUFValueView::Array(_, _) => GGUFValueType::Array,
        }
    }

    /// A value is well formed where a boolean holds 0 or 1 and every
    /// element of an array is well formed and of the array's element type.
    pub open spec fn wf(self) -> bool
        decreases self,
    {
        match self {
            GGUFValueView::Bool(b) => b <= 1,
            GGUFValueView::Array(elem, items) => forall|i: int|
                0 <= i < items.len() ==> (#[trigger] items[i]).value_type() == elem
                    && items[i].wf(),
            _ => true,
        }
    }
}

/// What a value is, as a view.
pub open spec fn value_view(v: GGUFValue) -> GGUFValueView
    decreases v,
{
    match v {
        GGUFValue::U8(x) => GGUFValueView::U8(x),
        GGUFValue::I8(x) => GGUFValueView::I8(x),
        GGUFValue::U16(x) => GGUFValueView::U16(x),
        GGUFValue::I16(x) => GGUFValueView::I16(x),
        GGUFValue::U32(x) => GGUFValueView::U32(x),
        GGUFValue::I32(x) => GGUFValueView::I32(x),
        GGUFValue::U64(x) => GGUFValueView::U64(x),
        GGUFValue::I64(x) => GGUFValueView::I64(x),
        GGUFValue::F32(x) => GGUFValueView::F32(x),
        GGUFValue::F64(x) => GGUFValueView::F64(x),
        GGUFValue::Bool(x) => GGUFValueView::Bool(x),
        GGUFValue::String(s) => GGUFValueView::String(s@),
        GGUFValue::Array(elem, items) => GGUFValueView::Array(
            elem,
            Seq::new(
                items@.len(),
                |i: int|
                    if 0 <= i < items@.len() {
                        value_view(items@[i])
                    } else {
                        GGUFValueView::U8(0)
                    },
            ),
        ),
    }
}

impl DeepView for GGUFValue {
    type V = GGUFValueView;

    open spec fn deep_view(&self) -> GGUFValueView {
        value_view(*self)
    }
}

impl View for GGUFValue {
    type V = GGUFValueView;

    open spec fn view(&self) -> GGUFValueView {
        value_view(*self)
    }
}

/// An array is, as a value, its element type with what its elements are.
pub proof fn lemma_array_view(elem: GGUFValueType, items: Vec<GGUFValue>)
    ensures
        GGUFValue::Array(elem, items)@ == GGUFValueView::Array(elem, items.deep_view()),
{
    let v = GGUFValue::Array(elem, items);
    match value_view(v) {
        GGUFValueView::Array(e, s) => {
            assert(s.len() == items@.len());
            assert forall|i: int| 0 <= i < s.len() implies s[i] == items.deep_view()[i] by {
                assert(s[i] == value_view(items@[i]));
            }
            assert(s =~= items.deep_view());
        },
        _ => {
            assert(false);
        },
    }
}

impl Clone for GGUFValue {
    fn clone(&self) -> (r: GGUFValue)
        ensures
            r@ == self@,
        decreases self,
    {
        match self {
            GGUFValue::U8(x) => GGUFValue::U8(*x),
            GGUFValue::I8(x) => GGUFValue::I8(*x),
            GGUFValue::U16(x) => GGUFValue::U16(*x),
            GGUFValue::I16(x) => GGUFValue::I16(*x),
            GGUFValue::U32(x) => GGUFValue::U32(*x),
            GGUFValue::I32(x) => GGUFValue::I32(*x),
            GGUFValue::U64(x) => GGUFValue::U64(*x),
            GGUFValue::I64(x) => GGUFValue::I64(*x),
            GGUFValue::F32(x) => GGUFValue::F32(*x),
            GGUFValue::F64(x) => GGUFValue::F64(*x),
            GGUFValue::Bool(x) => GGUFValue::Bool(*x),
            GGUFValue::String(s) => GGUFValue::String(s.clone()),
            GGUFValue::Array(elem, items) => {
                let mut copy: Vec<GGUFValue> = Vec::new();
                let mut i: usize = 0;
                assert(copy.deep_view() =~= items.deep_view().take(0));
                while i < items.len()
                    invariant
                        i <= items@.len(),
                        *self == GGUFValue::Array(*elem, *items),
                        copy.deep_view() == items.deep_view().take(i as int),
                    decreases items@.len() - i,
                {
                    let ghost before = copy.deep_view();
                    proof {
                        vstd::std_specs::vec::axiom_vec_index_decreases(*items, i as int);
                        assert(decreases_to!(*self => self->Array_1));
                    }
                    let item = items[i].clone();
                    copy.push(item);
                    assert(copy.deep_view() =~= before.push(items@[i as int].deep_view()));
                    i += 1;
                    assert(copy.deep_view() =~= items.deep_view().take(i as int));
                }
                assert(items.deep_view().take(i as int) =~= items.deep_view());
                proof {
                    lemma_array_view(*elem, copy);
                    lemma_array_view(*elem, *items);
                }
                GGUFValue::Array(*elem, copy)
            },
        }
    }
}

impl GGUFValue {
    /// The type whose tag stands in front of this value in a container.
    pub fn value_type(&self) -> (t: GGUFValueType)
        ensures
            t == self@.value_type(),
    {
        match self {
            GGUFValue::U8(_) => GGUFValueType::U8,
            GGUFValue::I8(_) => GGUFValueType::I8,
            GGUFValue::U16(_) => GGUFValueType::U16,
            GGUFValue::I16(_) => GGUFValueType::I16,
            GGUFValue::U32(_) => GGUFValueType::U32,
            GGUFValue::I32(_) => GGUFValueType::I32,
            GGUFValue::U64(_) => GGUFValueType::U64,
            GGUFValue::I64(_) => GGUFValueType::I64,
            GGUFValue::F32(_) => GGUFValueType::F32,
            GGUFValue::F64(_) => GGUFValueType::F64,
            GGUFValue::Bool(_) => GGUFValueType::Bool,
            GGUFValue::String(_) => GGUFValueType::String,
            GGUFValue::Array(_, _) => GGUFValueType::Array,
        }
    }
}

} // verus!
