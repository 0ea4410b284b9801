use vstd::prelude::*;

verus! {

/// The model architectures that a container may name.
#[derive(Debug, Clone, Copy, PartialEq, Eq, Structural)]
pub enum ModelArch {
    Llama,
    Falcon,
    GPT2,
    GPTJ,
    GPTNEOX,
    MPT,
}

/// The roles that a tensor may play in a model.
#[allow(non_camel_case_types)]
#[derive(Debug, Clone, Copy, PartialEq, Eq, Structural)]
pub enum ModelTensor {
    TOKEN_EMBD,
    POS_EMBD,
    OUTPUT,
    OUTPUT_NORM,
    ROPE_FREQS,
    ATTN_Q,
    ATTN_K,
    ATTN_V,
    ATTN_QKV,
    ATTN_OUT,
    ATTN_NORM,
    ATTN_NORM_2,
    ATTN_ROT_EMBD,
    FFN_GATE,
    FFN_DOWN,
    FFN_UP,
    FFN_NORM,
}

/// The type of a metadata value, as its tag says.
#[derive(Debug, Clone, Copy, PartialEq, Eq, Hash, Structural)]
pub enum GGUFValueType {
    /// An 8-bit unsigned integer.
    U8,
    /// An 8-bit signed integer.
    I8,
    /// A 16-bit unsigned little-endian integer.
    U16,
    /// A 16-bit signed little-endian integer.
    I16,
    /// A 32-bit unsigned little-endian integer.
    U32,
    /// A 32-bit signed little-endian integer.
    I32,
    /// A 32-bit IEEE 754 number, kept as its bit pattern.
    F32,
    /// One byte, 0 for false and 1 for true.
    Bool,
    /// UTF-8 text without a terminator, its length in bytes in front.
    String,
    /// Values of one type, with that type and their number in front.
    Array,
    /// A 64-bit unsigned little-endian integer.
    U64,
    /// A 64-bit signed little-endian integer.
    I64,
    /// A 64-bit IEEE 754 number, kept as its bit pattern.
    F64,
}

impl GGUFValueType {
    /// The tag that stands for this type in a container.
    pub open spec fn spec_tag(self) -> u32 {
        match self {
            GGUFValueType::U8 => 0,
            GGUFValueType::I8 => 1,
            GGUFValueType::U16 => 2,
            GGUFValueType::I16 => 3,
            GGUFValueType::U32 => 4,
            GGUFValueType::I32 => 5,
            GGUFValueType::F32 => 6,
            GGUFValueType::Bool => 7,
            GGUFValueType::String => 8,
            GGUFValueType::Array => 9,
            GGUFValueType::U64 => 10,
            GGUFValueType::I64 => 11,
            GGUFValueType::F64 => 12,
        }
    }

    /// The type that a tag stands for; tags above 12 stand for none.
    pub open spec fn spec_from_tag(tag: u32) -> Option<GGUFValueType> {
        if tag == 0 {
            Some(GGUFValueType::U8)
        } else if tag == 1 {
            Some(GGUFValueType::I8)
        } else if tag == 2 {
            Some(GGUFValueType::U16)
        } else if tag == 3 {
            Some(GGUFValueType::I16)
        } else if tag == 4 {
            Some(GGUFValueType::U32)
        } else if tag == 5 {
            Some(GGUFValueType::I32)
        } else if tag == 6 {
            Some(GGUFValueType::F32)
        } else if tag == 7 {
            Some(GGUFValueType::Bool)
        } else if tag == 8 {
            Some(GGUFValueType::String)
        } else if tag == 9 {
            Some(GGUFValueType::Array)
        } else if tag == 10 {
            Some(GGUFValueType::U64)
        } else if tag == 11 {
            Some(GGUFValueType::I64)
        } else if tag == 12 {
            Some(GGUFValueType::F64)
        } else {
            None
        }
    }

    /// The number of bytes that a value of this type takes, where every
    /// value of the type takes the same number.
    pub open spec fn spec_width(self) -> Option<nat> {
        match self {
            GGUFValueType::U8 | GGUFValueType::I8 | GGUFValueType::Bool => Some(1),
            GGUFValueType::U16 | GGUFValueType::I16 => Some(2),
            GGUFValueType::U32 | GGUFValueType::I32 | GGUFValueType::F32 => Some(4),
            GGUFValueType::U64 | GGUFValueType::I64 | GGUFValueType::F64 => Some(8),
            GGUFValueType::String | GGUFValueType::Array => None,
        }
    }

    #[verifier::when_used_as_spec(spec_tag)]
    pub fn tag(self) -> (t: u32)
        ensures
            t == self.spec_tag(),
    {
        match self {
            GGUFValueType::U8 => 0,
            GGUFValueType::I8 => 1,
            GGUFValueType::U16 => 2,
            GGUFValueType::I16 => 3,
            GGUFValueType::U32 => 4,
            GGUFValueType::I32 => 5,
            GGUFValueType::F32 => 6,
            GGUFValueType::Bool => 7,
            GGUFValueType::String => 8,
            GGUFValueType::Array => 9,
            GGUFValueType::U64 => 10,
            GGUFValueType::I64 => 11,
            GGUFValueType::F64 => 12,
        }
    }

    pub fn from_tag(tag: u32) -> (t: Option<GGUFValueType>)
        ensures
            t == Self::spec_from_tag(tag),
    {
        match tag {
            0 => Some(GGUFValueType::U8),
            1 => Some(GGUFValueType::I8),
            2 => Some(GGUFValueType::U16),
            3 => Some(GGUFValueType::I16),
            4 => Some(GGUFValueType::U32),
            5 => Some(GGUFValueType::I32),
            6 => Some(GGUFValueType::F32),
            7 => Some(GGUFValueType::Bool),
            8 => Some(GGUFValueType::String),
            9 => Some(GGUFValueType::Array),
            10 => Some(GGUFValueType::U64),
            11 => Some(GGUFValueType::I64),
            12 => Some(GGUFValueType::F64),
            _ => None,
        }
    }

    /// The width in bytes of a value of this type, `None` for text and
    /// arrays, whose length depends on what they hold.
    pub fn width(self) -> (w: Option<usize>)
        ensures
            match self.spec_width() {
                Some(n) => w == Some(n as usize),
                None => w is None,
            },
    {
        match self {
            GGUFValueType::U8 | GGUFValueType::I8 | GGUFValueType::Bool => Some(1),
            GGUFValueType::U16 | GGUFValueType::I16 => Some(2),
            GGUFValueType::U32 | GGUFValueType::I32 | GGUFValueType::F32 => Some(4),
            GGUFValueType::U64 | GGUFValueType::I64 | GGUFValueType::F64 => Some(8),
            GGUFValueType::String | GGUFValueType::Array => None,
        }
    }
}

/// Every type comes back from its own tag, and a tag that stands for a type
/// is the tag of that type.
pub proof fn lemma_tag_round_trip(t: GGUFValueType, tag: u32)
    ensures
        GGUFValueType::spec_from_tag(t.spec_tag()) == Some(t),
        t.spec_tag() <= 12,
        GGUFValueType::spec_from_tag(tag) is Some <==> tag <= 12,
        GGUFValueType::spec_from_tag(tag) == Some(t) ==> t.spec_tag() == tag,
{
}

} // verus!
