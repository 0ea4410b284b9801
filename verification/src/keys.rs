use vstd::prelude::*;
use vstd::string::*;

verus! {

// General
pub const KEY_GENERAL_ARCHITECTURE: &'static str = "general.architecture";

pub const KEY_GENERAL_QUANTIZATION_VERSION: &'static str = "general.quantization_version";

pub const KEY_GENERAL_ALIGNMENT: &'static str = "general.alignment";

pub const KEY_GENERAL_NAME: &'static str = "general.name";

pub const KEY_GENERAL_AUTHOR: &'static str = "general.author";

pub const KEY_GENERAL_URL: &'static str = "general.url";

pub const KEY_GENERAL_DESCRIPTION: &'static str = "general.description";

pub const KEY_GENERAL_LICENSE: &'static str = "general.license";

pub const KEY_GENERAL_SOURCE_URL: &'static str = "general.source.url";

pub const KEY_GENERAL_SOURCE_HF_REPO: &'static str = "general.source.hugginface.repository";

pub const KEY_GENERAL_FILE_TYPE: &'static str = "general.file_type";

// LLM
pub const KEY_CONTEXT_LENGTH: &'static str = "{arch}.context_length";

pub const KEY_EMBEDDING_LENGTH: &'static str = "{arch}.embedding_length";

pub const KEY_BLOCK_COUNT: &'static str = "{arch}.block_count";

pub const KEY_FEED_FORWARD_LENGTH: &'static str = "{arch}.feed_forward_length";

pub const KEY_USE_PARALLEL_RESIDUAL: &'static str = "{arch}.use_parallel_residual";

pub const KEY_TENSOR_DATA_LAYOUT: &'static str = "{arch}.tensor_data_layout";

// Attention
pub const KEY_ATTENTION_HEAD_COUNT: &'static str = "{arch}.attention.head_count";

pub const KEY_ATTENTION_HEAD_COUNT_KV: &'static str = "{arch}.attention.head_count_kv";

pub const KEY_ATTENTION_MAX_ALIBI_BIAS: &'static str = "{arch}.attention.max_alibi_bias";

pub const KEY_ATTENTION_CLAMP_KQV: &'static str = "{arch}.attention.clamp_kqv";

pub const KEY_ATTENTION_LAYERNORM_EPS: &'static str = "{arch}.attention.layer_norm_epsilon";

pub const KEY_ATTENTION_LAYERNORM_RMS_EPS: &'static str = "{arch}.attention.layer_norm_rms_epsilon";

// RoPE
pub const KEY_ROPE_DIMENSION_COUNT: &'static str = "{arch}.rope.dimension_count";

pub const KEY_ROPE_FREQ_BASE: &'static str = "{arch}.rope.freq_base";

pub const KEY_ROPE_SCALE_LINEAR: &'static str = "{arch}.rope.scale_linear";

// Tokenization
pub const KEY_TOKENIZER_MODEL: &'static str = "tokenizer.ggml.model";

pub const KEY_TOKENIZER_LIST: &'static str = "tokenizer.ggml.tokens";

pub const KEY_TOKENIZER_TOKEN_TYPE: &'static str = "tokenizer.ggml.token_type";

pub const KEY_TOKENIZER_SCORES: &'static str = "tokenizer.ggml.scores";

pub const KEY_TOKENIZER_MERGES: &'static str = "tokenizer.ggml.merges";

pub const KEY_TOKENIZER_BOS_ID: &'static str = "tokenizer.ggml.bos_token_id";

pub const KEY_TOKENIZER_EOS_ID: &'static str = "tokenizer.ggml.eos_token_id";

pub const KEY_TOKENIZER_UNK_ID: &'static str = "tokenizer.ggml.unknown_token_id";

pub const KEY_TOKENIZER_SEP_ID: &'static str = "tokenizer.ggml.seperator_token_id";

pub const KEY_TOKENIZER_PAD_ID: &'static str = "tokenizer.ggml.padding_token_id";

pub const KEY_TOKENIZER_HF_JSON: &'static str = "tokenizer.huggingface.json";

pub const KEY_TOKENIZER_RWKV: &'static str = "tokenizer.rwkv.world";

/// Whether the placeholder `{arch}` stands in `t` at position `i`.
pub open spec fn placeholder_at(t: Seq<char>, i: int) -> bool {
    &&& 0 <= i
    &&& i + 6 <= t.len()
    &&& t[i] == '{'
    &&& t[i + 1] == 'a'
    &&& t[i + 2] == 'r'
    &&& t[i + 3] == 'c'
    &&& t[i + 4] == 'h'
    &&& t[i + 5] == '}'
}

/// The rest of `t` from `i` on, with `arch` in place of each placeholder.
pub open spec fn substitute_from(t: Seq<char>, arch: Seq<char>, i: int) -> Seq<char>
    decreases t.len() - i,
{
    if i < 0 || i >= t.len() {
        Seq::empty()
    } else if placeholder_at(t, i) {
        arch + substitute_from(t, arch, i + 6)
    } else {
        seq![t[i]] + substitute_from(t, arch, i + 1)
    }
}

/// The key that the template `t` stands for in a model of architecture
/// `arch`: `t` with `arch` in place of each placeholder `{arch}`, taken
/// from left to right.
pub open spec fn substitute(t: Seq<char>, arch: Seq<char>) -> Seq<char> {
    substitute_from(t, arch, 0)
}

/// A template without a placeholder stands for itself.
pub proof fn lemma_substitute_plain(t: Seq<char>, arch: Seq<char>, i: int)
    requires
        0 <= i <= t.len(),
        forall|j: int| i <= j < t.len() ==> !placeholder_at(t, j),
    ensures
        substitute_from(t, arch, i) == t.skip(i),
    decreases t.len() - i,
{
    if i < t.len() {
        lemma_substitute_plain(t, arch, i + 1);
        assert(seq![t[i]] + t.skip(i + 1) =~= t.skip(i));
    } else {
        assert(t.skip(i) =~= Seq::empty());
    }
}

/// A template that begins with the placeholder and has no other stands for
/// the architecture followed by the rest of the template.
pub proof fn lemma_substitute_prefix(t: Seq<char>, arch: Seq<char>)
    requires
        placeholder_at(t, 0),
        forall|j: int| 6 <= j < t.len() ==> !placeholder_at(t, j),
    ensures
        substitute(t, arch) == arch + t.skip(6),
{
    lemma_substitute_plain(t, arch, 6);
}

/// Whether the placeholder stands in `template` at position `i`.
fn is_placeholder_at(template: &str, n: usize, i: usize) -> (b: bool)
    requires
        n == template@.len(),
        i < n,
    ensures
        b == placeholder_at(template@, i as int),
{
    if n - i < 6 {
        return false;
    }
    template.get_char(i) == '{' && template.get_char(i + 1) == 'a' && template.get_char(i + 2)
        == 'r' && template.get_char(i + 3) == 'c' && template.get_char(i + 4) == 'h'
        && template.get_char(i + 5) == '}'
}

/// The key that `template` stands for in a model of architecture `arch`.
pub fn resolve_key(template: &str, arch: &str) -> (key: String)
    ensures
        key@ == substitute(template@, arch@),
{
    let n: usize = template.unicode_len();
    let mut out: String = String::new();
    let mut i: usize = 0;
    while i < n
        invariant
            i <= n,
            n == template@.len(),
            out@ + substitute_from(template@, arch@, i as int) == substitute(template@, arch@),
        decreases n - i,
    {
        let ghost before = out@;
        if is_placeholder_at(template, n, i) {
            out.append(arch);
            assert(out@ + substitute_from(template@, arch@, i + 6) =~= before + substitute_from(
                template@,
                arch@,
                i as int,
            ));
            i += 6;
        } else {
            out.append(template.substring_char(i, i + 1));
            assert(template@.subrange(i as int, i + 1) =~= seq![template@[i as int]]);
            assert(out@ + substitute_from(template@, arch@, i + 1) =~= before + substitute_from(
                template@,
                arch@,
                i as int,
            ));
            i += 1;
        }
    }
    assert(out@ + Seq::<char>::empty() =~= out@);
    out
}

} // verus!
