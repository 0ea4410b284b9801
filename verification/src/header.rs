use crate::error::{GGUFError, GGUFReaderErrorKind};
use crate::keys::{resolve_key, substitute, KEY_GENERAL_ALIGNMENT, KEY_GENERAL_ARCHITECTURE};
use crate::value::{GGUFValue, GGUFValueView};
use crate::wire::{has_key, GGUFHeaderView, TensorView, GGUF_DEFAULT_ALIGNMENT};
use vstd::prelude::*;

verus! {

/// The first of `entries` from `from` on that has the key `key`, as its
/// position; `None` where there is none.
pub open spec fn find_key(entries: Seq<(Seq<char>, GGUFValueView)>, key: Seq<char>, from: int)
    -> Option<int>
    decreases entries.len() - from,
{
    if from < 0 || from >= entries.len() {
        None
    } else if entries[from].0 == key {
        Some(from)
    } else {
        find_key(entries, key, from + 1)
    }
}

/// The value that `entries` hold under `key`; `None` where they hold none.
pub open spec fn lookup(entries: Seq<(Seq<char>, GGUFValueView)>, key: Seq<char>) -> Option<
    GGUFValueView,
> {
    match find_key(entries, key, 0) {
        Some(i) => Some(entries[i].1),
        None => None,
    }
}

/// No two of `entries` have the same key.
pub open spec fn distinct_keys(entries: Seq<(Seq<char>, GGUFValueView)>) -> bool {
    forall|i: int, j: int|
        0 <= i < j < entries.len() ==> (#[trigger] entries[i]).0 != (#[trigger] entries[j]).0
}

/// Every value of `entries` is well formed.
pub open spec fn values_wf(entries: Seq<(Seq<char>, GGUFValueView)>) -> bool {
    forall|i: int| 0 <= i < entries.len() ==> (#[trigger] entries[i]).1.wf()
}

/// What `find_key` finds is the first entry with the key, and it finds one
/// wherever there is one.
pub proof fn lemma_find_key(entries: Seq<(Seq<char>, GGUFValueView)>, key: Seq<char>, from: int)
    requires
        0 <= from <= entries.len(),
    ensures
        find_key(entries, key, from) matches Some(i) ==> from <= i < entries.len() && entries[i].0
            == key && forall|j: int| from <= j < i ==> (#[trigger] entries[j]).0 != key,
        find_key(entries, key, from) is None ==> forall|j: int|
            from <= j < entries.len() ==> (#[trigger] entries[j]).0 != key,
    decreases entries.len() - from,
{
    if from < entries.len() && entries[from].0 != key {
        lemma_find_key(entries, key, from + 1);
    }
}

/// A key has a value exactly where an entry has the key, and where the keys
/// are distinct every entry is found under its key.
pub proof fn lemma_lookup(entries: Seq<(Seq<char>, GGUFValueView)>, key: Seq<char>)
    ensures
        lookup(entries, key) is Some <==> has_key(entries, key),
        distinct_keys(entries) ==> forall|i: int|
            0 <= i < entries.len() && (#[trigger] entries[i]).0 == key ==> lookup(entries, key)
                == Some(entries[i].1),
{
    lemma_find_key(entries, key, 0);
    if has_key(entries, key) {
        let i = choose|i: int| 0 <= i < entries.len() && (#[trigger] entries[i]).0 == key;
        assert(entries[i].0 == key);
    }
}

/// The message of the error that says that metadata name no architecture.
/// No error of decoding has this message.
pub const MSG_NO_ARCHITECTURE: &'static str = "key not found: general.architecture";

/// The architecture that `entries` name: the text under
/// `general.architecture`, and `None` where there is no such entry or it
/// holds no text.
pub open spec fn architecture_of(entries: Seq<(Seq<char>, GGUFValueView)>) -> Option<Seq<char>> {
    match lookup(entries, KEY_GENERAL_ARCHITECTURE@) {
        Some(GGUFValueView::String(a)) => Some(a),
        _ => None,
    }
}

/// What `entries` hold under the key that `template` stands for. Metadata
/// that name no architecture are a `DataError`; a key that is merely
/// absent gives `Ok(None)`.
pub open spec fn resolve(entries: Seq<(Seq<char>, GGUFValueView)>, template: Seq<char>) -> Result<
    Option<GGUFValueView>,
    GGUFReaderErrorKind,
> {
    match architecture_of(entries) {
        None => Err(GGUFReaderErrorKind::DataError),
        Some(a) => Ok(lookup(entries, substitute(template, a))),
    }
}

/// The alignment of the data section that `entries` ask for: the default
/// where they have no `general.alignment`, and a `DataError` where that
/// entry is no 32-bit unsigned number or is zero.
pub open spec fn alignment_of(entries: Seq<(Seq<char>, GGUFValueView)>) -> Result<
    u32,
    GGUFReaderErrorKind,
> {
    match lookup(entries, KEY_GENERAL_ALIGNMENT@) {
        None => Ok(GGUF_DEFAULT_ALIGNMENT),
        Some(GGUFValueView::U32(a)) => if a > 0 {
            Ok(a)
        } else {
            Err(GGUFReaderErrorKind::DataError)
        },
        Some(_) => Err(GGUFReaderErrorKind::DataError),
    }
}

/// The head of a container: magic, version, the number of tensors, and the
/// metadata, in which no key occurs twice.
#[derive(Debug, PartialEq, Eq)]
pub struct GGUFHeader {
    magic: u32,
    version: u32,
    tensor_count: u64,
    metadata_kv: Vec<(String, GGUFValue)>,
}

impl DeepView for GGUFHeader {
    type V = GGUFHeaderView;

    closed spec fn deep_view(&self) -> GGUFHeaderView {
        GGUFHeaderView {
            magic: self.magic,
            version: self.version,
            tensor_count: self.tensor_count,
            metadata: self.metadata_kv.deep_view(),
        }
    }
}

impl View for GGUFHeader {
    type V = GGUFHeaderView;

    open spec fn view(&self) -> GGUFHeaderView {
        self.deep_view()
    }
}

impl GGUFHeader {
    /// A header is well formed where no key occurs twice in its metadata
    /// and every value is well formed.
    pub open spec fn wf(&self) -> bool {
        distinct_keys(self@.metadata) && values_wf(self@.metadata)
    }

    /// A header of the given parts. The keys must be distinct and the
    /// values well formed.
    pub fn new(
        magic: u32,
        version: u32,
        tensor_count: u64,
        metadata_kv: Vec<(String, GGUFValue)>,
    ) -> (h: GGUFHeader)
        requires
            distinct_keys(metadata_kv.deep_view()),
            values_wf(metadata_kv.deep_view()),
        ensures
            h.wf(),
            h@ == (GGUFHeaderView {
                magic,
                version,
                tensor_count,
                metadata: metadata_kv.deep_view(),
            }),
    {
        GGUFHeader { magic, version, tensor_count, metadata_kv }
    }

    pub fn magic(&self) -> (m: u32)
        ensures
            m == self@.magic,
    {
        self.magic
    }

    pub fn version(&self) -> (v: u32)
        ensures
            v == self@.version,
    {
        self.version
    }

    pub fn tensor_count(&self) -> (n: u64)
        ensures
            n == self@.tensor_count,
    {
        self.tensor_count
    }

    /// The number of metadata entries.
    pub fn metadata_len(&self) -> (n: usize)
        ensures
            n == self@.metadata.len(),
    {
        self.metadata_kv.len()
    }

    /// The `i`-th metadata entry, in the order of the container; `None`
    /// where there are not that many.
    pub fn entry(&self, i: usize) -> (e: Option<(&String, &GGUFValue)>)
        ensures
            e is Some <==> i < self@.metadata.len(),
            e matches Some(kv) ==> (kv.0@, kv.1@) == self@.metadata[i as int],
    {
        if i < self.metadata_kv.len() {
            Some((&self.metadata_kv[i].0, &self.metadata_kv[i].1))
        } else {
            None
        }
    }

    /// The value under `key`, or `None` where the metadata hold none.
    pub fn get(&self, key: &str) -> (r: Option<&GGUFValue>)
        ensures
            r.deep_view() == lookup(self@.metadata, key@),
    {
        let wanted: String = key.to_owned();
        let mut i: usize = 0;
        while i < self.metadata_kv.len()
            invariant
                i <= self.metadata_kv@.len(),
                wanted@ == key@,
                find_key(self@.metadata, key@, 0) == find_key(self@.metadata, key@, i as int),
            decreases self.metadata_kv@.len() - i,
        {
            assert(self@.metadata[i as int].0 == self.metadata_kv@[i as int].0@);
            if self.metadata_kv[i].0 == wanted {
                assert(self@.metadata[i as int].1 == self.metadata_kv@[i as int].1@);
                return Some(&self.metadata_kv[i].1);
            }
            i += 1;
        }
        None
    }

    /// The architecture that the metadata name. Metadata without a text
    /// under `general.architecture` are a `DataError` with the message
    /// `MSG_NO_ARCHITECTURE`.
    pub fn architecture(&self) -> (r: Result<&str, GGUFError>)
        ensures
            match architecture_of(self@.metadata) {
                Some(a) => r matches Ok(t) && t@ == a,
                None => r matches Err(e) && e.spec_kind() == GGUFReaderErrorKind::DataError
                    && e.spec_msg() == MSG_NO_ARCHITECTURE@,
            },
    {
        match self.get(KEY_GENERAL_ARCHITECTURE) {
            Some(GGUFValue::String(a)) => Ok(a.as_str()),
            _ => Err(GGUFError::data_error(MSG_NO_ARCHITECTURE)),
        }
    }

    /// The value under the key that `template` stands for, with the
    /// architecture of the metadata in place of `{arch}`. `Ok(None)` says
    /// that the key is absent; metadata that name no architecture are a
    /// `DataError` with the message `MSG_NO_ARCHITECTURE`.
    pub fn get_resolved(&self, template: &str) -> (r: Result<Option<&GGUFValue>, GGUFError>)
        ensures
            match resolve(self@.metadata, template@) {
                Ok(v) => r matches Ok(x) && x.deep_view() == v,
                Err(k) => r matches Err(e) && e.spec_kind() == k && e.spec_msg()
                    == MSG_NO_ARCHITECTURE@,
            },
    {
        match self.architecture() {
            Err(e) => Err(e),
            Ok(arch) => {
                let key: String = resolve_key(template, arch);
                Ok(self.get(key.as_str()))
            },
        }
    }

    /// The alignment of the data section: what stands under
    /// `general.alignment`, and 32 where nothing does.
    pub fn alignment(&self) -> (r: Result<u32, GGUFError>)
        ensures
            match alignment_of(self@.metadata) {
                Ok(a) => r == Ok::<u32, GGUFError>(a),
                Err(k) => r matches Err(e) && e.spec_kind() == k,
            },
    {
        match self.get(KEY_GENERAL_ALIGNMENT) {
            None => Ok(GGUF_DEFAULT_ALIGNMENT),
            Some(GGUFValue::U32(a)) => {
                if *a > 0 {
                    Ok(*a)
                } else {
                    Err(GGUFError::data_error("the alignment is zero"))
                }
            },
            Some(_) => Err(GGUFError::data_error("the alignment is no 32-bit unsigned number")),
        }
    }
}

/// Where a tensor lies and what shape it has. `kind` is the tag of its
/// element type as the container gives it, and `offset` counts from the
/// start of the data section.
#[derive(Debug, PartialEq, Eq)]
pub struct TensorDescriptor {
    pub name: String,
    pub dimensions: Vec<u64>,
    pub kind: u32,
    pub offset: u64,
}

impl DeepView for TensorDescriptor {
    type V = TensorView;

    open spec fn deep_view(&self) -> TensorView {
        TensorView {
            name: self.name@,
            dimensions: self.dimensions@,
            kind: self.kind,
            offset: self.offset,
        }
    }
}

impl View for TensorDescriptor {
    type V = TensorView;

    open spec fn view(&self) -> TensorView {
        self.deep_view()
    }
}

/// The offsets of `tensors` do not go down from one tensor to the next.
pub open spec fn offsets_ordered(tensors: Seq<TensorView>) -> bool {
    forall|i: int|
        0 <= i < tensors.len() - 1 ==> (#[trigger] tensors[i]).offset <= tensors[i + 1].offset
}

/// No two of `tensors` have the same name.
pub open spec fn names_distinct(tensors: Seq<TensorView>) -> bool {
    forall|i: int, j: int|
        0 <= i < j < tensors.len() ==> (#[trigger] tensors[i]).name != (#[trigger] tensors[j]).name
}

/// Where the offsets do not go down from one tensor to the next, they do
/// not go down from a tensor to any later one.
pub proof fn lemma_offsets_ordered(tensors: Seq<TensorView>, i: int, j: int)
    requires
        offsets_ordered(tensors),
        0 <= i <= j < tensors.len(),
    ensures
        tensors[i].offset <= tensors[j].offset,
    decreases j - i,
{
    if i < j {
        lemma_offsets_ordered(tensors, i, j - 1);
        assert(tensors[j - 1].offset <= tensors[(j - 1) + 1].offset);
    }
}

/// Whether a tensor table is as a container must have it: the names
/// distinct and the offsets in the order of the table.
pub fn tensor_table_is_valid(tensors: &Vec<TensorDescriptor>) -> (b: bool)
    ensures
        b == (offsets_ordered(tensors.deep_view()) && names_distinct(tensors.deep_view())),
{
    let ghost ts = tensors.deep_view();
    let mut j: usize = 0;
    while j < tensors.len()
        invariant
            j <= tensors@.len(),
            ts == tensors.deep_view(),
            forall|i: int| 0 <= i < j - 1 ==> (#[trigger] ts[i]).offset <= ts[i + 1].offset,
            forall|a: int, b: int|
                0 <= a < b < j ==> (#[trigger] ts[a]).name != (#[trigger] ts[b]).name,
        decreases tensors@.len() - j,
    {
        assert(ts[j as int] == tensors@[j as int].deep_view());
        if j > 0 {
            assert(ts[j - 1] == tensors@[j - 1].deep_view());
            if tensors[j - 1].offset > tensors[j].offset {
                assert(!(ts[j - 1].offset <= ts[(j - 1) + 1].offset));
                return false;
            }
        }
        let mut i: usize = 0;
        while i < j
            invariant
                i <= j < tensors@.len(),
                ts == tensors.deep_view(),
                forall|a: int| 0 <= a < i ==> (#[trigger] ts[a]).name != ts[j as int].name,
            decreases j - i,
        {
            assert(ts[i as int] == tensors@[i as int].deep_view());
            assert(ts[j as int] == tensors@[j as int].deep_view());
            if tensors[i].name == tensors[j].name {
                return false;
            }
            i += 1;
        }
        j += 1;
    }
    true
}

impl TensorDescriptor {
    /// The number of dimensions.
    pub fn n_dims(&self) -> (n: usize)
        ensures
            n == self@.dimensions.len(),
    {
        self.dimensions.len()
    }
}

} // verus!
