//! The recovery structure of the codec: one `ChunkInfo` record per chunk of
//! a level, plus an optional child marker when the level describes a
//! serialized data map of a lower level rather than the original stream.
use vstd::prelude::*;

verus! {

/// Why encryption or reconstruction refused.
#[derive(Debug)]
pub enum Error {
    /// The input was shorter than `MIN_ENCRYPTABLE_BYTES`.
    InputTooSmall,
    /// The store could not supply the ciphertext stored under this address.
    ChunkFetchError(Vec<u8>),
    /// The chunk fetched under this address decrypted to bytes whose content
    /// hash differs from the recorded raw hash: corrupt or wrong ciphertext.
    IntegrityMismatch(Vec<u8>),
    /// Bytes that should hold a serialized data map could not be decoded.
    SerializationError,
}

/// The mathematical shadow of `Error`.
pub ghost enum ErrorModel {
    InputTooSmall,
    ChunkFetchError(Seq<u8>),
    IntegrityMismatch(Seq<u8>),
    SerializationError,
}

impl View for Error {
    type V = ErrorModel;

    open spec fn view(&self) -> ErrorModel {
        match self {
            Error::InputTooSmall => ErrorModel::InputTooSmall,
            Error::ChunkFetchError(a) => ErrorModel::ChunkFetchError(a@),
            Error::IntegrityMismatch(a) => ErrorModel::IntegrityMismatch(a@),
            Error::SerializationError => ErrorModel::SerializationError,
        }
    }
}

/// Per-chunk record of a data map: position, hash of the raw bytes, content
/// address of the ciphertext, and ciphertext length.
pub struct ChunkInfo {
    pub index: usize,
    pub src_hash: Vec<u8>,
    pub dst_hash: Vec<u8>,
    pub size: usize,
}

/// The mathematical shadow of `ChunkInfo`.
pub ghost struct ChunkInfoModel {
    pub index: usize,
    pub src_hash: Seq<u8>,
    pub dst_hash: Seq<u8>,
    pub size: usize,
}

impl View for ChunkInfo {
    type V = ChunkInfoModel;

    open spec fn view(&self) -> ChunkInfoModel {
        ChunkInfoModel {
            index: self.index,
            src_hash: self.src_hash@,
            dst_hash: self.dst_hash@,
            size: self.size,
        }
    }
}

/// Both hashes of a record are 32-byte content hashes.
pub open spec fn info_wf(ci: ChunkInfoModel) -> bool {
    ci.src_hash.len() == 32 && ci.dst_hash.len() == 32
}

/// The mathematical shadow of `DataMap`.
pub ghost struct DataMapModel {
    pub infos: Seq<ChunkInfoModel>,
    pub child: Option<nat>,
}

/// A well-formed map: well-formed records whose stored index is their
/// position, and a child level small enough to have come from a machine word.
pub open spec fn map_wf(dm: DataMapModel) -> bool {
    &&& forall|i: int|
        0 <= i < dm.infos.len() ==> info_wf(#[trigger] dm.infos[i]) && dm.infos[i].index == i
    &&& match dm.child {
        Option::Some(l) => l <= usize::MAX as nat,
        Option::None => true,
    }
}

/// How many resolution steps a map can still require: zero for a base map,
/// one more than the recorded level for a child marker.
pub open spec fn child_depth(child: Option<nat>) -> nat {
    match child {
        Option::None => 0,
        Option::Some(l) => l + 1,
    }
}

/// An ordered sequence of chunk records, with an optional child marker.
/// A map without a marker describes the original stream; one with a marker
/// describes the serialized data map one level below it.
pub struct DataMap {
    infos: Vec<ChunkInfo>,
    child: Option<usize>,
}

/// The view of an optional machine-word level as an optional `nat`.
pub open spec fn child_view(c: Option<usize>) -> Option<nat> {
    match c {
        Option::None => Option::None,
        Option::Some(l) => Option::Some(l as nat),
    }
}

impl View for DataMap {
    type V = DataMapModel;

    closed spec fn view(&self) -> DataMapModel {
        DataMapModel { infos: self.infos@.map_values(|ci: ChunkInfo| ci@), child: child_view(self.child) }
    }
}

impl DataMap {
    /// A base map over the given records.
    pub fn new(infos: Vec<ChunkInfo>) -> (r: DataMap)
        ensures
            r@.infos == infos@.map_values(|ci: ChunkInfo| ci@),
            r@.child == Option::<nat>::None,
    {
        DataMap { infos, child: Option::None }
    }

    /// A map over the given records that describes the serialized data map
    /// of level `level` below it.
    pub fn new_with_child(infos: Vec<ChunkInfo>, level: usize) -> (r: DataMap)
        ensures
            r@.infos == infos@.map_values(|ci: ChunkInfo| ci@),
            r@.child == Option::Some(level as nat),
    {
        DataMap { infos, child: Option::Some(level) }
    }

    /// The chunk records, in index order.
    pub fn infos(&self) -> (r: &Vec<ChunkInfo>)
        ensures
            r@.map_values(|ci: ChunkInfo| ci@) == self@.infos,
    {
        &self.infos
    }

    /// The child marker, if this map describes a lower serialized map.
    pub fn child(&self) -> (r: Option<usize>)
        ensures
            child_view(r) == self@.child,
    {
        self.child
    }

    /// Whether this map carries a child marker.
    pub fn is_child(&self) -> (r: bool)
        ensures
            r == self@.child.is_some(),
    {
        self.child.is_some()
    }

    /// Takes the map apart into its records and its child marker.
    pub fn into_parts(self) -> (r: (Vec<ChunkInfo>, Option<usize>))
        ensures
            r.0@.map_values(|ci: ChunkInfo| ci@) == self@.infos,
            child_view(r.1) == self@.child,
    {
        (self.infos, self.child)
    }

    /// The number of chunk records.
    pub fn len(&self) -> (r: usize)
        ensures
            r as int == self@.infos.len(),
    {
        self.infos.len()
    }
}

} // verus!
