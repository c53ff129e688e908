//! Constants and types.

use vstd::prelude::*;

verus! {

pub const INFO_LEN: usize = 4;

pub const OBJECT_MAX_SIZE: usize = 16777216;

pub const DOTDIR: &'static str = ".tub";

pub const DOTIGNORE: &'static str = ".tubignore";

pub const PACKFILE: &'static str = "bathtub.db";

pub const INDEX_FILE: &'static str = "append.idx";

pub const OBJECTDIR: &'static str = "objects";

pub const PARTIALDIR: &'static str = "partial";

pub const TMPDIR: &'static str = "tmp";

/// The REAMDE file.
pub const README: &'static str = "REAMDE.txt";

pub const BRANCHES: &'static str = "blockchain";

pub const README_CONTENTS: &'static str = "Hello from Bathtub DB!

What's even more relaxing than a Couch?  A Bathtub!
";

/// Size of one leaf of a large object.
pub const LEAF_SIZE: u64 = 8388608;

/// Length in bytes of a content hash.
pub const TUB_HASH_LEN: usize = 30;

/// Length in bytes of a random ID.
pub const TUB_ID_LEN: usize = 15;

/// Pack file entry header: root hash, u64 size, type byte, payload hash.
pub const HEADER_LEN: usize = 69;

/// `ROOT_HASH_RANGE` is `ROOT_HASH_START..SIZE_START`.
pub const ROOT_HASH_START: usize = 0;

/// `SIZE_RANGE` is `SIZE_START..TYPE_INDEX`.
pub const SIZE_START: usize = 30;

/// Index of the object type byte in the header.
pub const TYPE_INDEX: usize = 38;

/// `PAYLOAD_HASH_RANGE` is `PAYLOAD_HASH_START..HEADER_LEN`.
pub const PAYLOAD_HASH_START: usize = 39;

pub type TubHash = [u8; 30];

pub type TubId = [u8; 15];

#[derive(Debug, PartialEq, Eq, Structural, Clone, Copy)]
pub enum ObjKind {
    Invalid,
    Data,
    BigData,
    Key,
    Block,
    Stream,
    Tree,
    Commit,
    Fanout,
    Unknown,
}

/// Numeric code of an `ObjKind` (what `kind as u8` gives).
pub open spec fn obj_kind_code(k: ObjKind) -> u8 {
    match k {
        ObjKind::Invalid => 0,
        ObjKind::Data => 1,
        ObjKind::BigData => 2,
        ObjKind::Key => 3,
        ObjKind::Block => 4,
        ObjKind::Stream => 5,
        ObjKind::Tree => 6,
        ObjKind::Commit => 7,
        ObjKind::Fanout => 8,
        ObjKind::Unknown => 9,
    }
}

impl ObjKind {
    /// The numeric code of this kind.
    pub fn code(&self) -> (r: u8)
        ensures
            r == obj_kind_code(*self),
    {
        match self {
            ObjKind::Invalid => 0,
            ObjKind::Data => 1,
            ObjKind::BigData => 2,
            ObjKind::Key => 3,
            ObjKind::Block => 4,
            ObjKind::Stream => 5,
            ObjKind::Tree => 6,
            ObjKind::Commit => 7,
            ObjKind::Fanout => 8,
            ObjKind::Unknown => 9,
        }
    }
}

impl From<u8> for ObjKind {
    fn from(item: u8) -> (r: Self)
        ensures
            item < 9 ==> obj_kind_code(r) == item,
            item >= 9 ==> r == ObjKind::Unknown,
    {
        match item {
            0 => Self::Invalid,
            1 => Self::Data,
            2 => Self::BigData,
            3 => Self::Key,
            4 => Self::Block,
            5 => Self::Stream,
            6 => Self::Tree,
            7 => Self::Commit,
            8 => Self::Fanout,
            _ => Self::Unknown,
        }
    }
}

impl vstd::std_specs::convert::FromSpecImpl<u8> for ObjKind {
    open spec fn obeys_from_spec() -> bool {
        true
    }

    open spec fn from_spec(item: u8) -> Self {
        if item == 0 {
            ObjKind::Invalid
        } else if item == 1 {
            ObjKind::Data
        } else if item == 2 {
            ObjKind::BigData
        } else if item == 3 {
            ObjKind::Key
        } else if item == 4 {
            ObjKind::Block
        } else if item == 5 {
            ObjKind::Stream
        } else if item == 6 {
            ObjKind::Tree
        } else if item == 7 {
            ObjKind::Commit
        } else if item == 8 {
            ObjKind::Fanout
        } else {
            ObjKind::Unknown
        }
    }
}

#[derive(Debug, PartialEq, Eq, Structural, Clone, Copy)]
pub enum BlockType {
    Configure,
    Commit,
}

/// Numeric code of a `BlockType`.
pub open spec fn block_type_code(t: BlockType) -> u8 {
    match t {
        BlockType::Configure => 0,
        BlockType::Commit => 1,
    }
}

impl BlockType {
    /// The numeric code of this block type.
    pub fn code(&self) -> (r: u8)
        ensures
            r == block_type_code(*self),
    {
        match self {
            BlockType::Configure => 0,
            BlockType::Commit => 1,
        }
    }

    /// The block type with the given code (only 0 and 1 are block types).
    pub fn from_code(item: u8) -> (r: Self)
        requires
            item < 2,
        ensures
            block_type_code(r) == item,
    {
        if item == 0 {
            Self::Configure
        } else {
            Self::Commit
        }
    }
}

/// Kind of a pack file entry.
#[derive(Debug, PartialEq, Eq, Structural, Clone, Copy)]
pub enum ObjectType {
    Data,
    Tree,
}

/// Numeric code of an `ObjectType`.
pub open spec fn object_type_code(t: ObjectType) -> u8 {
    match t {
        ObjectType::Data => 0,
        ObjectType::Tree => 1,
    }
}

impl ObjectType {
    /// The numeric code of this object type.
    pub fn code(&self) -> (r: u8)
        ensures
            r == object_type_code(*self),
    {
        match self {
            ObjectType::Data => 0,
            ObjectType::Tree => 1,
        }
    }

    /// The object type with the given code (only 0 and 1 are object types).
    pub fn from_code(item: u8) -> (r: Self)
        requires
            item < 2,
        ensures
            object_type_code(r) == item,
    {
        if item == 0 {
            Self::Data
        } else {
            Self::Tree
        }
    }
}

} // verus!
