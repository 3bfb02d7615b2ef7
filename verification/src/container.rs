use crate::error::McRawError;
use vstd::prelude::*;

verus! {

/// Types of items stored in the MCRAW container.
#[derive(Debug, Clone, Copy, PartialEq, Eq, Structural)]
pub enum ItemType {
    BufferIndex,
    BufferIndexData,
    Buffer,
    Metadata,
    AudioIndex,
    AudioData,
    AudioDataMetadata,
}

/// The item type that a 32-bit code stands for, if any.
pub open spec fn item_type_of(v: u32) -> Option<ItemType> {
    if v == 0 {
        Some(ItemType::BufferIndex)
    } else if v == 1 {
        Some(ItemType::BufferIndexData)
    } else if v == 2 {
        Some(ItemType::Buffer)
    } else if v == 3 {
        Some(ItemType::Metadata)
    } else if v == 4 {
        Some(ItemType::AudioIndex)
    } else if v == 5 {
        Some(ItemType::AudioData)
    } else if v == 6 {
        Some(ItemType::AudioDataMetadata)
    } else {
        None
    }
}

impl ItemType {
    /// The 32-bit code of an item type, as stored in the container.
    pub open spec fn code(self) -> u32 {
        match self {
            ItemType::BufferIndex => 0,
            ItemType::BufferIndexData => 1,
            ItemType::Buffer => 2,
            ItemType::Metadata => 3,
            ItemType::AudioIndex => 4,
            ItemType::AudioData => 5,
            ItemType::AudioDataMetadata => 6,
        }
    }

    /// The 32-bit code of this item type.
    pub fn as_u32(self) -> (r: u32)
        ensures
            r == self.code(),
    {
        match self {
            ItemType::BufferIndex => 0,
            ItemType::BufferIndexData => 1,
            ItemType::Buffer => 2,
            ItemType::Metadata => 3,
            ItemType::AudioIndex => 4,
            ItemType::AudioData => 5,
            ItemType::AudioDataMetadata => 6,
        }
    }
}

/// What decoding a 32-bit item code yields: the type, or `InvalidItemType`.
pub open spec fn item_type_result(v: u32) -> Result<ItemType, McRawError> {
    match item_type_of(v) {
        Some(t) => Ok(t),
        None => Err(McRawError::InvalidItemType(v)),
    }
}

impl TryFrom<u32> for ItemType {
    type Error = McRawError;

    fn try_from(v: u32) -> (r: Result<Self, Self::Error>)
        ensures
            r == item_type_result(v),
    {
        match v {
            0 => Ok(ItemType::BufferIndex),
            1 => Ok(ItemType::BufferIndexData),
            2 => Ok(ItemType::Buffer),
            3 => Ok(ItemType::Metadata),
            4 => Ok(ItemType::AudioIndex),
            5 => Ok(ItemType::AudioData),
            6 => Ok(ItemType::AudioDataMetadata),
            _ => Err(McRawError::InvalidItemType(v)),
        }
    }
}

impl vstd::std_specs::convert::TryFromSpecImpl<u32> for ItemType {
    open spec fn obeys_try_from_spec() -> bool {
        true
    }

    open spec fn try_from_spec(v: u32) -> Result<Self, McRawError> {
        item_type_result(v)
    }
}

/// Decoding the code of an item type gives that type back, and only codes
/// below 7 name an item type.
pub proof fn lemma_item_type_code_roundtrip(t: ItemType, v: u32)
    ensures
        item_type_of(t.code()) == Some(t),
        item_type_of(v) matches Some(u) ==> u.code() == v,
        item_type_of(v) is Some <==> v < 7,
{
}

/// A typed item header in the container stream.
#[derive(Debug, Clone, Copy)]
pub struct Item {
    /// Type of the item.
    pub item_type: ItemType,
    /// Size of the item payload in bytes.
    pub size: u32,
}

/// Offset and timestamp for a buffer (frame or audio) in the file.
#[derive(Debug, Clone, Copy)]
pub struct BufferOffset {
    /// Byte offset in the file.
    pub offset: i64,
    /// Presentation timestamp.
    pub timestamp: i64,
}

/// Index entry describing the frame index section.
#[derive(Debug, Clone, Copy)]
pub struct BufferIndex {
    /// Magic number for validation (`INDEX_MAGIC_NUMBER`).
    pub magic_number: u32,
    /// Number of offset entries.
    pub num_offsets: i32,
    /// File offset where index data begins.
    pub index_data_offset: i64,
}

/// Index entry for audio data.
#[derive(Debug, Clone, Copy)]
pub struct AudioIndex {
    /// Number of audio chunk offsets.
    pub num_offsets: i64,
    /// Start timestamp in milliseconds.
    pub start_timestamp_ms: i64,
}

/// Per-chunk audio metadata.
#[derive(Debug, Clone, Copy)]
pub struct AudioMetadata {
    /// Timestamp of this audio chunk in nanoseconds.
    pub timestamp_ns: i64,
}

/// Magic bytes identifying an MCRAW container (`"MOTION "`).
pub const CONTAINER_ID: [u8; 7] = [0x4D, 0x4F, 0x54, 0x49, 0x4F, 0x4E, 0x20];

/// Current container version supported by this decoder.
pub const CONTAINER_VERSION: u8 = 3;

/// Magic number used to validate frame index data.
pub const INDEX_MAGIC_NUMBER: u32 = 0x8A905612;

} // verus!
