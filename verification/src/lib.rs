//! A verified reader, writer and record-binding layer for the NBT
//! (named binary tag) tree format, covering the big-endian, little-endian
//! and little-endian-varint dialects, the optional Bedrock file header,
//! and a DEFLATE-family compression gateway.

pub mod compression;
pub mod de;
pub mod endian;
pub mod laws;
pub mod read;
pub mod ser;
pub mod tag;
pub mod wire;
pub mod write;

pub use tag::BedrockHeader;
pub use tag::ByteArrayTag;
pub use tag::CompoundTag;
pub use tag::Endian;
pub use tag::IntArrayTag;
pub use tag::LongArrayTag;
pub use tag::SpecTag;
pub use tag::StringTag;
pub use tag::Tag;
pub use tag::TagIDError;
pub use tag::TagId;
pub use compression::CompressionError;
pub use compression::CompressionFormat;
pub use compression::compress;
pub use compression::decompress;
pub use de::DeserializeError;
pub use de::Shape;
pub use de::SpecShape;
pub use de::TagDeserializer;
pub use de::from_tag;
pub use endian::BigEndianOrder;
pub use endian::EndianRead;
pub use endian::LittleEndianOrder;
pub use endian::LittleVarInt;
pub use endian::read_int;
pub use read::ReadError;
pub use read::read_bedrock_header;
pub use read::read_root;
pub use ser::SerializeError;
pub use ser::SerializeCompound;
pub use ser::SerializeList;
pub use ser::SpecValue;
pub use ser::TagSerializer;
pub use ser::Value;
pub use ser::to_tag;
pub use write::WriteError;
pub use write::get_storage_version;
pub use write::write_root;
