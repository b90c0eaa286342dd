//! MCAP wire-format constants and record opcodes.

use vstd::prelude::*;

verus! {

/// The UTF-8 bytes of a string.
pub open spec fn str_bytes(s: Seq<char>) -> Seq<u8> {
    vstd::utf8::encode_utf8(s)
}

/// Length of a record header: one opcode byte and an eight-byte payload length.
pub const RECORD_HEADER_SIZE: usize = 9;

/// Length of the fixed fields of a Message record payload
/// (channel id, sequence, log time, publish time).
pub const MESSAGE_HEADER_SIZE: usize = 22;

/// Length of a Message record's header and fixed fields.
pub const MESSAGE_RECORD_PREFIX_LEN: usize = 31;

/// Length of the magic byte sequence at the start and end of a file.
pub const MCAP_MAGIC_SIZE: usize = 8;

/// The magic bytes that open and close every MCAP file.
pub open spec fn spec_magic() -> Seq<u8> {
    seq![0x89u8, 0x4du8, 0x43u8, 0x41u8, 0x50u8, 0x30u8, 0x0du8, 0x0au8]
}

/// Returns the MCAP magic bytes.
pub fn mcap_magic() -> (r: Vec<u8>)
    ensures
        r@ == spec_magic(),
{
    let r: Vec<u8> = vec![0x89u8, 0x4du8, 0x43u8, 0x41u8, 0x50u8, 0x30u8, 0x0du8, 0x0au8];
    assert(r@ =~= spec_magic());
    r
}

/// MCAP record opcodes.
#[derive(Debug, Clone, Copy, PartialEq, Eq, Hash, Structural)]
pub enum Opcode {
    /// Header record (0x01)
    Header,
    /// Footer record (0x02)
    Footer,
    /// Schema record (0x03)
    Schema,
    /// Channel record (0x04)
    Channel,
    /// Message record (0x05)
    Message,
    /// Chunk record (0x06)
    Chunk,
    /// MessageIndex record (0x07)
    MessageIndex,
    /// ChunkIndex record (0x08)
    ChunkIndex,
    /// Attachment record (0x09)
    Attachment,
    /// AttachmentIndex record (0x0A)
    AttachmentIndex,
    /// Statistics record (0x0B)
    Statistics,
    /// Metadata record (0x0C)
    Metadata,
    /// MetadataIndex record (0x0D)
    MetadataIndex,
    /// SummaryOffset record (0x0E)
    SummaryOffset,
    /// DataEnd record (0x0F)
    DataEnd,
}

impl Opcode {
    /// The byte that encodes this opcode on the wire.
    pub open spec fn byte(self) -> u8 {
        match self {
            Opcode::Header => 0x01,
            Opcode::Footer => 0x02,
            Opcode::Schema => 0x03,
            Opcode::Channel => 0x04,
            Opcode::Message => 0x05,
            Opcode::Chunk => 0x06,
            Opcode::MessageIndex => 0x07,
            Opcode::ChunkIndex => 0x08,
            Opcode::Attachment => 0x09,
            Opcode::AttachmentIndex => 0x0A,
            Opcode::Statistics => 0x0B,
            Opcode::Metadata => 0x0C,
            Opcode::MetadataIndex => 0x0D,
            Opcode::SummaryOffset => 0x0E,
            Opcode::DataEnd => 0x0F,
        }
    }

    /// The opcode encoded by a byte, if it is a known record type.
    pub open spec fn spec_from_byte(b: u8) -> Option<Opcode> {
        if b == 0x01 { Some(Opcode::Header) }
        else if b == 0x02 { Some(Opcode::Footer) }
        else if b == 0x03 { Some(Opcode::Schema) }
        else if b == 0x04 { Some(Opcode::Channel) }
        else if b == 0x05 { Some(Opcode::Message) }
        else if b == 0x06 { Some(Opcode::Chunk) }
        else if b == 0x07 { Some(Opcode::MessageIndex) }
        else if b == 0x08 { Some(Opcode::ChunkIndex) }
        else if b == 0x09 { Some(Opcode::Attachment) }
        else if b == 0x0A { Some(Opcode::AttachmentIndex) }
        else if b == 0x0B { Some(Opcode::Statistics) }
        else if b == 0x0C { Some(Opcode::Metadata) }
        else if b == 0x0D { Some(Opcode::MetadataIndex) }
        else if b == 0x0E { Some(Opcode::SummaryOffset) }
        else if b == 0x0F { Some(Opcode::DataEnd) }
        else { None }
    }

    /// Get the opcode value as a byte.
    pub fn as_u8(self) -> (r: u8)
        ensures
            r == self.byte(),
    {
        match self {
            Opcode::Header => 0x01,
            Opcode::Footer => 0x02,
            Opcode::Schema => 0x03,
            Opcode::Channel => 0x04,
            Opcode::Message => 0x05,
            Opcode::Chunk => 0x06,
            Opcode::MessageIndex => 0x07,
            Opcode::ChunkIndex => 0x08,
            Opcode::Attachment => 0x09,
            Opcode::AttachmentIndex => 0x0A,
            Opcode::Statistics => 0x0B,
            Opcode::Metadata => 0x0C,
            Opcode::MetadataIndex => 0x0D,
            Opcode::SummaryOffset => 0x0E,
            Opcode::DataEnd => 0x0F,
        }
    }

    /// Decode an opcode byte; `None` for bytes that name no known record type.
    pub fn from_repr(b: u8) -> (r: Option<Opcode>)
        ensures
            r == Opcode::spec_from_byte(b),
    {
        if b == 0x01 { Some(Opcode::Header) }
        else if b == 0x02 { Some(Opcode::Footer) }
        else if b == 0x03 { Some(Opcode::Schema) }
        else if b == 0x04 { Some(Opcode::Channel) }
        else if b == 0x05 { Some(Opcode::Message) }
        else if b == 0x06 { Some(Opcode::Chunk) }
        else if b == 0x07 { Some(Opcode::MessageIndex) }
        else if b == 0x08 { Some(Opcode::ChunkIndex) }
        else if b == 0x09 { Some(Opcode::Attachment) }
        else if b == 0x0A { Some(Opcode::AttachmentIndex) }
        else if b == 0x0B { Some(Opcode::Statistics) }
        else if b == 0x0C { Some(Opcode::Metadata) }
        else if b == 0x0D { Some(Opcode::MetadataIndex) }
        else if b == 0x0E { Some(Opcode::SummaryOffset) }
        else if b == 0x0F { Some(Opcode::DataEnd) }
        else { None }
    }
}

/// Every opcode is recovered from its own byte.
pub proof fn lemma_opcode_byte_round_trip(op: Opcode)
    ensures
        Opcode::spec_from_byte(op.byte()) == Some(op),
{
}

} // verus!
