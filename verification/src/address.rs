//! Where a record is, what a store names, and whose an IO is.

use vstd::prelude::*;

verus! {

/// A block is what one read fetches: one hold costs one block, whatever else that block holds.
pub const BLOCK_BYTES: usize = 4096;

/// Width of the segment field of an address.
pub const SEGMENT_BITS: u32 = 6;

/// How many values the segment field takes; a table with one entry per segment is sized from it.
pub const SEGMENT_VALUES: usize = 64;

/// Width of the block field: an index slot spends one of its bits on saying that a fingerprint is
/// shared, which leaves an address forty-seven in all.
pub const BLOCK_BITS: u32 = 35;

/// Width of the field that says which record of the block.
pub const INDEX_BITS: u32 = 6;

/// How many blocks the block field can name.
pub const BLOCK_VALUES: u64 = 0x8_0000_0000;

/// How many records of a block the index field can name.
pub const INDEX_VALUES: u64 = 64;

/// What one step of the segment field weighs in a packed address.
pub const SEGMENT_WEIGHT: u64 = 0x200_0000_0000;

/// How many packed addresses there are: forty-seven bits.
pub const ADDRESS_VALUES: u64 = 0x8000_0000_0000;

/// The last segment value, which names no day: an address in it is in the write buffer.
pub const BUFFER_SEGMENT: u8 = 63;

/// How many segments days can have: every value but the buffer's.
pub const SEGMENTS: u64 = 63;

/// Where a record is: segment, block, and which record of the block.
#[derive(Clone, Copy, Debug, PartialEq, Eq, Structural)]
pub struct RecordAddr(pub u64);

impl Default for RecordAddr {
    fn default() -> (addr: Self)
        ensures
            addr == RecordAddr(0),
    {
        RecordAddr(0)
    }
}

impl RecordAddr {
    #[verifier::opaque]
    pub open spec fn spec_new(segment: u8, block: u64, index: u8) -> RecordAddr {
        RecordAddr(
            (segment * SEGMENT_WEIGHT + (block % BLOCK_VALUES) * INDEX_VALUES + index
                % 64) as u64,
        )
    }

    /// Packs the three parts. A block or an index too wide for its field keeps its low bits.
    #[verifier::when_used_as_spec(spec_new)]
    pub fn new(segment: u8, block: u64, index: u8) -> (addr: Self)
        ensures
            addr == RecordAddr::spec_new(segment, block, index),
    {
        reveal(RecordAddr::spec_new);
        assert(((segment as u64) << 41) | ((block & 0x7_ffff_ffff) << 6) | (index as u64 & 0x3f)
            == segment * 0x200_0000_0000 + (block % 0x8_0000_0000) * 64 + index % 64)
            by (bit_vector);
        RecordAddr(
            ((segment as u64) << 41) | ((block & 0x7_ffff_ffff) << 6) | (index as u64 & 0x3f),
        )
    }

    #[verifier::opaque]
    pub open spec fn spec_segment(self) -> u8 {
        ((self.0 / SEGMENT_WEIGHT) % 256) as u8
    }

    #[verifier::when_used_as_spec(spec_segment)]
    pub fn segment(self) -> (segment: u8)
        ensures
            segment == self.spec_segment(),
    {
        reveal(RecordAddr::spec_segment);
        let raw: u64 = self.0;
        assert((raw >> 41) & 0xff == (raw / 0x200_0000_0000) % 256) by (bit_vector);
        ((raw >> 41) & 0xff) as u8
    }

    #[verifier::opaque]
    pub open spec fn spec_block(self) -> u64 {
        (self.0 / INDEX_VALUES) % BLOCK_VALUES
    }

    #[verifier::when_used_as_spec(spec_block)]
    pub fn block(self) -> (block: u64)
        ensures
            block == self.spec_block(),
    {
        reveal(RecordAddr::spec_block);
        let raw: u64 = self.0;
        assert((raw >> 6) & 0x7_ffff_ffff == (raw / 64) % 0x8_0000_0000) by (bit_vector);
        (raw >> 6) & 0x7_ffff_ffff
    }

    #[verifier::opaque]
    pub open spec fn spec_index(self) -> u8 {
        (self.0 % INDEX_VALUES) as u8
    }

    #[verifier::when_used_as_spec(spec_index)]
    pub fn index(self) -> (index: u8)
        ensures
            index == self.spec_index(),
    {
        reveal(RecordAddr::spec_index);
        let raw: u64 = self.0;
        assert(raw & 0x3f == raw % 64) by (bit_vector);
        (raw & 0x3f) as u8
    }

    pub open spec fn spec_raw(self) -> u64 {
        self.0
    }

    #[verifier::when_used_as_spec(spec_raw)]
    pub fn raw(self) -> (raw: u64)
        ensures
            raw == self.spec_raw(),
    {
        self.0
    }

    pub open spec fn spec_from_raw(raw: u64) -> RecordAddr {
        RecordAddr(raw)
    }

    #[verifier::when_used_as_spec(spec_from_raw)]
    pub fn from_raw(raw: u64) -> (addr: Self)
        ensures
            addr == RecordAddr::spec_from_raw(raw),
    {
        RecordAddr(raw)
    }

    pub open spec fn spec_block_offset(self) -> u64 {
        (self.spec_block() * 4096) as u64
    }

    /// Where this record's block sits in its segment: the block number times the block size,
    /// absolute, so that an address says where its block is with no other state asked.
    #[verifier::when_used_as_spec(spec_block_offset)]
    pub fn block_offset(self) -> (offset: u64)
        ensures
            offset == self.spec_block_offset(),
            offset == self.spec_block() * BLOCK_BYTES,
    {
        reveal(RecordAddr::spec_block);
        self.block() * 4096
    }

    pub open spec fn spec_buffered(block: u64, index: u8) -> RecordAddr {
        RecordAddr::spec_new(BUFFER_SEGMENT, block, index)
    }

    /// The address of a record that is in the write buffer.
    #[verifier::when_used_as_spec(spec_buffered)]
    pub fn buffered(block: u64, index: u8) -> (addr: Self)
        ensures
            addr == RecordAddr::spec_buffered(block, index),
    {
        RecordAddr::new(BUFFER_SEGMENT, block, index)
    }

    pub open spec fn spec_is_buffered(self) -> bool {
        self.spec_segment() == BUFFER_SEGMENT
    }

    #[verifier::when_used_as_spec(spec_is_buffered)]
    pub fn is_buffered(self) -> (buffered: bool)
        ensures
            buffered == self.spec_is_buffered(),
    {
        self.segment() == BUFFER_SEGMENT
    }

    /// Whether the address fits the forty-seven bits an index slot has for it.
    pub open spec fn fits(self) -> bool {
        self.0 < ADDRESS_VALUES
    }
}

/// An address gives back the three parts it was made of, wherever they fit their fields, and then
/// fits forty-seven bits when its segment fits six.
pub proof fn law_address_parts(segment: u8, block: u64, index: u8)
    requires
        block < BLOCK_VALUES,
        index < INDEX_VALUES,
    ensures
        RecordAddr::new(segment, block, index).segment() == segment,
        RecordAddr::new(segment, block, index).block() == block,
        RecordAddr::new(segment, block, index).index() == index,
        segment < SEGMENT_VALUES <==> RecordAddr::new(segment, block, index).fits(),
{
    reveal(RecordAddr::spec_new);
    reveal(RecordAddr::spec_segment);
    reveal(RecordAddr::spec_block);
    reveal(RecordAddr::spec_index);
}

/// An address that fits is the one its own parts make: no two addresses share all three parts.
pub proof fn law_address_is_its_parts(addr: RecordAddr)
    requires
        addr.fits(),
    ensures
        addr.segment() < SEGMENT_VALUES,
        addr.block() < BLOCK_VALUES,
        addr.index() < INDEX_VALUES,
        RecordAddr::new(addr.segment(), addr.block(), addr.index()) == addr,
{
    reveal(RecordAddr::spec_new);
    reveal(RecordAddr::spec_segment);
    reveal(RecordAddr::spec_block);
    reveal(RecordAddr::spec_index);
}

/// What a store names: one object per segment, and the snapshot's two.
#[derive(Clone, Copy, Debug, PartialEq, Eq, Structural)]
pub struct ObjectId(pub u8);

/// How many objects a store may be asked for: every segment, and the snapshot's two.
pub const OBJECT_VALUES: usize = 66;

impl ObjectId {
    pub open spec fn spec_segment(segment: u8) -> ObjectId {
        ObjectId(segment)
    }

    /// The blocks of one day.
    #[verifier::when_used_as_spec(spec_segment)]
    pub fn segment(segment: u8) -> (object: Self)
        requires
            segment < SEGMENT_VALUES,
        ensures
            object == ObjectId::spec_segment(segment),
    {
        ObjectId(segment)
    }

    pub open spec fn spec_snapshot_current() -> ObjectId {
        ObjectId(64)
    }

    /// The snapshot a restart reads.
    #[verifier::when_used_as_spec(spec_snapshot_current)]
    pub fn snapshot_current() -> (object: Self)
        ensures
            object == ObjectId::spec_snapshot_current(),
    {
        ObjectId(64)
    }

    pub open spec fn spec_snapshot_partial() -> ObjectId {
        ObjectId(65)
    }

    /// The snapshot being written, which is renamed over the current one when it is whole.
    #[verifier::when_used_as_spec(spec_snapshot_partial)]
    pub fn snapshot_partial() -> (object: Self)
        ensures
            object == ObjectId::spec_snapshot_partial(),
    {
        ObjectId(65)
    }

    pub open spec fn spec_index(self) -> usize {
        self.0 as usize
    }

    #[verifier::when_used_as_spec(spec_index)]
    pub fn index(self) -> (index: usize)
        ensures
            index == self.spec_index(),
    {
        self.0 as usize
    }

    /// Whether the object is one a store may be asked for.
    pub open spec fn valid(self) -> bool {
        self.0 < OBJECT_VALUES
    }
}

/// A segment's object is neither of the snapshot's two, and no two segments share one.
pub proof fn law_objects_are_distinct(one: u8, other: u8)
    requires
        one < SEGMENT_VALUES,
        other < SEGMENT_VALUES,
    ensures
        ObjectId::segment(one).valid(),
        ObjectId::segment(one) != ObjectId::snapshot_current(),
        ObjectId::segment(one) != ObjectId::snapshot_partial(),
        ObjectId::snapshot_current() != ObjectId::snapshot_partial(),
        one != other ==> ObjectId::segment(one) != ObjectId::segment(other),
{
}

/// Who asked for an IO, carried in the top bits of its handle, so that one store serving several
/// callers hands each completion back to the one that asked for it.
#[derive(Clone, Copy, Debug, PartialEq, Eq, Structural)]
pub enum IoOwner {
    Blocks,
    Snapshot,
    /// The expiry sweep's block reads.
    Sweep,
}

/// What one step of the owner's tag weighs in a handle.
pub const OWNER_WEIGHT: u64 = 0x100_0000_0000_0000;

impl IoOwner {
    pub open spec fn tag(self) -> u64 {
        match self {
            IoOwner::Blocks => 0,
            IoOwner::Snapshot => 1,
            IoOwner::Sweep => 2,
        }
    }

    fn number(self) -> (number: u64)
        ensures
            number == self.tag(),
    {
        match self {
            IoOwner::Blocks => 0,
            IoOwner::Snapshot => 1,
            IoOwner::Sweep => 2,
        }
    }

    pub open spec fn spec_handle(self, sequence: u64) -> u64 {
        ((self.tag() << 56) | sequence) as u64
    }

    /// The handle a sequence number of this owner's gets.
    #[verifier::when_used_as_spec(spec_handle)]
    pub fn handle(self, sequence: u64) -> (handle: u64)
        ensures
            handle == self.spec_handle(sequence),
            sequence < OWNER_WEIGHT ==> handle == self.tag() * OWNER_WEIGHT + sequence,
    {
        proof {
            lemma_handle_is_tag_and_sequence(self, sequence);
        }
        (self.number() << 56) | sequence
    }

    pub open spec fn spec_owns(self, handle: u64) -> bool {
        handle / OWNER_WEIGHT == self.tag()
    }

    #[verifier::when_used_as_spec(spec_owns)]
    pub fn owns(self, handle: u64) -> (owns: bool)
        ensures
            owns == self.spec_owns(handle),
    {
        assert(handle >> 56 == handle / 0x100_0000_0000_0000) by (bit_vector);
        handle >> 56 == self.number()
    }
}

proof fn lemma_handle_is_tag_and_sequence(owner: IoOwner, sequence: u64)
    ensures
        sequence < OWNER_WEIGHT ==> owner.handle(sequence) == owner.tag() * OWNER_WEIGHT + sequence,
{
    let tag: u64 = owner.tag();
    assert(tag <= 2 && sequence < 0x100_0000_0000_0000 ==> (tag << 56) | sequence == tag
        * 0x100_0000_0000_0000 + sequence) by (bit_vector);
}

/// A handle is owned by the owner that made it and by no other, no two sequence numbers of one owner
/// share a handle, and an owner's handles count up with its sequence.
pub proof fn law_a_handle_has_one_owner(owner: IoOwner, other: IoOwner, one: u64, two: u64)
    requires
        one < OWNER_WEIGHT,
        two < OWNER_WEIGHT,
    ensures
        owner.owns(owner.handle(one)),
        other.owns(owner.handle(one)) ==> other == owner,
        owner.handle(one) == other.handle(two) ==> owner == other && one == two,
        owner == other ==> (one < two <==> owner.handle(one) < other.handle(two)),
{
    lemma_handle_is_tag_and_sequence(owner, one);
    lemma_handle_is_tag_and_sequence(other, two);
}

/// A block stands at its number times the size of a block, whatever its day, and a record is in the buffer exactly
/// if its address says so.
pub proof fn law_a_block_stands_at_its_number(addr: RecordAddr, block: u64, index: u8)
    requires
        addr.fits(),
        block < BLOCK_VALUES,
        index < INDEX_VALUES,
    ensures
        addr.block_offset() == addr.block() * BLOCK_BYTES,
        addr.block_offset() % 4096 == 0,
        addr.is_buffered() <==> addr.segment() == 63,
        RecordAddr::buffered(block, index).is_buffered(),
        RecordAddr::buffered(block, index).block() == block,
        RecordAddr::buffered(block, index).index() == index,
        RecordAddr::from_raw(addr.raw()) == addr,
{
    law_address_is_its_parts(addr);
    law_address_parts(63, block, index);
}

} // verus!
