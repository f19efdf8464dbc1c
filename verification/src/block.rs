//! A block's bytes, its checksum, and the record format inside it.

use vstd::bytes::*;
use vstd::prelude::*;

use crate::address::{RecordAddr, BLOCK_BYTES};
use crate::ledger::{AccountId, Amount, BudgetGroup, HoldData, TxId};
use crate::remainder::{
    bit_at, crc32c_of, crc_over, differs, left_by, lemma_apart, lemma_burst,
    lemma_first_moves, lemma_linear, lemma_moved_linear, lemma_not_round, lemma_plain, lemma_two_bits,
    lemma_word_in, moved,
};

verus! {

/// A record on a block: its key, then the hold. The key is stored because the index carries only a
/// fingerprint, so the record is what tells two colliding keys apart.
pub const RECORD_BYTES: usize = 80;

/// How many records a block holds, with the remainder left for the checksum.
pub const RECORDS_PER_BLOCK: usize = 51;

/// Where a block's checksum sits: after the records.
pub const CHECKSUM_AT: usize = 4080;

/// Calls `crc32c::crc32c`, which computes the CRC-32-Castagnoli of a byte slice. What is claimed of it is
/// that algorithm's own definition: the remainder of the bytes, lowest bit first, by the polynomial that the
/// crate's tables are made from, begun with every bit set and turned over at the end.
#[verifier::external_body]
fn checksum_of(bytes: &[u8]) -> (checksum: u32)
    ensures
        checksum == crc32c_of(bytes@),
{
    crc32c::crc32c(bytes)
}

/// One block's bytes.
pub struct Block {
    pub bytes: [u8; 4096],
}

impl View for Block {
    type V = Seq<u8>;

    open spec fn view(&self) -> Seq<u8> {
        self.bytes@
    }
}

/// The bytes with `patch` written over them from `at` on.
pub open spec fn patched(bytes: Seq<u8>, at: int, patch: Seq<u8>) -> Seq<u8> {
    Seq::new(
        bytes.len(),
        |i: int|
            if at <= i < at + patch.len() {
                patch[i - at]
            } else {
                bytes[i]
            },
    )
}

/// A checksum as a block carries it: lowest byte first.
pub open spec fn checksum_bytes(checksum: u32) -> Seq<u8> {
    seq![
        (checksum & 0xff) as u8,
        ((checksum >> 8) & 0xff) as u8,
        ((checksum >> 16) & 0xff) as u8,
        ((checksum >> 24) & 0xff) as u8,
    ]
}

/// The bytes of a block carry the checksum of their records.
pub open spec fn stamped(bytes: Seq<u8>) -> bool {
    &&& bytes.len() == 4096
    &&& bytes.subrange(4080, 4084) == checksum_bytes(crc32c_of(bytes.subrange(0, 4080)))
}

/// The bytes with the checksum of their records written where it belongs.
pub open spec fn stamp_of(bytes: Seq<u8>) -> Seq<u8> {
    patched(bytes, 4080, checksum_bytes(crc32c_of(bytes.subrange(0, 4080))))
}

impl Block {
    /// Boxed rather than by value: four kilobytes is not something to move.
    pub fn zeroed() -> (block: Box<Self>)
        ensures
            block@ == Seq::new(4096, |i: int| 0u8),
            !stamped(block@),
    {
        let bytes: [u8; 4096] = [0u8; 4096];
        proof {
            broadcast use vstd::array::axiom_spec_array_fill_for_copy_type;

            assert(bytes == vstd::array::spec_array_fill_for_copy_type::<u8, 4096>(0u8));
        }
        let block = Box::new(Block { bytes });
        proof {
            assert(block@ =~= Seq::new(4096, |i: int| 0u8));
            law_a_block_of_zeroes_is_not_intact();
        }
        block
    }

    pub fn copy_of(other: &Self) -> (block: Box<Self>)
        ensures
            block@ == other@,
    {
        let block = Box::new(Block { bytes: other.bytes });
        block
    }

    pub fn as_bytes(&self) -> (bytes: &[u8])
        ensures
            bytes@ == self@,
    {
        self.bytes.as_slice()
    }

    /// Takes another block's bytes.
    pub fn copy_from(&mut self, other: &Self)
        ensures
            final(self)@ == other@,
    {
        self.bytes = other.bytes;
    }

    /// Writes bytes over the block's own, from `at` on.
    pub fn write(&mut self, at: usize, patch: &[u8])
        requires
            at + patch@.len() <= BLOCK_BYTES,
        ensures
            final(self)@ == patched(old(self)@, at as int, patch@),
    {
        let mut i: usize = 0;
        while i < patch.len()
            invariant
                i <= patch@.len(),
                at + patch@.len() <= 4096,
                self@ =~= patched(old(self)@, at as int, patch@.subrange(0, i as int)),
            decreases patch@.len() - i,
        {
            self.bytes[at + i] = patch[i];
            i += 1;
        }
        assert(patch@.subrange(0, i as int) =~= patch@);
    }

    /// Seals the block's bytes with a checksum over its records.
    pub fn stamp(&mut self)
        ensures
            final(self)@ == stamp_of(old(self)@),
            stamped(final(self)@),
    {
        let checksum: u32 = checksum_of(&self.bytes.as_slice()[0..CHECKSUM_AT]);
        let bytes: [u8; 4] = [
            (checksum & 0xff) as u8,
            ((checksum >> 8) & 0xff) as u8,
            ((checksum >> 16) & 0xff) as u8,
            ((checksum >> 24) & 0xff) as u8,
        ];
        assert(bytes@ =~= checksum_bytes(checksum));
        self.write(CHECKSUM_AT, bytes.as_slice());
        proof {
            law_a_stamped_block_is_intact(old(self)@);
        }
    }

    /// Whether these bytes are the ones that were written. False means silent corruption: a device
    /// that answered rather than refused.
    pub fn intact(&self) -> (intact: bool)
        ensures
            intact == stamped(self@),
    {
        let checksum: u32 = checksum_of(&self.bytes.as_slice()[0..CHECKSUM_AT]);
        let ghost at = self@.subrange(4080, 4084);
        proof {
            assert(at =~= seq![self@[4080], self@[4081], self@[4082], self@[4083]]);
            let sum = checksum_bytes(checksum);
            assert(at == sum <==> at[0] == sum[0] && at[1] == sum[1] && at[2] == sum[2] && at[3]
                == sum[3]) by {
                if at[0] == sum[0] && at[1] == sum[1] && at[2] == sum[2] && at[3] == sum[3] {
                    assert(at =~= sum);
                }
            }
        }
        self.bytes[CHECKSUM_AT] == (checksum & 0xff) as u8 && self.bytes[CHECKSUM_AT + 1] == ((checksum
            >> 8) & 0xff) as u8 && self.bytes[CHECKSUM_AT + 2] == ((checksum >> 16) & 0xff) as u8
            && self.bytes[CHECKSUM_AT + 3] == ((checksum >> 24) & 0xff) as u8
    }
}

/// A stamped block is intact, and stamping changes no byte but the checksum's four.
pub proof fn law_a_stamped_block_is_intact(bytes: Seq<u8>)
    requires
        bytes.len() == 4096,
    ensures
        stamped(stamp_of(bytes)),
        stamp_of(bytes).len() == 4096,
        forall|i: int|
            0 <= i < 4096 && !(4080 <= i < 4084) ==> #[trigger] stamp_of(bytes)[i] == bytes[i],
        stamp_of(bytes).subrange(0, 4080) == bytes.subrange(0, 4080),
{
    let sum = checksum_bytes(crc32c_of(bytes.subrange(0, 4080)));
    assert(stamp_of(bytes).subrange(0, 4080) =~= bytes.subrange(0, 4080));
    assert(stamp_of(bytes).subrange(4080, 4084) =~= sum);
}

/// The bits of a checksum, where a block carries it.
proof fn lemma_checksum_bit(bytes: Seq<u8>, checksum: u32, j: int)
    requires
        bytes.len() == 4096,
        bytes.subrange(4080, 4084) == checksum_bytes(checksum),
        0 <= j < 32,
    ensures
        bit_at(bytes, 32640 + j) == ((checksum >> (j as u32)) & 1 == 1),
{
    let i = j / 8;
    let b = (j % 8) as u8;
    let at = j as u32;
    assert((32640 + j) / 8 == 4080 + i && (32640 + j) % 8 == j % 8);
    assert(bytes[4080 + i] == bytes.subrange(4080, 4084)[i]);
    let byte = bytes[4080 + i];
    let shift = (8 * i) as u32;
    lemma_plain(checksum);
    assert(byte == ((checksum >> shift) & 0xff) as u8);
    assert(((byte >> b) & 1 == 1) == ((checksum >> at) & 1 == 1)) by (bit_vector)
        requires
            b < 8,
            shift <= 24,
            at == shift + b,
            byte == ((checksum >> shift) & 0xff) as u8,
    ;
}

/// The bits of two blocks that are both intact leave nothing.
proof fn lemma_both_intact(one: Seq<u8>, other: Seq<u8>)
    requires
        stamped(one),
        stamped(other),
    ensures
        left_by(one, other, 32672) == 0,
{
    assert(one.take(4080) =~= one.subrange(0, 4080));
    assert(other.take(4080) =~= other.subrange(0, 4080));
    lemma_apart(one, other, 4080);
    let a = crc_over(one.take(4080));
    let b = crc_over(other.take(4080));
    let word = left_by(one, other, 32640);
    let sum = a ^ 0xffff_ffff;
    let another = b ^ 0xffff_ffff;
    assert forall|j: int| 0 <= j < 32 implies #[trigger] differs(one, other, 32640 + j) == (word >> (
    j as u32)) & 1 by {
        lemma_checksum_bit(one, sum, j);
        lemma_checksum_bit(other, another, j);
        let at = j as u32;
        assert((if ((sum >> at) & 1 == 1) != ((another >> at) & 1 == 1) {
            1u32
        } else {
            0u32
        }) == (word >> at) & 1) by (bit_vector)
            requires
                at < 32,
                sum == a ^ 0xffff_ffff,
                another == b ^ 0xffff_ffff,
                word == a ^ b,
        ;
    }
    lemma_word_in(one, other, 32640, word, 31);
    lemma_moved_linear(31, 0, 0);
    lemma_linear(0, 0);
    let left = left_by(one, other, 32671);
    let bit = differs(one, other, 32671);
    assert(differs(one, other, 32640int + 31) == (word >> 31u32) & 1);
    lemma_plain(word);
    assert(left ^ bit == 0) by (bit_vector)
        requires
            left ^ (word >> 31u32) == 0,
            bit == (word >> 31u32) & 1,
    ;
}

/// Two flipped bits show, wherever they are: a block that was intact is not once any two bits of its
/// records and their checksum, and no others, are turned over.
pub proof fn law_two_flipped_bits_show(bytes: Seq<u8>, changed: Seq<u8>, p: int, q: int)
    requires
        stamped(bytes),
        0 <= p < q < 8 * 4084,
        forall|n: int|
            0 <= n < 8 * 4084 ==> (#[trigger] bit_at(bytes, n) != bit_at(changed, n) <==> n == p || n
                == q),
    ensures
        !stamped(changed),
{
    if stamped(changed) {
        lemma_both_intact(bytes, changed);
        lemma_two_bits(bytes, changed, p as nat, q as nat, 32672);
    }
}

/// A burst shows: a block that was intact is not once some of its records' and their checksum's bits are
/// turned over, all of them within thirty-two bits in a row. One flipped bit is such a burst.
pub proof fn law_a_burst_shows(bytes: Seq<u8>, changed: Seq<u8>, from: int, at: int)
    requires
        stamped(bytes),
        0 <= at < 8 * 4084,
        bit_at(bytes, at) != bit_at(changed, at),
        forall|n: int|
            0 <= n < 8 * 4084 && !(from <= n < from + 32) ==> #[trigger] bit_at(bytes, n) == bit_at(
                changed,
                n,
            ),
    ensures
        !stamped(changed),
{
    if stamped(changed) {
        lemma_both_intact(bytes, changed);
        let first: int = if from < 0 {
            0
        } else {
            from
        };
        let end: int = if from + 32 > 32672 {
            32672
        } else {
            from + 32
        };
        lemma_burst(bytes, changed, first as nat, end as nat, 32672, at);
    }
}

/// A byte that changed shows: a block that was intact is not once any byte of its records or of their
/// checksum is another.
pub proof fn law_a_changed_byte_shows(bytes: Seq<u8>, at: int, value: u8)
    requires
        stamped(bytes),
        0 <= at < 4084,
        value != bytes[at],
    ensures
        !stamped(bytes.update(at, value)),
{
    let changed = bytes.update(at, value);
    let had = bytes[at];
    assert(exists|b: u8| b < 8 && (#[trigger] (had >> b) & 1) != (value >> b) & 1) by {
        assert(((had >> 0u8) & 1) != ((value >> 0u8) & 1) || ((had >> 1u8) & 1) != ((value >> 1u8) & 1)
            || ((had >> 2u8) & 1) != ((value >> 2u8) & 1) || ((had >> 3u8) & 1) != ((value >> 3u8) & 1)
            || ((had >> 4u8) & 1) != ((value >> 4u8) & 1) || ((had >> 5u8) & 1) != ((value >> 5u8) & 1)
            || ((had >> 6u8) & 1) != ((value >> 6u8) & 1) || ((had >> 7u8) & 1) != ((value >> 7u8) & 1))
            by (bit_vector)
            requires
                had != value,
        ;
    }
    let b = choose|b: u8| b < 8 && (#[trigger] (had >> b) & 1) != (value >> b) & 1;
    let n = 8 * at + b;
    assert(n / 8 == at && n % 8 == b);
    assert(bit_at(bytes, n) != bit_at(changed, n)) by {
        let x = (had >> b) & 1;
        let y = (value >> b) & 1;
        assert(x <= 1 && y <= 1) by (bit_vector)
            requires
                x == (had >> b) & 1,
                y == (value >> b) & 1,
        ;
    }
    assert forall|m: int| 0 <= m < 8 * 4084 && !(8 * at <= m < 8 * at + 32) implies #[trigger] bit_at(
        bytes,
        m,
    ) == bit_at(changed, m) by {
        assert(m / 8 != at);
    }
    law_a_burst_shows(bytes, changed, 8 * at, n);
}

/// A block of zeroes, as a hole in a file reads, is not intact.
pub proof fn law_a_block_of_zeroes_is_not_intact()
    ensures
        !stamped(Seq::new(4096, |i: int| 0u8)),
{
    let zeroes = Seq::new(4096, |i: int| 0u8);
    if stamped(zeroes) {
        let sum = crc32c_of(zeroes.subrange(0, 4080));
        let first = zeroes.subrange(0, 4080);
        lemma_zeroes(first, 4080);
        assert(first.take(4080) =~= first);
        let at = zeroes.subrange(4080, 4084);
        assert(at[0] == 0 && at[1] == 0 && at[2] == 0 && at[3] == 0);
        let left = crc_over(first);
        assert(left == 0xffff_ffff) by (bit_vector)
            requires
                sum == left ^ 0xffff_ffff,
                (sum & 0xff) as u8 == 0,
                ((sum >> 8) & 0xff) as u8 == 0,
                ((sum >> 16) & 0xff) as u8 == 0,
                ((sum >> 24) & 0xff) as u8 == 0,
        ;
        lemma_first_moves();
        lemma_not_round(32640, 0xffff_ffff);
    }
}

proof fn lemma_zeroes(bytes: Seq<u8>, n: nat)
    requires
        n <= bytes.len(),
        forall|i: int| 0 <= i < bytes.len() ==> #[trigger] bytes[i] == 0,
    ensures
        crc_over(bytes.take(n as int)) == moved(8 * n, 0xffff_ffff),
    decreases n,
{
    if n > 0 {
        let k = (n - 1) as nat;
        lemma_zeroes(bytes, k);
        assert(bytes.take(n as int).drop_last() =~= bytes.take(k as int));
        let left = moved(8 * k, 0xffff_ffff);
        lemma_plain(left);
        reveal_with_fuel(moved, 9);
        assert(8 * n == 8 * k + 8);
    }
}

/// The sixty-four bits an amount is written as: its two's complement.
pub open spec fn amount_bits(amount: Amount) -> u64 {
    if amount >= 0 {
        amount as u64
    } else {
        (amount + 0x1_0000_0000_0000_0000) as u64
    }
}

/// The amount that sixty-four bits stand for.
pub open spec fn bits_amount(bits: u64) -> Amount {
    if bits < 0x8000_0000_0000_0000 {
        bits as i64
    } else {
        (bits - 0x1_0000_0000_0000_0000) as i64
    }
}

pub fn bits_of(amount: Amount) -> (bits: u64)
    ensures
        bits == amount_bits(amount),
{
    if amount >= 0 {
        amount as u64
    } else {
        u64::MAX - (-(amount + 1)) as u64
    }
}

pub fn amount_of(bits: u64) -> (amount: Amount)
    ensures
        amount == bits_amount(bits),
{
    if bits < 0x8000_0000_0000_0000 {
        bits as i64
    } else {
        -((u64::MAX - bits) as i64) - 1
    }
}

/// The eighty bytes of a record: the key and the hold's fields one after another, each
/// little-endian.
pub open spec fn record_bytes(key: TxId, hold: HoldData) -> Seq<u8> {
    spec_u128_to_le_bytes(key.0)
        + spec_u64_to_le_bytes(hold.debit_account.0)
        + spec_u64_to_le_bytes(hold.credit_account.0)
        + spec_u64_to_le_bytes(amount_bits(hold.amount))
        + spec_u64_to_le_bytes(amount_bits(hold.remaining))
        + spec_u32_to_le_bytes(hold.ledger)
        + spec_u128_to_le_bytes(hold.budget.0)
        + spec_u32_to_le_bytes(hold.budget_members)
        + spec_u64_to_le_bytes(amount_bits(hold.budget_remaining))
}

/// What eighty bytes say as a record.
pub open spec fn record_of(bytes: Seq<u8>) -> (TxId, HoldData) {
    (
        TxId(spec_u128_from_le_bytes(bytes.subrange(0, 16))),
        HoldData {
            debit_account: AccountId(spec_u64_from_le_bytes(bytes.subrange(16, 24))),
            credit_account: AccountId(spec_u64_from_le_bytes(bytes.subrange(24, 32))),
            amount: bits_amount(spec_u64_from_le_bytes(bytes.subrange(32, 40))),
            remaining: bits_amount(spec_u64_from_le_bytes(bytes.subrange(40, 48))),
            ledger: spec_u32_from_le_bytes(bytes.subrange(48, 52)),
            budget: BudgetGroup(spec_u128_from_le_bytes(bytes.subrange(52, 68))),
            budget_members: spec_u32_from_le_bytes(bytes.subrange(68, 72)),
            budget_remaining: bits_amount(spec_u64_from_le_bytes(bytes.subrange(72, 80))),
        },
    )
}

/// Writes a record into its eighty bytes. Little-endian, stated rather than inherited: these bytes
/// are a format the moment the blocks leave this process.
pub fn encode(key: TxId, hold: &HoldData, into: &mut [u8])
    requires
        old(into)@.len() == RECORD_BYTES,
    ensures
        final(into)@ == record_bytes(key, *hold),
{
    let bytes = packed(key, hold);
    let mut i: usize = 0;
    while i < RECORD_BYTES
        invariant
            i <= RECORD_BYTES,
            into@.len() == RECORD_BYTES,
            bytes@.len() == RECORD_BYTES,
            forall|j: int| 0 <= j < i ==> into@[j] == bytes@[j],
        decreases RECORD_BYTES - i,
    {
        into[i] = bytes[i];
        i += 1;
    }
    assert(into@ =~= bytes@);
}

fn packed(key: TxId, hold: &HoldData) -> (bytes: Vec<u8>)
    ensures
        bytes@ == record_bytes(key, *hold),
        bytes@.len() == RECORD_BYTES,
{
    let mut bytes = u128_to_le_bytes(key.0);
    let mut part = u64_to_le_bytes(hold.debit_account.0);
    bytes.append(&mut part);
    let mut part = u64_to_le_bytes(hold.credit_account.0);
    bytes.append(&mut part);
    let mut part = u64_to_le_bytes(bits_of(hold.amount));
    bytes.append(&mut part);
    let mut part = u64_to_le_bytes(bits_of(hold.remaining));
    bytes.append(&mut part);
    let mut part = u32_to_le_bytes(hold.ledger);
    bytes.append(&mut part);
    let mut part = u128_to_le_bytes(hold.budget.0);
    bytes.append(&mut part);
    let mut part = u32_to_le_bytes(hold.budget_members);
    bytes.append(&mut part);
    let mut part = u64_to_le_bytes(bits_of(hold.budget_remaining));
    bytes.append(&mut part);
    bytes
}

/// Reads the record that eighty bytes hold.
pub fn decode(bytes: &[u8], _from: RecordAddr) -> (record: (TxId, HoldData))
    requires
        bytes@.len() == RECORD_BYTES,
    ensures
        record == record_of(bytes@),
{
    let key = TxId(u128_from_le_bytes(&bytes[0..16]));
    let hold = HoldData {
        debit_account: AccountId(u64_from_le_bytes(&bytes[16..24])),
        credit_account: AccountId(u64_from_le_bytes(&bytes[24..32])),
        amount: amount_of(u64_from_le_bytes(&bytes[32..40])),
        remaining: amount_of(u64_from_le_bytes(&bytes[40..48])),
        ledger: u32_from_le_bytes(&bytes[48..52]),
        budget: BudgetGroup(u128_from_le_bytes(&bytes[52..68])),
        budget_members: u32_from_le_bytes(&bytes[68..72]),
        budget_remaining: amount_of(u64_from_le_bytes(&bytes[72..80])),
    };
    (key, hold)
}

/// A record survives the round trip field for field.
pub proof fn law_a_record_survives_the_round_trip(key: TxId, hold: HoldData)
    ensures
        record_bytes(key, hold).len() == RECORD_BYTES,
        record_of(record_bytes(key, hold)) == (key, hold),
{
    lemma_auto_spec_u32_to_from_le_bytes();
    lemma_auto_spec_u64_to_from_le_bytes();
    lemma_auto_spec_u128_to_from_le_bytes();
    let bytes = record_bytes(key, hold);
    assert(bytes.subrange(0, 16) =~= spec_u128_to_le_bytes(key.0));
    assert(bytes.subrange(16, 24) =~= spec_u64_to_le_bytes(hold.debit_account.0));
    assert(bytes.subrange(24, 32) =~= spec_u64_to_le_bytes(hold.credit_account.0));
    assert(bytes.subrange(32, 40) =~= spec_u64_to_le_bytes(amount_bits(hold.amount)));
    assert(bytes.subrange(40, 48) =~= spec_u64_to_le_bytes(amount_bits(hold.remaining)));
    assert(bytes.subrange(48, 52) =~= spec_u32_to_le_bytes(hold.ledger));
    assert(bytes.subrange(52, 68) =~= spec_u128_to_le_bytes(hold.budget.0));
    assert(bytes.subrange(68, 72) =~= spec_u32_to_le_bytes(hold.budget_members));
    assert(bytes.subrange(72, 80) =~= spec_u64_to_le_bytes(amount_bits(hold.budget_remaining)));
}

/// Eighty bytes are the record they hold, so two byte strings that hold one record are one string.
pub proof fn law_a_record_is_its_bytes(bytes: Seq<u8>)
    requires
        bytes.len() == RECORD_BYTES,
    ensures
        record_bytes(record_of(bytes).0, record_of(bytes).1) == bytes,
{
    lemma_auto_spec_u32_to_from_le_bytes();
    lemma_auto_spec_u64_to_from_le_bytes();
    lemma_auto_spec_u128_to_from_le_bytes();
    let (key, hold) = record_of(bytes);
    assert(bytes =~= bytes.subrange(0, 16) + bytes.subrange(16, 24) + bytes.subrange(24, 32)
        + bytes.subrange(32, 40) + bytes.subrange(40, 48) + bytes.subrange(48, 52)
        + bytes.subrange(52, 68) + bytes.subrange(68, 72) + bytes.subrange(72, 80));
}

/// A record's fields stand at their own places, one behind the other, and no two share a byte.
pub proof fn law_a_records_fields_stand_at_their_places(key: TxId, hold: HoldData)
    ensures
        ({
            let bytes = record_bytes(key, hold);
            &&& bytes.len() == 80
            &&& bytes.subrange(0, 16) == spec_u128_to_le_bytes(key.0)
            &&& bytes.subrange(16, 24) == spec_u64_to_le_bytes(hold.debit_account.0)
            &&& bytes.subrange(24, 32) == spec_u64_to_le_bytes(hold.credit_account.0)
            &&& hold.amount >= 0 ==> bytes.subrange(32, 40) == spec_u64_to_le_bytes(hold.amount as u64)
            &&& hold.remaining >= 0 ==> bytes.subrange(40, 48) == spec_u64_to_le_bytes(
                hold.remaining as u64,
            )
            &&& bytes.subrange(48, 52) == spec_u32_to_le_bytes(hold.ledger)
            &&& bytes.subrange(52, 68) == spec_u128_to_le_bytes(hold.budget.0)
            &&& bytes.subrange(68, 72) == spec_u32_to_le_bytes(hold.budget_members)
            &&& hold.budget_remaining >= 0 ==> bytes.subrange(72, 80) == spec_u64_to_le_bytes(
                hold.budget_remaining as u64,
            )
        }),
{
    lemma_auto_spec_u32_to_from_le_bytes();
    lemma_auto_spec_u64_to_from_le_bytes();
    lemma_auto_spec_u128_to_from_le_bytes();
    let bytes = record_bytes(key, hold);
    assert(bytes.subrange(0, 16) =~= spec_u128_to_le_bytes(key.0));
    assert(bytes.subrange(16, 24) =~= spec_u64_to_le_bytes(hold.debit_account.0));
    assert(bytes.subrange(24, 32) =~= spec_u64_to_le_bytes(hold.credit_account.0));
    assert(bytes.subrange(32, 40) =~= spec_u64_to_le_bytes(amount_bits(hold.amount)));
    assert(bytes.subrange(40, 48) =~= spec_u64_to_le_bytes(amount_bits(hold.remaining)));
    assert(bytes.subrange(48, 52) =~= spec_u32_to_le_bytes(hold.ledger));
    assert(bytes.subrange(52, 68) =~= spec_u128_to_le_bytes(hold.budget.0));
    assert(bytes.subrange(68, 72) =~= spec_u32_to_le_bytes(hold.budget_members));
    assert(bytes.subrange(72, 80) =~= spec_u64_to_le_bytes(amount_bits(hold.budget_remaining)));
}

/// An amount is kept as its two's complement: the same bits, and every word of bits is some amount's.
pub proof fn law_an_amount_keeps_its_sign(amount: Amount, bits: u64)
    ensures
        bits_amount(amount_bits(amount)) == amount,
        amount_bits(bits_amount(bits)) == bits,
        amount >= 0 ==> amount_bits(amount) == amount,
        amount < 0 ==> amount_bits(amount) - amount == 0x1_0000_0000_0000_0000,
{
}

} // verus!
