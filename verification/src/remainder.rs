//! The remainder behind a block's checksum, and the changes that cannot leave it as it was.

use vstd::prelude::*;

verus! {

/// The Castagnoli polynomial, in reversed bit order.
pub const POLYNOMIAL: u32 = 0x82F6_3B78;

/// The remainder that stands for one.
pub const UNIT: u32 = 0x8000_0000;

/// How many bits a remainder is moved on by before every remainder comes round to itself.
pub const PERIOD: u32 = 0x7fff_ffff;

/// A remainder moved on by one bit.
pub open spec fn crc_bit(crc: u32) -> u32 {
    if crc & 1 == 0 {
        crc >> 1
    } else {
        (crc >> 1) ^ POLYNOMIAL
    }
}

/// A remainder moved on by one byte.
pub open spec fn crc_byte(crc: u32, byte: u8) -> u32 {
    crc_bit(crc_bit(crc_bit(crc_bit(crc_bit(crc_bit(crc_bit(crc_bit(crc ^ (byte as u32)))))))))
}

/// The remainder of some bytes, which starts with every bit set.
pub open spec fn crc_over(bytes: Seq<u8>) -> u32
    decreases bytes.len(),
{
    if bytes.len() == 0 {
        0xffff_ffff
    } else {
        crc_byte(crc_over(bytes.drop_last()), bytes.last())
    }
}

/// The CRC-32C of some bytes: their remainder, every bit turned over.
pub open spec fn crc32c_of(bytes: Seq<u8>) -> u32 {
    crc_over(bytes) ^ 0xffff_ffff
}

/// A remainder moved on by some bits, none of them set.
pub open spec fn moved(n: nat, crc: u32) -> u32
    decreases n,
{
    if n == 0 {
        crc
    } else {
        crc_bit(moved((n - 1) as nat, crc))
    }
}

/// Whether a bit is set, counting from the lowest of the first byte.
pub open spec fn bit_at(bytes: Seq<u8>, n: int) -> bool {
    (bytes[n / 8] >> ((n % 8) as u8)) & 1 == 1
}

/// What leaves a word as it is, and what leaves nothing of it.
pub proof fn lemma_plain(word: u32)
    ensures
        word ^ 0 == word,
        0 ^ word == word,
        word ^ word == 0,
        word >> 0u32 == word,
        word << 0u32 == word,
{
    assert(word ^ 0 == word && 0 ^ word == word && word ^ word == 0 && word >> 0u32 == word && word
        << 0u32 == word) by (bit_vector);
}

/// Where some remainders are moved on to.
pub proof fn lemma_first_moves()
    ensures
        crc_bit(UNIT) == 0x4000_0000,
        crc_bit(1) == POLYNOMIAL,
        crc_bit(0xffff_ffff) != 0xffff_ffff,
{
    assert(crc_bit(UNIT) == 0x4000_0000 && crc_bit(1) == POLYNOMIAL && crc_bit(0xffff_ffff)
        != 0xffff_ffff) by (bit_vector);
}

/// The bits are moved on one by one.
pub proof fn lemma_linear(one: u32, other: u32)
    ensures
        crc_bit(one ^ other) == crc_bit(one) ^ crc_bit(other),
        crc_bit(0) == 0,
{
    assert(crc_bit(one ^ other) == crc_bit(one) ^ crc_bit(other) && crc_bit(0) == 0) by (bit_vector);
}

/// No two remainders are moved on to one.
proof fn lemma_bit(one: u32, other: u32)
    requires
        crc_bit(one) == crc_bit(other),
    ensures
        one == other,
{
    assert(crc_bit(one) == crc_bit(other) ==> one == other) by (bit_vector);
}

proof fn lemma_moved_sum(a: nat, b: nat, crc: u32)
    ensures
        moved(a + b, crc) == moved(a, moved(b, crc)),
    decreases a,
{
    if a > 0 {
        lemma_moved_sum((a - 1) as nat, b, crc);
        assert((a + b - 1) as nat == (a - 1) as nat + b);
    }
}

pub proof fn lemma_moved_linear(n: nat, one: u32, other: u32)
    ensures
        moved(n, one ^ other) == moved(n, one) ^ moved(n, other),
        moved(n, 0) == 0,
    decreases n,
{
    if n > 0 {
        lemma_moved_linear((n - 1) as nat, one, other);
        lemma_linear(moved((n - 1) as nat, one), moved((n - 1) as nat, other));
    }
}

proof fn lemma_moved_apart(n: nat, one: u32, other: u32)
    requires
        moved(n, one) == moved(n, other),
    ensures
        one == other,
    decreases n,
{
    if n > 0 {
        lemma_bit(moved((n - 1) as nat, one), moved((n - 1) as nat, other));
        lemma_moved_apart((n - 1) as nat, one, other);
    }
}

/// A product taken on by one more bit of its second factor.
pub open spec fn times_bit(product: u32, one: u32, other: u32, j: u32) -> u32 {
    crc_bit(product) ^ (if (other >> j) & 1 == 1 {
        one
    } else {
        0
    })
}

/// A product taken on by eight more bits of its second factor.
pub open spec fn times_byte(product: u32, one: u32, other: u32, j: u32) -> u32 {
    let p = times_bit(product, one, other, j);
    let p = times_bit(p, one, other, (j + 1) as u32);
    let p = times_bit(p, one, other, (j + 2) as u32);
    let p = times_bit(p, one, other, (j + 3) as u32);
    let p = times_bit(p, one, other, (j + 4) as u32);
    let p = times_bit(p, one, other, (j + 5) as u32);
    let p = times_bit(p, one, other, (j + 6) as u32);
    times_bit(p, one, other, (j + 7) as u32)
}

/// The product of two remainders.
pub open spec fn times(one: u32, other: u32) -> u32 {
    times_byte(
        times_byte(times_byte(times_byte(0, one, other, 0), one, other, 8), one, other, 16),
        one,
        other,
        24,
    )
}

/// The lowest few bits of a remainder, moved to its top.
spec fn topped(crc: u32, m: u32) -> u32 {
    if m == 0 {
        0
    } else {
        crc << ((32 - m) as u32)
    }
}

proof fn lemma_times_bit(n: nat, crc: u32, m: u32, product: u32)
    requires
        m < 32,
        product == moved(n, topped(crc, m)),
    ensures
        times_bit(product, moved(n, UNIT), crc, m) == moved(n, topped(crc, (m + 1) as u32)),
{
    let low = topped(crc, m);
    let top: u32 = if (crc >> m) & 1 == 1 {
        UNIT
    } else {
        0
    };
    let next = (m + 1) as u32;
    assert(topped(crc, next) == crc_bit(low) ^ top) by {
        assert((if next == 0 {
            0u32
        } else {
            crc << ((32 - next) as u32)
        }) == crc_bit(low) ^ top) by (bit_vector)
            requires
                m < 32,
                next == m + 1,
                low == (if m == 0 {
                    0u32
                } else {
                    crc << ((32 - m) as u32)
                }),
                top == (if (crc >> m) & 1 == 1 {
                    0x8000_0000u32
                } else {
                    0u32
                }),
        ;
    }
    lemma_moved_linear(n, crc_bit(low), top);
    assert(moved(n, crc_bit(low)) == crc_bit(moved(n, low))) by {
        lemma_moved_sum(n, 1, low);
        lemma_moved_sum(1, n, low);
        reveal_with_fuel(moved, 2);
        assert(moved(1, moved(n, low)) == crc_bit(moved(n, low)));
        assert(moved(1, low) == crc_bit(low));
    }
}

proof fn lemma_times_byte(n: nat, crc: u32, m: u32, product: u32)
    requires
        m <= 24,
        product == moved(n, topped(crc, m)),
    ensures
        times_byte(product, moved(n, UNIT), crc, m) == moved(n, topped(crc, (m + 8) as u32)),
{
    let a = moved(n, UNIT);
    let p = times_bit(product, a, crc, m);
    lemma_times_bit(n, crc, m, product);
    let q = times_bit(p, a, crc, (m + 1) as u32);
    lemma_times_bit(n, crc, (m + 1) as u32, p);
    let r = times_bit(q, a, crc, (m + 2) as u32);
    lemma_times_bit(n, crc, (m + 2) as u32, q);
    let s = times_bit(r, a, crc, (m + 3) as u32);
    lemma_times_bit(n, crc, (m + 3) as u32, r);
    let t = times_bit(s, a, crc, (m + 4) as u32);
    lemma_times_bit(n, crc, (m + 4) as u32, s);
    let u = times_bit(t, a, crc, (m + 5) as u32);
    lemma_times_bit(n, crc, (m + 5) as u32, t);
    let v = times_bit(u, a, crc, (m + 6) as u32);
    lemma_times_bit(n, crc, (m + 6) as u32, u);
    lemma_times_bit(n, crc, (m + 7) as u32, v);
}

/// To move a remainder on is to multiply it.
proof fn lemma_times(n: nat, crc: u32)
    ensures
        moved(n, crc) == times(moved(n, UNIT), crc),
{
    let a = moved(n, UNIT);
    lemma_moved_linear(n, 0, 0);
    let p = times_byte(0, a, crc, 0);
    lemma_times_byte(n, crc, 0, 0);
    let q = times_byte(p, a, crc, 8);
    lemma_times_byte(n, crc, 8, p);
    let r = times_byte(q, a, crc, 16);
    lemma_times_byte(n, crc, 16, q);
    lemma_times_byte(n, crc, 24, r);
    lemma_plain(crc);
}

/// Twice as far is the square.
proof fn lemma_square(n: nat, power: u32)
    requires
        moved(n, UNIT) == power,
    ensures
        moved(2 * n, UNIT) == times(power, power),
{
    lemma_moved_sum(n, n, UNIT);
    lemma_times(n, power);
}

/// Moved on by the period, a remainder comes round to itself.
proof fn lemma_comes_round(crc: u32)
    ensures
        moved(PERIOD as nat, crc) == crc,
{
    reveal_with_fuel(moved, 2);
    lemma_first_moves();
    assert(moved(1, UNIT) == 0x4000_0000);
    assert({
        &&& times(0x4000_0000, 0x4000_0000) == 0x2000_0000
        &&& times(0x2000_0000, 0x2000_0000) == 0x0800_0000
        &&& times(0x0800_0000, 0x0800_0000) == 0x0080_0000
        &&& times(0x0080_0000, 0x0080_0000) == 0x0000_8000
        &&& times(0x0000_8000, 0x0000_8000) == 0x82f6_3b78
        &&& times(0x82f6_3b78, 0x82f6_3b78) == 0x6ea2_d55c
        &&& times(0x6ea2_d55c, 0x6ea2_d55c) == 0x18b8_ea18
        &&& times(0x18b8_ea18, 0x18b8_ea18) == 0x510a_c59a
        &&& times(0x510a_c59a, 0x510a_c59a) == 0xb82b_e955
        &&& times(0xb82b_e955, 0xb82b_e955) == 0xb8fd_b1e7
        &&& times(0xb8fd_b1e7, 0xb8fd_b1e7) == 0x88e5_6f72
        &&& times(0x88e5_6f72, 0x88e5_6f72) == 0x74c3_60a4
        &&& times(0x74c3_60a4, 0x74c3_60a4) == 0xe417_2b16
        &&& times(0xe417_2b16, 0xe417_2b16) == 0x0d65_762a
        &&& times(0x0d65_762a, 0x0d65_762a) == 0x35d7_3a62
        &&& times(0x35d7_3a62, 0x35d7_3a62) == 0x2846_1564
    }) by (bit_vector);
    assert({
        &&& times(0x2846_1564, 0x2846_1564) == 0xbf45_5269
        &&& times(0xbf45_5269, 0xbf45_5269) == 0xe2ea_32dc
        &&& times(0xe2ea_32dc, 0xe2ea_32dc) == 0xfe77_40e6
        &&& times(0xfe77_40e6, 0xfe77_40e6) == 0xf946_610b
        &&& times(0xf946_610b, 0xf946_610b) == 0x3c20_4f8f
        &&& times(0x3c20_4f8f, 0x3c20_4f8f) == 0x5385_86e3
        &&& times(0x5385_86e3, 0x5385_86e3) == 0x5972_6915
        &&& times(0x5972_6915, 0x5972_6915) == 0x734d_5309
        &&& times(0x734d_5309, 0x734d_5309) == 0xbc1a_c763
        &&& times(0xbc1a_c763, 0xbc1a_c763) == 0x7d07_22cc
        &&& times(0x7d07_22cc, 0x7d07_22cc) == 0xd289_cabe
        &&& times(0xd289_cabe, 0xd289_cabe) == 0xe94c_a9bc
        &&& times(0xe94c_a9bc, 0xe94c_a9bc) == 0x05b7_4f3f
        &&& times(0x05b7_4f3f, 0x05b7_4f3f) == 0xa51e_1f42
        &&& times(0xa51e_1f42, 0xa51e_1f42) == 0x4000_0000
    }) by (bit_vector);
    lemma_square(0x1, 0x4000_0000);
    lemma_square(0x2, 0x2000_0000);
    lemma_square(0x4, 0x0800_0000);
    lemma_square(0x8, 0x0080_0000);
    lemma_square(0x10, 0x0000_8000);
    lemma_square(0x20, 0x82f6_3b78);
    lemma_square(0x40, 0x6ea2_d55c);
    lemma_square(0x80, 0x18b8_ea18);
    lemma_square(0x100, 0x510a_c59a);
    lemma_square(0x200, 0xb82b_e955);
    lemma_square(0x400, 0xb8fd_b1e7);
    lemma_square(0x800, 0x88e5_6f72);
    lemma_square(0x1000, 0x74c3_60a4);
    lemma_square(0x2000, 0xe417_2b16);
    lemma_square(0x4000, 0x0d65_762a);
    lemma_square(0x8000, 0x35d7_3a62);
    lemma_square(0x1_0000, 0x2846_1564);
    lemma_square(0x2_0000, 0xbf45_5269);
    lemma_square(0x4_0000, 0xe2ea_32dc);
    lemma_square(0x8_0000, 0xfe77_40e6);
    lemma_square(0x10_0000, 0xf946_610b);
    lemma_square(0x20_0000, 0x3c20_4f8f);
    lemma_square(0x40_0000, 0x5385_86e3);
    lemma_square(0x80_0000, 0x5972_6915);
    lemma_square(0x100_0000, 0x734d_5309);
    lemma_square(0x200_0000, 0xbc1a_c763);
    lemma_square(0x400_0000, 0x7d07_22cc);
    lemma_square(0x800_0000, 0xd289_cabe);
    lemma_square(0x1000_0000, 0xe94c_a9bc);
    lemma_square(0x2000_0000, 0x05b7_4f3f);
    lemma_square(0x4000_0000, 0xa51e_1f42);
    assert(moved(0x8000_0000, UNIT) == crc_bit(moved(PERIOD as nat, UNIT)));
    lemma_bit(moved(PERIOD as nat, UNIT), UNIT);
    lemma_times(PERIOD as nat, crc);
    lemma_times(0, crc);
}

/// The period has no divisor that a block's bits could count.
#[verifier::rlimit(60)]
proof fn lemma_undivided(e: u32, q: u32)
    requires
        2 <= e < 0x8000,
    ensures
        e * q != PERIOD,
{
    if e * q == PERIOD {
        assert(q < 0x4000_0000) by (nonlinear_arith)
            requires
                e >= 2,
                e * q == 0x7fff_ffff,
        ;
        assert(e & 7 != 1) by (bit_vector)
            requires
                2 <= e < 0x8000,
                q < 0x4000_0000,
                e * q == 0x7fff_ffff,
        ;
        assert(e & 7 != 3) by (bit_vector)
            requires
                2 <= e < 0x8000,
                q < 0x4000_0000,
                e * q == 0x7fff_ffff,
        ;
        assert(e & 7 != 5) by (bit_vector)
            requires
                2 <= e < 0x8000,
                q < 0x4000_0000,
                e * q == 0x7fff_ffff,
        ;
        assert(e & 7 != 7) by (bit_vector)
            requires
                2 <= e < 0x8000,
                q < 0x4000_0000,
                e * q == 0x7fff_ffff,
        ;
        assert(e & 7 == 1 || e & 7 == 3 || e & 7 == 5 || e & 7 == 7) by (bit_vector)
            requires
                e * q == 0x7fff_ffff,
        ;
    }
}

proof fn lemma_rounds(e: nat, q: nat, crc: u32)
    requires
        moved(e, crc) == crc,
    ensures
        moved(e * q, crc) == crc,
    decreases q,
{
    if q > 0 {
        lemma_rounds(e, (q - 1) as nat, crc);
        assert(e * q == e * (q - 1) as nat + e) by (nonlinear_arith)
            requires
                q > 0,
        ;
        lemma_moved_sum(e * (q - 1) as nat, e, crc);
    } else {
        assert(e * q == 0) by (nonlinear_arith)
            requires
                q == 0,
        ;
    }
}

/// A remainder that moves at all does not come round to itself within a block.
pub proof fn lemma_not_round(e: nat, crc: u32)
    requires
        0 < e < 0x8000,
        crc_bit(crc) != crc,
    ensures
        moved(e, crc) != crc,
    decreases e,
{
    if moved(e, crc) == crc {
        let q = PERIOD as nat / e;
        let r = PERIOD as nat % e;
        assert(e * q + r == PERIOD && r < e && q <= PERIOD) by (nonlinear_arith)
            requires
                e > 0,
                q == PERIOD as nat / e,
                r == PERIOD as nat % e,
        ;
        lemma_rounds(e, q, crc);
        lemma_comes_round(crc);
        lemma_moved_sum(r, e * q, crc);
        if r > 0 {
            lemma_not_round(r, crc);
        } else if e == 1 {
            reveal_with_fuel(moved, 2);
        } else {
            lemma_undivided(e as u32, q as u32);
        }
    }
}

/// One where two rows of bytes differ in a bit, and zero where they agree.
pub open spec fn differs(one: Seq<u8>, other: Seq<u8>, n: int) -> u32 {
    if bit_at(one, n) != bit_at(other, n) {
        1
    } else {
        0
    }
}

/// What the first few bits of two rows of bytes leave their remainders apart by.
pub open spec fn left_by(one: Seq<u8>, other: Seq<u8>, n: nat) -> u32
    decreases n,
{
    if n == 0 {
        0
    } else {
        crc_bit(left_by(one, other, (n - 1) as nat) ^ differs(one, other, n - 1))
    }
}

/// Bits that agree only move on what is left.
pub proof fn lemma_agreeing(one: Seq<u8>, other: Seq<u8>, from: nat, to: nat)
    requires
        from <= to,
        forall|n: int| from <= n < to ==> #[trigger] bit_at(one, n) == bit_at(other, n),
    ensures
        left_by(one, other, to) == moved((to - from) as nat, left_by(one, other, from)),
    decreases to,
{
    if from < to {
        lemma_agreeing(one, other, from, (to - 1) as nat);
        let left = left_by(one, other, (to - 1) as nat);
        assert(bit_at(one, to - 1) == bit_at(other, to - 1));
        lemma_plain(left);
    }
}

/// A word's next bit is taken in: what is left, with the rest of the word over it, is moved on.
pub proof fn lemma_taken_in(left: u32, word: u32, j: u32)
    requires
        j < 31,
    ensures
        crc_bit(left ^ ((word >> j) & 1)) ^ (word >> ((j + 1) as u32)) == crc_bit(left ^ (word >> j)),
{
    let next = (j + 1) as u32;
    assert(crc_bit(left ^ ((word >> j) & 1)) ^ (word >> next) == crc_bit(left ^ (word >> j)))
        by (bit_vector)
        requires
            j < 31,
            next == j + 1,
    ;
}

/// Bits that spell a word are taken in: with the rest of the word over it, what was left is moved on.
pub proof fn lemma_word_in(one: Seq<u8>, other: Seq<u8>, from: nat, word: u32, m: nat)
    requires
        m < 32,
        forall|j: int|
            0 <= j < m ==> #[trigger] differs(one, other, from + j) == (word >> (j as u32)) & 1,
    ensures
        left_by(one, other, from + m) ^ (word >> (m as u32)) == moved(
            m,
            left_by(one, other, from) ^ word,
        ),
    decreases m,
{
    if m > 0 {
        let j = (m - 1) as nat;
        lemma_word_in(one, other, from, word, j);
        let left = left_by(one, other, from + j);
        assert(differs(one, other, from + j as int) == (word >> (j as u32)) & 1);
        assert((from + m - 1) as nat == from + j);
        lemma_taken_in(left, word, j as u32);
    } else {
        lemma_plain(word);
    }
}

proof fn lemma_byte_apart(one: u32, other: u32, byte: u8, another: u8)
    ensures
        crc_byte(one, byte) ^ crc_byte(other, another) == moved(
            8,
            (one ^ other) ^ ((byte ^ another) as u32),
        ),
{
    let a = one ^ (byte as u32);
    let b = other ^ (another as u32);
    reveal_with_fuel(moved, 9);
    assert(crc_byte(one, byte) == moved(8, a));
    assert(crc_byte(other, another) == moved(8, b));
    lemma_moved_linear(8, a, b);
    assert((one ^ (byte as u32)) ^ (other ^ (another as u32)) == (one ^ other) ^ ((byte ^ another) as u32))
        by (bit_vector);
}

/// The remainders of two rows of bytes are apart by what their bits leave.
pub proof fn lemma_apart(one: Seq<u8>, other: Seq<u8>, n: nat)
    requires
        n <= one.len(),
        n <= other.len(),
    ensures
        crc_over(one.take(n as int)) ^ crc_over(other.take(n as int)) == left_by(one, other, 8 * n),
    decreases n,
{
    if n == 0 {
        lemma_plain(0xffff_ffff);
    } else {
        let k = (n - 1) as nat;
        lemma_apart(one, other, k);
        assert(one.take(n as int).drop_last() =~= one.take(k as int));
        assert(other.take(n as int).drop_last() =~= other.take(k as int));
        let byte = one[k as int];
        let another = other[k as int];
        lemma_byte_apart(crc_over(one.take(k as int)), crc_over(other.take(k as int)), byte, another);
        let word = (byte ^ another) as u32;
        assert forall|j: int| 0 <= j < 8 implies #[trigger] differs(one, other, 8 * k + j) == (word >> (
        j as u32)) & 1 by {
            assert((8 * k + j) / 8 == k && (8 * k + j) % 8 == j);
            let at = j as u8;
            let wide = j as u32;
            assert((if ((byte >> at) & 1 == 1) != ((another >> at) & 1 == 1) {
                1u32
            } else {
                0u32
            }) == (((byte ^ another) as u32) >> wide) & 1) by (bit_vector)
                requires
                    at < 8,
                    wide == at,
            ;
        }
        lemma_word_in(one, other, 8 * k, word, 8);
        let left = left_by(one, other, 8 * n);
        assert(left ^ (word >> 8) == left) by (bit_vector)
            requires
                word < 0x100,
        ;
    }
}

/// Two bits that differ, and no others, leave something.
pub proof fn lemma_two_bits(one: Seq<u8>, other: Seq<u8>, p: nat, q: nat, end: nat)
    requires
        p < q < end < 0x8000,
        forall|n: int|
            0 <= n < end ==> (#[trigger] bit_at(one, n) != bit_at(other, n) <==> n == p || n == q),
    ensures
        left_by(one, other, end) != 0,
{
    lemma_agreeing(one, other, 0, p);
    lemma_moved_linear(p, 0, 0);
    assert(bit_at(one, p as int) != bit_at(other, p as int));
    lemma_plain(1);
    assert(left_by(one, other, p + 1) == crc_bit(1));
    lemma_agreeing(one, other, p + 1, q);
    let apart = (q - p) as nat;
    assert(moved(apart, 1) == left_by(one, other, q)) by {
        lemma_moved_sum((apart - 1) as nat, 1, 1);
        reveal_with_fuel(moved, 2);
        assert(moved(1, 1) == crc_bit(1));
    }
    let left = left_by(one, other, q);
    assert(bit_at(one, q as int) != bit_at(other, q as int));
    assert(left_by(one, other, q + 1) == crc_bit(left ^ 1));
    lemma_agreeing(one, other, q + 1, end);
    if left_by(one, other, end) == 0 {
        lemma_moved_linear((end - q - 1) as nat, 0, 0);
        lemma_moved_apart((end - q - 1) as nat, crc_bit(left ^ 1), 0);
        lemma_linear(0, 0);
        lemma_bit(left ^ 1, 0);
        assert(left == 1) by (bit_vector)
            requires
                left ^ 1 == 0,
        ;
        lemma_first_moves();
        lemma_not_round(apart, 1);
    }
}

/// What a few bits before nothing is left can have left: no more than those bits say.
proof fn lemma_before_nothing(one: Seq<u8>, other: Seq<u8>, end: nat, k: nat)
    requires
        k <= 31,
        k <= end,
        left_by(one, other, end) == 0,
    ensures
        (left_by(one, other, (end - k) as nat) as u64) < 1u64 << (k as u64),
    decreases k,
{
    if k == 0 {
        assert(1u64 << 0u64 == 1) by (bit_vector);
    } else {
        let shorter = (k - 1) as u64;
        let wide = k as u64;
        lemma_before_nothing(one, other, end, (k - 1) as nat);
        let n = (end - k) as nat;
        let left = left_by(one, other, n);
        let bit = differs(one, other, n as int);
        assert((end - (k - 1) as nat) as nat - 1 == n);
        assert((left as u64) < 1u64 << wide) by (bit_vector)
            requires
                shorter < 31,
                wide == shorter + 1,
                bit <= 1,
                (crc_bit(left ^ bit) as u64) < 1u64 << shorter,
        ;
    }
}

/// Bits that differ within one word's width, and nowhere else, leave something.
pub proof fn lemma_burst(one: Seq<u8>, other: Seq<u8>, from: nat, to: nat, end: nat, at: int)
    requires
        from <= at < to <= end,
        to - from <= 32,
        bit_at(one, at) != bit_at(other, at),
        forall|n: int|
            0 <= n < end && !(from <= n < to) ==> #[trigger] bit_at(one, n) == bit_at(other, n),
    ensures
        left_by(one, other, end) != 0,
{
    if left_by(one, other, end) == 0 {
        lemma_agreeing(one, other, 0, from);
        lemma_moved_linear(from, 0, 0);
        lemma_agreeing(one, other, to, end);
        lemma_moved_linear((end - to) as nat, 0, 0);
        lemma_moved_apart((end - to) as nat, left_by(one, other, to), 0);
        lemma_nothing_between(one, other, from, to, at as nat);
    }
}

/// Where nothing is left on both sides of a word's width of bits, none of those bits differ.
proof fn lemma_nothing_between(one: Seq<u8>, other: Seq<u8>, from: nat, to: nat, at: nat)
    requires
        from <= at < to,
        to - from <= 32,
        left_by(one, other, from) == 0,
        left_by(one, other, to) == 0,
    ensures
        left_by(one, other, at) == 0,
        bit_at(one, at as int) == bit_at(other, at as int),
    decreases at,
{
    if from < at {
        lemma_nothing_between(one, other, from, to, (at - 1) as nat);
        lemma_linear(0, 0);
        lemma_plain(0);
    }
    let k = (to - at - 1) as nat;
    let wide = k as u64;
    lemma_before_nothing(one, other, to, k);
    assert((to - k) as nat == at + 1);
    if bit_at(one, at as int) != bit_at(other, at as int) {
        lemma_plain(1);
        lemma_first_moves();
        assert(left_by(one, other, at + 1) == crc_bit(left_by(one, other, at) ^ 1));
        assert(left_by(one, other, at + 1) == POLYNOMIAL);
        assert(0x82f6_3b78u64 >= 1u64 << wide) by (bit_vector)
            requires
                wide <= 31,
        ;
        assert(false);
    }
}

} // verus!
