//! Packing of integers at fixed bit widths, least significant bit first.

use vstd::arithmetic::div_mod::*;
use vstd::arithmetic::mul::*;
use vstd::arithmetic::power2::*;
use vstd::prelude::*;

use crate::error::LaurusError;

verus! {

/// The number that bytes spell, least significant byte first.
pub open spec fn le_value(s: Seq<u8>) -> nat
    decreases s.len(),
{
    if s.len() == 0 {
        0
    } else {
        le_value(s.drop_last()) + s.last() as nat * pow2(8 * (s.len() - 1) as nat)
    }
}

/// The `width` bits of `s` from bit `pos` on, as a number.
pub open spec fn bits_at(s: Seq<u8>, pos: nat, width: nat) -> nat {
    (le_value(s) / pow2(pos)) % pow2(width)
}

/// How many binary digits `v` has.
pub open spec fn bit_length(v: nat) -> nat
    decreases v,
{
    if v == 0 {
        0
    } else {
        1 + bit_length(v / 2)
    }
}

/// How many bytes `count` values of `bits` bits take.
pub open spec fn packed_len(count: nat, bits: nat) -> nat {
    (count * bits + 7) / 8
}

proof fn lemma_shl_is_pow2(n: u32)
    requires
        n < 128,
    ensures
        (1u128 << n) == pow2(n as nat),
    decreases n,
{
    if n == 0 {
        assert(1u128 << 0u32 == 1) by (bit_vector);
        lemma2_to64();
    } else {
        let m: u32 = (n - 1) as u32;
        lemma_shl_is_pow2(m);
        lemma_pow2_unfold(n as nat);
        assert((1u128 << n) == 2 * (1u128 << m)) by (bit_vector)
            requires
                n == m + 1,
                n < 128,
        ;
    }
}

/// Two to the power of `n`.
fn power_of_two(n: u32) -> (r: u128)
    requires
        n < 128,
    ensures
        r == pow2(n as nat),
        r >= 1,
{
    proof {
        lemma_shl_is_pow2(n);
        lemma_pow2_pos(n as nat);
    }
    1u128 << n
}

/// The number of `n` bytes is below two to the power of their bits.
pub proof fn lemma_le_value_bound(s: Seq<u8>)
    ensures
        le_value(s) < pow2(8 * s.len()),
    decreases s.len(),
{
    lemma2_to64();
    if s.len() > 0 {
        lemma_le_value_bound(s.drop_last());
        let k = 8 * (s.len() - 1) as nat;
        lemma_pow2_adds(k, 8);
        assert(s.last() as nat * pow2(k) <= 255 * pow2(k)) by (nonlinear_arith)
            requires
                s.last() <= 255,
                pow2(k) >= 0,
        ;
        assert(8 * s.len() == k + 8);
    }
}

/// The number of bytes of which some stand in front.
pub proof fn lemma_le_value_split(s: Seq<u8>, k: nat) -> (rest: nat)
    requires
        k <= s.len(),
    ensures
        le_value(s) == le_value(s.take(k as int)) + rest * pow2(8 * k),
    decreases s.len() - k,
{
    if k == s.len() {
        assert(s.take(k as int) =~= s);
        0
    } else {
        let r = lemma_le_value_split(s.drop_last(), k);
        assert(s.drop_last().take(k as int) =~= s.take(k as int));
        let e = (8 * (s.len() - 1)) as nat;
        lemma_pow2_adds(8 * k, (e - 8 * k) as nat);
        let extra = s.last() as nat * pow2((e - 8 * k) as nat);
        assert(s.last() as nat * pow2(e) == extra * pow2(8 * k)) by (nonlinear_arith)
            requires
                pow2(e) == pow2(8 * k) * pow2((e - 8 * k) as nat),
                extra == s.last() as nat * pow2((e - 8 * k) as nat),
        ;
        assert((r + extra) * pow2(8 * k) == r * pow2(8 * k) + extra * pow2(8 * k))
            by (nonlinear_arith);
        r + extra
    }
}

/// Adding a multiple of a higher power does not reach lower bits.
proof fn lemma_add_high(a: nat, b: nat, m: nat, k: nat)
    requires
        k <= m,
    ensures
        (a + b * pow2(m)) / pow2(k) == a / pow2(k) + b * pow2((m - k) as nat),
{
    lemma_pow2_pos(k);
    lemma_pow2_adds(k, (m - k) as nat);
    let j = (b * pow2((m - k) as nat)) as int;
    lemma_hoist_over_denominator(a as int, j, pow2(k));
    assert(b * pow2(m) == j * pow2(k)) by (nonlinear_arith)
        requires
            pow2(m) == pow2(k) * pow2((m - k) as nat),
            j == b * pow2((m - k) as nat),
    ;
}

/// A multiple of a power leaves no remainder by a lower one.
proof fn lemma_mod_high(a: nat, b: nat, m: nat, w: nat)
    requires
        w <= m,
    ensures
        (a + b * pow2(m)) % pow2(w) == a % pow2(w),
{
    lemma_pow2_pos(w);
    lemma_pow2_adds(w, (m - w) as nat);
    let c = (b * pow2((m - w) as nat)) as int;
    assert(b * pow2(m) == pow2(w) * c) by (nonlinear_arith)
        requires
            pow2(m) == pow2(w) * pow2((m - w) as nat),
            c == b * pow2((m - w) as nat),
    ;
    lemma_mod_multiples_vanish(c, a as int, pow2(w) as int);
}

/// How many bits writes take, each a value with its width.
pub open spec fn width_sum(ws: Seq<(u64, u8)>) -> nat
    decreases ws.len(),
{
    if ws.len() == 0 {
        0
    } else {
        width_sum(ws.drop_last()) + ws.last().1 as nat
    }
}

/// The number that writes spell: the low bits of each value, the first value in the
/// lowest bits.
pub open spec fn spelled_by(ws: Seq<(u64, u8)>) -> nat
    decreases ws.len(),
{
    if ws.len() == 0 {
        0
    } else {
        spelled_by(ws.drop_last()) + (ws.last().0 as nat % pow2(ws.last().1 as nat)) * pow2(
            width_sum(ws.drop_last()),
        )
    }
}

/// Whether these are the bytes of writes.
pub open spec fn is_packed(ws: Seq<(u64, u8)>, bytes: Seq<u8>) -> bool {
    &&& le_value(bytes) == spelled_by(ws)
    &&& bytes.len() == (width_sum(ws) + 7) / 8
}

/// Packs integers.
pub struct BitWriter {
    buf: Vec<u8>,
    acc: u128,
    acc_bits: u32,
}

impl BitWriter {
    /// The number that all bits written so far spell.
    pub closed spec fn value(&self) -> nat {
        le_value(self.buf@) + self.acc as nat * pow2(8 * self.buf@.len())
    }

    /// How many bits were written.
    pub closed spec fn bits(&self) -> nat {
        8 * self.buf@.len() + self.acc_bits as nat
    }

    /// Less than a byte is pending, and it holds no more than its bits.
    pub closed spec fn wf(&self) -> bool {
        &&& self.acc_bits < 8
        &&& self.acc < pow2(self.acc_bits as nat)
    }

    /// Whether the packer holds what these writes put into it, each a value with its
    /// width.
    pub open spec fn wrote(&self, ws: Seq<(u64, u8)>) -> bool {
        &&& self.wf()
        &&& self.value() == spelled_by(ws)
        &&& self.bits() == width_sum(ws)
    }

    /// A packer that nothing was written to.
    pub fn new() -> (r: BitWriter)
        ensures
            r.wf(),
            r.value() == 0,
            r.bits() == 0,
            r.wrote(Seq::empty()),
    {
        proof {
            lemma2_to64();
        }
        BitWriter { buf: Vec::new(), acc: 0, acc_bits: 0 }
    }

    /// Appends the low `width` bits of `value`.
    pub fn write(&mut self, value: u64, width: u8)
        requires
            old(self).wf(),
            width <= 64,
        ensures
            final(self).wf(),
            final(self).value() == old(self).value() + (value as nat % pow2(width as nat)) * pow2(
                old(self).bits(),
            ),
            final(self).bits() == old(self).bits() + width,
            forall|ws: Seq<(u64, u8)>| #[trigger]
                old(self).wrote(ws) ==> final(self).wrote(ws.push((value, width))),
    {
        let modulus: u128 = power_of_two(width as u32);
        let scale: u128 = power_of_two(self.acc_bits);
        let low: u128 = value as u128 % modulus;
        let ghost bytes = self.buf@.len();
        let ghost k = self.acc_bits as nat;
        let ghost w = width as nat;
        proof {
            lemma_pow2_adds(k, w);
            lemma_pow2_adds(8 * bytes, k);
            lemma_pow2_strictly_increases((k + w) as nat, 72);
            lemma2_to64_rest();
            lemma2_to64();
            lemma_pow2_adds(64, 8);
            assert(low * scale <= (pow2(w) - 1) * pow2(k)) by (nonlinear_arith)
                requires
                    low <= pow2(w) - 1,
                    scale == pow2(k),
            ;
            assert((pow2(w) - 1) * pow2(k) + pow2(k) == pow2(k + w)) by (nonlinear_arith)
                requires
                    pow2(k + w) == pow2(k) * pow2(w),
            ;
            assert((low * scale) * pow2(8 * bytes) == low * pow2(self.bits())) by (nonlinear_arith)
                requires
                    scale == pow2(k),
                    pow2(self.bits()) == pow2(8 * bytes) * pow2(k),
            ;
            assert((self.acc + low * scale) * pow2(8 * bytes) == self.acc * pow2(8 * bytes) + (low
                * scale) * pow2(8 * bytes)) by (nonlinear_arith);
        }
        self.acc = self.acc + low * scale;
        self.acc_bits = self.acc_bits + width as u32;
        while self.acc_bits >= 8
            invariant
                self.acc_bits <= 71,
                self.acc < pow2(self.acc_bits as nat),
                self.value() == old(self).value() + (value as nat % pow2(width as nat)) * pow2(
                    old(self).bits(),
                ),
                self.bits() == old(self).bits() + width,
            decreases self.acc_bits,
        {
            let ghost before = *self;
            let byte: u8 = (self.acc % 256) as u8;
            self.buf.push(byte);
            self.acc = self.acc / 256;
            self.acc_bits = self.acc_bits - 8;
            proof {
                let n = before.buf@.len();
                assert(self.buf@.drop_last() =~= before.buf@);
                lemma2_to64();
                lemma_pow2_adds(8 * n, 8);
                lemma_pow2_adds(self.acc_bits as nat, 8);
                assert(8 * self.buf@.len() == 8 * n + 8);
                assert(byte as nat * pow2(8 * n) + self.acc * pow2(8 * n + 8) == before.acc * pow2(
                    8 * n,
                )) by (nonlinear_arith)
                    requires
                        before.acc == 256 * self.acc + byte,
                        pow2(8 * n + 8) == pow2(8 * n) * 256,
                ;
            }
        }
        assert forall|ws: Seq<(u64, u8)>| #[trigger] old(self).wrote(ws) implies self.wrote(
            ws.push((value, width)),
        ) by {
            assert(ws.push((value, width)).drop_last() =~= ws);
        }
    }

    /// The packed bytes, the last one filled up with zero bits.
    pub fn finish(self) -> (r: Vec<u8>)
        requires
            self.wf(),
        ensures
            le_value(r@) == self.value(),
            r@.len() == (self.bits() + 7) / 8,
            forall|ws: Seq<(u64, u8)>| #[trigger] self.wrote(ws) ==> is_packed(ws, r@),
    {
        let mut buf: Vec<u8> = self.buf;
        proof {
            lemma_pow2_strictly_increases_or_same(self.acc_bits as nat, 8);
            lemma2_to64();
        }
        if self.acc_bits > 0 {
            let byte: u8 = (self.acc % 256) as u8;
            buf.push(byte);
            assert(buf@.drop_last() =~= self.buf@);
        }
        proof {
            if self.acc_bits == 0 {
                assert(self.acc as nat * pow2(8 * self.buf@.len()) == 0) by (nonlinear_arith)
                    requires
                        self.acc == 0,
                ;
            }
        }
        buf
    }
}

proof fn lemma_pow2_strictly_increases_or_same(a: nat, b: nat)
    requires
        a <= b,
    ensures
        pow2(a) <= pow2(b),
{
    if a < b {
        lemma_pow2_strictly_increases(a, b);
    }
}

/// Unpacks integers.
pub struct BitReader<'a> {
    data: &'a [u8],
    byte_pos: usize,
    acc: u128,
    acc_bits: u32,
}

impl<'a> BitReader<'a> {
    /// The packed bytes.
    pub closed spec fn data(&self) -> Seq<u8> {
        self.data@
    }

    /// How many bits were read.
    pub closed spec fn pos(&self) -> nat {
        (8 * self.byte_pos - self.acc_bits) as nat
    }

    /// The pending bits are those of the bytes that were fetched, behind what was
    /// read.
    pub closed spec fn wf(&self) -> bool {
        &&& self.byte_pos <= self.data@.len()
        &&& self.acc_bits < 8
        &&& self.acc_bits <= 8 * self.byte_pos
        &&& self.acc == le_value(self.data@.take(self.byte_pos as int)) / pow2(self.pos())
    }

    /// An unpacker at the first bit of `data`.
    pub fn new(data: &'a [u8]) -> (r: BitReader<'a>)
        ensures
            r.wf(),
            r.data() == data@,
            r.pos() == 0,
    {
        proof {
            lemma2_to64();
            assert(data@.take(0) =~= Seq::empty());
        }
        BitReader { data, byte_pos: 0, acc: 0, acc_bits: 0 }
    }

    /// Reads the next `width` bits.
    pub fn read(&mut self, width: u8) -> (r: u64)
        requires
            old(self).wf(),
            width <= 64,
            old(self).pos() + width <= 8 * old(self).data().len(),
        ensures
            final(self).wf(),
            final(self).data() == old(self).data(),
            final(self).pos() == old(self).pos() + width,
            r == bits_at(old(self).data(), old(self).pos(), width as nat),
    {
        let ghost start = self.pos();
        let ghost w = width as nat;
        while self.acc_bits < width as u32
            invariant
                self.byte_pos <= self.data@.len(),
                self.data@ == old(self).data@,
                width <= 64,
                self.acc_bits < width + 8,
                self.acc_bits <= 8 * self.byte_pos,
                self.pos() == start,
                start + width <= 8 * self.data@.len(),
                self.acc == le_value(self.data@.take(self.byte_pos as int)) / pow2(start),
            decreases 8 * self.data@.len() - 8 * self.byte_pos,
        {
            let scale: u128 = power_of_two(self.acc_bits);
            let byte: u8 = self.data[self.byte_pos];
            proof {
                let n = self.byte_pos as nat;
                let front = self.data@.take(n as int);
                assert(self.data@.take(n as int + 1).drop_last() =~= front);
                lemma_add_high(le_value(front), byte as nat, 8 * n, start);
                lemma_acc_bound(front, start, self.acc_bits as nat);
                lemma_pow2_strictly_increases(self.acc_bits as nat, 72);
                lemma2_to64();
                lemma2_to64_rest();
                lemma_pow2_adds(64, 8);
                assert(byte as nat * pow2(self.acc_bits as nat) <= 255 * pow2(72))
                    by (nonlinear_arith)
                    requires
                        byte <= 255,
                        pow2(self.acc_bits as nat) <= pow2(72),
                ;
            }
            self.acc = self.acc + byte as u128 * scale;
            self.acc_bits = self.acc_bits + 8;
            self.byte_pos = self.byte_pos + 1;
        }
        let modulus: u128 = power_of_two(width as u32);
        let v: u128 = self.acc % modulus;
        proof {
            let n = self.byte_pos as nat;
            let front = self.data@.take(n as int);
            let rest = lemma_le_value_split(self.data@, n);
            lemma_add_high(le_value(front), rest, 8 * n, start);
            lemma_mod_high(self.acc as nat, rest, self.acc_bits as nat, w);
            lemma_pow2_adds(start, w);
            lemma_pow2_pos(start);
            lemma_pow2_pos(w);
            lemma_div_denominator(le_value(front) as int, pow2(start) as int, pow2(w) as int);
            lemma_pow2_strictly_increases_or_same(w, 64);
            lemma2_to64_rest();
            lemma2_to64();
        }
        self.acc = self.acc / modulus;
        self.acc_bits = self.acc_bits - width as u32;
        v as u64
    }
}

proof fn lemma_acc_bound(front: Seq<u8>, pos: nat, left: nat)
    requires
        pos + left == 8 * front.len(),
    ensures
        le_value(front) / pow2(pos) < pow2(left),
{
    lemma_le_value_bound(front);
    lemma_pow2_adds(pos, left);
    lemma_pow2_pos(pos);
    let x = le_value(front) as int;
    let d = pow2(pos) as int;
    assert(x / d < pow2(left)) by (nonlinear_arith)
        requires
            x < d * pow2(left),
            d > 0,
            x >= 0,
    ;
}

proof fn lemma_width_sum_take(ws: Seq<(u64, u8)>, i: int)
    requires
        0 <= i <= ws.len(),
    ensures
        width_sum(ws.take(i)) <= width_sum(ws),
        i < ws.len() ==> width_sum(ws.take(i)) + ws[i].1 == width_sum(ws.take(i + 1)) <= width_sum(ws),
    decreases ws.len(),
{
    if i < ws.len() {
        assert(ws.take(i + 1).drop_last() =~= ws.take(i));
        if i + 1 < ws.len() {
            lemma_width_sum_take(ws.drop_last(), i);
            assert(ws.drop_last().take(i) =~= ws.take(i));
            assert(ws.drop_last().take(i + 1) =~= ws.take(i + 1));
        } else {
            assert(ws.take(i + 1) =~= ws);
        }
    } else {
        assert(ws.take(i) =~= ws);
    }
}

/// What writes spell has no more bits than they take.
pub proof fn lemma_spelled_bound(ws: Seq<(u64, u8)>)
    ensures
        spelled_by(ws) < pow2(width_sum(ws)),
    decreases ws.len(),
{
    lemma2_to64();
    if ws.len() > 0 {
        let front = ws.drop_last();
        let b = width_sum(front);
        let w = ws.last().1 as nat;
        let x = ws.last().0 as nat % pow2(w);
        lemma_spelled_bound(front);
        lemma_pow2_adds(b, w);
        lemma_pow2_pos(w);
        assert(x * pow2(b) + pow2(b) <= pow2(b) * pow2(w)) by (nonlinear_arith)
            requires
                x + 1 <= pow2(w),
        ;
    }
}

/// The bits of write `i` in what writes spell.
proof fn lemma_spelled_at(ws: Seq<(u64, u8)>, i: int)
    requires
        0 <= i < ws.len(),
    ensures
        (spelled_by(ws) / pow2(width_sum(ws.take(i)))) % pow2(ws[i].1 as nat) == ws[i].0 as nat
            % pow2(ws[i].1 as nat),
    decreases ws.len(),
{
    let front = ws.drop_last();
    let b = width_sum(front);
    let x = ws.last().0 as nat % pow2(ws.last().1 as nat);
    let low = spelled_by(front);
    let start = width_sum(ws.take(i));
    let w = ws[i].1 as nat;
    lemma_width_sum_take(ws, i);
    lemma_pow2_pos(w);
    if i == ws.len() - 1 {
        assert(ws.take(i) =~= front);
        lemma_spelled_bound(front);
        lemma_pow2_pos(b);
        lemma_add_high(low, x, b, b);
        lemma2_to64();
        lemma_basic_div(low as int, pow2(b) as int);
        assert(x * pow2(0) == x);
        lemma_small_mod(x, pow2(w));
    } else {
        lemma_spelled_at(front, i);
        lemma_width_sum_take(front, i);
        assert(front.take(i) =~= ws.take(i));
        assert(front.take(i + 1) =~= ws.take(i + 1));
        lemma_add_high(low, x, b, start);
        lemma_mod_high(low / pow2(start), x, (b - start) as nat, w);
    }
}

/// Reads with the widths of the writes give back the low bits of the values that were
/// written, whatever the widths: the bits of each are there to be read behind those of
/// the writes before it.
pub proof fn lemma_reads_undo_writes(ws: Seq<(u64, u8)>, bytes: Seq<u8>, i: int)
    requires
        is_packed(ws, bytes),
        0 <= i < ws.len(),
    ensures
        width_sum(ws.take(i)) + ws[i].1 <= 8 * bytes.len(),
        width_sum(ws.take(i)) + ws[i].1 == width_sum(ws.take(i + 1)),
        bits_at(bytes, width_sum(ws.take(i)), ws[i].1 as nat) == ws[i].0 as nat % pow2(
            ws[i].1 as nat,
        ),
{
    lemma_width_sum_take(ws, i);
    lemma_spelled_at(ws, i);
}

/// A bit of a byte is a bit of all bytes.
proof fn lemma_bit_of_byte(s: Seq<u8>, j: nat)
    requires
        j < 8 * s.len(),
    ensures
        bits_at(s, j, 1) == (s[j as int / 8] as nat / pow2(j % 8)) % 2,
{
    let k = j / 8;
    let r = j % 8;
    let front = s.take(k as int);
    let byte = s[k as int] as nat;
    let rest = lemma_le_value_split(s, k + 1);
    let upto = s.take(k as int + 1);
    assert(upto.drop_last() =~= front);
    lemma2_to64();
    lemma_le_value_bound(front);
    lemma_pow2_pos(8 * k);
    // above the byte
    lemma_add_high(le_value(upto), rest, 8 * (k + 1), j);
    lemma_mod_high(le_value(upto) / pow2(j), rest, (8 * (k + 1) - j) as nat, 1);
    // below the byte
    lemma_pow2_adds(8 * k, r);
    lemma_pow2_pos(r);
    lemma_div_denominator(le_value(upto) as int, pow2(8 * k) as int, pow2(r) as int);
    lemma_add_high(le_value(front), byte, 8 * k, 8 * k);
    lemma_basic_div(le_value(front) as int, pow2(8 * k) as int);
    assert(byte * pow2(0) == byte);
}

/// Writes of whatever widths take their bits rounded up to whole bytes: none where every
/// width is 0.
pub proof fn lemma_packed_size(ws: Seq<(u64, u8)>, bytes: Seq<u8>)
    requires
        is_packed(ws, bytes),
    ensures
        bytes.len() == (width_sum(ws) + 7) / 8,
        (forall|i: int| 0 <= i < ws.len() ==> (#[trigger] ws[i]).1 == 0) ==> bytes.len() == 0,
{
    if forall|i: int| 0 <= i < ws.len() ==> (#[trigger] ws[i]).1 == 0 {
        lemma_no_width(ws);
    }
}

proof fn lemma_no_width(ws: Seq<(u64, u8)>)
    requires
        forall|i: int| 0 <= i < ws.len() ==> (#[trigger] ws[i]).1 == 0,
    ensures
        width_sum(ws) == 0,
    decreases ws.len(),
{
    if ws.len() > 0 {
        let front = ws.drop_last();
        assert forall|i: int| 0 <= i < front.len() implies (#[trigger] front[i]).1 == 0 by {
            assert(front[i] == ws[i]);
        }
        assert(ws[ws.len() - 1].1 == 0);
        lemma_no_width(front);
    }
}

/// Bit `b` of the value of write `i`, where it is among those that are written, is the bit
/// behind those of the writes before it and the `b` bits below it, counted from the least
/// significant bit of the first byte.
pub proof fn lemma_written_bit(ws: Seq<(u64, u8)>, bytes: Seq<u8>, i: int, b: nat)
    requires
        is_packed(ws, bytes),
        0 <= i < ws.len(),
        b < ws[i].1,
    ensures
        ({
            let j = width_sum(ws.take(i)) + b;
            &&& j < width_sum(ws) <= 8 * bytes.len()
            &&& (bytes[j as int / 8] as nat / pow2((j % 8) as nat)) % 2 == (ws[i].0 as nat / pow2(b))
                % 2
        }),
{
    let start = width_sum(ws.take(i));
    let j = start + b;
    let w = ws[i].1 as nat;
    let all = spelled_by(ws);
    lemma_width_sum_take(ws, i);
    lemma_spelled_at(ws, i);
    lemma_bit_of_byte(bytes, j);
    lemma_pow2_adds(start, b);
    lemma_pow2_pos(start);
    lemma_pow2_pos(b);
    lemma_div_denominator(all as int, pow2(start) as int, pow2(b) as int);
    lemma_bit_below(all / pow2(start), w, b);
    lemma_bit_below(ws[i].0 as nat, w, b);
    lemma2_to64();
}

/// What fills up the last byte behind the bits of writes is zero.
pub proof fn lemma_filling_bit(ws: Seq<(u64, u8)>, bytes: Seq<u8>, j: nat)
    requires
        is_packed(ws, bytes),
        width_sum(ws) <= j < 8 * bytes.len(),
    ensures
        (bytes[j as int / 8] as nat / pow2((j % 8) as nat)) % 2 == 0,
{
    lemma_bit_of_byte(bytes, j);
    lemma_spelled_bound(ws);
    lemma_pow2_strictly_increases_or_same(width_sum(ws), j);
    lemma_basic_div(spelled_by(ws) as int, pow2(j) as int);
    lemma2_to64();
}

/// A bit below `w` is one of the low `w` bits.
proof fn lemma_bit_below(x: nat, w: nat, b: nat)
    requires
        b < w,
    ensures
        (x / pow2(b)) % 2 == ((x % pow2(w)) / pow2(b)) % 2,
{
    lemma2_to64();
    lemma_pow2_pos(w);
    let q = x / pow2(w);
    let r = x % pow2(w);
    lemma_fundamental_div_mod(x as int, pow2(w) as int);
    assert(x == r + q * pow2(w)) by (nonlinear_arith)
        requires
            x == pow2(w) * q + r,
    ;
    lemma_add_high(r, q, w, b);
    lemma_mod_high(r / pow2(b), q, (w - b) as nat, 1);
}

/// The number that values of `width` bits spell, the first in the lowest bits.
pub open spec fn packed_value(vs: Seq<u64>, width: nat) -> nat
    decreases vs.len(),
{
    if vs.len() == 0 {
        0
    } else {
        packed_value(vs.drop_last(), width) + vs.last() as nat * pow2(
            (vs.len() - 1) as nat * width,
        )
    }
}

/// The `n` bytes of a number, least significant byte first.
pub open spec fn le_bytes(v: nat, n: nat) -> Seq<u8>
    decreases n,
{
    if n == 0 {
        Seq::empty()
    } else {
        seq![(v % 256) as u8] + le_bytes(v / 256, (n - 1) as nat)
    }
}

/// The bytes of values packed at `width` bits each.
pub open spec fn packed(vs: Seq<u64>, width: nat) -> Seq<u8> {
    le_bytes(packed_value(vs, width), packed_len(vs.len(), width))
}

/// Whether every value fits in `width` bits.
pub open spec fn values_fit(vs: Seq<u64>, width: nat) -> bool {
    forall|i: int| 0 <= i < vs.len() ==> (#[trigger] vs[i]) < pow2(width)
}

proof fn lemma_le_value_first(s: Seq<u8>)
    requires
        s.len() > 0,
    ensures
        le_value(s) == s[0] as nat + 256 * le_value(s.drop_first()),
    decreases s.len(),
{
    lemma2_to64();
    if s.len() == 1 {
        assert(s.drop_last() =~= Seq::empty());
        assert(s.drop_first() =~= Seq::empty());
        assert(s[0] as nat * 1 == s[0] as nat) by (nonlinear_arith);
    } else {
        lemma_le_value_first(s.drop_last());
        assert(s.drop_last().drop_first() =~= s.drop_first().drop_last());
        let k = (8 * (s.len() - 2)) as nat;
        lemma_pow2_adds(k, 8);
        assert(8 * (s.len() - 1) as nat == k + 8);
        assert(s.last() as nat * pow2(k + 8) == 256 * (s.last() as nat * pow2(k)))
            by (nonlinear_arith)
            requires
                pow2(k + 8) == pow2(k) * 256,
        ;
    }
}

/// Bytes are those of the number that they spell.
pub proof fn lemma_le_bytes(s: Seq<u8>)
    ensures
        le_bytes(le_value(s), s.len()) == s,
    decreases s.len(),
{
    if s.len() > 0 {
        let v = le_value(s);
        let rest = s.drop_first();
        lemma_le_value_first(s);
        lemma_le_bytes(rest);
        assert(v % 256 == s[0] as nat && v / 256 == le_value(rest));
        assert(le_bytes(v, s.len()) == seq![(v % 256) as u8] + le_bytes(
            v / 256,
            (s.len() - 1) as nat,
        ));
        assert(seq![s[0]] + rest =~= s);
    } else {
        assert(s =~= Seq::empty());
    }
}

/// A number that fits is the one its bytes spell.
pub proof fn lemma_le_value(v: nat, n: nat)
    requires
        v < pow2(8 * n),
    ensures
        le_value(le_bytes(v, n)) == v,
        le_bytes(v, n).len() == n,
    decreases n,
{
    lemma2_to64();
    if n > 0 {
        lemma_pow2_adds((8 * (n - 1)) as nat, 8);
        assert(8 * n == (8 * (n - 1)) as nat + 8);
        assert(v / 256 < pow2((8 * (n - 1)) as nat)) by (nonlinear_arith)
            requires
                v < pow2((8 * (n - 1)) as nat) * 256,
        ;
        lemma_le_value(v / 256, (n - 1) as nat);
        let s = le_bytes(v, n);
        assert(s.drop_first() =~= le_bytes(v / 256, (n - 1) as nat));
        lemma_le_value_first(s);
    }
}

/// Packed values spell a number below two to the power of their bits.
pub proof fn lemma_packed_bound(vs: Seq<u64>, width: nat)
    requires
        values_fit(vs, width),
    ensures
        packed_value(vs, width) < pow2(vs.len() * width),
    decreases vs.len(),
{
    lemma2_to64();
    if vs.len() > 0 {
        let front = vs.drop_last();
        assert(values_fit(front, width)) by {
            assert forall|i: int| 0 <= i < front.len() implies (#[trigger] front[i]) < pow2(
                width,
            ) by {
                assert(front[i] == vs[i]);
            }
        }
        lemma_packed_bound(front, width);
        let k = ((vs.len() - 1) * width) as nat;
        assert(vs.len() * width == k + width) by (nonlinear_arith)
            requires
                k == (vs.len() - 1) * width,
        ;
        lemma_pow2_adds(k, width);
        assert(vs[vs.len() - 1] < pow2(width));
        assert(vs.last() as nat * pow2(k) + pow2(k) <= pow2(k) * pow2(width)) by (nonlinear_arith)
            requires
                vs.last() + 1 <= pow2(width),
        ;
    } else {
        assert(vs.len() * width == 0) by (nonlinear_arith)
            requires
                vs.len() == 0,
        ;
    }
}

/// Each packed value is found at its place.
pub proof fn lemma_packed_at(vs: Seq<u64>, width: nat, i: int)
    requires
        values_fit(vs, width),
        0 <= i < vs.len(),
    ensures
        (packed_value(vs, width) / pow2((i * width) as nat)) % pow2(width) == vs[i],
    decreases vs.len(),
{
    let n = vs.len();
    let front = vs.drop_last();
    assert(values_fit(front, width)) by {
        assert forall|j: int| 0 <= j < front.len() implies (#[trigger] front[j]) < pow2(width) by {
            assert(front[j] == vs[j]);
        }
    }
    lemma_packed_bound(front, width);
    let k = ((n - 1) * width) as nat;
    let at = (i * width) as nat;
    assert(at <= k) by (nonlinear_arith)
        requires
            at == i * width,
            k == (n - 1) * width,
            i <= n - 1,
    ;
    let last = vs.last() as nat;
    lemma_add_high(packed_value(front, width), last, k, at);
    if i == n - 1 {
        lemma_pow2_pos(k);
        lemma_basic_div(packed_value(front, width) as int, pow2(k) as int);
        lemma2_to64();
        assert(last * 1 == last) by (nonlinear_arith);
        assert(vs[n - 1] < pow2(width));
        lemma_small_mod(last, pow2(width));
    } else {
        lemma_packed_at(front, width, i);
        assert(width <= (k - at) as nat) by (nonlinear_arith)
            requires
                at == i * width,
                k == (n - 1) * width,
                i <= n - 2,
        ;
        lemma_mod_high(
            packed_value(front, width) / pow2(at),
            last,
            (k - at) as nat,
            width,
        );
    }
}

/// What was packed is found again, bit for bit.
pub proof fn lemma_unpack(vs: Seq<u64>, width: nat, i: int)
    requires
        values_fit(vs, width),
        0 <= i < vs.len(),
    ensures
        bits_at(packed(vs, width), (i * width) as nat, width) == vs[i],
        packed(vs, width).len() == packed_len(vs.len(), width),
{
    lemma_packed_bound(vs, width);
    lemma_packed_fits(vs, width);
    lemma_packed_at(vs, width, i);
}

/// Packed values fit in their bytes.
pub proof fn lemma_packed_fits(vs: Seq<u64>, width: nat)
    requires
        values_fit(vs, width),
    ensures
        le_value(packed(vs, width)) == packed_value(vs, width),
        packed(vs, width).len() == packed_len(vs.len(), width),
{
    lemma_packed_bound(vs, width);
    let bits = vs.len() * width;
    lemma_pow2_strictly_increases_or_same(bits, 8 * packed_len(vs.len(), width));
    lemma_le_value(packed_value(vs, width), packed_len(vs.len(), width));
}

/// What is no greater than `m` fits in the bits of `m`.
pub proof fn lemma_bit_length(v: nat, m: nat)
    requires
        v <= m,
    ensures
        v < pow2(bit_length(m)),
        m <= u64::MAX ==> bit_length(m) <= 64,
{
    lemma_bit_length_bounds(m);
    lemma2_to64();
    lemma2_to64_rest();
    if m <= u64::MAX && bit_length(m) > 64 {
        lemma_pow2_strictly_increases_or_same(64, (bit_length(m) - 1) as nat);
    }
}

/// A number has as many binary digits as the power of two above it says, and no fewer would
/// do.
pub proof fn lemma_bit_length_bounds(m: nat)
    ensures
        m < pow2(bit_length(m)),
        m > 0 ==> bit_length(m) > 0 && pow2((bit_length(m) - 1) as nat) <= m,
    decreases m,
{
    lemma2_to64();
    if m > 0 {
        lemma_bit_length_bounds(m / 2);
        lemma_pow2_unfold(bit_length(m));
        if m / 2 > 0 {
            lemma_pow2_unfold(bit_length(m / 2));
        }
    }
}

/// The number of binary digits of `v`.
pub fn bits_needed(v: u64) -> (r: u8)
    ensures
        r == bit_length(v as nat),
        r <= 64,
        v < pow2(r as nat),
{
    let mut rest: u64 = v;
    let mut n: u8 = 0;
    proof {
        lemma2_to64();
        lemma2_to64_rest();
    }
    while rest > 0
        invariant
            n <= 64,
            rest as int * pow2(n as nat) <= v < 0x1_0000_0000_0000_0000,
            v < (rest + 1) * pow2(n as nat),
            bit_length(v as nat) == n + bit_length(rest as nat),
            pow2(64) == 0x1_0000_0000_0000_0000,
        decreases rest,
    {
        proof {
            lemma_pow2_unfold((n + 1) as nat);
            if n == 64 {
                assert(rest as int * pow2(64) >= pow2(64)) by (nonlinear_arith)
                    requires
                        rest >= 1,
                ;
            }
            let half = rest as int / 2;
            assert(half * (2 * pow2(n as nat)) <= rest as int * pow2(n as nat)) by (nonlinear_arith)
                requires
                    2 * half <= rest,
                    half >= 0,
            ;
            assert((rest + 1) * pow2(n as nat) <= (half + 1) * (2 * pow2(n as nat)))
                by (nonlinear_arith)
                requires
                    rest + 1 <= 2 * half + 2,
            ;
        }
        rest = rest / 2;
        n = n + 1;
    }
    assert((rest + 1) * pow2(n as nat) == pow2(n as nat)) by (nonlinear_arith)
        requires
            rest == 0,
    ;
    n
}

/// The number of bytes of `count` values of `bits` bits.
pub fn packed_byte_len(count: u32, bits: u8) -> (r: u64)
    requires
        bits <= 64,
    ensures
        r == packed_len(count as nat, bits as nat),
{
    assert(count * bits <= 0xffff_ffff * 64) by (nonlinear_arith)
        requires
            count <= 0xffff_ffff,
            bits <= 64,
            count >= 0,
            bits >= 0,
    ;
    (count as u64 * bits as u64 + 7) / 8
}

/// A number of points as the index counts them.
pub fn checked_point_count_u32(len: usize) -> (r: Result<u32, LaurusError>)
    ensures
        len <= u32::MAX ==> r == Ok::<u32, LaurusError>(len as u32),
        len > u32::MAX ==> r == Err::<u32, LaurusError>(
            LaurusError::PointCount { count: len as u64 },
        ),
{
    if len as u64 <= u32::MAX as u64 {
        Ok(len as u32)
    } else {
        Err(LaurusError::PointCount { count: len as u64 })
    }
}

/// Packs values at `width` bits each.
pub fn pack(vs: &Vec<u64>, width: u8) -> (r: Vec<u8>)
    requires
        width <= 64,
        values_fit(vs@, width as nat),
    ensures
        r@ == packed(vs@, width as nat),
        r@.len() == packed_len(vs@.len(), width as nat),
{
    let n: usize = vs.len();
    let mut w: BitWriter = BitWriter::new();
    let mut i: usize = 0;
    assert(0 * width == 0) by (nonlinear_arith);
    assert(vs@.take(0) =~= Seq::empty());
    while i < n
        invariant
            n == vs@.len(),
            i <= n,
            width <= 64,
            w.wf(),
            values_fit(vs@, width as nat),
            w.bits() == i * width,
            w.value() == packed_value(vs@.take(i as int), width as nat),
        decreases n - i,
    {
        w.write(vs[i], width);
        proof {
            assert(vs@[i as int] < pow2(width as nat));
            lemma_small_mod(vs@[i as int] as nat, pow2(width as nat));
            assert(vs@.take(i + 1).drop_last() =~= vs@.take(i as int));
            assert((i + 1) * width == i * width + width) by (nonlinear_arith);
        }
        i = i + 1;
    }
    let r: Vec<u8> = w.finish();
    proof {
        assert(vs@.take(n as int) =~= vs@);
        lemma_le_bytes(r@);
    }
    r
}

/// Unpacks `count` values of `width` bits each.
pub fn unpack(data: &[u8], count: u32, width: u8) -> (r: Vec<u64>)
    requires
        width <= 64,
        data@.len() == packed_len(count as nat, width as nat),
    ensures
        r@.len() == count,
        forall|i: int|
            0 <= i < count ==> (#[trigger] r@[i]) == bits_at(
                data@,
                (i * width) as nat,
                width as nat,
            ),
{
    let mut reader: BitReader = BitReader::new(data);
    let mut r: Vec<u64> = Vec::new();
    let mut i: u32 = 0;
    assert(0 * width == 0) by (nonlinear_arith);
    while i < count
        invariant
            i <= count,
            width <= 64,
            data@.len() == packed_len(count as nat, width as nat),
            reader.wf(),
            reader.data() == data@,
            reader.pos() == i * width,
            r@.len() == i,
            forall|j: int|
                0 <= j < i ==> (#[trigger] r@[j]) == bits_at(
                    data@,
                    (j * width) as nat,
                    width as nat,
                ),
        decreases count - i,
    {
        proof {
            assert((i + 1) * width == i * width + width) by (nonlinear_arith);
            assert((i + 1) * width <= count * width) by (nonlinear_arith)
                requires
                    i + 1 <= count,
            ;
        }
        let v: u64 = reader.read(width);
        r.push(v);
        i = i + 1;
    }
    r
}

} // verus!
