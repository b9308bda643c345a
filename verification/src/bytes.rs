//! Little-endian integers in byte buffers, and the half-precision widening the vertex formats need.
//!
//! Floating-point numbers never appear as such in this crate: a single-precision number is carried
//! as its 32-bit pattern.
use vstd::prelude::*;

verus! {

/// The unsigned 16-bit integer stored at `o`, low byte first.
pub open spec fn le16(b: Seq<u8>, o: int) -> int {
    b[o] + 256 * b[o + 1]
}

/// The unsigned 32-bit integer stored at `o`, low byte first.
pub open spec fn le32(b: Seq<u8>, o: int) -> int {
    b[o] + 256 * b[o + 1] + 65536 * b[o + 2] + 16777216 * b[o + 3]
}

/// The signed 16-bit integer (two's complement) stored at `o`.
pub open spec fn le_i16(b: Seq<u8>, o: int) -> int {
    if le16(b, o) < 32768 {
        le16(b, o)
    } else {
        le16(b, o) - 65536
    }
}

/// The signed 32-bit integer (two's complement) stored at `o`.
pub open spec fn le_i32(b: Seq<u8>, o: int) -> int {
    if le32(b, o) < 2147483648 {
        le32(b, o)
    } else {
        le32(b, o) - 4294967296
    }
}

/// The two bytes of `v`, low byte first.
pub open spec fn enc16(v: u16) -> Seq<u8> {
    seq![(v % 256) as u8, (v / 256) as u8]
}

/// The four bytes of `v`, low byte first.
pub open spec fn enc32(v: u32) -> Seq<u8> {
    seq![
        (v % 256) as u8,
        ((v / 256) % 256) as u8,
        ((v / 65536) % 256) as u8,
        (v / 16777216) as u8,
    ]
}

/// Reading back what was written gives the number written, for both widths.
pub proof fn law_read_after_write(v: u32, w: u16)
    ensures
        le32(enc32(v), 0) == v,
        le16(enc16(w), 0) == w,
        enc32(v).len() == 4,
        enc16(w).len() == 2,
{
}

/// Writing what was read gives the bytes that were read.
pub proof fn law_write_after_read(b: Seq<u8>)
    requires
        b.len() == 4,
    ensures
        enc32(le32(b, 0) as u32) == b,
{
    let v = le32(b, 0) as u32;
    assert(v == b[0] + 256 * b[1] + 65536 * b[2] + 16777216 * b[3]);
    assert(enc32(v) =~= b);
}

pub fn u16at(b: &[u8], o: usize) -> (r: u16)
    requires
        o + 2 <= b@.len(),
    ensures
        r == le16(b@, o as int),
{
    b[o] as u16 + 256 * (b[o + 1] as u16)
}

pub fn u32at(b: &[u8], o: usize) -> (r: u32)
    requires
        o + 4 <= b@.len(),
    ensures
        r == le32(b@, o as int),
{
    b[o] as u32 + 256 * (b[o + 1] as u32) + 65536 * (b[o + 2] as u32) + 16777216 * (b[o + 3] as u32)
}

pub fn i16at(b: &[u8], o: usize) -> (r: i16)
    requires
        o + 2 <= b@.len(),
    ensures
        r == le_i16(b@, o as int),
{
    let v: u16 = u16at(b, o);
    if v < 32768 {
        v as i16
    } else {
        (v as i32 - 65536) as i16
    }
}

pub fn i32at(b: &[u8], o: usize) -> (r: i32)
    requires
        o + 4 <= b@.len(),
    ensures
        r == le_i32(b@, o as int),
{
    let v: u32 = u32at(b, o);
    if v < 2147483648 {
        v as i32
    } else {
        (v as i64 - 4294967296) as i32
    }
}

/// Append the two bytes of `v`.
pub fn put16(out: &mut Vec<u8>, v: u16)
    ensures
        final(out)@ == old(out)@ + enc16(v),
{
    out.push((v % 256) as u8);
    out.push((v / 256) as u8);
    assert(out@ =~= old(out)@ + enc16(v));
}

/// Append the four bytes of `v`.
pub fn put32(out: &mut Vec<u8>, v: u32)
    ensures
        final(out)@ == old(out)@ + enc32(v),
{
    out.push((v % 256) as u8);
    out.push(((v / 256) % 256) as u8);
    out.push(((v / 65536) % 256) as u8);
    out.push((v / 16777216) as u8);
    assert(out@ =~= old(out)@ + enc32(v));
}

/// Append every element of `s`.
pub fn put_all<T: Copy>(out: &mut Vec<T>, s: &[T])
    ensures
        final(out)@ == old(out)@ + s@,
{
    let mut i: usize = 0;
    while i < s.len()
        invariant
            i <= s@.len(),
            out@ == old(out)@ + s@.take(i as int),
        decreases s@.len() - i,
    {
        out.push(s[i]);
        assert(s@.take(i + 1) =~= s@.take(i as int).push(s@[i as int]));
        i += 1;
    }
    assert(s@.take(i as int) =~= s@);
}

/// Two to the power `n`.
pub open spec fn pow2(n: nat) -> nat
    decreases n,
{
    if n == 0 {
        1
    } else {
        2 * pow2((n - 1) as nat)
    }
}

/// How far a ten-bit subnormal significand must be doubled until bit 10 is set.
pub open spec fn half_shift(man: int) -> nat
    decreases 2048 - man,
{
    if man <= 0 || man >= 1024 {
        0
    } else {
        1 + half_shift(2 * man)
    }
}

/// The single-precision bit pattern with the value of the half-precision pattern `h`:
/// the sign is kept; zero maps to zero, infinities and NaNs keep their payload in the top bits,
/// a normal number has its exponent re-biased by 112, and a subnormal is normalised first.
pub open spec fn half_bits(h: u16) -> int {
    let sign = h / 32768;
    let exp = (h / 1024) % 32;
    let man = h % 1024;
    let s = half_shift(man as int);
    2147483648 * sign + (if exp == 0 {
        if man == 0 {
            0
        } else {
            8388608 * (113 - s) + 8192 * (man * pow2(s) - 1024)
        }
    } else if exp == 31 {
        8388608 * 255 + 8192 * man
    } else {
        8388608 * (exp + 112) + 8192 * man
    })
}

/// Half precision to the bit pattern of the same value in single precision.
pub fn half_to_bits(h: u16) -> (r: u32)
    ensures
        r == half_bits(h),
{
    let sign: u32 = (h / 32768) as u32;
    let exp: u32 = ((h / 1024) % 32) as u32;
    let man: u32 = (h % 1024) as u32;
    let magnitude: u32 = if exp == 0 {
        if man == 0 {
            0
        } else {
            let mut m: u32 = man;
            let mut e: u32 = 113;
            let ghost mut s: nat = 0;
            assert(man * pow2(s) == man) by (nonlinear_arith)
                requires
                    pow2(s) == 1,
            ;
            while m < 1024
                invariant
                    0 < man < 1024,
                    0 < m < 2048,
                    m == man * pow2(s),
                    e + s == 113,
                    half_shift(man as int) == s + half_shift(m as int),
                    s <= 10,
                    m >= pow2(s),
                decreases 2048 - m,
            {
                proof {
                    assert(pow2(s + 1) == 2 * pow2(s));
                    assert(man * pow2(s + 1) == 2 * (man * pow2(s))) by (nonlinear_arith)
                        requires
                            pow2(s + 1) == 2 * pow2(s),
                    ;
                    if s >= 10 {
                        assert(pow2(10) == 1024) by {
                            reveal_with_fuel(pow2, 11);
                        }
                    }
                    s = s + 1;
                }
                m = m * 2;
                e = e - 1;
            }
            8388608 * e + 8192 * (m - 1024)
        }
    } else if exp == 31 {
        8388608 * 255 + 8192 * man
    } else {
        8388608 * (exp + 112) + 8192 * man
    };
    2147483648 * sign + magnitude
}

/// The single-precision pattern of the half stored at `o`.
pub open spec fn half_bits_at(b: Seq<u8>, o: int) -> int {
    half_bits(le16(b, o) as u16)
}

pub fn half_at(b: &[u8], o: usize) -> (r: u32)
    requires
        o + 2 <= b@.len(),
    ensures
        r == half_bits_at(b@, o as int),
{
    half_to_bits(u16at(b, o))
}

/// The low byte comes first: a byte counts once, 256 times, 65536 times or 16777216 times as much by
/// its place, and bytes of zero are zero.
pub proof fn law_the_low_byte_comes_first(b: Seq<u8>, o: int, x: u8, zeros: Seq<u8>)
    requires
        0 <= o,
        o + 4 <= b.len(),
        zeros.len() == b.len(),
        forall|i: int| 0 <= i < zeros.len() ==> zeros[i] == 0,
    ensures
        le32(zeros, o) == 0,
        le16(zeros, o) == 0,
        le32(b.update(o, x), o) - le32(b, o) == x - b[o],
        le32(b.update(o + 1, x), o) - le32(b, o) == 256 * (x - b[o + 1]),
        le32(b.update(o + 2, x), o) - le32(b, o) == 65536 * (x - b[o + 2]),
        le32(b.update(o + 3, x), o) - le32(b, o) == 16777216 * (x - b[o + 3]),
        le16(b.update(o, x), o) - le16(b, o) == x - b[o],
        le16(b.update(o + 1, x), o) - le16(b, o) == 256 * (x - b[o + 1]),
        0 <= le32(b, o) <= u32::MAX,
        0 <= le16(b, o) <= u16::MAX,
{
}

/// A signed number has the bits of the unsigned one, and is negative from the half of the range on.
pub proof fn law_signed_numbers_have_the_same_bits(b: Seq<u8>, o: int)
    ensures
        (le_i16(b, o) - le16(b, o)) % 65536 == 0,
        -32768 <= le_i16(b, o) < 32768,
        (le_i32(b, o) - le32(b, o)) % 4294967296 == 0,
        -2147483648 <= le_i32(b, o) < 2147483648,
{
}

/// Widening a number from half to single precision keeps its value: the sign is the same, an
/// infinity or none of a number stays one, and otherwise significand and exponent give the same
/// number. A half is `(1024 + man) * 2^(exp - 25)`, or `man * 2^-24` where `exp` is zero, and a single
/// is `(8388608 + m) * 2^(e - 150)`.
pub proof fn law_widening_keeps_the_value(h: u16)
    ensures
        ({
            let r = half_bits(h);
            let e = (r / 8388608) % 256;
            let m = r % 8388608;
            let exp = (h / 1024) % 32;
            let man = h % 1024;
            &&& 0 <= r <= u32::MAX
            &&& r / 2147483648 == h / 32768
            &&& exp == 31 ==> e == 255 && m == 8192 * man
            &&& 0 < exp < 31 ==> e == exp + 112 && 8388608 + m == 8192 * (1024 + man)
            &&& exp == 0 && man == 0 ==> e == 0 && m == 0
            &&& exp == 0 && man > 0 ==> 0 < e <= 126 && 8388608 + m == man
                * vstd::arithmetic::power2::pow2((126 - e) as nat)
        }),
{
    let exp = (h / 1024) % 32;
    let man = (h % 1024) as int;
    if exp == 0 && man > 0 {
        lemma_half_shift(man);
        let s = half_shift(man);
        let x = man * pow2(s);
        assert(half_bits(h) == 2147483648 * (h / 32768) + 8388608 * (113 - s) + 8192 * (x - 1024));
        lemma_same_pow2((13 + s) as nat);
        lemma_pow2_thirteen(s);
        assert(8192 * x == man * pow2((13 + s) as nat)) by (nonlinear_arith)
            requires
                x == man * pow2(s),
                pow2((13 + s) as nat) == 8192 * pow2(s),
        ;
    }
}

proof fn lemma_half_shift(man: int)
    requires
        0 < man < 2048,
    ensures
        man < 1024 ==> 1024 <= man * pow2(half_shift(man)) < 2048,
        man < 1024 ==> half_shift(man) <= 10,
        man >= 1024 ==> half_shift(man) == 0,
    decreases 2048 - man,
{
    if man < 1024 {
        lemma_half_shift(2 * man);
        let s = half_shift(2 * man);
        assert(half_shift(man) == 1 + s);
        assert(pow2(1 + s) == 2 * pow2(s));
        assert(man * pow2(1 + s) == (2 * man) * pow2(s)) by (nonlinear_arith)
            requires
                pow2(1 + s) == 2 * pow2(s),
        ;
        if 2 * man >= 1024 {
            assert((2 * man) * pow2(s) == 2 * man) by (nonlinear_arith)
                requires
                    pow2(s) == 1,
            ;
        } else {
            lemma_shift_bound(man);
        }
    }
}

/// A number of at least one is doubled at most ten times.
proof fn lemma_shift_bound(man: int)
    requires
        0 < man < 1024,
    ensures
        half_shift(man) <= 10,
{
    reveal_with_fuel(half_shift, 12);
}

proof fn lemma_same_pow2(n: nat)
    ensures
        pow2(n) == vstd::arithmetic::power2::pow2(n),
    decreases n,
{
    if n == 0 {
        vstd::arithmetic::power2::lemma2_to64();
    } else {
        lemma_same_pow2((n - 1) as nat);
        vstd::arithmetic::power2::lemma_pow2_unfold(n);
    }
}

proof fn lemma_pow2_thirteen(s: nat)
    ensures
        pow2((13 + s) as nat) == 8192 * pow2(s),
{
    reveal_with_fuel(pow2, 14);
}

} // verus!
