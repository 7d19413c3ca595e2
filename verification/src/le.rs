//! Little-endian bytes.
//!
//! Every number on every wire of this crate is little-endian. What a message
//! looks like is stated with [`le_bytes`] and what is read back with
//! [`from_le`]; each undoes the other.

use vstd::arithmetic::power::*;
use vstd::prelude::*;

verus! {

/// The low `width` bytes of a number, least significant first.
pub open spec fn le_bytes(n: nat, width: nat) -> Seq<u8>
    decreases width,
{
    if width == 0 {
        Seq::empty()
    } else {
        seq![(n % 256) as u8] + le_bytes(n / 256, (width - 1) as nat)
    }
}

/// The number a run of bytes holds, least significant first.
pub open spec fn from_le(s: Seq<u8>) -> nat
    decreases s.len(),
{
    if s.len() == 0 {
        0
    } else {
        s[0] as nat + 256 * from_le(s.skip(1))
    }
}

/// How many numbers `width` bytes tell apart.
pub open spec fn span(width: nat) -> nat {
    pow(256, width) as nat
}

/// The bits of a signed 32-bit number, read as unsigned.
pub open spec fn bits32(v: i32) -> nat {
    (v as int % 0x1_0000_0000) as nat
}

/// The bits of a signed 64-bit number, read as unsigned.
pub open spec fn bits64(v: i64) -> nat {
    (v as int % 0x1_0000_0000_0000_0000) as nat
}

/// A signed 32-bit number on the wire.
pub open spec fn le_i32(v: i32) -> Seq<u8> {
    le_bytes(bits32(v), 4)
}

/// A signed 64-bit number on the wire.
pub open spec fn le_i64(v: i64) -> Seq<u8> {
    le_bytes(bits64(v), 8)
}

/// The signed 32-bit number four bytes hold.
pub open spec fn from_le_i32(s: Seq<u8>) -> int {
    let n = from_le(s) as int;
    if n < 0x8000_0000 {
        n
    } else {
        n - 0x1_0000_0000
    }
}

/// The signed 64-bit number eight bytes hold.
pub open spec fn from_le_i64(s: Seq<u8>) -> int {
    let n = from_le(s) as int;
    if n < 0x8000_0000_0000_0000 {
        n
    } else {
        n - 0x1_0000_0000_0000_0000
    }
}

/// What a width in bytes spans, for the widths in use.
pub proof fn lemma_span()
    ensures
        span(0) == 1,
        span(1) == 0x100,
        span(2) == 0x1_0000,
        span(4) == 0x1_0000_0000,
        span(8) == 0x1_0000_0000_0000_0000,
        span(16) == 0x1_0000_0000_0000_0000_0000_0000_0000_0000,
{
    reveal_with_fuel(pow, 9);
    lemma_pow_adds(256, 8, 8);
    assert(span(8) == 0x1_0000_0000_0000_0000);
    assert(pow(256, 16) == pow(256, 8) * pow(256, 8));
}

/// A wider run spans 256 times more.
pub proof fn lemma_span_step(width: nat)
    requires
        width > 0,
    ensures
        span(width) == 256 * span((width - 1) as nat),
        span((width - 1) as nat) > 0,
{
    reveal(pow);
    lemma_pow_positive(256, (width - 1) as nat);
}

/// There are as many bytes as asked for.
pub broadcast proof fn lemma_le_len(n: nat, width: nat)
    ensures
        #[trigger] le_bytes(n, width).len() == width,
    decreases width,
{
    if width > 0 {
        lemma_le_len(n / 256, (width - 1) as nat);
    }
}

/// A run of bytes holds less than its width spans.
pub proof fn lemma_from_le_bound(s: Seq<u8>)
    ensures
        from_le(s) < span(s.len()),
    decreases s.len(),
{
    if s.len() == 0 {
        lemma_span();
    } else {
        lemma_from_le_bound(s.skip(1));
        lemma_span_step(s.len());
    }
}

/// Reading gives back the number that was written, where it fits.
pub proof fn lemma_from_le_of_le(n: nat, width: nat)
    requires
        n < span(width),
    ensures
        from_le(le_bytes(n, width)) == n,
    decreases width,
{
    lemma_le_len(n, width);
    if width == 0 {
        lemma_span();
    } else {
        lemma_span_step(width);
        lemma_from_le_of_le(n / 256, (width - 1) as nat);
        assert(le_bytes(n, width).skip(1) =~= le_bytes(n / 256, (width - 1) as nat));
    }
}

/// Writing what was read gives back the bytes.
pub proof fn lemma_le_of_from_le(s: Seq<u8>)
    ensures
        le_bytes(from_le(s), s.len()) == s,
    decreases s.len(),
{
    if s.len() == 0 {
        assert(le_bytes(from_le(s), s.len()) =~= s);
    } else {
        lemma_le_of_from_le(s.skip(1));
        let n = from_le(s);
        assert(n % 256 == s[0]);
        assert(n / 256 == from_le(s.skip(1)));
        assert(le_bytes(n, s.len()) =~= seq![s[0]] + s.skip(1));
        assert(seq![s[0]] + s.skip(1) =~= s);
    }
}

/// Reading gives back the signed number that was written.
pub proof fn lemma_le_i32(v: i32)
    ensures
        le_i32(v).len() == 4,
        from_le_i32(le_i32(v)) == v,
{
    lemma_span();
    lemma_le_len(bits32(v), 4);
    lemma_from_le_of_le(bits32(v), 4);
}

/// Reading gives back the signed number that was written.
pub proof fn lemma_le_i64(v: i64)
    ensures
        le_i64(v).len() == 8,
        from_le_i64(le_i64(v)) == v,
{
    lemma_span();
    lemma_le_len(bits64(v), 8);
    lemma_from_le_of_le(bits64(v), 8);
}

/// Appends the low `width` bytes of a number.
pub fn push_wide(out: &mut Vec<u8>, n: u128, width: usize)
    ensures
        final(out)@ == old(out)@ + le_bytes(n as nat, width as nat),
    decreases width,
{
    if width > 0 {
        let ghost before = out@;
        out.push((n % 256) as u8);
        push_wide(out, n / 256, width - 1);
        assert(out@ =~= before + le_bytes(n as nat, width as nat));
    } else {
        assert(out@ =~= old(out)@ + le_bytes(n as nat, 0));
    }
}

/// Appends two bytes.
pub fn push_u16(out: &mut Vec<u8>, n: u16)
    ensures
        final(out)@ == old(out)@ + le_bytes(n as nat, 2),
{
    push_wide(out, n as u128, 2);
}

/// Appends four bytes.
pub fn push_u32(out: &mut Vec<u8>, n: u32)
    ensures
        final(out)@ == old(out)@ + le_bytes(n as nat, 4),
{
    push_wide(out, n as u128, 4);
}

/// Appends eight bytes.
pub fn push_u64(out: &mut Vec<u8>, n: u64)
    ensures
        final(out)@ == old(out)@ + le_bytes(n as nat, 8),
{
    push_wide(out, n as u128, 8);
}

/// Appends four bytes of a signed number.
pub fn push_i32(out: &mut Vec<u8>, v: i32)
    ensures
        final(out)@ == old(out)@ + le_i32(v),
{
    let n: u128 = if v < 0 {
        (v as i64 + 0x1_0000_0000) as u128
    } else {
        v as u128
    };
    push_wide(out, n, 4);
}

/// Appends eight bytes of a signed number.
pub fn push_i64(out: &mut Vec<u8>, v: i64)
    ensures
        final(out)@ == old(out)@ + le_i64(v),
{
    let n: u128 = if v < 0 {
        (v as i128 + 0x1_0000_0000_0000_0000) as u128
    } else {
        v as u128
    };
    push_wide(out, n, 8);
}

/// Reads `width` bytes at `at`.
pub fn read_wide(buf: &[u8], at: usize, width: usize) -> (n: u128)
    requires
        width <= 16,
        at + width <= buf@.len(),
    ensures
        n == from_le(buf@.subrange(at as int, at + width)),
        n < span(width as nat),
    decreases width,
{
    proof {
        lemma_from_le_bound(buf@.subrange(at as int, at + width));
    }
    if width == 0 {
        0
    } else {
        let len: usize = buf.len();
        assert(at + 1 <= len);
        let rest: u128 = read_wide(buf, at + 1, width - 1);
        proof {
            let s = buf@.subrange(at as int, at + width);
            assert(s.skip(1) =~= buf@.subrange(at + 1, at + width));
            lemma_span_step(width as nat);
            lemma_span();
            lemma_span_le(width as nat, 16);
        }
        buf[at] as u128 + 256 * rest
    }
}

/// A wider run spans no less.
pub proof fn lemma_span_le(a: nat, b: nat)
    requires
        a <= b,
    ensures
        span(a) <= span(b),
        span(a) > 0,
{
    lemma_pow_increases(256, a, b);
    lemma_pow_positive(256, a);
}

/// Reads two bytes at `at`.
pub fn read_u16(buf: &[u8], at: usize) -> (n: u16)
    requires
        at + 2 <= buf@.len(),
    ensures
        n == from_le(buf@.subrange(at as int, at + 2)),
{
    proof {
        lemma_span();
    }
    read_wide(buf, at, 2) as u16
}

/// Reads four bytes at `at`.
pub fn read_u32(buf: &[u8], at: usize) -> (n: u32)
    requires
        at + 4 <= buf@.len(),
    ensures
        n == from_le(buf@.subrange(at as int, at + 4)),
{
    proof {
        lemma_span();
    }
    read_wide(buf, at, 4) as u32
}

/// Reads eight bytes at `at`.
pub fn read_u64(buf: &[u8], at: usize) -> (n: u64)
    requires
        at + 8 <= buf@.len(),
    ensures
        n == from_le(buf@.subrange(at as int, at + 8)),
{
    proof {
        lemma_span();
    }
    read_wide(buf, at, 8) as u64
}

/// Reads four bytes of a signed number at `at`.
pub fn read_i32(buf: &[u8], at: usize) -> (v: i32)
    requires
        at + 4 <= buf@.len(),
    ensures
        v == from_le_i32(buf@.subrange(at as int, at + 4)),
{
    let n: u32 = read_u32(buf, at);
    if n < 0x8000_0000 {
        n as i32
    } else {
        (n as i64 - 0x1_0000_0000) as i32
    }
}

/// Reads eight bytes of a signed number at `at`.
pub fn read_i64(buf: &[u8], at: usize) -> (v: i64)
    requires
        at + 8 <= buf@.len(),
    ensures
        v == from_le_i64(buf@.subrange(at as int, at + 8)),
{
    let n: u64 = read_u64(buf, at);
    if n < 0x8000_0000_0000_0000 {
        n as i64
    } else {
        (n as i128 - 0x1_0000_0000_0000_0000) as i64
    }
}

/// Two joins that are equal, and whose fronts are as long, are equal piece by
/// piece.
pub proof fn lemma_same_front(a: Seq<u8>, b: Seq<u8>, c: Seq<u8>, d: Seq<u8>)
    requires
        a + b == c + d,
        a.len() == c.len(),
    ensures
        a == c,
        b == d,
{
    assert(a =~= (a + b).take(a.len() as int));
    assert(c =~= (c + d).take(c.len() as int));
    assert(b =~= (a + b).skip(a.len() as int));
    assert(d =~= (c + d).skip(c.len() as int));
}

/// Two joins that are equal, and whose backs are as long, are equal piece by
/// piece.
pub proof fn lemma_same_back(a: Seq<u8>, b: Seq<u8>, c: Seq<u8>, d: Seq<u8>)
    requires
        a + b == c + d,
        b.len() == d.len(),
    ensures
        a == c,
        b == d,
{
    assert((a + b).len() == a.len() + b.len());
    assert((c + d).len() == c.len() + d.len());
    lemma_same_front(a, b, c, d);
}

/// Two numbers that fit a width and are written alike are the same.
pub proof fn lemma_le_injective(n: nat, m: nat, width: nat)
    requires
        n < span(width),
        m < span(width),
        le_bytes(n, width) == le_bytes(m, width),
    ensures
        n == m,
{
    lemma_from_le_of_le(n, width);
    lemma_from_le_of_le(m, width);
}

/// A 32-bit name is read back as it was written.
pub proof fn lemma_u32_injective(a: u32, b: u32)
    requires
        le_bytes(a as nat, 4) == le_bytes(b as nat, 4),
    ensures
        a == b,
{
    lemma_span();
    lemma_le_injective(a as nat, b as nat, 4);
}

/// A 64-bit name is read back as it was written.
pub proof fn lemma_u64_injective(a: u64, b: u64)
    requires
        le_bytes(a as nat, 8) == le_bytes(b as nat, 8),
    ensures
        a == b,
{
    lemma_span();
    lemma_le_injective(a as nat, b as nat, 8);
}

/// A 16-bit name is read back as it was written.
pub proof fn lemma_u16_injective(a: u16, b: u16)
    requires
        le_bytes(a as nat, 2) == le_bytes(b as nat, 2),
    ensures
        a == b,
{
    lemma_span();
    lemma_le_injective(a as nat, b as nat, 2);
}

/// On the wire the least significant byte comes first: each byte is the digit,
/// base 256, of its place.
pub proof fn law_the_least_byte_comes_first(n: nat, width: nat, i: nat)
    requires
        i < width,
    ensures
        le_bytes(n, width).len() == width,
        le_bytes(n, width)[i as int] == (n / span(i)) % 256,
    decreases width,
{
    lemma_le_len(n, width);
    lemma_span();
    if i > 0 {
        law_the_least_byte_comes_first(n / 256, (width - 1) as nat, (i - 1) as nat);
        lemma_span_step(i);
        let s = span((i - 1) as nat);
        vstd::arithmetic::div_mod::lemma_div_denominator(n as int, 256, s as int);
        assert(n / span(i) == n / 256 / s);
        assert(le_bytes(n, width)[i as int] == le_bytes(n / 256, (width - 1) as nat)[i - 1]);
    } else {
        assert(n / 1 == n);
    }
}

/// Bytes read are the number whose digits, base 256, they are, the least
/// significant first.
pub proof fn law_bytes_are_digits(s: Seq<u8>)
    ensures
        s.len() == 1 ==> from_le(s) == s[0],
        s.len() == 2 ==> from_le(s) == s[0] + 0x100 * s[1],
        s.len() == 4 ==> from_le(s) == s[0] + 0x100 * s[1] + 0x1_0000 * s[2] + 0x100_0000 * s[3],
{
    reveal_with_fuel(from_le, 5);
    if s.len() > 0 {
        assert(s.skip(1).len() == s.len() - 1);
        if s.len() > 1 {
            assert(s.skip(1)[0] == s[1]);
            assert(s.skip(1).skip(1) =~= s.skip(2));
        }
        if s.len() > 2 {
            assert(s.skip(2)[0] == s[2]);
            assert(s.skip(2).skip(1) =~= s.skip(3));
        }
        if s.len() > 3 {
            assert(s.skip(3)[0] == s[3]);
            assert(s.skip(3).skip(1) =~= s.skip(4));
        }
    }
}

/// A signed number is written as the unsigned one it is two's complement of.
pub proof fn law_a_negative_is_its_twos_complement(v: i32, w: i64)
    ensures
        le_i32(v) == le_bytes(
            (if v < 0 {
                v + 0x1_0000_0000
            } else {
                v as int
            }) as nat,
            4,
        ),
        le_i64(w) == le_bytes(
            (if w < 0 {
                w + 0x1_0000_0000_0000_0000
            } else {
                w as int
            }) as nat,
            8,
        ),
{
}

/// Whether so many bytes at a place in a message hold a number, the least
/// significant first.
pub open spec fn holds(s: Seq<u8>, at: int, width: nat, n: int) -> bool {
    &&& 0 <= at
    &&& at + width <= s.len()
    &&& from_le(s.subrange(at, at + width)) == n
}

/// Whether four bytes at a place in a message hold a signed number.
pub open spec fn holds_i32(s: Seq<u8>, at: int, v: i32) -> bool {
    holds(s, at, 4, if v < 0 {
        v + 0x1_0000_0000
    } else {
        v as int
    })
}

/// Whether eight bytes at a place in a message hold a signed number.
pub open spec fn holds_i64(s: Seq<u8>, at: int, v: i64) -> bool {
    holds(s, at, 8, if v < 0 {
        v + 0x1_0000_0000_0000_0000
    } else {
        v as int
    })
}

/// Bytes that are a number's are found where they are put.
pub proof fn lemma_holds(s: Seq<u8>, at: int, width: nat, n: nat)
    requires
        0 <= at,
        at + width <= s.len(),
        n < span(width),
        s.subrange(at, at + width) == le_bytes(n, width),
    ensures
        holds(s, at, width, n as int),
{
    lemma_from_le_of_le(n, width);
}

} // verus!
