//! Variable-width encoding of non-negative integers: one literal byte for
//! values up to 255, otherwise a tag byte followed by a big-endian u16, u32
//! or u64.

use vstd::prelude::*;

verus! {

/// Tag of the two-byte (u16) width.
pub const TAG_U16: u8 = 0x73;

/// Tag of the four-byte (u32) width.
pub const TAG_U32: u8 = 0x69;

/// Tag of the eight-byte (u64) width.
pub const TAG_U64: u8 = 0x6C;

/// `256` to the power `n`.
pub open spec fn pow256(n: nat) -> nat
    decreases n,
{
    if n == 0 {
        1
    } else {
        256 * pow256((n - 1) as nat)
    }
}

/// The `n` low-order base-256 digits of `v`, most significant first.
pub open spec fn be_bytes(v: nat, n: nat) -> Seq<u8>
    decreases n,
{
    if n == 0 {
        Seq::empty()
    } else {
        be_bytes(v / 256, (n - 1) as nat).push((v % 256) as u8)
    }
}

/// The number whose big-endian base-256 digits are `s`.
pub open spec fn be_value(s: Seq<u8>) -> nat
    decreases s.len(),
{
    if s.len() == 0 {
        0
    } else {
        be_value(s.drop_last()) * 256 + s.last() as nat
    }
}

/// The encoding of `v`: the narrowest of the four widths that holds it.
pub open spec fn varint_bytes(v: nat) -> Seq<u8> {
    if v <= 255 {
        seq![v as u8]
    } else if v <= 65535 {
        seq![TAG_U16] + be_bytes(v, 2)
    } else if v <= 4294967295 {
        seq![TAG_U32] + be_bytes(v, 4)
    } else {
        seq![TAG_U64] + be_bytes(v, 8)
    }
}

/// How many bytes an encoding that starts with `first` occupies.
pub open spec fn varint_width(first: u8) -> nat {
    if first == TAG_U16 {
        3
    } else if first == TAG_U32 {
        5
    } else if first == TAG_U64 {
        9
    } else {
        1
    }
}

/// The value of the encoding at the start of `s` (which must be long enough).
pub open spec fn varint_value(s: Seq<u8>) -> nat {
    if varint_width(s[0]) == 1 {
        s[0] as nat
    } else {
        be_value(s.subrange(1, varint_width(s[0]) as int))
    }
}

/// Decodes the encoding at the start of `s`: its value and its width, or
/// `None` where `s` is empty or ends inside the encoding.
pub open spec fn decode_varint(s: Seq<u8>) -> Option<(nat, nat)> {
    if s.len() == 0 || s.len() < varint_width(s[0]) {
        None
    } else {
        Some((varint_value(s), varint_width(s[0])))
    }
}

/// A value whose one-byte literal form would read as a width tag.
pub open spec fn is_tag_literal(v: nat) -> bool {
    v == TAG_U16 as nat || v == TAG_U32 as nat || v == TAG_U64 as nat
}

proof fn lemma_pow256_values()
    ensures
        pow256(2) == 65536,
        pow256(4) == 4294967296,
        pow256(8) == 18446744073709551616,
{
    reveal_with_fuel(pow256, 9);
}

proof fn lemma_pow256_mono(a: nat, b: nat)
    requires
        a <= b,
    ensures
        pow256(a) <= pow256(b),
    decreases b,
{
    if a < b {
        lemma_pow256_mono(a, (b - 1) as nat);
    }
}

proof fn lemma_be_bytes_len(v: nat, n: nat)
    ensures
        be_bytes(v, n).len() == n,
    decreases n,
{
    if n > 0 {
        lemma_be_bytes_len(v / 256, (n - 1) as nat);
    }
}

proof fn lemma_be_round_trip(v: nat, n: nat)
    requires
        v < pow256(n),
    ensures
        be_value(be_bytes(v, n)) == v,
    decreases n,
{
    if n > 0 {
        let p = pow256((n - 1) as nat);
        assert(v / 256 < p) by (nonlinear_arith)
            requires
                v < 256 * p,
        ;
        lemma_be_round_trip(v / 256, (n - 1) as nat);
        let s = be_bytes(v, n);
        assert(s.drop_last() == be_bytes(v / 256, (n - 1) as nat));
    }
}

/// Decoding an encoding yields the value and the encoding's length, whatever
/// follows it, for every value whose one-byte form is not a width tag.
pub proof fn lemma_varint_round_trip(v: nat, rest: Seq<u8>)
    requires
        v <= u64::MAX,
        !is_tag_literal(v),
    ensures
        decode_varint(varint_bytes(v) + rest) == Some((v, varint_bytes(v).len())),
{
    lemma_pow256_values();
    let e = varint_bytes(v);
    let s = e + rest;
    if v <= 255 {
        assert(s[0] == v as u8);
    } else {
        let n: nat = if v <= 65535 {
            2
        } else if v <= 4294967295 {
            4
        } else {
            8
        };
        lemma_be_bytes_len(v, n);
        lemma_be_round_trip(v, n);
        assert(s.subrange(1, n + 1 as int) =~= be_bytes(v, n));
    }
}

fn push_be(out: &mut Vec<u8>, v: u64, n: usize)
    requires
        n <= 8,
    ensures
        final(out)@ == old(out)@ + be_bytes(v as nat, n as nat),
    decreases n,
{
    if n > 0 {
        push_be(out, v / 256, n - 1);
        out.push((v % 256) as u8);
        assert(final(out)@ =~= old(out)@ + be_bytes(v as nat, n as nat));
    }
}

/// Appends the encoding of `value` to `out`.
pub fn write_varint(out: &mut Vec<u8>, value: usize)
    ensures
        final(out)@ == old(out)@ + varint_bytes(value as nat),
{
    let v = value as u64;
    if value <= 255 {
        out.push(value as u8);
        assert(final(out)@ =~= old(out)@ + varint_bytes(value as nat));
    } else {
        let n: usize;
        if value <= 65535 {
            out.push(TAG_U16);
            n = 2;
        } else if value <= 4294967295 {
            out.push(TAG_U32);
            n = 4;
        } else {
            out.push(TAG_U64);
            n = 8;
        }
        push_be(out, v, n);
        assert(final(out)@ =~= old(out)@ + varint_bytes(value as nat));
    }
}

/// Reads the big-endian number held in `bytes[start .. start + n]`.
fn read_be(bytes: &[u8], start: usize, n: usize) -> (r: u64)
    requires
        n <= 8,
        start + n <= bytes@.len(),
    ensures
        r as nat == be_value(bytes@.subrange(start as int, start + n)),
{
    let mut acc: u64 = 0;
    let mut i: usize = 0;
    let len = bytes.len();
    proof {
        lemma_pow256_values();
    }
    while i < n
        invariant
            len == bytes@.len(),
            i <= n <= 8,
            start + n <= bytes@.len(),
            acc as nat == be_value(bytes@.subrange(start as int, start + i)),
            (acc as nat) < pow256(i as nat),
            pow256(8) == 18446744073709551616,
        decreases n - i,
    {
        let b = bytes[start + i];
        proof {
            let p = pow256(i as nat);
            lemma_pow256_mono((i + 1) as nat, 8);
            assert((acc as nat) * 256 + (b as nat) < 256 * p) by (nonlinear_arith)
                requires
                    acc < p,
                    b < 256,
            ;
            let s = bytes@.subrange(start as int, start + i + 1);
            assert(s.drop_last() =~= bytes@.subrange(start as int, start + i));
        }
        acc = acc * 256 + b as u64;
        i = i + 1;
    }
    acc
}

/// Decodes the encoding at the start of `bytes`: its value and how many bytes
/// it occupies.
pub fn read_varint(bytes: &[u8]) -> (r: (usize, usize))
    requires
        decode_varint(bytes@) is Some,
        decode_varint(bytes@).unwrap().0 <= usize::MAX,
    ensures
        decode_varint(bytes@) == Some((r.0 as nat, r.1 as nat)),
{
    let first = bytes[0];
    if first == TAG_U16 {
        (read_be(bytes, 1, 2) as usize, 3)
    } else if first == TAG_U32 {
        (read_be(bytes, 1, 4) as usize, 5)
    } else if first == TAG_U64 {
        (read_be(bytes, 1, 8) as usize, 9)
    } else {
        (first as usize, 1)
    }
}

/// Decodes the encoding that starts at `pos` in `bytes`, or `None` where
/// `bytes` ends before the encoding does or its value exceeds `usize`.
pub fn read_varint_at(bytes: &[u8], pos: usize) -> (r: Option<(usize, usize)>)
    requires
        pos <= bytes@.len(),
    ensures
        r matches Some(p) ==> decode_varint(bytes@.subrange(pos as int, bytes@.len() as int))
            == Some((p.0 as nat, p.1 as nat)),
        r is None <==> (decode_varint(bytes@.subrange(pos as int, bytes@.len() as int)) is None
            || decode_varint(bytes@.subrange(pos as int, bytes@.len() as int)).unwrap().0
            > usize::MAX),
{
    if pos >= bytes.len() {
        return None;
    }
    let first = bytes[pos];
    let ghost s = bytes@.subrange(pos as int, bytes@.len() as int);
    assert(s[0] == first);
    let w: usize = if first == TAG_U16 {
        3
    } else if first == TAG_U32 {
        5
    } else if first == TAG_U64 {
        9
    } else {
        1
    };
    if bytes.len() - pos < w {
        return None;
    }
    if w == 1 {
        Some((first as usize, 1))
    } else {
        let v = read_be(bytes, pos + 1, w - 1);
        assert(s.subrange(1, w as int) =~= bytes@.subrange(pos + 1, pos + 1 + (w - 1)));
        if v > usize::MAX as u64 {
            return None;
        }
        Some((v as usize, w))
    }
}

} // verus!
