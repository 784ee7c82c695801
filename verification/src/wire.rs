//! Fixed-width integers on the wire.

use vstd::prelude::*;

verus! {

/// The number that bytes spell, least significant byte first.
pub open spec fn le(bytes: Seq<u8>) -> nat
    decreases bytes.len(),
{
    if bytes.len() == 0 {
        0
    } else {
        bytes[0] as nat + 256 * le(bytes.drop_first())
    }
}

/// The four-byte number at a position.
pub open spec fn u32_at(c: Seq<u8>, pos: int) -> u32 {
    le(c.subrange(pos, pos + 4)) as u32
}

/// The eight-byte number at a position.
pub open spec fn u64_at(c: Seq<u8>, pos: int) -> u64 {
    le(c.subrange(pos, pos + 8)) as u64
}

/// The spelling of `value` in `width` bytes, least significant byte first.
pub open spec fn le_bytes(value: nat, width: nat) -> Seq<u8>
    decreases width,
{
    if width == 0 {
        Seq::empty()
    } else {
        seq![(value % 256) as u8] + le_bytes(value / 256, (width - 1) as nat)
    }
}

/// 256 to the power of `width`.
pub open spec fn span(width: nat) -> nat
    decreases width,
{
    if width == 0 {
        1
    } else {
        256 * span((width - 1) as nat)
    }
}

/// A number that fits its width reads back as itself.
pub proof fn le_of_le_bytes(value: nat, width: nat)
    ensures
        le_bytes(value, width).len() == width,
        value < span(width) ==> le(le_bytes(value, width)) == value,
    decreases width,
{
    if width > 0 {
        le_of_le_bytes(value / 256, (width - 1) as nat);
        let bytes = le_bytes(value, width);
        assert(bytes.drop_first() =~= le_bytes(value / 256, (width - 1) as nat));
    }
}

/// Bytes are the spelling of the number they spell.
pub proof fn le_bytes_of_le(bytes: Seq<u8>)
    ensures
        le_bytes(le(bytes), bytes.len()) == bytes,
        le(bytes) < span(bytes.len()),
    decreases bytes.len(),
{
    if bytes.len() > 0 {
        le_bytes_of_le(bytes.drop_first());
        let v = le(bytes.drop_first());
        assert((bytes[0] as nat + 256 * v) % 256 == bytes[0]);
        assert((bytes[0] as nat + 256 * v) / 256 == v);
        assert(le_bytes(le(bytes), bytes.len()) =~= bytes);
    } else {
        assert(le_bytes(0, 0) =~= bytes);
    }
}

/// The widths in use.
pub proof fn spans()
    ensures
        span(1) == 0x100,
        span(2) == 0x1_0000,
        span(4) == 0x1_0000_0000,
        span(8) == 0x1_0000_0000_0000_0000,
{
    reveal_with_fuel(span, 9);
}

/// Reads a number of at most eight bytes.
pub fn read_le(bytes: &[u8]) -> (value: u64)
    requires
        bytes@.len() <= 8,
    ensures
        value == le(bytes@),
{
    proof {
        spans();
        span_grows(bytes@.len(), 8);
    }
    let mut value: u64 = 0;
    let mut at: usize = bytes.len();
    assert(bytes@.skip(at as int) =~= Seq::<u8>::empty());
    while at > 0
        invariant
            at <= bytes@.len(),
            bytes@.len() <= 8,
            span(8) == 0x1_0000_0000_0000_0000,
            value == le(bytes@.skip(at as int)),
        decreases at,
    {
        at -= 1;
        proof {
            let rest = bytes@.skip(at as int);
            assert(rest.drop_first() =~= bytes@.skip(at + 1));
            le_bytes_of_le(rest);
            span_grows(rest.len(), 8);
        }
        value = value * 256 + bytes[at] as u64;
    }
    assert(bytes@.skip(0) =~= bytes@);
    value
}

proof fn span_grows(low: nat, high: nat)
    requires
        low <= high,
    ensures
        span(low) <= span(high),
    decreases high,
{
    if low < high {
        span_grows(low, (high - 1) as nat);
    }
}

/// Appends `value` in `width` bytes, least significant byte first.
pub fn push_le(out: &mut Vec<u8>, value: u64, width: usize)
    requires
        width <= 8,
    ensures
        final(out)@ == old(out)@ + le_bytes(value as nat, width as nat),
{
    let mut rest: u64 = value;
    let mut left: usize = width;
    while left > 0
        invariant
            left <= width,
            old(out)@ + le_bytes(value as nat, width as nat) == out@ + le_bytes(
                rest as nat,
                left as nat,
            ),
        decreases left,
    {
        let ghost before = out@;
        out.push((rest % 256) as u8);
        proof {
            let more = le_bytes((rest / 256) as nat, (left - 1) as nat);
            assert(before + (seq![(rest % 256) as u8] + more) =~= out@ + more);
        }
        rest = rest / 256;
        left -= 1;
    }
    assert(out@ + le_bytes(rest as nat, 0) =~= out@);
}

/// Appends a byte slice.
pub fn push_bytes(out: &mut Vec<u8>, bytes: &[u8])
    ensures
        final(out)@ == old(out)@ + bytes@,
{
    out.extend_from_slice(bytes);
    assert(out@ =~= old(out)@ + bytes@);
}

/// The bytes `x` stand at `pos`.
pub open spec fn stands_at(b: Seq<u8>, pos: int, x: Seq<u8>) -> bool {
    0 <= pos && pos + x.len() <= b.len() && b.subrange(pos, pos + x.len()) == x
}

/// Two byte strings stand one behind the other exactly when their
/// concatenation stands there.
pub proof fn stands_split(b: Seq<u8>, pos: int, x: Seq<u8>, y: Seq<u8>)
    ensures
        stands_at(b, pos, x + y) <==> stands_at(b, pos, x) && stands_at(b, pos + x.len(), y),
{
    let n = x.len() as int;
    let m = y.len() as int;
    if stands_at(b, pos, x + y) {
        let whole = b.subrange(pos, pos + n + m);
        assert(b.subrange(pos, pos + n) =~= whole.subrange(0, n));
        assert(whole.subrange(0, n) =~= x);
        assert(b.subrange(pos + n, pos + n + m) =~= whole.subrange(n, n + m));
        assert(whole.subrange(n, n + m) =~= y);
    }
    if stands_at(b, pos, x) && stands_at(b, pos + n, y) {
        assert(b.subrange(pos, pos + n + m) =~= b.subrange(pos, pos + n) + b.subrange(
            pos + n,
            pos + n + m,
        ));
    }
}

/// A four-byte number stands where it is read.
pub proof fn stands_u32(b: Seq<u8>, pos: int, value: u32)
    ensures
        le_bytes(value as nat, 4).len() == 4,
        stands_at(b, pos, le_bytes(value as nat, 4)) <==> 0 <= pos && pos + 4 <= b.len() && u32_at(
            b,
            pos,
        ) == value,
{
    spans();
    le_of_le_bytes(value as nat, 4);
    if 0 <= pos && pos + 4 <= b.len() {
        le_bytes_of_le(b.subrange(pos, pos + 4));
    }
}

/// An eight-byte number stands where it is read.
pub proof fn stands_u64(b: Seq<u8>, pos: int, value: u64)
    ensures
        le_bytes(value as nat, 8).len() == 8,
        stands_at(b, pos, le_bytes(value as nat, 8)) <==> 0 <= pos && pos + 8 <= b.len() && u64_at(
            b,
            pos,
        ) == value,
{
    spans();
    le_of_le_bytes(value as nat, 8);
    if 0 <= pos && pos + 8 <= b.len() {
        le_bytes_of_le(b.subrange(pos, pos + 8));
    }
}

/// One byte stands where it is read.
pub proof fn stands_u8(b: Seq<u8>, pos: int, value: u8)
    ensures
        stands_at(b, pos, seq![value]) <==> 0 <= pos < b.len() && b[pos] == value,
{
    if 0 <= pos < b.len() {
        assert(b.subrange(pos, pos + 1) =~= seq![b[pos]]);
        if b.subrange(pos, pos + 1) == seq![value] {
            assert(seq![b[pos]][0] == seq![value][0]);
        }
    }
}

/// A number of four or eight bytes stands with its least byte first.
pub proof fn numbers_stand_least_byte_first(c: Seq<u8>, pos: int)
    requires
        0 <= pos,
    ensures
        pos + 4 <= c.len() ==> u32_at(c, pos) == c[pos] + 0x100 * c[pos + 1] + 0x1_0000 * c[pos + 2]
            + 0x100_0000 * c[pos + 3],
        pos + 8 <= c.len() ==> u64_at(c, pos) == u32_at(c, pos) + 0x1_0000_0000 * u32_at(c, pos + 4),
{
    if pos + 4 <= c.len() {
        four_bytes(c.subrange(pos, pos + 4));
    }
    if pos + 8 <= c.len() {
        let all = c.subrange(pos, pos + 8);
        let tail = c.subrange(pos + 4, pos + 8);
        four_bytes(tail);
        assert(all.drop_first().drop_first().drop_first().drop_first() =~= tail);
        reveal_with_fuel(le, 5);
        assert(le(all) == all[0] + 256 * (all[1] + 256 * (all[2] + 256 * (all[3] + 256 * le(tail)))));
    }
}

proof fn four_bytes(bytes: Seq<u8>)
    requires
        bytes.len() == 4,
    ensures
        le(bytes) == bytes[0] + 0x100 * bytes[1] + 0x1_0000 * bytes[2] + 0x100_0000 * bytes[3],
        le(bytes) <= u32::MAX,
{
    reveal_with_fuel(le, 5);
    assert(bytes.drop_first().drop_first().drop_first().drop_first() =~= Seq::empty());
}

} // verus!
