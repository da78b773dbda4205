//! Numbers spelled out in bytes.

use vstd::prelude::*;

verus! {

/// The number that the bytes spell, the first byte being the least significant
/// one where `little` holds and the most significant one otherwise.
pub open spec fn spelled(bytes: Seq<u8>, little: bool) -> int
    decreases bytes.len(),
{
    if bytes.len() == 0 {
        0
    } else if little {
        spelled(bytes.drop_first(), little) * 256 + bytes[0]
    } else {
        spelled(bytes.drop_last(), little) * 256 + bytes.last()
    }
}

/// `256` to the power of `n`.
pub open spec fn span(n: nat) -> int
    decreases n,
{
    if n == 0 {
        1
    } else {
        span((n - 1) as nat) * 256
    }
}

pub proof fn lemma_span()
    ensures
        span(8) == 0x1_0000_0000_0000_0000,
        forall|a: nat, b: nat| a <= b ==> #[trigger] span(a) <= #[trigger] span(b),
{
    reveal_with_fuel(span, 9);
    assert forall|a: nat, b: nat| a <= b implies #[trigger] span(a) <= #[trigger] span(b) by {
        lemma_span_grows(a, b);
    }
}

pub proof fn lemma_span_grows(a: nat, b: nat)
    requires
        a <= b,
    ensures
        1 <= span(a) <= span(b),
    decreases b,
{
    if a < b {
        lemma_span_grows(a, (b - 1) as nat);
    } else if a > 0 {
        lemma_span_grows((a - 1) as nat, (a - 1) as nat);
    }
}

/// The number spelled by `len` bytes from `from` on.
pub fn read_word(bytes: &[u8], from: usize, len: usize, little: bool) -> (r: u64)
    requires
        from + len <= bytes@.len(),
        len <= 8,
    ensures
        r == spelled(bytes@.subrange(from as int, from + len), little),
{
    let n: usize = bytes.len();
    let mut r: u64 = 0;
    let mut i: usize = 0;
    proof {
        lemma_span();
    }
    if little {
        assert(bytes@.subrange(from + len, from + len) =~= Seq::<u8>::empty());
        while i < len
            invariant
                i <= len <= 8,
                n == bytes@.len(),
                from + len <= n,
                r == spelled(bytes@.subrange(from + len - i, from + len), true),
                0 <= r < span(i as nat),
                span(8) == 0x1_0000_0000_0000_0000,
                forall|a: nat, b: nat| a <= b ==> #[trigger] span(a) <= #[trigger] span(b),
            decreases len - i,
        {
            let byte: u8 = bytes[from + len - 1 - i];
            proof {
                let next = bytes@.subrange(from + len - 1 - i, from + len);
                assert(next.drop_first() =~= bytes@.subrange(from + len - i, from + len));
                assert(next[0] == byte);
                assert(span((i + 1) as nat) == span(i as nat) * 256);
                assert(span((i + 1) as nat) <= span(8));
            }
            r = r * 256 + byte as u64;
            i += 1;
        }
        r
    } else {
        assert(bytes@.subrange(from as int, from as int) =~= Seq::<u8>::empty());
        while i < len
            invariant
                i <= len <= 8,
                n == bytes@.len(),
                from + len <= n,
                r == spelled(bytes@.subrange(from as int, from + i), false),
                0 <= r < span(i as nat),
                span(8) == 0x1_0000_0000_0000_0000,
                forall|a: nat, b: nat| a <= b ==> #[trigger] span(a) <= #[trigger] span(b),
            decreases len - i,
        {
            let byte: u8 = bytes[from + i];
            proof {
                let next = bytes@.subrange(from as int, from + i + 1);
                assert(next.drop_last() =~= bytes@.subrange(from as int, from + i));
                assert(next.last() == byte);
                assert(span((i + 1) as nat) == span(i as nat) * 256);
                assert(span((i + 1) as nat) <= span(8));
            }
            r = r * 256 + byte as u64;
            i += 1;
        }
        r
    }
}

/// The `n` bytes that spell `x`, the least significant one first.
pub open spec fn le_bytes(x: int, n: nat) -> Seq<u8>
    decreases n,
{
    if n == 0 {
        Seq::empty()
    } else {
        seq![(x % 256) as u8] + le_bytes(x / 256, (n - 1) as nat)
    }
}

/// The bytes spell the number again, if it fits.
pub proof fn lemma_le_bytes(x: int, n: nat)
    requires
        0 <= x < span(n),
    ensures
        le_bytes(x, n).len() == n,
        spelled(le_bytes(x, n), true) == x,
    decreases n,
{
    if n > 0 {
        lemma_le_bytes(x / 256, (n - 1) as nat);
        let all = le_bytes(x, n);
        assert(all.drop_first() =~= le_bytes(x / 256, (n - 1) as nat));
        assert(all[0] == (x % 256) as u8);
    }
}

/// How many bytes there are.
pub proof fn lemma_le_bytes_len(x: int, n: nat)
    ensures
        le_bytes(x, n).len() == n,
    decreases n,
{
    if n > 0 {
        lemma_le_bytes_len(x / 256, (n - 1) as nat);
    }
}

/// Zero bytes spell zero.
pub proof fn lemma_spelled_zero(bytes: Seq<u8>)
    requires
        forall|i: int| 0 <= i < bytes.len() ==> #[trigger] bytes[i] == 0,
    ensures
        spelled(bytes, true) == 0,
    decreases bytes.len(),
{
    if bytes.len() > 0 {
        let rest = bytes.drop_first();
        assert forall|i: int| 0 <= i < rest.len() implies #[trigger] rest[i] == 0 by {
            assert(bytes[i + 1] == 0);
        }
        lemma_spelled_zero(rest);
    }
}

/// What bytes spell is bounded by how many there are.
pub proof fn lemma_spelled_bound(bytes: Seq<u8>)
    ensures
        0 <= spelled(bytes, true) < span(bytes.len()),
    decreases bytes.len(),
{
    if bytes.len() > 0 {
        lemma_spelled_bound(bytes.drop_first());
    }
}

/// Appends the `n` bytes that spell `x`, the least significant one first.
pub fn push_le(out: &mut Vec<u8>, x: u64, n: usize)
    ensures
        final(out)@ == old(out)@ + le_bytes(x as int, n as nat),
{
    let ghost before = out@;
    let mut rest: u64 = x;
    let mut i: usize = 0;
    proof {
        lemma_le_bytes_len(x as int, n as nat);
    }
    while i < n
        invariant
            i <= n,
            out@ + le_bytes(rest as int, (n - i) as nat) == before + le_bytes(x as int, n as nat),
        decreases n - i,
    {
        let ghost sofar = out@;
        let byte: u8 = (rest % 256) as u8;
        out.push(byte);
        proof {
            let tail = le_bytes(rest as int / 256, (n - i - 1) as nat);
            assert(le_bytes(rest as int, (n - i) as nat) == seq![byte] + tail);
            assert(out@ + tail =~= sofar + (seq![byte] + tail));
        }
        rest = rest / 256;
        i += 1;
    }
    assert(out@ =~= out@ + le_bytes(rest as int, 0));
}

/// Appends the bytes.
pub fn push_all(out: &mut Vec<u8>, bytes: &[u8])
    ensures
        final(out)@ == old(out)@ + bytes@,
{
    let ghost before = out@;
    let n: usize = bytes.len();
    assert(out@ =~= before + bytes@.take(0));
    for i in 0..n
        invariant
            n == bytes@.len(),
            out@ == before + bytes@.take(i as int),
    {
        out.push(bytes[i]);
        assert(before + bytes@.take(i + 1) =~= (before + bytes@.take(i as int)).push(
            bytes@[i as int],
        ));
    }
    assert(bytes@.take(n as int) =~= bytes@);
}

} // verus!
