use vstd::prelude::*;

verus! {

/// 256 to the power `n`.
pub open spec fn pow256(n: nat) -> nat
    decreases n,
{
    if n == 0 {
        1
    } else {
        256 * pow256((n - 1) as nat)
    }
}

/// The number that a little-endian byte sequence denotes.
pub open spec fn le_value(b: Seq<u8>) -> nat
    decreases b.len(),
{
    if b.len() == 0 {
        0
    } else {
        b[0] as nat + 256 * le_value(b.drop_first())
    }
}

/// The `len` low bytes of `x`, least significant first.
pub open spec fn le_bytes(x: nat, len: nat) -> Seq<u8>
    decreases len,
{
    if len == 0 {
        Seq::empty()
    } else {
        seq![(x % 256) as u8] + le_bytes(x / 256, (len - 1) as nat)
    }
}

pub proof fn lemma_le_bytes_len(x: nat, len: nat)
    ensures
        le_bytes(x, len).len() == len,
    decreases len,
{
    if len > 0 {
        lemma_le_bytes_len(x / 256, (len - 1) as nat);
    }
}

pub proof fn lemma_pow256_8()
    ensures
        pow256(4) == 0x1_0000_0000,
        pow256(8) == 0x1_0000_0000_0000_0000,
{
    reveal_with_fuel(pow256, 9);
}

/// Decoding the encoding of a number that fits gives the number back.
pub proof fn lemma_le_round_trip(x: nat, len: nat)
    requires
        x < pow256(len),
    ensures
        le_value(le_bytes(x, len)) == x,
        le_bytes(x, len).len() == len,
    decreases len,
{
    lemma_le_bytes_len(x, len);
    if len > 0 {
        let p = pow256((len - 1) as nat);
        assert(x / 256 < p) by (nonlinear_arith)
            requires
                x < 256 * p,
        ;
        lemma_le_round_trip(x / 256, (len - 1) as nat);
        let b = le_bytes(x, len);
        assert(b.drop_first() =~= le_bytes(x / 256, (len - 1) as nat));
        assert(x == x % 256 + 256 * (x / 256)) by (nonlinear_arith);
    }
}

/// A value of `len` bytes is below `256^len`.
pub proof fn lemma_le_value_bound(b: Seq<u8>)
    ensures
        le_value(b) < pow256(b.len()),
    decreases b.len(),
{
    if b.len() > 0 {
        lemma_le_value_bound(b.drop_first());
        let v = le_value(b.drop_first());
        let p = pow256(b.drop_first().len());
        let d = b[0] as nat;
        assert(d + 256 * v < 256 * p) by (nonlinear_arith)
            requires
                v < p,
                d < 256,
        ;
    }
}

/// Appends the `len` low bytes of `x` to `out`, least significant first.
pub fn push_le(out: &mut Vec<u8>, x: u64, len: usize)
    requires
        len <= 8,
    ensures
        final(out)@ == old(out)@ + le_bytes(x as nat, len as nat),
{
    let mut v: u64 = x;
    let mut i: usize = 0;
    while i < len
        invariant
            i <= len,
            out@ + le_bytes(v as nat, (len - i) as nat) == old(out)@ + le_bytes(x as nat, len as nat),
        decreases len - i,
    {
        let ghost before = out@;
        out.push((v % 256) as u8);
        proof {
            let rest = le_bytes(v as nat / 256, (len - i - 1) as nat);
            assert(le_bytes(v as nat, (len - i) as nat) == seq![(v as nat % 256) as u8] + rest);
            assert(out@ + rest =~= before + le_bytes(v as nat, (len - i) as nat));
        }
        v = v / 256;
        i = i + 1;
    }
    assert(out@ + le_bytes(v as nat, 0) =~= out@);
}

/// Reads the little-endian number held in `buf[off .. off + len]`.
pub fn read_le(buf: &[u8], off: usize, len: usize) -> (r: u64)
    requires
        len <= 8,
        off + len <= buf@.len(),
    ensures
        r as nat == le_value(buf@.subrange(off as int, off + len)),
{
    proof {
        lemma_pow256_8();
    }
    let blen: usize = buf.len();
    let mut acc: u64 = 0;
    let mut i: usize = len;
    while i > 0
        invariant
            i <= len <= 8,
            off + len <= buf@.len(),
            blen == buf@.len(),
            pow256(8) == 0x1_0000_0000_0000_0000,
            acc as nat == le_value(buf@.subrange(off + i, off + len)),
        decreases i,
    {
        i = i - 1;
        let ghost tail = buf@.subrange(off + i + 1, off + len);
        let ghost whole = buf@.subrange(off + i, off + len);
        proof {
            assert(whole.drop_first() =~= tail);
            lemma_le_value_bound(whole);
            lemma_pow256_mono(whole.len(), 8);
            assert(whole[0] == buf@[off + i]);
            assert(le_value(whole) == buf@[off + i] as nat + 256 * acc);
        }
        acc = acc * 256 + buf[off + i] as u64;
    }
    acc
}

pub proof fn lemma_pow256_mono(a: nat, b: nat)
    requires
        a <= b,
    ensures
        pow256(a) <= pow256(b),
    decreases b,
{
    if a < b {
        lemma_pow256_mono(a, (b - 1) as nat);
    }
}

} // verus!
