//! Fixed-width big-endian integer codec and a cursored byte scanner.
//!
//! All multi-byte integers in the file format are big-endian.  The spec-level
//! meaning of the encoding is given by `be_bytes` (value to bytes) and
//! `be_val` (bytes to value), and every executable function here is proved
//! against those two functions.

use vstd::prelude::*;

verus! {

/// Big-endian bytes of `v`, `n` bytes wide (most significant byte first).
pub open spec fn be_bytes(v: nat, n: nat) -> Seq<u8>
    decreases n,
{
    if n == 0 {
        Seq::empty()
    } else {
        be_bytes(v / 256, (n - 1) as nat).push((v % 256) as u8)
    }
}

/// The value stored by a big-endian byte string.
pub open spec fn be_val(s: Seq<u8>) -> nat
    decreases s.len(),
{
    if s.len() == 0 {
        0
    } else {
        be_val(s.drop_last()) * 256 + s.last() as nat
    }
}

/// The `n`-th power of 256: the number of values that `n` bytes can store.
pub open spec fn pow256(n: nat) -> nat
    decreases n,
{
    if n == 0 {
        1
    } else {
        256 * pow256((n - 1) as nat)
    }
}

/// The powers of 256 that the fixed widths of the format use.
pub proof fn lemma_pow256_vals()
    ensures
        pow256(0) == 1,
        pow256(1) == 256,
        pow256(2) == 0x1_0000,
        pow256(3) == 0x100_0000,
        pow256(4) == 0x1_0000_0000,
        pow256(8) == 0x1_0000_0000_0000_0000,
{
    assert(pow256(1) == 256 * pow256(0));
    assert(pow256(2) == 256 * pow256(1));
    assert(pow256(3) == 256 * pow256(2));
    assert(pow256(4) == 256 * pow256(3));
    assert(pow256(5) == 256 * pow256(4));
    assert(pow256(6) == 256 * pow256(5));
    assert(pow256(7) == 256 * pow256(6));
    assert(pow256(8) == 256 * pow256(7));
}

pub proof fn lemma_pow256_increases(m: nat, n: nat)
    requires
        m <= n,
    ensures
        pow256(m) <= pow256(n),
    decreases n,
{
    if m < n {
        lemma_pow256_increases(m, (n - 1) as nat);
        assert(pow256(n) == 256 * pow256((n - 1) as nat));
        assert(pow256((n - 1) as nat) <= 256 * pow256((n - 1) as nat)) by (nonlinear_arith)
            requires
                pow256((n - 1) as nat) >= 0,
        ;
    }
}

pub proof fn lemma_be_bytes_len(v: nat, n: nat)
    ensures
        be_bytes(v, n).len() == n,
    decreases n,
{
    if n > 0 {
        lemma_be_bytes_len(v / 256, (n - 1) as nat);
    }
}

/// A big-endian byte string of length `n` stores a value below `256^n`.
pub proof fn lemma_be_val_bound(s: Seq<u8>)
    ensures
        be_val(s) < pow256(s.len()),
    decreases s.len(),
{
    if s.len() == 0 {
    } else {
        lemma_be_val_bound(s.drop_last());
        assert(pow256(s.len()) == 256 * pow256((s.len() - 1) as nat));
        assert(be_val(s.drop_last()) * 256 <= (pow256((s.len() - 1) as nat) - 1) * 256)
            by (nonlinear_arith)
            requires
                be_val(s.drop_last()) <= pow256((s.len() - 1) as nat) - 1,
        ;
    }
}

/// Decoding inverts encoding: the round trip through `be_bytes` and `be_val`
/// returns the value, for any value that fits in `n` bytes.
pub proof fn lemma_be_round_trip(v: nat, n: nat)
    requires
        v < pow256(n),
    ensures
        be_val(be_bytes(v, n)) == v,
    decreases n,
{
    if n == 0 {
    } else {
        let d = v / 256;
        assert(pow256(n) == 256 * pow256((n - 1) as nat));
        assert(d < pow256((n - 1) as nat)) by (nonlinear_arith)
            requires
                v < 256 * pow256((n - 1) as nat),
                d == v / 256,
        ;
        lemma_be_round_trip(d, (n - 1) as nat);
        lemma_be_bytes_len(d, (n - 1) as nat);
        assert(be_bytes(v, n).drop_last() =~= be_bytes(d, (n - 1) as nat));
        assert(d * 256 + v % 256 == v) by (nonlinear_arith)
            requires
                d == v / 256,
        ;
    }
}

/// Encode `v` as 8 big-endian bytes.
pub fn u64_to_u8v(v: u64) -> (r: Vec<u8>)
    ensures
        r@ == be_bytes(v as nat, 8),
        r@.len() == 8,
{
    let mut r: Vec<u8> = Vec::new();
    let mut i: usize = 0;
    let mut x: u64 = v;
    // Fill from the least significant byte, then reverse.
    while i < 8
        invariant
            i <= 8,
            r@.len() == i,
            be_bytes(v as nat, 8) == be_bytes(x as nat, (8 - i) as nat).add(r@.reverse()),
        decreases 8 - i,
    {
        let ghost old_r = r@;
        let ghost old_x = x as nat;
        let b: u8 = (x % 256) as u8;
        r.push(b);
        x = x / 256;
        i = i + 1;
        proof {
            assert(r@.reverse() =~= seq![b].add(old_r.reverse()));
            assert(be_bytes(old_x, (9 - i) as nat) == be_bytes(old_x / 256, (8 - i) as nat).push(
                b,
            ));
            assert(be_bytes(old_x / 256, (8 - i) as nat).push(b).add(old_r.reverse())
                =~= be_bytes(old_x / 256, (8 - i) as nat).add(seq![b].add(old_r.reverse())));
        }
    }
    let mut out: Vec<u8> = Vec::new();
    let mut j: usize = 8;
    while j > 0
        invariant
            j <= 8,
            r@.len() == 8,
            out@.len() == 8 - j,
            out@ =~= r@.reverse().take((8 - j) as int),
        decreases j,
    {
        j = j - 1;
        out.push(r[j]);
        proof {
            assert(out@ =~= r@.reverse().take((8 - j) as int));
        }
    }
    proof {
        assert(be_bytes(x as nat, 0).add(r@.reverse()) =~= r@.reverse());
        assert(out@ =~= r@.reverse());
    }
    out
}

/// Decode 8 big-endian bytes.
pub fn u8v_to_u64(v: &[u8]) -> (r: u64)
    requires
        v@.len() == 8,
    ensures
        r as nat == be_val(v@),
{
    proof {
        lemma_be_val_bound(v@);
        lemma_pow256_vals();
    }
    let mut r: u64 = 0;
    let mut i: usize = 0;
    while i < 8
        invariant
            i <= 8,
            v@.len() == 8,
            r as nat == be_val(v@.take(i as int)),
            (r as nat) < pow256(i as nat),
        decreases 8 - i,
    {
        proof {
            assert(v@.take((i + 1) as int).drop_last() =~= v@.take(i as int));
            assert(pow256((i + 1) as nat) == 256 * pow256(i as nat));
            assert((r as nat) * 256 + 255 < 256 * pow256(i as nat)) by (nonlinear_arith)
                requires
                    (r as nat) < pow256(i as nat),
            ;
            lemma_pow256_vals();
            lemma_pow256_increases((i + 1) as nat, 8);
        }
        r = r * 256 + (v[i] as u64);
        i = i + 1;
    }
    proof {
        assert(v@.take(8) =~= v@);
    }
    r
}

/// Encode `v` as 4 big-endian bytes.
pub fn u32_to_u8v(v: u32) -> (r: Vec<u8>)
    ensures
        r@ == be_bytes(v as nat, 4),
        r@.len() == 4,
{
    proof {
        lemma_be_bytes_len(v as nat, 4);
    }
    let b0: u8 = (v / 0x100_0000) as u8;
    let b1: u8 = ((v / 0x1_0000) % 256) as u8;
    let b2: u8 = ((v / 256) % 256) as u8;
    let b3: u8 = (v % 256) as u8;
    let r: Vec<u8> = vec![b0, b1, b2, b3];
    proof {
        lemma_unfold_4(v as nat);
        assert(r@ =~= be_bytes(v as nat, 4));
    }
    r
}

proof fn lemma_unfold_4(v: nat)
    requires
        v < 0x1_0000_0000,
    ensures
        be_bytes(v, 4) =~= seq![
            (v / 0x100_0000) as u8,
            ((v / 0x1_0000) % 256) as u8,
            ((v / 256) % 256) as u8,
            (v % 256) as u8,
        ],
{
    lemma_be_bytes_len(v, 4);
    assert(be_bytes(v, 4) == be_bytes(v / 256, 3).push((v % 256) as u8));
    assert(be_bytes(v / 256, 3) == be_bytes(v / 256 / 256, 2).push((v / 256 % 256) as u8));
    assert(be_bytes(v / 256 / 256, 2) == be_bytes(v / 256 / 256 / 256, 1).push(
        (v / 256 / 256 % 256) as u8,
    ));
    assert(be_bytes(v / 256 / 256 / 256, 1) == be_bytes(v / 256 / 256 / 256 / 256, 0).push(
        (v / 256 / 256 / 256 % 256) as u8,
    ));
    assert(v / 256 / 256 / 256 / 256 == 0) by (nonlinear_arith)
        requires
            v < 0x1_0000_0000,
    ;
    assert(v / 256 / 256 == v / 0x1_0000) by (nonlinear_arith);
    assert(v / 256 / 256 / 256 == v / 0x100_0000) by (nonlinear_arith);
    assert(v / 0x100_0000 % 256 == v / 0x100_0000) by (nonlinear_arith)
        requires
            v < 0x1_0000_0000,
    ;
}

/// Decode 4 big-endian bytes.
pub fn u8v_to_u32(v: &[u8]) -> (r: u32)
    requires
        v@.len() == 4,
    ensures
        r as nat == be_val(v@),
{
    proof {
        lemma_be_val_bound(v@);
        lemma_pow256_vals();
        assert(v@.take(1).drop_last() =~= v@.take(0));
        assert(v@.take(2).drop_last() =~= v@.take(1));
        assert(v@.take(3).drop_last() =~= v@.take(2));
        assert(v@.take(4).drop_last() =~= v@.take(3));
        assert(v@.take(4) =~= v@);
        lemma_be_val_bound(v@.take(1));
        lemma_be_val_bound(v@.take(2));
        lemma_be_val_bound(v@.take(3));
    }
    let r: u32 = ((v[0] as u32) * 0x100_0000) + ((v[1] as u32) * 0x1_0000) + ((v[2] as u32) * 256)
        + (v[3] as u32);
    proof {
        assert(be_val(v@) == ((v@[0] as nat) * 256 + v@[1]) * 256 * 256 + (v@[2] as nat) * 256
            + v@[3]);
        assert(((v@[0] as nat) * 256 + v@[1]) * 256 * 256 == (v@[0] as nat) * 0x100_0000 + (
        v@[1] as nat) * 0x1_0000) by (nonlinear_arith);
    }
    r
}

/// Encode `v` as 2 big-endian bytes.
pub fn u16_to_u8v(v: u16) -> (r: Vec<u8>)
    ensures
        r@ == be_bytes(v as nat, 2),
        r@.len() == 2,
{
    let b0: u8 = (v / 256) as u8;
    let b1: u8 = (v % 256) as u8;
    let r: Vec<u8> = vec![b0, b1];
    proof {
        assert(be_bytes(v as nat, 2) == be_bytes(v as nat / 256, 1).push((v as nat % 256) as u8));
        assert(be_bytes(v as nat / 256, 1) == be_bytes(v as nat / 256 / 256, 0).push(
            (v as nat / 256 % 256) as u8,
        ));
        assert(v as nat / 256 % 256 == v as nat / 256) by (nonlinear_arith)
            requires
                v < 0x1_0000,
        ;
        assert(r@ =~= be_bytes(v as nat, 2));
    }
    r
}

/// Decode 2 big-endian bytes.
pub fn u8v_to_u16(v: &[u8]) -> (r: u16)
    requires
        v@.len() == 2,
    ensures
        r as nat == be_val(v@),
{
    let r: u16 = (v[0] as u16) * 256 + (v[1] as u16);
    proof {
        assert(v@.drop_last().drop_last() =~= Seq::<u8>::empty());
        assert(be_val(v@) == be_val(v@.drop_last()) * 256 + v@.last() as nat);
        assert(be_val(v@.drop_last()) == be_val(v@.drop_last().drop_last()) * 256
            + v@.drop_last().last() as nat);
        assert(be_val(Seq::<u8>::empty()) == 0);
    }
    r
}

/// A cursor over a byte buffer.  Every read advances the position; reading
/// past the end of the buffer is ruled out by the callers' preconditions.
pub struct Scanner<'a> {
    buf: &'a [u8],
    pos: usize,
}

impl<'a> Scanner<'a> {
    /// The bytes under the cursor.
    pub closed spec fn buf_spec(&self) -> Seq<u8> {
        self.buf@
    }

    /// The current position.
    pub closed spec fn pos_spec(&self) -> nat {
        self.pos as nat
    }

    pub closed spec fn wf(&self) -> bool {
        self.pos <= self.buf@.len()
    }

    pub fn new(buf: &'a [u8]) -> (r: Self)
        ensures
            r.buf_spec() == buf@,
            r.pos_spec() == 0,
            r.wf(),
    {
        Self { buf, pos: 0 }
    }

    /// How many bytes are left to read.
    pub fn remaining(&self) -> (r: usize)
        requires
            self.wf(),
        ensures
            r == self.buf_spec().len() - self.pos_spec(),
    {
        self.buf.len() - self.pos
    }

    pub fn forward(&mut self, n: usize)
        requires
            old(self).wf(),
            old(self).pos_spec() + n <= old(self).buf_spec().len(),
        ensures
            final(self).wf(),
            final(self).buf_spec() == old(self).buf_spec(),
            final(self).pos_spec() == old(self).pos_spec() + n,
    {
        let total = self.buf.len();
        assert(self.pos + n <= total);
        self.pos = self.pos + n;
    }

    /// Read `n` bytes and advance.
    pub fn read(&mut self, n: usize) -> (r: Vec<u8>)
        requires
            old(self).wf(),
            old(self).pos_spec() + n <= old(self).buf_spec().len(),
        ensures
            final(self).wf(),
            final(self).buf_spec() == old(self).buf_spec(),
            final(self).pos_spec() == old(self).pos_spec() as int + n,
            r@ == old(self).buf_spec().subrange(
                old(self).pos_spec() as int,
                old(self).pos_spec() as int + n,
            ),
    {
        let total = self.buf.len();
        assert(self.pos + n <= total);
        let mut r: Vec<u8> = Vec::new();
        let mut i: usize = 0;
        while i < n
            invariant
                self.wf(),
                i <= n,
                self.pos + n <= self.buf@.len(),
                self.buf@.len() <= usize::MAX,
                r@.len() == i,
                r@ =~= self.buf@.subrange(self.pos as int, self.pos + i),
            decreases n - i,
        {
            r.push(self.buf[self.pos + i]);
            i = i + 1;
            proof {
                assert(r@ =~= self.buf@.subrange(self.pos as int, self.pos + i));
            }
        }
        self.pos = self.pos + n;
        r
    }

    pub fn read_u64(&mut self) -> (r: u64)
        requires
            old(self).wf(),
            old(self).pos_spec() + 8 <= old(self).buf_spec().len(),
        ensures
            final(self).wf(),
            final(self).buf_spec() == old(self).buf_spec(),
            final(self).pos_spec() == old(self).pos_spec() as int + 8,
            r as nat == be_val(
                old(self).buf_spec().subrange(
                    old(self).pos_spec() as int,
                    old(self).pos_spec() as int + 8,
                ),
            ),
    {
        let b = self.read(8);
        u8v_to_u64(b.as_slice())
    }

    pub fn read_u32(&mut self) -> (r: u32)
        requires
            old(self).wf(),
            old(self).pos_spec() + 4 <= old(self).buf_spec().len(),
        ensures
            final(self).wf(),
            final(self).buf_spec() == old(self).buf_spec(),
            final(self).pos_spec() == old(self).pos_spec() as int + 4,
            r as nat == be_val(
                old(self).buf_spec().subrange(
                    old(self).pos_spec() as int,
                    old(self).pos_spec() as int + 4,
                ),
            ),
    {
        let b = self.read(4);
        u8v_to_u32(b.as_slice())
    }

    pub fn read_u16(&mut self) -> (r: u16)
        requires
            old(self).wf(),
            old(self).pos_spec() + 2 <= old(self).buf_spec().len(),
        ensures
            final(self).wf(),
            final(self).buf_spec() == old(self).buf_spec(),
            final(self).pos_spec() == old(self).pos_spec() as int + 2,
            r as nat == be_val(
                old(self).buf_spec().subrange(
                    old(self).pos_spec() as int,
                    old(self).pos_spec() as int + 2,
                ),
            ),
    {
        let b = self.read(2);
        u8v_to_u16(b.as_slice())
    }

    pub fn read_u8(&mut self) -> (r: u8)
        requires
            old(self).wf(),
            old(self).pos_spec() + 1 <= old(self).buf_spec().len(),
        ensures
            final(self).wf(),
            final(self).buf_spec() == old(self).buf_spec(),
            final(self).pos_spec() == old(self).pos_spec() + 1,
            r == old(self).buf_spec()[old(self).pos_spec() as int],
    {
        let r = self.buf[self.pos];
        self.pos = self.pos + 1;
        r
    }

    pub fn is_end(&self) -> (r: bool)
        requires
            self.wf(),
        ensures
            r == (self.pos_spec() == self.buf_spec().len()),
    {
        self.pos == self.buf.len()
    }
}

} // verus!
