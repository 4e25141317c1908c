//! Keys, values, and the two orders of the index.
//!
//! A key is a byte string (UTF-8 text).  Two comparisons are used in
//! different places and must stay distinct: the *raw* comparison is plain
//! lexicographic byte order, and the *smoothed* comparison first lower-cases
//! ASCII letters.  Leaf-level comparisons smooth both sides; index-level
//! routing compares the query's smoothed form against separators that were
//! stored already smoothed at split time.

use vstd::prelude::*;

verus! {

/// The outcome of a comparison.
#[derive(Clone, Copy, PartialEq, Eq, Structural, Debug)]
pub enum Cmp {
    Lt,
    Eq,
    Gt,
}

impl Cmp {
    #[verifier::inline]
    pub open spec fn spec_is_le(self) -> bool {
        self != Cmp::Gt
    }

    #[verifier::inline]
    pub open spec fn spec_is_ge(self) -> bool {
        self != Cmp::Lt
    }

    pub fn is_le(self) -> (r: bool)
        ensures
            r == self.spec_is_le(),
    {
        !matches!(self, Cmp::Gt)
    }

    pub fn is_ge(self) -> (r: bool)
        ensures
            r == self.spec_is_ge(),
    {
        !matches!(self, Cmp::Lt)
    }

    pub fn is_eq(self) -> (r: bool)
        ensures
            r == (self == Cmp::Eq),
    {
        matches!(self, Cmp::Eq)
    }

    pub fn is_lt(self) -> (r: bool)
        ensures
            r == (self == Cmp::Lt),
    {
        matches!(self, Cmp::Lt)
    }

    pub fn is_gt(self) -> (r: bool)
        ensures
            r == (self == Cmp::Gt),
    {
        matches!(self, Cmp::Gt)
    }
}

/// ASCII lower-casing of one byte.
pub open spec fn smooth_byte(b: u8) -> u8 {
    if 65 <= b && b <= 90 {
        (b + 32) as u8
    } else {
        b
    }
}

/// The smoothed form of a key: every ASCII upper-case letter lower-cased.
pub open spec fn smoothed(s: Seq<u8>) -> Seq<u8> {
    s.map_values(|b: u8| smooth_byte(b))
}

/// Lexicographic byte comparison.
pub open spec fn lex_cmp(a: Seq<u8>, b: Seq<u8>) -> Cmp
    decreases a.len(),
{
    if a.len() == 0 && b.len() == 0 {
        Cmp::Eq
    } else if a.len() == 0 {
        Cmp::Lt
    } else if b.len() == 0 {
        Cmp::Gt
    } else if a[0] < b[0] {
        Cmp::Lt
    } else if a[0] > b[0] {
        Cmp::Gt
    } else {
        lex_cmp(a.drop_first(), b.drop_first())
    }
}

/// The comparison used at leaf level and for routing: both sides smoothed.
#[verifier::inline]
pub open spec fn cmp_smoothed(a: Seq<u8>, b: Seq<u8>) -> Cmp {
    lex_cmp(smoothed(a), smoothed(b))
}

/// `p` is a prefix of `a`.
pub open spec fn is_prefix(p: Seq<u8>, a: Seq<u8>) -> bool {
    p.len() <= a.len() && a.take(p.len() as int) == p
}

pub proof fn lemma_lex_cmp_eq(a: Seq<u8>, b: Seq<u8>)
    ensures
        lex_cmp(a, b) == Cmp::Eq <==> a == b,
    decreases a.len(),
{
    if a.len() == 0 && b.len() == 0 {
        assert(a =~= b);
    } else if a.len() == 0 || b.len() == 0 {
    } else if a[0] == b[0] {
        lemma_lex_cmp_eq(a.drop_first(), b.drop_first());
        if lex_cmp(a, b) == Cmp::Eq {
            assert(a =~= seq![a[0]].add(a.drop_first()));
            assert(b =~= seq![b[0]].add(b.drop_first()));
        } else if a == b {
            assert(a.drop_first() =~= b.drop_first());
        }
    } else {
        if a == b {
            assert(a[0] == b[0]);
        }
    }
}

/// Swapping the sides swaps `Lt` and `Gt`.
pub proof fn lemma_lex_cmp_flip(a: Seq<u8>, b: Seq<u8>)
    ensures
        (lex_cmp(a, b) == Cmp::Lt) == (lex_cmp(b, a) == Cmp::Gt),
        (lex_cmp(a, b) == Cmp::Eq) == (lex_cmp(b, a) == Cmp::Eq),
    decreases a.len(),
{
    if a.len() > 0 && b.len() > 0 && a[0] == b[0] {
        lemma_lex_cmp_flip(a.drop_first(), b.drop_first());
    }
}

/// Transitivity of the lexicographic order: from `a <= b` and `b <= c`
/// follows `a <= c`, strictly whenever either step is strict.
pub proof fn lemma_lex_cmp_trans(a: Seq<u8>, b: Seq<u8>, c: Seq<u8>)
    requires
        lex_cmp(a, b) != Cmp::Gt,
        lex_cmp(b, c) != Cmp::Gt,
    ensures
        lex_cmp(a, c) != Cmp::Gt,
        lex_cmp(a, b) == Cmp::Lt || lex_cmp(b, c) == Cmp::Lt ==> lex_cmp(a, c) == Cmp::Lt,
    decreases a.len() + b.len() + c.len(),
{
    lemma_lex_cmp_eq(a, b);
    lemma_lex_cmp_eq(b, c);
    lemma_lex_cmp_eq(a, c);
    if a == b || b == c {
    } else if a.len() == 0 {
        if c.len() == 0 {
            assert(b.len() > 0);
            assert(lex_cmp(b, c) == Cmp::Gt);
        }
    } else {
        assert(b.len() > 0);
        assert(c.len() > 0) by {
            if c.len() == 0 {
                assert(lex_cmp(b, c) == Cmp::Gt);
            }
        }
        if a[0] == b[0] && b[0] == c[0] {
            lemma_lex_cmp_trans(a.drop_first(), b.drop_first(), c.drop_first());
        } else {
            assert(a[0] <= b[0] && b[0] <= c[0]);
        }
    }
}

/// Compare two byte strings, raw.
pub fn cmp_bytes(a: &[u8], b: &[u8]) -> (r: Cmp)
    ensures
        r == lex_cmp(a@, b@),
{
    let mut i: usize = 0;
    let alen = a.len();
    let blen = b.len();
    proof {
        assert(a@.skip(0) =~= a@);
        assert(b@.skip(0) =~= b@);
    }
    while i < alen && i < blen
        invariant
            alen == a@.len(),
            blen == b@.len(),
            i <= alen,
            i <= blen,
            lex_cmp(a@, b@) == lex_cmp(a@.skip(i as int), b@.skip(i as int)),
        decreases alen - i,
    {
        let x = a[i];
        let y = b[i];
        if x < y {
            proof {
                assert(a@.skip(i as int)[0] == x);
                assert(b@.skip(i as int)[0] == y);
            }
            return Cmp::Lt;
        }
        if x > y {
            proof {
                assert(a@.skip(i as int)[0] == x);
                assert(b@.skip(i as int)[0] == y);
            }
            return Cmp::Gt;
        }
        proof {
            let sa = a@.skip(i as int);
            let sb = b@.skip(i as int);
            assert(sa[0] == x && sb[0] == y);
            assert(sa.drop_first() =~= a@.skip(i + 1));
            assert(sb.drop_first() =~= b@.skip(i + 1));
        }
        i = i + 1;
    }
    proof {
        let sa = a@.skip(i as int);
        let sb = b@.skip(i as int);
        if i == alen {
            assert(sa.len() == 0);
        } else {
            assert(sb.len() == 0);
            assert(sa.len() > 0);
        }
    }
    if alen == blen {
        Cmp::Eq
    } else if alen < blen {
        proof {
            if i == alen {
                assert(b@.skip(i as int).len() > 0);
            }
        }
        Cmp::Lt
    } else {
        Cmp::Gt
    }
}

/// Lower-case one byte, ASCII only.
pub fn smooth_u8(b: u8) -> (r: u8)
    ensures
        r == smooth_byte(b),
{
    if 65 <= b && b <= 90 {
        b + 32
    } else {
        b
    }
}

/// The smoothed form of a byte string.
pub fn smooth_bytes(v: &[u8]) -> (r: Vec<u8>)
    ensures
        r@ == smoothed(v@),
{
    let mut r: Vec<u8> = Vec::new();
    let mut i: usize = 0;
    let n = v.len();
    while i < n
        invariant
            n == v@.len(),
            i <= n,
            r@ =~= smoothed(v@).take(i as int),
        decreases n - i,
    {
        r.push(smooth_u8(v[i]));
        i = i + 1;
        proof {
            assert(r@ =~= smoothed(v@).take(i as int));
        }
    }
    proof {
        assert(smoothed(v@).take(n as int) =~= smoothed(v@));
    }
    r
}

/// Does `a` start with `p`, byte for byte?
pub fn starts_with(a: &[u8], p: &[u8]) -> (r: bool)
    ensures
        r == is_prefix(p@, a@),
{
    let plen = p.len();
    if plen > a.len() {
        return false;
    }
    let mut i: usize = 0;
    while i < plen
        invariant
            plen == p@.len(),
            plen <= a@.len(),
            i <= plen,
            a@.take(i as int) =~= p@.take(i as int),
        decreases plen - i,
    {
        if a[i] != p[i] {
            proof {
                if is_prefix(p@, a@) {
                    assert(a@.take(plen as int)[i as int] == p@[i as int]);
                }
            }
            return false;
        }
        i = i + 1;
        proof {
            assert(a@.take(i as int) =~= p@.take(i as int));
        }
    }
    proof {
        assert(p@.take(plen as int) =~= p@);
    }
    true
}

/// A dictionary key: UTF-8 text handled as raw bytes.
#[derive(Debug)]
pub struct EntryKey(pub Vec<u8>);

impl Clone for EntryKey {
    fn clone(&self) -> (r: Self)
        ensures
            r@ == self@,
    {
        let v = self.0.clone();
        proof {
            assert(v@ =~= self.0@);
        }
        EntryKey(v)
    }
}

impl View for EntryKey {
    type V = Seq<u8>;

    open spec fn view(&self) -> Seq<u8> {
        self.0@
    }
}

impl EntryKey {
    /// The smoothed form: ASCII letters lower-cased.
    pub fn smooth(&self) -> (r: EntryKey)
        ensures
            r@ == smoothed(self@),
    {
        EntryKey(smooth_bytes(self.0.as_slice()))
    }

    pub fn bytes(&self) -> (r: Vec<u8>)
        ensures
            r@ == self@,
    {
        self.0.clone()
    }

    pub fn size(&self) -> (r: usize)
        ensures
            r == self@.len(),
    {
        self.0.len()
    }

    pub fn from_bytes(bytes: &[u8]) -> (r: Self)
        ensures
            r@ == bytes@,
    {
        let mut v: Vec<u8> = Vec::new();
        let mut i: usize = 0;
        let n = bytes.len();
        while i < n
            invariant
                n == bytes@.len(),
                i <= n,
                v@ =~= bytes@.take(i as int),
            decreases n - i,
        {
            v.push(bytes[i]);
            i = i + 1;
            proof {
                assert(v@ =~= bytes@.take(i as int));
            }
        }
        proof {
            assert(bytes@.take(n as int) =~= bytes@);
        }
        EntryKey(v)
    }
}

/// A value blob: opaque bytes, present only in leaf records.
#[derive(Debug)]
pub struct EntryValue(pub Vec<u8>);

impl Clone for EntryValue {
    fn clone(&self) -> (r: Self)
        ensures
            r@ == self@,
    {
        let v = self.0.clone();
        proof {
            assert(v@ =~= self.0@);
        }
        EntryValue(v)
    }
}

impl View for EntryValue {
    type V = Seq<u8>;

    open spec fn view(&self) -> Seq<u8> {
        self.0@
    }
}

impl EntryValue {
    pub fn bytes(&self) -> (r: Vec<u8>)
        ensures
            r@ == self@,
    {
        self.0.clone()
    }

    pub fn size(&self) -> (r: usize)
        ensures
            r == self@.len(),
    {
        self.0.len()
    }

    pub fn from_bytes(bytes: &[u8]) -> (r: Self)
        ensures
            r@ == bytes@,
    {
        EntryValue(EntryKey::from_bytes(bytes).0)
    }
}

} // verus!
