//! The dense encoding of one container: 65,536 bits in 1,024 words, with
//! the number of set bits kept alongside.
use vstd::prelude::*;
use crate::order::{ascending16, lemma_ascending16_set_len, lemma_ascending16_unique, lemma_push_contains};
use crate::setop::SetOp;

verus! {

/// Number of 64-bit words in a dense container.
pub const WORDS: usize = 1024;

/// Bit `b` of the word `w`.
pub open spec fn word_bit(w: u64, b: u64) -> bool {
    (w >> b) & 1u64 == 1u64
}

/// Bit `i` of the whole vector, `i` in `0..65536`.
pub open spec fn bit_at(words: Seq<u64>, i: int) -> bool {
    word_bit(words[i / 64], (i % 64) as u64)
}

/// The positions below `n` whose bit is set, in ascending order.
pub open spec fn bits_seq(words: Seq<u64>, n: int) -> Seq<u16>
    decreases n,
{
    if n <= 0 {
        Seq::empty()
    } else if bit_at(words, n - 1) {
        bits_seq(words, n - 1).push((n - 1) as u16)
    } else {
        bits_seq(words, n - 1)
    }
}

proof fn lemma_word_set(w: u64, b: u64, c: u64)
    requires
        b < 64,
        c < 64,
    ensures
        word_bit(w | (1u64 << b), c) == (word_bit(w, c) || c == b),
{
    assert(((w | (1u64 << b)) >> c) & 1u64 == 1u64 <==> (((w >> c) & 1u64 == 1u64) || c == b))
        by (bit_vector)
        requires
            b < 64,
            c < 64,
    ;
}

proof fn lemma_word_clear(w: u64, b: u64, c: u64)
    requires
        b < 64,
        c < 64,
    ensures
        word_bit(w & !(1u64 << b), c) == (word_bit(w, c) && c != b),
{
    assert(((w & !(1u64 << b)) >> c) & 1u64 == 1u64 <==> (((w >> c) & 1u64 == 1u64) && c != b))
        by (bit_vector)
        requires
            b < 64,
            c < 64,
    ;
}

proof fn lemma_word_zero(c: u64)
    requires
        c < 64,
    ensures
        !word_bit(0u64, c),
{
    assert((0u64 >> c) & 1u64 != 1u64) by (bit_vector);
}

/// The set positions below `n`, ascending, exactly those whose bit is set.
pub proof fn lemma_bits_seq(words: Seq<u64>, n: int)
    requires
        0 <= n <= 65536,
    ensures
        ascending16(bits_seq(words, n)),
        forall|k: int| 0 <= k < bits_seq(words, n).len() ==> bits_seq(words, n)[k] < n,
        forall|x: u16| #[trigger]
            bits_seq(words, n).contains(x) <==> (x < n && bit_at(words, x as int)),
    decreases n,
{
    if n > 0 {
        lemma_bits_seq(words, n - 1);
        lemma_push_contains(bits_seq(words, n - 1), (n - 1) as u16);
    }
}

/// A dense container: bit `i` is set exactly when `i` is a member.
pub struct BitStore {
    pub words: Vec<u64>,
    pub count: u32,
}

impl View for BitStore {
    type V = Seq<u16>;

    open spec fn view(&self) -> Seq<u16> {
        bits_seq(self.words@, 65536)
    }
}

impl BitStore {
    /// The words and the cached count agree.
    pub open spec fn wf(&self) -> bool {
        &&& self.words@.len() == WORDS
        &&& self.count == self@.len()
    }

    /// The members are ascending and are exactly the set bits.
    pub proof fn lemma_view(&self)
        requires
            self.words@.len() == WORDS,
        ensures
            ascending16(self@),
            forall|x: u16| #[trigger] self@.contains(x) <==> bit_at(self.words@, x as int),
            self@.len() <= 65536,
    {
        lemma_bits_seq(self.words@, 65536);
        crate::order::lemma_ascending16_len(self@);
    }

    /// An empty dense container.
    pub fn new() -> (r: BitStore)
        ensures
            r.wf(),
            r@.len() == 0,
    {
        let words: Vec<u64> = vec![0u64; WORDS];
        let r = BitStore { words, count: 0 };
        proof {
            r.lemma_view();
            if r@.len() > 0 {
                let x = r@[0];
                assert(r@.contains(x));
                lemma_word_zero((x % 64) as u64);
            }
        }
        r
    }

    /// Whether `low` is a member.
    pub fn contains(&self, low: u16) -> (r: bool)
        requires
            self.wf(),
        ensures
            r == self@.contains(low),
    {
        proof {
            self.lemma_view();
        }
        let w = self.words[(low / 64) as usize];
        (w >> ((low % 64) as u64)) & 1u64 == 1u64
    }

    /// Adds `low`; true if it was not a member.
    pub fn insert(&mut self, low: u16) -> (r: bool)
        requires
            old(self).wf(),
        ensures
            final(self).wf(),
            r == !old(self)@.contains(low),
            final(self)@.to_set() == old(self)@.to_set().insert(low),
            final(self).count == old(self).count + if r { 1int } else { 0int },
    {
        proof {
            self.lemma_view();
        }
        let idx = (low / 64) as usize;
        let b = (low % 64) as u64;
        let w = self.words[idx];
        if (w >> b) & 1u64 == 1u64 {
            assert(self@.to_set() =~= self@.to_set().insert(low));
            return false;
        }
        let ghost before = *self;
        self.words.set(idx, w | (1u64 << b));
        proof {
            assert forall|i: int| 0 <= i < 65536 implies bit_at(self.words@, i) == (bit_at(
                before.words@,
                i,
            ) || i == low) by {
                if i / 64 == idx {
                    lemma_word_set(w, b, (i % 64) as u64);
                }
            }
            self.lemma_view();
            before.lemma_view();
            assert forall|x: u16| #[trigger]
                self@.to_set().contains(x) == before@.to_set().insert(low).contains(x) by {
                assert(bit_at(self.words@, x as int) == (bit_at(before.words@, x as int) || x
                    == low));
                assert(self@.to_set().contains(x) == self@.contains(x));
                assert(before@.to_set().contains(x) == before@.contains(x));
            }
            assert(self@.to_set() =~= before@.to_set().insert(low));
            lemma_ascending16_set_len(self@);
            lemma_ascending16_set_len(before@);
        }
        self.count = self.count + 1;
        true
    }

    /// Removes `low`; true if it was a member.
    pub fn remove(&mut self, low: u16) -> (r: bool)
        requires
            old(self).wf(),
        ensures
            final(self).wf(),
            r == old(self)@.contains(low),
            final(self)@.to_set() == old(self)@.to_set().remove(low),
    {
        proof {
            self.lemma_view();
        }
        let idx = (low / 64) as usize;
        let b = (low % 64) as u64;
        let w = self.words[idx];
        if (w >> b) & 1u64 != 1u64 {
            assert(self@.to_set() =~= self@.to_set().remove(low));
            return false;
        }
        let ghost before = *self;
        self.words.set(idx, w & !(1u64 << b));
        proof {
            assert forall|i: int| 0 <= i < 65536 implies bit_at(self.words@, i) == (bit_at(
                before.words@,
                i,
            ) && i != low) by {
                if i / 64 == idx {
                    lemma_word_clear(w, b, (i % 64) as u64);
                }
            }
            self.lemma_view();
            before.lemma_view();
            assert forall|x: u16| #[trigger]
                self@.to_set().contains(x) == before@.to_set().remove(low).contains(x) by {
                assert(bit_at(self.words@, x as int) == (bit_at(before.words@, x as int) && x
                    != low));
                assert(self@.to_set().contains(x) == self@.contains(x));
                assert(before@.to_set().contains(x) == before@.contains(x));
                assert(self@.to_set().contains(x) == before@.to_set().remove(low).contains(x));
            }
            assert(self@.to_set() =~= before@.to_set().remove(low));
            lemma_ascending16_set_len(self@);
            lemma_ascending16_set_len(before@);
        }
        self.count = self.count - 1;
        true
    }

    /// The members in ascending order.
    pub fn to_array(&self) -> (r: Vec<u16>)
        requires
            self.wf(),
        ensures
            r@ == self@,
    {
        let mut out: Vec<u16> = Vec::new();
        let mut i: u32 = 0;
        while i < 65536
            invariant
                i <= 65536,
                self.wf(),
                out@ == bits_seq(self.words@, i as int),
            decreases 65536 - i,
        {
            let w = self.words[(i / 64) as usize];
            if (w >> ((i % 64) as u64)) & 1u64 == 1u64 {
                out.push(i as u16);
            }
            i = i + 1;
        }
        out
    }

    /// A dense container holding the members of the ascending `v`.
    pub fn from_sorted(v: &Vec<u16>) -> (r: BitStore)
        requires
            ascending16(v@),
        ensures
            r.wf(),
            r@ == v@,
    {
        let mut words: Vec<u64> = vec![0u64; WORDS];
        let mut k: usize = 0;
        proof {
            assert forall|i: int| 0 <= i < 65536 implies !bit_at(words@, i) by {
                lemma_word_zero((i % 64) as u64);
            }
        }
        while k < v.len()
            invariant
                words@.len() == WORDS,
                ascending16(v@),
                k <= v@.len(),
                forall|i: int|
                    0 <= i < 65536 ==> (bit_at(words@, i) <==> v@.subrange(0, k as int).contains(
                        i as u16,
                    )),
            decreases v@.len() - k,
        {
            let low = v[k];
            let idx = (low / 64) as usize;
            let b = (low % 64) as u64;
            let w = words[idx];
            let ghost old_words = words@;
            words.set(idx, w | (1u64 << b));
            proof {
                let pre = v@.subrange(0, k as int);
                assert(v@.subrange(0, k + 1) =~= pre.push(low));
                lemma_push_contains(pre, low);
                assert forall|i: int| 0 <= i < 65536 implies (bit_at(words@, i) <==> v@.subrange(
                    0,
                    k + 1,
                ).contains(i as u16)) by {
                    if i / 64 == idx {
                        lemma_word_set(w, b, (i % 64) as u64);
                    }
                    assert(bit_at(old_words, i) <==> pre.contains(i as u16));
                }
            }
            k = k + 1;
        }
        let ghost r = BitStore { words, count: 0 };
        proof {
            assert(v@.subrange(0, k as int) =~= v@);
            r.lemma_view();
            lemma_ascending16_unique(r@, v@);
        }
        proof {
            crate::order::lemma_ascending16_len(v@);
        }
        BitStore { words, count: v.len() as u32 }
    }
}

proof fn lemma_word_op(x: u64, y: u64, c: u64)
    requires
        c < 64,
    ensures
        word_bit(x | y, c) == (word_bit(x, c) || word_bit(y, c)),
        word_bit(x & y, c) == (word_bit(x, c) && word_bit(y, c)),
        word_bit(x & !y, c) == (word_bit(x, c) && !word_bit(y, c)),
        word_bit(x ^ y, c) == (word_bit(x, c) != word_bit(y, c)),
{
    assert(((x | y) >> c) & 1u64 == 1u64 <==> (((x >> c) & 1u64 == 1u64) || ((y >> c) & 1u64
        == 1u64))) by (bit_vector)
        requires
            c < 64,
    ;
    assert(((x & y) >> c) & 1u64 == 1u64 <==> (((x >> c) & 1u64 == 1u64) && ((y >> c) & 1u64
        == 1u64))) by (bit_vector)
        requires
            c < 64,
    ;
    assert(((x & !y) >> c) & 1u64 == 1u64 <==> (((x >> c) & 1u64 == 1u64) && !((y >> c) & 1u64
        == 1u64))) by (bit_vector)
        requires
            c < 64,
    ;
    assert(((x ^ y) >> c) & 1u64 == 1u64 <==> (((x >> c) & 1u64 == 1u64) != ((y >> c) & 1u64
        == 1u64))) by (bit_vector)
        requires
            c < 64,
    ;
}

/// Combines two dense vectors word by word under `op`.
pub fn combine_words(a: &Vec<u64>, b: &Vec<u64>, op: SetOp) -> (w: Vec<u64>)
    requires
        a@.len() == WORDS,
        b@.len() == WORDS,
    ensures
        w@.len() == WORDS,
        forall|i: int|
            0 <= i < 65536 ==> #[trigger] bit_at(w@, i) == op.selects(bit_at(a@, i), bit_at(b@, i)),
{
    let mut w: Vec<u64> = Vec::new();
    let mut k: usize = 0;
    while k < WORDS
        invariant
            k <= WORDS,
            a@.len() == WORDS,
            b@.len() == WORDS,
            w@.len() == k,
            forall|i: int|
                0 <= i < 64 * k ==> #[trigger] bit_at(w@, i) == op.selects(bit_at(a@, i), bit_at(b@, i)),
        decreases WORDS - k,
    {
        let x = a[k];
        let y = b[k];
        let z = match op {
            SetOp::Union => x | y,
            SetOp::Intersection => x & y,
            SetOp::Difference => x & !y,
            SetOp::SymmetricDifference => x ^ y,
        };
        let ghost before = w@;
        w.push(z);
        proof {
            assert forall|i: int| 0 <= i < 64 * (k + 1) implies #[trigger] bit_at(w@, i) == op.selects(
                bit_at(a@, i),
                bit_at(b@, i),
            ) by {
                if i < 64 * k {
                    assert(i / 64 < k);
                    assert(w@[i / 64] == before[i / 64]);
                    assert(bit_at(before, i) == op.selects(bit_at(a@, i), bit_at(b@, i)));
                    assert(bit_at(w@, i) == bit_at(before, i));
                } else {
                    assert(i / 64 == k);
                    assert(w@[i / 64] == z);
                    lemma_word_op(x, y, (i % 64) as u64);
                    assert(bit_at(a@, i) == word_bit(x, (i % 64) as u64));
                    assert(bit_at(b@, i) == word_bit(y, (i % 64) as u64));
                    match op {
                        SetOp::Union => assert(z == x | y),
                        SetOp::Intersection => assert(z == x & y),
                        SetOp::Difference => assert(z == x & !y),
                        SetOp::SymmetricDifference => assert(z == x ^ y),
                    }
                }
            }
        }
        k = k + 1;
    }
    w
}

/// The set positions below `m` begin the set positions below `n`, and the
/// rest are at least `m`.
pub proof fn lemma_bits_prefix(words: Seq<u64>, m: int, n: int)
    requires
        0 <= m <= n <= 65536,
    ensures
        bits_seq(words, m).len() <= bits_seq(words, n).len(),
        bits_seq(words, n).subrange(0, bits_seq(words, m).len() as int) == bits_seq(words, m),
        forall|i: int|
            bits_seq(words, m).len() <= i < bits_seq(words, n).len() ==> #[trigger] bits_seq(
                words,
                n,
            )[i] >= m,
    decreases n - m,
{
    if m == n {
        assert(bits_seq(words, n).subrange(0, bits_seq(words, n).len() as int) =~= bits_seq(
            words,
            n,
        ));
    } else {
        lemma_bits_prefix(words, m, n - 1);
        lemma_bits_seq(words, n - 1);
        let p = bits_seq(words, n - 1);
        assert(bits_seq(words, n).subrange(0, bits_seq(words, m).len() as int) =~= p.subrange(
            0,
            bits_seq(words, m).len() as int,
        ));
    }
}

impl BitStore {
    /// The number of members at most `low`: a scan of the bits up to it.
    pub fn rank(&self, low: u16) -> (r: u32)
        requires
            self.wf(),
        ensures
            crate::order::splits16(self@, low as int, r as int),
    {
        let mut n: u32 = 0;
        let mut i: u32 = 0;
        while i <= low as u32
            invariant
                i <= low + 1,
                self.wf(),
                n == bits_seq(self.words@, i as int).len(),
                n <= i,
            decreases low + 1 - i,
        {
            let w = self.words[(i / 64) as usize];
            if (w >> ((i % 64) as u64)) & 1u64 == 1u64 {
                n = n + 1;
            }
            i = i + 1;
        }
        proof {
            let m = low as int + 1;
            lemma_bits_prefix(self.words@, m, 65536);
            lemma_bits_seq(self.words@, m);
            let pre = bits_seq(self.words@, m);
            assert forall|k: int| 0 <= k < n implies self@[k] <= low by {
                assert(self@[k] == pre[k]);
            }
        }
        n
    }

    /// The member at position `n`: a scan of the bits until the `n`-th set one.
    pub fn select(&self, n: u32) -> (r: u16)
        requires
            self.wf(),
            n < self@.len(),
        ensures
            r == self@[n as int],
    {
        let mut seen: u32 = 0;
        let mut i: u32 = 0;
        proof {
            lemma_bits_prefix(self.words@, 0, 65536);
        }
        while i < 65536
            invariant
                i <= 65536,
                self.wf(),
                n < self@.len(),
                seen == bits_seq(self.words@, i as int).len(),
                seen <= n,
            decreases 65536 - i,
        {
            let w = self.words[(i / 64) as usize];
            if (w >> ((i % 64) as u64)) & 1u64 == 1u64 {
                if seen == n {
                    proof {
                        lemma_bits_prefix(self.words@, i + 1, 65536);
                        let pre = bits_seq(self.words@, i + 1);
                        assert(pre[n as int] == i);
                        assert(self@[n as int] == pre[n as int]);
                    }
                    return i as u16;
                }
                seen = seen + 1;
            }
            i = i + 1;
        }
        proof {
            assert(seen == self@.len());
        }
        0
    }
}

/// The number of set bits of a dense vector.
pub fn count_bits(words: &Vec<u64>) -> (n: u32)
    requires
        words@.len() == WORDS,
    ensures
        n == bits_seq(words@, 65536).len(),
{
    let mut n: u32 = 0;
    let mut i: u32 = 0;
    while i < 65536
        invariant
            i <= 65536,
            words@.len() == WORDS,
            n == bits_seq(words@, i as int).len(),
            n <= i,
        decreases 65536 - i,
    {
        let w = words[(i / 64) as usize];
        if (w >> ((i % 64) as u64)) & 1u64 == 1u64 {
            n = n + 1;
        }
        i = i + 1;
    }
    n
}

proof fn lemma_shift_eq(x: u64, y: u64, c: u64)
    requires
        c <= 64,
        forall|d: u64| c <= d < 64 ==> #[trigger] word_bit(x, d) == word_bit(y, d),
    ensures
        x >> c == y >> c,
    decreases 64 - c,
{
    if c == 64 {
        assert(x >> 64u64 == 0u64 && y >> 64u64 == 0u64) by (bit_vector);
    } else {
        lemma_shift_eq(x, y, (c + 1) as u64);
        assert(word_bit(x, c) == word_bit(y, c));
        let c1 = (c + 1) as u64;
        assert((x >> c1) == (y >> c1) && (((x >> c) & 1u64 == 1u64) == ((y >> c) & 1u64 == 1u64))
            ==> (x >> c) == (y >> c)) by (bit_vector)
            requires
                c < 64,
                c1 == c + 1,
        ;
    }
}

/// A word is fixed by its 64 bits.
proof fn lemma_word_eq(x: u64, y: u64)
    requires
        forall|d: u64| d < 64 ==> #[trigger] word_bit(x, d) == word_bit(y, d),
    ensures
        x == y,
{
    lemma_shift_eq(x, y, 0);
    assert(x >> 0u64 == x && y >> 0u64 == y) by (bit_vector);
}

/// Dense vectors with the same members have the same words.
pub proof fn lemma_words_unique(a: &BitStore, b: &BitStore)
    requires
        a.words@.len() == WORDS,
        b.words@.len() == WORDS,
        a@ == b@,
    ensures
        a.words@ == b.words@,
{
    a.lemma_view();
    b.lemma_view();
    assert forall|k: int| 0 <= k < WORDS implies a.words@[k] == b.words@[k] by {
        assert forall|d: u64| d < 64 implies #[trigger] word_bit(a.words@[k], d) == word_bit(
            b.words@[k],
            d,
        ) by {
            let i = 64 * k + d;
            let x = i as u16;
            assert(i / 64 == k && i % 64 == d);
            assert(x as int == i);
            assert(a@.contains(x) == b@.contains(x));
            assert(a@.contains(x) == bit_at(a.words@, i));
            assert(b@.contains(x) == bit_at(b.words@, i));
            assert(bit_at(a.words@, i) == word_bit(a.words@[k], d));
            assert(bit_at(b.words@, i) == word_bit(b.words@[k], d));
        }
        lemma_word_eq(a.words@[k], b.words@[k]);
    }
    assert(a.words@ =~= b.words@);
}

} // verus!
