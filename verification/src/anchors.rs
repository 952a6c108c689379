//! Anchor sampling schemes: scalar consumers that pick one index from a
//! window of bytes.
use vstd::prelude::*;

verus! {

/// Strict lexicographic order on byte sequences.
pub open spec fn lex_less(a: Seq<u8>, b: Seq<u8>) -> bool
    decreases a.len(),
{
    if b.len() == 0 {
        false
    } else if a.len() == 0 {
        true
    } else if a[0] != b[0] {
        a[0] < b[0]
    } else {
        lex_less(a.drop_first(), b.drop_first())
    }
}

/// Compare two byte slices lexicographically.
pub fn lex_less_exec(a: &[u8], b: &[u8]) -> (r: bool)
    ensures
        r == lex_less(a@, b@),
{
    let mut i: usize = 0;
    let na = a.len();
    let nb = b.len();
    proof {
        assert(a@.skip(0) =~= a@);
        assert(b@.skip(0) =~= b@);
    }
    loop
        invariant
            0 <= i <= na == a@.len(),
            i <= nb == b@.len(),
            forall|j: int| 0 <= j < i ==> a@[j] == b@[j],
            lex_less(a@, b@) == lex_less(a@.skip(i as int), b@.skip(i as int)),
        decreases na - i,
    {
        if i >= na || i >= nb {
            proof {
                if i >= na {
                    assert(a@.skip(i as int).len() == 0);
                } else {
                    assert(b@.skip(i as int).len() == 0);
                }
            }
            return na < nb;
        }
        if a[i] != b[i] {
            proof {
                assert(a@.skip(i as int)[0] == a@[i as int]);
                assert(b@.skip(i as int)[0] == b@[i as int]);
            }
            return a[i] < b[i];
        }
        proof {
            assert(a@.skip(i as int).drop_first() =~= a@.skip(i + 1));
            assert(b@.skip(i as int).drop_first() =~= b@.skip(i + 1));
            assert(a@.skip(i as int)[0] == a@[i as int]);
            assert(b@.skip(i as int)[0] == b@[i as int]);
        }
        i += 1;
    }
}

/// The window rotated left by `i`: `s[i..] + s[..i]`.
pub open spec fn rot_seq(s: Seq<u8>, i: int) -> Seq<u8> {
    s.subrange(i, s.len() as int) + s.subrange(0, i)
}

/// The leftmost index among `[0, hi)` whose rotation is lexicographically
/// smallest.
pub open spec fn bd_best(s: Seq<u8>, hi: int) -> int
    decreases hi,
{
    if hi <= 1 {
        0
    } else {
        let b = bd_best(s, hi - 1);
        if lex_less(rot_seq(s, hi - 1), rot_seq(s, b)) {
            hi - 1
        } else {
            b
        }
    }
}

pub proof fn lemma_bd_best_range(s: Seq<u8>, hi: int)
    ensures
        0 <= bd_best(s, hi),
        bd_best(s, hi) < if hi >= 1 {
            hi
        } else {
            1
        },
    decreases hi,
{
    if hi > 1 {
        lemma_bd_best_range(s, hi - 1);
    }
}

/// The rotation `s[i..] + s[..i]` of a window, materialised.
pub fn rotation(s: &[u8], i: usize) -> (r: Vec<u8>)
    requires
        i <= s@.len(),
    ensures
        r@ == rot_seq(s@, i as int),
{
    let n = s.len();
    let mut r: Vec<u8> = Vec::new();
    let mut j: usize = i;
    while j < n
        invariant
            i <= j <= n == s@.len(),
            r@.len() == j - i,
            forall|p: int| 0 <= p < r@.len() ==> r@[p] == s@[i + p],
        decreases n - j,
    {
        r.push(s[j]);
        j += 1;
    }
    let mut j2: usize = 0;
    while j2 < i
        invariant
            0 <= j2 <= i <= n == s@.len(),
            r@.len() == n - i + j2,
            forall|p: int| 0 <= p < n - i ==> r@[p] == s@[i + p],
            forall|p: int| n - i <= p < r@.len() ==> r@[p] == s@[p - (n - i)],
        decreases i - j2,
    {
        r.push(s[j2]);
        j2 += 1;
    }
    proof {
        assert(r@ =~= rot_seq(s@, i as int));
    }
    r
}

/// Parameters of the bd-anchor scheme.
pub struct BdAnchorP {
    pub r: usize,
}

/// Parameters of the smallest-unique-substring anchor scheme.
pub struct SusAnchorP {
    pub ao: bool,
    pub modulo: bool,
}

/// A scheme that picks one index from each window of `l` bytes.
pub trait SamplingScheme {
    spec fn l_spec(&self) -> int;

    spec fn sample_spec(&self, lmer: Seq<u8>) -> int;

    spec fn valid(&self) -> bool;

    /// The window length the scheme samples from.
    fn l(&self) -> (r: usize)
        requires
            self.valid(),
        ensures
            r == self.l_spec(),
    ;

    /// The sampled index of one window.
    fn sample(&self, lmer: &[u8]) -> (r: usize)
        requires
            self.valid(),
            lmer@.len() == self.l_spec(),
        ensures
            r == self.sample_spec(lmer@),
            0 <= r < self.l_spec(),
    ;
}

/// The bd-anchor: the start of the lexicographically smallest rotation,
/// restricted to the first `w - r` positions.
pub struct BdAnchor {
    w: usize,
    r: usize,
}

impl BdAnchor {
    pub closed spec fn w_spec(&self) -> int {
        self.w as int
    }

    pub closed spec fn r_spec(&self) -> int {
        self.r as int
    }

    pub fn new(w: usize, r: usize) -> (s: Self)
        ensures
            s.w_spec() == w,
            s.r_spec() == r,
    {
        Self { w, r }
    }
}

impl SamplingScheme for BdAnchor {
    open spec fn l_spec(&self) -> int {
        self.w_spec()
    }

    open spec fn sample_spec(&self, lmer: Seq<u8>) -> int {
        bd_best(
            lmer,
            if self.r_spec() < self.w_spec() {
                self.w_spec() - self.r_spec()
            } else {
                1
            },
        )
    }

    open spec fn valid(&self) -> bool {
        self.w_spec() >= 1
    }

    fn l(&self) -> (r: usize) {
        self.w
    }

    fn sample(&self, lmer: &[u8]) -> (r: usize) {
        let w = self.w;
        let hi: usize = if self.r < w {
            w - self.r
        } else {
            1
        };
        let mut best: usize = 0;
        let mut bestrot = rotation(lmer, 0);
        let mut i: usize = 1;
        while i < hi
            invariant
                1 <= i <= hi <= w == lmer@.len(),
                0 <= best < i,
                best == bd_best(lmer@, i as int),
                bestrot@ == rot_seq(lmer@, best as int),
            decreases hi - i,
        {
            let ri = rotation(lmer, i);
            if lex_less_exec(ri.as_slice(), bestrot.as_slice()) {
                best = i;
                bestrot = ri;
            }
            i += 1;
        }
        proof {
            lemma_bd_best_range(lmer@, hi as int);
        }
        best
    }
}

/// An order on byte strings, given by a key transformation compared
/// lexicographically.
pub trait Order: Sized {
    spec fn key_spec(&self, t: Seq<u8>) -> Seq<u8>;

    /// The comparison key of a byte string.
    fn key(&self, t: &[u8]) -> (r: Vec<u8>)
        ensures
            r@ == self.key_spec(t@),
    ;
}

/// Plain lexicographic order.
pub struct Lex;

impl Order for Lex {
    open spec fn key_spec(&self, t: Seq<u8>) -> Seq<u8> {
        t
    }

    fn key(&self, t: &[u8]) -> (r: Vec<u8>) {
        let mut v: Vec<u8> = Vec::new();
        let mut i: usize = 0;
        let n = t.len();
        while i < n
            invariant
                0 <= i <= n == t@.len(),
                v@.len() == i,
                forall|p: int| 0 <= p < i ==> v@[p] == t@[p],
            decreases n - i,
        {
            v.push(t[i]);
            i += 1;
        }
        proof {
            assert(v@ =~= t@);
        }
        v
    }
}

/// Anti-lexicographic order: the first byte is inverted, so among strings
/// that share no prefix the one with the largest first byte sorts first.
pub struct AntiLex;

impl Order for AntiLex {
    open spec fn key_spec(&self, t: Seq<u8>) -> Seq<u8> {
        if t.len() == 0 {
            t
        } else {
            t.update(0, (t[0] ^ 0xffu8) as u8)
        }
    }

    fn key(&self, t: &[u8]) -> (r: Vec<u8>) {
        let mut v: Vec<u8> = Vec::new();
        let n = t.len();
        if n == 0 {
            proof {
                assert(v@ =~= self.key_spec(t@));
            }
            return v;
        }
        v.push(t[0] ^ 0xffu8);
        let mut i: usize = 1;
        while i < n
            invariant
                1 <= i <= n == t@.len(),
                v@.len() == i,
                v@[0] == (t@[0] ^ 0xffu8) as u8,
                forall|p: int| 1 <= p < i ==> v@[p] == t@[p],
            decreases n - i,
        {
            v.push(t[i]);
            i += 1;
        }
        proof {
            assert(v@ =~= self.key_spec(t@));
        }
        v
    }
}

/// The leftmost index among `[0, hi)` whose suffix key is smallest.
pub open spec fn sus_best<O: Order>(o: O, lmer: Seq<u8>, hi: int) -> int
    decreases hi,
{
    if hi <= 1 {
        0
    } else {
        let b = sus_best(o, lmer, hi - 1);
        if lex_less(o.key_spec(lmer.skip(hi - 1)), o.key_spec(lmer.skip(b))) {
            hi - 1
        } else {
            b
        }
    }
}

pub proof fn lemma_sus_best_range<O: Order>(o: O, lmer: Seq<u8>, hi: int)
    ensures
        0 <= sus_best(o, lmer, hi),
        sus_best(o, lmer, hi) < if hi >= 1 {
            hi
        } else {
            1
        },
    decreases hi,
{
    if hi > 1 {
        lemma_sus_best_range(o, lmer, hi - 1);
    }
}

/// The smallest-unique-substring anchor: the start of the smallest suffix
/// under the given order, optionally folded modulo `w` (for aperiodic
/// windows; an all-zero window short-circuits to 1).
pub struct SusAnchor<O: Order> {
    w: usize,
    k: usize,
    o: O,
    modulo: bool,
}

impl<O: Order> SusAnchor<O> {
    pub closed spec fn w_spec(&self) -> int {
        self.w as int
    }

    pub closed spec fn k_spec(&self) -> int {
        self.k as int
    }

    pub closed spec fn o_spec(&self) -> O {
        self.o
    }

    pub closed spec fn modulo_spec(&self) -> bool {
        self.modulo
    }

    pub fn new(w: usize, k: usize, o: O, modulo: bool) -> (s: Self)
        ensures
            s.w_spec() == w,
            s.k_spec() == k,
            s.o_spec() == o,
            s.modulo_spec() == modulo,
    {
        Self { w, k, o, modulo }
    }

    /// The best suffix start among `[0, hi)`.
    fn scan(&self, lmer: &[u8], hi: usize) -> (r: usize)
        requires
            1 <= hi <= lmer@.len(),
        ensures
            r == sus_best(self.o_spec(), lmer@, hi as int),
            0 <= r < hi,
    {
        let mut best: usize = 0;
        let mut bestkey = self.o.key(slice_from(lmer, 0));
        let mut i: usize = 1;
        while i < hi
            invariant
                1 <= i <= hi <= lmer@.len(),
                0 <= best < i,
                best == sus_best(self.o_spec(), lmer@, i as int),
                bestkey@ == self.o_spec().key_spec(lmer@.skip(best as int)),
            decreases hi - i,
        {
            let ki = self.o.key(slice_from(lmer, i));
            if lex_less_exec(ki.as_slice(), bestkey.as_slice()) {
                best = i;
                bestkey = ki;
            }
            i += 1;
        }
        best
    }
}

/// The suffix of a slice from `i` on.
pub fn slice_from(s: &[u8], i: usize) -> (r: &[u8])
    requires
        i <= s@.len(),
    ensures
        r@ == s@.skip(i as int),
{
    let r = vstd::slice::slice_subrange(s, i, s.len());
    proof {
        assert(r@ =~= s@.skip(i as int));
    }
    r
}

impl<O: Order> SamplingScheme for SusAnchor<O> {
    open spec fn l_spec(&self) -> int {
        self.w_spec() + self.k_spec() - 1
    }

    open spec fn sample_spec(&self, lmer: Seq<u8>) -> int {
        if self.modulo_spec() {
            if forall|i: int| 0 <= i < lmer.len() ==> lmer[i] == 0 {
                1
            } else {
                let t = (self.k_spec() - 1) % self.w_spec() + 1;
                sus_best(self.o_spec(), lmer, self.l_spec() - t + 1) % self.w_spec()
            }
        } else {
            sus_best(self.o_spec(), lmer, self.w_spec())
        }
    }

    open spec fn valid(&self) -> bool {
        self.w_spec() >= 1 && self.k_spec() >= 1 && self.w_spec() + self.k_spec() <= usize::MAX
            && (self.modulo_spec() ==> self.w_spec() >= 2)
    }

    fn l(&self) -> (r: usize) {
        self.w - 1 + self.k
    }

    fn sample(&self, lmer: &[u8]) -> (r: usize) {
        if self.modulo {
            let mut allzero = true;
            let n = lmer.len();
            let mut i: usize = 0;
            while i < n
                invariant
                    0 <= i <= n == lmer@.len(),
                    allzero == forall|p: int| 0 <= p < i ==> lmer@[p] == 0,
                decreases n - i,
            {
                if lmer[i] != 0 {
                    allzero = false;
                }
                i += 1;
            }
            if allzero {
                return 1;
            }
            let t = (self.k - 1) % self.w + 1;
            proof {
                vstd::arithmetic::div_mod::lemma_mod_bound((self.k - 1) as int, self.w as int);
            }
            let lw = self.w - 1 + self.k;
            let hi = lw - t + 1;
            let best = self.scan(lmer, hi);
            proof {
                vstd::arithmetic::div_mod::lemma_mod_bound(best as int, self.w as int);
            }
            best % self.w
        } else {
            self.scan(lmer, self.w)
        }
    }
}

} // verus!
