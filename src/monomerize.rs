use vstd::prelude::*;
use vstd::slice::slice_subrange;
use crate::strand::{revcomp, revcomp_of};

verus! {

/// A minimum identity `numerator / denominator`, a fraction in `[0, 1]`.
#[derive(Clone, Copy, Debug, PartialEq, Eq, Structural)]
pub struct IdentityRatio {
    pub numerator: u64,
    pub denominator: u64,
}

impl IdentityRatio {
    pub open spec fn wf(self) -> bool {
        self.denominator > 0 && self.numerator <= self.denominator
    }

    pub fn new(numerator: u64, denominator: u64) -> (r: IdentityRatio)
        ensures
            r.numerator == numerator,
            r.denominator == denominator,
    {
        IdentityRatio { numerator, denominator }
    }

    /// Whether the fraction lies in `[0, 1]` with a non-zero denominator.
    pub fn is_valid(&self) -> (r: bool)
        ensures
            r == self.wf(),
    {
        self.denominator > 0 && self.numerator <= self.denominator
    }
}

/// Why a monomerizer could not be built.
#[derive(Clone, Copy, Debug, PartialEq, Eq, Structural)]
pub enum ConfigurationError {
    /// No seed length was given.
    MissingSeedLen,
    /// Both a mismatch limit and a minimum identity were given.
    ConflictingThresholds,
    /// The seed length lies outside `[1, 63]`.
    SeedLenOutOfRange,
    /// The minimum identity is not a fraction in `[0, 1]`.
    IdentityOutOfRange,
}

impl ConfigurationError {
    /// A description of the error for the user.
    pub fn message(&self) -> &'static str {
        match self {
            ConfigurationError::MissingSeedLen => "`seed_len` must be initialized",
            ConfigurationError::ConflictingThresholds =>
                "Both overlap_dist and overlap_min_identity are set. They are mutually exclusive since they may produce conflicting filtering results.",
            ConfigurationError::SeedLenOutOfRange =>
                "Seed length must be at least 1 and at most 63.",
            ConfigurationError::IdentityOutOfRange =>
                "overlap_min_identity must be a fraction between 0 and 1.",
        }
    }
}

/// Finds where the first of several tandem copies of a sequence ends.
#[derive(Clone, Copy, Debug)]
pub struct Monomerizer {
    /// The maximum number of mismatches allowed in an overlap.
    pub overlap_dist: Option<u64>,
    /// The minimum identity within an overlap for it to count as a match.
    pub overlap_min_identity: Option<IdentityRatio>,
    /// The length of the seed searched for in the overlap.
    pub seed_len: usize,
}

/// Collects the settings of a [`Monomerizer`] and checks them.
#[derive(Clone, Copy, Debug)]
pub struct MonomerizerBuilder {
    pub overlap_dist: Option<u64>,
    pub overlap_min_identity: Option<IdentityRatio>,
    pub seed_len: Option<usize>,
}

impl MonomerizerBuilder {
    pub fn seed_len(self, seed_len: usize) -> (r: MonomerizerBuilder)
        ensures
            r == (MonomerizerBuilder { seed_len: Some(seed_len), ..self }),
    {
        MonomerizerBuilder { seed_len: Some(seed_len), ..self }
    }

    pub fn overlap_dist(self, overlap_dist: u64) -> (r: MonomerizerBuilder)
        ensures
            r == (MonomerizerBuilder { overlap_dist: Some(overlap_dist), ..self }),
    {
        MonomerizerBuilder { overlap_dist: Some(overlap_dist), ..self }
    }

    pub fn overlap_min_identity(self, identity: IdentityRatio) -> (r: MonomerizerBuilder)
        ensures
            r == (MonomerizerBuilder { overlap_min_identity: Some(identity), ..self }),
    {
        MonomerizerBuilder { overlap_min_identity: Some(identity), ..self }
    }

    /// The error that `build` reports for these settings, if any.
    pub open spec fn error_of(self) -> Option<ConfigurationError> {
        if self.overlap_dist.is_some() && self.overlap_min_identity.is_some() {
            Some(ConfigurationError::ConflictingThresholds)
        } else if self.seed_len.is_some() && !(1 <= self.seed_len.unwrap() <= 63) {
            Some(ConfigurationError::SeedLenOutOfRange)
        } else if self.overlap_min_identity.is_some() && !self.overlap_min_identity.unwrap().wf() {
            Some(ConfigurationError::IdentityOutOfRange)
        } else if self.seed_len.is_none() {
            Some(ConfigurationError::MissingSeedLen)
        } else {
            None
        }
    }

    pub fn build(&self) -> (r: Result<Monomerizer, ConfigurationError>)
        ensures
            self.error_of() is None ==> r == Ok::<Monomerizer, ConfigurationError>(
                Monomerizer {
                    overlap_dist: self.overlap_dist,
                    overlap_min_identity: self.overlap_min_identity,
                    seed_len: self.seed_len.unwrap(),
                },
            ),
            self.error_of() matches Some(e) ==> r == Err::<Monomerizer, ConfigurationError>(e),
            r matches Ok(m) ==> m.wf(),
    {
        if self.overlap_dist.is_some() && self.overlap_min_identity.is_some() {
            return Err(ConfigurationError::ConflictingThresholds);
        }
        if let Some(seed_len) = self.seed_len {
            if seed_len < 1 || seed_len > 63 {
                return Err(ConfigurationError::SeedLenOutOfRange);
            }
        }
        if let Some(identity) = self.overlap_min_identity {
            if !identity.is_valid() {
                return Err(ConfigurationError::IdentityOutOfRange);
            }
        }
        match self.seed_len {
            None => Err(ConfigurationError::MissingSeedLen),
            Some(seed_len) => Ok(
                Monomerizer {
                    overlap_dist: self.overlap_dist,
                    overlap_min_identity: self.overlap_min_identity,
                    seed_len,
                },
            ),
        }
    }
}

/// `pattern` occurs in `text` at `i`.
pub open spec fn is_occurrence(pattern: Seq<u8>, text: Seq<u8>, i: int) -> bool {
    &&& 0 <= i
    &&& i + pattern.len() <= text.len()
    &&& text.subrange(i, i + pattern.len()) == pattern
}

/// The number of positions at which two sequences of one length differ.
pub open spec fn hamming_distance(a: Seq<u8>, b: Seq<u8>) -> nat
    decreases a.len(),
{
    if a.len() == 0 {
        0
    } else {
        let k = a.len() - 1;
        hamming_distance(a.subrange(0, k), b.subrange(0, k)) + if a[k] != b[k] {
            1nat
        } else {
            0nat
        }
    }
}

/// Relies on bio::pattern_matching::shift_and::ShiftAnd: `find_all` yields the
/// start of every occurrence of the pattern in the text, in increasing order.
/// `ShiftAnd::new` takes patterns of at most 64 bytes; its accept mask
/// overflows at 64, so at most 63.
#[verifier::external_body]
fn seed_occurrences(pattern: &[u8], text: &[u8]) -> (r: Vec<usize>)
    requires
        1 <= pattern@.len() <= 63,
    ensures
        forall|i: int| 0 <= i < r@.len() ==> is_occurrence(pattern@, text@, #[trigger] r@[i] as int),
        forall|i: int, j: int| 0 <= i < j < r@.len() ==> r@[i] < r@[j],
        forall|o: int|
            #[trigger] is_occurrence(pattern@, text@, o) ==> exists|i: int|
                0 <= i < r@.len() && r@[i] == o,
{
    bio::pattern_matching::shift_and::ShiftAnd::new(pattern).find_all(text).collect()
}

/// Relies on bio::alignment::distance::hamming: the number of positions at
/// which two texts of one length differ (it panics on unequal lengths).
#[verifier::external_body]
fn hamming(a: &[u8], b: &[u8]) -> (r: u64)
    requires
        a@.len() == b@.len(),
    ensures
        r as int == hamming_distance(a@, b@),
{
    bio::alignment::distance::hamming(a, b)
}

pub open spec fn opt_int(o: Option<usize>) -> Option<int> {
    match o {
        Some(v) => Some(v as int),
        None => None,
    }
}

impl Monomerizer {
    pub fn builder() -> (r: MonomerizerBuilder)
        ensures
            r.overlap_dist is None,
            r.overlap_min_identity is None,
            r.seed_len is None,
    {
        MonomerizerBuilder { overlap_dist: None, overlap_min_identity: None, seed_len: None }
    }

    /// The settings that `build` accepts.
    pub open spec fn wf(self) -> bool {
        &&& 1 <= self.seed_len <= 63
        &&& !(self.overlap_dist.is_some() && self.overlap_min_identity.is_some())
        &&& self.overlap_min_identity matches Some(p) ==> p.wf()
    }

    /// The most mismatches allowed in an overlap of `len` bytes.
    pub open spec fn max_dist(self, len: int) -> int {
        match self.overlap_min_identity {
            Some(p) => len - (len * p.numerator) / (p.denominator as int),
            None => match self.overlap_dist {
                Some(d) => d as int,
                None => 0,
            },
        }
    }

    /// The seed (last `seed_len` bytes) occurs at `occ` before the seed, and the
    /// overlap it implies has few enough mismatches.
    pub open spec fn accepts(self, s: Seq<u8>, occ: int) -> bool {
        &&& self.seed_occurs(s, occ)
        &&& self.overlap_mismatches(s, occ) <= self.max_dist(occ + self.seed_len)
    }

    /// The seed (last `seed_len` bytes) occurs at `occ` in the rest of `s`.
    pub open spec fn seed_occurs(self, s: Seq<u8>, occ: int) -> bool {
        let k = self.seed_len as int;
        let n = s.len() as int;
        &&& n > k
        &&& is_occurrence(s.subrange(n - k, n), s.subrange(0, n - k), occ)
    }

    /// Mismatches between the prefix that ends with the seed occurrence at
    /// `occ` and the suffix of the same length.
    pub open spec fn overlap_mismatches(self, s: Seq<u8>, occ: int) -> nat {
        let c = occ + self.seed_len;
        let n = s.len() as int;
        hamming_distance(s.subrange(n - c, n), s.subrange(0, c))
    }

    pub open spec fn first_accepted(self, s: Seq<u8>, occ: int) -> bool {
        &&& self.accepts(s, occ)
        &&& forall|o: int| 0 <= o < occ ==> !#[trigger] self.accepts(s, o)
    }

    /// Where the first copy ends: the end of the overlap from the first accepted seed occurrence.
    pub open spec fn first_end(self, s: Seq<u8>) -> Option<int> {
        if exists|o: int| self.first_accepted(s, o) {
            Some(s.len() - ((choose|o: int| self.first_accepted(s, o)) + self.seed_len))
        } else {
            None
        }
    }

    /// Follows first ends into ever shorter prefixes, from boundary `b`, until none is found.
    pub open spec fn settle(self, s: Seq<u8>, b: int) -> int
        decreases b,
    {
        if 0 < b <= s.len() {
            match self.first_end(s.subrange(0, b)) {
                Some(b2) => if 0 < b2 < b {
                    self.settle(s, b2)
                } else {
                    b
                },
                None => b,
            }
        } else {
            b
        }
    }

    pub open spec fn last_end(self, s: Seq<u8>) -> Option<int> {
        match self.first_end(s) {
            Some(b) => Some(self.settle(s, b)),
            None => None,
        }
    }

    pub open spec fn last_end_sensitive(self, s: Seq<u8>) -> Option<int> {
        let end = match self.last_end(s) {
            Some(b) => b,
            None => s.len() as int,
        };
        match self.first_end(revcomp_of(s.subrange(0, end))) {
            Some(i) => Some(i),
            None => self.last_end(s),
        }
    }

    pub open spec fn monomer_of(s: Seq<u8>, end: Option<int>) -> Seq<u8> {
        match end {
            Some(b) => s.subrange(0, b),
            None => s,
        }
    }

    /// The most mismatches allowed in an overlap of `len` bytes.
    fn max_mismatches(&self, len: usize) -> (r: u64)
        requires
            self.wf(),
        ensures
            r as int == self.max_dist(len as int),
    {
        match self.overlap_min_identity {
            Some(p) => {
                proof {
                    let a = len as u128;
                    let b = p.numerator as u128;
                    assert(a * b <= 0xffff_ffff_ffff_ffffu128 * 0xffff_ffff_ffff_ffffu128)
                        by (nonlinear_arith)
                        requires
                            a <= 0xffff_ffff_ffff_ffffu128,
                            b <= 0xffff_ffff_ffff_ffffu128,
                    ;
                }
                let prod: u128 = (len as u128) * (p.numerator as u128);
                let kept: u128 = prod / (p.denominator as u128);
                proof {
                    assert(prod <= (len as u128) * (p.denominator as u128)) by (nonlinear_arith)
                        requires
                            p.numerator <= p.denominator,
                            prod == (len as u128) * (p.numerator as u128),
                    ;
                    assert(kept <= len) by (nonlinear_arith)
                        requires
                            prod <= (len as u128) * (p.denominator as u128),
                            kept == prod / (p.denominator as u128),
                            p.denominator > 0,
                    ;
                }
                (len as u64) - (kept as u64)
            },
            None => match self.overlap_dist {
                Some(d) => d,
                None => 0,
            },
        }
    }

    /// The end of the first monomer of `seq`, if the sequence overlaps itself.
    pub fn first_monomer_end_index(&self, seq: &[u8]) -> (r: Option<usize>)
        requires
            self.wf(),
        ensures
            opt_int(r) == self.first_end(seq@),
            r matches Some(b) ==> 0 < b < seq@.len(),
    {
        let n = seq.len();
        let k = self.seed_len;
        if n <= k {
            proof {
                if exists|o: int| self.first_accepted(seq@, o) {
                    let o = choose|o: int| self.first_accepted(seq@, o);
                    assert(self.accepts(seq@, o));
                }
            }
            return None;
        }
        let seed = slice_subrange(seq, n - k, n);
        let text = slice_subrange(seq, 0, n - k);
        let occs = seed_occurrences(seed, text);
        let mut i: usize = 0;
        while i < occs.len()
            invariant
                self.wf(),
                n == seq@.len(),
                k == self.seed_len,
                n > k,
                seed@ == seq@.subrange(n - k, n as int),
                text@ == seq@.subrange(0, n - k),
                0 <= i <= occs@.len(),
                forall|j: int|
                    0 <= j < occs@.len() ==> is_occurrence(seed@, text@, #[trigger] occs@[j] as int),
                forall|a: int, b: int| 0 <= a < b < occs@.len() ==> occs@[a] < occs@[b],
                forall|o: int|
                    #[trigger] is_occurrence(seed@, text@, o) ==> exists|j: int|
                        0 <= j < occs@.len() && occs@[j] == o,
                forall|j: int| 0 <= j < i ==> !self.accepts(seq@, #[trigger] occs@[j] as int),
            decreases occs@.len() - i,
        {
            let occ = occs[i];
            assert(is_occurrence(seed@, text@, occ as int));
            let cand = occ + k;
            let starter = slice_subrange(seq, n - cand, n);
            let successor = slice_subrange(seq, 0, cand);
            let dist = hamming(starter, successor);
            let max_dist = self.max_mismatches(cand);
            if dist <= max_dist {
                proof {
                    assert(self.accepts(seq@, occ as int));
                    assert forall|o: int| 0 <= o < occ implies !#[trigger] self.accepts(seq@, o) by {
                        if self.accepts(seq@, o) {
                            assert(is_occurrence(seed@, text@, o));
                            let j = choose|j: int| 0 <= j < occs@.len() && occs@[j] == o;
                            if j >= i {
                                if j > i {
                                    assert(occs@[i as int] < occs@[j]);
                                }
                            }
                        }
                    }
                    assert(self.first_accepted(seq@, occ as int));
                    let c = choose|o: int| self.first_accepted(seq@, o);
                    if c < occ {
                        assert(!self.accepts(seq@, c));
                    } else if c > occ {
                        assert(!self.accepts(seq@, occ as int));
                    }
                }
                return Some(n - cand);
            }
            i = i + 1;
        }
        proof {
            if exists|o: int| self.first_accepted(seq@, o) {
                let o = choose|o: int| self.first_accepted(seq@, o);
                assert(is_occurrence(seed@, text@, o));
                let j = choose|j: int| 0 <= j < occs@.len() && occs@[j] == o;
                assert(!self.accepts(seq@, occs@[j] as int));
            }
        }
        None
    }

    /// The end of the last stable monomer: the first end is searched again in
    /// the prefix it leaves, until no shorter one is found.
    pub fn last_monomer_end_index(&self, seq: &[u8]) -> (r: Option<usize>)
        requires
            self.wf(),
        ensures
            opt_int(r) == self.last_end(seq@),
            r matches Some(b) ==> 0 < b < seq@.len(),
    {
        let first = self.first_monomer_end_index(seq);
        let mut cur: usize = match first {
            None => {
                return None;
            },
            Some(b) => b,
        };
        while cur > 0
            invariant
                self.wf(),
                0 < cur < seq@.len(),
                self.first_end(seq@) matches Some(b0) && self.settle(seq@, b0) == self.settle(
                    seq@,
                    cur as int,
                ),
            ensures
                0 < cur < seq@.len(),
                self.first_end(seq@) matches Some(b0) && self.settle(seq@, b0) == cur,
            decreases cur,
        {
            let prefix = slice_subrange(seq, 0, cur);
            match self.first_monomer_end_index(prefix) {
                None => {
                    assert(self.settle(seq@, cur as int) == cur as int);
                    break;
                },
                Some(next) => {
                    assert(self.settle(seq@, cur as int) == self.settle(seq@, next as int));
                    cur = next;
                },
            }
        }
        Some(cur)
    }

    /// As `last_monomer_end_index`, then the reverse complement of the monomer
    /// found is searched for a self-overlap, which catches mismatches that fall
    /// inside the seed.
    pub fn last_monomer_end_index_sensitive(&self, seq: &[u8]) -> (r: Option<usize>)
        requires
            self.wf(),
        ensures
            opt_int(r) == self.last_end_sensitive(seq@),
            r matches Some(b) ==> 0 < b < seq@.len(),
    {
        let monomer_index = self.last_monomer_end_index(seq);
        let end = match monomer_index {
            Some(b) => b,
            None => seq.len(),
        };
        let monomer = slice_subrange(seq, 0, end);
        let rc = revcomp(monomer);
        match self.first_monomer_end_index(rc.as_slice()) {
            None => monomer_index,
            Some(index) => Some(end - (monomer.len() - index)),
        }
    }

    /// The first monomer of `seq`, or `seq` itself when no overlap is found.
    pub fn monomerize<'a>(&self, seq: &'a [u8]) -> (r: &'a [u8])
        requires
            self.wf(),
        ensures
            r@ == Self::monomer_of(seq@, self.last_end(seq@)),
    {
        match self.last_monomer_end_index(seq) {
            None => seq,
            Some(end) => slice_subrange(seq, 0, end),
        }
    }

    /// As `monomerize`, with the boundary of `last_monomer_end_index_sensitive`.
    pub fn monomerize_sensitive<'a>(&self, seq: &'a [u8]) -> (r: &'a [u8])
        requires
            self.wf(),
        ensures
            r@ == Self::monomer_of(seq@, self.last_end_sensitive(seq@)),
    {
        match self.last_monomer_end_index_sensitive(seq) {
            None => seq,
            Some(end) => slice_subrange(seq, 0, end),
        }
    }
}

/// When the overlap behind every seed occurrence has more mismatches than
/// allowed, monomerizing leaves the sequence as it is.
pub proof fn lemma_rejection_keeps_sequence(m: Monomerizer, s: Seq<u8>)
    requires
        m.wf(),
        forall|occ: int|
            #[trigger] m.seed_occurs(s, occ) ==> m.overlap_mismatches(s, occ) > m.max_dist(
                occ + m.seed_len,
            ),
    ensures
        m.last_end(s) is None,
        Monomerizer::monomer_of(s, m.last_end(s)) == s,
{
    if exists|o: int| m.first_accepted(s, o) {
        let o = choose|o: int| m.first_accepted(s, o);
        assert(m.seed_occurs(s, o));
    }
}

} // verus!
