use vstd::prelude::*;

verus! {

/// What the codon starting at a position of a circular sequence is.
#[derive(Clone, Copy, Debug, PartialEq, Eq, Structural)]
pub enum CodonKind {
    Start,
    Stop,
    Other,
}

/// The strands searched for ORFs.
#[derive(Clone, Copy, Debug, PartialEq, Eq, Structural)]
pub enum Strand {
    Forward,
    Reverse,
    Both,
}

impl Strand {
    pub fn includes_forward(&self) -> (r: bool)
        ensures
            r == !(*self is Reverse),
    {
        match self {
            Strand::Reverse => false,
            _ => true,
        }
    }

    pub fn includes_reverse(&self) -> (r: bool)
        ensures
            r == !(*self is Forward),
    {
        match self {
            Strand::Forward => false,
            _ => true,
        }
    }
}

/// An open reading frame of a circular sequence.
#[derive(Clone, Copy, Debug, PartialEq, Eq, Structural)]
pub struct Orf {
    /// The index of the start codon's first nucleotide.
    pub start: usize,
    /// The index of the stop codon's first nucleotide; `None` if no stop codon ends it.
    pub stop: Option<usize>,
    /// How many times the frame crosses the origin before the stop.
    pub wraps: usize,
    /// The length in nucleotides, start and stop codons included.
    pub length: usize,
}

/// The three bytes read from position `i` of circular `s`.
pub open spec fn codon_at(s: Seq<u8>, i: int) -> Seq<u8> {
    let n = s.len() as int;
    seq![s[i % n], s[(i + 1) % n], s[(i + 2) % n]]
}

pub open spec fn in_codon_set(codons: Seq<Vec<u8>>, c: Seq<u8>) -> bool {
    exists|j: int| 0 <= j < codons.len() && (#[trigger] codons[j])@ == c
}

/// A codon that is both a start and a stop codon counts as a start.
pub open spec fn kind_at(s: Seq<u8>, starts: Seq<Vec<u8>>, stops: Seq<Vec<u8>>, i: int) -> CodonKind {
    if in_codon_set(starts, codon_at(s, i)) {
        CodonKind::Start
    } else if in_codon_set(stops, codon_at(s, i)) {
        CodonKind::Stop
    } else {
        CodonKind::Other
    }
}

pub open spec fn kinds_of(s: Seq<u8>, starts: Seq<Vec<u8>>, stops: Seq<Vec<u8>>) -> Seq<CodonKind> {
    Seq::new(s.len(), |i: int| kind_at(s, starts, stops, i))
}

pub open spec fn all_codons(codons: Seq<Vec<u8>>) -> bool {
    forall|j: int| 0 <= j < codons.len() ==> (#[trigger] codons[j])@.len() == 3
}

/// The first stop at or after `i` in reading frame `f`.
pub open spec fn first_stop_from(k: Seq<CodonKind>, f: int, i: int) -> Option<int>
    decreases k.len() - i,
{
    if i < 0 || i >= k.len() {
        None
    } else if i % 3 == f && k[i] == CodonKind::Stop {
        Some(i)
    } else {
        first_stop_from(k, f, i + 1)
    }
}

/// The frame that frame `f` continues in after one pass over a sequence of length `n`.
pub open spec fn next_frame(n: int, f: int) -> int {
    if n % 3 == 2 {
        (f + 1) % 3
    } else {
        (f + 2) % 3
    }
}

/// Stop, wraps and length of the ORF from the start codon at `s`.
pub open spec fn orf_outcome(k: Seq<CodonKind>, s: int) -> (Option<int>, int, int) {
    let n = k.len() as int;
    let f = s % 3;
    if n % 3 == 0 {
        let stop = match first_stop_from(k, f, s + 1) {
            Some(x) => Some(x),
            None => first_stop_from(k, f, 0),
        };
        match stop {
            Some(x) => (stop, 0, if x >= s { x - s + 3 } else { x + n - s + 3 }),
            None => (None, 0, n),
        }
    } else {
        let f1 = next_frame(n, f);
        let f2 = next_frame(n, f1);
        let f3 = next_frame(n, f2);
        match first_stop_from(k, f, s) {
            Some(x) => (Some(x), 0, x - s + 3),
            None => match first_stop_from(k, f1, 0) {
                Some(x) => (Some(x), 1, n - s + x + 3),
                None => match first_stop_from(k, f2, 0) {
                    Some(x) => (Some(x), 2, 2 * n - s + x + 3),
                    None => match first_stop_from(k, f3, 0) {
                        Some(x) => (Some(x), 3, 3 * n - s + x + 3),
                        None => (None, 3, 3 * n),
                    },
                },
            },
        }
    }
}

pub open spec fn opt_usize_int(o: Option<usize>) -> Option<int> {
    match o {
        Some(v) => Some(v as int),
        None => None,
    }
}

/// `o` is the ORF of the start codon at `o.start`.
pub open spec fn orf_matches(k: Seq<CodonKind>, o: Orf) -> bool {
    let (stop, wraps, length) = orf_outcome(k, o.start as int);
    &&& 0 <= o.start < k.len()
    &&& k[o.start as int] == CodonKind::Start
    &&& opt_usize_int(o.stop) == stop
    &&& o.wraps == wraps
    &&& o.length == length
}

proof fn lemma_first_stop_facts(k: Seq<CodonKind>, f: int, i: int)
    ensures
        first_stop_from(k, f, i) matches Some(x) ==> i <= x < k.len() && x % 3 == f && k[x]
            == CodonKind::Stop,
    decreases k.len() - i,
{
    if 0 <= i < k.len() {
        lemma_first_stop_facts(k, f, i + 1);
    }
}

proof fn lemma_first_stop_none(k: Seq<CodonKind>, f: int, i: int, x: int)
    requires
        0 <= i <= x < k.len(),
        x % 3 == f,
        k[x] == CodonKind::Stop,
    ensures
        first_stop_from(k, f, i) is Some,
    decreases x - i,
{
    if i < x {
        lemma_first_stop_none(k, f, i + 1, x);
    }
}

/// In frame `f`, the search from `i` either stops at `i` or goes on from `i + 3`.
proof fn lemma_first_stop_step(k: Seq<CodonKind>, i: int)
    requires
        0 <= i < k.len(),
    ensures
        first_stop_from(k, i % 3, i) == if k[i] == CodonKind::Stop {
            Some(i)
        } else {
            first_stop_from(k, i % 3, i + 3)
        },
{
    let f = i % 3;
    assert(first_stop_from(k, f, i + 1) == first_stop_from(k, f, i + 2));
    assert(first_stop_from(k, f, i + 2) == first_stop_from(k, f, i + 3));
}

/// A start codon is never a stop codon.
proof fn lemma_start_not_stop(k: Seq<CodonKind>, s: int)
    requires
        0 <= s < k.len(),
        k[s] == CodonKind::Start,
    ensures
        first_stop_from(k, s % 3, s + 1) == first_stop_from(k, s % 3, s),
{
}

proof fn lemma_next_frame(n: int, f: int)
    requires
        n % 3 != 0,
        0 <= f < 3,
    ensures
        0 <= next_frame(n, f) < 3,
        (next_frame(n, f) - (f - n)) % 3 == 0,
{
}

proof fn lemma_regular_outcome(k: Seq<CodonKind>, s: int)
    requires
        0 <= s < k.len(),
        k[s] == CodonKind::Start,
        k.len() % 3 == 0,
    ensures
        orf_outcome(k, s).2 % 3 == 0,
        orf_outcome(k, s).0 != Some(s),
        orf_outcome(k, s).0 matches Some(x) ==> 0 <= x < k.len(),
        0 <= orf_outcome(k, s).2 <= 3 * k.len() + 3,
        0 <= orf_outcome(k, s).1 <= 3,
{
    let n = k.len() as int;
    let f = s % 3;
    lemma_first_stop_facts(k, f, s + 1);
    lemma_first_stop_facts(k, f, 0);
    if let Some(x) = first_stop_from(k, f, s + 1) {
        assert(k[x] == CodonKind::Stop);
        assert((x - s + 3) % 3 == 0);
    } else if let Some(x) = first_stop_from(k, f, 0) {
        assert(k[x] == CodonKind::Stop);
        if x >= s {
            assert((x - s + 3) % 3 == 0);
        } else {
            assert((x + n - s + 3) % 3 == 0);
        }
    }
}

proof fn lemma_irregular_outcome(k: Seq<CodonKind>, s: int)
    requires
        0 <= s < k.len(),
        k[s] == CodonKind::Start,
        k.len() % 3 != 0,
    ensures
        orf_outcome(k, s).2 % 3 == 0,
        orf_outcome(k, s).0 != Some(s),
        orf_outcome(k, s).0 matches Some(x) ==> 0 <= x < k.len(),
        0 <= orf_outcome(k, s).2 <= 3 * k.len() + 3,
        0 <= orf_outcome(k, s).1 <= 3,
{
    let n = k.len() as int;
    let f = s % 3;
    let f1 = next_frame(n, f);
    let f2 = next_frame(n, f1);
    let f3 = next_frame(n, f2);
    lemma_next_frame(n, f);
    lemma_next_frame(n, f1);
    lemma_next_frame(n, f2);
    lemma_first_stop_facts(k, f, s);
    lemma_first_stop_facts(k, f1, 0);
    lemma_first_stop_facts(k, f2, 0);
    lemma_first_stop_facts(k, f3, 0);
    if let Some(x) = first_stop_from(k, f, s) {
        assert(k[x] == CodonKind::Stop);
        assert((x - s + 3) % 3 == 0);
    } else if let Some(x) = first_stop_from(k, f1, 0) {
        assert(k[x] == CodonKind::Stop);
        assert((n - s + x + 3) % 3 == 0);
    } else if let Some(x) = first_stop_from(k, f2, 0) {
        assert(k[x] == CodonKind::Stop);
        assert((2 * n - s + x + 3) % 3 == 0);
    } else if let Some(x) = first_stop_from(k, f3, 0) {
        assert(k[x] == CodonKind::Stop);
        assert((3 * n - s + x + 3) % 3 == 0);
        assert(f3 == f);
        if x >= s {
            lemma_first_stop_none(k, f, s, x);
        }
    }
}

/// Every ORF length is a whole number of codons, and no ORF stops where it starts.
pub proof fn lemma_orf_outcome_facts(k: Seq<CodonKind>, s: int)
    requires
        0 <= s < k.len(),
        k[s] == CodonKind::Start,
    ensures
        orf_outcome(k, s).2 % 3 == 0,
        orf_outcome(k, s).0 != Some(s),
        orf_outcome(k, s).0 matches Some(x) ==> 0 <= x < k.len(),
        0 <= orf_outcome(k, s).2 <= 3 * k.len() + 3,
        0 <= orf_outcome(k, s).1 <= 3,
{
    if k.len() % 3 == 0 {
        lemma_regular_outcome(k, s);
    } else {
        lemma_irregular_outcome(k, s);
    }
}

/// Whether the circular codon at `i` is one of `codons`.
fn codon_in_set(seq: &[u8], i: usize, codons: &[Vec<u8>]) -> (r: bool)
    requires
        0 <= i < seq@.len(),
        seq@.len() + 3 <= usize::MAX,
        all_codons(codons@),
    ensures
        r == in_codon_set(codons@, codon_at(seq@, i as int)),
{
    let n = seq.len();
    let a = seq[i % n];
    let b = seq[(i + 1) % n];
    let c = seq[(i + 2) % n];
    let ghost cod = codon_at(seq@, i as int);
    assert(cod =~= seq![a, b, c]);
    let mut j: usize = 0;
    while j < codons.len()
        invariant
            0 <= j <= codons@.len(),
            all_codons(codons@),
            cod == seq![a, b, c],
            cod == codon_at(seq@, i as int),
            forall|q: int| 0 <= q < j ==> (#[trigger] codons@[q])@ != cod,
        decreases codons@.len() - j,
    {
        let cj = &codons[j];
        assert(cj@.len() == 3);
        if cj[0] == a && cj[1] == b && cj[2] == c {
            assert(cj@ =~= cod);
            assert(codons@[j as int]@ == cod);
            assert(in_codon_set(codons@, cod));
            return true;
        }
        assert(cj@ != cod) by {
            if cj@ == cod {
                assert(cj@[0] == a && cj@[1] == b && cj@[2] == c);
            }
        }
        j = j + 1;
    }
    assert(!in_codon_set(codons@, cod));
    false
}

/// The kind of the codon at every position of circular `seq`.
pub fn codon_kinds(seq: &[u8], start_codons: &[Vec<u8>], stop_codons: &[Vec<u8>]) -> (r: Vec<
    CodonKind,
>)
    requires
        seq@.len() + 3 <= usize::MAX,
        all_codons(start_codons@),
        all_codons(stop_codons@),
    ensures
        r@ == kinds_of(seq@, start_codons@, stop_codons@),
{
    let n = seq.len();
    let mut kinds: Vec<CodonKind> = Vec::with_capacity(n);
    let mut i: usize = 0;
    while i < n
        invariant
            0 <= i <= n,
            n == seq@.len(),
            seq@.len() + 3 <= usize::MAX,
            all_codons(start_codons@),
            all_codons(stop_codons@),
            kinds@ == kinds_of(seq@, start_codons@, stop_codons@).subrange(0, i as int),
        decreases n - i,
    {
        let kind = if codon_in_set(seq, i, start_codons) {
            CodonKind::Start
        } else if codon_in_set(seq, i, stop_codons) {
            CodonKind::Stop
        } else {
            CodonKind::Other
        };
        kinds.push(kind);
        i = i + 1;
        assert(kinds@ =~= kinds_of(seq@, start_codons@, stop_codons@).subrange(0, i as int));
    }
    assert(kinds@ =~= kinds_of(seq@, start_codons@, stop_codons@));
    kinds
}

/// Start positions and stop positions of circular `seq`, each ascending; the
/// reading frame of a position is that position modulo 3.
pub fn start_stop_codon_positions(
    seq: &[u8],
    start_codons: &[Vec<u8>],
    stop_codons: &[Vec<u8>],
) -> (r: (Vec<usize>, Vec<usize>))
    requires
        seq@.len() + 3 <= usize::MAX,
        all_codons(start_codons@),
        all_codons(stop_codons@),
    ensures
        forall|a: int|
            0 <= a < r.0@.len() ==> #[trigger] r.0@[a] < seq@.len() && kind_at(
                seq@,
                start_codons@,
                stop_codons@,
                r.0@[a] as int,
            ) == CodonKind::Start,
        forall|a: int|
            0 <= a < r.1@.len() ==> #[trigger] r.1@[a] < seq@.len() && kind_at(
                seq@,
                start_codons@,
                stop_codons@,
                r.1@[a] as int,
            ) == CodonKind::Stop,
        forall|p: int|
            0 <= p < seq@.len() && #[trigger] kind_at(seq@, start_codons@, stop_codons@, p)
                == CodonKind::Start ==> exists|a: int| 0 <= a < r.0@.len() && r.0@[a] == p,
        forall|p: int|
            0 <= p < seq@.len() && #[trigger] kind_at(seq@, start_codons@, stop_codons@, p)
                == CodonKind::Stop ==> exists|a: int| 0 <= a < r.1@.len() && r.1@[a] == p,
        forall|a: int, b: int| 0 <= a < b < r.0@.len() ==> r.0@[a] < r.0@[b],
        forall|a: int, b: int| 0 <= a < b < r.1@.len() ==> r.1@[a] < r.1@[b],
{
    let kinds = codon_kinds(seq, start_codons, stop_codons);
    let ghost k = kinds@;
    let n = seq.len();
    let mut starts: Vec<usize> = Vec::new();
    let mut stops: Vec<usize> = Vec::new();
    let mut i: usize = 0;
    while i < n
        invariant
            0 <= i <= n,
            n == seq@.len(),
            k == kinds@,
            k == kinds_of(seq@, start_codons@, stop_codons@),
            forall|a: int|
                0 <= a < starts@.len() ==> #[trigger] starts@[a] < i && k[starts@[a] as int]
                    == CodonKind::Start,
            forall|a: int|
                0 <= a < stops@.len() ==> #[trigger] stops@[a] < i && k[stops@[a] as int]
                    == CodonKind::Stop,
            forall|p: int|
                0 <= p < i && #[trigger] k[p] == CodonKind::Start ==> exists|a: int|
                    0 <= a < starts@.len() && starts@[a] == p,
            forall|p: int|
                0 <= p < i && #[trigger] k[p] == CodonKind::Stop ==> exists|a: int|
                    0 <= a < stops@.len() && stops@[a] == p,
            forall|a: int, b: int| 0 <= a < b < starts@.len() ==> starts@[a] < starts@[b],
            forall|a: int, b: int| 0 <= a < b < stops@.len() ==> stops@[a] < stops@[b],
        decreases n - i,
    {
        let ghost old_starts = starts@;
        let ghost old_stops = stops@;
        let kind = kinds[i];
        if kind == CodonKind::Start {
            starts.push(i);
        } else if kind == CodonKind::Stop {
            stops.push(i);
        }
        proof {
            assert forall|p: int|
                0 <= p < i + 1 && #[trigger] k[p] == CodonKind::Start implies exists|a: int|
                    0 <= a < starts@.len() && starts@[a] == p by {
                if p < i {
                    let a = choose|a: int| 0 <= a < old_starts.len() && old_starts[a] == p;
                    assert(starts@[a] == p);
                } else {
                    assert(starts@[starts@.len() - 1] == i);
                }
            }
            assert forall|p: int|
                0 <= p < i + 1 && #[trigger] k[p] == CodonKind::Stop implies exists|a: int|
                    0 <= a < stops@.len() && stops@[a] == p by {
                if p < i {
                    let a = choose|a: int| 0 <= a < old_stops.len() && old_stops[a] == p;
                    assert(stops@[a] == p);
                } else {
                    assert(stops@[stops@.len() - 1] == i);
                }
            }
        }
        i = i + 1;
    }
    proof {
        assert forall|p: int|
            0 <= p < n && #[trigger] kind_at(seq@, start_codons@, stop_codons@, p)
                == CodonKind::Start implies exists|a: int| 0 <= a < starts@.len() && starts@[a]
            == p by {
            assert(k[p] == CodonKind::Start);
        }
        assert forall|p: int|
            0 <= p < n && #[trigger] kind_at(seq@, start_codons@, stop_codons@, p)
                == CodonKind::Stop implies exists|a: int| 0 <= a < stops@.len() && stops@[a]
            == p by {
            assert(k[p] == CodonKind::Stop);
        }
    }
    (starts, stops)
}

/// For each position `i`, the first stop at or after `i` in the frame of `i`.
fn next_stop_table(kinds: &Vec<CodonKind>) -> (r: Vec<Option<usize>>)
    ensures
        r@.len() == kinds@.len(),
        forall|i: int|
            0 <= i < kinds@.len() ==> opt_usize_int(#[trigger] r@[i]) == first_stop_from(
                kinds@,
                i % 3,
                i,
            ),
{
    let n = kinds.len();
    let mut table: Vec<Option<usize>> = Vec::with_capacity(n);
    let mut j: usize = 0;
    while j < n
        invariant
            0 <= j <= n,
            table@.len() == j,
        decreases n - j,
    {
        table.push(None);
        j = j + 1;
    }
    let mut i: usize = n;
    while i > 0
        invariant
            0 <= i <= n,
            n == kinds@.len(),
            table@.len() == n,
            forall|p: int|
                i <= p < n ==> opt_usize_int(#[trigger] table@[p]) == first_stop_from(
                    kinds@,
                    p % 3,
                    p,
                ),
        decreases i,
    {
        i = i - 1;
        let v = if kinds[i] == CodonKind::Stop {
            Some(i)
        } else if n - i > 3 {
            table[i + 3]
        } else {
            None
        };
        proof {
            lemma_first_stop_step(kinds@, i as int);
            if n - i > 3 {
                assert((i + 3) % 3 == i % 3);
            }
        }
        table.set(i, v);
    }
    table
}

/// The table of `next_stop_table` for `kinds`.
pub open spec fn is_next_stop_table(kinds: Seq<CodonKind>, table: Seq<Option<usize>>) -> bool {
    &&& table.len() == kinds.len()
    &&& forall|i: int|
        0 <= i < kinds.len() ==> opt_usize_int(#[trigger] table[i]) == first_stop_from(
            kinds,
            i % 3,
            i,
        )
}

/// The first stop in frame `g` (0, 1 or 2) anywhere in the sequence.
fn first_stop_in_frame(kinds: &Vec<CodonKind>, table: &Vec<Option<usize>>, g: usize) -> (r: Option<
    usize,
>)
    requires
        g < 3,
        is_next_stop_table(kinds@, table@),
    ensures
        opt_usize_int(r) == first_stop_from(kinds@, g as int, 0),
{
    let ghost k = kinds@;
    proof {
        if 0 < k.len() {
            assert(first_stop_from(k, g as int, 0) == first_stop_from(k, g as int, 1) || g == 0);
        }
        if 1 < k.len() {
            assert(first_stop_from(k, g as int, 1) == first_stop_from(k, g as int, 2) || g <= 1);
        }
    }
    if g < table.len() {
        table[g]
    } else {
        None
    }
}

/// The ORF that starts at the start codon at `s`.
fn orf_at(kinds: &Vec<CodonKind>, table: &Vec<Option<usize>>, s: usize) -> (r: Orf)
    requires
        is_next_stop_table(kinds@, table@),
        s < kinds@.len(),
        kinds@[s as int] == CodonKind::Start,
        3 * kinds@.len() + 3 <= usize::MAX,
    ensures
        r.start == s,
        orf_matches(kinds@, r),
{
    let ghost k = kinds@;
    let n = kinds.len();
    let f = s % 3;
    proof {
        lemma_orf_outcome_facts(k, s as int);
        lemma_start_not_stop(k, s as int);
        lemma_first_stop_facts(k, f as int, s as int);
    }
    if n % 3 == 0 {
        let stop = match table[s] {
            Some(x) => Some(x),
            None => first_stop_in_frame(kinds, table, f),
        };
        proof {
            lemma_first_stop_facts(k, f as int, 0);
        }
        let length = match stop {
            Some(x) => if x >= s {
                x - s + 3
            } else {
                x + n - s + 3
            },
            None => n,
        };
        return Orf { start: s, stop, wraps: 0, length };
    }
    if let Some(x) = table[s] {
        return Orf { start: s, stop: Some(x), wraps: 0, length: x - s + 3 };
    }
    let f1 = if n % 3 == 2 {
        (f + 1) % 3
    } else {
        (f + 2) % 3
    };
    proof {
        lemma_first_stop_facts(k, f1 as int, 0);
    }
    if let Some(x) = first_stop_in_frame(kinds, table, f1) {
        return Orf { start: s, stop: Some(x), wraps: 1, length: (n - s) + x + 3 };
    }
    let f2 = if n % 3 == 2 {
        (f1 + 1) % 3
    } else {
        (f1 + 2) % 3
    };
    proof {
        lemma_first_stop_facts(k, f2 as int, 0);
    }
    if let Some(x) = first_stop_in_frame(kinds, table, f2) {
        return Orf { start: s, stop: Some(x), wraps: 2, length: (n - s) + n + x + 3 };
    }
    let f3 = if n % 3 == 2 {
        (f2 + 1) % 3
    } else {
        (f2 + 2) % 3
    };
    proof {
        lemma_first_stop_facts(k, f3 as int, 0);
    }
    if let Some(x) = first_stop_in_frame(kinds, table, f3) {
        return Orf { start: s, stop: Some(x), wraps: 3, length: (n - s) + n + n + x + 3 };
    }
    Orf { start: s, stop: None, wraps: 3, length: (n - s) + n + n + s }
}

/// Every ORF of circular `seq`, one for each start codon, in the order of their
/// start positions.
///
/// The stop of an ORF is the first stop codon in its frame after the start.
/// Where the length is not a multiple of three, each pass over the origin
/// moves the frame, and the search follows it for up to three passes.
pub fn find_orfs(seq: &[u8], start_codons: &[Vec<u8>], stop_codons: &[Vec<u8>]) -> (r: Vec<Orf>)
    requires
        3 * seq@.len() + 3 <= usize::MAX,
        all_codons(start_codons@),
        all_codons(stop_codons@),
    ensures
        forall|q: int|
            0 <= q < r@.len() ==> #[trigger] orf_matches(
                kinds_of(seq@, start_codons@, stop_codons@),
                r@[q],
            ),
        forall|a: int, b: int| 0 <= a < b < r@.len() ==> r@[a].start < r@[b].start,
        forall|p: int|
            0 <= p < seq@.len() && kind_at(seq@, start_codons@, stop_codons@, p)
                == CodonKind::Start ==> exists|q: int| 0 <= q < r@.len() && r@[q].start == p,
        forall|q: int| 0 <= q < r@.len() ==> (#[trigger] r@[q]).length % 3 == 0,
        forall|q: int| 0 <= q < r@.len() ==> (#[trigger] r@[q]).stop != Some(r@[q].start),
{
    let kinds = codon_kinds(seq, start_codons, stop_codons);
    let table = next_stop_table(&kinds);
    let ghost k = kinds@;
    let n = seq.len();
    let mut orfs: Vec<Orf> = Vec::new();
    let mut s: usize = 0;
    while s < n
        invariant
            0 <= s <= n,
            n == seq@.len(),
            k == kinds@,
            k == kinds_of(seq@, start_codons@, stop_codons@),
            3 * k.len() + 3 <= usize::MAX,
            is_next_stop_table(k, table@),
            forall|q: int| 0 <= q < orfs@.len() ==> #[trigger] orf_matches(k, orfs@[q]),
            forall|q: int| 0 <= q < orfs@.len() ==> (#[trigger] orfs@[q]).start < s,
            forall|a: int, b: int| 0 <= a < b < orfs@.len() ==> orfs@[a].start < orfs@[b].start,
            forall|p: int|
                0 <= p < s && k[p] == CodonKind::Start ==> exists|q: int|
                    0 <= q < orfs@.len() && orfs@[q].start == p,
        decreases n - s,
    {
        if kinds[s] == CodonKind::Start {
            let ghost old_orfs = orfs@;
            let orf = orf_at(&kinds, &table, s);
            orfs.push(orf);
            proof {
                assert forall|p: int|
                    0 <= p < s + 1 && k[p] == CodonKind::Start implies exists|q: int|
                        0 <= q < orfs@.len() && orfs@[q].start == p by {
                    if p == s {
                        assert(orfs@[orfs@.len() - 1].start == p);
                    } else {
                        let q = choose|q: int| 0 <= q < old_orfs.len() && old_orfs[q].start == p;
                        assert(orfs@[q].start == p);
                    }
                }
            }
        }
        s = s + 1;
    }
    proof {
        assert forall|p: int|
            0 <= p < n && kind_at(seq@, start_codons@, stop_codons@, p)
                == CodonKind::Start implies exists|q: int| 0 <= q < orfs@.len() && orfs@[q].start
            == p by {
            assert(k[p] == CodonKind::Start);
        }
        assert forall|q: int| 0 <= q < orfs@.len() implies (#[trigger] orfs@[q]).length % 3 == 0
            && orfs@[q].stop != Some(orfs@[q].start) by {
            assert(orf_matches(k, orfs@[q]));
            lemma_orf_outcome_facts(k, orfs@[q].start as int);
        }
    }
    orfs
}

/// `len` bytes of circular `s`, read from `start`.
pub open spec fn circular_slice(s: Seq<u8>, start: int, len: int) -> Seq<u8> {
    Seq::new(len as nat, |t: int| s[(start + t) % (s.len() as int)])
}

impl Orf {
    /// How many bytes `sequence` returns: the stop codon is left out on request.
    pub open spec fn content_len(self, include_stop: bool) -> int {
        if !include_stop && self.stop is Some && self.length >= 3 {
            self.length - 3
        } else {
            self.length as int
        }
    }

    /// The nucleotides of the ORF in circular `seq`, from the start codon on,
    /// without the stop codon unless `include_stop`.
    pub fn sequence(&self, seq: &[u8], include_stop: bool) -> (r: Vec<u8>)
        requires
            seq@.len() > 0,
        ensures
            r@ == circular_slice(seq@, self.start as int, self.content_len(include_stop)),
    {
        let n = seq.len();
        let len = if !include_stop && self.stop.is_some() && self.length >= 3 {
            self.length - 3
        } else {
            self.length
        };
        let mut out: Vec<u8> = Vec::with_capacity(len);
        let mut idx: usize = self.start % n;
        let mut t: usize = 0;
        proof {
            vstd::arithmetic::div_mod::lemma_mod_bound(self.start as int, n as int);
        }
        while t < len
            invariant
                n == seq@.len(),
                n > 0,
                0 <= t <= len,
                idx < n,
                idx as int == (self.start + t) % (n as int),
                out@ == circular_slice(seq@, self.start as int, t as int),
            decreases len - t,
        {
            out.push(seq[idx]);
            proof {
                let ni = n as int;
                let a = self.start + t;
                vstd::arithmetic::div_mod::lemma_add_mod_noop(a, 1, ni);
                if n > 1 {
                    vstd::arithmetic::div_mod::lemma_small_mod(1, n as nat);
                } else {
                    vstd::arithmetic::div_mod::lemma_mod_bound(a + 1, ni);
                }
                if idx + 1 < n {
                    vstd::arithmetic::div_mod::lemma_small_mod((idx + 1) as nat, n as nat);
                } else {
                    vstd::arithmetic::div_mod::lemma_mod_self_0(ni);
                }
                assert(out@ =~= circular_slice(seq@, self.start as int, t + 1));
            }
            idx = if idx + 1 < n {
                idx + 1
            } else {
                0
            };
            t = t + 1;
        }
        out
    }

    /// The nucleotides of the ORF in circular `seq`, stop codon included.
    pub fn seq(&self, seq: &[u8]) -> (r: Vec<u8>)
        requires
            seq@.len() > 0,
        ensures
            r@ == circular_slice(seq@, self.start as int, self.length as int),
    {
        self.sequence(seq, true)
    }
}

/// `orfs[i]` is the longest of the ORFs that share its stop, and the first such.
pub open spec fn is_longest_for_stop(orfs: Seq<Orf>, i: int) -> bool {
    &&& 0 <= i < orfs.len()
    &&& forall|j: int|
        0 <= j < orfs.len() && (#[trigger] orfs[j]).stop == orfs[i].stop ==> orfs[j].length
            <= orfs[i].length && (j < i ==> orfs[j].length < orfs[i].length)
}

/// `o` is the longest ORF of `orfs` for its stop.
pub open spec fn is_longest_entry(orfs: Seq<Orf>, o: Orf) -> bool {
    exists|i: int| #[trigger] is_longest_for_stop(orfs, i) && o == orfs[i]
}

/// Some ORF of `r` has the stop `stop`.
pub open spec fn has_stop(r: Seq<Orf>, stop: Option<usize>) -> bool {
    exists|q: int| 0 <= q < r.len() && (#[trigger] r[q]).stop == stop
}

fn stops_equal(a: Option<usize>, b: Option<usize>) -> (r: bool)
    ensures
        r == (a == b),
{
    match (a, b) {
        (Some(x), Some(y)) => x == y,
        (None, None) => true,
        _ => false,
    }
}

/// For each stop (an unterminated ORF counts as its own stop), the longest ORF
/// that ends there; among equally long ones the first. The result keeps the
/// order in which the stops first occur.
pub fn longest_orfs(orfs: &[Orf]) -> (r: Vec<Orf>)
    ensures
        r@.len() <= orfs@.len(),
        forall|q: int| 0 <= q < r@.len() ==> is_longest_entry(orfs@, #[trigger] r@[q]),
        forall|a: int, b: int| 0 <= a < b < r@.len() ==> r@[a].stop != r@[b].stop,
        forall|i: int| 0 <= i < orfs@.len() ==> has_stop(r@, (#[trigger] orfs@[i]).stop),
{
    let mut best: Vec<Orf> = Vec::new();
    let ghost mut src: Seq<int> = Seq::empty();
    let mut i: usize = 0;
    while i < orfs.len()
        invariant
            0 <= i <= orfs@.len(),
            best@.len() <= i,
            src.len() == best@.len(),
            forall|q: int|
                0 <= q < best@.len() ==> 0 <= #[trigger] src[q] < i && best@[q] == orfs@[src[q]],
            forall|q: int, j: int|
                #![trigger orfs@[j], best@[q]]
                0 <= q < best@.len() && 0 <= j < i && orfs@[j].stop == best@[q].stop
                    ==> orfs@[j].length <= best@[q].length && (j < src[q] ==> orfs@[j].length
                    < best@[q].length),
            forall|a: int, b: int| 0 <= a < b < best@.len() ==> best@[a].stop != best@[b].stop,
            forall|j: int|
                #![trigger orfs@[j]]
                0 <= j < i ==> exists|q: int|
                    0 <= q < best@.len() && (#[trigger] best@[q]).stop == orfs@[j].stop,
        decreases orfs@.len() - i,
    {
        let o = orfs[i];
        let mut q: usize = 0;
        let mut found = false;
        while q < best.len()
            invariant
                0 <= q <= best@.len(),
                forall|p: int| 0 <= p < q ==> (#[trigger] best@[p]).stop != o.stop,
                found ==> q < best@.len() && best@[q as int].stop == o.stop,
            ensures
                found ==> q < best@.len() && best@[q as int].stop == o.stop,
                !found ==> forall|p: int| 0 <= p < best@.len() ==> (#[trigger] best@[p]).stop != o.stop,
            decreases best@.len() - q,
        {
            if stops_equal(best[q].stop, o.stop) {
                found = true;
                break;
            }
            q = q + 1;
        }
        let ghost old_best = best@;
        let ghost old_src = src;
        if !found {
            best.push(o);
            proof {
                src = src.push(i as int);
            }
        } else if o.length > best[q].length {
            best.set(q, o);
            proof {
                src = src.update(q as int, i as int);
            }
        }
        proof {
            assert forall|q2: int, j: int|
                #![trigger orfs@[j], best@[q2]]
                0 <= q2 < best@.len() && 0 <= j < i + 1 && orfs@[j].stop
                    == best@[q2].stop implies orfs@[j].length <= best@[q2].length && (j < src[q2]
                ==> orfs@[j].length < best@[q2].length) by {
                if q2 < old_best.len() && best@[q2] == old_best[q2] && j < i {
                } else if q2 < old_best.len() && best@[q2] == old_best[q2] {
                } else if q2 < old_best.len() {
                    if j < i {
                        assert(orfs@[j].stop == old_best[q2].stop);
                    }
                } else {
                    if j < i {
                        let qq = choose|qq: int|
                            0 <= qq < old_best.len() && (#[trigger] old_best[qq]).stop
                                == orfs@[j].stop;
                        assert(old_best[qq].stop == o.stop);
                    }
                }
            }
            assert forall|j: int| #![trigger orfs@[j]] 0 <= j < i + 1 implies exists|q2: int|
                0 <= q2 < best@.len() && (#[trigger] best@[q2]).stop == orfs@[j].stop by {
                if j == i {
                    if found {
                        assert(best@[q as int].stop == o.stop);
                    } else {
                        assert(best@[best@.len() - 1].stop == o.stop);
                    }
                } else {
                    let qq = choose|qq: int|
                        0 <= qq < old_best.len() && (#[trigger] old_best[qq]).stop
                            == orfs@[j].stop;
                    assert(best@[qq].stop == orfs@[j].stop);
                }
            }
        }
        i = i + 1;
    }
    proof {
        assert forall|q: int| 0 <= q < best@.len() implies is_longest_entry(orfs@, #[trigger] best@[q]) by {
            let j = src[q];
            assert(best@[q] == orfs@[j]);
            assert forall|j2: int|
                0 <= j2 < orfs@.len() && (#[trigger] orfs@[j2]).stop == orfs@[j].stop implies orfs@[j2].length
                    <= orfs@[j].length && (j2 < j ==> orfs@[j2].length < orfs@[j].length) by {
                assert(orfs@[j2].stop == best@[q].stop);
            }
            assert(is_longest_for_stop(orfs@, j));
        }
        assert forall|j: int| 0 <= j < orfs@.len() implies has_stop(best@, (#[trigger] orfs@[j]).stop) by {
            assert(j < i);
        }
    }
    best
}

/// Keeping the longest ORF per stop yields some of the ORFs given, and no more of them.
pub proof fn lemma_longest_orfs_subset(orfs: Seq<Orf>, r: Seq<Orf>)
    requires
        r.len() <= orfs.len(),
        forall|q: int| 0 <= q < r.len() ==> is_longest_entry(orfs, #[trigger] r[q]),
    ensures
        forall|q: int| 0 <= q < r.len() ==> orfs.contains(#[trigger] r[q]),
        r.len() <= orfs.len(),
{
    assert forall|q: int| 0 <= q < r.len() implies orfs.contains(#[trigger] r[q]) by {
        assert(is_longest_entry(orfs, r[q]));
        let i = choose|i: int| #[trigger] is_longest_for_stop(orfs, i) && r[q] == orfs[i];
        assert(orfs[i] == r[q]);
    }
}

} // verus!
