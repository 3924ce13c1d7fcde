use vstd::prelude::*;
use vstd::arithmetic::div_mod::lemma_mod_bound;
use crate::order::{seq_le, lex_less, lemma_le_transitive, lemma_le_antisymmetric, lemma_total};
use crate::rotation::{
    rotate, is_least_rotation, lmsr, lmsr_pos, lemma_rotate_mod, lemma_rotate_rotate,
    lemma_lmsr_pos_exists,
};
use crate::strand::{revcomp_of, is_rna, revcomp, lemma_revcomp_involutive, lemma_revcomp_rotate};

verus! {

/// `x` is a rotation of `s` or a rotation of its reverse complement.
pub open spec fn is_candidate(s: Seq<u8>, x: Seq<u8>) -> bool {
    (exists|k: int| x == #[trigger] rotate(s, k)) || (exists|k: int|
        x == #[trigger] rotate(revcomp_of(s), k))
}

/// `c` is the least of all rotations of `s` and of its reverse complement.
pub open spec fn is_canonical_form(s: Seq<u8>, c: Seq<u8>) -> bool {
    &&& is_candidate(s, c)
    &&& forall|x: Seq<u8>| #[trigger] is_candidate(s, x) ==> seq_le(c, x)
}

/// The rotation- and strand-independent form of `s`.
pub open spec fn canonical_form(s: Seq<u8>) -> Seq<u8> {
    choose|c: Seq<u8>| is_canonical_form(s, c)
}

/// The reverse complement of `s` is read in the alphabet of `s`.
pub open spec fn strand_stable(s: Seq<u8>) -> bool {
    is_rna(revcomp_of(s)) == is_rna(s)
}

proof fn lemma_least_below_all(x: Seq<u8>, m: Seq<u8>, k: int)
    requires
        x.len() > 0,
        is_least_rotation(x, m),
    ensures
        seq_le(m, rotate(x, k)),
{
    lemma_rotate_mod(x, k);
    lemma_mod_bound(k, x.len() as int);
    assert(seq_le(m, rotate(x, k % (x.len() as int))));
}

/// Two candidates that are each no larger than all candidates are equal.
pub proof fn lemma_canonical_unique(s: Seq<u8>, a: Seq<u8>, b: Seq<u8>)
    requires
        is_canonical_form(s, a),
        is_canonical_form(s, b),
    ensures
        a == b,
{
    assert(seq_le(a, b));
    assert(seq_le(b, a));
    lemma_le_antisymmetric(a, b);
}

/// Every non-empty sequence has a canonical form.
pub proof fn lemma_canonical_exists(s: Seq<u8>)
    requires
        s.len() > 0,
    ensures
        is_canonical_form(s, canonical_form(s)),
{
    let r = revcomp_of(s);
    lemma_lmsr_pos_exists(s);
    lemma_lmsr_pos_exists(r);
    let m1 = rotate(s, lmsr_pos(s));
    let m2 = rotate(r, lmsr_pos(r));
    lemma_total(m1, m2);
    let c = if seq_le(m1, m2) { m1 } else { m2 };
    assert(seq_le(c, m1));
    assert(seq_le(c, m2));
    assert forall|x: Seq<u8>| #[trigger] is_candidate(s, x) implies seq_le(c, x) by {
        if exists|k: int| x == #[trigger] rotate(s, k) {
            let k = choose|k: int| x == #[trigger] rotate(s, k);
            lemma_least_below_all(s, m1, k);
            lemma_le_transitive(c, m1, x);
        } else {
            let k = choose|k: int| x == #[trigger] rotate(r, k);
            lemma_least_below_all(r, m2, k);
            lemma_le_transitive(c, m2, x);
        }
    }
    assert(is_canonical_form(s, c));
    lemma_canonical_unique(s, c, canonical_form(s));
}

/// Two sequences with the same candidates have the same canonical form.
proof fn lemma_same_candidates(s: Seq<u8>, t: Seq<u8>)
    requires
        s.len() > 0,
        forall|x: Seq<u8>| #[trigger] is_candidate(s, x) == is_candidate(t, x),
    ensures
        canonical_form(s) == canonical_form(t),
{
    lemma_canonical_exists(s);
    let c = canonical_form(s);
    assert(is_candidate(t, c));
    assert forall|x: Seq<u8>| #[trigger] is_candidate(t, x) implies seq_le(c, x) by {
        assert(is_candidate(s, x));
    }
    lemma_canonical_unique(t, c, canonical_form(t));
}

proof fn lemma_candidates_rotate(s: Seq<u8>, a: int)
    requires
        s.len() > 0,
    ensures
        forall|x: Seq<u8>| #[trigger] is_candidate(rotate(s, a), x) == is_candidate(s, x),
{
    let t = rotate(s, a);
    let rs = revcomp_of(s);
    lemma_revcomp_rotate(s, a);
    assert forall|x: Seq<u8>| #[trigger] is_candidate(t, x) == is_candidate(s, x) by {
        if exists|k: int| x == #[trigger] rotate(t, k) {
            let k = choose|k: int| x == #[trigger] rotate(t, k);
            lemma_rotate_rotate(s, a, k);
            assert(x == rotate(s, a + k));
        }
        if exists|k: int| x == #[trigger] rotate(revcomp_of(t), k) {
            let k = choose|k: int| x == #[trigger] rotate(revcomp_of(t), k);
            lemma_rotate_rotate(rs, -a, k);
            assert(x == rotate(rs, -a + k));
        }
        if exists|k: int| x == #[trigger] rotate(s, k) {
            let k = choose|k: int| x == #[trigger] rotate(s, k);
            lemma_rotate_rotate(s, a, k - a);
            assert(a + (k - a) == k);
            assert(x == rotate(t, k - a));
        }
        if exists|k: int| x == #[trigger] rotate(rs, k) {
            let k = choose|k: int| x == #[trigger] rotate(rs, k);
            lemma_rotate_rotate(rs, -a, k + a);
            assert(-a + (k + a) == k);
            assert(x == rotate(revcomp_of(t), k + a));
        }
    }
}

proof fn lemma_candidates_revcomp(s: Seq<u8>)
    requires
        s.len() > 0,
        strand_stable(s),
    ensures
        forall|x: Seq<u8>| #[trigger] is_candidate(revcomp_of(s), x) == is_candidate(s, x),
{
    lemma_revcomp_involutive(s);
}

/// Canonicalizing a canonical form changes nothing.
pub proof fn lemma_canonical_idempotent(s: Seq<u8>)
    requires
        s.len() > 0,
        strand_stable(s),
    ensures
        canonical_form(canonical_form(s)) == canonical_form(s),
{
    lemma_canonical_exists(s);
    let c = canonical_form(s);
    if exists|k: int| c == #[trigger] rotate(s, k) {
        let k = choose|k: int| c == #[trigger] rotate(s, k);
        lemma_candidates_rotate(s, k);
        lemma_same_candidates(s, c);
    } else {
        let r = revcomp_of(s);
        let k = choose|k: int| c == #[trigger] rotate(r, k);
        lemma_candidates_rotate(r, k);
        lemma_candidates_revcomp(s);
        assert forall|x: Seq<u8>| #[trigger] is_candidate(s, x) == is_candidate(c, x) by {
            assert(is_candidate(r, x) == is_candidate(s, x));
        }
        lemma_same_candidates(s, c);
    }
}

/// Every rotation of `s` has the canonical form of `s`.
pub proof fn lemma_canonical_rotation_invariant(s: Seq<u8>, k: int)
    requires
        s.len() > 0,
    ensures
        canonical_form(rotate(s, k)) == canonical_form(s),
{
    lemma_candidates_rotate(s, k);
    lemma_same_candidates(s, rotate(s, k));
}

/// The reverse complement of `s` has the canonical form of `s`.
pub proof fn lemma_canonical_strand_invariant(s: Seq<u8>)
    requires
        s.len() > 0,
        strand_stable(s),
    ensures
        canonical_form(revcomp_of(s)) == canonical_form(s),
{
    lemma_candidates_revcomp(s);
    lemma_same_candidates(s, revcomp_of(s));
}

/// A DNA sequence (one without uracil) always has a DNA reverse complement.
pub proof fn lemma_dna_strand_stable(s: Seq<u8>)
    requires
        !is_rna(s),
    ensures
        strand_stable(s),
{
    let r = revcomp_of(s);
    if is_rna(r) {
        let i = choose|i: int| 0 <= i < r.len() && (#[trigger] r[i] == 85 || r[i] == 117);
        assert(s[s.len() - 1 - i] == 85 || s[s.len() - 1 - i] == 117);
    }
}

/// The least of the rotations of a sequence and of its reverse complement.
///
/// The least rotation of `s` is found first; its reverse complement is brought
/// to its own least rotation, and the smaller of the two is returned.
pub fn canonicalize(s: &[u8]) -> (r: Vec<u8>)
    requires
        s@.len() > 0,
    ensures
        r@ == canonical_form(s@),
        r@.len() == s@.len(),
{
    let lmsr_s = lmsr(s);
    let rc = revcomp(lmsr_s.as_slice());
    let lmsr_rc = lmsr(rc.as_slice());
    let less = lex_less(lmsr_s.as_slice(), lmsr_rc.as_slice());
    let res = if less {
        lmsr_s
    } else {
        lmsr_rc
    };
    proof {
        let i = lmsr_pos(s@);
        let rs = revcomp_of(s@);
        let j = lmsr_pos(rc@);
        lemma_revcomp_rotate(s@, i);
        lemma_rotate_rotate(rs, -i, j);
        lemma_total(lmsr_rc@, lmsr_s@);
        assert(seq_le(res@, lmsr_s@));
        assert(seq_le(res@, lmsr_rc@));
        assert(res@ == rotate(s@, i) || res@ == rotate(rs, -i + j));
        assert forall|x: Seq<u8>| #[trigger] is_candidate(s@, x) implies seq_le(res@, x) by {
            if exists|k: int| x == #[trigger] rotate(s@, k) {
                let k = choose|k: int| x == #[trigger] rotate(s@, k);
                lemma_least_below_all(s@, lmsr_s@, k);
                lemma_le_transitive(res@, lmsr_s@, x);
            } else {
                let k = choose|k: int| x == #[trigger] rotate(rs, k);
                lemma_rotate_rotate(rs, -i, k + i);
                assert(-i + (k + i) == k);
                lemma_least_below_all(rc@, lmsr_rc@, k + i);
                lemma_le_transitive(res@, lmsr_rc@, x);
            }
        }
        assert(is_canonical_form(s@, res@));
        lemma_canonical_exists(s@);
        lemma_canonical_unique(s@, res@, canonical_form(s@));
    }
    res
}

} // verus!
