use vstd::prelude::*;
use vstd::arithmetic::div_mod::{lemma_mod_bound, lemma_small_mod, lemma_sub_mod_noop};
use crate::rotation::rotate;

verus! {

/// Complement of an upper-case IUPAC DNA code (A-T, C-G, R-Y, K-M, B-V, D-H);
/// every other byte is its own complement.
pub open spec fn dna_upper_complement(b: u8) -> u8 {
    if b == 65 { 84 }          // A -> T
    else if b == 84 { 65 }     // T -> A
    else if b == 67 { 71 }     // C -> G
    else if b == 71 { 67 }     // G -> C
    else if b == 82 { 89 }     // R -> Y
    else if b == 89 { 82 }     // Y -> R
    else if b == 75 { 77 }     // K -> M
    else if b == 77 { 75 }     // M -> K
    else if b == 66 { 86 }     // B -> V
    else if b == 86 { 66 }     // V -> B
    else if b == 68 { 72 }     // D -> H
    else if b == 72 { 68 }     // H -> D
    else { b }
}

/// Complement of an upper-case IUPAC RNA code (A-U, C-G, R-Y, K-M, B-V, D-H).
pub open spec fn rna_upper_complement(b: u8) -> u8 {
    if b == 65 { 85 }          // A -> U
    else if b == 85 { 65 }     // U -> A
    else if b == 84 { 84 }     // T is no RNA code
    else { dna_upper_complement(b) }
}

/// DNA complement of one byte; lower case maps to lower case.
pub open spec fn dna_complement(b: u8) -> u8 {
    if 97 <= b <= 122 {
        (dna_upper_complement((b - 32) as u8) + 32) as u8
    } else {
        dna_upper_complement(b)
    }
}

/// RNA complement of one byte; lower case maps to lower case.
pub open spec fn rna_complement(b: u8) -> u8 {
    if 97 <= b <= 122 {
        (rna_upper_complement((b - 32) as u8) + 32) as u8
    } else {
        rna_upper_complement(b)
    }
}

pub open spec fn dna_revcomp(s: Seq<u8>) -> Seq<u8> {
    Seq::new(s.len(), |i: int| dna_complement(s[s.len() - 1 - i]))
}

pub open spec fn rna_revcomp(s: Seq<u8>) -> Seq<u8> {
    Seq::new(s.len(), |i: int| rna_complement(s[s.len() - 1 - i]))
}

/// A sequence is read as RNA when it holds a uracil (`U` or `u`).
pub open spec fn is_rna(s: Seq<u8>) -> bool {
    exists|i: int| 0 <= i < s.len() && (#[trigger] s[i] == 85 || s[i] == 117)
}

/// The reverse complement of `s`, in the alphabet that `s` is read in.
pub open spec fn revcomp_of(s: Seq<u8>) -> Seq<u8> {
    if is_rna(s) {
        rna_revcomp(s)
    } else {
        dna_revcomp(s)
    }
}

/// Relies on bio::alphabets::dna::revcomp: the bytes in reverse order, each
/// through bio's DNA complement table.
#[verifier::external_body]
fn bio_dna_revcomp(s: &[u8]) -> (r: Vec<u8>)
    ensures
        r@ == dna_revcomp(s@),
{
    bio::alphabets::dna::revcomp(s)
}

/// Relies on bio::alphabets::rna::revcomp: the bytes in reverse order, each
/// through bio's RNA complement table.
#[verifier::external_body]
fn bio_rna_revcomp(s: &[u8]) -> (r: Vec<u8>)
    ensures
        r@ == rna_revcomp(s@),
{
    bio::alphabets::rna::revcomp(s)
}

/// Whether `s` holds a uracil, and so is read as RNA.
pub fn contains_uracil(s: &[u8]) -> (r: bool)
    ensures
        r == is_rna(s@),
{
    let mut i: usize = 0;
    while i < s.len()
        invariant
            0 <= i <= s@.len(),
            forall|j: int| 0 <= j < i ==> !(#[trigger] s@[j] == 85 || s@[j] == 117),
        decreases s@.len() - i,
    {
        if s[i] == 85 || s[i] == 117 {
            return true;
        }
        i = i + 1;
    }
    false
}

/// Reverse complement of a DNA or RNA sequence.
pub fn revcomp(s: &[u8]) -> (r: Vec<u8>)
    ensures
        r@ == revcomp_of(s@),
{
    if contains_uracil(s) {
        bio_rna_revcomp(s)
    } else {
        bio_dna_revcomp(s)
    }
}

pub proof fn lemma_complement_involutive(b: u8)
    ensures
        dna_complement(dna_complement(b)) == b,
        rna_complement(rna_complement(b)) == b,
{
}

/// Reading the reverse complement in the same alphabet gives `s` back.
pub proof fn lemma_revcomp_involutive(s: Seq<u8>)
    requires
        is_rna(revcomp_of(s)) == is_rna(s),
    ensures
        revcomp_of(revcomp_of(s)) == s,
{
    let n = s.len() as int;
    assert forall|i: int| 0 <= i < n implies revcomp_of(revcomp_of(s))[i] == s[i] by {
        lemma_complement_involutive(s[i]);
        assert(n - 1 - (n - 1 - i) == i);
    }
    assert(revcomp_of(revcomp_of(s)) =~= s);
}

/// Rotating keeps the bytes, and so the alphabet.
pub proof fn lemma_rotate_keeps_alphabet(s: Seq<u8>, k: int)
    ensures
        is_rna(rotate(s, k)) == is_rna(s),
{
    let n = s.len() as int;
    if n > 0 {
        let r = rotate(s, k);
        if is_rna(s) {
            let i = choose|i: int| 0 <= i < n && (#[trigger] s[i] == 85 || s[i] == 117);
            let t = (i - k) % n;
            lemma_mod_bound(i - k, n);
            vstd::arithmetic::div_mod::lemma_add_mod_noop(k, i - k, n);
            vstd::arithmetic::div_mod::lemma_add_mod_noop(k, t, n);
            vstd::arithmetic::div_mod::lemma_mod_twice(i - k, n);
            lemma_small_mod(i as nat, n as nat);
            assert(k + (i - k) == i);
            assert(r[t] == s[i]);
        }
        if is_rna(r) {
            let j = choose|j: int| 0 <= j < n && (#[trigger] r[j] == 85 || r[j] == 117);
            lemma_mod_bound(k + j, n);
            assert(s[(k + j) % n] == r[j]);
        }
    }
}

proof fn lemma_mirror_mod(x: int, n: int)
    requires
        n > 0,
    ensures
        (n - 1 - x) % n == n - 1 - x % n,
{
    lemma_sub_mod_noop(n - 1, x, n);
    lemma_small_mod((n - 1) as nat, n as nat);
    lemma_mod_bound(x, n);
    lemma_small_mod((n - 1 - x % n) as nat, n as nat);
}

/// The reverse complement of a rotation is the opposite rotation of the reverse complement.
pub proof fn lemma_revcomp_rotate(s: Seq<u8>, k: int)
    ensures
        revcomp_of(rotate(s, k)) == rotate(revcomp_of(s), -k),
{
    let n = s.len() as int;
    lemma_rotate_keeps_alphabet(s, k);
    if n > 0 {
        assert forall|t: int| 0 <= t < n implies revcomp_of(rotate(s, k))[t] == rotate(
            revcomp_of(s),
            -k,
        )[t] by {
            lemma_mirror_mod(t - k, n);
            lemma_mod_bound(t - k, n);
            assert(k + (n - 1 - t) == n - 1 - (t - k));
            assert(-k + t == t - k);
        }
        assert(revcomp_of(rotate(s, k)) =~= rotate(revcomp_of(s), -k));
    }
}

} // verus!
