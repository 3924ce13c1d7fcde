use circkit::order::lex_less;
use circkit::strand::{contains_uracil, revcomp};
use circkit::{canonicalize, lmsr, lmsr_index};

fn rotate(s: &[u8], k: usize) -> Vec<u8> {
    let k = k % s.len();
    let mut out = s[k..].to_vec();
    out.extend_from_slice(&s[..k]);
    out
}

#[test]
fn aaa() {
    assert_eq!(lmsr_index(b"AAA"), 0);
}

#[test]
fn banana() {
    assert_eq!(lmsr_index(b"banana"), 5);
}

#[test]
fn taa() {
    assert_eq!(lmsr_index(b"TAA"), 1);
}

#[test]
fn canonicalize_aaa() {
    assert_eq!(lmsr(b"AAA"), b"AAA");
}

#[test]
fn canonicalize_banana() {
    assert_eq!(lmsr(b"banana"), b"abanan");
}

#[test]
fn canonicalize_taa() {
    assert_eq!(lmsr(b"TAA"), b"AAT");
}

#[test]
fn second_application_is_identical() {
    let tmp = lmsr(b"ATGCAGATACAGA");
    let tmp2 = lmsr(&tmp);
    assert_eq!(tmp, tmp2);
}

#[test]
fn canonical_form_of_aaa() {
    assert_eq!(canonicalize(b"AAA"), b"AAA");
}

#[test]
fn att() {
    assert_eq!(canonicalize(b"ATT"), b"AAT");
}

#[test]
fn real_monomer() {
    let a = "AATCAATTTCCTCCATCACCTAGTTTATGTAGAAACGCTGCTA";
    let b = "TCCTCCATCACCTAGTTTATGTAGAAACGCTGCTAAATCAATT";
    assert_eq!(lmsr(a.as_bytes()), lmsr(b.as_bytes()));
    assert_eq!(canonicalize(a.as_bytes()), canonicalize(b.as_bytes()));
}

#[test]
fn lmsr_index_single_byte() {
    assert_eq!(lmsr_index(b"G"), 0);
}

#[test]
fn lmsr_index_periodic_takes_leftmost() {
    assert_eq!(lmsr_index(b"ABAB"), 0);
    assert_eq!(lmsr_index(b"BABA"), 1);
    assert_eq!(lmsr_index(b"CACACA"), 1);
}

#[test]
fn lmsr_index_matches_brute_force() {
    let inputs: [&[u8]; 6] = [
        b"ATGCAGATACAGA",
        b"GGTCGGAGAATTGGG",
        b"zyxzyxa",
        b"bbbabbbab",
        b"TTTTTTTTTTTTAAAAAAAAAA",
        b"CABCAB",
    ];
    for s in inputs {
        let mut best = 0;
        for i in 1..s.len() {
            if rotate(s, i) < rotate(s, best) {
                best = i;
            }
        }
        assert_eq!(lmsr_index(s), best);
        assert_eq!(lmsr(s), rotate(s, best));
    }
}

#[test]
fn canonicalize_rna_uses_rna_complement() {
    assert_eq!(canonicalize(b"AUU"), b"AAU");
}

#[test]
fn canonicalize_is_idempotent_on_example() {
    let c = canonicalize(b"GATTACAGGC");
    assert_eq!(canonicalize(&c), c);
}

#[test]
fn canonicalize_is_rotation_invariant_on_example() {
    let s = b"GATTACAGGC";
    for k in 0..s.len() {
        assert_eq!(canonicalize(&rotate(s, k)), canonicalize(s));
    }
}

#[test]
fn canonicalize_is_strand_invariant_on_example() {
    let s = b"GATTACAGGC";
    assert_eq!(canonicalize(&revcomp(s)), canonicalize(s));
}

#[test]
fn canonicalize_keeps_length() {
    assert_eq!(canonicalize(b"ATGCA"), b"AATGC");
}

#[test]
fn revcomp_dna() {
    assert_eq!(revcomp(b"ACGTN"), b"NACGT");
    assert_eq!(revcomp(b"GaTtaCA"), b"TGtaAtC");
    assert_eq!(revcomp(b"AGCTYRWSKMDVHBN"), b"NVDBHKMSWYRAGCT");
}

#[test]
fn revcomp_rna() {
    assert_eq!(revcomp(b"AUGC"), b"GCAU");
    assert_eq!(revcomp(b"aaU"), b"Auu");
}

#[test]
fn uracil_detection() {
    assert!(contains_uracil(b"ACGU"));
    assert!(contains_uracil(b"acgu"));
    assert!(!contains_uracil(b"ACGT"));
}

#[test]
fn lexicographic_order() {
    assert!(lex_less(b"AAT", b"ATA"));
    assert!(!lex_less(b"ATA", b"AAT"));
    assert!(!lex_less(b"AAT", b"AAT"));
}
