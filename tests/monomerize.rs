use circkit::monomerize::{ConfigurationError, IdentityRatio, MonomerizerBuilder};
use circkit::Monomerizer;

fn with_dist(seed_len: usize, overlap_dist: u64) -> Monomerizer {
    Monomerizer::builder()
        .seed_len(seed_len)
        .overlap_dist(overlap_dist)
        .build()
        .unwrap()
}

fn with_identity(seed_len: usize, numerator: u64, denominator: u64) -> Monomerizer {
    Monomerizer::builder()
        .overlap_min_identity(IdentityRatio::new(numerator, denominator))
        .seed_len(seed_len)
        .build()
        .unwrap()
}

#[test]
fn monomerize_multimer_with_mismatch_in_middle() {
    assert_eq!(
        with_dist(5, 1).monomerize(b"AAAAATTTTTAAGAATTTTTAAAAATTTTT"),
        b"AAAAATTTTT"
    );
}

#[test]
fn monomerize2_multimer_with_mismatch_in_middle() {
    assert_eq!(
        with_dist(5, 1).monomerize(b"AAAAATTTTTAAGAATTTTTAAAAATTTTT"),
        b"AAAAATTTTT"
    );
}

#[test]
fn monomerize_multimer_with_seed_repeated() {
    assert_eq!(
        with_dist(4, 0).monomerize(b"TGCCAATGCATGCCAATGC"),
        b"TGCCAATGCA"
    );
}

#[test]
fn monomerize_dimer_with_overlap_percentage() {
    let input = b"ATGCCCATGCGCCAGCGCAGATGCGAATGCGCCAGCGCAG";
    let output = b"ATGCCCATGCGCCAGCGCAG";
    assert_eq!(with_identity(4, 95, 100).monomerize(input), input);
    assert_eq!(with_identity(4, 90, 100).monomerize(input), output);
}

#[test]
fn monomerize_overlap_percentage_rounds_down_to_nearest_nt() {
    let input = b"TGCCCATGCGCCAGCGCAGATGCGAATGCGCCAGCGCAG";
    let output = b"TGCCCATGCGCCAGCGCAGA";
    assert_eq!(with_identity(4, 95, 100).monomerize(input), input);
    assert_eq!(with_identity(4, 90, 100).monomerize(input), output);
    assert_eq!(with_identity(4, 94, 100).monomerize(input), output);
}

#[test]
fn no_overlap_at_all() {
    assert_eq!(
        with_dist(10, 1).monomerize(b"TTTTTTTTTTTTAAAAAAAAAA"),
        b"TTTTTTTTTTTTAAAAAAAAAA"
    );
}

#[test]
fn identical_repeat() {
    assert_eq!(with_dist(2, 1).monomerize(b"ATGCATGC"), b"ATGC");
}

#[test]
fn exact_match_monomerize() {
    assert_eq!(with_dist(4, 0).monomerize(b"ATGCATGC"), b"ATGC");
}

#[test]
fn repeat_at_beginning() {
    assert_eq!(
        with_dist(10, 0).monomerize(b"AAAAATTTTTAAAAATTTTT"),
        b"AAAAATTTTT"
    );
}

#[test]
fn multimer() {
    assert_eq!(
        with_dist(8, 0).monomerize(b"AAAAATTTTTAAAAATTTTTAAAAATTTTT"),
        b"AAAAATTTTT"
    );
}

#[test]
fn dimer() {
    let input = b"TAAAAAAAAAAAAATAAAAAAAAAAAAA";
    assert_eq!(with_dist(6, 0).monomerize(input), b"TAAAAAAAAAAAAA");
}

#[test]
fn too_many_mismatches_keeps_sequence() {
    let x = b"TTTTTGGTTTTTAAAAAAAAAATTTTTTTTTTTTAAAAAAAAAA";
    assert_eq!(with_dist(10, 1).monomerize(x), x);
    assert_eq!(with_dist(10, 0).monomerize(x), x);
    assert_eq!(with_dist(10, 2).monomerize(x), b"TTTTTGGTTTTTAAAAAAAAAA");
}

#[test]
fn multimer_with_mismatch_in_each_keeps_first_copy() {
    assert_eq!(
        with_dist(5, 2).monomerize(b"AACAATTTTTAAGAATTTTTAAAAATTTTT"),
        b"AACAATTTTT"
    );
}

#[test]
fn mismatches_within_limit() {
    let x = b"TTAGCCCGTGTTTTATCGGAAGCTATCCTCAAAGCCCGTGTTTTATCGGAAGCTATCCTC";
    assert_eq!(with_dist(4, 2).monomerize(x), b"TTAGCCCGTGTTTTATCGGAAGCTATCCTC");
}

#[test]
fn big_dimer() {
    let input = b"ATGACAGGTACAGCATAATGACAGGTACAGCATA";
    assert_eq!(with_dist(6, 1).monomerize(input), b"ATGACAGGTACAGCATA");
}

#[test]
fn ambivirus_first_copy() {
    let input = b"CCCCTAATGCCGGGGTACTGATGAAGCCATGGCAGGCCGAAAGCAAATCTCATATTATGGCATACGATACGTGTGCGTCAGTTCCCCACCTGACTCTCGTCGGGTGTGGCTGAATGCAACAGTATCTTATGCGCAGGCATGATGACTGTCTTTCGCGGCCATGTTCTTCCATCAGCGCTAGGGCATTAGGGAGTAGCGATTTCGTTCTACCATGAACTCATCAGGCACCCGGTATCAGGGCACTATCGCACTACAGGCATGTCAATTAACGAACGACGAACTACGAAAAGATACGACATCGATCCTAAGAAAGTACACTATGGAACCAGGTCATCAACCAATCAATGTTGCCAGGAGGTCATCAAGATCAACCTCACCCTCACCAGCATCCTCTTCACGACGAGCTCTCTTCTTCTTTGGACCAGCTTCTCCAGCAATCTTGACCAACGACAGCCAAATCCGCTTCCTGAATTCCTCACTCTCCACCACCATATTCCGATATTTCCCAGCACGTTCATGGCTGTCTACCTTGATTGCCTGGCGTTCGAGCATCTTCTCAAAATCCTGGATGGCGATACTGAGAGGCTTCGGAGTAATGAAGAGTTTATCAGGCATGTTGGCAAAAGCATCCATCTCCCCAAGCTTACGTTTCCCACCCGAAACAACAGGTTTCTCTTTCGCTTCACACCGAATCTCGACACCTCGTTCATTCCAAAATGAGATCGCCTCAGGACCGAACCGAGAAAGGATGATAAACGCTCGACTCGAAAGGTTGACACGAATGGATGGAATGTACGTGGGACGACTGAGCTTAAGGACAGTATCAGAAGCAAGTGTCTCGAGCGCATCCGCAATCATCTGAGGGTTCCGAACGATGTACCCGGCACCCATATAGTTGAGGCTTCGAAGACTCTGGTTGACCTCCTTTTCGACCACATCATCCAACTCAGTCAGACGCACACCAGAGAAGACCTCAATGAGATTCTCAGGTTCAGTAAACGTCTTCCGATCGACCGATGGACCCGTATAAGTGCCTTCAGCAGTCATCCTCCCAAAAGCAGAGACCAGATTCGAGACAGCTGATTCGTGGGGATCCAAGCTGAGGAGTGCAAGAGAAAGTTGTTCTTCAGTACTGGGGGCAATCCACTTGGTCTGGTCGAAGATTGAGAATCGTGCGCCAAGCAGAACGAATCCCTTATACTCAGCAGCCTCGAAGATCATAAAGCATCTGCTCTGTGTATCAAGTGCTAAATCGATCCCCTTAAGTAGGTGAGAGAGCATCATCCCTTCCTTGGTCGTTGACAGAGATCCACAGCCGCGTCGAATAGTCAGAAAGGTGTCTTGAGACTTCTGCACCGTCGATCCGAGAAGTTGAAAGAACCGTTGAAGGATCACATTCGACATAAACACCGCGTCAGGCTGGACAAGACCGTGGAAGTATGGAAACGCAATTCCAGGAAGGTTGGGGACGTCGCGAGATGAGCCAATATTGGTCTGTGGCTTGCGACACGGTTTGGCCTTGTGGACAGTATCGTTTCCTGACGTGGAGAATCGTCCCTGAGGGGTTTCAAGTCGTGGATATGTCGTGGCGTCGTCGTCAGTCATCTGGTCAGGTGTGTACATCTCCCGTCCTTGAAGGGTTGACGAAAAGGCAATAGGAGCGAACGCGGATACATCCTTTCCTTCCTTGTCCTTCGTGTTGTAAGGGATATACTCAGTGTCCTTTACGTCATGAAGTGTGTGGAACTCTTGGATCGACTCGTCAGATTCGTATGAGAAGGCGGGGTATGAATGAGTACGCAAGAAGGTGGCGCAGACTGAGGACAAGAACTTGTACGCAAAGGCACCAGCTGGGTTGACGGCATCTCTACCACAGTTGAAATGGGCTGGAGTCAAGGCGATGATCGTATCCAACATGCCGTCAGGAAGTGCAGGTGCATGATAGATAGTCGTTTTACCAGAGGTACTCGTGGAGGCTCCAGGACCGAGACTGTTGACTAGCCTGATGGATTTGTCGGAATCGACCGCTTTCTTGAGCGTAAACTGCACGGGAGGACAGTTCAGAGGCAGAACATCTGATGAGTCAAAGAGTCCGAGGGGGAGTCCATTGACTAGAGTCGTTGCCTTGGTCTTTGTGGCCCAGAGGAAACAGGAGATGTTCGTCGCATAAGCAGTGTAGGCAGTCTGTTTGGTTAGGGCGACTCCGGCGAGATTGAGTGTTGAGATAGGCGAGGGGGCGAAGTTGTCCAATCCATGTAGTTTGAAGAGGGGAACGGTGTTCTGGCTGCCGGCAACGTGCCGAGCTGTGTAGATAGAGGAGGTCATGATGTCTGGGGACTGGAGGTGTGTAGTGTTGGCTCTTTTGTACCATCCCACTACACAGGCGAGATCTGTCGATCGACCTACCCACCAGCCCACTCAAGGACACCCCAGATCACTGCGTCCTGTGATACGGGCTTGTTGTGTGTCGATGTTCAAAAGAATGAAGCACACAGCCGCAACGTACTGGACCTGGTCTTGGACCTTCTCTCACCACACTGCTCTATGCACTGTCGTACAGACCATCCCATCCCTATCCTTACTACAAAGGAAAGACATACTCGGCCTCTGCAGGTCTCAAACACCGATCATACCAGGTTCCCACCAACACCGACAACTAAAGTGCTTAACCGACATCATCCAAGTTCCATCTGAACCTCAAAGAAGGGAAAACGACATCCAGTACTTGGAATACTCCTTCCATCGCTTTCTCAGAGACTACCAGGATGTATACCTTGACCATCTCTCCGCTGCTGTTATCGCTTTATCAGTCCGCGTCGCGCCCGGTATATCCGATTCAGACTTTCAGAACAGTCTCTCGTCCTCGATTTCCAAAGAGATTTCCGCTGCTATAACGATCTCCAACCAAGCACGCTTCGATTTCCGTTCGGTCATGGATTCGTCATTATCGTCCCGATTCATCCCTTTCACTGATAGACTGCCGCCGTCTCCAGAAGTCGCCTCTGATACGTATATCGCTCTTTGTCGAGTCCGCTCCCGACTTGATAATCGATTCCTACTGCCAACTCTTGGGAATAAGACCGTCGGCCAGGTTGTTCGTCATAACTTCTATGACATATATGACTCTTTCGGTTTAACCTTCAAACATGAGGGGAGGAGGAATGATGATACCGTGTCGACTTCGGATTGTATGCGTCTGTACCTCGAGACCGGAGTGTATCCACACGGACCTGTTGAAATGCGACGAGCCTGGACATATAATCAACTTGACCCAAGGGTGTATTACGCACGTGGAGGAGACGTTATGCACACATCCCAATACGTGCAGTCAATCGCCAATATGCTTATCGACGCTTTTCCCGAAACACACCGGAAAGATCGCTTCATGCCACCACGGGATCCACTAGCTGATGACGATGTTGAAGTCATATATGATTATTCATCGTTCACTTCGACTCTCGATTCGGTGGTTCCGTTTCTCGACAATCTCGCTGAGTTCTTCCGTGGTACTGTGGTTCATCTTGTCGACTTCAGGAACGGAGTTGTCCCAACCGACTTAGGTGATCTTATCGCACGATACAACACAGAGTGTAATCTCTATGGTACCTTCGACGCATCTAGAGTTCTGGGTCAATCTGCCGGTACGACTCTTCTTCAACATACCTGTGGAATGCTCGGAGTAGAAGGGAACATCTTCTTTGCCACACTCTTGCATGGGATACACCTCCGATTCATTGCTGGCCTGAACCGATCTCGTTGCGTTGGTGATGACGCTAGAATGCATCATAGGGTACCTTTCGGCATCATGGACAACACTGAAACCGATTACCTCGCTTGGGTTCTTGCTGGGTGTGGCGATCTGAGCAAGGAAAAGATGGGGAAATTCGAATCGGGTGTCGACAGTGAGCTCCAGGCCTATCGCTATATTAAGAGGCCGATACATCGCGACGGTTCCATTATGATTGAGGGGATACTCCTAACACTTCCTTCCATCATACCACTCCTCGGGGCCCAAGATCGATTCCACACTGTCACTCCATCCGTCAGTCATCCCTCGAGAAGAACGTACTCACAGATTCTCAGGTTCATCCAGGAGCTTTTCATTCATGGGTTATGTTACGACAGTGACGACGTTTCGTGGAAGTCGATATTGAAACATTTGATGTTCCTTAGGAGGTTATGTATTGCTGAGGATCCGGACTTTGAGCACTCCATGTTCATGAACTCATCTTATCTGACGAAGTATCGGTTTCCGCCACCAGAGACTTGGGGGAAGATGCCGATCACAGACTGGGTAGTAGGCGACATCATGTACGACGAGGTTATACGGTTTCCGATGAAGGGAGAGAGAGAATCAGAAGGAGGGTGTGACGGTCGCGTTGGTTCGGAAATGCTGAGGATGGGTTCCAAGGCTAGAGGATGTCTCGTGAAGCTAGGGTATCTGGAGGAGGAGAAGATGTTCGATGACGTTTCTGTCAAACTTGTCGGTTTGGACCTGTTCCTAGAGTACCTTGGAGGAAGATACCGTTCTATCAGCAAGTTCGTTGTCGTTAAGGACATACCTGGGTGGGTAGCACAAGTACCGAGTAGTCTATGAATGATGATAGAGCGAGATTTGCTATACCCCTAATGCCGGGGTACTGATGAAGCCATGGCAGGCCGAAAGCAAATCTCATATTATGGCATACGATACGTGTGCGTCAGTTCCCCACCTGACTCTCGTCGGGTGTGGCTGAATGCAACAGTATCTTATGCGCAGGCATGATGACTGTCTTTCGCGGCCATGTTCTTCCATCAGCGCTAGGGCATTAGGGAGTAGCGATTTCGTTCTACCATGAACTCATCAGGCACCCGGTATCAGGGCAC";
    let monomer = b"CCCCTAATGCCGGGGTACTGATGAAGCCATGGCAGGCCGAAAGCAAATCTCATATTATGGCATACGATACGTGTGCGTCAGTTCCCCACCTGACTCTCGTCGGGTGTGGCTGAATGCAACAGTATCTTATGCGCAGGCATGATGACTGTCTTTCGCGGCCATGTTCTTCCATCAGCGCTAGGGCATTAGGGAGTAGCGATTTCGTTCTACCATGAACTCATCAGGCACCCGGTATCAGGGCACTATCGCACTACAGGCATGTCAATTAACGAACGACGAACTACGAAAAGATACGACATCGATCCTAAGAAAGTACACTATGGAACCAGGTCATCAACCAATCAATGTTGCCAGGAGGTCATCAAGATCAACCTCACCCTCACCAGCATCCTCTTCACGACGAGCTCTCTTCTTCTTTGGACCAGCTTCTCCAGCAATCTTGACCAACGACAGCCAAATCCGCTTCCTGAATTCCTCACTCTCCACCACCATATTCCGATATTTCCCAGCACGTTCATGGCTGTCTACCTTGATTGCCTGGCGTTCGAGCATCTTCTCAAAATCCTGGATGGCGATACTGAGAGGCTTCGGAGTAATGAAGAGTTTATCAGGCATGTTGGCAAAAGCATCCATCTCCCCAAGCTTACGTTTCCCACCCGAAACAACAGGTTTCTCTTTCGCTTCACACCGAATCTCGACACCTCGTTCATTCCAAAATGAGATCGCCTCAGGACCGAACCGAGAAAGGATGATAAACGCTCGACTCGAAAGGTTGACACGAATGGATGGAATGTACGTGGGACGACTGAGCTTAAGGACAGTATCAGAAGCAAGTGTCTCGAGCGCATCCGCAATCATCTGAGGGTTCCGAACGATGTACCCGGCACCCATATAGTTGAGGCTTCGAAGACTCTGGTTGACCTCCTTTTCGACCACATCATCCAACTCAGTCAGACGCACACCAGAGAAGACCTCAATGAGATTCTCAGGTTCAGTAAACGTCTTCCGATCGACCGATGGACCCGTATAAGTGCCTTCAGCAGTCATCCTCCCAAAAGCAGAGACCAGATTCGAGACAGCTGATTCGTGGGGATCCAAGCTGAGGAGTGCAAGAGAAAGTTGTTCTTCAGTACTGGGGGCAATCCACTTGGTCTGGTCGAAGATTGAGAATCGTGCGCCAAGCAGAACGAATCCCTTATACTCAGCAGCCTCGAAGATCATAAAGCATCTGCTCTGTGTATCAAGTGCTAAATCGATCCCCTTAAGTAGGTGAGAGAGCATCATCCCTTCCTTGGTCGTTGACAGAGATCCACAGCCGCGTCGAATAGTCAGAAAGGTGTCTTGAGACTTCTGCACCGTCGATCCGAGAAGTTGAAAGAACCGTTGAAGGATCACATTCGACATAAACACCGCGTCAGGCTGGACAAGACCGTGGAAGTATGGAAACGCAATTCCAGGAAGGTTGGGGACGTCGCGAGATGAGCCAATATTGGTCTGTGGCTTGCGACACGGTTTGGCCTTGTGGACAGTATCGTTTCCTGACGTGGAGAATCGTCCCTGAGGGGTTTCAAGTCGTGGATATGTCGTGGCGTCGTCGTCAGTCATCTGGTCAGGTGTGTACATCTCCCGTCCTTGAAGGGTTGACGAAAAGGCAATAGGAGCGAACGCGGATACATCCTTTCCTTCCTTGTCCTTCGTGTTGTAAGGGATATACTCAGTGTCCTTTACGTCATGAAGTGTGTGGAACTCTTGGATCGACTCGTCAGATTCGTATGAGAAGGCGGGGTATGAATGAGTACGCAAGAAGGTGGCGCAGACTGAGGACAAGAACTTGTACGCAAAGGCACCAGCTGGGTTGACGGCATCTCTACCACAGTTGAAATGGGCTGGAGTCAAGGCGATGATCGTATCCAACATGCCGTCAGGAAGTGCAGGTGCATGATAGATAGTCGTTTTACCAGAGGTACTCGTGGAGGCTCCAGGACCGAGACTGTTGACTAGCCTGATGGATTTGTCGGAATCGACCGCTTTCTTGAGCGTAAACTGCACGGGAGGACAGTTCAGAGGCAGAACATCTGATGAGTCAAAGAGTCCGAGGGGGAGTCCATTGACTAGAGTCGTTGCCTTGGTCTTTGTGGCCCAGAGGAAACAGGAGATGTTCGTCGCATAAGCAGTGTAGGCAGTCTGTTTGGTTAGGGCGACTCCGGCGAGATTGAGTGTTGAGATAGGCGAGGGGGCGAAGTTGTCCAATCCATGTAGTTTGAAGAGGGGAACGGTGTTCTGGCTGCCGGCAACGTGCCGAGCTGTGTAGATAGAGGAGGTCATGATGTCTGGGGACTGGAGGTGTGTAGTGTTGGCTCTTTTGTACCATCCCACTACACAGGCGAGATCTGTCGATCGACCTACCCACCAGCCCACTCAAGGACACCCCAGATCACTGCGTCCTGTGATACGGGCTTGTTGTGTGTCGATGTTCAAAAGAATGAAGCACACAGCCGCAACGTACTGGACCTGGTCTTGGACCTTCTCTCACCACACTGCTCTATGCACTGTCGTACAGACCATCCCATCCCTATCCTTACTACAAAGGAAAGACATACTCGGCCTCTGCAGGTCTCAAACACCGATCATACCAGGTTCCCACCAACACCGACAACTAAAGTGCTTAACCGACATCATCCAAGTTCCATCTGAACCTCAAAGAAGGGAAAACGACATCCAGTACTTGGAATACTCCTTCCATCGCTTTCTCAGAGACTACCAGGATGTATACCTTGACCATCTCTCCGCTGCTGTTATCGCTTTATCAGTCCGCGTCGCGCCCGGTATATCCGATTCAGACTTTCAGAACAGTCTCTCGTCCTCGATTTCCAAAGAGATTTCCGCTGCTATAACGATCTCCAACCAAGCACGCTTCGATTTCCGTTCGGTCATGGATTCGTCATTATCGTCCCGATTCATCCCTTTCACTGATAGACTGCCGCCGTCTCCAGAAGTCGCCTCTGATACGTATATCGCTCTTTGTCGAGTCCGCTCCCGACTTGATAATCGATTCCTACTGCCAACTCTTGGGAATAAGACCGTCGGCCAGGTTGTTCGTCATAACTTCTATGACATATATGACTCTTTCGGTTTAACCTTCAAACATGAGGGGAGGAGGAATGATGATACCGTGTCGACTTCGGATTGTATGCGTCTGTACCTCGAGACCGGAGTGTATCCACACGGACCTGTTGAAATGCGACGAGCCTGGACATATAATCAACTTGACCCAAGGGTGTATTACGCACGTGGAGGAGACGTTATGCACACATCCCAATACGTGCAGTCAATCGCCAATATGCTTATCGACGCTTTTCCCGAAACACACCGGAAAGATCGCTTCATGCCACCACGGGATCCACTAGCTGATGACGATGTTGAAGTCATATATGATTATTCATCGTTCACTTCGACTCTCGATTCGGTGGTTCCGTTTCTCGACAATCTCGCTGAGTTCTTCCGTGGTACTGTGGTTCATCTTGTCGACTTCAGGAACGGAGTTGTCCCAACCGACTTAGGTGATCTTATCGCACGATACAACACAGAGTGTAATCTCTATGGTACCTTCGACGCATCTAGAGTTCTGGGTCAATCTGCCGGTACGACTCTTCTTCAACATACCTGTGGAATGCTCGGAGTAGAAGGGAACATCTTCTTTGCCACACTCTTGCATGGGATACACCTCCGATTCATTGCTGGCCTGAACCGATCTCGTTGCGTTGGTGATGACGCTAGAATGCATCATAGGGTACCTTTCGGCATCATGGACAACACTGAAACCGATTACCTCGCTTGGGTTCTTGCTGGGTGTGGCGATCTGAGCAAGGAAAAGATGGGGAAATTCGAATCGGGTGTCGACAGTGAGCTCCAGGCCTATCGCTATATTAAGAGGCCGATACATCGCGACGGTTCCATTATGATTGAGGGGATACTCCTAACACTTCCTTCCATCATACCACTCCTCGGGGCCCAAGATCGATTCCACACTGTCACTCCATCCGTCAGTCATCCCTCGAGAAGAACGTACTCACAGATTCTCAGGTTCATCCAGGAGCTTTTCATTCATGGGTTATGTTACGACAGTGACGACGTTTCGTGGAAGTCGATATTGAAACATTTGATGTTCCTTAGGAGGTTATGTATTGCTGAGGATCCGGACTTTGAGCACTCCATGTTCATGAACTCATCTTATCTGACGAAGTATCGGTTTCCGCCACCAGAGACTTGGGGGAAGATGCCGATCACAGACTGGGTAGTAGGCGACATCATGTACGACGAGGTTATACGGTTTCCGATGAAGGGAGAGAGAGAATCAGAAGGAGGGTGTGACGGTCGCGTTGGTTCGGAAATGCTGAGGATGGGTTCCAAGGCTAGAGGATGTCTCGTGAAGCTAGGGTATCTGGAGGAGGAGAAGATGTTCGATGACGTTTCTGTCAAACTTGTCGGTTTGGACCTGTTCCTAGAGTACCTTGGAGGAAGATACCGTTCTATCAGCAAGTTCGTTGTCGTTAAGGACATACCTGGGTGGGTAGCACAAGTACCGAGTAGTCTATGAATGATGATAGAGCGAGATTTGCTATA";
    assert_eq!(with_dist(20, 0).monomerize(input), monomer);
}

#[test]
fn end_indices() {
    let m = with_dist(4, 0);
    assert_eq!(m.first_monomer_end_index(b"ATGCATGC"), Some(4));
    assert_eq!(m.last_monomer_end_index(b"ATGCATGC"), Some(4));
    assert_eq!(m.last_monomer_end_index(b"ATGC"), None);
    assert_eq!(m.first_monomer_end_index(b"ATG"), None);
}

#[test]
fn sequence_not_longer_than_seed_is_kept() {
    let m = with_dist(10, 0);
    assert_eq!(m.first_monomer_end_index(b"ATGCATGCAT"), None);
    assert_eq!(m.monomerize(b"ATGCATGCAT"), b"ATGCATGCAT");
}

#[test]
fn sensitive_on_exact_dimer() {
    let m = with_dist(4, 0);
    assert_eq!(m.last_monomer_end_index_sensitive(b"ATGCATGC"), Some(4));
    assert_eq!(m.monomerize_sensitive(b"ATGCATGC"), b"ATGC");
}

#[test]
fn sensitive_catches_mismatch_in_seed() {
    let m = with_dist(4, 1);
    let s = b"CAGATTTTCATACAGATTTTCATG";
    assert_eq!(m.last_monomer_end_index(s), None);
    assert_eq!(m.monomerize(s), s);
    assert_eq!(m.last_monomer_end_index_sensitive(s), Some(12));
    assert_eq!(m.monomerize_sensitive(s), b"CAGATTTTCATA");
}

#[test]
fn build_rejects_both_thresholds() {
    let r = Monomerizer::builder()
        .overlap_dist(1)
        .overlap_min_identity(IdentityRatio::new(95, 100))
        .seed_len(4)
        .build();
    assert_eq!(r.unwrap_err(), ConfigurationError::ConflictingThresholds);
}

#[test]
fn build_rejects_missing_seed() {
    let r = Monomerizer::builder().build();
    assert_eq!(r.unwrap_err(), ConfigurationError::MissingSeedLen);
    assert!(ConfigurationError::MissingSeedLen.message().contains("seed_len"));
}

#[test]
fn build_rejects_seed_out_of_range() {
    let too_long: MonomerizerBuilder = Monomerizer::builder().seed_len(100);
    assert_eq!(too_long.build().unwrap_err(), ConfigurationError::SeedLenOutOfRange);
    let too_short = Monomerizer::builder().seed_len(0);
    assert_eq!(too_short.build().unwrap_err(), ConfigurationError::SeedLenOutOfRange);
    assert!(ConfigurationError::SeedLenOutOfRange
        .message()
        .contains("at least 1 and at most 63"));
    assert!(Monomerizer::builder().seed_len(63).build().is_ok());
    assert!(Monomerizer::builder().seed_len(64).build().is_err());
}

#[test]
fn build_rejects_identity_above_one() {
    let r = Monomerizer::builder()
        .overlap_min_identity(IdentityRatio::new(3, 2))
        .seed_len(4)
        .build();
    assert_eq!(r.unwrap_err(), ConfigurationError::IdentityOutOfRange);
    let r = Monomerizer::builder()
        .overlap_min_identity(IdentityRatio::new(0, 0))
        .seed_len(4)
        .build();
    assert_eq!(r.unwrap_err(), ConfigurationError::IdentityOutOfRange);
}

#[test]
fn build_keeps_settings() {
    let m = with_identity(10, 19, 20);
    assert_eq!(m.seed_len, 10);
    assert_eq!(m.overlap_dist, None);
    assert_eq!(m.overlap_min_identity, Some(IdentityRatio::new(19, 20)));
}
