use cherry_harvest::search::methods::ann::traditional_lsh as ann_lsh;
use cherry_harvest::search::ann::traditional_lsh as banding;
use cherry_harvest::search::methods::lsh;
use std::iter::zip;

fn candidate_check(bands_a: &Vec<&[u32]>, bands_b: &Vec<&[u32]>) -> bool {
    zip(bands_a, bands_b).any(|(band_a, band_b)| band_a == band_b)
}

#[test]
fn traditional_lsh_simple_signature_split() {
    let signature = vec![1, 3, 4, 8, 23];

    let splits = ann_lsh::split_signature(&signature, 5);
    assert_eq!(splits.len(), 5);
    splits
        .iter()
        .map(|s| s[0])
        .zip(signature.iter())
        .for_each(|(v1, v2)| assert_eq!(v1, *v2))
}

#[test]
fn traditional_lsh_single_signature_split() {
    let signature = vec![1, 3, 4, 8, 23];

    let splits = ann_lsh::split_signature(&signature, 1);
    assert_eq!(splits.len(), 1);
    splits
        .iter()
        .flat_map(|b| b.iter())
        .zip(signature.iter())
        .for_each(|(v1, v2)| assert_eq!(v1, v2))
}

#[test]
fn traditional_lsh_signatures_are_candidates() {
    let sig_a = vec![0, 3, 2, 4, 60, 103];
    let sig_b = vec![1, 4, 2, 4, 603, 0];

    let n_splits = 3;
    let banded_a = ann_lsh::split_signature(&sig_a, n_splits);
    let banded_b = ann_lsh::split_signature(&sig_b, n_splits);

    assert!(candidate_check(&banded_a, &banded_b));
}

#[test]
fn traditional_lsh_signatures_are_not_candidates() {
    let sig_a = vec![0, 3, 2, 4, 60, 103];
    let sig_b = vec![1, 4, 2, 5, 603, 0];

    let n_splits = 3;
    let banded_a = ann_lsh::split_signature(&sig_a, n_splits);
    let banded_b = ann_lsh::split_signature(&sig_b, n_splits);

    assert!(!candidate_check(&banded_a, &banded_b));
}

#[test]
fn lsh_simple_signature_split() {
    let signature = vec![1, 3, 4, 8, 23];

    let splits = lsh::split_signature(&signature, 5);
    assert_eq!(splits.len(), 5);
    splits
        .iter()
        .map(|s| s[0])
        .zip(signature.iter())
        .for_each(|(v1, v2)| assert_eq!(v1, *v2))
}

#[test]
fn lsh_single_signature_split() {
    let signature = vec![1, 3, 4, 8, 23];

    let splits = lsh::split_signature(&signature, 1);
    assert_eq!(splits.len(), 1);
    splits
        .iter()
        .flat_map(|b| b.iter())
        .zip(signature.iter())
        .for_each(|(v1, v2)| assert_eq!(v1, v2))
}

#[test]
fn lsh_signatures_are_candidates() {
    let sig_a = vec![0, 3, 2, 4, 60, 103];
    let sig_b = vec![1, 4, 2, 4, 603, 0];

    let n_splits = 3;
    let banded_a = lsh::split_signature(&sig_a, n_splits);
    let banded_b = lsh::split_signature(&sig_b, n_splits);

    assert!(candidate_check(&banded_a, &banded_b));
}

#[test]
fn lsh_signatures_are_not_candidates() {
    let sig_a = vec![0, 3, 2, 4, 60, 103];
    let sig_b = vec![1, 4, 2, 5, 603, 0];

    let n_splits = 3;
    let banded_a = lsh::split_signature(&sig_a, n_splits);
    let banded_b = lsh::split_signature(&sig_b, n_splits);

    assert!(!candidate_check(&banded_a, &banded_b));
}

#[test]
fn split_bands_cover_signature_in_order() {
    let signature = vec![5, 6, 7, 8, 9, 10];
    let bands = lsh::split_signature(&signature, 3);
    assert_eq!(bands, vec![&[5u32, 6][..], &[7, 8][..], &[9, 10][..]]);
}

#[test]
fn band_maps_give_exactly_the_pairs_sharing_a_band() {
    let lsh = lsh::TraditionalLSH::new(3, 6, 2);
    let signatures = vec![
        vec![0, 3, 2, 4, 60, 103],
        vec![1, 4, 2, 4, 603, 0],
        vec![1, 4, 9, 9, 9, 9],
        vec![7, 7, 7, 7, 7, 7],
    ];
    let maps = lsh.build_band_maps(&signatures);
    let mut pairs: Vec<(usize, usize)> = lsh
        .collect_candidates(&maps, &signatures)
        .into_iter()
        .map(|p| (p.0, p.1))
        .collect();
    pairs.sort();
    assert_eq!(pairs, vec![(0, 1), (1, 2)]);
}

#[test]
fn id_pairs_are_ordered() {
    let p = lsh::IdPair::new(7, 3);
    assert_eq!((p.0, p.1), (3, 7));
    let q = lsh::IdPair::new(2, 5);
    assert_eq!((q.0, q.1), (2, 5));
}

#[test]
fn simple_signature_split() {
    let signature = vec![1, 3, 4, 8, 23];

    let splits = banding::split_signature(&signature, 5);
    assert_eq!(splits.len(), 5);
    splits
        .iter()
        .map(|s| s[0])
        .zip(signature.iter())
        .for_each(|(v1, v2)| assert_eq!(v1, *v2))
}

#[test]
fn single_signature_split() {
    let signature = vec![1, 3, 4, 8, 23];

    let splits = banding::split_signature(&signature, 1);
    assert_eq!(splits.len(), 1);
    splits
        .iter()
        .flat_map(|b| b.iter())
        .zip(signature.iter())
        .for_each(|(v1, v2)| assert_eq!(v1, v2))
}

#[test]
fn empty_signature_split_gives_empty_bands() {
    let signature: Vec<u32> = vec![];
    let bands = lsh::split_signature(&signature, 2);
    assert_eq!(bands.len(), 2);
    assert!(bands.iter().all(|b| b.is_empty()));
}
