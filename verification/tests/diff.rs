//! The diff engine: classification, pairing of changed regions, the merged
//! text, and structural symmetry.

use resym::diffing::{diff_texts, DiffChange};

#[test]
fn one_unchanged_and_one_modified_pair() {
    let d = diff_texts("line1\nline2", "line1\nlineX");
    let kinds: Vec<DiffChange> = d.metadata.iter().map(|e| e.1).collect();
    assert_eq!(kinds, vec![DiffChange::Unchanged, DiffChange::ModifiedPair]);
    assert_eq!(d.metadata[0].0, (Some(0), Some(0)));
    assert_eq!(d.metadata[1].0, (Some(1), Some(1)));
    // the merged text shows the unchanged line once and both sides of the pair
    assert_eq!(d.data, "line1\nline2\nlineX");
}

#[test]
fn diff_of_identical_texts_is_all_unchanged() {
    let t = "alpha\nbeta\ngamma";
    let d = diff_texts(t, t);
    assert_eq!(d.metadata.len(), 3);
    for (k, e) in d.metadata.iter().enumerate() {
        assert_eq!(e.0, (Some(k), Some(k)));
        assert_eq!(e.1, DiffChange::Unchanged);
    }
    assert_eq!(d.data, t);
}

#[test]
fn pure_insertion_and_deletion() {
    let d = diff_texts("a\nc", "a\nb\nc");
    let kinds: Vec<DiffChange> = d.metadata.iter().map(|e| e.1).collect();
    assert_eq!(
        kinds,
        vec![DiffChange::Unchanged, DiffChange::Added, DiffChange::Unchanged]
    );
    assert_eq!(d.metadata[1].0, (None, Some(1)));
    assert_eq!(d.data, "a\nb\nc");

    let d2 = diff_texts("a\nb\nc", "a\nc");
    let kinds2: Vec<DiffChange> = d2.metadata.iter().map(|e| e.1).collect();
    assert_eq!(
        kinds2,
        vec![DiffChange::Unchanged, DiffChange::Removed, DiffChange::Unchanged]
    );
    assert_eq!(d2.metadata[1].0, (Some(1), None));
    assert_eq!(d2.data, "a\nb\nc");
}

#[test]
fn unbalanced_change_pairs_what_it_can() {
    // one removed line against two added ones: one pair, one leftover add
    let d = diff_texts("x", "y\nz");
    let kinds: Vec<DiffChange> = d.metadata.iter().map(|e| e.1).collect();
    assert_eq!(kinds, vec![DiffChange::ModifiedPair, DiffChange::Added]);
    assert_eq!(d.metadata[0].0, (Some(0), Some(0)));
    assert_eq!(d.metadata[1].0, (None, Some(1)));
}

#[test]
fn swapping_sides_mirrors_the_change_kinds() {
    let a = "common\nonly-a\nshared\ntail-a";
    let b = "common\nonly-b1\nonly-b2\nshared";
    let ab = diff_texts(a, b);
    let ba = diff_texts(b, a);
    let count =
        |d: &resym::diffing::DiffedType, k: DiffChange| d.metadata.iter().filter(|e| e.1 == k).count();
    assert_eq!(count(&ab, DiffChange::Unchanged), count(&ba, DiffChange::Unchanged));
    assert_eq!(count(&ab, DiffChange::ModifiedPair), count(&ba, DiffChange::ModifiedPair));
    assert_eq!(count(&ab, DiffChange::Added), count(&ba, DiffChange::Removed));
    assert_eq!(count(&ab, DiffChange::Removed), count(&ba, DiffChange::Added));
    // entry by entry, the two runs are mirror images
    assert_eq!(ab.metadata.len(), ba.metadata.len());
    for (ea, eb) in ab.metadata.iter().zip(ba.metadata.iter()) {
        assert_eq!(ea.0 .0, eb.0 .1);
        assert_eq!(ea.0 .1, eb.0 .0);
    }
}

#[test]
fn empty_texts_diff_to_one_unchanged_empty_line() {
    let d = diff_texts("", "");
    assert_eq!(d.metadata.len(), 1);
    assert_eq!(d.metadata[0], ((Some(0), Some(0)), DiffChange::Unchanged));
    assert_eq!(d.data, "");
}
