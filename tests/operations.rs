use edit_patch::{Edit, Patch};

fn edit(old: std::ops::Range<u32>, new: std::ops::Range<u32>) -> Edit {
    Edit { old, new }
}

fn bounds(p: &Patch) -> Vec<(u32, u32, u32, u32)> {
    p.edits().iter().map(|e| (e.old.start, e.old.end, e.new.start, e.new.end)).collect()
}

#[test]
fn push_appends_separated_edits() {
    let mut p = Patch::new();
    p.push(edit(1..3, 1..4));
    p.push(edit(5..6, 7..7));
    assert_eq!(bounds(&p), vec![(1, 3, 1, 4), (5, 6, 7, 7)]);
}

#[test]
fn push_coalesces_touching_edits() {
    let mut p = Patch::new();
    p.push(edit(1..3, 1..4));
    p.push(edit(3..5, 4..4));
    assert_eq!(bounds(&p), vec![(1, 5, 1, 4)]);
}

#[test]
fn push_coalesces_overlapping_edits() {
    let mut p = Patch::new();
    p.push(edit(1..4, 1..2));
    p.push(edit(2..6, 2..9));
    assert_eq!(bounds(&p), vec![(1, 6, 1, 9)]);
}

#[test]
fn push_drops_noop() {
    let mut p = Patch::new();
    p.push(edit(2..2, 2..2));
    assert!(p.edits().is_empty());
    p.push(edit(1..3, 1..1));
    p.push(edit(4..4, 2..2));
    assert_eq!(bounds(&p), vec![(1, 3, 1, 1)]);
}

#[test]
fn invert_swaps_ranges() {
    let mut p = Patch::new_unchecked(vec![edit(1..3, 1..4), edit(8..12, 9..11)]);
    p.invert();
    assert_eq!(bounds(&p), vec![(1, 4, 1, 3), (9, 11, 8, 12)]);
}

#[test]
fn invert_twice_is_identity() {
    let original = Patch::new_unchecked(vec![edit(0..0, 0..4), edit(1..12, 5..10)]);
    let mut p = Patch::new_unchecked(vec![edit(0..0, 0..4), edit(1..12, 5..10)]);
    p.invert().invert();
    assert_eq!(p, original);
}

#[test]
fn clear_empties_patch() {
    let mut p = Patch::new_unchecked(vec![edit(1..3, 1..4)]);
    p.clear();
    assert!(p.edits().is_empty());
    assert_eq!(p, Patch::default());
}

#[test]
fn compose_with_empty_is_identity() {
    let p = Patch::new_unchecked(vec![edit(1..3, 1..4), edit(8..12, 9..11)]);
    assert_eq!(p.compose(&Patch::new()), p);
    assert_eq!(Patch::new().compose(&p), p);
    assert_eq!(Patch::new().compose(&Patch::new()), Patch::new());
}

#[test]
fn compose_is_deterministic() {
    let p1 = Patch::new_unchecked(vec![edit(1..3, 1..4), edit(8..12, 9..11)]);
    let p2 = Patch::new_unchecked(vec![edit(0..0, 0..4), edit(3..10, 7..9)]);
    assert_eq!(p1.compose(&p2), p1.compose(&p2));
}

#[test]
fn compose_then_invert_undoes() {
    // an edit followed by its inverse leaves a replacement of equal text
    let p = Patch::new_unchecked(vec![edit(2..5, 2..3)]);
    let mut q = Patch::new_unchecked(vec![edit(2..5, 2..3)]);
    q.invert();
    assert_eq!(bounds(&p.compose(&q)), vec![(2, 5, 2, 5)]);
}

#[test]
fn compose_output_is_separated() {
    let p1 = Patch::new_unchecked(vec![edit(0..1, 0..2), edit(4..4, 5..7), edit(9..12, 12..12)]);
    let p2 = Patch::new_unchecked(vec![edit(1..3, 1..1), edit(6..8, 4..9)]);
    let r = p1.compose(&p2);
    let b = bounds(&r);
    for w in b.windows(2) {
        assert!(w[0].1 < w[1].0);
        assert!(w[0].3 < w[1].2);
    }
    for e in &b {
        assert!(!(e.0 == e.1 && e.2 == e.3));
    }
}

#[test]
fn range_len_counts_reversed_as_empty() {
    assert_eq!(edit_patch::edit::range_len(&(3..7)), 4);
    assert_eq!(edit_patch::edit::range_len(&(5..5)), 0);
    assert_eq!(edit_patch::edit::range_len(&(7..3)), 0);
}

#[test]
fn edit_from_bounds_and_duplicate() {
    let e = Edit::from_bounds(1, 3, 2, 6);
    assert_eq!(e, edit(1..3, 2..6));
    assert_eq!(e.duplicate(), e);
}

#[test]
fn compose_deletion_then_insertion_at_same_place() {
    // delete two characters, then insert three where they were
    let p1 = Patch::new_unchecked(vec![edit(2..4, 2..2)]);
    let p2 = Patch::new_unchecked(vec![edit(2..2, 2..5)]);
    assert_eq!(bounds(&p1.compose(&p2)), vec![(2, 4, 2, 5)]);
}
