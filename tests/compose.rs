use edit_patch::{Edit, Patch};

fn edit(old: std::ops::Range<u32>, new: std::ops::Range<u32>) -> Edit {
    Edit { old, new }
}

fn patch(edits: Vec<Edit>) -> Patch {
    Patch::new_unchecked(edits)
}

fn apply_patch(text: &mut Vec<char>, patch: &Patch, new_text: &[char]) {
    for edit in patch.edits().iter().rev() {
        text.splice(
            edit.old.start as usize..edit.old.end as usize,
            new_text[edit.new.start as usize..edit.new.end as usize].iter().copied(),
        );
    }
}

fn assert_patch_composition(old: Patch, new: Patch, composed: Patch) {
    let original = ('a'..'z').collect::<Vec<_>>();
    let inserted = ('A'..'Z').collect::<Vec<_>>();

    let mut expected = original.clone();
    apply_patch(&mut expected, &old, &inserted);
    apply_patch(&mut expected, &new, &inserted);

    let mut actual = original.clone();
    apply_patch(&mut actual, &composed, &expected);
    assert_eq!(
        actual.into_iter().collect::<String>(),
        expected.into_iter().collect::<String>(),
        "expected patch is incorrect"
    );

    assert_eq!(old.compose(&new), composed);
}

#[test]
fn test_one_disjoint_edit() {
    assert_patch_composition(
        patch(vec![edit(1..3, 1..4)]),
        patch(vec![edit(0..0, 0..4)]),
        patch(vec![edit(0..0, 0..4), edit(1..3, 5..8)]),
    );

    assert_patch_composition(
        patch(vec![edit(1..3, 1..4)]),
        patch(vec![edit(5..9, 5..7)]),
        patch(vec![edit(1..3, 1..4), edit(4..8, 5..7)]),
    );
}

#[test]
fn test_one_overlapping_edit() {
    assert_patch_composition(
        patch(vec![edit(1..3, 1..4)]),
        patch(vec![edit(3..5, 3..6)]),
        patch(vec![edit(1..4, 1..6)]),
    );
}

#[test]
fn test_two_disjoint_and_overlapping() {
    assert_patch_composition(
        patch(vec![edit(1..3, 1..4), edit(8..12, 9..11)]),
        patch(vec![edit(0..0, 0..4), edit(3..10, 7..9)]),
        patch(vec![edit(0..0, 0..4), edit(1..12, 5..10)]),
    );
}

#[test]
fn test_two_new_edits_overlapping_one_old_edit() {
    assert_patch_composition(
        patch(vec![edit(0..0, 0..3)]),
        patch(vec![edit(0..0, 0..1), edit(1..2, 2..2)]),
        patch(vec![edit(0..0, 0..3)]),
    );

    assert_patch_composition(
        patch(vec![edit(2..3, 2..4)]),
        patch(vec![edit(0..2, 0..1), edit(3..3, 2..5)]),
        patch(vec![edit(0..3, 0..6)]),
    );

    assert_patch_composition(
        patch(vec![edit(0..0, 0..2)]),
        patch(vec![edit(0..0, 0..2), edit(2..5, 4..4)]),
        patch(vec![edit(0..3, 0..4)]),
    );
}

#[test]
fn test_two_new_edits_touching_one_old_edit() {
    assert_patch_composition(
        patch(vec![edit(2..3, 2..4), edit(7..7, 8..11)]),
        patch(vec![edit(2..3, 2..2), edit(4..4, 3..4)]),
        patch(vec![edit(2..3, 2..4), edit(7..7, 8..11)]),
    );
}

/// A small linear congruential generator, so that the random cases are
/// reproducible without an outside crate.
struct Lcg(u64);

impl Lcg {
    fn next(&mut self) -> u64 {
        self.0 = self.0.wrapping_mul(6364136223846793005).wrapping_add(1442695040888963407);
        self.0 >> 33
    }

    /// A value in `lo..=hi`.
    fn range(&mut self, lo: usize, hi: usize) -> usize {
        lo + (self.next() as usize) % (hi - lo + 1)
    }
}

#[test]
fn test_random_patch_compositions() {
    let operations = 20;
    for seed in 0..100u64 {
        let mut rng = Lcg(seed);
        let initial_chars = (0..rng.range(0, 100))
            .map(|_| (b'a' + rng.range(0, 25) as u8) as char)
            .collect::<Vec<_>>();

        // Generate two sequential patches
        let mut patches = Vec::new();
        let mut expected_chars = initial_chars.clone();
        for _ in 0..2 {
            let mut delta = 0i32;
            let mut last_edit_end = 0;
            let mut edits = Vec::new();

            for _ in 0..operations {
                if last_edit_end >= expected_chars.len() {
                    break;
                }

                let end = rng.range(last_edit_end, expected_chars.len());
                let start = rng.range(last_edit_end, end);
                let old_len = end - start;

                let mut new_len = rng.range(0, 3);
                if start == end && new_len == 0 {
                    new_len += 1;
                }

                last_edit_end = start + new_len + 1;

                let new_chars = (0..new_len)
                    .map(|_| (b'A' + rng.range(0, 25) as u8) as char)
                    .collect::<Vec<_>>();
                edits.push(Edit {
                    old: (start as i32 - delta) as u32..(end as i32 - delta) as u32,
                    new: start as u32..(start + new_len) as u32,
                });
                expected_chars.splice(start..end, new_chars);

                delta += new_len as i32 - old_len as i32;
            }

            patches.push(Patch::new_unchecked(edits));
        }

        // Compose the patches, and verify that it has the same effect as applying the
        // two patches separately.
        let composed = patches[0].compose(&patches[1]);

        let mut actual_chars = initial_chars.clone();
        for edit in composed.edits() {
            actual_chars.splice(
                edit.new.start as usize..edit.new.start as usize + edit.old.len(),
                expected_chars[edit.new.start as usize..edit.new.end as usize].iter().copied(),
            );
        }

        assert_eq!(actual_chars, expected_chars, "seed {}", seed);
    }
}
