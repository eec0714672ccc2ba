use crate::edit::EditModel;
use crate::patch::{cursor_ok, lemma_push_at_cursor, patch_wf, push_model};
use vstd::prelude::*;

verus! {

/// Position `x` of the source lies in the old range of some edit.
pub open spec fn inside(s: Seq<EditModel>, x: int) -> bool {
    exists|k: int| #![trigger s[k]] 0 <= k < s.len() && s[k].old_start <= x < s[k].old_end
}

/// The net length change of the last edit whose old range ends at or
/// before `x`: how far an unedited position `x` moves.
pub open spec fn shift(s: Seq<EditModel>, x: int) -> int
    decreases s.len(),
{
    if s.len() == 0 {
        0
    } else if s.last().old_end <= x {
        s.last().new_end - s.last().old_end
    } else {
        shift(s.drop_last(), x)
    }
}

/// Where position `x` of the source stands in the destination, or `None`
/// when an edit replaces it.
pub open spec fn image(s: Seq<EditModel>, x: int) -> Option<int> {
    if inside(s, x) {
        None
    } else {
        Some(x + shift(s, x))
    }
}

/// Where position `x` stands after `p1` and then `p2`.
pub open spec fn image_through(p1: Seq<EditModel>, p2: Seq<EditModel>, x: int) -> Option<int> {
    match image(p1, x) {
        Some(z) => image(p2, z),
        None => None,
    }
}

pub proof fn lemma_sorted(s: Seq<EditModel>, m: int, n: int)
    requires
        patch_wf(s),
        0 <= m < n < s.len(),
    ensures
        s[m].old_end < s[n].old_start,
    decreases n - m,
{
    assert(s[m + 1] == s[m + 1]);
    if m + 1 < n {
        lemma_sorted(s, m + 1, n);
        assert(s[m + 1].well_formed());
    }
}

proof fn lemma_wf_drop_last(s: Seq<EditModel>)
    requires
        patch_wf(s),
        s.len() > 0,
    ensures
        patch_wf(s.drop_last()),
{
    let t = s.drop_last();
    assert forall|k: int| #![trigger t[k]] 0 <= k < t.len() implies t[k].well_formed() by {
        assert(s[k].well_formed());
    }
    assert forall|k: int| #![trigger t[k + 1]] 0 <= k < t.len() - 1 implies t[k].old_end
        < t[k + 1].old_start && t[k].new_end < t[k + 1].new_start && t[k + 1].new_start
        - t[k + 1].old_start == t[k].new_end - t[k].old_end by {
        assert(s[k + 1] == s[k + 1]);
    }
}

/// The shift of a position between the edit `k` (or the start, for `k == -1`)
/// and the next edit.
pub open spec fn shift_after(s: Seq<EditModel>, k: int) -> int {
    if k >= 0 {
        s[k].new_end - s[k].old_end
    } else {
        0
    }
}

proof fn lemma_shift_between(s: Seq<EditModel>, k: int, x: int)
    requires
        patch_wf(s),
        -1 <= k < s.len(),
        k >= 0 ==> s[k].old_end <= x,
        k + 1 < s.len() ==> x < s[k + 1].old_start,
    ensures
        shift(s, x) == shift_after(s, k),
    decreases s.len(),
{
    if s.len() > 0 && k < s.len() - 1 {
        let n = s.len() - 1;
        if k + 1 < n {
            lemma_sorted(s, k + 1, n);
            assert(s[k + 1].well_formed());
        }
        assert(s[n].well_formed());
        lemma_wf_drop_last(s);
        lemma_shift_between(s.drop_last(), k, x);
    }
}

/// A position between two edits is kept, shifted by the net change of the
/// edits before it.
pub proof fn lemma_image_between(s: Seq<EditModel>, k: int, x: int)
    requires
        patch_wf(s),
        -1 <= k < s.len(),
        k >= 0 ==> s[k].old_end <= x,
        k + 1 < s.len() ==> x < s[k + 1].old_start,
    ensures
        image(s, x) == Some(x + shift_after(s, k)),
{
    lemma_shift_between(s, k, x);
    assert forall|m: int| 0 <= m < s.len() implies !(#[trigger] s[m].old_start <= x < s[m].old_end) by {
        assert(s[m].well_formed());
        if m < k {
            lemma_sorted(s, m, k);
            assert(s[k].well_formed());
        } else if m > k + 1 {
            lemma_sorted(s, k + 1, m);
            assert(s[k + 1].well_formed());
        }
    }
}

/// A position inside the old range of an edit is replaced.
pub proof fn lemma_image_inside(s: Seq<EditModel>, k: int, x: int)
    requires
        0 <= k < s.len(),
        s[k].old_start <= x < s[k].old_end,
    ensures
        image(s, x) == None::<int>,
{
    assert(inside(s, x));
}

/// At or past the cursor, the output of a merge shifts positions as the
/// cursor is shifted.
pub proof fn lemma_image_past_cursor(out: Seq<EditModel>, old_pos: int, new_pos: int, x: int)
    requires
        patch_wf(out),
        cursor_ok(out, old_pos, new_pos),
        old_pos <= x,
    ensures
        image(out, x) == Some(x + new_pos - old_pos),
{
    if out.len() > 0 {
        lemma_image_between(out, out.len() - 1, x);
    } else {
        lemma_image_between(out, -1, x);
    }
}

/// What appending an edit at or after the cursor does to the image: nothing
/// before the cursor, a plain shift up to the edit, a replacement within it.
pub proof fn lemma_push_image(out: Seq<EditModel>, e: EditModel, old_pos: int, new_pos: int)
    requires
        patch_wf(out),
        cursor_ok(out, old_pos, new_pos),
        0 <= old_pos <= e.old_start <= e.old_end,
        0 <= new_pos,
        e.new_start <= e.new_end,
        e.new_start - e.old_start == new_pos - old_pos,
    ensures
        forall|x: int|
            #![trigger image(push_model(out, e), x)]
            x < old_pos ==> image(push_model(out, e), x) == image(out, x),
        forall|x: int|
            #![trigger image(push_model(out, e), x)]
            old_pos <= x < e.old_start ==> image(push_model(out, e), x) == Some(
                x + new_pos - old_pos,
            ),
        forall|x: int|
            #![trigger image(push_model(out, e), x)]
            e.old_start <= x < e.old_end ==> image(push_model(out, e), x) == None::<int>,
{
    let r = push_model(out, e);
    lemma_push_at_cursor(out, e, old_pos, new_pos);
    if e.is_noop() {
        assert forall|x: int| old_pos <= x < e.old_start implies #[trigger] image(r, x) == Some(
            x + new_pos - old_pos,
        ) by {
            lemma_image_past_cursor(out, old_pos, new_pos, x);
        }
    } else if out.len() > 0 && out.last().old_end >= e.old_start {
        let n = out.len() - 1;
        assert(r.drop_last() =~= out.drop_last());
        assert forall|x: int| x < old_pos implies #[trigger] image(r, x) == image(out, x) by {
            assert(inside(r, x) == inside(out, x)) by {
                if inside(r, x) {
                    let k = choose|k: int| #![trigger r[k]] 0 <= k < r.len() && r[k].old_start <= x < r[k].old_end;
                    if k < n {
                        assert(out[k] == r[k]);
                    }
                }
                if inside(out, x) {
                    let k = choose|k: int| #![trigger out[k]] 0 <= k < out.len() && out[k].old_start <= x < out[k].old_end;
                    if k < n {
                        assert(out[k] == r[k]);
                    }
                }
            }
        }
        assert forall|x: int| e.old_start <= x < e.old_end implies #[trigger] image(r, x) == None::<int> by {
            assert(out[n].well_formed());
            lemma_image_inside(r, n, x);
        }
    } else {
        let n = out.len() as int;
        assert(r.drop_last() =~= out);
        assert forall|x: int| x < old_pos implies #[trigger] image(r, x) == image(out, x) by {
            assert(inside(r, x) == inside(out, x)) by {
                if inside(r, x) {
                    let k = choose|k: int| #![trigger r[k]] 0 <= k < r.len() && r[k].old_start <= x < r[k].old_end;
                    assert(k < n);
                    assert(out[k] == r[k]);
                }
                if inside(out, x) {
                    let k = choose|k: int| #![trigger out[k]] 0 <= k < out.len() && out[k].old_start <= x < out[k].old_end;
                    assert(out[k] == r[k]);
                }
            }
        }
        assert forall|x: int| old_pos <= x < e.old_start implies #[trigger] image(r, x) == Some(
            x + new_pos - old_pos,
        ) by {
            if n > 0 {
                lemma_image_between(r, n - 1, x);
            } else {
                lemma_image_between(r, -1, x);
            }
        }
        assert forall|x: int| e.old_start <= x < e.old_end implies #[trigger] image(r, x) == None::<int> by {
            lemma_image_inside(r, n, x);
        }
    }
}

} // verus!
