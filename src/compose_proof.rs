use crate::compose_model::{
    bounds, compose_model, first_alone, merge_lead, merge_run, merge_start, merge_step, min_int,
    second_alone, state_inv, MergeState,
};
use crate::edit::EditModel;
use crate::patch::{extent, lemma_push_at_cursor, lemma_within_extent, patch_wf};
use crate::semantics::{
    image, image_through, lemma_image_between, lemma_image_inside, lemma_image_past_cursor,
    lemma_push_image,
};
use vstd::prelude::*;

verus! {

/// The cursor in the middle version after one step of the merge.
pub open spec fn next_mid(p1: Seq<EditModel>, p2: Seq<EditModel>, st: MergeState) -> int {
    if first_alone(p1, p2, st) {
        st.a.new_end
    } else if second_alone(p1, p2, st) {
        st.b.old_end
    } else if st.a.new_end > st.b.old_end {
        st.b.old_end
    } else {
        st.a.new_end
    }
}

/// How positions behave around the cursor of a merge: up to the next edit
/// of each input they are plainly shifted, and before the cursor the output
/// maps them as the two inputs one after the other do.
pub open spec fn image_inv(
    p1: Seq<EditModel>,
    p2: Seq<EditModel>,
    st: MergeState,
    out: Seq<EditModel>,
    mid: int,
) -> bool {
    &&& forall|x: int|
        #![trigger image(p1, x)]
        st.old_pos <= x && (st.i < p1.len() ==> x < st.a.old_start) ==> image(p1, x) == Some(
            x + mid - st.old_pos,
        )
    &&& forall|z: int|
        #![trigger image(p2, z)]
        mid <= z && (st.j < p2.len() ==> z < st.b.old_start) ==> image(p2, z) == Some(
            z + st.new_pos - mid,
        )
    &&& forall|x: int|
        #![trigger image(out, x)]
        0 <= x < st.old_pos ==> image(out, x) == image_through(p1, p2, x)
}

proof fn lemma_first_image(
    p1: Seq<EditModel>,
    p2: Seq<EditModel>,
    st: MergeState,
    out: Seq<EditModel>,
    mid: int,
)
    requires
        state_inv(p1, p2, st, out, mid),
        image_inv(p1, p2, st, out, mid),
        first_alone(p1, p2, st),
    ensures
        image_inv(p1, p2, merge_step(p1, p2, st, out).0, merge_step(p1, p2, st, out).1, st.a.new_end),
{
    let (st2, out2) = merge_step(p1, p2, st, out);
    let a = st.a;
    let i = st.i;
    let x0 = st.old_pos;
    let x2 = st.new_pos;
    let s2 = x2 + (a.old_start - x0);
    let e = bounds(a.old_start, a.old_start + a.old_len(), s2, s2 + a.new_len());
    lemma_push_image(out, e, x0, x2);
    assert forall|x: int| #![trigger image(p1, x)] st2.old_pos <= x && (st2.i < p1.len() ==> x
        < st2.a.old_start) implies image(p1, x) == Some(x + a.new_end - st2.old_pos) by {
        lemma_image_between(p1, i, x);
    }
    assert forall|x: int| #![trigger image(out2, x)] 0 <= x < st2.old_pos implies image(out2, x)
        == image_through(p1, p2, x) by {
        if x >= a.old_start {
            lemma_image_inside(p1, i, x);
        } else if x >= x0 {
            assert(image(p1, x) == Some(x + mid - x0));
            assert(image(p2, x + mid - x0) == Some(x + mid - x0 + x2 - mid));
        }
    }
}

proof fn lemma_second_image(
    p1: Seq<EditModel>,
    p2: Seq<EditModel>,
    st: MergeState,
    out: Seq<EditModel>,
    mid: int,
)
    requires
        state_inv(p1, p2, st, out, mid),
        image_inv(p1, p2, st, out, mid),
        !first_alone(p1, p2, st),
        second_alone(p1, p2, st),
    ensures
        image_inv(p1, p2, merge_step(p1, p2, st, out).0, merge_step(p1, p2, st, out).1, st.b.old_end),
{
    let (st2, out2) = merge_step(p1, p2, st, out);
    let b = st.b;
    let j = st.j;
    let x0 = st.old_pos;
    let x2 = st.new_pos;
    let s0 = x0 + (b.new_start - x2);
    let e = bounds(s0, s0 + b.old_len(), b.new_start, b.new_start + b.new_len());
    lemma_push_image(out, e, x0, x2);
    assert forall|z: int| #![trigger image(p2, z)] b.old_end <= z && (st2.j < p2.len() ==> z
        < st2.b.old_start) implies image(p2, z) == Some(z + st2.new_pos - b.old_end) by {
        lemma_image_between(p2, j, z);
    }
    assert forall|x: int| #![trigger image(out2, x)] 0 <= x < st2.old_pos implies image(out2, x)
        == image_through(p1, p2, x) by {
        if x >= x0 {
            assert(image(p1, x) == Some(x + mid - x0));
            if x >= s0 {
                lemma_image_inside(p2, j, x + mid - x0);
            } else {
                assert(image(p2, x + mid - x0) == Some(x + mid - x0 + x2 - mid));
            }
        }
    }
}

proof fn lemma_overlap_image(
    p1: Seq<EditModel>,
    p2: Seq<EditModel>,
    st: MergeState,
    out: Seq<EditModel>,
    mid: int,
)
    requires
        state_inv(p1, p2, st, out, mid),
        image_inv(p1, p2, st, out, mid),
        !first_alone(p1, p2, st),
        !second_alone(p1, p2, st),
        st.i < p1.len() || st.j < p2.len(),
    ensures
        image_inv(
            p1,
            p2,
            merge_step(p1, p2, st, out).0,
            merge_step(p1, p2, st, out).1,
            next_mid(p1, p2, st),
        ),
{
    let (st2, out2) = merge_step(p1, p2, st, out);
    let (a1, b1, y0, y2, out1) = merge_lead(st, out);
    let a = st.a;
    let b = st.b;
    let i = st.i;
    let j = st.j;
    let x0 = st.old_pos;
    let x2 = st.new_pos;
    let mid2 = next_mid(p1, p2, st);
    // the leading edge
    let lead_start = if a.new_start < b.old_start {
        a.old_start
    } else {
        x0 + (b.new_start - x2)
    };
    if a.new_start < b.old_start {
        let s2 = x2 + (a.old_start - x0);
        let ov = b.old_start - a.new_start;
        let e = bounds(a.old_start, min_int(a.old_start + ov, a.old_end), s2, s2 + ov);
        lemma_push_image(out, e, x0, x2);
        lemma_push_at_cursor(out, e, x0, x2);
    } else {
        let s0 = x0 + (b.new_start - x2);
        let ov = a.new_start - b.old_start;
        let e = bounds(s0, s0 + ov, b.new_start, min_int(b.new_start + ov, b.new_end));
        lemma_push_image(out, e, x0, x2);
        lemma_push_at_cursor(out, e, x0, x2);
    }
    assert forall|x: int| #![trigger image(out1, x)] 0 <= x < y0 implies image(out1, x)
        == image_through(p1, p2, x) by {
        if x >= x0 {
            if a.new_start < b.old_start {
                if x >= a.old_start {
                    lemma_image_inside(p1, i, x);
                } else {
                    assert(image(p1, x) == Some(x + mid - x0));
                    assert(image(p2, x + mid - x0) == Some(x + mid - x0 + x2 - mid));
                }
            } else {
                assert(image(p1, x) == Some(x + mid - x0));
                if x >= lead_start {
                    lemma_image_inside(p2, j, x + mid - x0);
                } else {
                    assert(image(p2, x + mid - x0) == Some(x + mid - x0 + x2 - mid));
                }
            }
        }
    }
    // the common part
    if a1.new_end > b1.old_end {
        let oe = y0 + min_int(a1.old_len(), b1.old_len());
        let e = bounds(y0, oe, y2, y2 + b1.new_len());
        lemma_push_image(out1, e, y0, y2);
        assert forall|z: int| #![trigger image(p2, z)] mid2 <= z && (st2.j < p2.len() ==> z
            < st2.b.old_start) implies image(p2, z) == Some(z + st2.new_pos - mid2) by {
            lemma_image_between(p2, j, z);
        }
        assert forall|x: int| #![trigger image(out2, x)] 0 <= x < st2.old_pos implies image(
            out2,
            x,
        ) == image_through(p1, p2, x) by {
            if x >= y0 {
                lemma_image_inside(p1, i, x);
            }
        }
    } else {
        let e = bounds(y0, y0 + a1.old_len(), y2, y2 + min_int(a1.new_len(), b1.new_len()));
        lemma_push_image(out1, e, y0, y2);
        assert forall|x: int| #![trigger image(p1, x)] st2.old_pos <= x && (st2.i < p1.len() ==> x
            < st2.a.old_start) implies image(p1, x) == Some(x + mid2 - st2.old_pos) by {
            lemma_image_between(p1, i, x);
        }
        assert forall|x: int| #![trigger image(out2, x)] 0 <= x < st2.old_pos implies image(
            out2,
            x,
        ) == image_through(p1, p2, x) by {
            if x >= y0 {
                lemma_image_inside(p1, i, x);
            }
        }
    }
}

/// One step of the merge keeps the image invariant.
pub proof fn lemma_step_image(
    p1: Seq<EditModel>,
    p2: Seq<EditModel>,
    st: MergeState,
    out: Seq<EditModel>,
    mid: int,
)
    requires
        state_inv(p1, p2, st, out, mid),
        image_inv(p1, p2, st, out, mid),
        st.i < p1.len() || st.j < p2.len(),
    ensures
        image_inv(
            p1,
            p2,
            merge_step(p1, p2, st, out).0,
            merge_step(p1, p2, st, out).1,
            next_mid(p1, p2, st),
        ),
{
    if first_alone(p1, p2, st) {
        lemma_first_image(p1, p2, st, out, mid);
    } else if second_alone(p1, p2, st) {
        lemma_second_image(p1, p2, st, out, mid);
    } else {
        lemma_overlap_image(p1, p2, st, out, mid);
    }
}

/// At the start of the merge the image invariant holds.
pub proof fn lemma_start_image(p1: Seq<EditModel>, p2: Seq<EditModel>, st: MergeState)
    requires
        patch_wf(p1),
        patch_wf(p2),
        st.i == 0,
        st.j == 0,
        p1.len() > 0 ==> st.a == p1[0],
        p2.len() > 0 ==> st.b == p2[0],
        st.old_pos == 0,
        st.new_pos == 0,
    ensures
        image_inv(p1, p2, st, Seq::empty(), 0),
{
    assert forall|x: int| #![trigger image(p1, x)] 0 <= x && (st.i < p1.len() ==> x
        < st.a.old_start) implies image(p1, x) == Some(x) by {
        lemma_image_between(p1, -1, x);
    }
    assert forall|z: int| #![trigger image(p2, z)] 0 <= z && (st.j < p2.len() ==> z
        < st.b.old_start) implies image(p2, z) == Some(z) by {
        lemma_image_between(p2, -1, z);
    }
}

/// When both inputs are used up, the output maps every position as the two
/// inputs one after the other do.
pub proof fn lemma_end_image(
    p1: Seq<EditModel>,
    p2: Seq<EditModel>,
    st: MergeState,
    out: Seq<EditModel>,
    mid: int,
)
    requires
        state_inv(p1, p2, st, out, mid),
        image_inv(p1, p2, st, out, mid),
        st.i >= p1.len(),
        st.j >= p2.len(),
    ensures
        forall|x: int| #![trigger image(out, x)] 0 <= x ==> image(out, x) == image_through(p1, p2, x),
{
    assert forall|x: int| #![trigger image(out, x)] 0 <= x implies image(out, x) == image_through(
        p1,
        p2,
        x,
    ) by {
        if x >= st.old_pos {
            lemma_image_past_cursor(out, st.old_pos, st.new_pos, x);
            assert(image(p1, x) == Some(x + mid - st.old_pos));
            assert(image(p2, x + mid - st.old_pos) == Some(x + mid - st.old_pos + st.new_pos - mid));
        }
    }
}

/// Facts about the edits that follow the current ones, as the merge moves
/// on to them.
proof fn lemma_next_edits(p1: Seq<EditModel>, p2: Seq<EditModel>, st: MergeState)
    requires
        patch_wf(p1),
        patch_wf(p2),
    ensures
        forall|k: int|
            #![trigger p1[k]]
            0 <= k < p1.len() ==> p1[k].old_end <= extent(p1) && p1[k].new_end <= extent(p1),
        forall|k: int|
            #![trigger p2[k]]
            0 <= k < p2.len() ==> p2[k].old_end <= extent(p2) && p2[k].new_end <= extent(p2),
        0 <= st.i && st.i + 1 < p1.len() ==> p1[st.i].old_end < p1[st.i + 1].old_start && p1[st.i
            + 1].new_start - p1[st.i + 1].old_start == p1[st.i].new_end - p1[st.i].old_end,
        0 <= st.j && st.j + 1 < p2.len() ==> p2[st.j].new_end < p2[st.j + 1].new_start && p2[st.j
            + 1].old_start - p2[st.j + 1].new_start == p2[st.j].old_end - p2[st.j].new_end,
{
    lemma_within_extent(p1);
    lemma_within_extent(p2);
    if 0 <= st.i && st.i + 1 < p1.len() {
        assert(p1[st.i + 1] == p1[st.i + 1]);
    }
    if 0 <= st.j && st.j + 1 < p2.len() {
        assert(p2[st.j + 1] == p2[st.j + 1]);
    }
}

proof fn lemma_first_state(
    p1: Seq<EditModel>,
    p2: Seq<EditModel>,
    st: MergeState,
    out: Seq<EditModel>,
    mid: int,
)
    requires
        state_inv(p1, p2, st, out, mid),
        first_alone(p1, p2, st),
    ensures
        state_inv(p1, p2, merge_step(p1, p2, st, out).0, merge_step(p1, p2, st, out).1, st.a.new_end),
{
    lemma_next_edits(p1, p2, st);
    let out2 = merge_step(p1, p2, st, out).1;
    let a = st.a;
    let i = st.i;
    let x0 = st.old_pos;
    let x2 = st.new_pos;
    let s2 = x2 + (a.old_start - x0);
    let e = bounds(a.old_start, a.old_start + a.old_len(), s2, s2 + a.new_len());
    lemma_push_at_cursor(out, e, x0, x2);
    if p2.len() == 0 {
        assert(p1[i].well_formed());
        if i > 0 {
            assert(p1[i - 1 + 1] == p1[i]);
        }
        assert(out2 =~= p1.subrange(0, i + 1));
    }
}

proof fn lemma_second_state(
    p1: Seq<EditModel>,
    p2: Seq<EditModel>,
    st: MergeState,
    out: Seq<EditModel>,
    mid: int,
)
    requires
        state_inv(p1, p2, st, out, mid),
        !first_alone(p1, p2, st),
        second_alone(p1, p2, st),
    ensures
        state_inv(p1, p2, merge_step(p1, p2, st, out).0, merge_step(p1, p2, st, out).1, st.b.old_end),
{
    lemma_next_edits(p1, p2, st);
    let out2 = merge_step(p1, p2, st, out).1;
    let b = st.b;
    let j = st.j;
    let x0 = st.old_pos;
    let x2 = st.new_pos;
    let s0 = x0 + (b.new_start - x2);
    let e = bounds(s0, s0 + b.old_len(), b.new_start, b.new_start + b.new_len());
    lemma_push_at_cursor(out, e, x0, x2);
    if p1.len() == 0 {
        assert(p2[j].well_formed());
        if j > 0 {
            assert(p2[j - 1 + 1] == p2[j]);
        }
        assert(out2 =~= p2.subrange(0, j + 1));
    }
}

proof fn lemma_overlap_state(
    p1: Seq<EditModel>,
    p2: Seq<EditModel>,
    st: MergeState,
    out: Seq<EditModel>,
    mid: int,
)
    requires
        state_inv(p1, p2, st, out, mid),
        !first_alone(p1, p2, st),
        !second_alone(p1, p2, st),
        st.i < p1.len() || st.j < p2.len(),
    ensures
        state_inv(
            p1,
            p2,
            merge_step(p1, p2, st, out).0,
            merge_step(p1, p2, st, out).1,
            next_mid(p1, p2, st),
        ),
{
    lemma_next_edits(p1, p2, st);
    let a = st.a;
    let b = st.b;
    let x0 = st.old_pos;
    let x2 = st.new_pos;
    let (a1, b1, y0, y2, out1) = merge_lead(st, out);
    if a.new_start < b.old_start {
        let s2 = x2 + (a.old_start - x0);
        let ov = b.old_start - a.new_start;
        let e = bounds(a.old_start, min_int(a.old_start + ov, a.old_end), s2, s2 + ov);
        lemma_push_at_cursor(out, e, x0, x2);
    } else {
        let s0 = x0 + (b.new_start - x2);
        let ov = a.new_start - b.old_start;
        let e = bounds(s0, s0 + ov, b.new_start, min_int(b.new_start + ov, b.new_end));
        lemma_push_at_cursor(out, e, x0, x2);
    }
    assert(y0 + a1.old_len() == a.old_end);
    assert(y2 + b1.new_len() == b.new_end);
    if a1.new_end > b1.old_end {
        let oe = y0 + min_int(a1.old_len(), b1.old_len());
        let e = bounds(y0, oe, y2, y2 + b1.new_len());
        lemma_push_at_cursor(out1, e, y0, y2);
    } else {
        let e = bounds(y0, y0 + a1.old_len(), y2, y2 + min_int(a1.new_len(), b1.new_len()));
        lemma_push_at_cursor(out1, e, y0, y2);
    }
}

/// One step of the merge keeps the state invariant.
pub proof fn lemma_step_state(
    p1: Seq<EditModel>,
    p2: Seq<EditModel>,
    st: MergeState,
    out: Seq<EditModel>,
    mid: int,
)
    requires
        state_inv(p1, p2, st, out, mid),
        st.i < p1.len() || st.j < p2.len(),
    ensures
        state_inv(
            p1,
            p2,
            merge_step(p1, p2, st, out).0,
            merge_step(p1, p2, st, out).1,
            next_mid(p1, p2, st),
        ),
{
    if first_alone(p1, p2, st) {
        lemma_first_state(p1, p2, st, out, mid);
    } else if second_alone(p1, p2, st) {
        lemma_second_state(p1, p2, st, out, mid);
    } else {
        lemma_overlap_state(p1, p2, st, out, mid);
    }
}

/// From any state the rest of the merge yields an output that maps every
/// position as the two inputs one after the other do.
proof fn lemma_run_image(
    p1: Seq<EditModel>,
    p2: Seq<EditModel>,
    st: MergeState,
    out: Seq<EditModel>,
    mid: int,
)
    requires
        state_inv(p1, p2, st, out, mid),
        image_inv(p1, p2, st, out, mid),
    ensures
        forall|x: int|
            #![trigger image(merge_run(p1, p2, st, out), x)]
            0 <= x ==> image(merge_run(p1, p2, st, out), x) == image_through(p1, p2, x),
    decreases (p1.len() - st.i) + (p2.len() - st.j),
{
    if st.i >= p1.len() && st.j >= p2.len() {
        lemma_end_image(p1, p2, st, out, mid);
    } else {
        let (st2, out2) = merge_step(p1, p2, st, out);
        lemma_step_state(p1, p2, st, out, mid);
        lemma_step_image(p1, p2, st, out, mid);
        lemma_run_image(p1, p2, st2, out2, next_mid(p1, p2, st));
    }
}

/// The composition maps every position as the two patches one after the
/// other do.
pub proof fn lemma_compose_image(p1: Seq<EditModel>, p2: Seq<EditModel>)
    requires
        patch_wf(p1),
        patch_wf(p2),
        extent(p1) + extent(p2) <= u32::MAX,
    ensures
        forall|x: int|
            #![trigger image(compose_model(p1, p2), x)]
            0 <= x ==> image(compose_model(p1, p2), x) == image_through(p1, p2, x),
{
    let st = merge_start(p1, p2);
    let out = Seq::<EditModel>::empty();
    assert(out =~= p1.subrange(0, 0));
    assert(out =~= p2.subrange(0, 0));
    lemma_start_image(p1, p2, st);
    lemma_run_image(p1, p2, st, out, 0);
}

} // verus!
