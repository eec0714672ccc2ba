use crate::edit::EditModel;
use crate::patch::{cursor_ok, extent, patch_wf, push_model};
use vstd::prelude::*;

verus! {

/// Where the merge of two patches stands: the next edit of each patch
/// (`a` of the first, `b` of the second, possibly with its start already
/// partly consumed), and the cursor in the source and destination versions.
pub ghost struct MergeState {
    pub i: int,
    pub j: int,
    pub a: EditModel,
    pub b: EditModel,
    pub old_pos: int,
    pub new_pos: int,
}

pub open spec fn min_int(x: int, y: int) -> int {
    if x <= y {
        x
    } else {
        y
    }
}

/// The empty edit at position zero.
pub open spec fn zero_edit() -> EditModel {
    EditModel { old_start: 0, old_end: 0, new_start: 0, new_end: 0 }
}

/// The `k`-th edit of `s`, or the empty edit past its end.
pub open spec fn edit_at(s: Seq<EditModel>, k: int) -> EditModel {
    if 0 <= k < s.len() {
        s[k]
    } else {
        zero_edit()
    }
}

pub open spec fn bounds(old_start: int, old_end: int, new_start: int, new_end: int) -> EditModel {
    EditModel { old_start, old_end, new_start, new_end }
}

/// Only the first patch has an edit left, or its edit ends, in the middle
/// version, strictly before the second patch's edit starts.
pub open spec fn first_alone(p1: Seq<EditModel>, p2: Seq<EditModel>, st: MergeState) -> bool {
    st.i < p1.len() && (st.j >= p2.len() || st.a.new_end < st.b.old_start)
}

/// Only the second patch has an edit left, or its edit ends, in the middle
/// version, strictly before the first patch's edit starts.
pub open spec fn second_alone(p1: Seq<EditModel>, p2: Seq<EditModel>, st: MergeState) -> bool {
    st.j < p2.len() && (st.i >= p1.len() || st.b.old_end < st.a.new_start)
}

/// The leading edge of two overlapping edits: the part of the edit that
/// starts first, up to where the other begins. Gives the two remainders,
/// the new cursor and the output.
pub open spec fn merge_lead(st: MergeState, out: Seq<EditModel>) -> (
    EditModel,
    EditModel,
    int,
    int,
    Seq<EditModel>,
) {
    let a = st.a;
    let b = st.b;
    if a.new_start < b.old_start {
        let s0 = a.old_start;
        let s2 = st.new_pos + (a.old_start - st.old_pos);
        let ov = b.old_start - a.new_start;
        let oe = min_int(s0 + ov, a.old_end);
        let ne = s2 + ov;
        (
            EditModel { old_start: a.old_start + ov, new_start: a.new_start + ov, ..a },
            b,
            oe,
            ne,
            push_model(out, bounds(s0, oe, s2, ne)),
        )
    } else {
        let s0 = st.old_pos + (b.new_start - st.new_pos);
        let s2 = b.new_start;
        let ov = a.new_start - b.old_start;
        let oe = s0 + ov;
        let ne = min_int(s2 + ov, b.new_end);
        (
            a,
            EditModel { old_start: b.old_start + ov, new_start: b.new_start + ov, ..b },
            oe,
            ne,
            push_model(out, bounds(s0, oe, s2, ne)),
        )
    }
}

/// The common part of two overlapping edits whose starts meet in the middle
/// version: the edit that ends first there is used up, the other keeps its
/// remainder. Gives the next state and the output.
pub open spec fn merge_trail(
    p1: Seq<EditModel>,
    p2: Seq<EditModel>,
    i: int,
    j: int,
    a: EditModel,
    b: EditModel,
    x0: int,
    x2: int,
    out: Seq<EditModel>,
) -> (MergeState, Seq<EditModel>) {
    if a.new_end > b.old_end {
        let oe = x0 + min_int(a.old_len(), b.old_len());
        let ne = x2 + b.new_len();
        (
            MergeState {
                i: i,
                j: j + 1,
                a: EditModel { old_start: oe, new_start: b.old_end, ..a },
                b: edit_at(p2, j + 1),
                old_pos: oe,
                new_pos: ne,
            },
            push_model(out, bounds(x0, oe, x2, ne)),
        )
    } else {
        let oe = x0 + a.old_len();
        let ne = x2 + min_int(a.new_len(), b.new_len());
        (
            MergeState {
                i: i + 1,
                j: j,
                a: edit_at(p1, i + 1),
                b: EditModel { old_start: a.new_end, new_start: ne, ..b },
                old_pos: oe,
                new_pos: ne,
            },
            push_model(out, bounds(x0, oe, x2, ne)),
        )
    }
}

/// One step of the merge: resolves the next edit of one patch, or the
/// leading edge and common part of two overlapping edits, and appends the
/// result to `out`.
pub open spec fn merge_step(
    p1: Seq<EditModel>,
    p2: Seq<EditModel>,
    st: MergeState,
    out: Seq<EditModel>,
) -> (MergeState, Seq<EditModel>) {
    let a = st.a;
    let b = st.b;
    if first_alone(p1, p2, st) {
        let s0 = a.old_start;
        let s2 = st.new_pos + (a.old_start - st.old_pos);
        let oe = s0 + a.old_len();
        let ne = s2 + a.new_len();
        (
            MergeState { i: st.i + 1, a: edit_at(p1, st.i + 1), old_pos: oe, new_pos: ne, ..st },
            push_model(out, bounds(s0, oe, s2, ne)),
        )
    } else if second_alone(p1, p2, st) {
        let s0 = st.old_pos + (b.new_start - st.new_pos);
        let s2 = b.new_start;
        let oe = s0 + b.old_len();
        let ne = s2 + b.new_len();
        (
            MergeState { j: st.j + 1, b: edit_at(p2, st.j + 1), old_pos: oe, new_pos: ne, ..st },
            push_model(out, bounds(s0, oe, s2, ne)),
        )
    } else {
        let (a1, b1, x0, x2, out1) = merge_lead(st, out);
        merge_trail(p1, p2, st.i, st.j, a1, b1, x0, x2, out1)
    }
}

/// Runs the merge from `st` until both patches are used up.
pub open spec fn merge_run(
    p1: Seq<EditModel>,
    p2: Seq<EditModel>,
    st: MergeState,
    out: Seq<EditModel>,
) -> Seq<EditModel>
    decreases (p1.len() - st.i) + (p2.len() - st.j),
    when 0 <= st.i <= p1.len() && 0 <= st.j <= p2.len()
{
    if st.i >= p1.len() && st.j >= p2.len() {
        out
    } else {
        let (st2, out2) = merge_step(p1, p2, st, out);
        merge_run(p1, p2, st2, out2)
    }
}

/// The merge at its start: the first edit of each patch, cursors at zero.
pub open spec fn merge_start(p1: Seq<EditModel>, p2: Seq<EditModel>) -> MergeState {
    MergeState { i: 0, j: 0, a: edit_at(p1, 0), b: edit_at(p2, 0), old_pos: 0, new_pos: 0 }
}

/// The composition of `p1` followed by `p2`: one left-to-right merge of the
/// two patches, compared in the middle version.
pub open spec fn compose_model(p1: Seq<EditModel>, p2: Seq<EditModel>) -> Seq<EditModel> {
    merge_run(p1, p2, merge_start(p1, p2), Seq::empty())
}

/// What holds of the merge state between two steps; `mid` is the cursor in
/// the middle version.
pub open spec fn state_inv(
    p1: Seq<EditModel>,
    p2: Seq<EditModel>,
    st: MergeState,
    out: Seq<EditModel>,
    mid: int,
) -> bool {
    let e1 = extent(p1);
    let e2 = extent(p2);
    let n1 = p1.len();
    let n2 = p2.len();
    let a = st.a;
    let b = st.b;
    let i = st.i;
    let j = st.j;
    &&& patch_wf(p1)
    &&& patch_wf(p2)
    &&& e1 + e2 <= u32::MAX
    &&& 0 <= i <= n1
    &&& 0 <= j <= n2
    &&& patch_wf(out)
    &&& cursor_ok(out, st.old_pos, st.new_pos)
    &&& -e1 <= mid - st.old_pos <= e1
    &&& -e2 <= st.new_pos - mid <= e2
    &&& 0 <= st.old_pos <= e1 + e2
    &&& 0 <= st.new_pos <= e1 + e2
    &&& i < n1 ==> {
        &&& a.old_end == p1[i].old_end
        &&& a.new_end == p1[i].new_end
        &&& p1[i].old_start <= a.old_start <= a.old_end
        &&& p1[i].new_start <= a.new_start <= a.new_end
        &&& a.new_start - a.old_start == mid - st.old_pos
        &&& st.old_pos <= a.old_start
    }
    &&& j < n2 ==> {
        &&& b.old_end == p2[j].old_end
        &&& b.new_end == p2[j].new_end
        &&& p2[j].old_start <= b.old_start <= b.old_end
        &&& p2[j].new_start <= b.new_start <= b.new_end
        &&& b.old_start - b.new_start == mid - st.new_pos
        &&& st.new_pos <= b.new_start
    }
    &&& n2 == 0 ==> {
        &&& out == p1.subrange(0, i)
        &&& st.new_pos == mid
        &&& i < n1 ==> a == p1[i]
        &&& i == 0 ==> st.old_pos == 0
        &&& i > 0 ==> st.old_pos == p1[i - 1].old_end
    }
    &&& n1 == 0 ==> {
        &&& out == p2.subrange(0, j)
        &&& st.old_pos == mid
        &&& j < n2 ==> b == p2[j]
        &&& j == 0 ==> st.new_pos == 0
        &&& j > 0 ==> st.new_pos == p2[j - 1].new_end
    }
}

} // verus!
