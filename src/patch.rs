use crate::compose_model::{
    compose_model, edit_at, first_alone, merge_run, merge_step, min_int, second_alone, state_inv,
    MergeState,
};
use crate::edit::{range_len, Edit, EditModel};
use crate::compose_proof::{lemma_compose_image, lemma_step_state, next_mid};
use crate::semantics::{image, image_through};
use vstd::prelude::*;

verus! {

/// Every edit orders its ranges and changes something.
pub open spec fn edits_well_formed(s: Seq<EditModel>) -> bool {
    forall|k: int| #![trigger s[k]] 0 <= k < s.len() ==> s[k].well_formed()
}

/// Consecutive edits are sorted and neither touch nor overlap, in both
/// coordinate spaces.
pub open spec fn separated(s: Seq<EditModel>) -> bool {
    forall|k: int|
        #![trigger s[k + 1]]
        0 <= k < s.len() - 1 ==> {
            &&& s[k].old_end < s[k + 1].old_start
            &&& s[k].new_end < s[k + 1].new_start
        }
}

/// The unedited stretches map one to one: before the first edit positions
/// are unchanged, and between two edits they are shifted by the net length
/// change of all the edits before.
pub open spec fn aligned(s: Seq<EditModel>) -> bool {
    &&& s.len() > 0 ==> s[0].new_start == s[0].old_start
    &&& forall|k: int|
        #![trigger s[k + 1]]
        0 <= k < s.len() - 1 ==> s[k + 1].new_start - s[k + 1].old_start == s[k].new_end
            - s[k].old_end
}

/// The invariant of a patch.
pub open spec fn patch_wf(s: Seq<EditModel>) -> bool {
    &&& edits_well_formed(s)
    &&& separated(s)
    &&& aligned(s)
}

/// The edit sequence after appending `e` with coalescing: a no-op is dropped,
/// an edit whose old range starts at or before the end of the last edit's
/// old range extends that edit, any other is appended.
pub open spec fn push_model(s: Seq<EditModel>, e: EditModel) -> Seq<EditModel> {
    if e.is_noop() {
        s
    } else if s.len() > 0 && s.last().old_end >= e.old_start {
        s.update(
            s.len() - 1,
            EditModel { old_end: e.old_end, new_end: e.new_end, ..s.last() },
        )
    } else {
        s.push(e)
    }
}

/// Every edit with its source and destination swapped.
pub open spec fn invert_model(s: Seq<EditModel>) -> Seq<EditModel> {
    s.map_values(|e: EditModel| e.swapped())
}

/// The models of a sequence of edits.
pub open spec fn models(v: Seq<Edit>) -> Seq<EditModel> {
    v.map_values(|e: Edit| e@)
}

/// The largest bound of the last edit; with the invariant, no bound of the
/// patch exceeds it.
pub open spec fn extent(s: Seq<EditModel>) -> int {
    if s.len() == 0 {
        0
    } else if s.last().old_end >= s.last().new_end {
        s.last().old_end
    } else {
        s.last().new_end
    }
}

/// The output of a merge so far ends at or before the cursor
/// `(old_pos, new_pos)`, and the cursor is shifted by the output's net
/// length change.
pub open spec fn cursor_ok(out: Seq<EditModel>, old_pos: int, new_pos: int) -> bool {
    if out.len() == 0 {
        new_pos == old_pos
    } else {
        &&& out.last().old_end <= old_pos
        &&& out.last().new_end <= new_pos
        &&& new_pos - old_pos == out.last().new_end - out.last().old_end
    }
}

pub proof fn lemma_below_last(s: Seq<EditModel>, k: int)
    requires
        patch_wf(s),
        0 <= k < s.len(),
    ensures
        s[k].old_end <= s.last().old_end,
        s[k].new_end <= s.last().new_end,
    decreases s.len() - k,
{
    if k < s.len() - 1 {
        lemma_below_last(s, k + 1);
        assert(s[k + 1].well_formed());
    }
}

/// With the invariant, every bound of the patch is at most its extent.
pub proof fn lemma_within_extent(s: Seq<EditModel>)
    requires
        patch_wf(s),
    ensures
        forall|k: int|
            #![trigger s[k]]
            0 <= k < s.len() ==> s[k].old_end <= extent(s) && s[k].new_end <= extent(s),
{
    assert forall|k: int| #![trigger s[k]] 0 <= k < s.len() implies s[k].old_end <= extent(s)
        && s[k].new_end <= extent(s) by {
        lemma_below_last(s, k);
    }
}

/// Appending an edit that starts at or after the cursor, shifted as the
/// cursor is, keeps the invariant and moves the cursor to the edit's end.
pub proof fn lemma_push_at_cursor(out: Seq<EditModel>, e: EditModel, old_pos: int, new_pos: int)
    requires
        patch_wf(out),
        cursor_ok(out, old_pos, new_pos),
        0 <= old_pos <= e.old_start <= e.old_end,
        0 <= new_pos,
        e.new_start <= e.new_end,
        e.new_start - e.old_start == new_pos - old_pos,
    ensures
        patch_wf(push_model(out, e)),
        cursor_ok(push_model(out, e), e.old_end, e.new_end),
{
    let r = push_model(out, e);
    if e.is_noop() {
    } else if out.len() > 0 && out.last().old_end >= e.old_start {
        let n = out.len() - 1;
        assert(out[n].well_formed());
        assert forall|k: int| #![trigger r[k]] 0 <= k < r.len() implies r[k].well_formed() by {
            if k < n {
                assert(out[k].well_formed());
            }
        }
        assert forall|k: int| #![trigger r[k + 1]] 0 <= k < r.len() - 1 implies r[k].old_end
            < r[k + 1].old_start && r[k].new_end < r[k + 1].new_start && r[k + 1].new_start
            - r[k + 1].old_start == r[k].new_end - r[k].old_end by {
            assert(out[k + 1] == out[k + 1]);
        }
    } else {
        assert forall|k: int| #![trigger r[k]] 0 <= k < r.len() implies r[k].well_formed() by {
            if k < out.len() {
                assert(out[k].well_formed());
            }
        }
        assert forall|k: int| #![trigger r[k + 1]] 0 <= k < r.len() - 1 implies r[k].old_end
            < r[k + 1].old_start && r[k].new_end < r[k + 1].new_start && r[k + 1].new_start
            - r[k + 1].old_start == r[k].new_end - r[k].old_end by {
            if k < out.len() - 1 {
                assert(out[k + 1] == out[k + 1]);
            }
        }
    }
}

/// A copy of the `k`-th edit of `v`, or the empty edit past its end.
fn load_edit(v: &Vec<Edit>, k: usize) -> (e: Edit)
    ensures
        e@ == edit_at(models(v@), k as int),
{
    if k < v.len() {
        v[k].duplicate()
    } else {
        Edit::from_bounds(0, 0, 0, 0)
    }
}

fn min_u32(x: u32, y: u32) -> (r: u32)
    ensures
        r == min_int(x as int, y as int),
{
    if x <= y {
        x
    } else {
        y
    }
}

/// The running state of a composition: the next edit of each input, with
/// its start advanced past what is already resolved; the cursor in the
/// source and destination versions; the output so far.
struct Merger {
    i: usize,
    j: usize,
    a: Edit,
    b: Edit,
    old_start: u32,
    new_start: u32,
    composed: Patch,
    /// The cursor in the middle version.
    mid: Ghost<int>,
}

impl Merger {
    spec fn state(self) -> MergeState {
        MergeState {
            i: self.i as int,
            j: self.j as int,
            a: self.a@,
            b: self.b@,
            old_pos: self.old_start as int,
            new_pos: self.new_start as int,
        }
    }
}

/// What holds of the merge state between two steps.
spec fn merge_inv(p1: Seq<EditModel>, p2: Seq<EditModel>, m: Merger) -> bool {
    state_inv(p1, p2, m.state(), m.composed@, m.mid@)
}

impl Merger {
    /// The next edit of the first patch lies before anything left of the
    /// second: it is emitted shifted by the catch-up.
    fn resolve_first(self, v1: &Vec<Edit>, v2: &Vec<Edit>) -> (r: Merger)
        requires
            merge_inv(models(v1@), models(v2@), self),
            first_alone(models(v1@), models(v2@), self.state()),
            self.i < v1.len(),
        ensures
            merge_step(models(v1@), models(v2@), self.state(), self.composed@) == (
            r.state(),
            r.composed@,
            ),
            r.mid@ == next_mid(models(v1@), models(v2@), self.state()),
    {
        proof {
            lemma_within_extent(models(v1@));
        }
        let mut m = self;
        let i = m.i;
        let catchup = m.a.old.start - m.old_start;
        m.old_start = m.old_start + catchup;
        m.new_start = m.new_start + catchup;
        let old_end = m.old_start + range_len(&m.a.old);
        let new_end = m.new_start + range_len(&m.a.new);
        m.composed.push(Edit::from_bounds(m.old_start, old_end, m.new_start, new_end));
        m.old_start = old_end;
        m.new_start = new_end;
        m.mid = Ghost(m.a@.new_end);
        m.i = i + 1;
        m.a = load_edit(v1, i + 1);
        m
    }

    /// The next edit of the second patch lies before anything left of the
    /// first: it is emitted over the unedited span it replaces.
    fn resolve_second(self, v1: &Vec<Edit>, v2: &Vec<Edit>) -> (r: Merger)
        requires
            merge_inv(models(v1@), models(v2@), self),
            !first_alone(models(v1@), models(v2@), self.state()),
            second_alone(models(v1@), models(v2@), self.state()),
            self.j < v2.len(),
        ensures
            merge_step(models(v1@), models(v2@), self.state(), self.composed@) == (
            r.state(),
            r.composed@,
            ),
            r.mid@ == next_mid(models(v1@), models(v2@), self.state()),
    {
        proof {
            lemma_within_extent(models(v2@));
        }
        let mut m = self;
        let j = m.j;
        let catchup = m.b.new.start - m.new_start;
        m.old_start = m.old_start + catchup;
        m.new_start = m.new_start + catchup;
        let old_end = m.old_start + range_len(&m.b.old);
        let new_end = m.new_start + range_len(&m.b.new);
        m.composed.push(Edit::from_bounds(m.old_start, old_end, m.new_start, new_end));
        m.old_start = old_end;
        m.new_start = new_end;
        m.mid = Ghost(m.b@.old_end);
        m.j = j + 1;
        m.b = load_edit(v2, j + 1);
        m
    }

    /// The two next edits overlap in the middle version: the leading edge of
    /// the one that starts first is emitted, then the common part; the edit
    /// that ends first is used up, the other keeps its remainder.
    #[verifier::rlimit(40)]
    fn resolve_overlap(self, v1: &Vec<Edit>, v2: &Vec<Edit>) -> (r: Merger)
        requires
            merge_inv(models(v1@), models(v2@), self),
            !first_alone(models(v1@), models(v2@), self.state()),
            !second_alone(models(v1@), models(v2@), self.state()),
            self.i < v1.len(),
            self.j < v2.len(),
        ensures
            merge_step(models(v1@), models(v2@), self.state(), self.composed@) == (
            r.state(),
            r.composed@,
            ),
            r.mid@ == next_mid(models(v1@), models(v2@), self.state()),
    {
        proof {
            lemma_within_extent(models(v1@));
            lemma_within_extent(models(v2@));
        }
        let mut m = self;
        let i = m.i;
        let j = m.j;
        if m.a.new.start < m.b.old.start {
            let catchup = m.a.old.start - m.old_start;
            m.old_start = m.old_start + catchup;
            m.new_start = m.new_start + catchup;
            let overshoot = m.b.old.start - m.a.new.start;
            let old_end = min_u32(m.old_start + overshoot, m.a.old.end);
            let new_end = m.new_start + overshoot;
            m.composed.push(Edit::from_bounds(m.old_start, old_end, m.new_start, new_end));
            m.a.old.start = m.a.old.start + overshoot;
            m.a.new.start = m.a.new.start + overshoot;
            m.old_start = old_end;
            m.new_start = new_end;
        } else {
            let catchup = m.b.new.start - m.new_start;
            m.old_start = m.old_start + catchup;
            m.new_start = m.new_start + catchup;
            let overshoot = m.a.new.start - m.b.old.start;
            let old_end = m.old_start + overshoot;
            let new_end = min_u32(m.new_start + overshoot, m.b.new.end);
            m.composed.push(Edit::from_bounds(m.old_start, old_end, m.new_start, new_end));
            m.b.old.start = m.b.old.start + overshoot;
            m.b.new.start = m.b.new.start + overshoot;
            m.old_start = old_end;
            m.new_start = new_end;
        }
        if m.a.new.end > m.b.old.end {
            let old_end = m.old_start + min_u32(range_len(&m.a.old), range_len(&m.b.old));
            let new_end = m.new_start + range_len(&m.b.new);
            m.composed.push(Edit::from_bounds(m.old_start, old_end, m.new_start, new_end));
            m.a.old.start = old_end;
            m.a.new.start = m.b.old.end;
            m.old_start = old_end;
            m.new_start = new_end;
            m.mid = Ghost(m.b@.old_end);
            m.j = j + 1;
            m.b = load_edit(v2, j + 1);
        } else {
            let old_end = m.old_start + range_len(&m.a.old);
            let new_end = m.new_start + min_u32(range_len(&m.a.new), range_len(&m.b.new));
            m.composed.push(Edit::from_bounds(m.old_start, old_end, m.new_start, new_end));
            m.b.old.start = m.a.new.end;
            m.b.new.start = new_end;
            m.old_start = old_end;
            m.new_start = new_end;
            m.mid = Ghost(m.a@.new_end);
            m.i = i + 1;
            m.a = load_edit(v1, i + 1);
        }
        m
    }
}

/// An ordered sequence of edits that turns one version of a sequence into
/// another.
#[derive(Debug, PartialEq, Eq)]
pub struct Patch(Vec<Edit>);

impl View for Patch {
    type V = Seq<EditModel>;

    closed spec fn view(&self) -> Seq<EditModel> {
        models(self.0@)
    }
}

impl Patch {
    /// The empty patch, which changes nothing.
    pub fn new() -> (p: Patch)
        ensures
            p@ == Seq::<EditModel>::empty(),
    {
        let p = Patch(Vec::new());
        assert(p@ =~= Seq::<EditModel>::empty());
        p
    }

    /// Wraps edits that the caller has already sorted, separated and
    /// coalesced; nothing is checked.
    pub fn new_unchecked(edits: Vec<Edit>) -> (p: Patch)
        requires
            patch_wf(models(edits@)),
        ensures
            p@ == models(edits@),
    {
        Patch(edits)
    }

    /// The edits, in order.
    pub fn edits(&self) -> (r: &[Edit])
        ensures
            models(r@) == self@,
    {
        self.0.as_slice()
    }

    /// Removes every edit.
    pub fn clear(&mut self)
        ensures
            final(self)@ == Seq::<EditModel>::empty(),
    {
        self.0.clear();
        assert(self@ =~= Seq::<EditModel>::empty());
    }

    /// Appends `edit`, coalescing it into the last edit when their old ranges
    /// touch or overlap and dropping it when it changes nothing.
    pub fn push(&mut self, edit: Edit)
        ensures
            final(self)@ == push_model(old(self)@, edit@),
    {
        if range_len(&edit.old) == 0 && range_len(&edit.new) == 0 {
            return;
        }
        let n = self.0.len();
        if n > 0 && self.0[n - 1].old.end >= edit.old.start {
            let last = Edit::from_bounds(
                self.0[n - 1].old.start,
                edit.old.end,
                self.0[n - 1].new.start,
                edit.new.end,
            );
            self.0[n - 1] = last;
            assert(self@ =~= push_model(old(self)@, edit@));
        } else {
            self.0.push(edit);
            assert(self@ =~= push_model(old(self)@, edit@));
        }
    }

    /// The patch that does what `self` and then `other` do: `self` turns
    /// version zero into version one, `other` turns version one into version
    /// two, the result turns version zero into version two. One merge pass
    /// over both patches, with touching pieces coalesced. The two patches'
    /// extents must add up to no more than `u32::MAX`, so that every
    /// position of the result fits in a `u32`.
    pub fn compose(&self, other: &Self) -> (r: Patch)
        requires
            patch_wf(self@),
            patch_wf(other@),
            extent(self@) + extent(other@) <= u32::MAX,
        ensures
            r@ == compose_model(self@, other@),
            patch_wf(r@),
            forall|x: int|
                #![trigger image(r@, x)]
                0 <= x ==> image(r@, x) == image_through(self@, other@, x),
            other@.len() == 0 ==> r@ == self@,
            self@.len() == 0 ==> r@ == other@,
    {
        let ghost p1 = self@;
        let ghost p2 = other@;
        let n1 = self.0.len();
        let n2 = other.0.len();
        let mut m = Merger {
            i: 0,
            j: 0,
            a: load_edit(&self.0, 0),
            b: load_edit(&other.0, 0),
            old_start: 0,
            new_start: 0,
            composed: Patch::new(),
            mid: Ghost(0),
        };
        proof {
            assert(m.composed@ =~= p1.subrange(0, 0));
            assert(m.composed@ =~= p2.subrange(0, 0));
        }
        while m.i < n1 || m.j < n2
            invariant
                p1 == self@,
                p2 == other@,
                n1 == p1.len(),
                n2 == p2.len(),
                merge_inv(p1, p2, m),
                merge_run(p1, p2, m.state(), m.composed@) == compose_model(p1, p2),
            decreases (n1 - m.i) + (n2 - m.j),
        {
            let ghost st = m.state();
            let ghost out0 = m.composed@;
            proof {
                lemma_step_state(p1, p2, st, out0, m.mid@);
            }
            if m.i < n1 && (m.j >= n2 || m.a.new.end < m.b.old.start) {
                m = m.resolve_first(&self.0, &other.0);
            } else if m.j < n2 && (m.i >= n1 || m.b.old.end < m.a.new.start) {
                m = m.resolve_second(&self.0, &other.0);
            } else {
                m = m.resolve_overlap(&self.0, &other.0);
            }
            assert(merge_step(p1, p2, st, out0) == (m.state(), m.composed@));
        }
        proof {
            lemma_compose_image(p1, p2);
            if n2 == 0 {
                assert(p1.subrange(0, m.i as int) =~= p1);
            }
            if n1 == 0 {
                assert(p2.subrange(0, m.j as int) =~= p2);
            }
        }
        m.composed
    }

    /// Swaps source and destination of every edit, which turns the patch
    /// into its inverse.
    pub fn invert(&mut self) -> (r: &mut Self)
        ensures
            r@ == invert_model(old(self)@),
            *final(self) == *final(r),
    {
        let n = self.0.len();
        let mut i: usize = 0;
        while i < n
            invariant
                n == self.0.len(),
                n == old(self).0.len(),
                i <= n,
                forall|k: int| 0 <= k < i ==> #[trigger] self.0@[k]@ == old(self).0@[k]@.swapped(),
                forall|k: int| i <= k < n ==> #[trigger] self.0@[k] == old(self).0@[k],
            decreases n - i,
        {
            let e = Edit::from_bounds(
                self.0[i].new.start,
                self.0[i].new.end,
                self.0[i].old.start,
                self.0[i].old.end,
            );
            self.0[i] = e;
            i = i + 1;
        }
        assert(self@ =~= invert_model(old(self)@));
        self
    }
}

impl Default for Patch {
    fn default() -> (p: Patch)
        ensures
            p@ == Seq::<EditModel>::empty(),
    {
        Patch::new()
    }
}

} // verus!
