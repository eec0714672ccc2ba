use crate::compose_model::compose_model;
use crate::edit::EditModel;
use crate::patch::{extent, invert_model, patch_wf};
use crate::compose_proof::lemma_compose_image;
use crate::semantics::image;
use vstd::prelude::*;

verus! {

/// Inverting twice gives back the original edits.
pub proof fn invert_involution(s: Seq<EditModel>)
    ensures
        invert_model(invert_model(s)) == s,
{
    assert(invert_model(invert_model(s)) =~= s);
}

/// Inverting keeps the patch invariant.
pub proof fn invert_keeps_wf(s: Seq<EditModel>)
    requires
        patch_wf(s),
    ensures
        patch_wf(invert_model(s)),
{
    let t = invert_model(s);
    assert forall|k: int| #![trigger t[k + 1]] 0 <= k < t.len() - 1 implies t[k + 1].new_start
        - t[k + 1].old_start == t[k].new_end - t[k].old_end by {
        assert(s[k + 1].new_start - s[k + 1].old_start == s[k].new_end - s[k].old_end);
    }
    assert forall|k: int| #![trigger t[k + 1]] 0 <= k < t.len() - 1 implies t[k].old_end < t[k + 1].old_start
        && t[k].new_end < t[k + 1].new_start by {
        assert(s[k].old_end < s[k + 1].old_start);
    }
    assert forall|k: int| #![trigger t[k]] 0 <= k < t.len() implies t[k].well_formed() by {
        assert(s[k].well_formed());
    }
}

/// `t` is a possible result of applying `p` to `s`: the end of `s` lands on
/// the end of `t`, and every position of `s` that no edit replaces stands,
/// shifted, in `t`. What the edits insert is free.
pub open spec fn transforms<A>(p: Seq<EditModel>, s: Seq<A>, t: Seq<A>) -> bool {
    &&& image(p, s.len() as int) == Some(t.len() as int)
    &&& forall|x: int|
        #![trigger image(p, x)]
        0 <= x < s.len() && image(p, x) is Some ==> {
            let y = image(p, x)->0;
            0 <= y < t.len() && t[y] == s[x]
        }
}

/// Applying the composition of two patches gives what applying one and then
/// the other gives: whenever `p1` takes `s` to `t1` and `p2` takes `t1` to
/// `t2`, their composition takes `s` to `t2`.
pub proof fn compose_round_trip<A>(
    p1: Seq<EditModel>,
    p2: Seq<EditModel>,
    s: Seq<A>,
    t1: Seq<A>,
    t2: Seq<A>,
)
    requires
        patch_wf(p1),
        patch_wf(p2),
        extent(p1) + extent(p2) <= u32::MAX,
        transforms(p1, s, t1),
        transforms(p2, t1, t2),
    ensures
        transforms(compose_model(p1, p2), s, t2),
{
    lemma_compose_image(p1, p2);
    let r = compose_model(p1, p2);
    assert(image(r, s.len() as int) == Some(t2.len() as int));
    assert forall|x: int| #![trigger image(r, x)] 0 <= x < s.len() && image(r, x) is Some implies {
        let y = image(r, x)->0;
        0 <= y < t2.len() && t2[y] == s[x]
    } by {
        assert(image(r, x) == crate::semantics::image_through(p1, p2, x));
        let z = image(p1, x)->0;
        assert(0 <= z < t1.len() && t1[z] == s[x]);
        assert(image(p2, z) is Some);
    }
}

/// Composing is a function of the two patches: two compositions of the same
/// patches are equal, edit for edit.
pub proof fn compose_deterministic(
    p1: Seq<EditModel>,
    p2: Seq<EditModel>,
    r1: Seq<EditModel>,
    r2: Seq<EditModel>,
)
    requires
        r1 == compose_model(p1, p2),
        r2 == compose_model(p1, p2),
    ensures
        r1 == r2,
{
}

} // verus!
