use vstd::prelude::*;

use crate::geometry::{Orientation, RATIO_SCALE};

verus! {

/// The mathematical model of a dock tree node.
pub enum Shape {
    Split { orientation: Orientation, ratio: u32, first: Box<Shape>, second: Box<Shape> },
    Group { id: u64, panes: Seq<u64>, active: nat },
}

/// Where a pane goes relative to its target group.
#[derive(Clone, Copy, Debug, PartialEq, Eq, Structural)]
pub enum Placement {
    /// Into the group's tab list at this index (an index past the end appends).
    Tab(usize),
    /// Into a new group that splits the target's rectangle. `ratio` is the
    /// first child's share out of `RATIO_SCALE`; `before` puts the new group
    /// first.
    Split { orientation: Orientation, ratio: u32, before: bool },
}

/// The ids of all panes, group by group, in tree order.
pub open spec fn panes_of(s: Shape) -> Seq<u64>
    decreases s,
{
    match s {
        Shape::Split { first, second, .. } => panes_of(*first) + panes_of(*second),
        Shape::Group { panes, .. } => panes,
    }
}

/// The ids of all groups, in tree order.
pub open spec fn groups_of(s: Shape) -> Seq<u64>
    decreases s,
{
    match s {
        Shape::Split { first, second, .. } => groups_of(*first) + groups_of(*second),
        Shape::Group { id, .. } => seq![id],
    }
}

/// Every leaf holds at least one pane with a valid active index, every split
/// ratio gives both children a positive share, and neither a pane id nor a
/// group id occurs twice.
pub open spec fn wf_shape(s: Shape) -> bool
    decreases s,
{
    match s {
        Shape::Split { ratio, first, second, .. } => {
            &&& 0 < ratio < RATIO_SCALE
            &&& wf_shape(*first)
            &&& wf_shape(*second)
            &&& forall|p: u64| !(#[trigger] panes_of(*first).contains(p) && panes_of(*second).contains(p))
            &&& forall|g: u64| !(#[trigger] groups_of(*first).contains(g) && groups_of(*second).contains(g))
        },
        Shape::Group { panes, active, .. } => {
            &&& panes.len() > 0
            &&& active < panes.len()
            &&& panes.no_duplicates()
        },
    }
}

/// The list of shares of each split's children, out of `RATIO_SCALE`.
pub open spec fn split_shares(ratio: u32) -> Seq<int> {
    seq![ratio as int, RATIO_SCALE - ratio]
}

/// Every split in the tree has positive shares that sum to `RATIO_SCALE`.
pub open spec fn all_shares_sum_to_one(s: Shape) -> bool
    decreases s,
{
    match s {
        Shape::Split { ratio, first, second, .. } => {
            &&& split_shares(ratio)[0] > 0
            &&& split_shares(ratio)[1] > 0
            &&& split_shares(ratio)[0] + split_shares(ratio)[1] == RATIO_SCALE
            &&& all_shares_sum_to_one(*first)
            &&& all_shares_sum_to_one(*second)
        },
        Shape::Group { .. } => true,
    }
}

/// The tree after `p` is placed relative to group `gid`; a new group made by a
/// split gets the id `new_id`.
pub open spec fn inserted(s: Shape, p: u64, gid: u64, placement: Placement, new_id: u64) -> Shape
    decreases s,
{
    match s {
        Shape::Split { orientation, ratio, first, second } => Shape::Split {
            orientation,
            ratio,
            first: Box::new(inserted(*first, p, gid, placement, new_id)),
            second: Box::new(inserted(*second, p, gid, placement, new_id)),
        },
        Shape::Group { id, panes, active } => {
            if id != gid {
                s
            } else {
                match placement {
                    Placement::Tab(i) => {
                        let k = if i < panes.len() { i as int } else { panes.len() as int };
                        Shape::Group {
                            id,
                            panes: panes.insert(k, p),
                            active: if k <= active { active + 1 } else { active },
                        }
                    },
                    Placement::Split { orientation, ratio, before } => {
                        let fresh = Shape::Group { id: new_id, panes: seq![p], active: 0 };
                        if before {
                            Shape::Split { orientation, ratio, first: Box::new(fresh), second: Box::new(s) }
                        } else {
                            Shape::Split { orientation, ratio, first: Box::new(s), second: Box::new(fresh) }
                        }
                    },
                }
            }
        },
    }
}

/// The tree after pane `p` is taken out: a group left empty disappears and
/// its parent split is replaced by the sibling. `None` is the empty tree.
pub open spec fn removed(s: Shape, p: u64) -> Option<Shape>
    decreases s,
{
    match s {
        Shape::Split { orientation, ratio, first, second } => {
            match (removed(*first, p), removed(*second, p)) {
                (Some(a), Some(b)) => Some(
                    Shape::Split { orientation, ratio, first: Box::new(a), second: Box::new(b) },
                ),
                (Some(a), None) => Some(a),
                (None, Some(b)) => Some(b),
                (None, None) => None,
            }
        },
        Shape::Group { id, panes, active } => {
            if !panes.contains(p) {
                Some(s)
            } else if panes.len() == 1 {
                None
            } else {
                let k = panes.index_of(p);
                Some(
                    Shape::Group {
                        id,
                        panes: panes.remove(k),
                        active: if k < active {
                            (active - 1) as nat
                        } else if k == active {
                            0
                        } else {
                            active
                        },
                    },
                )
            }
        },
    }
}

/// The tree with `p` made the active pane of group `gid`.
pub open spec fn activated(s: Shape, gid: u64, p: u64) -> Shape
    decreases s,
{
    match s {
        Shape::Split { orientation, ratio, first, second } => Shape::Split {
            orientation,
            ratio,
            first: Box::new(activated(*first, gid, p)),
            second: Box::new(activated(*second, gid, p)),
        },
        Shape::Group { id, panes, active } => {
            if id == gid && panes.contains(p) {
                Shape::Group { id, panes, active: panes.index_of(p) as nat }
            } else {
                s
            }
        },
    }
}

/// The panes of group `gid`, if the tree has such a group.
pub open spec fn group_panes(s: Shape, gid: u64) -> Option<Seq<u64>>
    decreases s,
{
    match s {
        Shape::Split { first, second, .. } => match group_panes(*first, gid) {
            Some(ps) => Some(ps),
            None => group_panes(*second, gid),
        },
        Shape::Group { id, panes, .. } => if id == gid {
            Some(panes)
        } else {
            None
        },
    }
}

/// A split placement must give both sides a positive share.
pub open spec fn placement_ok(placement: Placement) -> bool {
    match placement {
        Placement::Tab(_) => true,
        Placement::Split { ratio, .. } => 0 < ratio < RATIO_SCALE,
    }
}

/// A value is in a concatenation exactly when it is in one of the parts.
pub proof fn lemma_concat_contains(a: Seq<u64>, b: Seq<u64>, x: u64)
    ensures
        (a + b).contains(x) <==> (a.contains(x) || b.contains(x)),
{
    if a.contains(x) {
        let i = choose|i: int| 0 <= i < a.len() && a[i] == x;
        assert((a + b)[i] == x);
    }
    if b.contains(x) {
        let i = choose|i: int| 0 <= i < b.len() && b[i] == x;
        assert((a + b)[a.len() + i] == x);
    }
    if (a + b).contains(x) {
        let i = choose|i: int| 0 <= i < (a + b).len() && (a + b)[i] == x;
        if i < a.len() {
            assert(a[i] == x);
        } else {
            assert(b[i - a.len()] == x);
        }
    }
}

proof fn lemma_seq_insert(v: Seq<u64>, k: int, p: u64)
    requires
        0 <= k <= v.len(),
        v.no_duplicates(),
        !v.contains(p),
    ensures
        v.insert(k, p).no_duplicates(),
        forall|q: u64| #[trigger] v.insert(k, p).contains(q) <==> (v.contains(q) || q == p),
        v.insert(k, p).index_of(p) == k,
{
    let w = v.insert(k, p);
    assert forall|q: u64| #[trigger] w.contains(q) <==> (v.contains(q) || q == p) by {
        if v.contains(q) {
            let i = choose|i: int| 0 <= i < v.len() && v[i] == q;
            if i < k {
                assert(w[i] == q);
            } else {
                assert(w[i + 1] == q);
            }
        }
        if q == p {
            assert(w[k] == p);
        }
        if w.contains(q) && q != p {
            let i = choose|i: int| 0 <= i < w.len() && w[i] == q;
            if i < k {
                assert(v[i] == q);
            } else {
                assert(v[i - 1] == q);
            }
        }
    }
    assert forall|i: int, j: int| 0 <= i < w.len() && 0 <= j < w.len() && i != j implies w[i] != w[j] by {
        if i != k && j != k {
            let i0 = if i < k { i } else { i - 1 };
            let j0 = if j < k { j } else { j - 1 };
            assert(w[i] == v[i0] && w[j] == v[j0]);
        } else if i == k {
            let j0 = if j < k { j } else { j - 1 };
            assert(w[j] == v[j0]);
        } else {
            let i0 = if i < k { i } else { i - 1 };
            assert(w[i] == v[i0]);
        }
    }
    assert(w[k] == p);
}

proof fn lemma_seq_remove(v: Seq<u64>, p: u64)
    requires
        v.no_duplicates(),
        v.contains(p),
    ensures
        0 <= v.index_of(p) < v.len(),
        v[v.index_of(p)] == p,
        v.remove(v.index_of(p)).no_duplicates(),
        forall|q: u64| #[trigger] v.remove(v.index_of(p)).contains(q) <==> (v.contains(q) && q != p),
{
    let k = v.index_of(p);
    let w = v.remove(k);
    assert forall|q: u64| #[trigger] w.contains(q) <==> (v.contains(q) && q != p) by {
        if v.contains(q) && q != p {
            let i = choose|i: int| 0 <= i < v.len() && v[i] == q;
            if i < k {
                assert(w[i] == q);
            } else {
                assert(i != k);
                assert(w[i - 1] == q);
            }
        }
        if w.contains(q) {
            let i = choose|i: int| 0 <= i < w.len() && w[i] == q;
            if i < k {
                assert(v[i] == q);
                assert(i != k);
            } else {
                assert(v[i + 1] == q);
            }
        }
    }
    assert forall|i: int, j: int| 0 <= i < w.len() && 0 <= j < w.len() && i != j implies w[i] != w[j] by {
        let i0 = if i < k { i } else { i + 1 };
        let j0 = if j < k { j } else { j + 1 };
        assert(w[i] == v[i0] && w[j] == v[j0]);
    }
}

/// Placing a pane that the tree does not hold keeps the tree well formed and
/// adds exactly that pane (and, for a split, the new group).
pub proof fn lemma_inserted_wf(s: Shape, p: u64, gid: u64, placement: Placement, new_id: u64)
    requires
        wf_shape(s),
        !panes_of(s).contains(p),
        !groups_of(s).contains(new_id),
        placement_ok(placement),
    ensures
        wf_shape(inserted(s, p, gid, placement, new_id)),
        forall|q: u64| #[trigger] panes_of(inserted(s, p, gid, placement, new_id)).contains(q)
            <==> (panes_of(s).contains(q) || (q == p && groups_of(s).contains(gid))),
        forall|g: u64| #[trigger] groups_of(inserted(s, p, gid, placement, new_id)).contains(g)
            <==> (groups_of(s).contains(g) || (g == new_id && placement is Split
                && groups_of(s).contains(gid))),
    decreases s,
{
    let t = inserted(s, p, gid, placement, new_id);
    match s {
        Shape::Split { orientation, ratio, first, second } => {
            lemma_concat_contains(panes_of(*first), panes_of(*second), p);
            lemma_concat_contains(groups_of(*first), groups_of(*second), new_id);
            lemma_inserted_wf(*first, p, gid, placement, new_id);
            lemma_inserted_wf(*second, p, gid, placement, new_id);
            let a = inserted(*first, p, gid, placement, new_id);
            let b = inserted(*second, p, gid, placement, new_id);
            assert forall|q: u64| #[trigger] panes_of(t).contains(q)
                <==> (panes_of(s).contains(q) || (q == p && groups_of(s).contains(gid))) by {
                lemma_concat_contains(panes_of(a), panes_of(b), q);
                lemma_concat_contains(panes_of(*first), panes_of(*second), q);
                lemma_concat_contains(groups_of(*first), groups_of(*second), gid);
            }
            assert forall|g: u64| #[trigger] groups_of(t).contains(g)
                <==> (groups_of(s).contains(g) || (g == new_id && placement is Split
                    && groups_of(s).contains(gid))) by {
                lemma_concat_contains(groups_of(a), groups_of(b), g);
                lemma_concat_contains(groups_of(*first), groups_of(*second), g);
                lemma_concat_contains(groups_of(*first), groups_of(*second), gid);
            }
            assert forall|q: u64| !(#[trigger] panes_of(a).contains(q) && panes_of(b).contains(q)) by {
                lemma_concat_contains(groups_of(*first), groups_of(*second), gid);
            }
            assert forall|g: u64| !(#[trigger] groups_of(a).contains(g) && groups_of(b).contains(g)) by {
                lemma_concat_contains(groups_of(*first), groups_of(*second), gid);
            }
        },
        Shape::Group { id, panes, active } => {
            assert(groups_of(s).contains(id)) by {
                assert(groups_of(s)[0] == id);
            }
            if id == gid {
                match placement {
                    Placement::Tab(i) => {
                        let k = if i < panes.len() { i as int } else { panes.len() as int };
                        lemma_seq_insert(panes, k, p);
                    },
                    Placement::Split { .. } => {
                        let fresh = Shape::Group { id: new_id, panes: seq![p], active: 0 };
                        assert(panes_of(fresh) =~= seq![p]);
                        assert(seq![p].contains(p)) by {
                            assert(seq![p][0] == p);
                        }
                        assert(groups_of(fresh) =~= seq![new_id]);
                        assert(wf_shape(fresh));
                        assert forall|q: u64| !(#[trigger] panes_of(fresh).contains(q) && panes_of(s).contains(q)) by {
                            if panes_of(fresh).contains(q) {
                                let i = choose|i: int| 0 <= i < 1 && seq![p][i] == q;
                            }
                        }
                        assert forall|g: u64| !(#[trigger] groups_of(fresh).contains(g) && groups_of(s).contains(g)) by {
                            if groups_of(fresh).contains(g) {
                                let i = choose|i: int| 0 <= i < 1 && seq![new_id][i] == g;
                            }
                        }
                        assert(seq![new_id].contains(new_id)) by {
                            assert(seq![new_id][0] == new_id);
                        }
                        assert forall|q: u64| #[trigger] panes_of(t).contains(q)
                            <==> (panes_of(s).contains(q) || (q == p && groups_of(s).contains(gid))) by {
                            lemma_concat_contains(panes, seq![p], q);
                            lemma_concat_contains(seq![p], panes, q);
                        }
                        assert forall|g: u64| #[trigger] groups_of(t).contains(g)
                            <==> (groups_of(s).contains(g) || (g == new_id && placement is Split
                                && groups_of(s).contains(gid))) by {
                            lemma_concat_contains(seq![id], seq![new_id], g);
                            lemma_concat_contains(seq![new_id], seq![id], g);
                        }
                    },
                }
            } else {
                assert(!groups_of(s).contains(gid));
            }
        },
    }
}

/// Taking a pane out keeps the tree well formed, drops exactly that pane and
/// keeps no group that was not there before.
pub proof fn lemma_removed_wf(s: Shape, p: u64)
    requires
        wf_shape(s),
    ensures
        match removed(s, p) {
            Some(t) => {
                &&& wf_shape(t)
                &&& forall|q: u64| #[trigger] panes_of(t).contains(q) <==> (panes_of(s).contains(q) && q != p)
                &&& forall|g: u64| #[trigger] groups_of(t).contains(g) ==> groups_of(s).contains(g)
            },
            None => forall|q: u64| #[trigger] panes_of(s).contains(q) ==> q == p,
        },
    decreases s,
{
    match s {
        Shape::Split { orientation, ratio, first, second } => {
            lemma_removed_wf(*first, p);
            lemma_removed_wf(*second, p);
            assert forall|q: u64| #[trigger] panes_of(s).contains(q) <==> (panes_of(*first).contains(q)
                || panes_of(*second).contains(q)) by {
                lemma_concat_contains(panes_of(*first), panes_of(*second), q);
            }
            assert forall|g: u64| #[trigger] groups_of(s).contains(g) <==> (groups_of(*first).contains(g)
                || groups_of(*second).contains(g)) by {
                lemma_concat_contains(groups_of(*first), groups_of(*second), g);
            }
            match (removed(*first, p), removed(*second, p)) {
                (Some(a), Some(b)) => {
                    let t = Shape::Split { orientation, ratio, first: Box::new(a), second: Box::new(b) };
                    assert forall|q: u64| #[trigger] panes_of(t).contains(q) <==> (panes_of(a).contains(q)
                        || panes_of(b).contains(q)) by {
                        lemma_concat_contains(panes_of(a), panes_of(b), q);
                    }
                    assert forall|g: u64| #[trigger] groups_of(t).contains(g) <==> (groups_of(a).contains(g)
                        || groups_of(b).contains(g)) by {
                        lemma_concat_contains(groups_of(a), groups_of(b), g);
                    }
                },
                _ => {},
            }
        },
        Shape::Group { id, panes, active } => {
            if panes.contains(p) && panes.len() != 1 {
                lemma_seq_remove(panes, p);
            } else if panes.contains(p) {
                assert forall|q: u64| #[trigger] panes_of(s).contains(q) implies q == p by {
                    let i = choose|i: int| 0 <= i < panes.len() && panes[i] == q;
                    let j = choose|i: int| 0 <= i < panes.len() && panes[i] == p;
                }
            }
        },
    }
}

/// A group survives the removal of a pane unless that pane was its only one.
pub proof fn lemma_removed_keeps_group(s: Shape, p: u64, g: u64)
    requires
        wf_shape(s),
        group_panes(s, g) is Some,
        !(group_panes(s, g)->0.len() == 1 && group_panes(s, g)->0.contains(p)),
    ensures
        removed(s, p) is Some,
        groups_of(removed(s, p)->0).contains(g),
        group_panes(removed(s, p)->0, g) is Some,
    decreases s,
{
    match s {
        Shape::Split { orientation, ratio, first, second } => {
            if group_panes(*first, g) is Some {
                lemma_removed_keeps_group(*first, p, g);
                lemma_group_panes_some(removed(*first, p)->0, g);
                match removed(*second, p) {
                    Some(b) => {
                        lemma_concat_contains(groups_of(removed(*first, p)->0), groups_of(b), g);
                    },
                    None => {},
                }
            } else {
                lemma_removed_keeps_group(*second, p, g);
                lemma_group_panes_some(removed(*second, p)->0, g);
                match removed(*first, p) {
                    Some(a) => {
                        lemma_concat_contains(groups_of(a), groups_of(removed(*second, p)->0), g);
                        lemma_group_panes_some(a, g);
                    },
                    None => {},
                }
            }
        },
        Shape::Group { id, panes, active } => {
            assert(groups_of(s)[0] == id);
        },
    }
}

/// A group's panes are found exactly when the group is in the tree.
pub proof fn lemma_group_panes_some(s: Shape, g: u64)
    ensures
        group_panes(s, g) is Some <==> groups_of(s).contains(g),
    decreases s,
{
    match s {
        Shape::Split { first, second, .. } => {
            lemma_group_panes_some(*first, g);
            lemma_group_panes_some(*second, g);
            lemma_concat_contains(groups_of(*first), groups_of(*second), g);
        },
        Shape::Group { id, .. } => {
            if groups_of(s).contains(g) {
                let i = choose|i: int| 0 <= i < 1 && seq![id][i] == g;
            }
            assert(groups_of(s)[0] == id);
        },
    }
}

/// Changing the active pane keeps the tree well formed, with the same panes
/// and groups in the same order.
pub proof fn lemma_activated_wf(s: Shape, gid: u64, p: u64)
    requires
        wf_shape(s),
    ensures
        wf_shape(activated(s, gid, p)),
        panes_of(activated(s, gid, p)) == panes_of(s),
        groups_of(activated(s, gid, p)) == groups_of(s),
    decreases s,
{
    match s {
        Shape::Split { first, second, .. } => {
            lemma_activated_wf(*first, gid, p);
            lemma_activated_wf(*second, gid, p);
        },
        Shape::Group { panes, .. } => {
            if panes.contains(p) {
                let i = choose|i: int| 0 <= i < panes.len() && panes[i] == p;
            }
        },
    }
}

/// Removing the only pane of a group removes the group.
pub proof fn lemma_removed_drops_group(s: Shape, p: u64, g: u64)
    requires
        wf_shape(s),
        group_panes(s, g) is Some,
        group_panes(s, g)->0.len() == 1,
        group_panes(s, g)->0.contains(p),
    ensures
        match removed(s, p) {
            Some(t) => !groups_of(t).contains(g),
            None => true,
        },
    decreases s,
{
    lemma_removed_wf(s, p);
    match s {
        Shape::Split { orientation, ratio, first, second } => {
            lemma_removed_wf(*first, p);
            lemma_removed_wf(*second, p);
            lemma_group_panes_some(*first, g);
            lemma_group_panes_some(*second, g);
            if group_panes(*first, g) is Some {
                lemma_removed_drops_group(*first, p, g);
            } else {
                lemma_removed_drops_group(*second, p, g);
            }
            match (removed(*first, p), removed(*second, p)) {
                (Some(a), Some(b)) => {
                    lemma_concat_contains(groups_of(a), groups_of(b), g);
                },
                _ => {},
            }
        },
        Shape::Group { id, panes, active } => {},
    }
}

/// The active pane of group `gid`, if the tree has that group.
pub open spec fn group_active(s: Shape, gid: u64) -> Option<u64>
    decreases s,
{
    match s {
        Shape::Split { first, second, .. } => match group_active(*first, gid) {
            Some(a) => Some(a),
            None => group_active(*second, gid),
        },
        Shape::Group { id, panes, active } => if id == gid {
            Some(panes[active as int])
        } else {
            None
        },
    }
}

/// The group that holds pane `p`, if any.
pub open spec fn group_holding(s: Shape, p: u64) -> Option<u64>
    decreases s,
{
    match s {
        Shape::Split { first, second, .. } => match group_holding(*first, p) {
            Some(g) => Some(g),
            None => group_holding(*second, p),
        },
        Shape::Group { id, panes, .. } => if panes.contains(p) {
            Some(id)
        } else {
            None
        },
    }
}

/// The per-node conditions of well-formedness, without the distinctness of
/// ids across the tree.
pub open spec fn locally_ok(s: Shape) -> bool
    decreases s,
{
    match s {
        Shape::Split { ratio, first, second, .. } => 0 < ratio < RATIO_SCALE && locally_ok(*first)
            && locally_ok(*second),
        Shape::Group { panes, active, .. } => panes.len() > 0 && active < panes.len(),
    }
}

proof fn lemma_no_dup_concat_parts(a: Seq<u64>, b: Seq<u64>)
    requires
        (a + b).no_duplicates(),
    ensures
        a.no_duplicates(),
        b.no_duplicates(),
        forall|x: u64| !(#[trigger] a.contains(x) && b.contains(x)),
{
    let c = a + b;
    assert forall|i: int, j: int| 0 <= i < a.len() && 0 <= j < a.len() && i != j implies a[i] != a[j] by {
        assert(c[i] == a[i] && c[j] == a[j]);
    }
    assert forall|i: int, j: int| 0 <= i < b.len() && 0 <= j < b.len() && i != j implies b[i] != b[j] by {
        assert(c[a.len() + i] == b[i] && c[a.len() + j] == b[j]);
    }
    assert forall|x: u64| !(#[trigger] a.contains(x) && b.contains(x)) by {
        if a.contains(x) && b.contains(x) {
            let i = choose|i: int| 0 <= i < a.len() && a[i] == x;
            let j = choose|j: int| 0 <= j < b.len() && b[j] == x;
            assert(c[i] == x && c[a.len() + j] == x);
        }
    }
}

/// Well-formedness is the per-node conditions plus no pane id and no group
/// id occurring twice in tree order.
pub proof fn lemma_wf_by_parts(s: Shape)
    ensures
        wf_shape(s) <==> (locally_ok(s) && panes_of(s).no_duplicates() && groups_of(s).no_duplicates()),
    decreases s,
{
    match s {
        Shape::Split { first, second, .. } => {
            lemma_wf_by_parts(*first);
            lemma_wf_by_parts(*second);
            let (pa, pb) = (panes_of(*first), panes_of(*second));
            let (ga, gb) = (groups_of(*first), groups_of(*second));
            if panes_of(s).no_duplicates() {
                lemma_no_dup_concat_parts(pa, pb);
            }
            if groups_of(s).no_duplicates() {
                lemma_no_dup_concat_parts(ga, gb);
            }
            if wf_shape(s) {
                assert forall|i: int, j: int| 0 <= i < pa.len() && 0 <= j < pb.len() implies pa[i] != pb[j] by {
                    assert(pa.contains(pa[i]) && pb.contains(pb[j]));
                }
                vstd::seq_lib::lemma_no_dup_in_concat(pa, pb);
                assert forall|i: int, j: int| 0 <= i < ga.len() && 0 <= j < gb.len() implies ga[i] != gb[j] by {
                    assert(ga.contains(ga[i]) && gb.contains(gb[j]));
                }
                vstd::seq_lib::lemma_no_dup_in_concat(ga, gb);
            }
        },
        Shape::Group { .. } => {},
    }
}

} // verus!
