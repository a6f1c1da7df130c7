use vstd::prelude::*;

use crate::geometry::{lemma_split_partitions, split_rect_spec, Rect};
use crate::layout::{group_rects, layout_spec};
use crate::shape::{
    all_shares_sum_to_one, group_panes, groups_of, inserted, lemma_concat_contains, lemma_inserted_wf,
    lemma_removed_drops_group, lemma_removed_wf, panes_of, placement_ok, removed, wf_shape, Placement,
    Shape,
};

verus! {

/// The pane ids that a layout lists, in order.
pub open spec fn layout_keys(l: Seq<(u64, Rect)>) -> Seq<u64> {
    l.map_values(|e: (u64, Rect)| e.0)
}

/// The number of splits in the tree.
pub open spec fn split_count(s: Shape) -> nat
    decreases s,
{
    match s {
        Shape::Split { first, second, .. } => 1 + split_count(*first) + split_count(*second),
        Shape::Group { .. } => 0,
    }
}

proof fn lemma_keys_concat(a: Seq<(u64, Rect)>, b: Seq<(u64, Rect)>)
    ensures
        layout_keys(a + b) == layout_keys(a) + layout_keys(b),
{
    assert(layout_keys(a + b) =~= layout_keys(a) + layout_keys(b));
}

/// A well-formed tree holds no pane id twice, and at least one pane.
pub proof fn lemma_panes_distinct(s: Shape)
    requires
        wf_shape(s),
    ensures
        panes_of(s).no_duplicates(),
        panes_of(s).len() > 0,
    decreases s,
{
    match s {
        Shape::Split { first, second, .. } => {
            lemma_panes_distinct(*first);
            lemma_panes_distinct(*second);
            let a = panes_of(*first);
            let b = panes_of(*second);
            assert forall|i: int, j: int| 0 <= i < a.len() && 0 <= j < b.len() implies a[i] != b[j] by {
                assert(a.contains(a[i]));
                assert(b.contains(b[j]));
            }
            vstd::seq_lib::lemma_no_dup_in_concat(a, b);
        },
        Shape::Group { .. } => {},
    }
}

/// Layout partitions the viewport: the group rectangles fit inside it, cover
/// every point of it and never overlap; every pane of the tree is listed
/// exactly once, with a group's rectangle.
pub proof fn lemma_layout_partitions(s: Shape, viewport: Rect)
    requires
        wf_shape(s),
        viewport.fits(),
    ensures
        layout_keys(layout_spec(s, viewport)) == panes_of(s),
        layout_keys(layout_spec(s, viewport)).no_duplicates(),
        forall|i: int| 0 <= i < group_rects(s, viewport).len() ==> (#[trigger] group_rects(s, viewport)[i]).1.fits(),
        forall|i: int, px: int, py: int|
            0 <= i < group_rects(s, viewport).len() && #[trigger] group_rects(s, viewport)[i].1.contains(px, py)
                ==> viewport.contains(px, py),
        forall|px: int, py: int|
            #[trigger] viewport.contains(px, py) ==> exists|i: int|
                0 <= i < group_rects(s, viewport).len() && #[trigger] group_rects(s, viewport)[i].1.contains(px, py),
        forall|i: int, j: int, px: int, py: int|
            0 <= i < group_rects(s, viewport).len() && 0 <= j < group_rects(s, viewport).len() && i != j
                ==> !(#[trigger] group_rects(s, viewport)[i].1.contains(px, py)
                && #[trigger] group_rects(s, viewport)[j].1.contains(px, py)),
    decreases s,
{
    lemma_panes_distinct(s);
    let gr = group_rects(s, viewport);
    let l = layout_spec(s, viewport);
    match s {
        Shape::Split { orientation, ratio, first, second } => {
            lemma_split_partitions(viewport, orientation, ratio);
            let parts = split_rect_spec(viewport, orientation, ratio);
            lemma_layout_partitions(*first, parts.0);
            lemma_layout_partitions(*second, parts.1);
            let g1 = group_rects(*first, parts.0);
            let g2 = group_rects(*second, parts.1);
            let l1 = layout_spec(*first, parts.0);
            let l2 = layout_spec(*second, parts.1);
            lemma_keys_concat(l1, l2);
            assert(gr == g1 + g2);
            assert(l == l1 + l2);
            assert forall|i: int| 0 <= i < gr.len() implies (#[trigger] gr[i]).1.fits() by {
                if i < g1.len() {
                    assert(gr[i] == g1[i]);
                } else {
                    assert(gr[i] == g2[i - g1.len()]);
                }
            }
            assert forall|i: int, px: int, py: int|
                0 <= i < gr.len() && #[trigger] gr[i].1.contains(px, py) implies viewport.contains(px, py) by {
                if i < g1.len() {
                    assert(gr[i] == g1[i]);
                    assert(parts.0.contains(px, py));
                } else {
                    assert(gr[i] == g2[i - g1.len()]);
                    assert(parts.1.contains(px, py));
                }
            }
            assert forall|px: int, py: int| #[trigger] viewport.contains(px, py) implies exists|i: int|
                0 <= i < gr.len() && #[trigger] gr[i].1.contains(px, py) by {
                if parts.0.contains(px, py) {
                    let i = choose|i: int| 0 <= i < g1.len() && #[trigger] g1[i].1.contains(px, py);
                    assert(gr[i] == g1[i]);
                } else {
                    assert(parts.1.contains(px, py));
                    let i = choose|i: int| 0 <= i < g2.len() && #[trigger] g2[i].1.contains(px, py);
                    assert(gr[g1.len() + i] == g2[i]);
                }
            }
            assert forall|i: int, j: int, px: int, py: int|
                0 <= i < gr.len() && 0 <= j < gr.len() && i != j implies !(#[trigger] gr[i].1.contains(px, py)
                && #[trigger] gr[j].1.contains(px, py)) by {
                if gr[i].1.contains(px, py) && gr[j].1.contains(px, py) {
                    if i < g1.len() && j < g1.len() {
                        assert(gr[i] == g1[i] && gr[j] == g1[j]);
                    } else if i >= g1.len() && j >= g1.len() {
                        assert(gr[i] == g2[i - g1.len()] && gr[j] == g2[j - g1.len()]);
                    } else if i < g1.len() {
                        assert(gr[i] == g1[i] && gr[j] == g2[j - g1.len()]);
                        assert(parts.0.contains(px, py) && parts.1.contains(px, py));
                    } else {
                        assert(gr[j] == g1[j] && gr[i] == g2[i - g1.len()]);
                        assert(parts.0.contains(px, py) && parts.1.contains(px, py));
                    }
                }
            }
        },
        Shape::Group { id, panes, .. } => {
            assert(layout_keys(l) =~= panes);
            assert(gr[0] == (id, viewport));
            assert forall|px: int, py: int| #[trigger] viewport.contains(px, py) implies exists|i: int|
                0 <= i < gr.len() && #[trigger] gr[i].1.contains(px, py) by {
                assert(gr[0].1.contains(px, py));
            }
        },
    }
}

/// Taking out a pane that the tree does not hold changes nothing.
pub proof fn lemma_remove_absent(s: Shape, p: u64)
    requires
        !panes_of(s).contains(p),
    ensures
        removed(s, p) == Some(s),
    decreases s,
{
    match s {
        Shape::Split { first, second, .. } => {
            lemma_concat_contains(panes_of(*first), panes_of(*second), p);
            lemma_remove_absent(*first, p);
            lemma_remove_absent(*second, p);
        },
        Shape::Group { .. } => {},
    }
}

proof fn lemma_insert_elsewhere(s: Shape, p: u64, gid: u64, placement: Placement, new_id: u64)
    requires
        !groups_of(s).contains(gid),
    ensures
        inserted(s, p, gid, placement, new_id) == s,
    decreases s,
{
    match s {
        Shape::Split { first, second, .. } => {
            lemma_concat_contains(groups_of(*first), groups_of(*second), gid);
            lemma_insert_elsewhere(*first, p, gid, placement, new_id);
            lemma_insert_elsewhere(*second, p, gid, placement, new_id);
        },
        Shape::Group { id, .. } => {
            assert(groups_of(s)[0] == id);
        },
    }
}

/// Inserting a new pane and then removing it gives back the same tree.
pub proof fn lemma_insert_then_remove(s: Shape, p: u64, gid: u64, placement: Placement, new_id: u64)
    requires
        wf_shape(s),
        !panes_of(s).contains(p),
        !groups_of(s).contains(new_id),
        placement_ok(placement),
    ensures
        removed(inserted(s, p, gid, placement, new_id), p) == Some(s),
    decreases s,
{
    match s {
        Shape::Split { orientation, ratio, first, second } => {
            lemma_concat_contains(panes_of(*first), panes_of(*second), p);
            lemma_concat_contains(groups_of(*first), groups_of(*second), new_id);
            lemma_insert_then_remove(*first, p, gid, placement, new_id);
            lemma_insert_then_remove(*second, p, gid, placement, new_id);
        },
        Shape::Group { id, panes, active } => {
            if id == gid {
                match placement {
                    Placement::Tab(i) => {
                        let k = if i < panes.len() { i as int } else { panes.len() as int };
                        let w = panes.insert(k, p);
                        assert(w[k] == p);
                        assert(w.contains(p));
                        assert forall|a: int, b: int| 0 <= a < w.len() && 0 <= b < w.len() && a != b implies w[a] != w[b] by {
                            if a != k && b != k {
                                let a0 = if a < k { a } else { a - 1 };
                                let b0 = if b < k { b } else { b - 1 };
                                assert(w[a] == panes[a0] && w[b] == panes[b0]);
                            } else if a == k {
                                let b0 = if b < k { b } else { b - 1 };
                                assert(w[b] == panes[b0]);
                                assert(panes.contains(panes[b0]));
                            } else {
                                let a0 = if a < k { a } else { a - 1 };
                                assert(w[a] == panes[a0]);
                                assert(panes.contains(panes[a0]));
                            }
                        }
                        assert(w.index_of(p) == k);
                        assert(w.remove(k) =~= panes);
                    },
                    Placement::Split { .. } => {
                        let fresh = Shape::Group { id: new_id, panes: seq![p], active: 0 };
                        assert(seq![p].contains(p)) by {
                            assert(seq![p][0] == p);
                        }
                        assert(removed(fresh, p) is None);
                        lemma_remove_absent(s, p);
                    },
                }
            } else {
                lemma_remove_absent(s, p);
            }
        },
    }
}

/// Removing the last pane of a group takes the group out and collapses its
/// parent split into the sibling: one group and one split fewer, every other
/// group kept, and the tree still well formed. A tree that was that one group
/// becomes empty.
pub proof fn lemma_remove_last_collapses(s: Shape, p: u64, g: u64)
    requires
        wf_shape(s),
        group_panes(s, g) == Some(seq![p]),
    ensures
        match removed(s, p) {
            Some(t) => {
                &&& wf_shape(t)
                &&& !groups_of(t).contains(g)
                &&& groups_of(t).len() + 1 == groups_of(s).len()
                &&& split_count(t) + 1 == split_count(s)
                &&& forall|h: u64| h != g && #[trigger] groups_of(s).contains(h) ==> groups_of(t).contains(h)
            },
            None => s == (Shape::Group { id: g, panes: seq![p], active: 0 }),
        },
    decreases s,
{
    assert(seq![p].contains(p)) by {
        assert(seq![p][0] == p);
    }
    lemma_removed_wf(s, p);
    lemma_removed_drops_group(s, p, g);
    match s {
        Shape::Split { orientation, ratio, first, second } => {
            lemma_removed_wf(*first, p);
            lemma_removed_wf(*second, p);
            lemma_panes_distinct(*first);
            lemma_panes_distinct(*second);
            crate::shape::lemma_group_panes_some(*first, g);
            crate::shape::lemma_group_panes_some(*second, g);
            lemma_group_has_pane(s, g, p);
            assert forall|h: u64| #[trigger] groups_of(s).contains(h) <==> (groups_of(*first).contains(h)
                || groups_of(*second).contains(h)) by {
                lemma_concat_contains(groups_of(*first), groups_of(*second), h);
            }
            if group_panes(*first, g) is Some {
                lemma_group_has_pane(*first, g, p);
                lemma_concat_contains(panes_of(*first), panes_of(*second), p);
                lemma_remove_absent(*second, p);
                lemma_remove_last_collapses(*first, p, g);
                match removed(*first, p) {
                    Some(a) => {
                        let t = Shape::Split { orientation, ratio, first: Box::new(a), second };
                        assert(removed(s, p) == Some(t));
                        assert forall|h: u64| #[trigger] groups_of(t).contains(h) <==> (
                        groups_of(a).contains(h) || groups_of(*second).contains(h)) by {
                            lemma_concat_contains(groups_of(a), groups_of(*second), h);
                        }
                        assert(!groups_of(t).contains(g));
                        assert(groups_of(t).len() + 1 == groups_of(s).len());
                        assert(split_count(t) + 1 == split_count(s));
                    },
                    None => {
                        assert(removed(s, p) == Some(*second));
                        assert(groups_of(*first) =~= seq![g]);
                        assert(groups_of(*second).len() + 1 == groups_of(s).len());
                        assert(split_count(*first) == 0);
                        assert(split_count(*second) + 1 == split_count(s));
                        assert(!groups_of(*second).contains(g));
                    },
                }
            } else {
                lemma_group_has_pane(*second, g, p);
                lemma_concat_contains(panes_of(*first), panes_of(*second), p);
                lemma_remove_absent(*first, p);
                lemma_remove_last_collapses(*second, p, g);
                match removed(*second, p) {
                    Some(b) => {
                        let t = Shape::Split { orientation, ratio, first, second: Box::new(b) };
                        assert(removed(s, p) == Some(t));
                        assert forall|h: u64| #[trigger] groups_of(t).contains(h) <==> (
                        groups_of(*first).contains(h) || groups_of(b).contains(h)) by {
                            lemma_concat_contains(groups_of(*first), groups_of(b), h);
                        }
                        assert(!groups_of(t).contains(g));
                        assert(groups_of(t).len() + 1 == groups_of(s).len());
                        assert(split_count(t) + 1 == split_count(s));
                    },
                    None => {
                        assert(removed(s, p) == Some(*first));
                        assert(groups_of(*second) =~= seq![g]);
                        assert(groups_of(*first).len() + 1 == groups_of(s).len());
                        assert(split_count(*second) == 0);
                        assert(split_count(*first) + 1 == split_count(s));
                        assert(!groups_of(*first).contains(g));
                    },
                }
            }
        },
        Shape::Group { id, panes, active } => {
            assert(panes =~= seq![p]);
        },
    }
}

proof fn lemma_group_has_pane(s: Shape, g: u64, p: u64)
    requires
        group_panes(s, g) is Some,
        group_panes(s, g)->0.contains(p),
    ensures
        panes_of(s).contains(p),
    decreases s,
{
    match s {
        Shape::Split { first, second, .. } => {
            lemma_concat_contains(panes_of(*first), panes_of(*second), p);
            if group_panes(*first, g) is Some {
                lemma_group_has_pane(*first, g, p);
            } else {
                lemma_group_has_pane(*second, g, p);
            }
        },
        Shape::Group { .. } => {},
    }
}

/// Every split of a well-formed tree divides its space into two positive
/// shares that sum to exactly one.
pub proof fn lemma_shares_sum_to_one(s: Shape)
    requires
        wf_shape(s),
    ensures
        all_shares_sum_to_one(s),
    decreases s,
{
    match s {
        Shape::Split { first, second, .. } => {
            lemma_shares_sum_to_one(*first);
            lemma_shares_sum_to_one(*second);
        },
        Shape::Group { .. } => {},
    }
}

/// After a move the layout lists the moved pane exactly once.
pub proof fn lemma_move_lists_pane_once(
    s: Shape,
    p: u64,
    gid: u64,
    placement: Placement,
    new_id: u64,
    viewport: Rect,
)
    requires
        wf_shape(s),
        panes_of(s).contains(p),
        removed(s, p) is Some,
        groups_of(removed(s, p)->0).contains(gid),
        !groups_of(s).contains(new_id),
        placement_ok(placement),
        viewport.fits(),
    ensures
        layout_keys(layout_spec(inserted(removed(s, p)->0, p, gid, placement, new_id), viewport)).to_multiset().count(p)
            == 1,
{
    lemma_removed_wf(s, p);
    let t = removed(s, p)->0;
    lemma_inserted_wf(t, p, gid, placement, new_id);
    let u = inserted(t, p, gid, placement, new_id);
    lemma_layout_partitions(u, viewport);
    let keys = layout_keys(layout_spec(u, viewport));
    keys.lemma_multiset_has_no_duplicates();
    keys.to_multiset_ensures();
}

/// Each pane of a layout is given the rectangle of one of the groups.
pub proof fn lemma_layout_uses_group_rects(s: Shape, viewport: Rect, k: int)
    requires
        0 <= k < layout_spec(s, viewport).len(),
    ensures
        exists|i: int|
            0 <= i < group_rects(s, viewport).len() && #[trigger] group_rects(s, viewport)[i].1 == layout_spec(
                s,
                viewport,
            )[k].1,
    decreases s,
{
    let gr = group_rects(s, viewport);
    let l = layout_spec(s, viewport);
    match s {
        Shape::Split { orientation, ratio, first, second } => {
            let parts = split_rect_spec(viewport, orientation, ratio);
            let g1 = group_rects(*first, parts.0);
            let g2 = group_rects(*second, parts.1);
            let l1 = layout_spec(*first, parts.0);
            let l2 = layout_spec(*second, parts.1);
            if k < l1.len() {
                lemma_layout_uses_group_rects(*first, parts.0, k);
                let i = choose|i: int| 0 <= i < g1.len() && #[trigger] g1[i].1 == l1[k].1;
                assert(gr[i] == g1[i]);
                assert(l[k] == l1[k]);
                assert(gr[i].1 == l[k].1);
            } else {
                lemma_layout_uses_group_rects(*second, parts.1, k - l1.len());
                let i = choose|i: int| 0 <= i < g2.len() && #[trigger] g2[i].1 == l2[k - l1.len()].1;
                assert(gr[g1.len() + i] == g2[i]);
                assert(l[k] == l2[k - l1.len()]);
                assert(gr[g1.len() + i].1 == l[k].1);
            }
        },
        Shape::Group { id, panes, .. } => {
            assert(gr[0] == (id, viewport));
            assert(gr[0].1 == l[k].1);
        },
    }
}

} // verus!
