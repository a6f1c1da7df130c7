use vstd::prelude::*;

use crate::geometry::{Orientation, Rect};
use crate::layout::{hit_node, lemma_hit_inside, hit_spec, layout_node, layout_spec, zone_of, zone_spec, DropZone};
use crate::node::{all_distinct, node_locally_ok, node_pane_ids, node_group_active, node_group_holding, node_group_ids, node_group_panes, activate_node, find_index, insert_node, node_group_info, node_has_pane, remove_node, Node};
use crate::shape::{
    activated, group_active, group_holding, group_panes, groups_of, inserted, lemma_activated_wf, lemma_group_panes_some,
    lemma_inserted_wf, lemma_removed_drops_group, lemma_removed_keeps_group, lemma_removed_wf, panes_of, placement_ok, removed,
    wf_shape, lemma_wf_by_parts, Placement, Shape,
};

verus! {


/// The tree after every pane of `ps` that `known` lacks is taken out, in
/// order.
pub open spec fn prune(s: Option<Shape>, ps: Seq<u64>, known: Seq<u64>) -> Option<Shape>
    decreases ps.len(),
{
    if ps.len() == 0 {
        s
    } else {
        let t = prune(s, ps.drop_last(), known);
        if known.contains(ps.last()) {
            t
        } else {
            match t {
                Some(x) => removed(x, ps.last()),
                None => None,
            }
        }
    }
}

/// The values of `ps` with repeats dropped, each at its first occurrence.
pub open spec fn first_occurrences(ps: Seq<u64>) -> Seq<u64>
    decreases ps.len(),
{
    if ps.len() == 0 {
        Seq::empty()
    } else {
        let d = first_occurrences(ps.drop_last());
        if d.contains(ps.last()) {
            d
        } else {
            d.push(ps.last())
        }
    }
}

/// A stored layout is taken as it is when well formed and no group uses the
/// largest id, which would leave no id for the next group.
pub open spec fn restorable(s: Shape) -> bool {
    wf_shape(s) && !groups_of(s).contains(u64::MAX)
}

/// Why an operation on the tree was refused; a refused operation leaves the
/// tree as it was.
#[derive(Clone, Copy, Debug, PartialEq, Eq, Structural)]
pub enum DockError {
    /// The target group does not exist.
    InvalidTarget,
    /// The pane is not where the operation looked for it.
    NotFound,
    /// The pane is already in the tree.
    DuplicatePane,
    /// A split ratio leaves one side without space.
    InvalidRatio,
}

/// The group under a point, its rectangle, and the drop zone of the point.
#[derive(Clone, Copy, Debug, PartialEq, Eq, Structural)]
pub struct HitTarget {
    pub group: u64,
    pub rect: Rect,
    pub zone: DropZone,
}

/// The dock tree: `None` when no pane is open.
#[derive(Debug)]
pub struct DockTree {
    root: Option<Node>,
    next_group_id: u64,
}

impl DockTree {
    /// The model of the tree; `None` is the empty tree.
    pub closed spec fn shape(&self) -> Option<Shape> {
        match self.root {
            Some(n) => Some(n.shape()),
            None => None,
        }
    }

    /// The id that the next group made by a split receives.
    pub closed spec fn next_id(&self) -> u64 {
        self.next_group_id
    }

    pub open spec fn wf(&self) -> bool {
        match self.shape() {
            Some(s) => wf_shape(s) && forall|g: u64| #[trigger] groups_of(s).contains(g) ==> g < self.next_id(),
            None => true,
        }
    }

    pub open spec fn pane_seq(&self) -> Seq<u64> {
        match self.shape() {
            Some(s) => panes_of(s),
            None => Seq::empty(),
        }
    }

    pub open spec fn group_seq(&self) -> Seq<u64> {
        match self.shape() {
            Some(s) => groups_of(s),
            None => Seq::empty(),
        }
    }

    pub open spec fn has_pane(&self, p: u64) -> bool {
        self.pane_seq().contains(p)
    }

    pub open spec fn has_group(&self, g: u64) -> bool {
        self.group_seq().contains(g)
    }

    /// The panes of group `g`, if the tree has it.
    pub open spec fn panes_in(&self, g: u64) -> Option<Seq<u64>> {
        match self.shape() {
            Some(s) => group_panes(s, g),
            None => None,
        }
    }

    /// An empty tree.
    pub fn new() -> (t: DockTree)
        ensures
            t.wf(),
            t.shape() is None,
            t.next_id() == 0,
    {
        DockTree { root: None, next_group_id: 0 }
    }

    /// A tree of one group, id 0, holding `panes` in order with the first
    /// active; empty when `panes` is. Refused when a pane id repeats.
    pub fn with_panes(panes: &Vec<u64>) -> (r: Result<DockTree, DockError>)
        ensures
            match r {
                Ok(t) => {
                    &&& panes@.no_duplicates()
                    &&& t.wf()
                    &&& t.next_id() == 1
                    &&& t.shape() == if panes@.len() == 0 {
                        None
                    } else {
                        Some(Shape::Group { id: 0, panes: panes@, active: 0 })
                    }
                },
                Err(e) => e == DockError::DuplicatePane && !panes@.no_duplicates(),
            },
    {
        if !all_distinct(panes) {
            return Err(DockError::DuplicatePane);
        }
        if panes.len() == 0 {
            return Ok(DockTree { root: None, next_group_id: 1 });
        }
        let t = DockTree { root: Some(Node::Group { id: 0, panes: panes.clone(), active: 0 }), next_group_id: 1 };
        assert(groups_of(t.shape()->0) =~= seq![0u64]);
        assert forall|g: u64| #[trigger] groups_of(t.shape()->0).contains(g) implies g < 1 by {
            let k = choose|k: int| 0 <= k < 1 && seq![0u64][k] == g;
        }
        Ok(t)
    }

    /// Rebuilds a tree from a stored layout. A well-formed layout is kept,
    /// less the panes that `known` does not list (groups left empty are
    /// pruned); any other layout gives way to one group, id 0, holding the
    /// known panes in order with the first active.
    pub fn restore(layout: Node, known: &Vec<u64>) -> (t: DockTree)
        ensures
            t.wf(),
            restorable(layout.shape()) ==> t.shape() == prune(Some(layout.shape()), panes_of(layout.shape()), known@),
            !restorable(layout.shape()) ==> t.shape() == if first_occurrences(known@).len() == 0 {
                None
            } else {
                Some(Shape::Group { id: 0, panes: first_occurrences(known@), active: 0 })
            },
    {
        let mut panes: Vec<u64> = Vec::new();
        node_pane_ids(&layout, &mut panes);
        let mut groups: Vec<u64> = Vec::new();
        node_group_ids(&layout, &mut groups);
        proof {
            lemma_wf_by_parts(layout.shape());
        }
        let valid = node_locally_ok(&layout) && all_distinct(&panes) && all_distinct(&groups);
        let mut next: u64 = 0;
        let mut i: usize = 0;
        let mut fits = true;
        while i < groups.len()
            invariant
                i <= groups@.len(),
                groups@ == groups_of(layout.shape()),
                fits ==> forall|j: int| 0 <= j < i ==> groups@[j] < next,
                fits ==> forall|j: int| 0 <= j < i ==> groups@[j] != u64::MAX,
                !fits ==> groups@.contains(u64::MAX),
            decreases groups@.len() - i,
        {
            if groups[i] == u64::MAX {
                fits = false;
                assert(groups@[i as int] == u64::MAX);
            } else if groups[i] >= next {
                next = groups[i] + 1;
            }
            i = i + 1;
        }
        if !(valid && fits) {
            return Self::fallback(known);
        }
        let ghost s0 = layout.shape();
        let mut t = DockTree { root: Some(layout), next_group_id: next };
        assert forall|g: u64| #[trigger] groups_of(s0).contains(g) implies g < next by {
            let j = choose|j: int| 0 <= j < groups@.len() && groups@[j] == g;
        }
        let mut k: usize = 0;
        while k < panes.len()
            invariant
                k <= panes@.len(),
                panes@ == panes_of(s0),
                t.wf(),
                t.shape() == prune(Some(s0), panes@.subrange(0, k as int), known@),
            decreases panes@.len() - k,
        {
            let p = panes[k];
            if find_index(known, p).is_none() {
                t.remove(p);
            }
            assert(panes@.subrange(0, k + 1).drop_last() =~= panes@.subrange(0, k as int));
            k = k + 1;
        }
        assert(panes@.subrange(0, panes@.len() as int) =~= panes@);
        t
    }

    /// One group, id 0, of the known panes without repeats; empty when there
    /// are none.
    fn fallback(known: &Vec<u64>) -> (t: DockTree)
        ensures
            t.wf(),
            t.shape() == if first_occurrences(known@).len() == 0 {
                None
            } else {
                Some(Shape::Group { id: 0, panes: first_occurrences(known@), active: 0 })
            },
    {
        let mut out: Vec<u64> = Vec::new();
        let mut i: usize = 0;
        while i < known.len()
            invariant
                i <= known@.len(),
                out@ == first_occurrences(known@.subrange(0, i as int)),
                out@.no_duplicates(),
            decreases known@.len() - i,
        {
            let p = known[i];
            assert(known@.subrange(0, i + 1).drop_last() =~= known@.subrange(0, i as int));
            if find_index(&out, p).is_none() {
                let ghost before = out@;
                out.push(p);
                assert forall|a: int, b: int| 0 <= a < out@.len() && 0 <= b < out@.len() && a != b implies out@[a]
                    != out@[b] by {
                    if a == out@.len() - 1 {
                        assert(out@[b] == before[b]);
                    } else if b == out@.len() - 1 {
                        assert(out@[a] == before[a]);
                    }
                }
            }
            i = i + 1;
        }
        assert(known@.subrange(0, known@.len() as int) =~= known@);
        if out.len() == 0 {
            return DockTree { root: None, next_group_id: 1 };
        }
        let t = DockTree { root: Some(Node::Group { id: 0, panes: out, active: 0 }), next_group_id: 1 };
        assert(groups_of(t.shape()->0) =~= seq![0u64]);
        assert forall|g: u64| #[trigger] groups_of(t.shape()->0).contains(g) implies g < 1 by {
            let k = choose|k: int| 0 <= k < 1 && seq![0u64][k] == g;
        }
        t
    }

    /// Whether pane `p` is in the tree.
    pub fn contains_pane(&self, p: u64) -> (r: bool)
        ensures
            r == self.has_pane(p),
    {
        match &self.root {
            Some(n) => node_has_pane(n, p),
            None => false,
        }
    }

    /// Places pane `p` relative to group `gid`: into its tabs, or into a new
    /// group that splits it. The tree is unchanged on an error.
    pub fn insert(&mut self, p: u64, gid: u64, placement: Placement) -> (r: Result<(), DockError>)
        requires
            old(self).wf(),
            old(self).next_id() < u64::MAX,
        ensures
            final(self).wf(),
            match r {
                Ok(()) => {
                    &&& old(self).has_group(gid)
                    &&& !old(self).has_pane(p)
                    &&& placement_ok(placement)
                    &&& final(self).shape() == Some(inserted(old(self).shape()->0, p, gid, placement, old(self).next_id()))
                    &&& final(self).next_id() == if placement is Split {
                        (old(self).next_id() + 1) as u64
                    } else {
                        old(self).next_id()
                    }
                },
                Err(e) => {
                    &&& *final(self) == *old(self)
                    &&& e == if !old(self).has_group(gid) {
                        DockError::InvalidTarget
                    } else if old(self).has_pane(p) {
                        DockError::DuplicatePane
                    } else {
                        DockError::InvalidRatio
                    }
                    &&& (e == DockError::InvalidRatio ==> !placement_ok(placement))
                },
            },
    {
        let info = match &self.root {
            Some(n) => node_group_info(n, gid, p),
            None => None,
        };
        proof {
            if self.root is Some {
                lemma_group_panes_some(self.shape()->0, gid);
            }
        }
        if info.is_none() {
            return Err(DockError::InvalidTarget);
        }
        if self.contains_pane(p) {
            return Err(DockError::DuplicatePane);
        }
        match placement {
            Placement::Split { ratio, .. } => {
                if ratio == 0 || ratio >= crate::geometry::RATIO_SCALE {
                    return Err(DockError::InvalidRatio);
                }
            },
            Placement::Tab(_) => {},
        }
        let root = self.root.take().unwrap();
        proof {
            lemma_inserted_wf(root.shape(), p, gid, placement, self.next_group_id);
        }
        let n = insert_node(root, p, gid, placement, self.next_group_id);
        self.root = Some(n);
        match placement {
            Placement::Split { .. } => {
                self.next_group_id = self.next_group_id + 1;
            },
            Placement::Tab(_) => {},
        }
        Ok(())
    }

    /// The model after pane `p` is taken out: `None` when nothing is left.
    pub open spec fn shape_without(&self, p: u64) -> Option<Shape> {
        match self.shape() {
            Some(s) => removed(s, p),
            None => None,
        }
    }

    /// Takes pane `p` out of its group; a group left empty disappears and its
    /// parent split gives way to the sibling. Returns whether `p` was there;
    /// a missing pane leaves the tree as it was.
    pub fn remove(&mut self, p: u64) -> (r: bool)
        requires
            old(self).wf(),
        ensures
            final(self).wf(),
            r == old(self).has_pane(p),
            final(self).shape() == old(self).shape_without(p),
            final(self).next_id() == old(self).next_id(),
            !final(self).has_pane(p),
            forall|q: u64| q != p ==> (#[trigger] final(self).has_pane(q) <==> old(self).has_pane(q)),
    {
        let found = self.contains_pane(p);
        match self.root.take() {
            None => {},
            Some(n) => {
                proof {
                    lemma_removed_wf(n.shape(), p);
                    assert forall|g: u64| #[trigger] groups_of(n.shape()).contains(g) implies g < self.next_group_id by {}
                }
                self.root = remove_node(n, p);
            },
        }
        found
    }

    /// Moves pane `p` to a place relative to group `gid`: the same as
    /// removing it and then inserting it there, done as one step. On an error
    /// the tree is unchanged, so `p` stays exactly where it was.
    pub fn move_pane(&mut self, p: u64, gid: u64, placement: Placement) -> (r: Result<(), DockError>)
        requires
            old(self).wf(),
            old(self).next_id() < u64::MAX,
        ensures
            final(self).wf(),
            match r {
                Ok(()) => {
                    &&& old(self).has_pane(p)
                    &&& old(self).shape_without(p) is Some
                    &&& groups_of(old(self).shape_without(p)->0).contains(gid)
                    &&& placement_ok(placement)
                    &&& final(self).shape() == Some(
                        inserted(old(self).shape_without(p)->0, p, gid, placement, old(self).next_id()),
                    )
                },
                Err(e) => {
                    &&& *final(self) == *old(self)
                    &&& e == if !old(self).has_pane(p) {
                        DockError::NotFound
                    } else if !(old(self).shape_without(p) is Some && groups_of(
                        old(self).shape_without(p)->0,
                    ).contains(gid)) {
                        DockError::InvalidTarget
                    } else {
                        DockError::InvalidRatio
                    }
                    &&& (e == DockError::InvalidRatio ==> !placement_ok(placement))
                },
            },
            final(self).has_pane(p) == old(self).has_pane(p),
            forall|q: u64| #[trigger] final(self).has_pane(q) <==> old(self).has_pane(q),
    {
        if !self.contains_pane(p) {
            return Err(DockError::NotFound);
        }
        let info = match &self.root {
            Some(n) => node_group_info(n, gid, p),
            None => None,
        };
        let ghost s = self.shape()->0;
        proof {
            lemma_group_panes_some(s, gid);
            lemma_removed_wf(s, p);
        }
        let survives = match info {
            None => false,
            Some((len, has)) => !(len == 1 && has),
        };
        if !survives {
            proof {
                if let Some(t) = removed(s, p) {
                    if groups_of(t).contains(gid) {
                        assert(groups_of(s).contains(gid));
                        assert(group_panes(s, gid) is Some);
                        let ps = group_panes(s, gid)->0;
                        assert(ps.len() == 1 && ps.contains(p));
                        lemma_removed_drops_group(s, p, gid);
                    }
                }
            }
            return Err(DockError::InvalidTarget);
        }
        proof {
            lemma_removed_keeps_group(s, p, gid);
        }
        match placement {
            Placement::Split { ratio, .. } => {
                if ratio == 0 || ratio >= crate::geometry::RATIO_SCALE {
                    return Err(DockError::InvalidRatio);
                }
            },
            Placement::Tab(_) => {},
        }
        let root = self.root.take().unwrap();
        let rest = remove_node(root, p).unwrap();
        proof {
            let t = rest.shape();
            assert forall|g: u64| #[trigger] groups_of(t).contains(g) implies g < self.next_group_id by {
                assert(groups_of(s).contains(g));
            }
            lemma_inserted_wf(t, p, gid, placement, self.next_group_id);
            assert forall|q: u64| #[trigger] panes_of(inserted(t, p, gid, placement, self.next_group_id)).contains(q)
                <==> panes_of(s).contains(q) by {}
        }
        let n = insert_node(rest, p, gid, placement, self.next_group_id);
        self.root = Some(n);
        match placement {
            Placement::Split { .. } => {
                self.next_group_id = self.next_group_id + 1;
            },
            Placement::Tab(_) => {},
        }
        Ok(())
    }

    /// Makes `p` the active pane of group `gid`.
    pub fn set_active(&mut self, gid: u64, p: u64) -> (r: Result<(), DockError>)
        requires
            old(self).wf(),
        ensures
            final(self).wf(),
            match r {
                Ok(()) => {
                    &&& old(self).panes_in(gid) is Some
                    &&& old(self).panes_in(gid)->0.contains(p)
                    &&& final(self).shape() == Some(activated(old(self).shape()->0, gid, p))
                    &&& final(self).next_id() == old(self).next_id()
                },
                Err(e) => {
                    &&& *final(self) == *old(self)
                    &&& e == if old(self).panes_in(gid) is None {
                        DockError::InvalidTarget
                    } else {
                        DockError::NotFound
                    }
                    &&& (e == DockError::NotFound ==> !old(self).panes_in(gid)->0.contains(p))
                },
            },
    {
        let info = match &self.root {
            Some(n) => node_group_info(n, gid, p),
            None => None,
        };
        match info {
            None => Err(DockError::InvalidTarget),
            Some((_, false)) => Err(DockError::NotFound),
            Some((_, true)) => {
                let root = self.root.take().unwrap();
                proof {
                    lemma_activated_wf(root.shape(), gid, p);
                }
                self.root = Some(activate_node(root, gid, p));
                Ok(())
            },
        }
    }

    /// Each pane with the rectangle of its group inside `viewport`, in tree
    /// order.
    pub fn compute_layout(&self, viewport: Rect) -> (r: Vec<(u64, Rect)>)
        requires
            self.wf(),
            viewport.fits(),
        ensures
            r@ == match self.shape() {
                Some(s) => layout_spec(s, viewport),
                None => Seq::empty(),
            },
    {
        let mut out: Vec<(u64, Rect)> = Vec::new();
        match &self.root {
            Some(n) => {
                layout_node(n, viewport, &mut out);
                assert(out@ =~= layout_spec(n.shape(), viewport));
            },
            None => {},
        }
        out
    }

    /// The group under the point `(px, py)` of `viewport`, with its
    /// rectangle and the drop zone of the point; `None` outside the viewport
    /// or on an empty tree.
    pub fn hit_test(&self, viewport: Rect, px: u32, py: u32) -> (r: Option<HitTarget>)
        requires
            self.wf(),
            viewport.fits(),
        ensures
            match self.shape() {
                Some(s) => match hit_spec(s, viewport, px as int, py as int) {
                    Some((g, rect)) => r == Some(
                        HitTarget { group: g, rect, zone: zone_spec(rect, px as int, py as int) },
                    ),
                    None => r is None,
                },
                None => r is None,
            },
    {
        match &self.root {
            Some(n) => match hit_node(n, viewport, px, py) {
                Some((g, rect)) => {
                    proof {
                        lemma_hit_inside(n.shape(), viewport, px as int, py as int);
                    }
                    Some(HitTarget { group: g, rect, zone: zone_of(rect, px, py) })
                },
                None => None,
            },
            None => None,
        }
    }

    /// A copy of the panes of group `gid`, in tab order.
    pub fn group_panes(&self, gid: u64) -> (r: Option<Vec<u64>>)
        ensures
            match self.panes_in(gid) {
                Some(ps) => r is Some && r->0@ == ps,
                None => r is None,
            },
    {
        match &self.root {
            Some(n) => node_group_panes(n, gid),
            None => None,
        }
    }

    /// The active pane of group `gid`.
    pub fn active_pane(&self, gid: u64) -> (r: Option<u64>)
        requires
            self.wf(),
        ensures
            r == match self.shape() {
                Some(s) => group_active(s, gid),
                None => None,
            },
    {
        match &self.root {
            Some(n) => node_group_active(n, gid),
            None => None,
        }
    }

    /// The group that holds pane `p`.
    pub fn group_of(&self, p: u64) -> (r: Option<u64>)
        ensures
            r == match self.shape() {
                Some(s) => group_holding(s, p),
                None => None,
            },
    {
        match &self.root {
            Some(n) => node_group_holding(n, p),
            None => None,
        }
    }

    /// The ids of all groups, in tree order.
    pub fn group_ids(&self) -> (r: Vec<u64>)
        ensures
            r@ == self.group_seq(),
    {
        let mut out: Vec<u64> = Vec::new();
        match &self.root {
            Some(n) => {
                node_group_ids(n, &mut out);
                assert(out@ =~= self.group_seq());
            },
            None => {},
        }
        out
    }

    /// The orientation and ratio of the root, when the root is a split.
    pub fn root_split(&self) -> (r: Option<(Orientation, u32)>)
        ensures
            r == match self.shape() {
                Some(Shape::Split { orientation, ratio, .. }) => Some((orientation, ratio)),
                _ => None,
            },
    {
        match &self.root {
            Some(Node::Split { orientation, ratio, .. }) => Some((*orientation, *ratio)),
            _ => None,
        }
    }

    /// Whether no pane is open.
    pub fn is_empty(&self) -> (r: bool)
        ensures
            r == (self.shape() is None),
    {
        self.root.is_none()
    }
}

} // verus!
