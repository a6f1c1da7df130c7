use vstd::prelude::*;

use crate::geometry::{Orientation, RATIO_SCALE};
use crate::shape::{locally_ok, activated, group_active, group_holding, group_panes, groups_of, inserted, panes_of, removed, Placement, Shape};

verus! {

/// A node of the dock tree: a two-way split or a leaf tab group.
#[derive(Debug)]
pub enum Node {
    Split { orientation: Orientation, ratio: u32, first: Box<Node>, second: Box<Node> },
    Group { id: u64, panes: Vec<u64>, active: usize },
}

impl Node {
    pub open spec fn shape(&self) -> Shape
        decreases self,
    {
        match self {
            Node::Split { orientation, ratio, first, second } => Shape::Split {
                orientation: *orientation,
                ratio: *ratio,
                first: Box::new(first.shape()),
                second: Box::new(second.shape()),
            },
            Node::Group { id, panes, active } => Shape::Group {
                id: *id,
                panes: panes@,
                active: *active as nat,
            },
        }
    }
}

/// The index of `p` in `v`, if it is there.
pub fn find_index(v: &Vec<u64>, p: u64) -> (r: Option<usize>)
    ensures
        match r {
            Some(k) => k < v@.len() && v@[k as int] == p,
            None => !v@.contains(p),
        },
{
    let mut i: usize = 0;
    while i < v.len()
        invariant
            i <= v@.len(),
            forall|j: int| 0 <= j < i ==> v@[j] != p,
        decreases v@.len() - i,
    {
        if v[i] == p {
            return Some(i);
        }
        i = i + 1;
    }
    None
}

/// Whether pane `p` is anywhere in the tree.
pub fn node_has_pane(n: &Node, p: u64) -> (r: bool)
    ensures
        r == panes_of(n.shape()).contains(p),
    decreases n,
{
    match n {
        Node::Split { first, second, .. } => {
            let a = node_has_pane(first, p);
            let b = node_has_pane(second, p);
            proof {
                crate::shape::lemma_concat_contains(panes_of(first.shape()), panes_of(second.shape()), p);
            }
            a || b
        },
        Node::Group { panes, .. } => find_index(panes, p).is_some(),
    }
}

/// The pane count of group `gid` and whether `p` is among its panes, if the
/// tree has that group.
pub fn node_group_info(n: &Node, gid: u64, p: u64) -> (r: Option<(usize, bool)>)
    ensures
        match group_panes(n.shape(), gid) {
            Some(ps) => r == Some((ps.len() as usize, ps.contains(p))) && ps.len() <= usize::MAX,
            None => r is None,
        },
    decreases n,
{
    match n {
        Node::Split { first, second, .. } => {
            let a = node_group_info(first, gid, p);
            if a.is_some() {
                a
            } else {
                node_group_info(second, gid, p)
            }
        },
        Node::Group { id, panes, .. } => {
            if *id == gid {
                Some((panes.len(), find_index(panes, p).is_some()))
            } else {
                None
            }
        },
    }
}

/// Places `p` relative to group `gid`; a split makes a new group `new_id`.
pub fn insert_node(n: Node, p: u64, gid: u64, placement: Placement, new_id: u64) -> (r: Node)
    requires
        crate::shape::wf_shape(n.shape()),
    ensures
        r.shape() == inserted(n.shape(), p, gid, placement, new_id),
    decreases n,
{
    match n {
        Node::Split { orientation, ratio, first, second } => {
            let a = insert_node(*first, p, gid, placement, new_id);
            let b = insert_node(*second, p, gid, placement, new_id);
            Node::Split { orientation, ratio, first: Box::new(a), second: Box::new(b) }
        },
        Node::Group { id, panes, active } => {
            if id != gid {
                return Node::Group { id, panes, active };
            }
            match placement {
                Placement::Tab(i) => {
                    let mut panes = panes;
                    let k = if i < panes.len() { i } else { panes.len() };
                    panes.insert(k, p);
                    let active = if k <= active { active + 1 } else { active };
                    Node::Group { id, panes, active }
                },
                Placement::Split { orientation, ratio, before } => {
                    let mut single: Vec<u64> = Vec::new();
                    single.push(p);
                    assert(single@ =~= seq![p]);
                    let fresh = Node::Group { id: new_id, panes: single, active: 0 };
                    let old = Node::Group { id, panes, active };
                    assert(old.shape() == n.shape());
                    assert(fresh.shape() == (Shape::Group { id: new_id, panes: seq![p], active: 0 }));
                    let r = if before {
                        Node::Split { orientation, ratio, first: Box::new(fresh), second: Box::new(old) }
                    } else {
                        Node::Split { orientation, ratio, first: Box::new(old), second: Box::new(fresh) }
                    };
                    assert(r.shape() == inserted(n.shape(), p, gid, placement, new_id));
                    r
                },
            }
        },
    }
}

/// Takes pane `p` out of the tree, pruning a group that it leaves empty.
pub fn remove_node(n: Node, p: u64) -> (r: Option<Node>)
    requires
        crate::shape::wf_shape(n.shape()),
    ensures
        match r {
            Some(t) => removed(n.shape(), p) == Some(t.shape()),
            None => removed(n.shape(), p) is None,
        },
    decreases n,
{
    match n {
        Node::Split { orientation, ratio, first, second } => {
            let a = remove_node(*first, p);
            let b = remove_node(*second, p);
            match (a, b) {
                (Some(a), Some(b)) => Some(Node::Split { orientation, ratio, first: Box::new(a), second: Box::new(b) }),
                (Some(a), None) => Some(a),
                (None, Some(b)) => Some(b),
                (None, None) => None,
            }
        },
        Node::Group { id, panes, active } => {
            match find_index(&panes, p) {
                None => Some(Node::Group { id, panes, active }),
                Some(k) => {
                    if panes.len() == 1 {
                        return None;
                    }
                    assert(panes@.index_of(p) == k) by {
                        assert(panes@.contains(p));
                    }
                    let mut panes = panes;
                    panes.remove(k);
                    let active = if k < active {
                        active - 1
                    } else if k == active {
                        0
                    } else {
                        active
                    };
                    Some(Node::Group { id, panes, active })
                },
            }
        },
    }
}

/// Makes `p` the active pane of group `gid`, where it is a member.
pub fn activate_node(n: Node, gid: u64, p: u64) -> (r: Node)
    requires
        crate::shape::wf_shape(n.shape()),
    ensures
        r.shape() == activated(n.shape(), gid, p),
    decreases n,
{
    match n {
        Node::Split { orientation, ratio, first, second } => {
            let a = activate_node(*first, gid, p);
            let b = activate_node(*second, gid, p);
            Node::Split { orientation, ratio, first: Box::new(a), second: Box::new(b) }
        },
        Node::Group { id, panes, active } => {
            if id != gid {
                return Node::Group { id, panes, active };
            }
            match find_index(&panes, p) {
                None => Node::Group { id, panes, active },
                Some(k) => {
                    assert(panes@.index_of(p) == k) by {
                        assert(panes@.contains(p));
                    }
                    Node::Group { id, panes, active: k }
                },
            }
        },
    }
}

/// A copy of the panes of group `gid`, if the tree has it.
pub fn node_group_panes(n: &Node, gid: u64) -> (r: Option<Vec<u64>>)
    ensures
        match group_panes(n.shape(), gid) {
            Some(ps) => r is Some && r->0@ == ps,
            None => r is None,
        },
    decreases n,
{
    match n {
        Node::Split { first, second, .. } => {
            let a = node_group_panes(first, gid);
            if a.is_some() {
                a
            } else {
                node_group_panes(second, gid)
            }
        },
        Node::Group { id, panes, .. } => {
            if *id == gid {
                Some(panes.clone())
            } else {
                None
            }
        },
    }
}

/// The active pane of group `gid`, if the tree has it.
pub fn node_group_active(n: &Node, gid: u64) -> (r: Option<u64>)
    requires
        crate::shape::wf_shape(n.shape()),
    ensures
        r == group_active(n.shape(), gid),
    decreases n,
{
    match n {
        Node::Split { first, second, .. } => {
            let a = node_group_active(first, gid);
            if a.is_some() {
                a
            } else {
                node_group_active(second, gid)
            }
        },
        Node::Group { id, panes, active } => {
            if *id == gid {
                Some(panes[*active])
            } else {
                None
            }
        },
    }
}

/// The group that holds pane `p`, if any.
pub fn node_group_holding(n: &Node, p: u64) -> (r: Option<u64>)
    ensures
        r == group_holding(n.shape(), p),
    decreases n,
{
    match n {
        Node::Split { first, second, .. } => {
            let a = node_group_holding(first, p);
            if a.is_some() {
                a
            } else {
                node_group_holding(second, p)
            }
        },
        Node::Group { id, panes, .. } => {
            if find_index(panes, p).is_some() {
                Some(*id)
            } else {
                None
            }
        },
    }
}

/// Appends the group ids of `n`, in tree order, to `out`.
pub fn node_group_ids(n: &Node, out: &mut Vec<u64>)
    ensures
        final(out)@ == old(out)@ + groups_of(n.shape()),
    decreases n,
{
    match n {
        Node::Split { first, second, .. } => {
            node_group_ids(first, out);
            node_group_ids(second, out);
            assert(out@ =~= old(out)@ + groups_of(n.shape()));
        },
        Node::Group { id, .. } => {
            out.push(*id);
            assert(out@ =~= old(out)@ + groups_of(n.shape()));
        },
    }
}

/// Appends the pane ids of `n`, in tree order, to `out`.
pub fn node_pane_ids(n: &Node, out: &mut Vec<u64>)
    ensures
        final(out)@ == old(out)@ + panes_of(n.shape()),
    decreases n,
{
    match n {
        Node::Split { first, second, .. } => {
            node_pane_ids(first, out);
            node_pane_ids(second, out);
            assert(out@ =~= old(out)@ + panes_of(n.shape()));
        },
        Node::Group { panes, .. } => {
            let ghost start = out@;
            let mut i: usize = 0;
            while i < panes.len()
                invariant
                    i <= panes@.len(),
                    out@ =~= start + panes@.subrange(0, i as int),
                decreases panes@.len() - i,
            {
                out.push(panes[i]);
                i = i + 1;
                assert(panes@.subrange(0, i as int) =~= panes@.subrange(0, i - 1).push(panes@[i - 1]));
            }
            assert(panes@.subrange(0, panes@.len() as int) =~= panes@);
        },
    }
}

/// Whether every split ratio and every active index is in range and every
/// group is non-empty.
pub fn node_locally_ok(n: &Node) -> (r: bool)
    ensures
        r == locally_ok(n.shape()),
    decreases n,
{
    match n {
        Node::Split { ratio, first, second, .. } => {
            0 < *ratio && *ratio < RATIO_SCALE && node_locally_ok(first) && node_locally_ok(second)
        },
        Node::Group { panes, active, .. } => panes.len() > 0 && *active < panes.len(),
    }
}

/// Whether no value occurs twice in `v`.
pub fn all_distinct(v: &Vec<u64>) -> (r: bool)
    ensures
        r == v@.no_duplicates(),
{
    let mut i: usize = 0;
    while i < v.len()
        invariant
            i <= v@.len(),
            forall|a: int, b: int| 0 <= a < b < i ==> v@[a] != v@[b],
        decreases v@.len() - i,
    {
        let mut j: usize = 0;
        while j < i
            invariant
                i < v@.len(),
                j <= i,
                forall|a: int| 0 <= a < j ==> v@[a] != v@[i as int],
            decreases i - j,
        {
            if v[j] == v[i] {
                return false;
            }
            j = j + 1;
        }
        i = i + 1;
    }
    true
}

} // verus!
