use vstd::prelude::*;

use crate::geometry::{lemma_split_partitions, split_rect, split_rect_spec, Rect};
use crate::node::Node;
use crate::shape::{wf_shape, Shape};

verus! {

/// Each pane paired with its group's rectangle, in tree order.
pub open spec fn layout_spec(s: Shape, r: Rect) -> Seq<(u64, Rect)>
    decreases s,
{
    match s {
        Shape::Split { orientation, ratio, first, second } => {
            let parts = split_rect_spec(r, orientation, ratio);
            layout_spec(*first, parts.0) + layout_spec(*second, parts.1)
        },
        Shape::Group { panes, .. } => panes.map_values(|p: u64| (p, r)),
    }
}

/// Each group id paired with its rectangle, in tree order.
pub open spec fn group_rects(s: Shape, r: Rect) -> Seq<(u64, Rect)>
    decreases s,
{
    match s {
        Shape::Split { orientation, ratio, first, second } => {
            let parts = split_rect_spec(r, orientation, ratio);
            group_rects(*first, parts.0) + group_rects(*second, parts.1)
        },
        Shape::Group { id, .. } => seq![(id, r)],
    }
}

/// Which part of a group's rectangle a point falls in, for redocking.
#[derive(Clone, Copy, Debug, PartialEq, Eq, Structural)]
pub enum DropZone {
    Center,
    Left,
    Right,
    Top,
    Bottom,
}

/// A point's zone: the outer quarter of each side, left and right first.
pub open spec fn zone_spec(r: Rect, px: int, py: int) -> DropZone {
    if px < r.x + r.width / 4 {
        DropZone::Left
    } else if px >= r.x + r.width - r.width / 4 {
        DropZone::Right
    } else if py < r.y + r.height / 4 {
        DropZone::Top
    } else if py >= r.y + r.height - r.height / 4 {
        DropZone::Bottom
    } else {
        DropZone::Center
    }
}

/// The group whose rectangle holds the point, with that rectangle.
pub open spec fn hit_spec(s: Shape, r: Rect, px: int, py: int) -> Option<(u64, Rect)>
    decreases s,
{
    if !r.contains(px, py) {
        None
    } else {
        match s {
            Shape::Split { orientation, ratio, first, second } => {
                let parts = split_rect_spec(r, orientation, ratio);
                if parts.0.contains(px, py) {
                    hit_spec(*first, parts.0, px, py)
                } else {
                    hit_spec(*second, parts.1, px, py)
                }
            },
            Shape::Group { id, .. } => Some((id, r)),
        }
    }
}

/// Appends the layout of `n` within `r` to `out`.
pub fn layout_node(n: &Node, r: Rect, out: &mut Vec<(u64, Rect)>)
    requires
        wf_shape(n.shape()),
        r.fits(),
    ensures
        final(out)@ == old(out)@ + layout_spec(n.shape(), r),
    decreases n,
{
    match n {
        Node::Split { orientation, ratio, first, second } => {
            let parts = split_rect(r, *orientation, *ratio);
            proof {
                lemma_split_partitions(r, *orientation, *ratio);
            }
            layout_node(first, parts.0, out);
            layout_node(second, parts.1, out);
            assert(out@ =~= old(out)@ + layout_spec(n.shape(), r));
        },
        Node::Group { panes, .. } => {
            let ghost start = out@;
            let mut i: usize = 0;
            while i < panes.len()
                invariant
                    i <= panes@.len(),
                    out@ =~= start + panes@.subrange(0, i as int).map_values(|p: u64| (p, r)),
                decreases panes@.len() - i,
            {
                out.push((panes[i], r));
                i = i + 1;
                assert(panes@.subrange(0, i as int).map_values(|p: u64| (p, r)) =~= panes@.subrange(
                    0,
                    i - 1,
                ).map_values(|p: u64| (p, r)).push((panes@[i - 1], r)));
            }
            assert(panes@.subrange(0, panes@.len() as int) =~= panes@);
        },
    }
}

/// The group under the point within `r`, if any.
pub fn hit_node(n: &Node, r: Rect, px: u32, py: u32) -> (res: Option<(u64, Rect)>)
    requires
        wf_shape(n.shape()),
        r.fits(),
    ensures
        res == hit_spec(n.shape(), r, px as int, py as int),
    decreases n,
{
    if !r.contains_point(px, py) {
        return None;
    }
    match n {
        Node::Split { orientation, ratio, first, second } => {
            let parts = split_rect(r, *orientation, *ratio);
            proof {
                lemma_split_partitions(r, *orientation, *ratio);
            }
            if parts.0.contains_point(px, py) {
                hit_node(first, parts.0, px, py)
            } else {
                hit_node(second, parts.1, px, py)
            }
        },
        Node::Group { id, .. } => Some((*id, r)),
    }
}

/// The drop zone of a point inside `r`.
pub fn zone_of(r: Rect, px: u32, py: u32) -> (z: DropZone)
    requires
        r.fits(),
        r.contains(px as int, py as int),
    ensures
        z == zone_spec(r, px as int, py as int),
{
    if px - r.x < r.width / 4 {
        DropZone::Left
    } else if px - r.x >= r.width - r.width / 4 {
        DropZone::Right
    } else if py - r.y < r.height / 4 {
        DropZone::Top
    } else if py - r.y >= r.height - r.height / 4 {
        DropZone::Bottom
    } else {
        DropZone::Center
    }
}

/// The rectangle that a hit reports fits and holds the point.
pub proof fn lemma_hit_inside(s: Shape, r: Rect, px: int, py: int)
    requires
        wf_shape(s),
        r.fits(),
    ensures
        match hit_spec(s, r, px, py) {
            Some((g, rect)) => rect.fits() && rect.contains(px, py),
            None => !r.contains(px, py),
        },
    decreases s,
{
    match s {
        Shape::Split { orientation, ratio, first, second } => {
            lemma_split_partitions(r, orientation, ratio);
            let parts = split_rect_spec(r, orientation, ratio);
            lemma_hit_inside(*first, parts.0, px, py);
            lemma_hit_inside(*second, parts.1, px, py);
        },
        Shape::Group { .. } => {},
    }
}

} // verus!
