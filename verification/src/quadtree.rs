//! The tree as its owner sees it: one root node over a fixed region, and the
//! counter that numbers the rectangles in the order they are inserted.
use crate::binary32::Binary32;
pub use crate::geometry::{Item, Point, Rectangle, Size};
use crate::node::{
    lemma_insert_keeps_results, lemma_insert_preserves_ids_below, lemma_insert_preserves_wf,
    lemma_query_ids_below, NodeView, QuadTreeNode,
};
use vstd::prelude::*;

verus! {

/// What a tree is: the identifier that the next rectangle will get, and the
/// root node.
pub struct TreeView {
    pub next_id: nat,
    pub root: NodeView,
}

/// The rectangles that a flat sequence of numbers spells, four numbers each:
/// left edge, top edge, width, height. Up to three numbers left over at the
/// end spell nothing.
pub open spec fn rectangles_of(flat: Seq<Binary32>) -> Seq<Rectangle> {
    Seq::new(
        flat.len() / 4,
        |k: int| Rectangle::at(flat[4 * k], flat[4 * k + 1], flat[4 * k + 2], flat[4 * k + 3]),
    )
}

impl TreeView {
    /// The tree over `boundary` that holds nothing yet.
    pub open spec fn empty(boundary: Rectangle) -> TreeView {
        TreeView { next_id: 0, root: NodeView::leaf(boundary) }
    }

    /// The tree after `rect` was inserted: it got the identifier `next_id`,
    /// whether or not any node kept it.
    pub open spec fn insert(self, rect: Rectangle) -> TreeView {
        TreeView { next_id: self.next_id + 1, root: self.root.insert(rect, self.next_id as u32) }
    }

    /// The tree after the rectangles were inserted one after the other.
    pub open spec fn insert_each(self, rects: Seq<Rectangle>) -> TreeView
        decreases rects.len(),
    {
        if rects.len() == 0 {
            self
        } else {
            self.insert_each(rects.drop_last()).insert(rects.last())
        }
    }

    /// The tree after the rectangles that `flat` spells were inserted.
    pub open spec fn insert_many(self, flat: Seq<Binary32>) -> TreeView {
        self.insert_each(rectangles_of(flat))
    }

    /// The identifiers found at `point`.
    pub open spec fn query(self, point: Point) -> Seq<u32> {
        self.root.query(point)
    }

    /// The nodes are well formed, and every stored identifier has been given
    /// out already.
    pub open spec fn wf(self) -> bool {
        &&& self.root.wf()
        &&& self.root.ids_below(self.next_id)
        &&& self.next_id <= u32::MAX
    }
}

/// A quadtree of rectangles over a fixed region.
pub struct QuadTree {
    next_id: u32,
    root: QuadTreeNode,
}

impl View for QuadTree {
    type V = TreeView;

    closed spec fn view(&self) -> TreeView {
        TreeView { next_id: self.next_id as nat, root: self.root@ }
    }
}

impl QuadTree {
    /// An empty tree over `boundary`.
    pub fn new(boundary: Rectangle) -> (tree: QuadTree)
        ensures
            tree@ == TreeView::empty(boundary),
            tree@.wf(),
    {
        QuadTree { next_id: 0, root: QuadTreeNode::new(boundary) }
    }

    /// The identifier that the next rectangle will get.
    pub fn next_id(&self) -> (id: u32)
        ensures
            id == self@.next_id,
    {
        self.next_id
    }

    /// The root node.
    pub fn root(&self) -> (node: &QuadTreeNode)
        ensures
            node@ == self@.root,
    {
        &self.root
    }

    /// Inserts the rectangles that `rects` spells, four numbers each, in
    /// their order; numbers left over at the end are ignored.
    pub fn insert_many(&mut self, rects: &[Binary32])
        requires
            old(self)@.next_id + rects@.len() / 4 <= u32::MAX,
        ensures
            final(self)@ == old(self)@.insert_many(rects@),
            final(self)@.next_id == old(self)@.next_id + rects@.len() / 4,
            old(self)@.wf() ==> final(self)@.wf(),
    {
        let ghost before = self@;
        let ghost spelled = rectangles_of(rects@);
        let ghost mut k: int = 0;
        let mut i: usize = 0;
        while rects.len() - i >= 4
            invariant
                i <= rects.len(),
                i == 4 * k,
                spelled == rectangles_of(rects@),
                self@ == before.insert_each(spelled.take(k)),
                self@.next_id == before.next_id + k,
                before.next_id + rects@.len() / 4 <= u32::MAX,
                before.wf() ==> self@.wf(),
            decreases rects.len() - i,
        {
            let rect = Rectangle {
                top_left: Point { x: rects[i], y: rects[i + 1] },
                size: Size { width: rects[i + 2], height: rects[i + 3] },
            };
            self.insert(rect);
            proof {
                assert(spelled.take(k + 1).drop_last() =~= spelled.take(k));
                assert(spelled.take(k + 1).last() == rect);
                k = k + 1;
            }
            i = i + 4;
        }
        assert(spelled.take(k) =~= spelled);
    }

    /// Inserts `rect` and returns the identifier it was given. The identifier
    /// is used up even where no node keeps the rectangle.
    pub fn insert(&mut self, rect: Rectangle) -> (id: u32)
        requires
            old(self)@.next_id < u32::MAX,
        ensures
            id == old(self)@.next_id,
            final(self)@ == old(self)@.insert(rect),
            old(self)@.wf() ==> final(self)@.wf(),
    {
        let id = self.next_id;
        proof {
            if self@.wf() {
                lemma_tree_insert_preserves_wf(self@, rect);
            }
        }
        self.root.insert(&rect, id);
        self.next_id = id + 1;
        id
    }

    /// The identifiers of the stored rectangles that contain `point`, in the
    /// order in which the nodes are visited. An identifier comes once for
    /// each node that holds it.
    pub fn query_point(&self, point: &Point) -> (found: Vec<u32>)
        ensures
            found@ == self@.query(*point),
    {
        self.root.query_point(point)
    }
}

/// Identifiers run up one by one: the rectangle at position `k` of a run gets
/// the identifier `next_id + k`, whether it is kept or not, and the counter
/// ends up ahead by the length of the run.
pub proof fn lemma_insert_each_numbers(t: TreeView, rects: Seq<Rectangle>, k: int)
    requires
        0 <= k < rects.len(),
    ensures
        t.insert_each(rects.take(k)).next_id == t.next_id + k,
        t.insert_each(rects.take(k + 1)) == t.insert_each(rects.take(k)).insert(rects[k]),
        t.insert_each(rects).next_id == t.next_id + rects.len(),
{
    lemma_insert_each_counts(t, rects.take(k));
    lemma_insert_each_counts(t, rects);
    assert(rects.take(k + 1).drop_last() =~= rects.take(k));
}

/// A run of insertions moves the counter ahead by its length.
pub proof fn lemma_insert_each_counts(t: TreeView, rects: Seq<Rectangle>)
    ensures
        t.insert_each(rects).next_id == t.next_id + rects.len(),
    decreases rects.len(),
{
    if rects.len() > 0 {
        lemma_insert_each_counts(t, rects.drop_last());
    }
}

/// Inserting one run and then another is inserting the two as one run; a
/// single insertion is a run of one.
pub proof fn lemma_insert_each_concat(t: TreeView, a: Seq<Rectangle>, b: Seq<Rectangle>)
    ensures
        t.insert_each(a + b) == t.insert_each(a).insert_each(b),
        t.insert_each(seq![b[0]]) == t.insert(b[0]),
    decreases b.len(),
{
    assert(seq![b[0]].drop_last() =~= Seq::<Rectangle>::empty());
    assert(t.insert_each(seq![b[0]].drop_last()) == t);
    if b.len() == 0 {
        assert(a + b =~= a);
    } else {
        lemma_insert_each_concat(t, a, b.drop_last());
        assert((a + b).drop_last() =~= a + b.drop_last());
    }
}

/// An insertion keeps a tree well formed: the new identifier is the only one
/// that was not below the counter, and the counter moves past it.
pub proof fn lemma_tree_insert_preserves_wf(t: TreeView, rect: Rectangle)
    requires
        t.wf(),
        t.next_id < u32::MAX,
    ensures
        t.insert(rect).wf(),
{
    lemma_insert_preserves_wf(t.root, rect, t.next_id as u32);
    lemma_raise_bound(t.root, t.next_id, t.next_id + 1);
    lemma_insert_preserves_ids_below(t.root, rect, t.next_id as u32, t.next_id + 1);
}

/// Identifiers below one bound are below every larger one.
proof fn lemma_raise_bound(n: NodeView, low: nat, high: nat)
    requires
        n.ids_below(low),
        low <= high,
    ensures
        n.ids_below(high),
    decreases n,
{
    match n.children {
        None => {},
        Some(q) => {
            lemma_raise_bound(q.nw, low, high);
            lemma_raise_bound(q.ne, low, high);
            lemma_raise_bound(q.sw, low, high);
            lemma_raise_bound(q.se, low, high);
        },
    }
}

/// A query reports only identifiers that have been given out.
pub proof fn lemma_results_were_given_out(t: TreeView, point: Point, id: u32)
    requires
        t.wf(),
        t.query(point).contains(id),
    ensures
        id < t.next_id,
{
    lemma_query_ids_below(t.root, point, t.next_id, id);
}

/// An identifier that has been given out and that a query at `point` does not
/// report is not reported after any run of further insertions either.
pub proof fn lemma_absent_stays_absent(t: TreeView, later: Seq<Rectangle>, point: Point, id: u32)
    requires
        id < t.next_id,
        t.next_id + later.len() <= u32::MAX,
        !t.query(point).contains(id),
    ensures
        !t.insert_each(later).query(point).contains(id),
    decreases later.len(),
{
    if later.len() > 0 {
        let u = t.insert_each(later.drop_last());
        lemma_absent_stays_absent(t, later.drop_last(), point, id);
        lemma_insert_each_counts(t, later.drop_last());
        lemma_insert_keeps_results(u.root, later.last(), u.next_id as u32, point, id);
    }
}

/// A rectangle that does not intersect the region of the tree uses up an
/// identifier and leaves the nodes as they were, so that every query answers
/// as before; and no query ever reports its identifier, whatever is inserted
/// afterwards.
pub proof fn lemma_outside_is_silent(
    t: TreeView,
    rect: Rectangle,
    later: Seq<Rectangle>,
    point: Point,
)
    requires
        t.wf(),
        !t.root.boundary.spec_intersects(rect),
        t.next_id + 1 + later.len() <= u32::MAX,
    ensures
        t.insert(rect).root == t.root,
        t.insert(rect).next_id == t.next_id + 1,
        t.insert(rect).query(point) == t.query(point),
        !t.insert(rect).insert_each(later).query(point).contains(t.next_id as u32),
{
    if t.query(point).contains(t.next_id as u32) {
        lemma_results_were_given_out(t, point, t.next_id as u32);
    }
    lemma_absent_stays_absent(t.insert(rect), later, point, t.next_id as u32);
}

/// A rectangle that was found at `point` is found there after any run of
/// further insertions.
pub proof fn lemma_found_stays_found(t: TreeView, later: Seq<Rectangle>, point: Point, id: u32)
    requires
        t.query(point).contains(id),
    ensures
        t.insert_each(later).query(point).contains(id),
    decreases later.len(),
{
    if later.len() > 0 {
        let u = t.insert_each(later.drop_last());
        lemma_found_stays_found(t, later.drop_last(), point, id);
        lemma_insert_keeps_results(u.root, later.last(), u.next_id as u32, point, id);
    }
}

} // verus!
