//! The nodes of the tree: a region, the few items kept at it, and, once it
//! has overflowed, its four quarters.
use crate::geometry::{Item, Point, Rectangle};
use vstd::prelude::*;

verus! {

/// The number of items a node keeps before it splits.
pub const MAX_ITEMS: usize = 4;

/// What a node is: its region, its own items in the order they came, and its
/// four children once it has split.
pub struct NodeView {
    pub boundary: Rectangle,
    pub items: Seq<Item>,
    pub children: Option<Box<QuadView>>,
}

/// The four children of a split node, by position.
pub struct QuadView {
    pub nw: NodeView,
    pub ne: NodeView,
    pub sw: NodeView,
    pub se: NodeView,
}

/// The identifiers of those of `items` whose rectangle contains `point`, in
/// the order of `items`.
pub open spec fn hits(items: Seq<Item>, point: Point) -> Seq<u32> {
    items.filter(|it: Item| it.area.spec_contains(point)).map_values(|it: Item| it.id)
}

/// How often `id` occurs in `found`.
pub open spec fn occurrences(found: Seq<u32>, id: u32) -> nat
    decreases found.len(),
{
    if found.len() == 0 {
        0
    } else if found.last() == id {
        occurrences(found.drop_last(), id) + 1
    } else {
        occurrences(found.drop_last(), id)
    }
}

/// The larger of two numbers.
pub open spec fn larger(a: nat, b: nat) -> nat {
    if a >= b {
        a
    } else {
        b
    }
}

impl NodeView {
    /// The node without items or children that covers `boundary`.
    pub open spec fn leaf(boundary: Rectangle) -> NodeView {
        NodeView { boundary, items: Seq::empty(), children: None }
    }

    /// The four empty quarters of `boundary`.
    pub open spec fn quarters(boundary: Rectangle) -> QuadView {
        QuadView {
            nw: NodeView::leaf(boundary.quadrant(0)),
            ne: NodeView::leaf(boundary.quadrant(1)),
            sw: NodeView::leaf(boundary.quadrant(2)),
            se: NodeView::leaf(boundary.quadrant(3)),
        }
    }

    /// The number of splits on the longest way down from this node.
    pub open spec fn height(self) -> nat
        decreases self,
    {
        match self.children {
            None => 0,
            Some(q) => 1 + larger(
                larger(q.nw.height(), q.ne.height()),
                larger(q.sw.height(), q.se.height()),
            ),
        }
    }

    /// The node takes a further item itself: it has not split and is not full.
    pub open spec fn has_room(self) -> bool {
        self.items.len() < MAX_ITEMS && self.children.is_none()
    }

    /// The node after `rect` was inserted under `id`. A rectangle that does
    /// not intersect the region changes nothing. A node with room appends the
    /// item to its own. Any other node hands the rectangle to each of its four
    /// children, which it creates empty first if it has none, and keeps its
    /// own items as they are.
    pub open spec fn insert(self, rect: Rectangle, id: u32) -> NodeView
        decreases self.height(), self.items.len(),
    {
        if !self.boundary.spec_intersects(rect) {
            self
        } else if self.has_room() {
            NodeView { items: self.items.push(Item { area: rect, id }), ..self }
        } else {
            let q = match self.children {
                None => NodeView::quarters(self.boundary),
                Some(q) => *q,
            };
            NodeView {
                children: Some(
                    Box::new(
                        QuadView {
                            nw: q.nw.insert(rect, id),
                            ne: q.ne.insert(rect, id),
                            sw: q.sw.insert(rect, id),
                            se: q.se.insert(rect, id),
                        },
                    ),
                ),
                ..self
            }
        }
    }

    /// The number of nodes that keep `rect` when it is inserted here and that
    /// a query at `point` reaches and finds it in: nodes at which the
    /// insertion ends, whose region and the regions above it contain the
    /// point. A rectangle that lies across a split line is kept on both
    /// sides, and a point on the line reaches both.
    pub open spec fn placements(self, rect: Rectangle, point: Point) -> nat
        decreases self.height(), self.items.len(),
    {
        if !self.boundary.spec_intersects(rect) || !self.boundary.spec_contains(point) {
            0
        } else if self.has_room() {
            if rect.spec_contains(point) {
                1
            } else {
                0
            }
        } else {
            let q = match self.children {
                None => NodeView::quarters(self.boundary),
                Some(q) => *q,
            };
            q.nw.placements(rect, point) + q.ne.placements(rect, point) + q.sw.placements(
                rect,
                point,
            ) + q.se.placements(rect, point)
        }
    }

    /// The identifiers found at `point`: nothing outside the region; else the
    /// node's own hits, then those of the children from top left to bottom
    /// right. An identifier comes once for each place that holds it.
    pub open spec fn query(self, point: Point) -> Seq<u32>
        decreases self,
    {
        if !self.boundary.spec_contains(point) {
            Seq::empty()
        } else {
            match self.children {
                None => hits(self.items, point),
                Some(q) => hits(self.items, point) + q.nw.query(point) + q.ne.query(point)
                    + q.sw.query(point) + q.se.query(point),
            }
        }
    }

    /// No node holds more than `MAX_ITEMS` items, only a full node has split,
    /// and the children of a split node cover its four quarters.
    pub open spec fn wf(self) -> bool
        decreases self,
    {
        &&& self.items.len() <= MAX_ITEMS
        &&& match self.children {
            None => true,
            Some(q) => {
                &&& self.items.len() == MAX_ITEMS
                &&& q.nw.boundary == self.boundary.quadrant(0)
                &&& q.ne.boundary == self.boundary.quadrant(1)
                &&& q.sw.boundary == self.boundary.quadrant(2)
                &&& q.se.boundary == self.boundary.quadrant(3)
                &&& q.nw.wf()
                &&& q.ne.wf()
                &&& q.sw.wf()
                &&& q.se.wf()
            },
        }
    }

    /// Every identifier stored at or below this node is less than `bound`.
    pub open spec fn ids_below(self, bound: nat) -> bool
        decreases self,
    {
        &&& forall|i: int| 0 <= i < self.items.len() ==> (#[trigger] self.items[i]).id < bound
        &&& match self.children {
            None => true,
            Some(q) => q.nw.ids_below(bound) && q.ne.ids_below(bound) && q.sw.ids_below(bound)
                && q.se.ids_below(bound),
        }
    }
}

/// A node of the tree.
pub struct QuadTreeNode {
    boundary: Rectangle,
    items: Vec<Item>,
    children: Option<Box<Quadrants>>,
}

/// The four children of a node that has split.
pub struct Quadrants {
    nw: QuadTreeNode,
    ne: QuadTreeNode,
    sw: QuadTreeNode,
    se: QuadTreeNode,
}

impl QuadTreeNode {
    /// The node as a value: its region, its items and, recursively, its
    /// children.
    pub closed spec fn model(self) -> NodeView
        decreases self,
    {
        NodeView {
            boundary: self.boundary,
            items: self.items@,
            children: match self.children {
                None => None,
                Some(q) => Some(
                    Box::new(
                        QuadView {
                            nw: q.nw.model(),
                            ne: q.ne.model(),
                            sw: q.sw.model(),
                            se: q.se.model(),
                        },
                    ),
                ),
            },
        }
    }
}

impl View for QuadTreeNode {
    type V = NodeView;

    closed spec fn view(&self) -> NodeView {
        self.model()
    }
}

impl QuadTreeNode {
    /// An empty node that covers `boundary`.
    pub fn new(boundary: Rectangle) -> (node: QuadTreeNode)
        ensures
            node@ == NodeView::leaf(boundary),
            node@.wf(),
    {
        QuadTreeNode { boundary, items: Vec::new(), children: None }
    }

    /// The region that the node covers.
    pub fn boundary(&self) -> (r: Rectangle)
        ensures
            r == self@.boundary,
    {
        self.boundary
    }

    /// The number of items that the node holds itself.
    pub fn item_count(&self) -> (n: usize)
        ensures
            n == self@.items.len(),
    {
        self.items.len()
    }

    /// Whether the node has split.
    pub fn is_subdivided(&self) -> (r: bool)
        ensures
            r == self@.children.is_some(),
    {
        self.children.is_some()
    }

    /// Inserts `rect` under `id` at this node or below it.
    pub fn insert(&mut self, rect: &Rectangle, id: u32)
        ensures
            final(self)@ == old(self)@.insert(*rect, id),
            old(self)@.wf() ==> final(self)@.wf(),
        decreases old(self)@.height(), old(self)@.items.len(),
    {
        proof {
            if self@.wf() {
                lemma_insert_preserves_wf(self@, *rect, id);
            }
        }
        if !self.boundary.intersects(rect) {
            return;
        }
        if self.items.len() < MAX_ITEMS && self.children.is_none() {
            self.items.push(Item { area: *rect, id });
        } else {
            if self.children.is_none() {
                self.subdivide();
            }
            match &mut self.children {
                Some(q) => {
                    q.nw.insert(rect, id);
                    q.ne.insert(rect, id);
                    q.sw.insert(rect, id);
                    q.se.insert(rect, id);
                },
                None => {},
            }
        }
    }

    /// The identifiers of the items at or below this node that contain
    /// `point`.
    pub fn query_point(&self, point: &Point) -> (found: Vec<u32>)
        ensures
            found@ == self@.query(*point),
        decreases self,
    {
        let mut found: Vec<u32> = Vec::new();
        if !self.boundary.contains(point) {
            return found;
        }
        let mut i: usize = 0;
        while i < self.items.len()
            invariant
                i <= self.items.len(),
                found@ == hits(self.items@.take(i as int), *point),
            decreases self.items.len() - i,
        {
            let item = &self.items[i];
            proof {
                lemma_hits_push(self.items@.take(i as int), *item, *point);
                assert(self.items@.take(i as int).push(*item) =~= self.items@.take(i + 1));
            }
            if item.area.contains(point) {
                found.push(item.id);
            }
            i = i + 1;
        }
        assert(self.items@.take(i as int) =~= self.items@);
        match &self.children {
            Some(q) => {
                let mut part = q.nw.query_point(point);
                found.append(&mut part);
                let mut part = q.ne.query_point(point);
                found.append(&mut part);
                let mut part = q.sw.query_point(point);
                found.append(&mut part);
                let mut part = q.se.query_point(point);
                found.append(&mut part);
            },
            None => {},
        }
        found
    }

    /// Gives the node four empty children, one for each quarter of its
    /// region. Its own items stay.
    fn subdivide(&mut self)
        ensures
            final(self)@ == (NodeView {
                children: Some(Box::new(NodeView::quarters(old(self)@.boundary))),
                ..old(self)@
            }),
    {
        let (nw, ne, sw, se) = self.boundary.quarters();
        self.children = Some(
            Box::new(
                Quadrants {
                    nw: QuadTreeNode::new(nw),
                    ne: QuadTreeNode::new(ne),
                    sw: QuadTreeNode::new(sw),
                    se: QuadTreeNode::new(se),
                },
            ),
        );
    }
}

/// The hits of a sequence with one more item are the hits of the sequence,
/// and then the new item's identifier if its rectangle contains the point.
pub proof fn lemma_hits_push(items: Seq<Item>, item: Item, point: Point)
    ensures
        hits(items.push(item), point) == if item.area.spec_contains(point) {
            hits(items, point).push(item.id)
        } else {
            hits(items, point)
        },
        hits(Seq::empty(), point) == Seq::<u32>::empty(),
{
    let pred = |it: Item| it.area.spec_contains(point);
    let key = |it: Item| it.id;
    items.lemma_filter_push(item, pred);
    items.filter(pred).lemma_push_map_commute(key, item);
    reveal(Seq::filter);
    assert(Seq::<Item>::empty().filter(pred) =~= Seq::empty());
    assert(Seq::<Item>::empty().map_values(key) =~= Seq::<u32>::empty());
}

/// An identifier is among the hits exactly when one of the items carries it
/// and contains the point.
pub proof fn lemma_hits_contains(items: Seq<Item>, point: Point, id: u32)
    ensures
        hits(items, point).contains(id) <==> exists|i: int|
            0 <= i < items.len() && (#[trigger] items[i]).area.spec_contains(point) && items[i].id
                == id,
    decreases items.len(),
{
    lemma_hits_push(items, items[0], point);
    if items.len() > 0 {
        let front = items.drop_last();
        let last = items.last();
        assert(front.push(last) =~= items);
        lemma_hits_push(front, last, point);
        lemma_hits_contains(front, point, id);
        let found = hits(front, point);
        if hits(items, point).contains(id) {
            let k = choose|k: int| 0 <= k < hits(items, point).len() && hits(items, point)[k] == id;
            if k < found.len() {
                assert(found[k] == id);
                let i = choose|i: int|
                    0 <= i < front.len() && (#[trigger] front[i]).area.spec_contains(point)
                        && front[i].id == id;
                assert(items[i] == front[i]);
            } else {
                assert(items[items.len() - 1] == last);
            }
        }
        if exists|i: int|
            0 <= i < items.len() && (#[trigger] items[i]).area.spec_contains(point) && items[i].id
                == id {
            let i = choose|i: int|
                0 <= i < items.len() && (#[trigger] items[i]).area.spec_contains(point)
                    && items[i].id == id;
            if i < front.len() {
                assert(front[i] == items[i]);
                let k = choose|k: int| 0 <= k < found.len() && found[k] == id;
                assert(hits(items, point)[k] == id);
            } else {
                assert(hits(items, point)[found.len() as int] == id);
            }
        }
    }
}

/// What is in a concatenation is in one of its parts.
pub proof fn lemma_concat_contains(a: Seq<u32>, b: Seq<u32>, x: u32)
    ensures
        (a + b).contains(x) <==> a.contains(x) || b.contains(x),
{
    if a.contains(x) {
        let i = choose|i: int| 0 <= i < a.len() && a[i] == x;
        assert((a + b)[i] == x);
    }
    if b.contains(x) {
        let i = choose|i: int| 0 <= i < b.len() && b[i] == x;
        assert((a + b)[a.len() + i] == x);
    }
    if (a + b).contains(x) {
        let i = choose|i: int| 0 <= i < (a + b).len() && (a + b)[i] == x;
        if i < a.len() {
            assert(a[i] == x);
        } else {
            assert(b[i - a.len()] == x);
        }
    }
}

/// What one insertion does at the node it reaches. The region never changes.
/// A rectangle that does not intersect the region leaves the node as it was.
/// One that does is appended where the node has room; where it has none the
/// node has children afterwards and its own items are those it had. A node
/// that has split stays split, with the items it had when it split.
pub proof fn lemma_insert_at_node(n: NodeView, rect: Rectangle, id: u32)
    ensures
        n.insert(rect, id).boundary == n.boundary,
        !n.boundary.spec_intersects(rect) ==> n.insert(rect, id) == n,
        n.boundary.spec_intersects(rect) && n.has_room() ==> {
            &&& n.insert(rect, id).items == n.items.push(Item { area: rect, id })
            &&& n.insert(rect, id).children.is_none()
        },
        n.boundary.spec_intersects(rect) && !n.has_room() ==> {
            &&& n.insert(rect, id).items == n.items
            &&& n.insert(rect, id).children.is_some()
        },
        n.children.is_some() ==> {
            &&& n.insert(rect, id).items == n.items
            &&& n.insert(rect, id).children.is_some()
        },
{
}

/// Insertion keeps the tree well formed: no node ever holds more than
/// `MAX_ITEMS` items, and children stay the quarters of their parent.
pub proof fn lemma_insert_preserves_wf(n: NodeView, rect: Rectangle, id: u32)
    requires
        n.wf(),
    ensures
        n.insert(rect, id).wf(),
    decreases n.height(), n.items.len(),
{
    if n.boundary.spec_intersects(rect) && !n.has_room() {
        let q = match n.children {
            None => NodeView::quarters(n.boundary),
            Some(q) => *q,
        };
        lemma_insert_preserves_wf(q.nw, rect, id);
        lemma_insert_preserves_wf(q.ne, rect, id);
        lemma_insert_preserves_wf(q.sw, rect, id);
        lemma_insert_preserves_wf(q.se, rect, id);
        lemma_insert_at_node(q.nw, rect, id);
        lemma_insert_at_node(q.ne, rect, id);
        lemma_insert_at_node(q.sw, rect, id);
        lemma_insert_at_node(q.se, rect, id);
    }
}

/// Insertion under an identifier below `bound` keeps all identifiers below
/// it.
pub proof fn lemma_insert_preserves_ids_below(n: NodeView, rect: Rectangle, id: u32, bound: nat)
    requires
        n.ids_below(bound),
        id < bound,
    ensures
        n.insert(rect, id).ids_below(bound),
    decreases n.height(), n.items.len(),
{
    if n.boundary.spec_intersects(rect) && !n.has_room() {
        let q = match n.children {
            None => NodeView::quarters(n.boundary),
            Some(q) => *q,
        };
        lemma_insert_preserves_ids_below(q.nw, rect, id, bound);
        lemma_insert_preserves_ids_below(q.ne, rect, id, bound);
        lemma_insert_preserves_ids_below(q.sw, rect, id, bound);
        lemma_insert_preserves_ids_below(q.se, rect, id, bound);
    }
}

/// A query reports stored identifiers only.
pub proof fn lemma_query_ids_below(n: NodeView, point: Point, bound: nat, id: u32)
    requires
        n.ids_below(bound),
        n.query(point).contains(id),
    ensures
        id < bound,
    decreases n,
{
    let own = hits(n.items, point);
    lemma_hits_contains(n.items, point, id);
    match n.children {
        None => {},
        Some(q) => {
            let a = q.nw.query(point);
            let b = q.ne.query(point);
            let c = q.sw.query(point);
            let d = q.se.query(point);
            lemma_concat_contains(own + a + b + c, d, id);
            lemma_concat_contains(own + a + b, c, id);
            lemma_concat_contains(own + a, b, id);
            lemma_concat_contains(own, a, id);
            if a.contains(id) {
                lemma_query_ids_below(q.nw, point, bound, id);
            }
            if b.contains(id) {
                lemma_query_ids_below(q.ne, point, bound, id);
            }
            if c.contains(id) {
                lemma_query_ids_below(q.sw, point, bound, id);
            }
            if d.contains(id) {
                lemma_query_ids_below(q.se, point, bound, id);
            }
        },
    }
}

/// An insertion loses nothing and adds nothing but its own identifier:
/// whatever a query reported before, it reports afterwards, also of a node
/// that has split in between; and what it reports afterwards it reported
/// before, or is the identifier just inserted.
pub proof fn lemma_insert_keeps_results(
    n: NodeView,
    rect: Rectangle,
    id: u32,
    point: Point,
    other: u32,
)
    ensures
        n.query(point).contains(other) ==> n.insert(rect, id).query(point).contains(other),
        n.insert(rect, id).query(point).contains(other) ==> n.query(point).contains(other)
            || other == id,
    decreases n.height(), n.items.len(),
{
    let m = n.insert(rect, id);
    if !n.boundary.spec_contains(point) || !n.boundary.spec_intersects(rect) {
    } else if n.has_room() {
        lemma_hits_push(n.items, Item { area: rect, id }, point);
        let before = hits(n.items, point);
        if before.contains(other) {
            let k = choose|k: int| 0 <= k < before.len() && before[k] == other;
            assert(before.push(id)[k] == other);
        }
        if m.query(point).contains(other) && other != id {
            let k = choose|k: int| 0 <= k < m.query(point).len() && m.query(point)[k] == other;
            assert(before[k] == other);
        }
    } else {
        let q = match n.children {
            None => NodeView::quarters(n.boundary),
            Some(q) => *q,
        };
        lemma_insert_keeps_results(q.nw, rect, id, point, other);
        lemma_insert_keeps_results(q.ne, rect, id, point, other);
        lemma_insert_keeps_results(q.sw, rect, id, point, other);
        lemma_insert_keeps_results(q.se, rect, id, point, other);
        let own = hits(n.items, point);
        let a = q.nw.query(point);
        let b = q.ne.query(point);
        let c = q.sw.query(point);
        let d = q.se.query(point);
        let a2 = q.nw.insert(rect, id).query(point);
        let b2 = q.ne.insert(rect, id).query(point);
        let c2 = q.sw.insert(rect, id).query(point);
        let d2 = q.se.insert(rect, id).query(point);
        lemma_concat_contains(own + a + b + c, d, other);
        lemma_concat_contains(own + a + b, c, other);
        lemma_concat_contains(own + a, b, other);
        lemma_concat_contains(own, a, other);
        lemma_concat_contains(own + a2 + b2 + c2, d2, other);
        lemma_concat_contains(own + a2 + b2, c2, other);
        lemma_concat_contains(own + a2, b2, other);
        lemma_concat_contains(own, a2, other);
        assert(m.query(point) == own + a2 + b2 + c2 + d2);
        if n.children.is_none() {
            lemma_hits_push(Seq::empty(), Item { area: rect, id }, point);
            assert(!a.contains(other));
            assert(!b.contains(other));
            assert(!c.contains(other));
            assert(!d.contains(other));
        }
    }
}

/// An item that a node holds itself is reported at every point of the region
/// that it contains, whatever is inserted afterwards.
pub proof fn lemma_own_items_stay_found(
    n: NodeView,
    i: int,
    point: Point,
    rect: Rectangle,
    id: u32,
)
    requires
        0 <= i < n.items.len(),
        n.boundary.spec_contains(point),
        n.items[i].area.spec_contains(point),
    ensures
        n.query(point).contains(n.items[i].id),
        n.insert(rect, id).query(point).contains(n.items[i].id),
{
    let own = hits(n.items, point);
    lemma_hits_contains(n.items, point, n.items[i].id);
    match n.children {
        None => {},
        Some(q) => {
            let a = q.nw.query(point);
            let b = q.ne.query(point);
            let c = q.sw.query(point);
            let d = q.se.query(point);
            lemma_concat_contains(own + a + b + c, d, n.items[i].id);
            lemma_concat_contains(own + a + b, c, n.items[i].id);
            lemma_concat_contains(own + a, b, n.items[i].id);
            lemma_concat_contains(own, a, n.items[i].id);
        },
    }
    lemma_insert_keeps_results(n, rect, id, point, n.items[i].id);
}

/// Occurrences add up over a concatenation.
pub proof fn lemma_occurrences_concat(a: Seq<u32>, b: Seq<u32>, id: u32)
    ensures
        occurrences(a + b, id) == occurrences(a, id) + occurrences(b, id),
    decreases b.len(),
{
    if b.len() == 0 {
        assert(a + b =~= a);
    } else {
        lemma_occurrences_concat(a, b.drop_last(), id);
        assert((a + b).drop_last() =~= a + b.drop_last());
    }
}

/// An insertion adds its identifier to a query's answer once for every node
/// that keeps the rectangle and that the query finds it in, and changes the
/// number of no other identifier. So a rectangle that was kept on both sides
/// of a split line is reported twice at a point of that line.
pub proof fn lemma_insert_adds_placements(
    n: NodeView,
    rect: Rectangle,
    id: u32,
    point: Point,
    other: u32,
)
    ensures
        occurrences(n.insert(rect, id).query(point), other) == occurrences(n.query(point), other)
            + if other == id {
            n.placements(rect, point)
        } else {
            0
        },
    decreases n.height(), n.items.len(),
{
    let m = n.insert(rect, id);
    if !n.boundary.spec_contains(point) || !n.boundary.spec_intersects(rect) {
    } else if n.has_room() {
        lemma_hits_push(n.items, Item { area: rect, id }, point);
        let before = hits(n.items, point);
        assert(before.push(id).drop_last() =~= before);
    } else {
        let q = match n.children {
            None => NodeView::quarters(n.boundary),
            Some(q) => *q,
        };
        lemma_insert_adds_placements(q.nw, rect, id, point, other);
        lemma_insert_adds_placements(q.ne, rect, id, point, other);
        lemma_insert_adds_placements(q.sw, rect, id, point, other);
        lemma_insert_adds_placements(q.se, rect, id, point, other);
        let own = hits(n.items, point);
        let a = q.nw.query(point);
        let b = q.ne.query(point);
        let c = q.sw.query(point);
        let d = q.se.query(point);
        let a2 = q.nw.insert(rect, id).query(point);
        let b2 = q.ne.insert(rect, id).query(point);
        let c2 = q.sw.insert(rect, id).query(point);
        let d2 = q.se.insert(rect, id).query(point);
        lemma_occurrences_concat(own + a + b + c, d, other);
        lemma_occurrences_concat(own + a + b, c, other);
        lemma_occurrences_concat(own + a, b, other);
        lemma_occurrences_concat(own, a, other);
        lemma_occurrences_concat(own + a2 + b2 + c2, d2, other);
        lemma_occurrences_concat(own + a2 + b2, c2, other);
        lemma_occurrences_concat(own + a2, b2, other);
        lemma_occurrences_concat(own, a2, other);
        assert(m.query(point) == own + a2 + b2 + c2 + d2);
        if n.children.is_none() {
            lemma_hits_push(Seq::empty(), Item { area: rect, id }, point);
            assert(a.len() == 0 && b.len() == 0 && c.len() == 0 && d.len() == 0);
        }
    }
}

/// A split node whose top two children have room, a rectangle that both of
/// them take, and a point of the rectangle that both regions contain, as a
/// point of the line between them does: the rectangle comes at least twice
/// more.
pub proof fn lemma_split_line_duplicates(n: NodeView, rect: Rectangle, id: u32, point: Point)
    requires
        n.children.is_some(),
        n.boundary.spec_intersects(rect),
        n.boundary.spec_contains(point),
        rect.spec_contains(point),
        n.children.unwrap().nw.has_room(),
        n.children.unwrap().ne.has_room(),
        n.children.unwrap().nw.boundary.spec_intersects(rect),
        n.children.unwrap().ne.boundary.spec_intersects(rect),
        n.children.unwrap().nw.boundary.spec_contains(point),
        n.children.unwrap().ne.boundary.spec_contains(point),
    ensures
        occurrences(n.insert(rect, id).query(point), id) >= occurrences(n.query(point), id) + 2,
{
    let q = n.children.unwrap();
    assert(q.nw.placements(rect, point) == 1);
    assert(q.ne.placements(rect, point) == 1);
    assert(n.placements(rect, point) == 2 + q.sw.placements(rect, point) + q.se.placements(
        rect,
        point,
    ));
    lemma_insert_adds_placements(n, rect, id, point, id);
}

} // verus!
