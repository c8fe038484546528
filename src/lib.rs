//! A discrete interval encoding tree: a set of `i32` values stored as the
//! minimal collection of maximal, pairwise disjoint, non-adjacent closed
//! segments, kept in an (unbalanced) binary search tree.
use vstd::prelude::*;

verus! {

/// A closed interval `[left, right]` of `i32` values, with `left <= right`.
#[derive(PartialEq, Eq, Structural, PartialOrd, Ord, Debug)]
pub struct Segment {
    left: i32,
    right: i32,
}

impl Segment {
    /// The lower bound, as a mathematical integer.
    pub closed spec fn lo(&self) -> int {
        self.left as int
    }

    /// The upper bound, as a mathematical integer.
    pub closed spec fn hi(&self) -> int {
        self.right as int
    }

    /// A segment is well formed when it is not empty.
    pub open spec fn wf(&self) -> bool {
        self.lo() <= self.hi()
    }

    /// Whether `v` lies in the segment.
    pub open spec fn has(&self, v: int) -> bool {
        self.lo() <= v <= self.hi()
    }

    /// The values of the segment.
    pub open spec fn values(&self) -> Set<int> {
        Set::new(|v: int| self.has(v))
    }

    /// The segment as a pair of bounds.
    pub open spec fn bounds(&self) -> (int, int) {
        (self.lo(), self.hi())
    }

    /// The segment `[left, right]`; an empty one cannot be built.
    pub fn new(left: i32, right: i32) -> (r: Segment)
        requires
            left <= right,
        ensures
            r.lo() == left as int,
            r.hi() == right as int,
            r.wf(),
    {
        Segment { left, right }
    }

    /// Returns `true` if the segment contains `value`.
    pub fn contains(&self, value: &i32) -> (r: bool)
        ensures
            r == self.has(*value as int),
    {
        self.left <= *value && *value <= self.right
    }

    pub fn left(&self) -> (r: &i32)
        ensures
            *r as int == self.lo(),
    {
        &self.left
    }

    pub fn right(&self) -> (r: &i32)
        ensures
            *r as int == self.hi(),
    {
        &self.right
    }
}


type Link = Option<Box<Node>>;

/// A node of a `Diet`: a stored segment and the two subtrees around it.
pub struct Node {
    segment: Segment,
    left: Link,
    right: Link,
}

/// Whether the subtree `link` holds the value `v`.
pub closed spec fn link_has(link: Link, v: int) -> bool
    decreases link,
{
    match link {
        None => false,
        Some(n) => n.has(v),
    }
}

/// The bounds of the segments of `link`, in order.
pub closed spec fn link_segs(link: Link) -> Seq<(int, int)>
    decreases link,
{
    match link {
        None => Seq::empty(),
        Some(n) => link_segs(n.left).push(n.segment.bounds()) + link_segs(n.right),
    }
}

/// Whether every node of `link` is well formed.
pub closed spec fn link_wf(link: Link) -> bool
    decreases link,
{
    match link {
        None => true,
        Some(n) => n.wf(),
    }
}

/// The nodes on the left spine of `link`, from its root down to the node
/// that holds its lowest segment.
pub closed spec fn left_spine(link: Link) -> Seq<Node>
    decreases link,
{
    match link {
        None => Seq::empty(),
        Some(n) => seq![*n] + left_spine(n.left),
    }
}

/// The number of nodes of `link`.
pub closed spec fn link_size(link: Link) -> nat
    decreases link,
{
    match link {
        None => 0,
        Some(n) => 1 + link_size(n.left) + link_size(n.right),
    }
}

impl Node {
    /// The node's own segment.
    pub closed spec fn stored(&self) -> Segment {
        self.segment
    }

    /// The subtree below the node's segment.
    pub closed spec fn left_link(&self) -> Link {
        self.left
    }

    /// The subtree above the node's segment.
    pub closed spec fn right_link(&self) -> Link {
        self.right
    }

    /// Whether the subtree rooted at this node holds `v`.
    pub closed spec fn has(&self, v: int) -> bool
        decreases *self,
    {
        self.segment.has(v) || link_has(self.left, v) || link_has(self.right, v)
    }

    /// The segment is well formed, the left subtree lies below it and the
    /// right subtree above it, each with a gap of at least one value, and
    /// both subtrees are well formed.
    pub closed spec fn wf(&self) -> bool
        decreases *self,
    {
        &&& self.segment.wf()
        &&& forall|v: int| #[trigger] link_has(self.left, v) ==> v <= self.segment.lo() - 2
        &&& forall|v: int| #[trigger] link_has(self.right, v) ==> v >= self.segment.hi() + 2
        &&& link_wf(self.left)
        &&& link_wf(self.right)
    }

    pub fn new(segment: Segment) -> (r: Node)
        requires
            segment.wf(),
        ensures
            r.wf(),
            forall|v: int| r.has(v) == segment.has(v),
    {
        Node { segment, left: None, right: None }
    }

    /// Removes from `link` the segments that reach `left` or touch it from
    /// below, and returns the lowest value of the run of values that then
    /// ends just below `left`: the new lower bound of a segment that is
    /// extended down to `left`.
    pub fn consume_left_link(link: &mut Link, left: i32) -> (r: i32)
        requires
            link_wf(*old(link)),
        ensures
            link_wf(*final(link)),
            r <= left,
            r == left || link_has(*old(link), r as int),
            forall|v: int| #[trigger] link_has(*final(link), v) ==> v <= r - 2,
            forall|v: int|
                (link_has(*final(link), v) || r <= v) == (#[trigger] link_has(*old(link), v) || left <= v),
            (forall|v: int| #[trigger] link_has(*old(link), v) ==> v <= left - 2) ==> *final(link)
                == *old(link),
        decreases *old(link),
    {
        match link.take() {
            None => left,
            Some(mut node) => {
                let ghost n0 = *node;
                proof {
                    assert(*old(link) == Some(Box::new(n0)));
                    assert(n0.wf());
                }
                if (node.segment.right as i64) + 1 < left as i64 {
                    let r = Node::consume_left_link(&mut node.right, left);
                    proof {
                        assert forall|v: int| #[trigger] link_has(node.right, v) implies v
                            >= n0.segment.hi() + 2 by {
                            assert(link_has(n0.right, v) || left <= v);
                        }
                        if r != left {
                            assert(link_has(n0.right, r as int));
                        }
                    }
                    let ghost n1 = *node;
                    *link = Some(node);
                    proof {
                        assert(*link == Some(Box::new(n1)));
                        assert(forall|v: int| link_has(*link, v) == #[trigger] n1.has(v));
                        assert(n1.segment == n0.segment && n1.left == n0.left);
                        assert(r >= n0.segment.hi() + 2);
                        assert(link_wf(*link));
                        assert forall|v: int| #[trigger] link_has(*link, v) implies v <= r - 2 by {
                            assert(n1.has(v));
                            if n1.segment.has(v) {
                                assert(v <= r - 2);
                            } else if link_has(n1.left, v) {
                                assert(v <= r - 2);
                            } else {
                                assert(link_has(n1.right, v));
                                assert(v <= r - 2);
                            }
                        }
                        assert forall|v: int|
                            (link_has(*link, v) || r <= v) == (#[trigger] link_has(Some(Box::new(n0)), v) || left <= v) by {
                            assert(n1.has(v) == link_has(*link, v));
                            assert(n0.has(v) == link_has(Some(Box::new(n0)), v));
                            assert((link_has(n1.right, v) || r <= v) == (link_has(n0.right, v) || left
                                <= v));
                            if link_has(n0.left, v) {
                                assert(v <= n0.segment.lo() - 2);
                            }
                        }
                        if forall|v: int| #[trigger] link_has(*old(link), v) ==> v <= left - 2 {
                            assert forall|v: int| #[trigger] link_has(n0.right, v) implies v <= left - 2 by {
                                assert(n0.has(v) == link_has(Some(Box::new(n0)), v));
                            }
                            assert(n1 == n0);
                        }
                    }
                    r
                } else {
                    let lo = node.segment.left;
                    *link = node.left.take();
                    proof {
                        assert(n0.has(n0.segment.hi()) == link_has(*old(link), n0.segment.hi()));
                        assert forall|v: int| #[trigger] link_has(n0.right, v) implies left <= v by {}
                    }
                    if left < lo {
                        let r = Node::consume_left_link(link, left);
                        proof {
                            assert forall|v: int|
                                (link_has(*link, v) || r <= v) == (#[trigger] link_has(Some(Box::new(n0)), v) || left <= v) by {
                                assert(n0.has(v) == link_has(Some(Box::new(n0)), v));
                                assert((link_has(*link, v) || r <= v) == (link_has(n0.left, v) || left
                                    <= v));
                                if link_has(n0.right, v) {
                                    assert(left <= v);
                                }
                            }
                        }
                        r
                    } else {
                        proof {
                            assert forall|v: int|
                                (link_has(*link, v) || lo <= v) == (#[trigger] link_has(Some(Box::new(n0)), v) || left <= v) by {
                                assert(n0.has(v) == link_has(Some(Box::new(n0)), v));
                                if link_has(n0.right, v) {
                                    assert(left <= v);
                                }
                                if link_has(n0.left, v) {
                                    assert(v <= lo - 2);
                                }
                            }
                        }
                        lo
                    }
                }
            },
        }
    }

    /// Mirror image of `consume_left_link`: removes from `link` the segments
    /// that reach `right` or touch it from above, and returns the new upper
    /// bound of a segment extended up to `right`.
    pub fn consume_right_link(link: &mut Link, right: i32) -> (r: i32)
        requires
            link_wf(*old(link)),
        ensures
            link_wf(*final(link)),
            r >= right,
            r == right || link_has(*old(link), r as int),
            forall|v: int| #[trigger] link_has(*final(link), v) ==> v >= r + 2,
            forall|v: int|
                (link_has(*final(link), v) || v <= r) == (#[trigger] link_has(*old(link), v) || v <= right),
            (forall|v: int| #[trigger] link_has(*old(link), v) ==> v >= right + 2) ==> *final(link)
                == *old(link),
        decreases *old(link),
    {
        match link.take() {
            None => right,
            Some(mut node) => {
                let ghost n0 = *node;
                proof {
                    assert(*old(link) == Some(Box::new(n0)));
                    assert(n0.wf());
                }
                if (node.segment.left as i64) - 1 > right as i64 {
                    let r = Node::consume_right_link(&mut node.left, right);
                    proof {
                        assert forall|v: int| #[trigger] link_has(node.left, v) implies v
                            <= n0.segment.lo() - 2 by {
                            assert(link_has(n0.left, v) || v <= right);
                        }
                        if r != right {
                            assert(link_has(n0.left, r as int));
                        }
                    }
                    let ghost n1 = *node;
                    *link = Some(node);
                    proof {
                        assert(*link == Some(Box::new(n1)));
                        assert(forall|v: int| link_has(*link, v) == #[trigger] n1.has(v));
                        assert(n1.segment == n0.segment && n1.right == n0.right);
                        assert(r <= n0.segment.lo() - 2);
                        assert(link_wf(*link));
                        assert forall|v: int| #[trigger] link_has(*link, v) implies v >= r + 2 by {
                            assert(n1.has(v));
                            if n1.segment.has(v) {
                                assert(v >= r + 2);
                            } else if link_has(n1.right, v) {
                                assert(v >= r + 2);
                            } else {
                                assert(link_has(n1.left, v));
                                assert(v >= r + 2);
                            }
                        }
                        assert forall|v: int|
                            (link_has(*link, v) || v <= r) == (#[trigger] link_has(Some(Box::new(n0)), v) || v <= right) by {
                            assert(n1.has(v) == link_has(*link, v));
                            assert(n0.has(v) == link_has(Some(Box::new(n0)), v));
                            assert((link_has(n1.left, v) || v <= r) == (link_has(n0.left, v) || v
                                <= right));
                            if link_has(n0.right, v) {
                                assert(v >= n0.segment.hi() + 2);
                            }
                        }
                        if forall|v: int| #[trigger] link_has(*old(link), v) ==> v >= right + 2 {
                            assert forall|v: int| #[trigger] link_has(n0.left, v) implies v >= right + 2 by {
                                assert(n0.has(v) == link_has(Some(Box::new(n0)), v));
                            }
                            assert(n1 == n0);
                        }
                    }
                    r
                } else {
                    let hi = node.segment.right;
                    *link = node.right.take();
                    proof {
                        assert(n0.has(n0.segment.lo()) == link_has(*old(link), n0.segment.lo()));
                        assert forall|v: int| #[trigger] link_has(n0.left, v) implies v <= right by {}
                    }
                    if right > hi {
                        let r = Node::consume_right_link(link, right);
                        proof {
                            assert forall|v: int|
                                (link_has(*link, v) || v <= r) == (#[trigger] link_has(Some(Box::new(n0)), v) || v <= right) by {
                                assert(n0.has(v) == link_has(Some(Box::new(n0)), v));
                                assert((link_has(*link, v) || v <= r) == (link_has(n0.right, v) || v
                                    <= right));
                                if link_has(n0.left, v) {
                                    assert(v <= right);
                                }
                            }
                        }
                        r
                    } else {
                        proof {
                            assert forall|v: int|
                                (link_has(*link, v) || v <= hi) == (#[trigger] link_has(Some(Box::new(n0)), v) || v <= right) by {
                                assert(n0.has(v) == link_has(Some(Box::new(n0)), v));
                                if link_has(n0.left, v) {
                                    assert(v <= right);
                                }
                                if link_has(n0.right, v) {
                                    assert(v >= hi + 2);
                                }
                            }
                        }
                        hi
                    }
                }
            },
        }
    }

    /// Inserts `segment` into the subtree `link`, or makes it the subtree's
    /// only node if `link` is empty.
    pub fn insert_link(link: &mut Link, segment: Segment)
        requires
            link_wf(*old(link)),
            segment.wf(),
        ensures
            link_wf(*final(link)),
            final(link).is_some(),
            forall|v: int| #[trigger] link_has(*final(link), v) == (link_has(*old(link), v) || segment.has(v)),
        decreases *old(link),
    {
        match link.take() {
            None => {
                let n = Node::new(segment);
                *link = Some(Box::new(n));
                proof {
                    assert forall|v: int| #[trigger] link_has(*link, v) == segment.has(v) by {
                        assert(n.has(v) == link_has(*link, v));
                    }
                }
            },
            Some(mut node) => {
                let ghost n0 = *node;
                proof {
                    assert(*old(link) == Some(Box::new(n0)));
                }
                (&mut *node).insert(segment);
                let ghost n1 = *node;
                *link = Some(node);
                proof {
                    assert(*link == Some(Box::new(n1)));
                    assert forall|v: int| #[trigger] link_has(*link, v) == (link_has(*old(link), v) || segment.has(v)) by {
                        assert(n1.has(v) == link_has(*link, v));
                        assert(n0.has(v) == link_has(*old(link), v));
                    }
                }
            },
        }
    }

    /// Adds the values of `segment` to the subtree rooted at this node,
    /// merging it with every stored segment that it overlaps or touches.
    pub fn insert(&mut self, segment: Segment)
        requires
            old(self).wf(),
            segment.wf(),
        ensures
            final(self).wf(),
            forall|v: int| #[trigger] final(self).has(v) == (old(self).has(v) || segment.has(v)),
            final(self).stored().lo() <= old(self).stored().lo(),
            final(self).stored().hi() >= old(self).stored().hi(),
            segment.lo() <= old(self).stored().hi() + 1 && old(self).stored().lo() <= segment.hi() + 1
                ==> final(self).stored().lo() <= segment.lo() && final(self).stored().hi()
                >= segment.hi(),
            segment.hi() + 1 < old(self).stored().lo() ==> final(self).stored() == old(self).stored()
                && final(self).right_link() == old(self).right_link(),
            segment.lo() > old(self).stored().hi() + 1 ==> final(self).stored() == old(self).stored()
                && final(self).left_link() == old(self).left_link(),
            old(self).stored().lo() <= segment.lo() && segment.hi() <= old(self).stored().hi()
                ==> *final(self) == *old(self),
        decreases *old(self),
    {
        let ghost n0 = *self;
        if segment.right < self.segment.left {
            if (segment.right as i64) < (self.segment.left as i64) - 1 {
                Node::insert_link(&mut self.left, segment);
                proof {
                    assert forall|v: int| #[trigger] link_has(self.left, v) implies v
                        <= self.segment.lo() - 2 by {
                        assert(link_has(n0.left, v) || segment.has(v));
                    }
                    assert forall|v: int| #[trigger] self.has(v) == (n0.has(v) || segment.has(v)) by {
                        assert(link_has(self.left, v) == (link_has(n0.left, v) || segment.has(v)));
                    }
                }
            } else {
                let r = Node::consume_left_link(&mut self.left, segment.left);
                self.segment.left = r;
                proof {
                    assert forall|v: int| #[trigger] self.has(v) == (n0.has(v) || segment.has(v)) by {
                        assert((link_has(self.left, v) || r <= v) == (link_has(n0.left, v) || segment.lo() <= v));
                        if link_has(n0.left, v) {
                            assert(v <= n0.segment.lo() - 2);
                        }
                        if link_has(n0.right, v) {
                            assert(v >= n0.segment.hi() + 2);
                        }
                        if link_has(self.left, v) {
                            assert(v <= r - 2);
                        }
                    }
                }
            }
        } else if segment.left > self.segment.right {
            if (segment.left as i64) > (self.segment.right as i64) + 1 {
                Node::insert_link(&mut self.right, segment);
                proof {
                    assert forall|v: int| #[trigger] link_has(self.right, v) implies v
                        >= self.segment.hi() + 2 by {
                        assert(link_has(n0.right, v) || segment.has(v));
                    }
                    assert forall|v: int| #[trigger] self.has(v) == (n0.has(v) || segment.has(v)) by {
                        assert(link_has(self.right, v) == (link_has(n0.right, v) || segment.has(v)));
                    }
                }
            } else {
                let r = Node::consume_right_link(&mut self.right, segment.right);
                self.segment.right = r;
                proof {
                    assert forall|v: int| #[trigger] self.has(v) == (n0.has(v) || segment.has(v)) by {
                        assert((link_has(self.right, v) || v <= r) == (link_has(n0.right, v) || v <= segment.hi()));
                        if link_has(n0.left, v) {
                            assert(v <= n0.segment.lo() - 2);
                        }
                        if link_has(n0.right, v) {
                            assert(v >= n0.segment.hi() + 2);
                        }
                        if link_has(self.right, v) {
                            assert(v >= r + 2);
                        }
                    }
                }
            }
        } else {
            if segment.left < self.segment.left {
                let r = Node::consume_left_link(&mut self.left, segment.left);
                self.segment.left = r;
            }
            let ghost n1 = *self;
            proof {
                assert forall|v: int| #[trigger] n1.has(v) == (n0.has(v) || (segment.has(v) && v <= n0.segment.hi())) by {
                    if link_has(n0.left, v) {
                        assert(v <= n0.segment.lo() - 2);
                    }
                    if link_has(n0.right, v) {
                        assert(v >= n0.segment.hi() + 2);
                    }
                    if link_has(n1.left, v) {
                        assert(v <= n1.segment.lo() - 2);
                    }
                }
            }
            if segment.right > self.segment.right {
                let r = Node::consume_right_link(&mut self.right, segment.right);
                self.segment.right = r;
            }
            proof {
                assert forall|v: int| #[trigger] self.has(v) == (n1.has(v) || segment.has(v)) by {
                    if link_has(n1.left, v) {
                        assert(v <= n1.segment.lo() - 2);
                    }
                    if link_has(n1.right, v) {
                        assert(v >= n1.segment.hi() + 2);
                    }
                    if link_has(self.right, v) {
                        assert(v >= self.segment.hi() + 2);
                    }
                }
                assert forall|v: int| #[trigger] self.has(v) == (n0.has(v) || segment.has(v)) by {
                    assert(self.has(v) == (n1.has(v) || segment.has(v)));
                    assert(n1.has(v) == (n0.has(v) || (segment.has(v) && v <= n0.segment.hi())));
                }
            }
        }
    }

    /// Whether `value` lies in a segment of the subtree rooted at this node.
    pub fn contains(&self, value: &i32) -> (r: bool)
        requires
            self.wf(),
        ensures
            r == self.has(*value as int),
        decreases *self,
    {
        let ghost v = *value as int;
        if *value < self.segment.left {
            proof {
                if link_has(self.right, v) {
                    assert(v >= self.segment.hi() + 2);
                }
            }
            match &self.left {
                Some(left) => left.contains(value),
                None => false,
            }
        } else if *value > self.segment.right {
            proof {
                if link_has(self.left, v) {
                    assert(v <= self.segment.lo() - 2);
                }
            }
            match &self.right {
                Some(right) => right.contains(value),
                None => false,
            }
        } else {
            true
        }
    }
}


/// A set of `i32` values, stored as the minimal collection of maximal,
/// pairwise disjoint and non-adjacent segments.
pub struct Diet {
    root: Link,
}

impl View for Diet {
    type V = Set<int>;

    closed spec fn view(&self) -> Set<int> {
        Set::new(|v: int| link_has(self.root, v))
    }
}

impl Diet {
    /// The tree's ordering and gap invariant.
    pub closed spec fn wf(&self) -> bool {
        link_wf(self.root)
    }

    /// The bounds of the stored segments, in ascending order.
    pub closed spec fn segments(&self) -> Seq<(int, int)> {
        link_segs(self.root)
    }

    /// The tree itself.
    pub closed spec fn root_link(&self) -> Link {
        self.root
    }

    /// An empty set.
    pub fn new() -> (r: Diet)
        ensures
            r.wf(),
            r@ == Set::<int>::empty(),
            r.segments() == Seq::<(int, int)>::empty(),
    {
        let r = Diet { root: None };
        proof {
            assert(r@ =~= Set::<int>::empty());
        }
        r
    }

    /// Adds the values of `segment`, merging it with every stored segment
    /// that it overlaps or touches.
    pub fn insert(&mut self, segment: Segment)
        requires
            old(self).wf(),
            segment.wf(),
        ensures
            final(self).wf(),
            final(self)@ == old(self)@.union(segment.values()),
    {
        Node::insert_link(&mut self.root, segment);
        proof {
            assert(self@ =~= old(self)@.union(segment.values()));
        }
    }

    /// Whether the set holds no value.
    pub fn is_empty(&self) -> (r: bool)
        requires
            self.wf(),
        ensures
            r == (self@ == Set::<int>::empty()),
    {
        match &self.root {
            None => {
                proof {
                    assert(self@ =~= Set::<int>::empty());
                }
                true
            },
            Some(node) => {
                proof {
                    assert(node.has(node.segment.lo()));
                    assert(self@.contains(node.segment.lo()));
                }
                false
            },
        }
    }

    /// Removes every value.
    pub fn clear(&mut self)
        ensures
            final(self).wf(),
            final(self)@ == Set::<int>::empty(),
            final(self).segments() == Seq::<(int, int)>::empty(),
    {
        *self = Diet::new();
    }

    /// Whether `value` is in the set.
    pub fn contains(&self, value: &i32) -> (r: bool)
        requires
            self.wf(),
        ensures
            r == self@.contains(*value as int),
    {
        match &self.root {
            Some(node) => node.contains(value),
            None => false,
        }
    }

    /// Hands the stored segments over to an iterator that yields them in
    /// ascending order.
    pub fn into_iter(self) -> (r: DietIterator)
        ensures
            r.rest() == self.segments(),
            r.detached(),
            r.queue().len() == left_spine(self.root_link()).len(),
            forall|k: int|
                0 <= k < left_spine(self.root_link()).len() ==> r.queue()[k].stored()
                    == (#[trigger] left_spine(self.root_link())[k]).stored() && r.queue()[k].right_link()
                    == left_spine(self.root_link())[k].right_link(),
    {
        let mut iter = DietIterator { queue: Vec::new() };
        proof {
            assert(iter.rest() =~= Seq::<(int, int)>::empty());
        }
        iter.descend(self.root);
        proof {
            assert(iter.rest() =~= self.segments());
            assert forall|k: int| 0 <= k < left_spine(self.root).len() implies iter.queue()[k].stored()
                == (#[trigger] left_spine(self.root)[k]).stored() && iter.queue()[k].right_link()
                == left_spine(self.root)[k].right_link() by {
                assert(iter.queue()[0 + k] == iter.queue()[k]);
            }
        }
        iter
    }
}

impl Default for Diet {
    fn default() -> (r: Diet)
        ensures
            r.wf(),
            r@ == Set::<int>::empty(),
            r.segments() == Seq::<(int, int)>::empty(),
    {
        Diet::new()
    }
}

/// The bounds of the segments still to come from a stack of nodes: the
/// top node's segment, then its right subtree, then the rest of the stack.
/// The left subtrees of the nodes on the stack are already accounted for.
pub closed spec fn stack_segs(q: Seq<Box<Node>>) -> Seq<(int, int)>
    decreases q.len(),
{
    if q.len() == 0 {
        Seq::empty()
    } else {
        let n = q.last();
        seq![n.segment.bounds()] + link_segs(n.right) + stack_segs(q.drop_last())
    }
}

/// Yields the segments of a `Diet` in ascending order, consuming it.
pub struct DietIterator {
    queue: Vec<Box<Node>>,
}

impl DietIterator {
    /// The bounds of the segments still to be yielded, in order.
    pub closed spec fn rest(&self) -> Seq<(int, int)> {
        stack_segs(self.queue@)
    }

    /// The stack of nodes, bottom first.
    pub closed spec fn queue(&self) -> Seq<Box<Node>> {
        self.queue@
    }

    /// No node on the stack still holds its left subtree.
    pub open spec fn detached(&self) -> bool {
        forall|i: int| 0 <= i < self.queue().len() ==> (#[trigger] self.queue()[i]).left_link() is None
    }

    /// Pushes the left spine of `current` onto the stack.
    fn descend(&mut self, current: Link)
        ensures
            final(self).rest() == link_segs(current) + old(self).rest(),
            final(self).queue().len() == old(self).queue().len() + left_spine(current).len(),
            final(self).queue().subrange(0, old(self).queue().len() as int) == old(self).queue(),
            forall|k: int|
                0 <= k < left_spine(current).len() ==> ({
                    let n = final(self).queue()[old(self).queue().len() + k];
                    &&& n.stored() == (#[trigger] left_spine(current)[k]).stored()
                    &&& n.right_link() == left_spine(current)[k].right_link()
                    &&& n.left_link() is None
                }),
            old(self).detached() ==> final(self).detached(),
    {
        let ghost start = current;
        let ghost base = self.queue@.len();
        let mut current = current;
        while current.is_some()
            invariant
                link_segs(current) + self.rest() == link_segs(start) + old(self).rest(),
                base == old(self).queue@.len(),
                base <= self.queue@.len(),
                self.queue@.subrange(0, base as int) == old(self).queue@,
                self.queue@.len() - base + left_spine(current).len() == left_spine(start).len(),
                left_spine(current) == left_spine(start).subrange(
                    self.queue@.len() - base,
                    left_spine(start).len() as int,
                ),
                forall|k: int|
                    0 <= k < self.queue@.len() - base ==> ({
                        let n = self.queue@[base + k];
                        &&& n.stored() == (#[trigger] left_spine(start)[k]).stored()
                        &&& n.right_link() == left_spine(start)[k].right_link()
                        &&& n.left_link() is None
                    }),
                old(self).detached() ==> forall|i: int|
                    0 <= i < self.queue@.len() ==> (#[trigger] self.queue@[i]).left_link() is None,
            decreases link_size(current),
        {
            let ghost c0 = current;
            let mut node = current.take().unwrap();
            let ghost n0 = *node;
            let ghost p = self.queue@.len() - base;
            proof {
                assert(c0 == Some(Box::new(n0)));
                assert(left_spine(c0) == seq![n0] + left_spine(n0.left));
                assert(left_spine(start)[p] == left_spine(c0)[0]);
                assert(left_spine(n0.left) =~= left_spine(c0).drop_first());
            }
            current = node.left.take();
            let ghost q0 = self.queue@;
            self.queue.push(node);
            proof {
                assert(self.queue@[base + p] == node);
                assert(left_spine(current) =~= left_spine(start).subrange(
                    self.queue@.len() - base,
                    left_spine(start).len() as int,
                ));
                assert(self.queue@.subrange(0, base as int) =~= q0.subrange(0, base as int));
                assert forall|k: int| 0 <= k < self.queue@.len() - base implies ({
                    let n = self.queue@[base + k];
                    &&& n.stored() == (#[trigger] left_spine(start)[k]).stored()
                    &&& n.right_link() == left_spine(start)[k].right_link()
                    &&& n.left_link() is None
                }) by {
                    if k < p {
                        assert(self.queue@[base + k] == q0[base + k]);
                    }
                }
                if old(self).detached() {
                    assert forall|i: int| 0 <= i < self.queue@.len() implies (#[trigger] self.queue@[i]).left_link() is None by {
                        if i < q0.len() {
                            assert(self.queue@[i] == q0[i]);
                        }
                    }
                }
                assert(self.queue@.drop_last() =~= q0);
                assert(link_segs(Some(Box::new(n0))) == link_segs(n0.left).push(n0.segment.bounds()) + link_segs(n0.right));
                assert(self.rest() == seq![n0.segment.bounds()] + link_segs(n0.right) + stack_segs(q0));
                assert(link_segs(current) + self.rest() =~= link_segs(Some(Box::new(n0))) + stack_segs(q0));
            }
        }
        proof {
            assert(link_segs(current) =~= Seq::<(int, int)>::empty());
            assert(self.rest() =~= link_segs(current) + self.rest());
        }
    }

    /// Yields the next segment in ascending order, or `None` once all have
    /// been yielded.
    pub fn next(&mut self) -> (r: Option<Segment>)
        ensures
            old(self).rest().len() == 0 ==> r is None && final(self).rest() == old(self).rest(),
            old(self).rest().len() > 0 ==> r is Some && r->0.bounds() == old(self).rest()[0]
                && final(self).rest() == old(self).rest().drop_first(),
            old(self).detached() ==> final(self).detached(),
    {
        let ghost q0 = self.queue@;
        match self.queue.pop() {
            None => None,
            Some(mut node) => {
                let right = node.right.take();
                let ghost tail = link_segs(right) + stack_segs(q0.drop_last());
                proof {
                    assert(old(self).rest() == seq![node.segment.bounds()] + tail);
                    assert(self.rest() == stack_segs(q0.drop_last()));
                }
                proof {
                    if old(self).detached() {
                        assert forall|i: int| 0 <= i < self.queue().len() implies (#[trigger] self.queue()[i]).left_link() is None by {
                            assert(self.queue()[i] == q0[i]);
                        }
                    }
                }
                if right.is_some() {
                    self.descend(right);
                }
                proof {
                    assert(self.rest() =~= tail);
                    assert(old(self).rest().drop_first() =~= tail);
                }
                Some(node.segment)
            },
        }
    }
}


/// Segment bounds that are well formed, strictly ascending, and separated
/// by at least one value between any two of them.
pub open spec fn ascending_gapped(s: Seq<(int, int)>) -> bool {
    &&& forall|i: int| 0 <= i < s.len() ==> (#[trigger] s[i]).0 <= s[i].1
    &&& forall|i: int, j: int| #![trigger s[i], s[j]] 0 <= i < j < s.len() ==> s[i].1 + 1 < s[j].0
}

/// Whether `v` lies in one of the segments whose bounds are `s`.
pub open spec fn covered(s: Seq<(int, int)>, v: int) -> bool {
    exists|i: int| 0 <= i < s.len() && (#[trigger] s[i]).0 <= v <= s[i].1
}

/// The values of all the segments of `s`.
pub open spec fn union_of(s: Seq<Segment>) -> Set<int> {
    Set::new(|v: int| exists|i: int| 0 <= i < s.len() && (#[trigger] s[i]).has(v))
}

/// In a well-formed subtree the segments are ascending and gapped, and a
/// value is in the subtree exactly when one of its segments holds it.
pub proof fn lemma_link_segs(link: Link)
    requires
        link_wf(link),
    ensures
        ascending_gapped(link_segs(link)),
        forall|v: int| #[trigger] link_has(link, v) == covered(link_segs(link), v),
    decreases link,
{
    match link {
        None => {},
        Some(n) => {
            assert(n.wf());
            lemma_link_segs(n.left);
            lemma_link_segs(n.right);
            let a = link_segs(n.left);
            let b = link_segs(n.right);
            let x = n.segment.bounds();
            let s = link_segs(link);
            assert(s == a.push(x) + b);
            assert forall|i: int| 0 <= i < a.len() implies (#[trigger] a[i]).1 <= n.segment.lo() - 2 by {
                assert(covered(a, a[i].1));
                assert(link_has(n.left, a[i].1));
            }
            assert forall|k: int| 0 <= k < b.len() implies (#[trigger] b[k]).0 >= n.segment.hi() + 2 by {
                assert(covered(b, b[k].0));
                assert(link_has(n.right, b[k].0));
            }
            assert forall|k: int| 0 <= k < s.len() implies #[trigger] s[k] == (if k < a.len() {
                a[k]
            } else if k == a.len() {
                x
            } else {
                b[k - a.len() - 1]
            }) by {}
            assert forall|i: int, j: int| #![trigger s[i], s[j]] 0 <= i < j < s.len() implies s[i].1 + 1 < s[j].0 by {
                if j < a.len() {
                } else if j == a.len() {
                    assert(s[i] == a[i]);
                } else if i < a.len() {
                    assert(s[i] == a[i]);
                    assert(s[j] == b[j - a.len() - 1]);
                } else if i == a.len() {
                    assert(s[j] == b[j - a.len() - 1]);
                } else {
                    assert(s[i] == b[i - a.len() - 1]);
                    assert(s[j] == b[j - a.len() - 1]);
                }
            }
            assert forall|i: int| 0 <= i < s.len() implies (#[trigger] s[i]).0 <= s[i].1 by {
                if i < a.len() {
                    assert(s[i] == a[i]);
                } else if i > a.len() {
                    assert(s[i] == b[i - a.len() - 1]);
                }
            }
            assert forall|v: int| #[trigger] link_has(link, v) == covered(s, v) by {
                assert(link_has(link, v) == n.has(v));
                if covered(s, v) {
                    let k = choose|k: int| 0 <= k < s.len() && (#[trigger] s[k]).0 <= v <= s[k].1;
                    if k < a.len() {
                        assert(a[k] == s[k]);
                        assert(covered(a, v));
                    } else if k > a.len() {
                        assert(b[k - a.len() - 1] == s[k]);
                        assert(covered(b, v));
                    }
                }
                if link_has(n.left, v) {
                    let k = choose|k: int| 0 <= k < a.len() && (#[trigger] a[k]).0 <= v <= a[k].1;
                    assert(s[k] == a[k]);
                }
                if n.segment.has(v) {
                    assert(s[a.len() as int] == x);
                }
                if link_has(n.right, v) {
                    let k = choose|k: int| 0 <= k < b.len() && (#[trigger] b[k]).0 <= v <= b[k].1;
                    assert(s[k + a.len() + 1] == b[k]);
                }
            }
        },
    }
}


proof fn lemma_first_is_lowest(s: Seq<(int, int)>)
    requires
        ascending_gapped(s),
        s.len() > 0,
    ensures
        forall|i: int| 0 < i < s.len() ==> (#[trigger] s[i]).0 > s[0].1 + 1,
        forall|v: int| covered(s, v) ==> s[0].0 <= v,
        !covered(s, s[0].1 + 1),
{
    assert forall|i: int| 0 < i < s.len() implies (#[trigger] s[i]).0 > s[0].1 + 1 by {
        assert(s[0].1 + 1 < s[i].0);
    }
    assert forall|v: int| covered(s, v) implies s[0].0 <= v by {
        let k = choose|k: int| 0 <= k < s.len() && (#[trigger] s[k]).0 <= v <= s[k].1;
        if k > 0 {
            assert(s[0].1 + 1 < s[k].0);
        }
    }
    if covered(s, s[0].1 + 1) {
        let k = choose|k: int| 0 <= k < s.len() && (#[trigger] s[k]).0 <= s[0].1 + 1 <= s[k].1;
        if k > 0 {
            assert(s[0].1 + 1 < s[k].0);
        }
    }
}

proof fn lemma_drop_first(s: Seq<(int, int)>)
    requires
        ascending_gapped(s),
        s.len() > 0,
    ensures
        ascending_gapped(s.drop_first()),
        forall|v: int| #[trigger] covered(s.drop_first(), v) == (covered(s, v) && v > s[0].1),
{
    lemma_first_is_lowest(s);
    let r = s.drop_first();
    assert forall|i: int| 0 <= i < r.len() implies #[trigger] r[i] == s[i + 1] by {}
    assert forall|i: int, j: int| #![trigger r[i], r[j]] 0 <= i < j < r.len() implies r[i].1 + 1 < r[j].0 by {
        assert(r[i] == s[i + 1] && r[j] == s[j + 1]);
    }
    assert forall|i: int| 0 <= i < r.len() implies (#[trigger] r[i]).0 <= r[i].1 by {
        assert(r[i] == s[i + 1]);
    }
    assert forall|v: int| #[trigger] covered(r, v) == (covered(s, v) && v > s[0].1) by {
        if covered(r, v) {
            let k = choose|k: int| 0 <= k < r.len() && (#[trigger] r[k]).0 <= v <= r[k].1;
            assert(r[k] == s[k + 1]);
        }
        if covered(s, v) && v > s[0].1 {
            let k = choose|k: int| 0 <= k < s.len() && (#[trigger] s[k]).0 <= v <= s[k].1;
            assert(k > 0);
            assert(r[k - 1] == s[k]);
        }
    }
}

/// Two ascending, gapped sequences of segment bounds that cover the same
/// values are equal.
proof fn lemma_decomposition_unique(s: Seq<(int, int)>, t: Seq<(int, int)>)
    requires
        ascending_gapped(s),
        ascending_gapped(t),
        forall|v: int| covered(s, v) == covered(t, v),
    ensures
        s == t,
    decreases s.len(),
{
    if s.len() == 0 || t.len() == 0 {
        if s.len() > 0 {
            assert(covered(s, s[0].0));
        }
        if t.len() > 0 {
            assert(covered(t, t[0].0));
        }
        assert(s =~= t);
    } else {
        lemma_first_is_lowest(s);
        lemma_first_is_lowest(t);
        assert(covered(s, s[0].0));
        assert(covered(t, t[0].0));
        assert(s[0].0 == t[0].0);
        if s[0].1 < t[0].1 {
            assert(covered(t, s[0].1 + 1));
        }
        if t[0].1 < s[0].1 {
            assert(covered(s, t[0].1 + 1));
        }
        assert(s[0] == t[0]);
        lemma_drop_first(s);
        lemma_drop_first(t);
        assert forall|v: int| covered(s.drop_first(), v) == covered(t.drop_first(), v) by {
            assert(covered(s.drop_first(), v) == (covered(s, v) && v > s[0].1));
            assert(covered(t.drop_first(), v) == (covered(t, v) && v > t[0].1));
        }
        lemma_decomposition_unique(s.drop_first(), t.drop_first());
        assert forall|i: int| 0 <= i < s.len() implies s[i] == t[i] by {
            if i > 0 {
                assert(s[i] == s.drop_first()[i - 1]);
                assert(t[i] == t.drop_first()[i - 1]);
            }
        }
        assert(s =~= t);
    }
}

/// A range of values that an ascending, gapped sequence covers lies within
/// one of its segments.
proof fn lemma_range_in_one_segment(s: Seq<(int, int)>, x: int, y: int)
    requires
        ascending_gapped(s),
        x <= y,
        forall|v: int| x <= v <= y ==> covered(s, v),
    ensures
        exists|k: int| 0 <= k < s.len() && (#[trigger] s[k]).0 <= x && y <= s[k].1,
{
    assert(covered(s, x));
    let k = choose|k: int| 0 <= k < s.len() && (#[trigger] s[k]).0 <= x <= s[k].1;
    if s[k].1 < y {
        let w = s[k].1 + 1;
        assert(covered(s, w));
        let m = choose|m: int| 0 <= m < s.len() && (#[trigger] s[m]).0 <= w <= s[m].1;
        if m < k {
            assert(s[m].1 + 1 < s[k].0);
        } else if m > k {
            assert(s[k].1 + 1 < s[m].0);
        }
    }
}


/// The stored segments are well formed, strictly ascending and separated by
/// at least one value that is not in the set, and a value is in the set
/// exactly when one of them holds it.
pub proof fn lemma_segments_ordered(d: Diet)
    requires
        d.wf(),
    ensures
        ascending_gapped(d.segments()),
        forall|v: int| #[trigger] d@.contains(v) == covered(d.segments(), v),
{
    lemma_link_segs(d.root);
}

/// The stored segments depend on the set of values alone: two sets with the
/// same values store the same segments.
pub proof fn lemma_segments_determined(a: Diet, b: Diet)
    requires
        a.wf(),
        b.wf(),
        a@ == b@,
    ensures
        a.segments() == b.segments(),
{
    lemma_segments_ordered(a);
    lemma_segments_ordered(b);
    assert forall|v: int| covered(a.segments(), v) == covered(b.segments(), v) by {
        assert(a@.contains(v) == covered(a.segments(), v));
        assert(b@.contains(v) == covered(b.segments(), v));
        assert(a@.contains(v) == b@.contains(v));
    }
    lemma_decomposition_unique(a.segments(), b.segments());
}

/// Inserting a segment whose values are all in the set already changes
/// neither the set nor the stored segments.
pub proof fn lemma_insert_covered(before: Diet, after: Diet, segment: Segment)
    requires
        before.wf(),
        after.wf(),
        segment.wf(),
        segment.values().subset_of(before@),
        after@ == before@.union(segment.values()),
    ensures
        after@ == before@,
        after.segments() == before.segments(),
{
    assert(after@ =~= before@);
    lemma_segments_determined(after, before);
}

/// Sets built by inserting the same segments, each as often, in any order,
/// hold the same values and store the same segments: the minimal
/// decomposition of the union of the segments.
pub proof fn lemma_insertion_order_irrelevant(a: Diet, b: Diet, s: Seq<Segment>, t: Seq<Segment>)
    requires
        a.wf(),
        b.wf(),
        a@ == union_of(s),
        b@ == union_of(t),
        s.to_multiset() == t.to_multiset(),
    ensures
        a@ == b@,
        a.segments() == b.segments(),
        ascending_gapped(a.segments()),
        forall|v: int| #[trigger] covered(a.segments(), v) == union_of(s).contains(v),
{
    broadcast use vstd::seq_lib::to_multiset_contains;

    assert forall|v: int| union_of(s).contains(v) implies union_of(t).contains(v) by {
        let i = choose|i: int| 0 <= i < s.len() && (#[trigger] s[i]).has(v);
        assert(s.contains(s[i]));
        assert(s.to_multiset().count(s[i]) > 0);
        assert(t.to_multiset().count(s[i]) > 0);
        assert(t.contains(s[i]));
        let j = choose|j: int| 0 <= j < t.len() && t[j] == s[i];
        assert(t[j].has(v));
    }
    assert forall|v: int| union_of(t).contains(v) implies union_of(s).contains(v) by {
        let i = choose|i: int| 0 <= i < t.len() && (#[trigger] t[i]).has(v);
        assert(t.contains(t[i]));
        assert(t.to_multiset().count(t[i]) > 0);
        assert(s.to_multiset().count(t[i]) > 0);
        assert(s.contains(t[i]));
        let j = choose|j: int| 0 <= j < s.len() && s[j] == t[i];
        assert(s[j].has(v));
    }
    assert(a@ =~= b@);
    lemma_segments_determined(a, b);
    lemma_segments_ordered(a);
}

/// Inserting a segment that overlaps or touches the stored segment `i`,
/// and reaches the stored segment `j` (possibly the same one), leaves a
/// single stored segment that spans all of them.
pub proof fn lemma_insert_merges(before: Diet, after: Diet, segment: Segment, i: int, j: int)
    requires
        before.wf(),
        after.wf(),
        segment.wf(),
        after@ == before@.union(segment.values()),
        0 <= i <= j < before.segments().len(),
        segment.lo() <= before.segments()[i].1 + 1,
        before.segments()[j].0 <= segment.hi() + 1,
    ensures
        exists|k: int|
            0 <= k < after.segments().len() && (#[trigger] after.segments()[k]).0 <= before.segments()[i].0
                && after.segments()[k].0 <= segment.lo() && before.segments()[j].1 <= after.segments()[k].1
                && segment.hi() <= after.segments()[k].1,
{
    lemma_segments_ordered(before);
    lemma_segments_ordered(after);
    let s = before.segments();
    let x = if s[i].0 < segment.lo() { s[i].0 } else { segment.lo() };
    let y = if s[j].1 > segment.hi() { s[j].1 } else { segment.hi() };
    assert(s[i].0 <= s[i].1 && s[j].0 <= s[j].1);
    assert forall|v: int| x <= v <= y implies covered(after.segments(), v) by {
        if segment.has(v) {
            assert(segment.values().contains(v));
        } else if v < segment.lo() {
            assert(covered(s, v));
        } else {
            assert(covered(s, v));
        }
        assert(after@.contains(v));
    }
    lemma_range_in_one_segment(after.segments(), x, y);
}

/// A cleared set is the same value as a new one, so every query on it
/// answers as on a new set.
pub proof fn lemma_cleared_is_new(cleared: Diet, fresh: Diet)
    requires
        cleared.wf(),
        fresh.wf(),
        cleared@ == Set::<int>::empty(),
        fresh@ == Set::<int>::empty(),
    ensures
        cleared == fresh,
{
    if let Some(n) = cleared.root {
        assert(n.has(n.segment.lo()));
        assert(cleared@.contains(n.segment.lo()));
    }
    if let Some(n) = fresh.root {
        assert(n.has(n.segment.lo()));
        assert(fresh@.contains(n.segment.lo()));
    }
}


/// How the models of a subtree unfold by one level: an empty subtree holds
/// nothing, and a node holds its own segment and its two subtrees, in order.
pub proof fn lemma_link_unfold(link: Link)
    ensures
        link is None ==> link_wf(link) && link_segs(link) == Seq::<(int, int)>::empty()
            && left_spine(link) == Seq::<Node>::empty() && forall|v: int| !#[trigger] link_has(link, v),
        link is Some ==> ({
            let n = *link->0;
            &&& forall|v: int| #[trigger] link_has(link, v) == n.has(v)
            &&& forall|v: int| #[trigger] n.has(v) == (n.stored().has(v) || link_has(n.left_link(), v)
                || link_has(n.right_link(), v))
            &&& link_wf(link) == n.wf()
            &&& n.wf() == (n.stored().wf() && (forall|v: int| #[trigger] link_has(n.left_link(), v)
                ==> v <= n.stored().lo() - 2) && (forall|v: int| #[trigger] link_has(n.right_link(), v)
                ==> v >= n.stored().hi() + 2) && link_wf(n.left_link()) && link_wf(n.right_link()))
            &&& link_segs(link) == link_segs(n.left_link()).push(n.stored().bounds()) + link_segs(
                n.right_link(),
            )
            &&& left_spine(link) == seq![n] + left_spine(n.left_link())
        }),
{
}

} // verus!
