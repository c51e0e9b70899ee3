use vstd::prelude::*;

verus! {

/// A byte range of the image as a pair of mathematical integers: the range
/// `[offset, offset + size)`.
pub struct Span {
    pub offset: int,
    pub size: int,
}

impl Span {
    /// One past the last byte of the range.
    pub open spec fn end(self) -> int {
        self.offset + self.size
    }

    /// The end of the range, and the largest `u64` where the end is above it.
    pub open spec fn capped_end(self) -> int {
        if self.end() <= u64::MAX {
            self.end()
        } else {
            u64::MAX as int
        }
    }

    /// Both ranges start at the same byte and are equally long.
    pub open spec fn same(self, other: Span) -> bool {
        self.offset == other.offset && self.size == other.size
    }

    /// The two ranges overlap in part: one starts strictly inside the other
    /// and ends strictly after it.
    pub open spec fn overlaps(self, other: Span) -> bool {
        ||| self.offset < other.offset && other.offset < self.end() && self.end() < other.end()
        ||| other.offset < self.offset && self.offset < other.end() && other.end() < self.end()
    }

    /// `self` lies wholly inside `other`.
    pub open spec fn fits_in(self, other: Span) -> bool {
        self.offset >= other.offset && self.end() <= other.end()
    }

    /// Some byte belongs to both ranges.
    pub open spec fn intersects(self, other: Span) -> bool {
        exists|b: int| #[trigger]
            self.holds(b) && other.holds(b)
    }

    /// Byte `b` belongs to the range.
    pub open spec fn holds(self, b: int) -> bool {
        self.offset <= b < self.end()
    }

    /// `self` or `other` must be rejected when the other one is in the tree:
    /// they are the same range, or they overlap in part.
    pub open spec fn clashes(self, other: Span) -> bool {
        self.same(other) || self.overlaps(other)
    }

    /// The canonical order of ranges: by offset ascending, then by size
    /// descending. A range that contains another one and is not the same
    /// range comes first.
    pub open spec fn before(self, other: Span) -> bool {
        self.offset < other.offset || (self.offset == other.offset && self.size > other.size)
    }
}

/// Two ranges of non-negative size overlap in part exactly when they share
/// a byte and neither lies inside the other.
pub proof fn lemma_overlaps_is_partial_intersection(a: Span, b: Span)
    requires
        a.size >= 0,
        b.size >= 0,
    ensures
        a.overlaps(b) <==> a.intersects(b) && !a.fits_in(b) && !b.fits_in(a),
{
    if a.overlaps(b) {
        if a.offset < b.offset {
            assert(a.holds(b.offset) && b.holds(b.offset));
        } else {
            assert(a.holds(a.offset) && b.holds(a.offset));
        }
    }
    if a.intersects(b) && !a.fits_in(b) && !b.fits_in(a) {
        let x = choose|x: int| #[trigger] a.holds(x) && b.holds(x);
        assert(a.holds(x) && b.holds(x));
    }
}

/// To overlap in part is symmetric, and so is to clash.
pub proof fn lemma_overlaps_symmetric(a: Span, b: Span)
    ensures
        a.overlaps(b) == b.overlaps(a),
        a.clashes(b) == b.clashes(a),
{
}

/// A range that lies inside another one and is not the same range comes
/// after it in the canonical order.
pub proof fn lemma_container_comes_first(inner: Span, outer: Span)
    requires
        inner.fits_in(outer),
        !inner.same(outer),
    ensures
        outer.before(inner),
{
}

/// One node of the region tree. Nodes live in one vector, the arena of a
/// [`crate::tree::Forest`]; `parent` and `children` are positions in it.
#[derive(Debug, Clone)]
pub struct Node {
    /// Name of the region.
    pub name: String,
    /// First byte of the region.
    pub offset: u64,
    /// Length of the region in bytes.
    pub size: u64,
    /// Names of the regions that cover exactly the same range and were
    /// folded into this node.
    pub aliases: Vec<String>,
    /// The tightest node that contains this one, if there is one.
    pub parent: Option<usize>,
    /// The nodes directly inside this one, by offset ascending.
    pub children: Vec<usize>,
}

impl Node {
    /// The range of the node.
    pub open spec fn span(&self) -> Span {
        Span { offset: self.offset as int, size: self.size as int }
    }

    /// The end of the range is a `u64`.
    pub open spec fn in_range(&self) -> bool {
        self.offset + self.size <= u64::MAX
    }

    /// A node without aliases, parent or children.
    pub fn new(name: String, offset: u64, size: u64) -> (r: Node)
        ensures
            r.name == name,
            r.offset == offset,
            r.size == size,
            r.aliases@.len() == 0,
            r.parent is None,
            r.children@.len() == 0,
    {
        Node { name, offset, size, aliases: Vec::new(), parent: None, children: Vec::new() }
    }

    /// One past the last byte of the node, and the largest `u64` where that
    /// is no `u64`.
    pub open spec fn spec_end(&self) -> int {
        self.span().capped_end()
    }

    /// The two nodes overlap in part, their ends taken as [`Node::end`]
    /// gives them.
    pub open spec fn spec_overlaps(&self, node: &Node) -> bool {
        ||| self.offset < node.offset && node.offset < self.spec_end() && self.spec_end() < node.spec_end()
        ||| node.offset < self.offset && self.offset < node.spec_end() && node.spec_end() < self.spec_end()
    }

    /// This node lies inside `node`, their ends taken as [`Node::end`] gives
    /// them.
    pub open spec fn spec_fits_in(&self, node: &Node) -> bool {
        self.offset >= node.offset && self.spec_end() <= node.spec_end()
    }

    /// Whether both nodes cover exactly the same range.
    pub fn is_duplicate(&self, node: &Node) -> (r: bool)
        ensures
            r == self.span().same(node.span()),
    {
        self.offset == node.offset && self.size == node.size
    }

    /// One past the last byte of the node. Where the sum of offset and size
    /// is no `u64`, the end is the largest `u64`.
    pub fn end(&self) -> (r: u64)
        ensures
            r == self.spec_end(),
            self.in_range() ==> r == self.span().end(),
    {
        self.offset.saturating_add(self.size)
    }

    /// Whether the two nodes overlap in part: one begins strictly inside
    /// the other and ends strictly after it.
    pub fn overlaps(&self, node: &Node) -> (r: bool)
        ensures
            r == self.spec_overlaps(node),
            self.in_range() && node.in_range() ==> r == self.span().overlaps(node.span()),
    {
        (self.offset < node.offset && node.offset < self.end() && self.end() < node.end()) || (
        node.offset < self.offset && self.offset < node.end() && node.end() < self.end())
    }

    /// Whether this node lies wholly inside `node`.
    pub fn fits_in(&self, node: &Node) -> (r: bool)
        ensures
            r == self.spec_fits_in(node),
            self.in_range() && node.in_range() ==> r == self.span().fits_in(node.span()),
    {
        self.offset >= node.offset && self.end() <= node.end()
    }
}

impl PartialEq for Node {
    /// Two nodes are equal if they have the same name and the same range.
    fn eq(&self, other: &Node) -> (r: bool) {
        self.name == other.name && self.is_duplicate(other)
    }
}

impl vstd::std_specs::cmp::PartialEqSpecImpl for Node {
    open spec fn obeys_eq_spec() -> bool {
        true
    }

    open spec fn eq_spec(&self, other: &Node) -> bool {
        self.name@ == other.name@ && self.span().same(other.span())
    }
}

/// Positions as mathematical integers.
pub open spec fn as_ints(v: Seq<usize>) -> Seq<int> {
    v.map_values(|x: usize| x as int)
}

/// A position, if there is one, as a mathematical integer.
pub open spec fn as_int(o: Option<usize>) -> Option<int> {
    match o {
        Some(x) => Some(x as int),
        None => None,
    }
}

/// What a node says: the mathematical value of a [`Node`].
pub struct NodeView {
    pub name: Seq<char>,
    pub span: Span,
    pub aliases: Seq<Seq<char>>,
    pub parent: Option<int>,
    pub children: Seq<int>,
}

impl View for Node {
    type V = NodeView;

    open spec fn view(&self) -> NodeView {
        NodeView {
            name: self.name@,
            span: self.span(),
            aliases: self.aliases@.map_values(|alias: String| alias@),
            parent: as_int(self.parent),
            children: as_ints(self.children@),
        }
    }
}

/// What the nodes of an arena say.
pub open spec fn views_of(nodes: Seq<Node>) -> Seq<NodeView> {
    nodes.map_values(|node: Node| node@)
}

/// Every parent in `nodes` is an earlier position of `nodes`.
pub open spec fn parents_point_back(nodes: Seq<NodeView>) -> bool {
    forall|i: int| 0 <= i < nodes.len() ==> (#[trigger] nodes[i].parent matches Some(p) ==> 0 <= p < i)
}

/// The number of ancestors of a node whose parent is `parent`: the length
/// of the chain of parents, as far as every parent is a position of the
/// arena and points back. The chain ends behind a parent that is no
/// position of the arena, or whose own parent does not point back.
pub open spec fn ancestors(nodes: Seq<NodeView>, parent: Option<int>) -> nat
    decreases
        (match parent {
            Some(p) => p + 1,
            None => 0,
        }),
{
    match parent {
        None => 0,
        Some(p) => if 0 <= p < nodes.len() && (nodes[p].parent matches Some(q) ==> 0 <= q < p) {
            1 + ancestors(nodes, nodes[p].parent)
        } else {
            1
        },
    }
}

/// The number of ancestors of a node is at most the position of its parent
/// plus one, and one where the parent is no position of the arena.
pub proof fn lemma_ancestors_bound(nodes: Seq<NodeView>, parent: Option<int>)
    ensures
        parent is None ==> ancestors(nodes, parent) == 0,
        parent matches Some(p) ==> 1 <= ancestors(nodes, parent) && (0 <= p < nodes.len() ==> ancestors(
            nodes,
            parent,
        ) <= p + 1) && (p >= nodes.len() ==> ancestors(nodes, parent) == 1),
    decreases
        (match parent {
            Some(p) => p + 1,
            None => 0,
        }),
{
    if let Some(p) = parent {
        if 0 <= p < nodes.len() && (nodes[p].parent matches Some(q) ==> 0 <= q < p) {
            lemma_ancestors_bound(nodes, nodes[p].parent);
        }
    }
}

impl Node {
    /// The depth of the node: the number of its ancestors in the arena
    /// `nodes` that it belongs to.
    pub fn parents_number(&self, nodes: &Vec<Node>) -> (r: usize)
        ensures
            r == ancestors(views_of(nodes@), self@.parent),
    {
        let ghost views = views_of(nodes@);
        let len: usize = nodes.len();
        let mut count: usize = 0;
        let mut cur: Option<usize> = self.parent;
        proof {
            lemma_ancestors_bound(views, as_int(cur));
        }
        while cur.is_some()
            invariant
                views == views_of(nodes@),
                len == nodes@.len(),
                count + ancestors(views, as_int(cur)) == ancestors(views, self@.parent),
                cur matches Some(p) ==> p < len ==> count + p + 1 <= len,
                cur matches Some(p) ==> p >= len ==> count == 0,
            decreases
                (match cur {
                    Some(p) => p + 1,
                    None => 0,
                }),
        {
            let p = cur.unwrap();
            proof {
                lemma_ancestors_bound(views, as_int(cur));
                if p < len {
                    assert(views[p as int] == nodes@[p as int]@);
                    lemma_ancestors_bound(views, views[p as int].parent);
                }
            }
            count = count + 1;
            cur = if p < len {
                match nodes[p].parent {
                    Some(q) => if q < p {
                        Some(q)
                    } else {
                        None
                    },
                    None => None,
                }
            } else {
                None
            };
        }
        count
    }
}

} // verus!
