//! Building the region tree of a flash map.
use crate::layout::{
    all_gaps, canonical_order, child_spans, children_of, comes_before, first_clash, gap_at,
    gaps_below, gaps_of, gaps_upto, is_canonical_order, lemma_canonical_order_unique, orders_first,
    lemma_children_of, lemma_gap_parents, lemma_gaps_below_grows, lemma_nearest_container,
    lemma_row_members, lemma_sift_shape, nearest_container, parent_of, picked, rearranged,
    row_upto, row_with_gaps, sift, Gap, Sift,
};
use crate::fmap::FMap;
use crate::region::{as_int, as_ints, parents_point_back, views_of, Node, NodeView, Span};
use vstd::prelude::*;

verus! {

/// The ranges of `nodes`.
pub open spec fn spans_of(nodes: Seq<Node>) -> Seq<Span> {
    Seq::new(nodes.len(), |i: int| nodes[i].span())
}

/// Whether the range of `a` comes before that of `b`: at a smaller offset,
/// or at the same offset and longer.
fn range_before(a: &Node, b: &Node) -> (r: bool)
    ensures
        r == a.span().before(b.span()),
{
    a.offset < b.offset || (a.offset == b.offset && a.size > b.size)
}

/// The positions of `nodes` in the canonical order: by offset ascending,
/// then by size descending; nodes with the same range stay in the order in
/// which they are given.
pub fn sort_positions(nodes: &Vec<Node>) -> (order: Vec<usize>)
    ensures
        is_canonical_order(spans_of(nodes@), order@),
{
    let ghost spans = spans_of(nodes@);
    let mut order: Vec<usize> = Vec::new();
    let mut i: usize = 0;
    while i < nodes.len()
        invariant
            i <= nodes.len(),
            spans == spans_of(nodes@),
            orders_first(spans, i as nat, order@),
        decreases nodes.len() - i,
    {
        let mut p: usize = 0;
        while p < order.len() && !range_before(&nodes[i], &nodes[order[p]])
            invariant
                i < nodes.len(),
                spans == spans_of(nodes@),
                order@.len() == i,
                p <= order@.len(),
                forall|k: int| 0 <= k < order@.len() ==> #[trigger] order@[k] < i,
                forall|k: int| 0 <= k < p ==> !spans[i as int].before(spans[#[trigger] order@[k] as int]),
            decreases order@.len() - p,
        {
            p = p + 1;
        }
        let ghost old_order = order@;
        order.insert(p, i);
        proof {
            assert forall|k: int, l: int| 0 <= k < l < order@.len() implies comes_before(
                spans,
                #[trigger] order@[k] as int,
                #[trigger] order@[l] as int,
            ) by {
                if l < p {
                    assert(order@[k] == old_order[k] && order@[l] == old_order[l]);
                } else if l == p {
                    assert(order@[k] == old_order[k]);
                    assert(!spans[i as int].before(spans[old_order[k] as int]));
                } else if k < p {
                    assert(order@[k] == old_order[k] && order@[l] == old_order[l - 1]);
                } else if k == p {
                    assert(order@[l] == old_order[l - 1]);
                    assert(spans[i as int].before(spans[old_order[p as int] as int]));
                    if l - 1 > p {
                        assert(comes_before(spans, old_order[p as int] as int, old_order[l - 1] as int));
                    }
                } else {
                    assert(order@[k] == old_order[k - 1] && order@[l] == old_order[l - 1]);
                }
            }
            assert forall|v: usize| v < i + 1 implies #[trigger] order@.contains(v) by {
                if v == i {
                    assert(order@[p as int] == v);
                } else {
                    assert(old_order.contains(v));
                    let k = choose|k: int| 0 <= k < old_order.len() && old_order[k] == v;
                    if k < p {
                        assert(order@[k] == v);
                    } else {
                        assert(order@[k + 1] == v);
                    }
                }
            }
            assert forall|k: int| 0 <= k < order@.len() implies #[trigger] order@[k] < i + 1 by {
                if k < p {
                    assert(order@[k] == old_order[k]);
                } else if k > p {
                    assert(order@[k] == old_order[k - 1]);
                }
            }
        }
        i = i + 1;
    }
    order
}

/// The names of `nodes`.
pub open spec fn names_of(nodes: Seq<Node>) -> Seq<Seq<char>> {
    Seq::new(nodes.len(), |i: int| nodes[i].name@)
}

/// `node` stands for node `t` of the pass `d` over the candidates with
/// ranges `s` and names `names`: it has the range and the name of the
/// candidate kept at `t` and, as aliases, the names of the candidates folded
/// into it, in their order.
pub open spec fn is_region_node(node: Node, s: Seq<Span>, names: Seq<Seq<char>>, d: Sift, t: int) -> bool {
    &&& node.span() == s[d.kept[t]]
    &&& node.name@ == names[d.kept[t]]
    &&& node.aliases@.len() == d.aliases[t].len()
    &&& forall|q: int|
        0 <= q < node.aliases@.len() ==> (#[trigger] node.aliases@[q])@ == names[d.aliases[t][q]]
}

/// `node` stands for node `t` of the pass `d` and has no parent and no
/// children yet.
pub open spec fn is_kept_node(node: Node, s: Seq<Span>, names: Seq<Seq<char>>, d: Sift, t: int) -> bool {
    &&& is_region_node(node, s, names, d, t)
    &&& node.parent is None
    &&& node.children@.len() == 0
}

/// One pass over the candidates `regions`, taken in the order `order`:
/// removes exact duplicates, which become aliases of the node that they
/// repeat, and candidates that overlap a node in part, which are counted.
/// Returns the nodes that are left and the number of overlaps.
pub(crate) fn sift_regions(regions: &Vec<Node>, order: &Vec<usize>) -> (r: (Vec<Node>, usize))
    requires
        order@.len() == regions@.len(),
        forall|k: int| 0 <= k < order@.len() ==> #[trigger] order@[k] < regions@.len(),
        forall|i: int| 0 <= i < regions@.len() ==> #[trigger] regions@[i].in_range(),
    ensures
        ({
            let s = rearranged(spans_of(regions@), order@);
            let names = rearranged(names_of(regions@), order@);
            let d = sift(s, s.len());
            &&& r.1 == d.overlaps
            &&& r.0@.len() == d.kept.len()
            &&& forall|t: int| 0 <= t < r.0@.len() ==> is_kept_node(#[trigger] r.0@[t], s, names, d, t)
        }),
{
    let ghost s = rearranged(spans_of(regions@), order@);
    let ghost names = rearranged(names_of(regions@), order@);
    let n: usize = order.len();
    let mut kept: Vec<Node> = Vec::new();
    let mut overlaps: usize = 0;
    let mut c: usize = 0;
    while c < n
        invariant
            n == order@.len(),
            n == regions@.len(),
            c <= n,
            s == rearranged(spans_of(regions@), order@),
            names == rearranged(names_of(regions@), order@),
            forall|k: int| 0 <= k < order@.len() ==> #[trigger] order@[k] < regions@.len(),
            forall|i: int| 0 <= i < regions@.len() ==> #[trigger] regions@[i].in_range(),
            overlaps == sift(s, c as nat).overlaps,
            overlaps <= c,
            kept@.len() == sift(s, c as nat).kept.len(),
            kept@.len() == sift(s, c as nat).aliases.len(),
            forall|t: int| 0 <= t < kept@.len() ==> 0 <= #[trigger] sift(s, c as nat).kept[t] < c,
            forall|t: int| 0 <= t < kept@.len() ==> is_kept_node(#[trigger] kept@[t], s, names, sift(s, c as nat), t),
        decreases n - c,
    {
        let ghost d = sift(s, c as nat);
        let candidate: &Node = &regions[order[c]];
        assert(candidate.span() == s[c as int]);
        assert(candidate.name@ == names[c as int]);
        let mut j: usize = 0;
        let mut duplicate: bool = false;
        let mut overlapping: bool = false;
        while j < kept.len()
            invariant_except_break
                !duplicate && !overlapping,
            invariant
                j <= kept@.len(),
                kept@.len() == d.kept.len(),
                candidate.in_range(),
                candidate.span() == s[c as int],
                forall|t: int| 0 <= t < kept@.len() ==> is_kept_node(#[trigger] kept@[t], s, names, d, t),
                forall|t: int| 0 <= t < kept@.len() ==> 0 <= #[trigger] d.kept[t] < c,
                c < n,
                n == order@.len(),
                n == regions@.len(),
                s == rearranged(spans_of(regions@), order@),
                forall|k: int| 0 <= k < order@.len() ==> #[trigger] order@[k] < regions@.len(),
                forall|i: int| 0 <= i < regions@.len() ==> #[trigger] regions@[i].in_range(),
                first_clash(s, d.kept, c as int, 0) == first_clash(s, d.kept, c as int, j as int),
            ensures
                j <= kept@.len(),
                first_clash(s, d.kept, c as int, 0) == j,
                j < kept@.len() ==> (duplicate <==> s[d.kept[j as int]].same(s[c as int])),
                j < kept@.len() ==> duplicate != overlapping,
                j == kept@.len() ==> !duplicate && !overlapping,
            decreases kept@.len() - j,
        {
            let other: &Node = &kept[j];
            proof {
                assert(is_kept_node(kept@[j as int], s, names, d, j as int));
                let at = d.kept[j as int];
                assert(s[at] == regions@[order@[at] as int].span());
                assert(regions@[order@[at] as int].in_range());
            }
            if candidate.is_duplicate(other) {
                duplicate = true;
                break ;
            } else if candidate.overlaps(other) {
                overlapping = true;
                break ;
            }
            j = j + 1;
        }
        if duplicate {
            let alias = candidate.name.clone();
            let ghost before = kept@;
            kept[j].aliases.push(alias);
            proof {
                let e = sift(s, (c + 1) as nat);
                assert(e.kept == d.kept);
                assert(e.aliases == d.aliases.update(j as int, d.aliases[j as int].push(c as int)));
                assert forall|t: int| 0 <= t < kept@.len() implies is_kept_node(
                    #[trigger] kept@[t],
                    s,
                    names,
                    e,
                    t,
                ) by {
                    assert(is_kept_node(before[t], s, names, d, t));
                    if t == j {
                        assert forall|q: int| 0 <= q < kept@[t].aliases@.len() implies (
                        #[trigger] kept@[t].aliases@[q])@ == names[e.aliases[t][q]] by {
                            if q < before[t].aliases@.len() {
                                assert(kept@[t].aliases@[q] == before[t].aliases@[q]);
                            }
                        }
                    } else {
                        assert(kept@[t] == before[t]);
                    }
                }
            }
        } else if overlapping {
            overlaps = overlaps + 1;
            proof {
                let e = sift(s, (c + 1) as nat);
                assert(e.kept == d.kept);
                assert(e.aliases == d.aliases);
            }
        } else {
            let fresh = Node::new(candidate.name.clone(), candidate.offset, candidate.size);
            let ghost before = kept@;
            kept.push(fresh);
            proof {
                let e = sift(s, (c + 1) as nat);
                assert(e.kept == d.kept.push(c as int));
                assert(e.aliases == d.aliases.push(seq![]));
                assert forall|t: int| 0 <= t < kept@.len() implies is_kept_node(
                    #[trigger] kept@[t],
                    s,
                    names,
                    e,
                    t,
                ) by {
                    if t < before.len() {
                        assert(kept@[t] == before[t]);
                        assert(is_kept_node(before[t], s, names, d, t));
                    }
                }
            }
        }
        c = c + 1;
    }
    (kept, overlaps)
}

/// Both nodes stand for the same region: same name, range and aliases.
pub open spec fn same_region(a: Node, b: Node) -> bool {
    &&& a.name == b.name
    &&& a.offset == b.offset
    &&& a.size == b.size
    &&& a.aliases == b.aliases
}

/// Gives each node its parent, the nearest node before it that contains
/// it, and each parent its children, in their order. The search is linear
/// for every node, on purpose: which of several containers is found first
/// decides the depth of the node.
pub(crate) fn link_parents(nodes: &mut Vec<Node>)
    requires
        forall|t: int| 0 <= t < old(nodes)@.len() ==> #[trigger] old(nodes)@[t].in_range(),
        forall|t: int|
            0 <= t < old(nodes)@.len() ==> (#[trigger] old(nodes)@[t]).parent is None && old(
                nodes,
            )@[t].children@.len() == 0,
    ensures
        final(nodes)@.len() == old(nodes)@.len(),
        forall|t: int|
            0 <= t < final(nodes)@.len() ==> same_region(#[trigger] final(nodes)@[t], old(nodes)@[t]),
        forall|t: int|
            0 <= t < final(nodes)@.len() ==> as_int((#[trigger] final(nodes)@[t]).parent) == parent_of(
                spans_of(old(nodes)@),
                t,
            ),
        forall|t: int|
            0 <= t < final(nodes)@.len() ==> as_ints((#[trigger] final(nodes)@[t]).children@)
                == children_of(spans_of(old(nodes)@), t, old(nodes)@.len() as int),
{
    let ghost a = spans_of(nodes@);
    let ghost start = nodes@;
    let m: usize = nodes.len();
    let mut i: usize = 0;
    while i < m
        invariant
            i <= m,
            m == nodes@.len(),
            m == start.len(),
            a == spans_of(start),
            forall|t: int| 0 <= t < m ==> #[trigger] nodes@[t].in_range(),
            forall|t: int| 0 <= t < m ==> same_region(#[trigger] nodes@[t], start[t]),
            forall|t: int| 0 <= t < i ==> as_int((#[trigger] nodes@[t]).parent) == parent_of(a, t),
            forall|t: int| i <= t < m ==> (#[trigger] nodes@[t]).parent is None,
            forall|t: int|
                0 <= t < m ==> as_ints((#[trigger] nodes@[t]).children@) == children_of(a, t, i as int),
        decreases m - i,
    {
        let mut k: usize = i;
        let mut found: Option<usize> = None;
        while k > 0
            invariant_except_break
                found is None,
            invariant
                k <= i,
                i < m,
                m == nodes@.len(),
                m == start.len(),
                a == spans_of(start),
                forall|t: int| 0 <= t < m ==> #[trigger] nodes@[t].in_range(),
                forall|t: int| 0 <= t < m ==> same_region(#[trigger] nodes@[t], start[t]),
                parent_of(a, i as int) == nearest_container(a, i as int, k as int),
            ensures
                as_int(found) == parent_of(a, i as int),
                found matches Some(p) ==> p < i,
            decreases k,
        {
            proof {
                assert(same_region(nodes@[i as int], start[i as int]));
                assert(same_region(nodes@[k - 1], start[k - 1]));
            }
            if nodes[i].fits_in(&nodes[k - 1]) {
                found = Some(k - 1);
                break ;
            }
            k = k - 1;
        }
        let ghost before = nodes@;
        if let Some(p) = found {
            nodes[i].parent = Some(p);
            nodes[p].children.push(i);
        }
        proof {
            assert forall|t: int| 0 <= t < m implies as_ints((#[trigger] nodes@[t]).children@)
                == children_of(a, t, i + 1) by {
                assert(as_ints(before[t].children@) == children_of(a, t, i as int));
                if found == Some(t as usize) {
                    assert(nodes@[t].children@ == before[t].children@.push(i));
                    assert(as_ints(nodes@[t].children@) =~= as_ints(before[t].children@).push(i as int));
                } else {
                    assert(nodes@[t].children@ == before[t].children@);
                }
            }
            assert forall|t: int| 0 <= t < m implies same_region(#[trigger] nodes@[t], start[t]) by {
                assert(same_region(before[t], start[t]));
            }
            assert forall|t: int| 0 <= t < m implies #[trigger] nodes@[t].in_range() by {
                assert(before[t].in_range());
            }
            assert forall|t: int| 0 <= t < i + 1 implies as_int((#[trigger] nodes@[t]).parent)
                == parent_of(a, t) by {
                if t < i {
                    assert(as_int(before[t].parent) == parent_of(a, t));
                    assert(nodes@[t].parent == before[t].parent);
                }
            }
            assert forall|t: int| i + 1 <= t < m implies (#[trigger] nodes@[t]).parent is None by {
                assert(before[t].parent is None);
            }
        }
        i = i + 1;
    }
}

/// An uncovered part of a node: a range of the node that none of its
/// children covers.
#[derive(Debug, Clone, Copy, PartialEq, Eq, Structural)]
pub struct Unused {
    /// Position of the node in the arena.
    pub parent: usize,
    /// First uncovered byte.
    pub offset: u64,
    /// Number of uncovered bytes.
    pub size: u64,
}

impl View for Unused {
    type V = Gap;

    open spec fn view(&self) -> Gap {
        Gap { parent: self.parent as int, span: Span { offset: self.offset as int, size: self.size as int } }
    }
}

/// The gaps that `v` stands for.
pub open spec fn gaps_view(v: Seq<Unused>) -> Seq<Gap> {
    v.map_values(|u: Unused| u@)
}

/// The name of a node that stands for a gap.
pub open spec fn unused_name() -> Seq<char> {
    "[UNUSED]"@
}

/// `node` stands for the gap `u`: it has the name of a gap, exactly the
/// uncovered range, the parent whose gap it is, and neither aliases nor
/// children.
pub open spec fn is_gap_node(node: Node, u: Unused) -> bool {
    &&& node.name@ == unused_name()
    &&& node.offset == u.offset
    &&& node.size == u.size
    &&& node.aliases@.len() == 0
    &&& node.parent == Some(u.parent)
    &&& node.children@.len() == 0
}

/// The nodes are linked: each has the parent and the children that the
/// ranges of the nodes give it, and the end of each is a `u64`.
pub open spec fn is_linked(nodes: Seq<Node>) -> bool {
    &&& forall|t: int| 0 <= t < nodes.len() ==> #[trigger] nodes[t].in_range()
    &&& forall|t: int|
        0 <= t < nodes.len() ==> as_int((#[trigger] nodes[t]).parent) == parent_of(spans_of(nodes), t)
    &&& forall|t: int|
        0 <= t < nodes.len() ==> as_ints((#[trigger] nodes[t]).children@) == children_of(
            spans_of(nodes),
            t,
            nodes.len() as int,
        )
}

/// A node that stands for the gap `[offset, offset + size)` of node `parent`.
fn gap_node(parent: usize, offset: u64, size: u64) -> (r: Node)
    ensures
        is_gap_node(r, Unused { parent, offset, size }),
{
    let mut node = Node::new(String::from_str("[UNUSED]"), offset, size);
    node.parent = Some(parent);
    node
}

/// Finds the gaps of every node that has children: before its first child,
/// between two children, and after its last child. Returns them, those of
/// an earlier node first, each node's by offset ascending.
///
/// With `show_gaps`, every gap also becomes a node: the gap nodes follow the
/// region nodes in the arena, in the order of the result, and each stands
/// in the row of its parent at its place by offset. Without, `nodes` is
/// left as it is.
pub(crate) fn find_gaps(nodes: &mut Vec<Node>, show_gaps: bool) -> (unused: Vec<Unused>)
    requires
        is_linked(old(nodes)@),
    ensures
        gaps_view(unused@) == gaps_below(spans_of(old(nodes)@), old(nodes)@.len() as int),
        !show_gaps ==> final(nodes)@ == old(nodes)@,
        show_gaps ==> final(nodes)@.len() == old(nodes)@.len() + unused@.len(),
        show_gaps ==> forall|t: int|
            0 <= t < old(nodes)@.len() ==> same_region(#[trigger] final(nodes)@[t], old(nodes)@[t])
                && final(nodes)@[t].parent == old(nodes)@[t].parent && as_ints(
                final(nodes)@[t].children@,
            ) == row_with_gaps(spans_of(old(nodes)@), t),
        show_gaps ==> forall|g: int|
            0 <= g < unused@.len() ==> is_gap_node(
                #[trigger] final(nodes)@[old(nodes)@.len() + g],
                unused@[g],
            ),
        forall|g: int| 0 <= g < unused@.len() ==> (#[trigger] unused@[g]).offset + unused@[g].size <= u64::MAX,
{
    let ghost start = nodes@;
    let ghost a = spans_of(start);
    let m: usize = nodes.len();
    let mut unused: Vec<Unused> = Vec::new();
    let mut k: usize = 0;
    assert(gaps_view(unused@) =~= gaps_below(a, 0));
    while k < m
        invariant
            k <= m,
            m == start.len(),
            a == spans_of(start),
            is_linked(start),
            nodes@.len() >= m,
            !show_gaps ==> nodes@ == start,
            show_gaps ==> nodes@.len() == m + unused@.len(),
            gaps_view(unused@) == gaps_below(a, k as int),
            forall|t: int|
                0 <= t < m ==> same_region(#[trigger] nodes@[t], start[t]) && nodes@[t].parent
                    == start[t].parent,
            forall|t: int| k <= t < m ==> (#[trigger] nodes@[t]).children == start[t].children,
            show_gaps ==> forall|t: int|
                0 <= t < k ==> as_ints((#[trigger] nodes@[t]).children@) == row_with_gaps(a, t),
            show_gaps ==> forall|g: int|
                0 <= g < unused@.len() ==> is_gap_node(#[trigger] nodes@[m + g], unused@[g]),
            forall|g: int|
                0 <= g < unused@.len() ==> (#[trigger] unused@[g]).offset + unused@[g].size <= u64::MAX,
        decreases m - k,
    {
        let ghost kid_at = children_of(a, k as int, m as int);
        let ghost kids = child_spans(a, k as int);
        let ghost first_gap = m + gaps_below(a, k as int).len();
        let ghost below = gaps_below(a, k as int);
        proof {
            lemma_children_of(a, k as int, m as int);
            assert(as_ints(start[k as int].children@) == kid_at);
            assert(nodes@[k as int].children == start[k as int].children);
            assert(same_region(nodes@[k as int], start[k as int]));
            assert(start[k as int].in_range());
        }
        let count: usize = nodes[k].children.len();
        if count > 0 {
            let parent_end: u64 = nodes[k].end();
            let mut row: Vec<usize> = Vec::new();
            let mut lo: u64 = nodes[k].offset;
            let mut i: usize = 0;
            assert(gaps_view(unused@) =~= below + gaps_upto(k as int, a[k as int], kids, 0));
            let ghost mid = nodes@;
            while i < count
                invariant
                    i <= count,
                    k < m,
                    m == start.len(),
                    a == spans_of(start),
                    is_linked(start),
                    kid_at == children_of(a, k as int, m as int),
                    kids == child_spans(a, k as int),
                    below == gaps_below(a, k as int),
                    first_gap == m + below.len(),
                    count == kid_at.len(),
                    count == kids.len(),
                    as_ints(start[k as int].children@) == kid_at,
                    forall|j: int|
                        0 <= j < kid_at.len() ==> k < (#[trigger] kid_at[j]) < m,
                    mid.len() >= m,
                    nodes@.len() >= mid.len(),
                    forall|t: int| 0 <= t < mid.len() ==> #[trigger] nodes@[t] == mid[t],
                    forall|t: int| k <= t < m ==> (#[trigger] mid[t]).children == start[t].children,
                    forall|t: int|
                        0 <= t < m ==> same_region(#[trigger] mid[t], start[t]) && mid[t].parent
                            == start[t].parent,
                    !show_gaps ==> nodes@ == start,
                    show_gaps ==> nodes@.len() == m + unused@.len(),
                    show_gaps ==> forall|g: int|
                        0 <= g < unused@.len() ==> is_gap_node(#[trigger] nodes@[m + g], unused@[g]),
                    forall|g: int|
                        0 <= g < unused@.len() ==> (#[trigger] unused@[g]).offset + unused@[g].size
                            <= u64::MAX,
                    lo == (if i == 0 {
                        a[k as int].offset
                    } else {
                        kids[i - 1].end()
                    }),
                    gaps_view(unused@) == below + gaps_upto(k as int, a[k as int], kids, i as int),
                    show_gaps ==> as_ints(row@) == row_upto(
                        k as int,
                        a[k as int],
                        kid_at,
                        kids,
                        first_gap as int,
                        i as int,
                    ),
                decreases count - i,
            {
                proof {
                    assert(nodes@[k as int] == mid[k as int]);
                    assert(mid[k as int].children == start[k as int].children);
                }
                let c: usize = nodes[k].children[i];
                proof {
                    assert(as_ints(start[k as int].children@)[i as int] == c);
                    assert(kid_at[i as int] == c);
                    assert(nodes@[c as int] == mid[c as int]);
                    assert(same_region(mid[c as int], start[c as int]));
                    assert(start[c as int].in_range());
                    assert(kids[i as int] == a[c as int]);
                }
                let child_offset: u64 = nodes[c].offset;
                let child_end: u64 = nodes[c].end();
                let ghost before_unused = unused@;
                let ghost before_row = row@;
                let ghost before_nodes = nodes@;
                if lo < child_offset {
                    if show_gaps {
                        row.push(nodes.len());
                        nodes.push(gap_node(k, lo, child_offset - lo));
                    }
                    unused.push(Unused { parent: k, offset: lo, size: child_offset - lo });
                    proof {
                        assert(gaps_view(unused@) =~= gaps_view(before_unused).push(unused@.last()@));
                    }
                }
                if show_gaps {
                    row.push(c);
                }
                proof {
                    let g = gap_at(a[k as int], kids, i as int);
                    assert(gaps_view(unused@) =~= below + gaps_upto(
                        k as int,
                        a[k as int],
                        kids,
                        i + 1,
                    ));
                    if show_gaps {
                        assert(as_ints(row@) =~= row_upto(
                            k as int,
                            a[k as int],
                            kid_at,
                            kids,
                            first_gap as int,
                            i + 1,
                        ));
                        assert forall|g: int| 0 <= g < unused@.len() implies is_gap_node(
                            #[trigger] nodes@[m + g],
                            unused@[g],
                        ) by {
                            if g < before_unused.len() {
                                assert(nodes@[m + g] == before_nodes[m + g]);
                            }
                        }
                    }
                }
                lo = child_end;
                i = i + 1;
            }
            let ghost before_unused = unused@;
            let ghost before_row = row@;
            let ghost before_nodes = nodes@;
            if lo < parent_end {
                if show_gaps {
                    row.push(nodes.len());
                    nodes.push(gap_node(k, lo, parent_end - lo));
                }
                unused.push(Unused { parent: k, offset: lo, size: parent_end - lo });
                proof {
                    assert(gaps_view(unused@) =~= gaps_view(before_unused).push(unused@.last()@));
                }
            }
            proof {
                assert(gaps_view(unused@) =~= below + gaps_upto(
                    k as int,
                    a[k as int],
                    kids,
                    count + 1,
                ));
                assert(gaps_of(a, k as int) == gaps_upto(k as int, a[k as int], kids, count + 1));
                if show_gaps {
                    assert(as_ints(row@) =~= row_upto(
                        k as int,
                        a[k as int],
                        kid_at,
                        kids,
                        first_gap as int,
                        count + 1,
                    ));
                    assert(as_ints(row@) == row_with_gaps(a, k as int));
                    assert forall|g: int| 0 <= g < unused@.len() implies is_gap_node(
                        #[trigger] nodes@[m + g],
                        unused@[g],
                    ) by {
                        if g < before_unused.len() {
                            assert(nodes@[m + g] == before_nodes[m + g]);
                        }
                    }
                }
            }
            let ghost before_set = nodes@;
            if show_gaps {
                nodes[k].children = row;
            }
            proof {
                assert forall|t: int| 0 <= t < m implies same_region(#[trigger] nodes@[t], start[t])
                    && nodes@[t].parent == start[t].parent by {
                    assert(before_set[t] == mid[t]);
                }
                assert forall|t: int| k + 1 <= t < m implies (#[trigger] nodes@[t]).children
                    == start[t].children by {
                    assert(before_set[t] == mid[t]);
                }
                if show_gaps {
                    assert forall|t: int| 0 <= t < k + 1 implies as_ints(
                        (#[trigger] nodes@[t]).children@,
                    ) == row_with_gaps(a, t) by {
                        if t < k {
                            assert(before_set[t] == mid[t]);
                        }
                    }
                    assert forall|g: int| 0 <= g < unused@.len() implies is_gap_node(
                        #[trigger] nodes@[m + g],
                        unused@[g],
                    ) by {
                        assert(nodes@[m + g] == before_set[m + g]);
                    }
                }
            }
        } else {
            proof {
                assert(kids.len() == 0);
                assert(gaps_of(a, k as int) =~= Seq::<Gap>::empty());
                assert(gaps_view(unused@) =~= gaps_below(a, k + 1));
                if show_gaps {
                    assert(row_with_gaps(a, k as int) =~= Seq::<int>::empty());
                    assert(as_ints(nodes@[k as int].children@) =~= row_with_gaps(a, k as int));
                }
            }
        }
        k = k + 1;
    }
    unused
}

/// The name of the node that stands for the whole image.
pub open spec fn root_name() -> Seq<char> {
    "-entire flash-"@
}

/// The range of the whole image: from the base of the flash map, as long
/// as the flash map says, cut short where its end would not fit a `u64`.
pub open spec fn root_span(fmap: &FMap) -> Span {
    Span {
        offset: fmap.base as int,
        size: if fmap.base + fmap.size <= u64::MAX {
            fmap.size as int
        } else {
            u64::MAX - fmap.base
        },
    }
}

/// The ranges of the regions of a flash map: the whole image first, then
/// the areas in their order.
pub open spec fn region_spans(fmap: &FMap) -> Seq<Span> {
    Seq::new(
        fmap.areas@.len() + 1,
        |i: int|
            if i == 0 {
                root_span(fmap)
            } else {
                Span { offset: fmap.areas@[i - 1].offset as int, size: fmap.areas@[i - 1].size as int }
            },
    )
}

/// The names of the regions of a flash map, in the order of
/// [`region_spans`].
pub open spec fn region_names(fmap: &FMap) -> Seq<Seq<char>> {
    Seq::new(
        fmap.areas@.len() + 1,
        |i: int|
            if i == 0 {
                root_name()
            } else {
                fmap.areas@[i - 1].name@
            },
    )
}

/// The regions of a flash map as nodes that are not linked yet: the whole
/// image first, then the areas in their order.
pub fn region_nodes(fmap: &FMap) -> (r: Vec<Node>)
    ensures
        spans_of(r@) == region_spans(fmap),
        names_of(r@) == region_names(fmap),
        forall|i: int| 0 <= i < r@.len() ==> #[trigger] r@[i].in_range(),
        forall|i: int|
            0 <= i < r@.len() ==> (#[trigger] r@[i]).aliases@.len() == 0 && r@[i].parent is None
                && r@[i].children@.len() == 0,
{
    let mut nodes: Vec<Node> = Vec::new();
    let room: u64 = u64::MAX - fmap.base;
    let size: u64 = if fmap.size as u64 <= room {
        fmap.size as u64
    } else {
        room
    };
    nodes.push(Node::new(String::from_str("-entire flash-"), fmap.base, size));
    let mut i: usize = 0;
    while i < fmap.areas.len()
        invariant
            i <= fmap.areas@.len(),
            nodes@.len() == i + 1,
            nodes@[0].span() == root_span(fmap),
            nodes@[0].name@ == root_name(),
            forall|j: int| 0 <= j < nodes@.len() ==> #[trigger] nodes@[j].in_range(),
            forall|j: int|
                0 <= j < nodes@.len() ==> (#[trigger] nodes@[j]).aliases@.len() == 0 && nodes@[j].parent
                    is None && nodes@[j].children@.len() == 0,
            forall|j: int|
                1 <= j < nodes@.len() ==> (#[trigger] nodes@[j]).span() == region_spans(fmap)[j]
                    && nodes@[j].name@ == region_names(fmap)[j],
        decreases fmap.areas@.len() - i,
    {
        let area = &fmap.areas[i];
        nodes.push(Node::new(area.name.clone(), area.offset as u64, area.size as u64));
        i = i + 1;
    }
    assert(spans_of(nodes@) =~= region_spans(fmap));
    assert(names_of(nodes@) =~= region_names(fmap));
    nodes
}

/// The region tree of a flash map: one arena of nodes, with what was found
/// on the way.
#[derive(Debug)]
pub struct Forest {
    /// The arena. The first `regions` nodes stand for regions, in the
    /// canonical order; the nodes after them stand for gaps.
    pub nodes: Vec<Node>,
    /// The number of nodes that stand for regions.
    pub regions: usize,
    /// The gaps, those of an earlier node first.
    pub unused: Vec<Unused>,
    /// The number of regions left out because they overlap a node in part.
    pub overlaps: usize,
}

/// Why no tree was built.
#[derive(Debug, Clone, Copy, PartialEq, Eq, Structural)]
pub enum TreeError {
    /// This many regions overlap another one in part.
    Overlaps(usize),
}

/// What a forest says: the mathematical value of a [`Forest`].
pub struct ForestView {
    pub nodes: Seq<NodeView>,
    pub regions: nat,
    pub unused: Seq<Gap>,
    pub overlaps: nat,
}

impl View for Forest {
    type V = ForestView;

    open spec fn view(&self) -> ForestView {
        ForestView {
            nodes: views_of(self.nodes@),
            regions: self.regions as nat,
            unused: gaps_view(self.unused@),
            overlaps: self.overlaps as nat,
        }
    }
}

/// Node `t` of the tree of the regions with ranges `s` and names `names`:
/// it has the name and the range of the candidate kept at `t`, the names of
/// the candidates folded into it as aliases, the nearest node before it
/// that contains it as parent, and as children the nodes whose parent it
/// is, with its gaps between them where gaps are nodes.
pub open spec fn region_view(s: Seq<Span>, names: Seq<Seq<char>>, show_gaps: bool, t: int) -> NodeView {
    let d = sift(s, s.len());
    let a = picked(s, d.kept);
    NodeView {
        name: names[d.kept[t]],
        span: a[t],
        aliases: picked(names, d.aliases[t]),
        parent: parent_of(a, t),
        children: if show_gaps {
            row_with_gaps(a, t)
        } else {
            children_of(a, t, a.len() as int)
        },
    }
}

/// The node that stands for the gap `gap`: it has the name of a gap, the
/// uncovered range, and the node whose gap it is as parent.
pub open spec fn gap_view(gap: Gap) -> NodeView {
    NodeView { name: unused_name(), span: gap.span, aliases: seq![], parent: Some(gap.parent), children: seq![] }
}

/// The tree of the regions with ranges `s` and names `names`, which are in
/// canonical order. Its region nodes are what the pass over `s` keeps; its
/// gaps are the gaps under those nodes. With `show_gaps` the gaps are nodes
/// too: they follow the region nodes in the arena, and stand in the rows of
/// their parents.
pub open spec fn tree_of(s: Seq<Span>, names: Seq<Seq<char>>, show_gaps: bool) -> ForestView {
    let d = sift(s, s.len());
    let a = picked(s, d.kept);
    let m = d.kept.len();
    let gaps = all_gaps(a);
    ForestView {
        nodes: Seq::new(
            if show_gaps {
                m + gaps.len()
            } else {
                m
            },
            |t: int|
                if t < m {
                    region_view(s, names, show_gaps, t)
                } else {
                    gap_view(gaps[t - m])
                },
        ),
        regions: m,
        unused: gaps,
        overlaps: d.overlaps,
    }
}

impl Forest {
    /// The arena can be walked: every parent is an earlier position, every
    /// child a later one, the end of every node is a `u64`, and every node
    /// that stands for a gap has a parent.
    pub open spec fn wf(&self) -> bool {
        &&& self.regions <= self.nodes@.len()
        &&& parents_point_back(views_of(self.nodes@))
        &&& forall|t: int| 0 <= t < self.nodes@.len() ==> #[trigger] self.nodes@[t].in_range()
        &&& forall|t: int, j: int|
            0 <= t < self.nodes@.len() && 0 <= j < self.nodes@[t].children@.len() ==> t
                < #[trigger] self.nodes@[t].children@[j] < self.nodes@.len()
        &&& forall|t: int|
            self.regions <= t < self.nodes@.len() ==> (#[trigger] self.nodes@[t]).parent is Some
    }

    /// The number of gaps.
    pub fn gap_count(&self) -> (r: usize)
        ensures
            r == self@.unused.len(),
    {
        self.unused.len()
    }
}

/// The region tree of a flash map.
///
/// The regions are the whole image and the areas. They are taken in the
/// canonical order. An area that repeats the range of a node becomes an
/// alias of it; an area that overlaps a node in part is left out and
/// counted. Each node that is left gets as parent the nearest node before
/// it that contains it. The gaps under every node with children are listed
/// and, with `show_gaps`, become nodes.
///
/// Fails exactly when some region overlaps and `ignore_overlap` is not set;
/// the error carries the number of such regions.
pub fn build_tree(fmap: &FMap, show_gaps: bool, ignore_overlap: bool) -> (r: Result<Forest, TreeError>)
    ensures
        ({
            let order = canonical_order(region_spans(fmap));
            let s = rearranged(region_spans(fmap), order);
            let names = rearranged(region_names(fmap), order);
            let overlaps = sift(s, s.len()).overlaps;
            &&& is_canonical_order(region_spans(fmap), order)
            &&& match r {
                Ok(forest) => (ignore_overlap || overlaps == 0) && forest@ == tree_of(s, names, show_gaps)
                    && forest.wf(),
                Err(TreeError::Overlaps(n)) => !ignore_overlap && overlaps > 0 && n == overlaps,
            }
        }),
{
    let regions = region_nodes(fmap);
    let order = sort_positions(&regions);
    let ghost s = rearranged(region_spans(fmap), order@);
    let ghost names = rearranged(region_names(fmap), order@);
    let ghost d = sift(s, s.len());
    let ghost a = picked(s, d.kept);
    proof {
        lemma_canonical_order_unique(region_spans(fmap), order@, order@);
        lemma_sift_shape(s, s.len());
    }
    let (mut nodes, overlaps) = sift_regions(&regions, &order);
    if overlaps != 0 && !ignore_overlap {
        return Err(TreeError::Overlaps(overlaps));
    }
    let m: usize = nodes.len();
    let ghost kept = nodes@;
    proof {
        assert forall|t: int| 0 <= t < kept.len() implies #[trigger] kept[t].in_range() by {
            assert(is_kept_node(kept[t], s, names, d, t));
            let at = d.kept[t];
            assert(s[at] == regions@[order@[at] as int].span());
            assert(regions@[order@[at] as int].in_range());
        }
        assert forall|t: int| 0 <= t < kept.len() implies (#[trigger] kept[t]).parent is None
            && kept[t].children@.len() == 0 by {
            assert(is_kept_node(kept[t], s, names, d, t));
        }
        assert(spans_of(kept) =~= a) by {
            assert forall|t: int| 0 <= t < kept.len() implies spans_of(kept)[t] == a[t] by {
                assert(is_kept_node(kept[t], s, names, d, t));
            }
        }
    }
    link_parents(&mut nodes);
    let ghost linked = nodes@;
    proof {
        assert(spans_of(linked) =~= a) by {
            assert forall|t: int| 0 <= t < linked.len() implies spans_of(linked)[t] == a[t] by {
                assert(same_region(linked[t], kept[t]));
                assert(spans_of(kept)[t] == a[t]);
            }
        }
        assert forall|t: int| 0 <= t < linked.len() implies #[trigger] linked[t].in_range() by {
            assert(same_region(linked[t], kept[t]));
            assert(kept[t].in_range());
        }
        assert(is_linked(linked));
    }
    let unused = find_gaps(&mut nodes, show_gaps);
    let forest = Forest { nodes, regions: m, unused, overlaps };
    proof {
        let want = tree_of(s, names, show_gaps);
        assert(forest@.nodes.len() == want.nodes.len());
        assert forall|t: int| 0 <= t < forest.nodes@.len() implies #[trigger] forest@.nodes[t]
            == want.nodes[t] by {
            let node = forest.nodes@[t];
            if t < m {
                assert(same_region(linked[t], kept[t]));
                assert(is_kept_node(kept[t], s, names, d, t));
                assert(as_int(linked[t].parent) == parent_of(a, t));
                assert(as_ints(linked[t].children@) == children_of(a, t, m as int));
                if show_gaps {
                    assert(same_region(node, linked[t]));
                }
                assert(node@.aliases =~= picked(names, d.aliases[t])) by {
                    assert forall|q: int| 0 <= q < node.aliases@.len() implies node@.aliases[q] == names[d.aliases[t][q]] by {
                        assert(kept[t].aliases@[q]@ == names[d.aliases[t][q]]);
                    }
                }
                assert(node@ == region_view(s, names, show_gaps, t));
            } else {
                let g = t - m;
                assert(is_gap_node(forest.nodes@[m + g], forest.unused@[g]));
                assert(gaps_view(forest.unused@)[g] == forest.unused@[g]@);
                assert(node@.aliases =~= Seq::<Seq<char>>::empty());
                assert(node@.children =~= Seq::<int>::empty());
                assert(node@ == gap_view(all_gaps(a)[g]));
            }
        }
        assert(forest@.nodes =~= want.nodes);
        assert forall|t: int| 0 <= t < forest.nodes@.len() implies #[trigger] forest.nodes@[t].in_range() by {
            if t < m {
                assert(linked[t].in_range());
                if show_gaps {
                    assert(same_region(forest.nodes@[t], linked[t]));
                }
            } else {
                let g = t - m;
                assert(is_gap_node(forest.nodes@[m + g], forest.unused@[g]));
            }
        }
        lemma_forest_wf(forest, s, names, show_gaps);
    }
    Ok(forest)
}

/// A forest that is the tree of some regions can be walked.
pub proof fn lemma_forest_wf(forest: Forest, s: Seq<Span>, names: Seq<Seq<char>>, show_gaps: bool)
    requires
        forest@ == tree_of(s, names, show_gaps),
        forall|t: int| 0 <= t < forest.nodes@.len() ==> #[trigger] forest.nodes@[t].in_range(),
    ensures
        forest.wf(),
{
    let d = sift(s, s.len());
    let a = picked(s, d.kept);
    let m = d.kept.len() as int;
    let nodes = forest.nodes@;
    let views = views_of(nodes);
    let want = tree_of(s, names, show_gaps);
    lemma_gap_parents(a, m);
    assert(views.len() == nodes.len());
    assert forall|t: int| 0 <= t < views.len() implies (#[trigger] views[t].parent matches Some(p) ==> 0
        <= p < t) by {
        assert(views[t] == want.nodes[t]);
        if t < m {
            lemma_nearest_container(a, t, t);
        }
    }
    assert forall|t: int, j: int|
        0 <= t < nodes.len() && 0 <= j < nodes[t].children@.len() implies t
        < #[trigger] nodes[t].children@[j] < nodes.len() by {
        assert(views[t] == want.nodes[t]);
        assert(views[t] == nodes[t]@);
        let row = as_ints(nodes[t].children@);
        assert(row.len() == nodes[t].children@.len());
        assert(row[j] == nodes[t].children@[j]);
        assert(row == want.nodes[t].children);
        if t < m {
            lemma_children_of(a, t, m);
            let kid_at = children_of(a, t, m);
            if show_gaps {
                assert(row == row_with_gaps(a, t));
                if kid_at.len() > 0 {
                    let kids = child_spans(a, t);
                    let first_gap = m + gaps_below(a, t).len();
                    assert(kids.len() == kid_at.len());
                    lemma_row_members(t, a[t], kid_at, kids, first_gap, kid_at.len() as int + 1);
                    lemma_gaps_below_grows(a, t + 1, m);
                    assert(gaps_below(a, t + 1) == gaps_below(a, t) + gaps_of(a, t));
                    assert(gaps_of(a, t) == gaps_upto(t, a[t], kids, kid_at.len() as int + 1));
                    assert(row[j] < first_gap + gaps_of(a, t).len());
                }
            } else {
                assert(row == kid_at);
            }
        } else {
            assert(want.nodes[t] == gap_view(all_gaps(a)[t - m]));
        }
    }
    assert forall|t: int| forest.regions <= t < nodes.len() implies (#[trigger] nodes[t]).parent is Some by {
        assert(views[t] == want.nodes[t]);
        assert(views[t] == nodes[t]@);
    }
}

} // verus!
