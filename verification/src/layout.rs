//! The mathematics of the region tree: what is kept, what is folded into an
//! alias, what is rejected as an overlap, which node is whose parent, and
//! where the gaps are. Everything here is a statement about sequences of
//! [`Span`]s; [`crate::tree`] computes it.
use crate::region::Span;
use vstd::prelude::*;

verus! {

/// Region `i` comes before region `j` in the canonical order: by offset
/// ascending, then by size descending, and of two regions with the same
/// range the one given first.
pub open spec fn comes_before(spans: Seq<Span>, i: int, j: int) -> bool {
    spans[i].before(spans[j]) || (spans[i].same(spans[j]) && i < j)
}

/// `order` lists every one of the first `n` positions of `spans` once, in
/// the canonical order.
pub open spec fn orders_first(spans: Seq<Span>, n: nat, order: Seq<usize>) -> bool {
    &&& order.len() == n
    &&& forall|k: int| 0 <= k < order.len() ==> #[trigger] order[k] < n
    &&& forall|k: int, l: int|
        0 <= k < l < order.len() ==> comes_before(
            spans,
            #[trigger] order[k] as int,
            #[trigger] order[l] as int,
        )
    &&& forall|v: usize| v < n ==> #[trigger] order.contains(v)
}

/// `order` lists every position of `spans` once, in the canonical order.
pub open spec fn is_canonical_order(spans: Seq<Span>, order: Seq<usize>) -> bool {
    orders_first(spans, spans.len(), order)
}

/// The canonical order of `spans`. There is at most one
/// ([`lemma_canonical_order_unique`]).
pub open spec fn canonical_order(spans: Seq<Span>) -> Seq<usize> {
    choose|order: Seq<usize>| is_canonical_order(spans, order)
}

/// `items` rearranged by `order`.
pub open spec fn rearranged<T>(items: Seq<T>, order: Seq<usize>) -> Seq<T> {
    Seq::new(order.len(), |k: int| items[order[k] as int])
}

/// The first position `j >= from` of `kept` whose region clashes with
/// candidate `c`, or the length of `kept` if there is none.
pub open spec fn first_clash(s: Seq<Span>, kept: Seq<int>, c: int, from: int) -> int
    decreases kept.len() - from,
{
    if from < 0 || from >= kept.len() {
        kept.len() as int
    } else if s[kept[from]].clashes(s[c]) {
        from
    } else {
        first_clash(s, kept, c, from + 1)
    }
}

/// What one pass over the candidates in canonical order leaves.
pub struct Sift {
    /// The candidates that became nodes, ascending.
    pub kept: Seq<int>,
    /// For each node, the candidates folded into it as aliases, ascending.
    pub aliases: Seq<Seq<int>>,
    /// The number of candidates rejected because they overlap a node in part.
    pub overlaps: nat,
}

/// The pass over the first `k` candidates of `s`, which is in canonical
/// order. A candidate is compared with the nodes kept so far, in order. At
/// the first one that it clashes with, it becomes an alias of that node if
/// their ranges are the same, and counts as an overlap if not. A candidate
/// that clashes with no node becomes a node.
pub open spec fn sift(s: Seq<Span>, k: nat) -> Sift
    decreases k,
{
    if k == 0 {
        Sift { kept: seq![], aliases: seq![], overlaps: 0 }
    } else {
        let d = sift(s, (k - 1) as nat);
        let c = k - 1;
        let j = first_clash(s, d.kept, c, 0);
        if j == d.kept.len() {
            Sift { kept: d.kept.push(c), aliases: d.aliases.push(seq![]), overlaps: d.overlaps }
        } else if s[d.kept[j]].same(s[c]) {
            Sift { kept: d.kept, aliases: d.aliases.update(j, d.aliases[j].push(c)), overlaps: d.overlaps }
        } else {
            Sift { kept: d.kept, aliases: d.aliases, overlaps: d.overlaps + 1 }
        }
    }
}

/// The items at the positions `at`.
pub open spec fn picked<T>(items: Seq<T>, at: Seq<int>) -> Seq<T> {
    Seq::new(at.len(), |t: int| items[at[t]])
}

/// The ranges of the nodes that the pass over all of `s` keeps.
pub open spec fn kept_spans(s: Seq<Span>) -> Seq<Span> {
    picked(s, sift(s, s.len()).kept)
}

/// The nearest node before position `below` that contains node `i`: the
/// largest `k < below` with `a[i]` inside `a[k]`.
pub open spec fn nearest_container(a: Seq<Span>, i: int, below: int) -> Option<int>
    decreases below,
{
    if below <= 0 {
        None
    } else if a[i].fits_in(a[below - 1]) {
        Some(below - 1)
    } else {
        nearest_container(a, i, below - 1)
    }
}

/// The parent of node `i`: the nearest node before it that contains it.
pub open spec fn parent_of(a: Seq<Span>, i: int) -> Option<int> {
    nearest_container(a, i, i)
}

/// The children of node `k` among the nodes before position `upto`,
/// ascending.
pub open spec fn children_of(a: Seq<Span>, k: int, upto: int) -> Seq<int>
    decreases upto,
{
    if upto <= 0 {
        seq![]
    } else if parent_of(a, upto - 1) == Some(k) {
        children_of(a, k, upto - 1).push(upto - 1)
    } else {
        children_of(a, k, upto - 1)
    }
}

/// The part of `p` that no child covers at slot `i` of the non-empty row
/// `kids`: before the first child (`i == 0`), between child `i - 1` and
/// child `i`, or after the last child (`i == kids.len()`).
pub open spec fn gap_at(p: Span, kids: Seq<Span>, i: int) -> Option<Span> {
    let lo = if i == 0 {
        p.offset
    } else {
        kids[i - 1].end()
    };
    let hi = if i == kids.len() {
        p.end()
    } else {
        kids[i].offset
    };
    if lo < hi {
        Some(Span { offset: lo, size: hi - lo })
    } else {
        None
    }
}

/// An uncovered part of a node: the node's position and the range that
/// none of its children covers.
pub struct Gap {
    pub parent: int,
    pub span: Span,
}

/// The gaps of node `k`, with range `p` and the non-empty row of children
/// `kids`, at the slots before slot `i`, by offset ascending.
pub open spec fn gaps_upto(k: int, p: Span, kids: Seq<Span>, i: int) -> Seq<Gap>
    decreases i,
{
    if i <= 0 {
        seq![]
    } else {
        match gap_at(p, kids, i - 1) {
            Some(g) => gaps_upto(k, p, kids, i - 1).push(Gap { parent: k, span: g }),
            None => gaps_upto(k, p, kids, i - 1),
        }
    }
}

/// The ranges of the children of node `k`.
pub open spec fn child_spans(a: Seq<Span>, k: int) -> Seq<Span> {
    picked(a, children_of(a, k, a.len() as int))
}

/// The gaps of node `k`: one for each part of it that its children leave
/// uncovered. A node without children has none.
pub open spec fn gaps_of(a: Seq<Span>, k: int) -> Seq<Gap> {
    let kids = child_spans(a, k);
    if kids.len() == 0 {
        seq![]
    } else {
        gaps_upto(k, a[k], kids, kids.len() as int + 1)
    }
}

/// The gaps of the nodes before position `k`, those of an earlier node
/// first.
pub open spec fn gaps_below(a: Seq<Span>, k: int) -> Seq<Gap>
    decreases k,
{
    if k <= 0 {
        seq![]
    } else {
        gaps_below(a, k - 1) + gaps_of(a, k - 1)
    }
}

/// All the gaps under the nodes `a`.
pub open spec fn all_gaps(a: Seq<Span>) -> Seq<Gap> {
    gaps_below(a, a.len() as int)
}

/// The row of a node once its gaps are nodes too, up to slot `i`: for each
/// slot before `i`, the gap node of that slot if it has a gap, then the
/// child of that slot if it has one. The gap nodes of the row are numbered
/// from `first_gap` on.
pub open spec fn row_upto(
    k: int,
    p: Span,
    kid_at: Seq<int>,
    kids: Seq<Span>,
    first_gap: int,
    i: int,
) -> Seq<int>
    decreases i,
{
    if i <= 0 {
        seq![]
    } else {
        let head = row_upto(k, p, kid_at, kids, first_gap, i - 1);
        let gap = if gap_at(p, kids, i - 1) is Some {
            seq![first_gap + gaps_upto(k, p, kids, i - 1).len()]
        } else {
            seq![]
        };
        let kid = if i - 1 < kid_at.len() {
            seq![kid_at[i - 1]]
        } else {
            seq![]
        };
        head + gap + kid
    }
}

/// The row of node `k` once gaps are nodes too: the positions in the arena
/// of its children and of its gap nodes, by offset ascending. In the arena
/// the gap nodes follow the `a.len()` region nodes, in the order of
/// [`all_gaps`].
pub open spec fn row_with_gaps(a: Seq<Span>, k: int) -> Seq<int> {
    let kid_at = children_of(a, k, a.len() as int);
    if kid_at.len() == 0 {
        seq![]
    } else {
        row_upto(
            k,
            a[k],
            kid_at,
            child_spans(a, k),
            a.len() as int + gaps_below(a, k).len() as int,
            kid_at.len() as int + 1,
        )
    }
}

/// The nearest container of a node, if there is one, is a position before
/// `below` that contains the node, and no position between it and `below`
/// does.
pub proof fn lemma_nearest_container(a: Seq<Span>, i: int, below: int)
    ensures
        nearest_container(a, i, below) matches Some(p) ==> 0 <= p < below && a[i].fits_in(a[p]) && forall|
            q: int,
        |
            p < q < below ==> !a[i].fits_in(#[trigger] a[q]),
        nearest_container(a, i, below) is None ==> forall|q: int|
            0 <= q < below ==> !a[i].fits_in(#[trigger] a[q]),
    decreases below,
{
    if below > 0 && !a[i].fits_in(a[below - 1]) {
        lemma_nearest_container(a, i, below - 1);
    }
}

/// The children of node `k` are positions after `k` and before `upto`,
/// ascending, and `k` is the parent of each of them.
pub proof fn lemma_children_of(a: Seq<Span>, k: int, upto: int)
    ensures
        children_of(a, k, upto).len() <= if upto < 0 {
            0
        } else {
            upto
        },
        forall|j: int|
            0 <= j < children_of(a, k, upto).len() ==> k < (#[trigger] children_of(a, k, upto)[j]) < upto
                && parent_of(a, children_of(a, k, upto)[j]) == Some(k),
        forall|j: int, l: int|
            0 <= j < l < children_of(a, k, upto).len() ==> (#[trigger] children_of(a, k, upto)[j]) < (
            #[trigger] children_of(a, k, upto)[l]),
    decreases upto,
{
    if upto > 0 {
        lemma_children_of(a, k, upto - 1);
        lemma_nearest_container(a, upto - 1, upto - 1);
    }
}

/// Two canonical orders of the same ranges agree at the positions before
/// `upto`.
proof fn lemma_orders_agree(spans: Seq<Span>, first: Seq<usize>, second: Seq<usize>, upto: int)
    requires
        is_canonical_order(spans, first),
        is_canonical_order(spans, second),
        0 <= upto <= spans.len(),
    ensures
        forall|j: int| 0 <= j < upto ==> first[j] == second[j],
    decreases upto,
{
    if upto > 0 {
        lemma_orders_agree(spans, first, second, upto - 1);
        let p = upto - 1;
        let v = first[p];
        let w = second[p];
        assert(second.contains(v));
        let l = choose|l: int| 0 <= l < second.len() && second[l] == v;
        assert(first.contains(w));
        let r = choose|r: int| 0 <= r < first.len() && first[r] == w;
        if l < p {
            assert(first[l] == second[l]);
            assert(comes_before(spans, first[l] as int, first[p] as int));
        } else if l > p {
            assert(comes_before(spans, second[p] as int, second[l] as int));
            if r < p {
                assert(first[r] == second[r]);
                assert(comes_before(spans, second[r] as int, second[p] as int));
            } else if r > p {
                assert(comes_before(spans, first[p] as int, first[r] as int));
            }
        }
    }
}

/// The canonical order is unique: the ranges, and for equal ranges the
/// order in which they are given, decide the place of each region.
pub proof fn lemma_canonical_order_unique(spans: Seq<Span>, first: Seq<usize>, second: Seq<usize>)
    requires
        is_canonical_order(spans, first),
        is_canonical_order(spans, second),
    ensures
        first == second,
        first == canonical_order(spans),
{
    lemma_orders_agree(spans, first, second, spans.len() as int);
    assert(first =~= second);
    let chosen = canonical_order(spans);
    lemma_orders_agree(spans, first, chosen, spans.len() as int);
    assert(first =~= chosen);
}

/// The shape of what a pass leaves: the kept candidates are among the
/// first `k`, ascending, and each has its list of aliases.
pub proof fn lemma_sift_shape(s: Seq<Span>, k: nat)
    ensures
        sift(s, k).aliases.len() == sift(s, k).kept.len(),
        sift(s, k).kept.len() <= k,
        sift(s, k).overlaps <= k,
        forall|t: int| 0 <= t < sift(s, k).kept.len() ==> 0 <= #[trigger] sift(s, k).kept[t] < k,
        forall|t: int, u: int|
            0 <= t < u < sift(s, k).kept.len() ==> (#[trigger] sift(s, k).kept[t]) < (#[trigger] sift(
                s,
                k,
            ).kept[u]),
    decreases k,
{
    if k > 0 {
        lemma_sift_shape(s, (k - 1) as nat);
        lemma_first_clash(s, sift(s, (k - 1) as nat).kept, k - 1, 0);
    }
}

/// The first clash is a position of `kept` at or after `from` whose region
/// clashes with the candidate, no position between `from` and it does; or
/// it is the length of `kept`, and no position from `from` on does.
pub proof fn lemma_first_clash(s: Seq<Span>, kept: Seq<int>, c: int, from: int)
    requires
        0 <= from,
    ensures
        from <= first_clash(s, kept, c, from) || first_clash(s, kept, c, from) == kept.len(),
        first_clash(s, kept, c, from) <= kept.len(),
        first_clash(s, kept, c, from) < kept.len() ==> s[kept[first_clash(s, kept, c, from)]].clashes(
            s[c],
        ),
        forall|j: int|
            from <= j < first_clash(s, kept, c, from) ==> !s[#[trigger] kept[j]].clashes(s[c]),
    decreases kept.len() - from,
{
    if from < kept.len() && !s[kept[from]].clashes(s[c]) {
        lemma_first_clash(s, kept, c, from + 1);
    }
}

/// Every gap of the nodes before `k` belongs to one of them.
pub proof fn lemma_gap_parents(a: Seq<Span>, k: int)
    ensures
        forall|g: int| 0 <= g < gaps_below(a, k).len() ==> 0 <= (#[trigger] gaps_below(a, k)[g]).parent < k,
    decreases k,
{
    if k > 0 {
        lemma_gap_parents(a, k - 1);
        let kids = child_spans(a, k - 1);
        lemma_gaps_upto(k - 1, a[k - 1], kids, kids.len() as int + 1);
        let head = gaps_below(a, k - 1);
        let tail = gaps_of(a, k - 1);
        assert forall|g: int| 0 <= g < gaps_below(a, k).len() implies 0 <= (#[trigger] gaps_below(
            a,
            k,
        )[g]).parent < k by {
            if g < head.len() {
                assert(gaps_below(a, k)[g] == head[g]);
            } else {
                assert(gaps_below(a, k)[g] == tail[g - head.len()]);
            }
        }
    }
}

/// More nodes have no fewer gaps.
pub proof fn lemma_gaps_below_grows(a: Seq<Span>, k: int, m: int)
    requires
        k <= m,
    ensures
        gaps_below(a, k).len() <= gaps_below(a, m).len(),
    decreases m - k,
{
    if k < m {
        lemma_gaps_below_grows(a, k, m - 1);
    }
}

/// Every gap of node `k` names `k` as its parent, lies at one of the slots
/// and has a positive size; there is at most one gap for each slot.
pub proof fn lemma_gaps_upto(k: int, p: Span, kids: Seq<Span>, i: int)
    ensures
        gaps_upto(k, p, kids, i).len() <= if i < 0 {
            0
        } else {
            i
        },
        forall|g: int|
            0 <= g < gaps_upto(k, p, kids, i).len() ==> (#[trigger] gaps_upto(k, p, kids, i)[g]).parent
                == k && gaps_upto(k, p, kids, i)[g].span.size > 0,
    decreases i,
{
    if i > 0 {
        lemma_gaps_upto(k, p, kids, i - 1);
    }
}

/// Every position in the row of node `k` with gaps is after `k` and before
/// the end of the gap nodes of the row.
pub proof fn lemma_row_members(
    k: int,
    p: Span,
    kid_at: Seq<int>,
    kids: Seq<Span>,
    first_gap: int,
    i: int,
)
    requires
        k < first_gap,
        forall|l: int| 0 <= l < kid_at.len() ==> k < (#[trigger] kid_at[l]) < first_gap,
    ensures
        forall|j: int|
            0 <= j < row_upto(k, p, kid_at, kids, first_gap, i).len() ==> k < (#[trigger] row_upto(
                k,
                p,
                kid_at,
                kids,
                first_gap,
                i,
            )[j]) < first_gap + gaps_upto(k, p, kids, i).len(),
    decreases i,
{
    if i > 0 {
        lemma_row_members(k, p, kid_at, kids, first_gap, i - 1);
        let head = row_upto(k, p, kid_at, kids, first_gap, i - 1);
        let row = row_upto(k, p, kid_at, kids, first_gap, i);
        let before = gaps_upto(k, p, kids, i - 1).len();
        let gap = if gap_at(p, kids, i - 1) is Some {
            seq![first_gap + before]
        } else {
            seq![]
        };
        let kid = if i - 1 < kid_at.len() {
            seq![kid_at[i - 1]]
        } else {
            seq![]
        };
        assert(row == head + gap + kid);
        assert(gaps_upto(k, p, kids, i).len() >= before);
        assert(gap_at(p, kids, i - 1) is Some ==> gaps_upto(k, p, kids, i).len() == before + 1);
        assert forall|j: int| 0 <= j < row.len() implies k < (#[trigger] row[j]) < first_gap + gaps_upto(
            k,
            p,
            kids,
            i,
        ).len() by {
            if j < head.len() {
                assert(row[j] == head[j]);
                assert(k < head[j] < first_gap + before);
            } else if j < head.len() + gap.len() {
                assert(row[j] == gap[j - head.len()]);
                assert(row[j] == first_gap + before);
            } else {
                assert(row[j] == kid[j - head.len() - gap.len()]);
                assert(row[j] == kid_at[i - 1]);
            }
        }
    }
}

/// Where the range of region `v` goes among the regions `order`, looking
/// from `from` on: before the first one that it comes before.
pub open spec fn place_of(spans: Seq<Span>, order: Seq<usize>, v: int, from: int) -> int
    decreases order.len() - from,
{
    if from < 0 || from >= order.len() {
        order.len() as int
    } else if spans[v].before(spans[order[from] as int]) {
        from
    } else {
        place_of(spans, order, v, from + 1)
    }
}

/// The place of a region: it comes before the region at its place, and
/// before none of the regions between `from` and its place.
proof fn lemma_place_of(spans: Seq<Span>, order: Seq<usize>, v: int, from: int)
    requires
        0 <= from,
    ensures
        from <= place_of(spans, order, v, from) || place_of(spans, order, v, from) == order.len(),
        place_of(spans, order, v, from) <= order.len(),
        place_of(spans, order, v, from) < order.len() ==> spans[v].before(
            spans[order[place_of(spans, order, v, from)] as int],
        ),
        forall|q: int|
            from <= q < place_of(spans, order, v, from) ==> !spans[v].before(spans[#[trigger] order[q] as int]),
    decreases order.len() - from,
{
    if from < order.len() && !spans[v].before(spans[order[from] as int]) {
        lemma_place_of(spans, order, v, from + 1);
    }
}

/// A canonical order of the first `n` regions.
proof fn lemma_order_of_first(spans: Seq<Span>, n: nat) -> (order: Seq<usize>)
    requires
        n <= spans.len(),
        n <= usize::MAX,
    ensures
        orders_first(spans, n, order),
    decreases n,
{
    if n == 0 {
        Seq::empty()
    } else {
        let before = lemma_order_of_first(spans, (n - 1) as nat);
        let v = (n - 1) as usize;
        let p = place_of(spans, before, v as int, 0);
        lemma_place_of(spans, before, v as int, 0);
        let order = before.insert(p, v);
        assert forall|k: int, l: int| 0 <= k < l < order.len() implies comes_before(
            spans,
            #[trigger] order[k] as int,
            #[trigger] order[l] as int,
        ) by {
            if l < p {
                assert(order[k] == before[k] && order[l] == before[l]);
            } else if l == p {
                assert(order[k] == before[k]);
                assert(!spans[v as int].before(spans[before[k] as int]));
            } else if k < p {
                assert(order[k] == before[k] && order[l] == before[l - 1]);
            } else if k == p {
                assert(order[l] == before[l - 1]);
                assert(spans[v as int].before(spans[before[p] as int]));
                if l - 1 > p {
                    assert(comes_before(spans, before[p] as int, before[l - 1] as int));
                }
            } else {
                assert(order[k] == before[k - 1] && order[l] == before[l - 1]);
            }
        }
        assert forall|w: usize| w < n implies #[trigger] order.contains(w) by {
            if w == v {
                assert(order[p] == w);
            } else {
                assert(before.contains(w));
                let k = choose|k: int| 0 <= k < before.len() && before[k] == w;
                if k < p {
                    assert(order[k] == w);
                } else {
                    assert(order[k + 1] == w);
                }
            }
        }
        assert forall|k: int| 0 <= k < order.len() implies #[trigger] order[k] < n by {
            if k < p {
                assert(order[k] == before[k]);
            } else if k > p {
                assert(order[k] == before[k - 1]);
            }
        }
        order
    }
}

/// As long as the positions of the regions can be counted, the regions
/// have a canonical order.
pub proof fn lemma_canonical_order_exists(spans: Seq<Span>)
    requires
        spans.len() <= usize::MAX,
    ensures
        is_canonical_order(spans, canonical_order(spans)),
{
    let order = lemma_order_of_first(spans, spans.len());
    assert(is_canonical_order(spans, order));
}

} // verus!
