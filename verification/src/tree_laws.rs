//! What always holds of the region tree.
use crate::layout::{
    child_spans, children_of, comes_before, first_clash, gap_at, gaps_of, gaps_upto, is_canonical_order,
    kept_spans, lemma_children_of, rearranged, lemma_first_clash, lemma_nearest_container, lemma_sift_shape, parent_of,
    picked, sift,
};
use crate::layout::Gap;
use crate::region::{lemma_container_comes_first, Span};
use crate::tree::tree_of;
use vstd::prelude::*;

verus! {

/// The ranges `s` are in canonical order: each comes before the ones after
/// it, or is the same range.
pub open spec fn in_canonical_order(s: Seq<Span>) -> bool {
    forall|k: int, l: int| 0 <= k < l < s.len() ==> (#[trigger] s[k]).before(#[trigger] s[l]) || s[k].same(s[l])
}

/// Ranges rearranged by their canonical order are in canonical order.
pub proof fn lemma_rearranged_in_order(spans: Seq<Span>, order: Seq<usize>)
    requires
        is_canonical_order(spans, order),
    ensures
        in_canonical_order(rearranged(spans, order)),
{
    let s = rearranged(spans, order);
    assert forall|k: int, l: int| 0 <= k < l < s.len() implies (#[trigger] s[k]).before(#[trigger] s[l])
        || s[k].same(s[l]) by {
        assert(comes_before(spans, order[k] as int, order[l] as int));
    }
}

/// No two nodes that a pass keeps clash: no two of them have the same
/// range, and no two of them overlap in part. Any two nodes are disjoint,
/// or one lies inside the other.
pub proof fn lemma_kept_never_clash(s: Seq<Span>, k: nat)
    ensures
        forall|t: int, u: int|
            0 <= t < u < sift(s, k).kept.len() ==> !s[#[trigger] sift(s, k).kept[t]].clashes(
                s[#[trigger] sift(s, k).kept[u]],
            ),
    decreases k,
{
    if k > 0 {
        let d = sift(s, (k - 1) as nat);
        lemma_kept_never_clash(s, (k - 1) as nat);
        lemma_first_clash(s, d.kept, k - 1, 0);
        let e = sift(s, k);
        assert forall|t: int, u: int| 0 <= t < u < e.kept.len() implies !s[#[trigger] e.kept[t]].clashes(
            s[#[trigger] e.kept[u]],
        ) by {
            if u < d.kept.len() {
                assert(e.kept[t] == d.kept[t] && e.kept[u] == d.kept[u]);
            } else {
                assert(e.kept == d.kept.push(k - 1));
                assert(e.kept[t] == d.kept[t]);
                assert(!s[d.kept[t]].clashes(s[k - 1]));
            }
        }
    }
}

/// A longer pass keeps what a shorter one kept, at the same places, and
/// every alias of a node stays an alias of it.
pub proof fn lemma_sift_grows(s: Seq<Span>, k: nat, n: nat)
    requires
        k <= n,
    ensures
        sift(s, k).kept.len() <= sift(s, n).kept.len(),
        sift(s, k).overlaps <= sift(s, n).overlaps,
        forall|t: int| 0 <= t < sift(s, k).kept.len() ==> #[trigger] sift(s, n).kept[t] == sift(s, k).kept[t],
        forall|t: int, c: int|
            0 <= t < sift(s, k).kept.len() && sift(s, k).aliases[t].contains(c) ==> #[trigger] sift(
                s,
                n,
            ).aliases[t].contains(c),
    decreases n - k,
{
    if k < n {
        lemma_sift_grows(s, k, (n - 1) as nat);
        let d = sift(s, (n - 1) as nat);
        let e = sift(s, n);
        lemma_sift_shape(s, (n - 1) as nat);
        lemma_sift_shape(s, k);
        lemma_first_clash(s, d.kept, n - 1, 0);
        let j = first_clash(s, d.kept, n - 1, 0);
        assert forall|t: int, c: int|
            0 <= t < sift(s, k).kept.len() && sift(s, k).aliases[t].contains(c) implies #[trigger] e.aliases[t].contains(
            c,
        ) by {
            assert(d.aliases[t].contains(c));
            let q = choose|q: int| 0 <= q < d.aliases[t].len() && d.aliases[t][q] == c;
            if j < d.kept.len() && s[d.kept[j]].same(s[n - 1]) && t == j {
                assert(e.aliases[t][q] == c);
            } else {
                assert(e.aliases[t] == d.aliases[t]);
            }
        }
    }
}

/// Of two candidates with the same range, the later one never becomes a
/// node of its own: where the earlier one is a node, the later one is one
/// of its aliases.
pub proof fn lemma_duplicate_is_folded(s: Seq<Span>, n: nat, first: int, second: int, t: int)
    requires
        0 <= first < second < n,
        s[first].same(s[second]),
        0 <= t < sift(s, n).kept.len(),
        sift(s, n).kept[t] == first,
    ensures
        sift(s, n).aliases[t].contains(second),
        !sift(s, n).kept.contains(second),
{
    let all = sift(s, n);
    let early = sift(s, (first + 1) as nat);
    let d = sift(s, second as nat);
    let e = sift(s, (second + 1) as nat);
    lemma_sift_shape(s, n);
    lemma_sift_shape(s, second as nat);
    // `first` became node `t` when its turn came, and has been node `t`
    // ever since.
    assert(all.kept.contains(first));
    lemma_kept_holds_candidate(s, first, n);
    lemma_sift_grows(s, (first + 1) as nat, n);
    assert(t == early.kept.len() - 1) by {
        let last = early.kept.len() - 1;
        if t < last {
            assert(all.kept[t] < all.kept[last]);
        } else if last < t {
            assert(all.kept[last] < all.kept[t]);
        }
    }
    lemma_sift_grows(s, (first + 1) as nat, second as nat);
    assert(d.kept[t] == first);
    // When the turn of `second` comes, node `t` is the first that it
    // clashes with: a node before `t` that clashed with it would clash
    // with node `t` as well.
    lemma_first_clash(s, d.kept, second, 0);
    lemma_kept_never_clash(s, second as nat);
    let j = first_clash(s, d.kept, second, 0);
    assert(s[d.kept[t]].clashes(s[second]));
    if j < t {
        assert(!s[d.kept[j]].clashes(s[d.kept[t]]));
    }
    assert(e.aliases[t] == d.aliases[t].push(second));
    assert(e.aliases[t][d.aliases[t].len() as int] == second);
    assert(e.aliases[t].contains(second));
    lemma_sift_grows(s, (second + 1) as nat, n);
    // No node is `second`: the nodes that were there at its turn are
    // earlier candidates, the nodes that came later are later ones.
    if all.kept.contains(second) {
        let u = choose|u: int| 0 <= u < all.kept.len() && all.kept[u] == second;
        if u < e.kept.len() {
            assert(all.kept[u] == e.kept[u]);
            assert(d.kept[u] < second);
        } else {
            lemma_kept_after(s, (second + 1) as nat, n, u);
        }
    }
}

/// A candidate that is a node after a pass over `n` candidates was made a
/// node when its turn came: it is the last node of the pass that ends
/// with it.
pub proof fn lemma_kept_holds_candidate(s: Seq<Span>, c: int, n: nat)
    requires
        0 <= c < n,
        sift(s, n).kept.contains(c),
    ensures
        sift(s, (c + 1) as nat).kept.len() > 0,
        sift(s, (c + 1) as nat).kept.last() == c,
        sift(s, n).kept[sift(s, (c + 1) as nat).kept.len() - 1] == c,
{
    let e = sift(s, (c + 1) as nat);
    let d = sift(s, c as nat);
    lemma_sift_shape(s, c as nat);
    lemma_sift_shape(s, (c + 1) as nat);
    lemma_sift_shape(s, n);
    lemma_sift_grows(s, (c + 1) as nat, n);
    let u = choose|u: int| 0 <= u < sift(s, n).kept.len() && sift(s, n).kept[u] == c;
    if u < e.kept.len() {
        assert(e.kept[u] == c);
        if e.kept.len() == d.kept.len() {
            assert(e.kept == d.kept);
            assert(d.kept[u] < c);
        }
        assert(e.kept == d.kept.push(c));
        if u < d.kept.len() {
            assert(e.kept[u] == d.kept[u]);
        }
    } else {
        lemma_kept_after(s, (c + 1) as nat, n, u);
    }
}

/// A node that a longer pass has beyond the nodes of a shorter pass over
/// `k` candidates is a candidate from `k` on.
pub proof fn lemma_kept_after(s: Seq<Span>, k: nat, n: nat, u: int)
    requires
        k <= n,
        sift(s, k).kept.len() <= u < sift(s, n).kept.len(),
    ensures
        k <= sift(s, n).kept[u] < n,
    decreases n - k,
{
    lemma_sift_shape(s, n);
    if k < n {
        let d = sift(s, (n - 1) as nat);
        lemma_sift_grows(s, k, (n - 1) as nat);
        if u < d.kept.len() {
            lemma_kept_after(s, k, (n - 1) as nat, u);
            lemma_sift_grows(s, (n - 1) as nat, n);
        } else {
            assert(sift(s, n).kept == d.kept.push(n - 1));
        }
    }
}

/// Where a pass counts no overlap, every candidate is a node or has the
/// range of a node.
proof fn lemma_every_range_is_kept(s: Seq<Span>, k: nat, c: int)
    requires
        0 <= c < k,
        sift(s, k).overlaps == 0,
    ensures
        exists|t: int| 0 <= t < sift(s, k).kept.len() && s[#[trigger] sift(s, k).kept[t]].same(s[c]),
    decreases k,
{
    let d = sift(s, (k - 1) as nat);
    let e = sift(s, k);
    lemma_first_clash(s, d.kept, k - 1, 0);
    lemma_sift_shape(s, (k - 1) as nat);
    let j = first_clash(s, d.kept, k - 1, 0);
    if c < k - 1 {
        lemma_every_range_is_kept(s, (k - 1) as nat, c);
        let t = choose|t: int| 0 <= t < d.kept.len() && s[#[trigger] d.kept[t]].same(s[c]);
        assert(e.kept[t] == d.kept[t]);
    } else if j == d.kept.len() {
        assert(e.kept[d.kept.len() as int] == c);
    } else {
        assert(e.kept[j] == d.kept[j]);
    }
}

/// Two candidates that overlap in part never both pass unnoticed: the pass
/// counts at least one overlap.
pub proof fn lemma_overlap_is_counted(s: Seq<Span>, n: nat, first: int, second: int)
    requires
        0 <= first < n,
        0 <= second < n,
        s[first].overlaps(s[second]),
    ensures
        sift(s, n).overlaps > 0,
{
    if sift(s, n).overlaps == 0 {
        let d = sift(s, n);
        lemma_every_range_is_kept(s, n, first);
        lemma_every_range_is_kept(s, n, second);
        let t = choose|t: int| 0 <= t < d.kept.len() && s[#[trigger] d.kept[t]].same(s[first]);
        let u = choose|u: int| 0 <= u < d.kept.len() && s[#[trigger] d.kept[u]].same(s[second]);
        lemma_kept_never_clash(s, n);
        assert(s[d.kept[t]].overlaps(s[d.kept[u]]));
        if t < u {
            assert(!s[d.kept[t]].clashes(s[d.kept[u]]));
        } else if u < t {
            assert(!s[d.kept[u]].clashes(s[d.kept[t]]));
        }
    }
}

/// The nodes that a pass over ranges in canonical order keeps are in
/// canonical order, and no two of them have the same range.
pub proof fn lemma_kept_in_order(s: Seq<Span>)
    requires
        in_canonical_order(s),
    ensures
        forall|t: int, u: int|
            0 <= t < u < kept_spans(s).len() ==> (#[trigger] kept_spans(s)[t]).before(
                #[trigger] kept_spans(s)[u],
            ),
{
    let d = sift(s, s.len());
    lemma_sift_shape(s, s.len());
    lemma_kept_never_clash(s, s.len());
    assert forall|t: int, u: int| 0 <= t < u < kept_spans(s).len() implies (#[trigger] kept_spans(
        s,
    )[t]).before(#[trigger] kept_spans(s)[u]) by {
        assert(d.kept[t] < d.kept[u]);
        assert(!s[d.kept[t]].clashes(s[d.kept[u]]));
        assert(s[d.kept[t]].before(s[d.kept[u]]) || s[d.kept[t]].same(s[d.kept[u]]));
    }
}

/// A node that lies inside exactly one other node has that node as its
/// parent.
pub proof fn lemma_sole_container_is_parent(s: Seq<Span>, inner: int, outer: int)
    requires
        in_canonical_order(s),
        0 <= inner < kept_spans(s).len(),
        0 <= outer < kept_spans(s).len(),
        inner != outer,
        kept_spans(s)[inner].fits_in(kept_spans(s)[outer]),
        forall|j: int|
            0 <= j < kept_spans(s).len() && j != inner && j != outer ==> !kept_spans(s)[inner].fits_in(
                #[trigger] kept_spans(s)[j],
            ),
    ensures
        parent_of(kept_spans(s), inner) == Some(outer),
{
    let a = kept_spans(s);
    lemma_kept_in_order(s);
    if inner < outer {
        assert(a[inner].before(a[outer]));
    } else {
        assert(a[outer].before(a[inner]));
    }
    assert(!a[inner].same(a[outer]));
    lemma_container_comes_first(a[inner], a[outer]);
    assert(outer < inner);
    lemma_nearest_container(a, inner, inner);
}

/// The parent of a node of positive size is the tightest node around it:
/// every other node that contains the node contains the parent too.
pub proof fn lemma_parent_is_tightest(s: Seq<Span>, node: int, other: int)
    requires
        in_canonical_order(s),
        0 <= node < kept_spans(s).len(),
        0 <= other < kept_spans(s).len(),
        other != node,
        kept_spans(s)[node].size > 0,
        kept_spans(s)[node].fits_in(kept_spans(s)[other]),
    ensures
        parent_of(kept_spans(s), node) matches Some(p) && kept_spans(s)[p].fits_in(kept_spans(s)[other]),
{
    let a = kept_spans(s);
    let d = sift(s, s.len());
    lemma_kept_in_order(s);
    lemma_kept_never_clash(s, s.len());
    if node < other {
        assert(a[node].before(a[other]));
    } else {
        assert(a[other].before(a[node]));
    }
    lemma_container_comes_first(a[node], a[other]);
    assert(other < node);
    lemma_nearest_container(a, node, node);
    let p = parent_of(a, node)->0;
    assert(other <= p);
    if other < p {
        assert(a[other].before(a[p]));
        assert(!s[d.kept[other]].clashes(s[d.kept[p]]));
    }
}

/// Of two regions with the same range, the later one is no node of the
/// tree: where the earlier one is node `t`, the name of the later one is
/// among the aliases of node `t`.
pub proof fn lemma_duplicate_becomes_alias(
    s: Seq<Span>,
    names: Seq<Seq<char>>,
    show_gaps: bool,
    first: int,
    second: int,
    t: int,
)
    requires
        0 <= first < second < s.len(),
        s[first].same(s[second]),
        0 <= t < sift(s, s.len()).kept.len(),
        sift(s, s.len()).kept[t] == first,
    ensures
        tree_of(s, names, show_gaps).nodes[t].aliases.contains(names[second]),
        !sift(s, s.len()).kept.contains(second),
{
    lemma_duplicate_is_folded(s, s.len(), first, second, t);
    let d = sift(s, s.len());
    let q = choose|q: int| 0 <= q < d.aliases[t].len() && d.aliases[t][q] == second;
    assert(picked(names, d.aliases[t])[q] == names[second]);
}

/// Where two regions overlap in part, the tree counts at least one overlap:
/// it is built only if overlaps are to be ignored.
pub proof fn lemma_overlap_is_detected(
    s: Seq<Span>,
    names: Seq<Seq<char>>,
    show_gaps: bool,
    first: int,
    second: int,
)
    requires
        0 <= first < s.len(),
        0 <= second < s.len(),
        s[first].overlaps(s[second]),
    ensures
        tree_of(s, names, show_gaps).overlaps > 0,
{
    lemma_overlap_is_counted(s, s.len(), first, second);
}

/// A node of the tree that lies inside exactly one other node has that
/// node as its parent.
pub proof fn lemma_nested_node_is_child(
    s: Seq<Span>,
    names: Seq<Seq<char>>,
    show_gaps: bool,
    inner: int,
    outer: int,
)
    requires
        in_canonical_order(s),
        0 <= inner < kept_spans(s).len(),
        0 <= outer < kept_spans(s).len(),
        inner != outer,
        kept_spans(s)[inner].fits_in(kept_spans(s)[outer]),
        forall|j: int|
            0 <= j < kept_spans(s).len() && j != inner && j != outer ==> !kept_spans(s)[inner].fits_in(
                #[trigger] kept_spans(s)[j],
            ),
    ensures
        tree_of(s, names, show_gaps).nodes[inner].parent == Some(outer),
        tree_of(s, names, show_gaps).nodes[inner].span == kept_spans(s)[inner],
{
    lemma_sole_container_is_parent(s, inner, outer);
}

/// The children of one node lie inside it and one after the other: where
/// one ends, the next has not begun yet.
pub proof fn lemma_children_in_a_row(s: Seq<Span>, k: int, i: int, j: int)
    requires
        in_canonical_order(s),
        0 <= k < kept_spans(s).len(),
        0 <= i < j < child_spans(kept_spans(s), k).len(),
    ensures
        child_spans(kept_spans(s), k)[i].end() <= child_spans(kept_spans(s), k)[j].offset,
        child_spans(kept_spans(s), k)[i].fits_in(kept_spans(s)[k]),
        child_spans(kept_spans(s), k)[j].fits_in(kept_spans(s)[k]),
{
    let a = kept_spans(s);
    let d = sift(s, s.len());
    let m = a.len() as int;
    let at = children_of(a, k, m);
    lemma_children_of(a, k, m);
    let first = at[i];
    let second = at[j];
    assert(k < first < second < m);
    lemma_nearest_container(a, second, second);
    lemma_nearest_container(a, first, first);
    lemma_kept_in_order(s);
    lemma_kept_never_clash(s, s.len());
    assert(a[first].before(a[second]));
    assert(!s[d.kept[first]].clashes(s[d.kept[second]]));
    assert(!a[second].fits_in(a[first]));
}

/// Byte `b` belongs to a child of node `k`.
pub open spec fn in_child(a: Seq<Span>, k: int, b: int) -> bool {
    exists|i: int| 0 <= i < child_spans(a, k).len() && (#[trigger] child_spans(a, k)[i]).holds(b)
}

/// Byte `b` belongs to a gap of node `k`.
pub open spec fn in_gap(a: Seq<Span>, k: int, b: int) -> bool {
    exists|g: int| 0 <= g < gaps_of(a, k).len() && (#[trigger] gaps_of(a, k)[g]).span.holds(b)
}

/// The range `span` is the gap at slot `j`.
pub open spec fn is_gap_at(p: Span, kids: Seq<Span>, j: int, span: Span) -> bool {
    gap_at(p, kids, j) == Some(span)
}

/// The range `span` is the gap at one of the slots before `i`.
pub open spec fn is_gap_before(p: Span, kids: Seq<Span>, i: int, span: Span) -> bool {
    exists|j: int| 0 <= j < i && #[trigger] is_gap_at(p, kids, j, span)
}

/// The range `span` is the range of one of `gaps`.
pub open spec fn is_among(gaps: Seq<Gap>, span: Span) -> bool {
    exists|g: int| 0 <= g < gaps.len() && (#[trigger] gaps[g]).span == span
}

/// The gaps at the slots before `i` are the gaps of those slots, no more
/// and no fewer.
pub proof fn lemma_gap_slots(k: int, p: Span, kids: Seq<Span>, i: int)
    ensures
        forall|g: int|
            0 <= g < gaps_upto(k, p, kids, i).len() ==> is_gap_before(
                p,
                kids,
                i,
                (#[trigger] gaps_upto(k, p, kids, i)[g]).span,
            ),
        forall|j: int, span: Span|
            0 <= j < i && #[trigger] is_gap_at(p, kids, j, span) ==> is_among(gaps_upto(k, p, kids, i), span),
    decreases i,
{
    if i > 0 {
        lemma_gap_slots(k, p, kids, i - 1);
        let before = gaps_upto(k, p, kids, i - 1);
        let now = gaps_upto(k, p, kids, i);
        assert forall|g: int| 0 <= g < now.len() implies is_gap_before(p, kids, i, (#[trigger] now[g]).span) by {
            if g < before.len() {
                assert(now[g] == before[g]);
                assert(is_gap_before(p, kids, i - 1, before[g].span));
                let j = choose|j: int| 0 <= j < i - 1 && #[trigger] is_gap_at(p, kids, j, before[g].span);
                assert(is_gap_at(p, kids, j, now[g].span));
            } else {
                assert(is_gap_at(p, kids, i - 1, now[g].span));
            }
        }
        assert forall|j: int, span: Span| 0 <= j < i && #[trigger] is_gap_at(p, kids, j, span) implies is_among(
            now,
            span,
        ) by {
            if j < i - 1 {
                assert(is_among(before, span));
                let g = choose|g: int| 0 <= g < before.len() && (#[trigger] before[g]).span == span;
                assert(now[g] == before[g]);
            } else {
                assert(now[before.len() as int].span == span);
            }
        }
    }
}

/// The first child from `from` on that begins after byte `b`; the number
/// of children if there is none.
pub open spec fn slot_of(kids: Seq<Span>, b: int, from: int) -> int
    decreases kids.len() - from,
{
    if from < 0 || from >= kids.len() {
        kids.len() as int
    } else if b < kids[from].offset {
        from
    } else {
        slot_of(kids, b, from + 1)
    }
}

/// The slot of a byte: the children before it begin at or before the
/// byte, the child at it begins after the byte.
proof fn lemma_slot_of(kids: Seq<Span>, b: int, from: int)
    requires
        0 <= from,
    ensures
        from <= slot_of(kids, b, from) || slot_of(kids, b, from) == kids.len(),
        slot_of(kids, b, from) <= kids.len(),
        slot_of(kids, b, from) < kids.len() ==> b < kids[slot_of(kids, b, from)].offset,
        forall|i: int| from <= i < slot_of(kids, b, from) ==> (#[trigger] kids[i]).offset <= b,
    decreases kids.len() - from,
{
    if from < kids.len() && b >= kids[from].offset {
        lemma_slot_of(kids, b, from + 1);
    }
}

/// The gaps of a node are what its children leave of it: every byte of a
/// node with children belongs either to one of its children or to one of
/// its gaps, and never to both.
pub proof fn lemma_gaps_fill_the_node(s: Seq<Span>, k: int, b: int)
    requires
        in_canonical_order(s),
        forall|t: int| 0 <= t < s.len() ==> (#[trigger] s[t]).size >= 0,
        0 <= k < kept_spans(s).len(),
        child_spans(kept_spans(s), k).len() > 0,
        kept_spans(s)[k].holds(b),
    ensures
        in_child(kept_spans(s), k, b) != in_gap(kept_spans(s), k, b),
{
    let a = kept_spans(s);
    let p = a[k];
    let kids = child_spans(a, k);
    let r = kids.len() as int;
    let d = sift(s, s.len());
    lemma_sift_shape(s, s.len());
    lemma_children_of(a, k, a.len() as int);
    assert forall|i: int| 0 <= i < r implies (#[trigger] kids[i]).size >= 0 by {
        let at = children_of(a, k, a.len() as int)[i];
        assert(kids[i] == a[at]);
        assert(a[at] == s[d.kept[at]]);
    }
    assert forall|i: int, j: int| 0 <= i < j < r implies (#[trigger] kids[i]).end() <= (#[trigger] kids[j]).offset by {
        lemma_children_in_a_row(s, k, i, j);
    }
    assert forall|i: int| 0 <= i < r implies (#[trigger] kids[i]).fits_in(p) by {
        if i + 1 < r {
            lemma_children_in_a_row(s, k, i, i + 1);
        } else {
            if i > 0 {
                lemma_children_in_a_row(s, k, i - 1, i);
            } else {
                let at = children_of(a, k, a.len() as int)[0];
                lemma_nearest_container(a, at, at);
            }
        }
    }
    lemma_slot_of(kids, b, 0);
    lemma_gap_slots(k, p, kids, r + 1);
    let j = slot_of(kids, b, 0);
    assert(gaps_of(a, k) == gaps_upto(k, p, kids, r + 1));
    if j >= 1 && b < kids[j - 1].end() {
        assert(kids[j - 1].holds(b));
        assert(in_child(a, k, b));
        if in_gap(a, k, b) {
            let g = choose|g: int| 0 <= g < gaps_of(a, k).len() && (#[trigger] gaps_of(a, k)[g]).span.holds(b);
            let span = gaps_of(a, k)[g].span;
            assert(is_gap_before(p, kids, r + 1, span));
            let slot = choose|slot: int| 0 <= slot < r + 1 && #[trigger] is_gap_at(p, kids, slot, span);
            if slot <= j - 1 {
                assert(kids[slot].offset <= b);
            } else if slot - 1 > j - 1 {
                assert(kids[j - 1].end() <= kids[slot - 1].offset);
            }
        }
    } else {
        let lo = if j == 0 {
            p.offset
        } else {
            kids[j - 1].end()
        };
        let hi = if j == r {
            p.end()
        } else {
            kids[j].offset
        };
        let span = Span { offset: lo, size: hi - lo };
        assert(is_gap_at(p, kids, j, span));
        assert(is_among(gaps_of(a, k), span));
        let g = choose|g: int| 0 <= g < gaps_of(a, k).len() && (#[trigger] gaps_of(a, k)[g]).span == span;
        assert(gaps_of(a, k)[g].span.holds(b));
        assert(in_gap(a, k, b));
        if in_child(a, k, b) {
            let i = choose|i: int| 0 <= i < r && (#[trigger] kids[i]).holds(b);
            if i >= j {
                if i > j {
                    assert(kids[j].end() <= kids[i].offset);
                }
            } else {
                if i < j - 1 {
                    assert(kids[i].end() <= kids[j - 1].offset);
                }
            }
        }
    }
}

} // verus!
