//! A flash map as text: the region tree, and the flat listings.
use crate::flags::{FMapFlags, BIT_PRESERVE};
use crate::fmap::{FMap, FMapArea};
use crate::layout::{canonical_order, is_canonical_order, rearranged, sift};
use crate::region::{ancestors, Node, NodeView};
use crate::text::{
    decimal, hex_padded, hex_prefixed, padded, push_decimal, push_hex, push_hex_prefixed, push_padded,
    push_repeated, repeated,
};
use crate::tree::{build_tree, region_names, region_spans, tree_of, Forest, ForestView, TreeError};
use itertools::Itertools;
use vstd::prelude::*;
use vstd::string::StringExecFns;

verus! {

/// The first line of the tree: the names of the columns.
pub open spec fn header_text() -> Seq<char> {
    "# name                     start       end         size\n"@
}

/// What follows the line of an alias.
pub open spec fn duplicate_mark() -> Seq<char> {
    "  // DUPLICATE"@
}

/// One line of the tree: two spaces for each level, the name filled up to
/// 25 characters, and the start, the end and the size of the range, each in
/// hexadecimal with at least eight digits; then `suffix` and a line feed.
pub open spec fn line_text(
    level: nat,
    name: Seq<char>,
    offset: nat,
    end: nat,
    size: nat,
    suffix: Seq<char>,
) -> Seq<char> {
    repeated("  "@, level) + padded(name, 25) + "  "@ + hex_padded(offset, 8) + "    "@ + hex_padded(end, 8)
        + "    "@ + hex_padded(size, 8) + suffix + "\n"@
}

/// One line of the tree.
pub fn show_line(level: usize, name: &str, offset: u64, end: u64, size: u64, suffix: &str) -> (r: String)
    ensures
        r@ == line_text(level as nat, name@, offset as nat, end as nat, size as nat, suffix@),
{
    let mut line = String::new();
    push_repeated(&mut line, "  ", level);
    push_padded(&mut line, name, 25);
    line.append("  ");
    push_hex(&mut line, offset, 8);
    line.append("    ");
    push_hex(&mut line, end, 8);
    line.append("    ");
    push_hex(&mut line, size, 8);
    line.append(suffix);
    line.append("\n");
    assert(line@ =~= line_text(level as nat, name@, offset as nat, end as nat, size as nat, suffix@));
    line
}

/// The line of node `i` for the name `name`, which is its own or one of
/// its aliases. The end of a node is never shown above the largest `u64`.
pub open spec fn node_line(nodes: Seq<NodeView>, i: int, name: Seq<char>, suffix: Seq<char>) -> Seq<char> {
    line_text(
        ancestors(nodes, nodes[i].parent),
        name,
        nodes[i].span.offset as nat,
        nodes[i].span.capped_end() as nat,
        nodes[i].span.size as nat,
        suffix,
    )
}

/// The lines of the first `upto` aliases of node `i`.
pub open spec fn alias_lines(nodes: Seq<NodeView>, i: int, upto: int) -> Seq<char>
    decreases upto,
{
    if upto <= 0 {
        seq![]
    } else {
        alias_lines(nodes, i, upto - 1) + node_line(nodes, i, nodes[i].aliases[upto - 1], duplicate_mark())
    }
}

/// The lines of node `i` and of everything below it: its own line, one
/// line for each of its aliases, then the same for each of its children in
/// their order.
pub open spec fn subtree_text(nodes: Seq<NodeView>, i: int) -> Seq<char>
    decreases nodes.len() - i, nodes[i].children.len() + 1,
{
    node_line(nodes, i, nodes[i].name, ""@) + alias_lines(nodes, i, nodes[i].aliases.len() as int)
        + rows_text(nodes, i, nodes[i].children.len() as int)
}

/// The lines of the first `upto` children of node `i`, each with
/// everything below it. A child that is no later position of the arena has
/// no lines.
pub open spec fn rows_text(nodes: Seq<NodeView>, i: int, upto: int) -> Seq<char>
    decreases nodes.len() - i, upto,
{
    if upto <= 0 || upto > nodes[i].children.len() {
        seq![]
    } else {
        let child = nodes[i].children[upto - 1];
        rows_text(nodes, i, upto - 1) + if i < child < nodes.len() {
            subtree_text(nodes, child)
        } else {
            seq![]
        }
    }
}

/// The lines of the trees whose roots are among the first `upto` nodes:
/// the nodes without a parent, in their order, each with everything below
/// it.
pub open spec fn roots_text(nodes: Seq<NodeView>, upto: int) -> Seq<char>
    decreases upto,
{
    if upto <= 0 {
        seq![]
    } else {
        roots_text(nodes, upto - 1) + if upto - 1 < nodes.len() && nodes[upto - 1].parent is None {
            subtree_text(nodes, upto - 1)
        } else {
            seq![]
        }
    }
}

/// A forest as text: the header, then every tree of it, root first and
/// children by offset.
pub open spec fn forest_text(forest: ForestView) -> Seq<char> {
    header_text() + roots_text(forest.nodes, forest.regions as int)
}

/// `Itertools::collect_vec` on the positions of a row: it collects what the
/// iterator gives into a vector, so the result holds the positions of the
/// row, in their order.
#[verifier::external_body]
fn collect_row(row: &Vec<usize>) -> (r: Vec<usize>)
    ensures
        r@ == row@,
{
    row.iter().cloned().collect_vec()
}

/// Appends the lines of node `i` and of everything below it.
fn show_node(forest: &Forest, i: usize, out: &mut String)
    requires
        i < forest.nodes@.len(),
    ensures
        final(out)@ == old(out)@ + subtree_text(forest@.nodes, i as int),
    decreases forest.nodes@.len() - i,
{
    let ghost nodes = forest@.nodes;
    let node: &Node = &forest.nodes[i];
    assert(nodes[i as int] == node@);
    let level = node.parents_number(&forest.nodes);
    let end = node.end();
    let own = show_line(level, node.name.as_str(), node.offset, end, node.size, "");
    out.append(own.as_str());
    let mut q: usize = 0;
    assert(out@ =~= old(out)@ + node_line(nodes, i as int, nodes[i as int].name, ""@) + alias_lines(
        nodes,
        i as int,
        0,
    ));
    while q < node.aliases.len()
        invariant
            q <= node.aliases@.len(),
            nodes == forest@.nodes,
            nodes[i as int] == node@,
            level == ancestors(nodes, nodes[i as int].parent),
            end == node.spec_end(),
            out@ == old(out)@ + node_line(nodes, i as int, nodes[i as int].name, ""@) + alias_lines(
                nodes,
                i as int,
                q as int,
            ),
        decreases node.aliases@.len() - q,
    {
        let line = show_line(level, node.aliases[q].as_str(), node.offset, end, node.size, "  // DUPLICATE");
        out.append(line.as_str());
        proof {
            assert(node@.aliases[q as int] == node.aliases@[q as int]@);
            assert(out@ =~= old(out)@ + node_line(nodes, i as int, nodes[i as int].name, ""@) + alias_lines(
                nodes,
                i as int,
                q + 1,
            ));
        }
        q = q + 1;
    }
    let row = collect_row(&node.children);
    let ghost own_text = node_line(nodes, i as int, nodes[i as int].name, ""@) + alias_lines(
        nodes,
        i as int,
        nodes[i as int].aliases.len() as int,
    );
    let mut j: usize = 0;
    assert(out@ =~= old(out)@ + own_text + rows_text(nodes, i as int, 0));
    while j < row.len()
        invariant
            j <= row@.len(),
            i < forest.nodes@.len(),
            nodes == forest@.nodes,
            nodes[i as int] == node@,
            row@ == node.children@,
            out@ == old(out)@ + own_text + rows_text(nodes, i as int, j as int),
        decreases row@.len() - j,
    {
        let child: usize = row[j];
        assert(node@.children[j as int] == child);
        if i < child && child < forest.nodes.len() {
            show_node(forest, child, out);
        }
        proof {
            assert(out@ =~= old(out)@ + own_text + rows_text(nodes, i as int, j + 1));
        }
        j = j + 1;
    }
    proof {
        assert(node@.children.len() == row@.len());
        assert(out@ =~= old(out)@ + subtree_text(nodes, i as int));
    }
}

/// A forest as text: the header, then one line for every node and for
/// every alias, each tree root first and children by offset, indented by
/// depth.
pub fn show(forest: &Forest) -> (r: String)
    ensures
        r@ == forest_text(forest@),
{
    let mut out = String::from_str("# name                     start       end         size\n");
    let ghost nodes = forest@.nodes;
    let mut i: usize = 0;
    assert(out@ =~= header_text() + roots_text(nodes, 0));
    while i < forest.regions
        invariant
            i <= forest.regions,
            nodes == forest@.nodes,
            out@ == header_text() + roots_text(nodes, i as int),
        decreases forest.regions - i,
    {
        if i < forest.nodes.len() {
            assert(nodes[i as int] == forest.nodes@[i as int]@);
            if forest.nodes[i].parent.is_none() {
                show_node(forest, i, &mut out);
            }
        }
        proof {
            assert(out@ =~= header_text() + roots_text(nodes, i + 1));
        }
        i = i + 1;
    }
    out
}

/// The region tree of a flash map as text, with what the caller may want
/// to warn about.
#[derive(Debug)]
pub struct TreeReport {
    /// The tree, one line for each node and for each alias.
    pub text: String,
    /// The number of areas left out because they overlap another one.
    pub overlaps: usize,
    /// The number of gaps under the nodes of the tree.
    pub gaps: usize,
}

/// What an overlap error says: the number of overlaps and the words
/// `overlapping areas detected. Terminating.`
pub open spec fn overlaps_message(count: nat) -> Seq<char> {
    decimal(count) + " overlapping areas detected. Terminating."@
}

/// The error as a sentence.
pub fn error_message(error: &TreeError) -> (r: String)
    ensures
        error matches TreeError::Overlaps(n) ==> r@ == overlaps_message(n as nat),
{
    match error {
        TreeError::Overlaps(n) => {
            let mut out = String::new();
            push_decimal(&mut out, *n as u64);
            out.append(" overlapping areas detected. Terminating.");
            assert(out@ =~= overlaps_message(*n as nat));
            out
        },
    }
}

/// The region tree of a flash map as text.
///
/// The tree is that of [`build_tree`]: with `show_gaps` the gaps are nodes
/// and have lines of their own. Fails exactly when some area overlaps
/// another one in part and `ignore_overlap` is not set.
pub fn dump_human_readable(fmap: &FMap, show_gaps: bool, ignore_overlap: bool) -> (r: Result<
    TreeReport,
    TreeError,
>)
    ensures
        ({
            let order = canonical_order(region_spans(fmap));
            let s = rearranged(region_spans(fmap), order);
            let names = rearranged(region_names(fmap), order);
            let overlaps = sift(s, s.len()).overlaps;
            let tree = tree_of(s, names, show_gaps);
            &&& is_canonical_order(region_spans(fmap), order)
            &&& match r {
                Ok(report) => (ignore_overlap || overlaps == 0) && report.text@ == forest_text(tree)
                    && report.overlaps == overlaps && report.gaps == tree.unused.len(),
                Err(TreeError::Overlaps(n)) => !ignore_overlap && overlaps > 0 && n == overlaps,
            }
        }),
{
    match build_tree(fmap, show_gaps, ignore_overlap) {
        Ok(forest) => {
            let text = show(&forest);
            Ok(TreeReport { text, overlaps: forest.overlaps, gaps: forest.gap_count() })
        },
        Err(e) => Err(e),
    }
}

/// The lines that say where a flash map was found and what its header
/// holds.
pub open spec fn default_head(fmap: &FMap, offset: nat) -> Seq<char> {
    "hit at "@ + hex_prefixed(offset, 0) + "\n"@ + "fmap_signature:  __FMAP__\n"@ + "fmap_version:    "@
        + decimal(fmap.version_major as nat) + "."@ + decimal(fmap.version_minor as nat) + "\n"@
        + "fmap_base:       "@ + hex_prefixed(fmap.base as nat, 0) + "\n"@ + "fmap_size:       "@
        + hex_prefixed(fmap.size as nat, 0) + " ("@ + decimal(fmap.size as nat) + ")\n"@
        + "fmap_name:       "@ + fmap.name@ + "\n"@ + "fmap_nareas:     "@ + decimal(fmap.areas@.len())
        + "\n"@
}

/// The four lines of area `number`, counted from one.
pub open spec fn default_area(area: FMapArea, number: nat) -> Seq<char> {
    "area:            "@ + decimal(number) + "\n"@ + "area_offset:     "@ + hex_prefixed(
        area.offset as nat,
        0,
    ) + "\n"@ + "area_size:       "@ + hex_prefixed(area.size as nat, 0) + " ("@ + decimal(area.size as nat)
        + ")\n"@ + "area_name:       "@ + area.name@ + "\n"@
}

/// The lines of the first `upto` areas.
pub open spec fn default_areas(areas: Seq<FMapArea>, upto: int) -> Seq<char>
    decreases upto,
{
    if upto <= 0 {
        seq![]
    } else {
        default_areas(areas, upto - 1) + default_area(areas[upto - 1], upto as nat)
    }
}

/// A flash map in full: where it was found, the fields of its header, and
/// four lines for each area.
pub fn dump_default(fmap: &FMap, offset: usize) -> (r: String)
    ensures
        r@ == default_head(fmap, offset as nat) + default_areas(fmap.areas@, fmap.areas@.len() as int),
{
    let mut out = String::new();
    out.append("hit at ");
    push_hex_prefixed(&mut out, offset as u64, 0);
    out.append("\n");
    out.append("fmap_signature:  __FMAP__\n");
    out.append("fmap_version:    ");
    push_decimal(&mut out, fmap.version_major as u64);
    out.append(".");
    push_decimal(&mut out, fmap.version_minor as u64);
    out.append("\n");
    out.append("fmap_base:       ");
    push_hex_prefixed(&mut out, fmap.base, 0);
    out.append("\n");
    out.append("fmap_size:       ");
    push_hex_prefixed(&mut out, fmap.size as u64, 0);
    out.append(" (");
    push_decimal(&mut out, fmap.size as u64);
    out.append(")\n");
    out.append("fmap_name:       ");
    out.append(fmap.name.as_str());
    out.append("\n");
    out.append("fmap_nareas:     ");
    push_decimal(&mut out, fmap.areas.len() as u64);
    out.append("\n");
    assert(out@ =~= default_head(fmap, offset as nat));
    let ghost head = out@;
    let mut i: usize = 0;
    assert(out@ =~= head + default_areas(fmap.areas@, 0));
    while i < fmap.areas.len()
        invariant
            i <= fmap.areas@.len(),
            out@ == head + default_areas(fmap.areas@, i as int),
        decreases fmap.areas@.len() - i,
    {
        let area = &fmap.areas[i];
        let mut part = String::new();
        part.append("area:            ");
        push_decimal(&mut part, (i + 1) as u64);
        part.append("\n");
        part.append("area_offset:     ");
        push_hex_prefixed(&mut part, area.offset as u64, 0);
        part.append("\n");
        part.append("area_size:       ");
        push_hex_prefixed(&mut part, area.size as u64, 0);
        part.append(" (");
        push_decimal(&mut part, area.size as u64);
        part.append(")\n");
        part.append("area_name:       ");
        part.append(area.name.as_str());
        part.append("\n");
        assert(part@ =~= default_area(*area, (i + 1) as nat));
        out.append(part.as_str());
        i = i + 1;
        assert(out@ =~= head + default_areas(fmap.areas@, i as int));
    }
    out
}

/// The line of an area for scripts: name, offset and size, the numbers in
/// decimal.
pub open spec fn parsable_line(area: FMapArea) -> Seq<char> {
    area.name@ + " "@ + decimal(area.offset as nat) + " "@ + decimal(area.size as nat) + "\n"@
}

/// The lines of the first `upto` areas for scripts.
pub open spec fn parsable_text(areas: Seq<FMapArea>, upto: int) -> Seq<char>
    decreases upto,
{
    if upto <= 0 {
        seq![]
    } else {
        parsable_text(areas, upto - 1) + parsable_line(areas[upto - 1])
    }
}

/// The areas for scripts, one line each: name, offset and size.
pub fn dump_parsable(fmap: &FMap) -> (r: String)
    ensures
        r@ == parsable_text(fmap.areas@, fmap.areas@.len() as int),
{
    let mut out = String::new();
    let mut i: usize = 0;
    assert(out@ =~= parsable_text(fmap.areas@, 0));
    while i < fmap.areas.len()
        invariant
            i <= fmap.areas@.len(),
            out@ == parsable_text(fmap.areas@, i as int),
        decreases fmap.areas@.len() - i,
    {
        let area = &fmap.areas[i];
        let mut line = String::new();
        line.append(area.name.as_str());
        line.append(" ");
        push_decimal(&mut line, area.offset as u64);
        line.append(" ");
        push_decimal(&mut line, area.size as u64);
        line.append("\n");
        assert(line@ =~= parsable_line(*area));
        out.append(line.as_str());
        i = i + 1;
    }
    out
}

/// The last byte of an area: its offset plus its size minus one, and zero
/// for an empty area at offset zero.
pub open spec fn last_byte(area: FMapArea) -> nat {
    if area.offset + area.size == 0 {
        0
    } else {
        (area.offset + area.size - 1) as nat
    }
}

/// The line of an area for flashrom: first and last byte behind `0x`, each
/// at least eight characters long, then the name.
pub open spec fn flashrom_line(area: FMapArea) -> Seq<char> {
    hex_prefixed(area.offset as nat, 8) + ":"@ + hex_prefixed(last_byte(area), 8) + " "@ + area.name@
        + "\n"@
}

/// The lines of the first `upto` areas for flashrom.
pub open spec fn flashrom_text(areas: Seq<FMapArea>, upto: int) -> Seq<char>
    decreases upto,
{
    if upto <= 0 {
        seq![]
    } else {
        flashrom_text(areas, upto - 1) + flashrom_line(areas[upto - 1])
    }
}

/// The areas as flashrom takes a layout, one line each: first byte, last
/// byte and name. The last byte is computed without wrapping.
pub fn dump_flashrom_parsable(fmap: &FMap) -> (r: String)
    ensures
        r@ == flashrom_text(fmap.areas@, fmap.areas@.len() as int),
{
    let mut out = String::new();
    let mut i: usize = 0;
    assert(out@ =~= flashrom_text(fmap.areas@, 0));
    while i < fmap.areas.len()
        invariant
            i <= fmap.areas@.len(),
            out@ == flashrom_text(fmap.areas@, i as int),
        decreases fmap.areas@.len() - i,
    {
        let area = &fmap.areas[i];
        let end: u64 = area.offset as u64 + area.size as u64;
        let last: u64 = if end == 0 {
            0
        } else {
            end - 1
        };
        let mut line = String::new();
        push_hex_prefixed(&mut line, area.offset as u64, 8);
        line.append(":");
        push_hex_prefixed(&mut line, last, 8);
        line.append(" ");
        line.append(area.name.as_str());
        line.append("\n");
        assert(line@ =~= flashrom_line(*area));
        out.append(line.as_str());
        i = i + 1;
    }
    out
}

/// The word for the `Preserve` flag of an area.
pub open spec fn preserve_word(flags: FMapFlags) -> Seq<char> {
    if flags@ & BIT_PRESERVE == BIT_PRESERVE {
        "preserve"@
    } else {
        "not-preserve"@
    }
}

/// The line of an area for flash_ec: name, offset, size and whether the
/// area is to be preserved.
pub open spec fn ec_line(area: FMapArea) -> Seq<char> {
    area.name@ + " "@ + decimal(area.offset as nat) + " "@ + decimal(area.size as nat) + " "@
        + preserve_word(area.flags) + "\n"@
}

/// The lines of the first `upto` areas for flash_ec.
pub open spec fn ec_text(areas: Seq<FMapArea>, upto: int) -> Seq<char>
    decreases upto,
{
    if upto <= 0 {
        seq![]
    } else {
        ec_text(areas, upto - 1) + ec_line(areas[upto - 1])
    }
}

/// The areas as flash_ec takes them, one line each: name, offset, size and
/// `preserve` or `not-preserve`.
pub fn dump_ec_parsable(fmap: &FMap) -> (r: String)
    ensures
        r@ == ec_text(fmap.areas@, fmap.areas@.len() as int),
{
    let mut out = String::new();
    let mut i: usize = 0;
    assert(out@ =~= ec_text(fmap.areas@, 0));
    while i < fmap.areas.len()
        invariant
            i <= fmap.areas@.len(),
            out@ == ec_text(fmap.areas@, i as int),
        decreases fmap.areas@.len() - i,
    {
        let area = &fmap.areas[i];
        let mut line = String::new();
        line.append(area.name.as_str());
        line.append(" ");
        push_decimal(&mut line, area.offset as u64);
        line.append(" ");
        push_decimal(&mut line, area.size as u64);
        line.append(" ");
        if area.flags.contains(FMapFlags::Preserve()) {
            line.append("preserve");
        } else {
            line.append("not-preserve");
        }
        line.append("\n");
        assert(line@ =~= ec_line(*area));
        out.append(line.as_str());
        i = i + 1;
    }
    out
}

} // verus!
