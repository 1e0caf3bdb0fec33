//! What holds of every listing, whatever the tree and the configuration.

use vstd::prelude::*;

use crate::config::{is_hidden, Config};
use crate::entry::{entries_of, EntryView, NodeView};
use crate::induction::{
    lemma_by_levels_upto, lemma_level_rows_upto, lemma_next_sibling_full, lemma_parents,
    lemma_rows_within, lemma_siblings, lemma_top_level_upto, lemma_top_rows, row_within,
};
use crate::render::{
    level_rows, level_rows_upto, none_visible_after, prints, row_at, tree_rows, tree_rows_upto,
    visible, RowView, BAR, BLANK, CORNER, TEE,
};

verus! {

/// No row of a listing lies deeper than the depth bound, and none lies
/// above the depth that the listing started at. A listing that starts
/// beyond the bound is empty.
pub proof fn lemma_depth_bounded(
    nodes: Seq<NodeView>,
    depth: nat,
    config: Config,
    prefix: Seq<char>,
)
    ensures
        forall|k: int|
            0 <= k < tree_rows(nodes, depth, config, prefix).len() ==> depth <= (
            #[trigger] tree_rows(nodes, depth, config, prefix)[k]).depth <= config.max_depth,
        depth > config.max_depth ==> tree_rows(nodes, depth, config, prefix).len() == 0,
{
    lemma_rows_within(nodes, nodes.len() as int, depth, config, prefix);
    let rows = tree_rows(nodes, depth, config, prefix);
    if rows.len() > 0 {
        assert(row_within(rows[0], depth, config));
    }
}

/// Unless hidden entries are asked for, no row bears a name that begins
/// with `.`.
pub proof fn lemma_hidden_names_absent(
    nodes: Seq<NodeView>,
    depth: nat,
    config: Config,
    prefix: Seq<char>,
)
    requires
        !config.show_hidden,
    ensures
        forall|k: int|
            0 <= k < tree_rows(nodes, depth, config, prefix).len() ==> !is_hidden(
                (#[trigger] tree_rows(nodes, depth, config, prefix)[k]).name,
            ),
{
    lemma_rows_within(nodes, nodes.len() as int, depth, config, prefix);
}

/// With `files_only` no row is a directory, and since no directory is
/// entered, every row lies at the depth that the listing started at.
pub proof fn lemma_files_only(
    nodes: Seq<NodeView>,
    depth: nat,
    config: Config,
    prefix: Seq<char>,
)
    requires
        config.files_only,
    ensures
        forall|k: int|
            0 <= k < tree_rows(nodes, depth, config, prefix).len() ==> {
                let row = #[trigger] tree_rows(nodes, depth, config, prefix)[k];
                !row.is_dir && row.depth == depth
            },
{
    let rows = tree_rows(nodes, depth, config, prefix);
    lemma_rows_within(nodes, nodes.len() as int, depth, config, prefix);
    lemma_indentation(nodes, depth, config, prefix);
    assert forall|k: int| 0 <= k < rows.len() implies {
        let row = #[trigger] rows[k];
        !row.is_dir && row.depth == depth
    } by {
        assert(row_within(rows[k], depth, config));
        if rows[k].depth != depth {
            let par = choose|par: int| is_parent(rows, par, k);
            assert(row_within(rows[par], depth, config));
        }
    }
}

/// With `dirs_only` every row is a directory.
pub proof fn lemma_dirs_only(
    nodes: Seq<NodeView>,
    depth: nat,
    config: Config,
    prefix: Seq<char>,
)
    requires
        config.dirs_only,
    ensures
        forall|k: int|
            0 <= k < tree_rows(nodes, depth, config, prefix).len() ==> (#[trigger] tree_rows(
                nodes,
                depth,
                config,
                prefix,
            )[k]).is_dir,
{
    lemma_rows_within(nodes, nodes.len() as int, depth, config, prefix);
}

/// With both type flags set nothing is printed at all.
pub proof fn lemma_both_flags_print_nothing(
    nodes: Seq<NodeView>,
    depth: nat,
    config: Config,
    prefix: Seq<char>,
)
    requires
        config.files_only,
        config.dirs_only,
    ensures
        tree_rows(nodes, depth, config, prefix).len() == 0,
{
    lemma_rows_within(nodes, nodes.len() as int, depth, config, prefix);
    let rows = tree_rows(nodes, depth, config, prefix);
    if rows.len() > 0 {
        assert(row_within(rows[0], depth, config));
    }
}

/// The rows that the entry at position `i` of `nodes` contributes below its
/// own row: the listing of its children where they are listed, else nothing.
pub open spec fn rows_below(
    nodes: Seq<NodeView>,
    i: int,
    depth: nat,
    config: Config,
    prefix: Seq<char>,
) -> Seq<RowView> {
    let row = row_at(entries_of(nodes), i, depth, config, prefix);
    if row.descend {
        tree_rows(nodes[i].children, depth + 1, config, row.child_prefix())
    } else {
        Seq::empty()
    }
}

/// A listing is built entry by entry: a printed entry adds its row and then
/// the rows below it, and an entry that is not printed adds nothing.
pub proof fn lemma_tree_rows_step(
    nodes: Seq<NodeView>,
    n: int,
    depth: nat,
    config: Config,
    prefix: Seq<char>,
)
    requires
        0 < n <= nodes.len(),
    ensures
        tree_rows_upto(nodes, n, depth, config, prefix) == if prints(
            entries_of(nodes),
            n - 1,
            depth,
            config,
        ) {
            tree_rows_upto(nodes, n - 1, depth, config, prefix).push(
                row_at(entries_of(nodes), n - 1, depth, config, prefix),
            ) + rows_below(nodes, n - 1, depth, config, prefix)
        } else {
            tree_rows_upto(nodes, n - 1, depth, config, prefix)
        },
{
}

/// What a caller prints who takes the first `k` rows of one directory's
/// listing in turn, prints each, and lists the children of each entry whose
/// row asks for it before going on to the next row.
pub open spec fn rows_by_levels_upto(
    nodes: Seq<NodeView>,
    level: Seq<RowView>,
    k: int,
    config: Config,
) -> Seq<RowView>
    decreases k,
{
    if k <= 0 {
        Seq::empty()
    } else {
        let row = level[k - 1];
        let below = if row.descend {
            tree_rows(nodes[row.index as int].children, row.depth + 1, config, row.child_prefix())
        } else {
            Seq::empty()
        };
        rows_by_levels_upto(nodes, level, k - 1, config).push(row) + below
    }
}

/// A whole-tree listing is what comes of listing level by level: the rows
/// of the directory itself, each followed at once, where it asks for it,
/// by the whole-tree listing of that entry's children, one level deeper and
/// under the row's child prefix.
pub proof fn lemma_listing_by_levels(
    nodes: Seq<NodeView>,
    depth: nat,
    config: Config,
    prefix: Seq<char>,
)
    ensures
        tree_rows(nodes, depth, config, prefix) == rows_by_levels_upto(
            nodes,
            level_rows(entries_of(nodes), depth, config, prefix),
            level_rows(entries_of(nodes), depth, config, prefix).len() as int,
            config,
        ),
{
    lemma_by_levels_upto(nodes, nodes.len() as int, depth, config, prefix);
}

/// The rows of `rows` that lie at depth `depth`.
pub open spec fn rows_at_depth(rows: Seq<RowView>, depth: nat) -> Seq<RowView> {
    rows.filter(|row: RowView| row.depth == depth)
}

/// What a whole-tree listing holds at the depth it started at is what the
/// listing of that one directory holds: the rows in between are those of
/// deeper directories.
pub proof fn lemma_top_level(
    nodes: Seq<NodeView>,
    depth: nat,
    config: Config,
    prefix: Seq<char>,
)
    ensures
        rows_at_depth(tree_rows(nodes, depth, config, prefix), depth) == level_rows(
            entries_of(nodes),
            depth,
            config,
            prefix,
        ),
{
    lemma_top_level_upto(nodes, nodes.len() as int, depth, config, prefix);
}

/// One listing prints exactly the entries that pass both filters within
/// the depth bound: every row is the row of such an entry, the rows come in
/// listing order, and every such entry has its row. Under `show_hidden` a
/// name that begins with `.` is therefore printed like any other.
pub proof fn lemma_level_rows_exact(
    listing: Seq<EntryView>,
    depth: nat,
    config: Config,
    prefix: Seq<char>,
)
    ensures
        forall|k: int|
            0 <= k < level_rows(listing, depth, config, prefix).len() ==> {
                let row = #[trigger] level_rows(listing, depth, config, prefix)[k];
                &&& row.index < listing.len()
                &&& prints(listing, row.index as int, depth, config)
                &&& row == row_at(listing, row.index as int, depth, config, prefix)
            },
        forall|a: int, b: int|
            #![trigger
                level_rows(listing, depth, config, prefix)[a],
                level_rows(listing, depth, config, prefix)[b]
            ]
            0 <= a < b < level_rows(listing, depth, config, prefix).len() ==> level_rows(
                listing,
                depth,
                config,
                prefix,
            )[a].index < level_rows(listing, depth, config, prefix)[b].index,
        forall|i: int|
            0 <= i < listing.len() && #[trigger] prints(listing, i, depth, config)
                ==> exists|k: int|
                0 <= k < level_rows(listing, depth, config, prefix).len() && (
                #[trigger] level_rows(listing, depth, config, prefix)[k]).index == i,
{
    let n = listing.len() as int;
    let rows = level_rows(listing, depth, config, prefix);
    lemma_level_rows_upto(listing, n, depth, config, prefix);
    assert forall|i: int|
        0 <= i < listing.len() && #[trigger] prints(listing, i, depth, config) implies exists|
        k: int,
    | 0 <= k < rows.len() && (#[trigger] rows[k]).index == i by {
        let k = choose|k: int|
            0 <= k < level_rows_upto(listing, n, depth, config, prefix).len() && (
            #[trigger] level_rows_upto(listing, n, depth, config, prefix)[k]).index == i;
        assert(rows[k].index == i);
    }
}

/// In one listing the final row, and no other, is marked as last: every
/// row before the final one bears the tee, and the final row bears the
/// corner.
pub proof fn lemma_level_branches(
    listing: Seq<EntryView>,
    depth: nat,
    config: Config,
    prefix: Seq<char>,
)
    ensures
        forall|k: int|
            0 <= k < level_rows(listing, depth, config, prefix).len() - 1 ==> {
                let row = #[trigger] level_rows(listing, depth, config, prefix)[k];
                !row.last && row.branch() == TEE@
            },
        level_rows(listing, depth, config, prefix).len() > 0 ==> {
            let row = level_rows(listing, depth, config, prefix).last();
            row.last && row.branch() == CORNER@
        },
{
    let rows = level_rows(listing, depth, config, prefix);
    lemma_level_rows_exact(listing, depth, config, prefix);
    assert forall|k: int| 0 <= k < rows.len() - 1 implies {
        let row = #[trigger] rows[k];
        !row.last && row.branch() == TEE@
    } by {
        let next = rows[k + 1];
        assert(rows[k].index < next.index);
        assert(visible(listing[next.index as int], config));
    }
    if rows.len() > 0 {
        let end = rows[rows.len() - 1];
        let at = end.index as int;
        assert(prints(listing, at, depth, config));
        if !none_visible_after(listing, config, at) {
            let j = choose|j: int|
                at < j < listing.len() && visible(#[trigger] listing[j], config);
            assert(prints(listing, j, depth, config));
            let k = choose|k: int| 0 <= k < rows.len() && (#[trigger] rows[k]).index == j;
            if k < rows.len() - 1 {
                assert(rows[k].index < end.index);
            }
        }
    }
}

/// In `rows`, the row at `par` is the directory under which the row at `k`
/// was listed: it lies one level higher, and no row between them lies
/// higher than the row at `k`.
pub open spec fn is_parent(rows: Seq<RowView>, par: int, k: int) -> bool {
    &&& 0 <= par < k < rows.len()
    &&& rows[par].depth + 1 == rows[k].depth
    &&& forall|m: int| par < m < k ==> (#[trigger] rows[m]).depth >= rows[k].depth
}

/// Indentation follows the tree. A row at the depth that the listing
/// started at bears the listing's prefix. Every deeper row has a parent
/// among the rows before it, which is a directory, and bears the prefix of
/// that parent followed by four blanks where the parent is the last visible
/// entry of its directory, and by a bar and three blanks where it is not.
pub proof fn lemma_indentation(
    nodes: Seq<NodeView>,
    depth: nat,
    config: Config,
    prefix: Seq<char>,
)
    ensures
        forall|k: int|
            0 <= k < tree_rows(nodes, depth, config, prefix).len() && (#[trigger] tree_rows(
                nodes,
                depth,
                config,
                prefix,
            )[k]).depth == depth ==> tree_rows(nodes, depth, config, prefix)[k].prefix == prefix,
        forall|k: int|
            0 <= k < tree_rows(nodes, depth, config, prefix).len() && (#[trigger] tree_rows(
                nodes,
                depth,
                config,
                prefix,
            )[k]).depth != depth ==> exists|par: int|
                is_parent(tree_rows(nodes, depth, config, prefix), par, k),
        forall|par: int, k: int|
            is_parent(tree_rows(nodes, depth, config, prefix), par, k) ==> {
                let rows = tree_rows(nodes, depth, config, prefix);
                &&& rows[par].is_dir
                &&& rows[k].prefix == rows[par].child_prefix()
                &&& rows[k].prefix == rows[par].prefix + if rows[par].last {
                    BLANK@
                } else {
                    BAR@
                }
            },
{
    let n = nodes.len() as int;
    let rows = tree_rows(nodes, depth, config, prefix);
    lemma_rows_within(nodes, n, depth, config, prefix);
    lemma_top_rows(nodes, n, depth, config, prefix);
    lemma_parents(nodes, n, depth, config, prefix);
    assert forall|k: int| 0 <= k < rows.len() && (#[trigger] rows[k]).depth
        != depth implies exists|par: int| is_parent(rows, par, k) by {
        assert(row_within(rows[k], depth, config));
    }
}

/// In `rows`, the rows at `a` and at the later `b` were listed under the
/// same directory: they lie at one depth, and no row between them lies
/// higher.
pub open spec fn are_siblings(rows: Seq<RowView>, a: int, b: int) -> bool {
    &&& 0 <= a < b < rows.len()
    &&& rows[a].depth == rows[b].depth
    &&& forall|m: int| a < m < b ==> (#[trigger] rows[m]).depth >= rows[a].depth
}

/// Of two rows that were listed under the same directory, the earlier one
/// is not marked as last: only the final row of a directory can bear the
/// corner branch, and every row that a sibling follows bears the tee.
pub proof fn lemma_earlier_sibling_branch(
    nodes: Seq<NodeView>,
    depth: nat,
    config: Config,
    prefix: Seq<char>,
)
    ensures
        forall|a: int, b: int|
            are_siblings(tree_rows(nodes, depth, config, prefix), a, b) ==> {
                let row = tree_rows(nodes, depth, config, prefix)[a];
                !row.last && row.branch() == TEE@
            },
{
    lemma_siblings(nodes, nodes.len() as int, depth, config, prefix);
}

/// Every row that is not marked as last has a sibling after it. With the
/// law before, the final row of each directory, and no other, bears the
/// corner branch.
pub proof fn lemma_final_sibling_branch(
    nodes: Seq<NodeView>,
    depth: nat,
    config: Config,
    prefix: Seq<char>,
)
    ensures
        forall|a: int|
            0 <= a < tree_rows(nodes, depth, config, prefix).len() && !(#[trigger] tree_rows(
                nodes,
                depth,
                config,
                prefix,
            )[a]).last ==> exists|b: int|
                are_siblings(tree_rows(nodes, depth, config, prefix), a, b),
{
    lemma_next_sibling_full(nodes, depth, config, prefix);
}

} // verus!
