//! The inductions behind the laws: each follows a listing as it is built,
//! entry by entry and level by level.

use vstd::prelude::*;

use crate::config::Config;
use crate::entry::{entries_of, EntryView, NodeView};
use crate::laws::{are_siblings, is_parent, rows_at_depth, rows_below, rows_by_levels_upto};
use crate::render::{
    level_rows_upto, prints, row_at, tree_rows, tree_rows_upto, visible, RowView,
};
use crate::shape::{
    joined, lemma_joined, lemma_next_sibling_joined, lemma_parent_from_below,
    lemma_parent_from_front, lemma_parent_is_row, lemma_parent_to_below, lemma_parent_to_front,
    lemma_siblings_at_top, lemma_siblings_to_below, lemma_siblings_to_front,
};

verus! {

/// What holds of each single row of a listing that starts at depth `depth`:
/// it lies within the depth bound and has passed both filters, and its
/// children are listed where it is a directory above the bound.
pub(crate) open spec fn row_within(row: RowView, depth: nat, config: Config) -> bool {
    &&& depth <= row.depth <= config.max_depth
    &&& config.shows(row.name)
    &&& config.keeps(row.is_dir)
    &&& row.descend == (row.is_dir && row.depth < config.max_depth)
}

/// Every row of a tree listing lies within the depth bound and has passed
/// both filters.
pub(crate) proof fn lemma_rows_within(
    nodes: Seq<NodeView>,
    n: int,
    depth: nat,
    config: Config,
    prefix: Seq<char>,
)
    ensures
        forall|k: int|
            0 <= k < tree_rows_upto(nodes, n, depth, config, prefix).len() ==> row_within(
                #[trigger] tree_rows_upto(nodes, n, depth, config, prefix)[k],
                depth,
                config,
            ),
    decreases nodes, n,
{
    if 0 < n <= nodes.len() {
        let rows = tree_rows_upto(nodes, n, depth, config, prefix);
        let front = tree_rows_upto(nodes, n - 1, depth, config, prefix);
        let listing = entries_of(nodes);
        lemma_rows_within(nodes, n - 1, depth, config, prefix);
        if prints(listing, n - 1, depth, config) {
            let row = row_at(listing, n - 1, depth, config, prefix);
            let children = nodes[n - 1].children;
            if row.descend {
                lemma_rows_within(
                    children,
                    children.len() as int,
                    depth + 1,
                    config,
                    row.child_prefix(),
                );
            }
            let below = if row.descend {
                tree_rows(children, depth + 1, config, row.child_prefix())
            } else {
                Seq::empty()
            };
            assert(rows == front.push(row) + below);
            assert forall|k: int| 0 <= k < rows.len() implies row_within(
                #[trigger] rows[k],
                depth,
                config,
            ) by {
                if k < front.len() {
                    assert(rows[k] == front[k]);
                } else if k == front.len() {
                    assert(rows[k] == row);
                } else {
                    assert(rows[k] == below[k - front.len() - 1]);
                    assert(row_within(below[k - front.len() - 1], depth + 1, config));
                }
            }
        }
    }
}

/// One step of a listing, with what is known of the depths on both sides
/// of the new row.
pub(crate) proof fn lemma_step(
    nodes: Seq<NodeView>,
    n: int,
    depth: nat,
    config: Config,
    prefix: Seq<char>,
)
    requires
        0 < n <= nodes.len(),
    ensures
        tree_rows_upto(nodes, n, depth, config, prefix) == if prints(
            entries_of(nodes),
            n - 1,
            depth,
            config,
        ) {
            tree_rows_upto(nodes, n - 1, depth, config, prefix).push(
                row_at(entries_of(nodes), n - 1, depth, config, prefix),
            ) + rows_below(nodes, n - 1, depth, config, prefix)
        } else {
            tree_rows_upto(nodes, n - 1, depth, config, prefix)
        },
        forall|k: int|
            0 <= k < rows_below(nodes, n - 1, depth, config, prefix).len() ==> row_within(
                #[trigger] rows_below(nodes, n - 1, depth, config, prefix)[k],
                depth + 1,
                config,
            ),
        forall|k: int|
            0 <= k < tree_rows_upto(nodes, n - 1, depth, config, prefix).len() ==> row_within(
                #[trigger] tree_rows_upto(nodes, n - 1, depth, config, prefix)[k],
                depth,
                config,
            ),
{
    let row = row_at(entries_of(nodes), n - 1, depth, config, prefix);
    let children = nodes[n - 1].children;
    lemma_rows_within(nodes, n - 1, depth, config, prefix);
    lemma_rows_within(children, children.len() as int, depth + 1, config, row.child_prefix());
}

/// The rows at the depth that a listing started at are those of its own
/// entries: each bears the listing's prefix and is the row of a printed
/// entry, and they come in listing order.
pub(crate) proof fn lemma_top_rows(
    nodes: Seq<NodeView>,
    n: int,
    depth: nat,
    config: Config,
    prefix: Seq<char>,
)
    ensures
        forall|k: int|
            0 <= k < tree_rows_upto(nodes, n, depth, config, prefix).len() && (
            #[trigger] tree_rows_upto(nodes, n, depth, config, prefix)[k]).depth == depth ==> {
                let row = tree_rows_upto(nodes, n, depth, config, prefix)[k];
                &&& row.index < n
                &&& prints(entries_of(nodes), row.index as int, depth, config)
                &&& row == row_at(entries_of(nodes), row.index as int, depth, config, prefix)
            },
        forall|a: int, b: int|
            #![trigger
                tree_rows_upto(nodes, n, depth, config, prefix)[a],
                tree_rows_upto(nodes, n, depth, config, prefix)[b]
            ]
            0 <= a < b < tree_rows_upto(nodes, n, depth, config, prefix).len()
                && tree_rows_upto(nodes, n, depth, config, prefix)[a].depth == depth
                && tree_rows_upto(nodes, n, depth, config, prefix)[b].depth == depth
                ==> tree_rows_upto(nodes, n, depth, config, prefix)[a].index < tree_rows_upto(
                nodes,
                n,
                depth,
                config,
                prefix,
            )[b].index,
    decreases n,
{
    if 0 < n <= nodes.len() {
        let rows = tree_rows_upto(nodes, n, depth, config, prefix);
        let front = tree_rows_upto(nodes, n - 1, depth, config, prefix);
        let listing = entries_of(nodes);
        lemma_top_rows(nodes, n - 1, depth, config, prefix);
        lemma_step(nodes, n, depth, config, prefix);
        if prints(listing, n - 1, depth, config) {
            let row = row_at(listing, n - 1, depth, config, prefix);
            let below = rows_below(nodes, n - 1, depth, config, prefix);
            let f = front.len() as int;
            assert forall|k: int|
                0 <= k < rows.len() && (#[trigger] rows[k]).depth == depth implies {
                &&& rows[k].index < n
                &&& prints(listing, rows[k].index as int, depth, config)
                &&& rows[k] == row_at(listing, rows[k].index as int, depth, config, prefix)
            } by {
                if k < f {
                    assert(rows[k] == front[k]);
                } else if k == f {
                    assert(rows[k] == row);
                } else {
                    assert(rows[k] == below[k - f - 1]);
                }
            }
            assert forall|a: int, b: int|
                #![trigger rows[a], rows[b]]
                0 <= a < b < rows.len() && rows[a].depth == depth && rows[b].depth
                    == depth implies rows[a].index < rows[b].index by {
                if b < f {
                    assert(rows[a] == front[a]);
                    assert(rows[b] == front[b]);
                } else if b == f {
                    assert(rows[a] == front[a]);
                    assert(rows[b] == row);
                } else {
                    assert(rows[b] == below[b - f - 1]);
                }
            }
        }
    }
}

/// Every row below the starting depth has a parent, and a row bears the
/// child prefix of its parent, which is a directory whose children are
/// listed.
pub(crate) proof fn lemma_parents(
    nodes: Seq<NodeView>,
    n: int,
    depth: nat,
    config: Config,
    prefix: Seq<char>,
)
    ensures
        forall|k: int|
            0 <= k < tree_rows_upto(nodes, n, depth, config, prefix).len() && (
            #[trigger] tree_rows_upto(nodes, n, depth, config, prefix)[k]).depth > depth
                ==> exists|par: int|
                is_parent(tree_rows_upto(nodes, n, depth, config, prefix), par, k),
        forall|par: int, k: int|
            is_parent(tree_rows_upto(nodes, n, depth, config, prefix), par, k) ==> {
                let rows = tree_rows_upto(nodes, n, depth, config, prefix);
                &&& rows[par].is_dir
                &&& rows[par].descend
                &&& rows[k].prefix == rows[par].child_prefix()
            },
    decreases nodes, n,
{
    let rows = tree_rows_upto(nodes, n, depth, config, prefix);
    if 0 < n <= nodes.len() {
        let front = tree_rows_upto(nodes, n - 1, depth, config, prefix);
        let listing = entries_of(nodes);
        lemma_parents(nodes, n - 1, depth, config, prefix);
        lemma_step(nodes, n, depth, config, prefix);
        if prints(listing, n - 1, depth, config) {
            let row = row_at(listing, n - 1, depth, config, prefix);
            let below = rows_below(nodes, n - 1, depth, config, prefix);
            let children = nodes[n - 1].children;
            let f = front.len() as int;
            if row.descend {
                lemma_parents(
                    children,
                    children.len() as int,
                    depth + 1,
                    config,
                    row.child_prefix(),
                );
                lemma_top_rows(
                    children,
                    children.len() as int,
                    depth + 1,
                    config,
                    row.child_prefix(),
                );
            }
            assert(rows == joined(front, row, below));
            assert forall|m: int| 0 <= m < below.len() implies (#[trigger] below[m]).depth
                > row.depth by {
                assert(row_within(below[m], depth + 1, config));
            }
            assert forall|k: int| 0 <= k < rows.len() && (#[trigger] rows[k]).depth
                > depth implies exists|par: int| is_parent(rows, par, k) by {
                lemma_joined(front, row, below, k);
                if k < f {
                    let par = choose|par: int| is_parent(front, par, k);
                    lemma_parent_from_front(front, row, below, par, k);
                } else if k > f {
                    let kk = k - f - 1;
                    if below[kk].depth > depth + 1 {
                        let pp = choose|pp: int| is_parent(below, pp, kk);
                        lemma_parent_from_below(front, row, below, pp, kk);
                    } else {
                        lemma_parent_is_row(front, row, below, kk);
                    }
                }
            }
            assert forall|par: int, k: int| is_parent(rows, par, k) implies {
                &&& rows[par].is_dir
                &&& rows[par].descend
                &&& rows[k].prefix == rows[par].child_prefix()
            } by {
                lemma_joined(front, row, below, k);
                lemma_joined(front, row, below, par);
                if k < f {
                    lemma_parent_to_front(front, row, below, par, k);
                } else if k == f {
                    assert(row_within(front[par], depth, config));
                } else if par > f {
                    lemma_parent_to_below(front, row, below, par, k);
                } else if par < f {
                    lemma_joined(front, row, below, f);
                    assert(rows[f].depth >= rows[k].depth);
                }
            }
        }
    }
}

/// A row that a sibling follows is not marked as last.
pub(crate) proof fn lemma_siblings(
    nodes: Seq<NodeView>,
    n: int,
    depth: nat,
    config: Config,
    prefix: Seq<char>,
)
    ensures
        forall|a: int, b: int|
            are_siblings(tree_rows_upto(nodes, n, depth, config, prefix), a, b) ==> !tree_rows_upto(
                nodes,
                n,
                depth,
                config,
                prefix,
            )[a].last,
    decreases nodes, n,
{
    let rows = tree_rows_upto(nodes, n, depth, config, prefix);
    if 0 < n <= nodes.len() {
        let front = tree_rows_upto(nodes, n - 1, depth, config, prefix);
        let listing = entries_of(nodes);
        lemma_siblings(nodes, n - 1, depth, config, prefix);
        lemma_top_rows(nodes, n - 1, depth, config, prefix);
        lemma_step(nodes, n, depth, config, prefix);
        if prints(listing, n - 1, depth, config) {
            let row = row_at(listing, n - 1, depth, config, prefix);
            let below = rows_below(nodes, n - 1, depth, config, prefix);
            let children = nodes[n - 1].children;
            let f = front.len() as int;
            if row.descend {
                lemma_siblings(
                    children,
                    children.len() as int,
                    depth + 1,
                    config,
                    row.child_prefix(),
                );
            }
            assert(rows == joined(front, row, below));
            assert forall|a: int, b: int| are_siblings(rows, a, b) implies !rows[a].last by {
                lemma_joined(front, row, below, a);
                lemma_joined(front, row, below, b);
                if b < f {
                    lemma_siblings_to_front(front, row, below, a, b);
                } else if b == f {
                    let at = front[a].index as int;
                    assert(front[a] == row_at(listing, at, depth, config, prefix));
                    assert(visible(listing[n - 1], config));
                } else if a > f {
                    lemma_siblings_to_below(front, row, below, a, b);
                } else if a < f {
                    lemma_joined(front, row, below, f);
                    assert(rows[f].depth >= rows[a].depth);
                    assert(row_within(below[b - f - 1], depth + 1, config));
                } else {
                    assert(row_within(below[b - f - 1], depth + 1, config));
                }
            }
        }
    }
}

/// A top row that a printed entry follows in the listing has a sibling
/// after it.
pub(crate) proof fn lemma_next_top_sibling(
    nodes: Seq<NodeView>,
    n: int,
    depth: nat,
    config: Config,
    prefix: Seq<char>,
    a: int,
    j: int,
)
    requires
        0 <= a < tree_rows_upto(nodes, n, depth, config, prefix).len(),
        tree_rows_upto(nodes, n, depth, config, prefix)[a].depth == depth,
        tree_rows_upto(nodes, n, depth, config, prefix)[a].index < j < n,
        prints(entries_of(nodes), j, depth, config),
    ensures
        exists|b: int| are_siblings(tree_rows_upto(nodes, n, depth, config, prefix), a, b),
    decreases n,
{
    let rows = tree_rows_upto(nodes, n, depth, config, prefix);
    let front = tree_rows_upto(nodes, n - 1, depth, config, prefix);
    let listing = entries_of(nodes);
    lemma_rows_within(nodes, n, depth, config, prefix);
    lemma_top_rows(nodes, n, depth, config, prefix);
    assert(row_within(rows[a], depth, config));
    if 0 < n <= nodes.len() {
        lemma_step(nodes, n, depth, config, prefix);
        if prints(listing, n - 1, depth, config) {
            let row = row_at(listing, n - 1, depth, config, prefix);
            let below = rows_below(nodes, n - 1, depth, config, prefix);
            let f = front.len() as int;
            assert(rows == joined(front, row, below));
            lemma_joined(front, row, below, a);
            lemma_joined(front, row, below, f);
            if a > f {
                assert(row_within(below[a - f - 1], depth + 1, config));
            }
            assert forall|m: int| 0 <= m < rows.len() implies (#[trigger] rows[m]).depth
                >= depth by {
                assert(row_within(rows[m], depth, config));
            }
            lemma_siblings_at_top(rows, depth, a, f);
        } else {
            lemma_next_top_sibling(nodes, n - 1, depth, config, prefix, a, j);
        }
    }
}

/// Every row below the starting depth that is not marked as last has a
/// sibling after it.
pub(crate) proof fn lemma_next_sibling_deep(
    nodes: Seq<NodeView>,
    n: int,
    depth: nat,
    config: Config,
    prefix: Seq<char>,
)
    requires
        n <= nodes.len(),
    ensures
        forall|a: int|
            0 <= a < tree_rows_upto(nodes, n, depth, config, prefix).len() && (
            #[trigger] tree_rows_upto(nodes, n, depth, config, prefix)[a]).depth > depth
                && !tree_rows_upto(nodes, n, depth, config, prefix)[a].last ==> exists|b: int|
                are_siblings(tree_rows_upto(nodes, n, depth, config, prefix), a, b),
    decreases nodes, n,
{
    let rows = tree_rows_upto(nodes, n, depth, config, prefix);
    if 0 < n {
        let front = tree_rows_upto(nodes, n - 1, depth, config, prefix);
        let listing = entries_of(nodes);
        lemma_next_sibling_deep(nodes, n - 1, depth, config, prefix);
        if prints(listing, n - 1, depth, config) {
            let row = row_at(listing, n - 1, depth, config, prefix);
            let below = rows_below(nodes, n - 1, depth, config, prefix);
            let children = nodes[n - 1].children;
            if row.descend {
                lemma_next_sibling_full(children, (depth + 1) as nat, config, row.child_prefix());
            }
            assert(rows == joined(front, row, below));
            assert forall|a: int|
                0 <= a < rows.len() && (#[trigger] rows[a]).depth > depth
                    && !rows[a].last implies exists|b: int| are_siblings(rows, a, b) by {
                lemma_joined(front, row, below, a);
                let under = a - front.len() - 1;
                if a > front.len() {
                    assert(!below[under].last);
                }
                lemma_next_sibling_joined(front, row, below, a, under);
            }
        }
    }
}

/// Every row that is not marked as last has a sibling after it.
pub(crate) proof fn lemma_next_sibling_full(
    nodes: Seq<NodeView>,
    depth: nat,
    config: Config,
    prefix: Seq<char>,
)
    ensures
        forall|a: int|
            0 <= a < tree_rows(nodes, depth, config, prefix).len() && !(#[trigger] tree_rows(
                nodes,
                depth,
                config,
                prefix,
            )[a]).last ==> exists|b: int|
                are_siblings(tree_rows(nodes, depth, config, prefix), a, b),
    decreases nodes, nodes.len() + 1,
{
    let n = nodes.len() as int;
    let rows = tree_rows(nodes, depth, config, prefix);
    let listing = entries_of(nodes);
    lemma_rows_within(nodes, n, depth, config, prefix);
    lemma_top_rows(nodes, n, depth, config, prefix);
    lemma_next_sibling_deep(nodes, n, depth, config, prefix);
    assert forall|a: int| 0 <= a < rows.len() && !(#[trigger] rows[a]).last implies exists|b: int|
        are_siblings(rows, a, b) by {
        assert(row_within(rows[a], depth, config));
        if rows[a].depth == depth {
            let at = rows[a].index as int;
            assert(rows[a] == row_at(listing, at, depth, config, prefix));
            let j = choose|j: int|
                at < j < listing.len() && visible(#[trigger] listing[j], config);
            lemma_next_top_sibling(nodes, n, depth, config, prefix, a, j);
        }
    }
}

/// The rows of one listing are those of its printed entries, each once and
/// in listing order.
pub(crate) proof fn lemma_level_rows_upto(
    listing: Seq<EntryView>,
    n: int,
    depth: nat,
    config: Config,
    prefix: Seq<char>,
)
    requires
        n <= listing.len(),
    ensures
        forall|k: int|
            0 <= k < level_rows_upto(listing, n, depth, config, prefix).len() ==> {
                let row = #[trigger] level_rows_upto(listing, n, depth, config, prefix)[k];
                &&& row.index < n
                &&& prints(listing, row.index as int, depth, config)
                &&& row == row_at(listing, row.index as int, depth, config, prefix)
            },
        forall|a: int, b: int|
            #![trigger
                level_rows_upto(listing, n, depth, config, prefix)[a],
                level_rows_upto(listing, n, depth, config, prefix)[b]
            ]
            0 <= a < b < level_rows_upto(listing, n, depth, config, prefix).len()
                ==> level_rows_upto(listing, n, depth, config, prefix)[a].index < level_rows_upto(
                listing,
                n,
                depth,
                config,
                prefix,
            )[b].index,
        forall|i: int|
            0 <= i < n && #[trigger] prints(listing, i, depth, config) ==> exists|k: int|
                0 <= k < level_rows_upto(listing, n, depth, config, prefix).len() && (
                #[trigger] level_rows_upto(listing, n, depth, config, prefix)[k]).index == i,
    decreases n,
{
    if n > 0 {
        let rows = level_rows_upto(listing, n, depth, config, prefix);
        let front = level_rows_upto(listing, n - 1, depth, config, prefix);
        lemma_level_rows_upto(listing, n - 1, depth, config, prefix);
        assert forall|i: int|
            0 <= i < n && #[trigger] prints(listing, i, depth, config) implies exists|k: int|
            0 <= k < rows.len() && (#[trigger] rows[k]).index == i by {
            if i < n - 1 {
                let k = choose|k: int| 0 <= k < front.len() && (#[trigger] front[k]).index == i;
                assert(rows[k] == front[k]);
            } else {
                assert(rows[front.len() as int].index == i);
            }
        }
    }
}

/// Rows that all lie off a depth leave nothing at that depth.
pub(crate) proof fn lemma_none_at_depth(rows: Seq<RowView>, depth: nat)
    requires
        forall|k: int| 0 <= k < rows.len() ==> (#[trigger] rows[k]).depth != depth,
    ensures
        rows_at_depth(rows, depth) == Seq::<RowView>::empty(),
    decreases rows.len(),
{
    reveal(Seq::filter);
    if rows.len() > 0 {
        lemma_none_at_depth(rows.drop_last(), depth);
    }
}

/// The rows at the starting depth are the rows of the listing itself.
pub(crate) proof fn lemma_top_level_upto(
    nodes: Seq<NodeView>,
    n: int,
    depth: nat,
    config: Config,
    prefix: Seq<char>,
)
    requires
        n <= nodes.len(),
    ensures
        rows_at_depth(tree_rows_upto(nodes, n, depth, config, prefix), depth) == level_rows_upto(
            entries_of(nodes),
            n,
            depth,
            config,
            prefix,
        ),
    decreases n,
{
    let pred = |row: RowView| row.depth == depth;
    if n <= 0 {
        reveal(Seq::filter);
    } else {
        let front = tree_rows_upto(nodes, n - 1, depth, config, prefix);
        let listing = entries_of(nodes);
        lemma_top_level_upto(nodes, n - 1, depth, config, prefix);
        lemma_step(nodes, n, depth, config, prefix);
        if prints(listing, n - 1, depth, config) {
            let row = row_at(listing, n - 1, depth, config, prefix);
            let below = rows_below(nodes, n - 1, depth, config, prefix);
            assert forall|k: int| 0 <= k < below.len() implies (#[trigger] below[k]).depth
                != depth by {
                assert(row_within(below[k], depth + 1, config));
            }
            lemma_none_at_depth(below, depth);
            Seq::filter_distributes_over_add(front.push(row), below, pred);
            assert(front.push(row).filter(pred) == front.filter(pred).push(row)) by {
                reveal(Seq::filter);
                assert(front.push(row).drop_last() == front);
            }
            assert(front.filter(pred).push(row) + Seq::<RowView>::empty() == front.filter(
                pred,
            ).push(row));
        }
    }
}

/// `rows_by_levels_upto` reads no more than the first `k` rows.
pub(crate) proof fn lemma_rows_by_levels_front(
    nodes: Seq<NodeView>,
    level: Seq<RowView>,
    row: RowView,
    k: int,
    config: Config,
)
    requires
        k <= level.len(),
    ensures
        rows_by_levels_upto(nodes, level.push(row), k, config) == rows_by_levels_upto(
            nodes,
            level,
            k,
            config,
        ),
    decreases k,
{
    if k > 0 {
        lemma_rows_by_levels_front(nodes, level, row, k - 1, config);
        assert(level.push(row)[k - 1] == level[k - 1]);
    }
}

/// The first `n` entries give the same rows entry by entry and level by
/// level.
pub(crate) proof fn lemma_by_levels_upto(
    nodes: Seq<NodeView>,
    n: int,
    depth: nat,
    config: Config,
    prefix: Seq<char>,
)
    requires
        n <= nodes.len(),
    ensures
        tree_rows_upto(nodes, n, depth, config, prefix) == rows_by_levels_upto(
            nodes,
            level_rows_upto(entries_of(nodes), n, depth, config, prefix),
            level_rows_upto(entries_of(nodes), n, depth, config, prefix).len() as int,
            config,
        ),
    decreases n,
{
    if n > 0 {
        let listing = entries_of(nodes);
        let level = level_rows_upto(listing, n - 1, depth, config, prefix);
        lemma_by_levels_upto(nodes, n - 1, depth, config, prefix);
        if prints(listing, n - 1, depth, config) {
            let row = row_at(listing, n - 1, depth, config, prefix);
            lemma_rows_by_levels_front(nodes, level, row, level.len() as int, config);
            assert(level.push(row)[level.len() as int] == row);
        }
    }
}

} // verus!
