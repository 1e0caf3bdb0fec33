//! How parents and siblings carry over when a sequence of rows is put
//! together from the rows before an entry, the entry's own row, and the
//! rows below it.

use vstd::prelude::*;

use crate::laws::{are_siblings, is_parent};
use crate::render::RowView;

verus! {

/// `front`, then `row`, then `below`.
pub(crate) open spec fn joined(front: Seq<RowView>, row: RowView, below: Seq<RowView>) -> Seq<
    RowView,
> {
    front.push(row) + below
}

pub(crate) proof fn lemma_parent_from_front(
    front: Seq<RowView>,
    row: RowView,
    below: Seq<RowView>,
    par: int,
    k: int,
)
    requires
        is_parent(front, par, k),
    ensures
        is_parent(joined(front, row, below), par, k),
{
    let rows = joined(front, row, below);
    assert(rows[par] == front[par]);
    assert(rows[k] == front[k]);
    assert forall|m: int| par < m < k implies (#[trigger] rows[m]).depth >= rows[k].depth by {
        assert(rows[m] == front[m]);
    }
}

pub(crate) proof fn lemma_parent_to_front(
    front: Seq<RowView>,
    row: RowView,
    below: Seq<RowView>,
    par: int,
    k: int,
)
    requires
        is_parent(joined(front, row, below), par, k),
        k < front.len(),
    ensures
        is_parent(front, par, k),
{
    let rows = joined(front, row, below);
    assert(rows[par] == front[par]);
    assert(rows[k] == front[k]);
    assert forall|m: int| par < m < k implies (#[trigger] front[m]).depth >= front[k].depth by {
        assert(rows[m] == front[m]);
    }
}

pub(crate) proof fn lemma_parent_from_below(
    front: Seq<RowView>,
    row: RowView,
    below: Seq<RowView>,
    par: int,
    k: int,
)
    requires
        is_parent(below, par, k),
    ensures
        is_parent(joined(front, row, below), par + front.len() + 1, k + front.len() + 1),
{
    let rows = joined(front, row, below);
    let f = front.len() as int;
    assert(rows[par + f + 1] == below[par]);
    assert(rows[k + f + 1] == below[k]);
    assert forall|m: int| par + f + 1 < m < k + f + 1 implies (#[trigger] rows[m]).depth
        >= rows[k + f + 1].depth by {
        assert(rows[m] == below[m - f - 1]);
    }
}

pub(crate) proof fn lemma_parent_to_below(
    front: Seq<RowView>,
    row: RowView,
    below: Seq<RowView>,
    par: int,
    k: int,
)
    requires
        is_parent(joined(front, row, below), par, k),
        par > front.len(),
    ensures
        is_parent(below, par - front.len() - 1, k - front.len() - 1),
{
    let rows = joined(front, row, below);
    let f = front.len() as int;
    assert(rows[par] == below[par - f - 1]);
    assert(rows[k] == below[k - f - 1]);
    assert forall|m: int| par - f - 1 < m < k - f - 1 implies (#[trigger] below[m]).depth
        >= below[k - f - 1].depth by {
        assert(rows[m + f + 1] == below[m]);
    }
}

/// The row of an entry is the parent of each row below it that lies one
/// level deeper, where no row below lies higher than that.
pub(crate) proof fn lemma_parent_is_row(
    front: Seq<RowView>,
    row: RowView,
    below: Seq<RowView>,
    k: int,
)
    requires
        0 <= k < below.len(),
        below[k].depth == row.depth + 1,
        forall|m: int| 0 <= m < below.len() ==> (#[trigger] below[m]).depth > row.depth,
    ensures
        is_parent(joined(front, row, below), front.len() as int, k + front.len() + 1),
{
    let rows = joined(front, row, below);
    let f = front.len() as int;
    assert(rows[f] == row);
    assert(rows[k + f + 1] == below[k]);
    assert forall|m: int| f < m < k + f + 1 implies (#[trigger] rows[m]).depth >= rows[k + f
        + 1].depth by {
        assert(rows[m] == below[m - f - 1]);
    }
}

pub(crate) proof fn lemma_siblings_from_front(
    front: Seq<RowView>,
    row: RowView,
    below: Seq<RowView>,
    a: int,
    b: int,
)
    requires
        are_siblings(front, a, b),
    ensures
        are_siblings(joined(front, row, below), a, b),
{
    let rows = joined(front, row, below);
    assert(rows[a] == front[a]);
    assert(rows[b] == front[b]);
    assert forall|m: int| a < m < b implies (#[trigger] rows[m]).depth >= rows[a].depth by {
        assert(rows[m] == front[m]);
    }
}

pub(crate) proof fn lemma_siblings_to_front(
    front: Seq<RowView>,
    row: RowView,
    below: Seq<RowView>,
    a: int,
    b: int,
)
    requires
        are_siblings(joined(front, row, below), a, b),
        b < front.len(),
    ensures
        are_siblings(front, a, b),
{
    let rows = joined(front, row, below);
    assert(rows[a] == front[a]);
    assert(rows[b] == front[b]);
    assert forall|m: int| a < m < b implies (#[trigger] front[m]).depth >= front[a].depth by {
        assert(rows[m] == front[m]);
    }
}

pub(crate) proof fn lemma_siblings_from_below(
    front: Seq<RowView>,
    row: RowView,
    below: Seq<RowView>,
    a: int,
    b: int,
)
    requires
        are_siblings(below, a, b),
    ensures
        are_siblings(joined(front, row, below), a + front.len() + 1, b + front.len() + 1),
{
    let rows = joined(front, row, below);
    let f = front.len() as int;
    assert(rows[a + f + 1] == below[a]);
    assert(rows[b + f + 1] == below[b]);
    assert forall|m: int| a + f + 1 < m < b + f + 1 implies (#[trigger] rows[m]).depth >= rows[a
        + f + 1].depth by {
        assert(rows[m] == below[m - f - 1]);
    }
}

pub(crate) proof fn lemma_siblings_to_below(
    front: Seq<RowView>,
    row: RowView,
    below: Seq<RowView>,
    a: int,
    b: int,
)
    requires
        are_siblings(joined(front, row, below), a, b),
        a > front.len(),
    ensures
        are_siblings(below, a - front.len() - 1, b - front.len() - 1),
{
    let rows = joined(front, row, below);
    let f = front.len() as int;
    assert(rows[a] == below[a - f - 1]);
    assert(rows[b] == below[b - f - 1]);
    assert forall|m: int| a - f - 1 < m < b - f - 1 implies (#[trigger] below[m]).depth
        >= below[a - f - 1].depth by {
        assert(rows[m + f + 1] == below[m]);
    }
}

/// Rows that all lie at or below one depth are siblings wherever two of
/// them lie at that depth.
pub(crate) proof fn lemma_siblings_at_top(rows: Seq<RowView>, depth: nat, a: int, b: int)
    requires
        0 <= a < b < rows.len(),
        rows[a].depth == depth,
        rows[b].depth == depth,
        forall|m: int| 0 <= m < rows.len() ==> (#[trigger] rows[m]).depth >= depth,
    ensures
        are_siblings(rows, a, b),
{
}

/// Where a sequence is `front`, `row`, `below`, each position lies in one
/// of the three.
pub(crate) proof fn lemma_joined(front: Seq<RowView>, row: RowView, below: Seq<RowView>, k: int)
    requires
        0 <= k < joined(front, row, below).len(),
    ensures
        joined(front, row, below).len() == front.len() + 1 + below.len(),
        k < front.len() ==> joined(front, row, below)[k] == front[k],
        k == front.len() ==> joined(front, row, below)[k] == row,
        k > front.len() ==> joined(front, row, below)[k] == below[k - front.len() - 1],
{
}

/// A row that has a sibling after it in `front` or in `below` has one in
/// the whole; `under` is its position in `below`.
pub(crate) proof fn lemma_next_sibling_joined(
    front: Seq<RowView>,
    row: RowView,
    below: Seq<RowView>,
    a: int,
    under: int,
)
    requires
        0 <= a < joined(front, row, below).len(),
        a != front.len(),
        under == a - front.len() - 1,
        a < front.len() ==> exists|b: int| are_siblings(front, a, b),
        a > front.len() ==> exists|b: int| are_siblings(below, under, b),
    ensures
        exists|b: int| are_siblings(joined(front, row, below), a, b),
{
    let f = front.len() as int;
    if a < f {
        let b = choose|b: int| are_siblings(front, a, b);
        lemma_siblings_from_front(front, row, below, a, b);
    } else {
        let b = choose|b: int| are_siblings(below, under, b);
        lemma_siblings_from_below(front, row, below, under, b);
    }
}

} // verus!
