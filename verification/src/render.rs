//! The listing itself: which entries are printed, in what order, with which
//! branch, color and indentation.

use vstd::prelude::*;
use vstd::string::*;

use crate::category::{category_of_name, classify, BLUE, RESET};
use crate::config::Config;
use crate::entry::{
    entries_of, lemma_node_view, listing_of, Entry, EntryView, Listed, Node, NodeView,
};
use crate::laws::{lemma_level_rows_exact, lemma_listing_by_levels, rows_by_levels_upto};

verus! {

/// The branch of an entry that more visible entries follow.
pub const TEE: &'static str = "├── ";

/// The branch of the last visible entry of its directory.
pub const CORNER: &'static str = "└── ";

/// What the children of a directory are indented by while more visible
/// entries follow that directory.
pub const BAR: &'static str = "│   ";

/// What the children of the last visible entry are indented by.
pub const BLANK: &'static str = "    ";

/// One printed entry, before it is put into text.
#[derive(Clone, Debug, PartialEq, Eq)]
pub struct Row {
    /// The position of the entry in the listing of its directory.
    pub index: usize,
    /// The depth of the directory that holds the entry.
    pub depth: usize,
    /// The indentation that the ancestors of the entry left.
    pub prefix: String,
    /// Whether the entry is the last visible one of its directory.
    pub last: bool,
    pub name: String,
    pub is_dir: bool,
    /// Whether the children of the entry are listed after it.
    pub descend: bool,
}

/// A row as a mathematical value.
pub struct RowView {
    pub index: nat,
    pub depth: nat,
    pub prefix: Seq<char>,
    pub last: bool,
    pub name: Seq<char>,
    pub is_dir: bool,
    pub descend: bool,
}

impl View for Row {
    type V = RowView;

    open spec fn view(&self) -> RowView {
        RowView {
            index: self.index as nat,
            depth: self.depth as nat,
            prefix: self.prefix@,
            last: self.last,
            name: self.name@,
            is_dir: self.is_dir,
            descend: self.descend,
        }
    }
}

impl DeepView for Row {
    type V = RowView;

    open spec fn deep_view(&self) -> RowView {
        self.view()
    }
}

impl RowView {
    /// The branch glyph in front of the name.
    pub open spec fn branch(self) -> Seq<char> {
        if self.last {
            CORNER@
        } else {
            TEE@
        }
    }

    /// The escape sequence in front of the name: one color for every
    /// directory, and for a file the color of its category.
    pub open spec fn color(self) -> Seq<char> {
        if self.is_dir {
            BLUE@
        } else {
            category_of_name(self.name).color()
        }
    }

    /// The printed line, without a line end.
    pub open spec fn text(self) -> Seq<char> {
        self.prefix + self.branch() + self.color() + self.name + RESET@
    }

    /// The indentation of the children of this entry.
    pub open spec fn child_prefix(self) -> Seq<char> {
        if self.last {
            self.prefix + BLANK@
        } else {
            self.prefix + BAR@
        }
    }
}

/// A visible entry passes both filters: the hidden-name filter and the
/// type filter.
pub open spec fn visible(entry: EntryView, config: Config) -> bool {
    config.shows(entry.name) && config.keeps(entry.is_dir)
}

/// No entry after position `i` of `listing` is visible.
pub open spec fn none_visible_after(listing: Seq<EntryView>, config: Config, i: int) -> bool {
    forall|j: int| i < j < listing.len() ==> !visible(#[trigger] listing[j], config)
}

/// Whether the entry at position `i` of the listing of a directory of depth
/// `depth` is printed: the depth is within the bound and the entry is
/// visible.
pub open spec fn prints(listing: Seq<EntryView>, i: int, depth: nat, config: Config) -> bool {
    config.lists(depth) && visible(listing[i], config)
}

/// The row of the entry at position `i` of `listing`. The entry counts as
/// last where no later entry is visible. Its children are listed where it
/// is a directory above the depth bound.
pub open spec fn row_at(
    listing: Seq<EntryView>,
    i: int,
    depth: nat,
    config: Config,
    prefix: Seq<char>,
) -> RowView {
    RowView {
        index: i as nat,
        depth,
        prefix,
        last: none_visible_after(listing, config, i),
        name: listing[i].name,
        is_dir: listing[i].is_dir,
        descend: listing[i].is_dir && depth < config.max_depth,
    }
}

/// The rows of the first `n` entries of one listing, in listing order.
pub open spec fn level_rows_upto(
    listing: Seq<EntryView>,
    n: int,
    depth: nat,
    config: Config,
    prefix: Seq<char>,
) -> Seq<RowView>
    decreases n,
{
    if n <= 0 {
        Seq::empty()
    } else {
        let front = level_rows_upto(listing, n - 1, depth, config, prefix);
        if prints(listing, n - 1, depth, config) {
            front.push(row_at(listing, n - 1, depth, config, prefix))
        } else {
            front
        }
    }
}

/// The rows of one listing: one for each printed entry, in listing order.
pub open spec fn level_rows(
    listing: Seq<EntryView>,
    depth: nat,
    config: Config,
    prefix: Seq<char>,
) -> Seq<RowView> {
    level_rows_upto(listing, listing.len() as int, depth, config, prefix)
}

/// The rows of the first `n` of `nodes` and of what lies below them, in
/// depth-first pre-order: the row of each printed entry, followed at once,
/// where its children are listed, by their rows, one level deeper and
/// indented by the entry's child prefix.
pub open spec fn tree_rows_upto(
    nodes: Seq<NodeView>,
    n: int,
    depth: nat,
    config: Config,
    prefix: Seq<char>,
) -> Seq<RowView>
    decreases nodes, n,
{
    if n <= 0 || n > nodes.len() {
        Seq::empty()
    } else {
        let front = tree_rows_upto(nodes, n - 1, depth, config, prefix);
        let listing = entries_of(nodes);
        if prints(listing, n - 1, depth, config) {
            let row = row_at(listing, n - 1, depth, config, prefix);
            let below = if row.descend {
                tree_rows_upto(
                    nodes[n - 1].children,
                    nodes[n - 1].children.len() as int,
                    depth + 1,
                    config,
                    row.child_prefix(),
                )
            } else {
                Seq::empty()
            };
            front.push(row) + below
        } else {
            front
        }
    }
}

/// The rows of a listing of `nodes`, the children of a directory of depth
/// `depth`, and of everything below them that the depth bound admits.
pub open spec fn tree_rows(
    nodes: Seq<NodeView>,
    depth: nat,
    config: Config,
    prefix: Seq<char>,
) -> Seq<RowView> {
    tree_rows_upto(nodes, nodes.len() as int, depth, config, prefix)
}

/// The printed lines of a sequence of rows.
pub open spec fn texts(rows: Seq<RowView>) -> Seq<Seq<char>> {
    Seq::new(rows.len(), |i: int| rows[i].text())
}

impl Row {
    /// The printed line of this row, without a line end.
    pub fn text(&self) -> (line: String)
        ensures
            line@ == self@.text(),
    {
        let mut line = self.prefix.clone();
        line.append(
            if self.last {
                CORNER
            } else {
                TEE
            },
        );
        if self.is_dir {
            line.append(BLUE);
        } else {
            line.append(classify(self.name.as_str()).color_code());
        }
        line.append(self.name.as_str());
        line.append(RESET);
        line
    }

    /// The indentation that the children of this entry are listed with.
    pub fn child_prefix(&self) -> (prefix: String)
        ensures
            prefix@ == self@.child_prefix(),
    {
        let mut prefix = self.prefix.clone();
        prefix.append(
            if self.last {
                BLANK
            } else {
                BAR
            },
        );
        prefix
    }
}

/// Whether `entry` is visible.
fn passes(entry: &Entry, config: &Config) -> (pass: bool)
    ensures
        pass == visible(entry@, *config),
{
    config.is_shown(entry.name.as_str()) && config.is_kept(entry.is_dir)
}

/// The row of a printed entry.
fn make_row(
    entry: &Entry,
    index: usize,
    last: bool,
    depth: usize,
    config: &Config,
    prefix: &str,
) -> (row: Row)
    ensures
        row@ == (RowView {
            index: index as nat,
            depth: depth as nat,
            prefix: prefix@,
            last,
            name: entry.name@,
            is_dir: entry.is_dir,
            descend: entry.is_dir && depth < config.max_depth,
        }),
{
    Row {
        index,
        depth,
        prefix: prefix.to_owned(),
        last,
        name: entry.name.clone(),
        is_dir: entry.is_dir,
        descend: entry.is_dir && depth < config.max_depth,
    }
}

/// The position of the last visible entry, or the length of the listing
/// where none is visible.
fn last_visible<T: Listed>(items: &Vec<T>, config: &Config) -> (at: usize)
    ensures
        at <= items.len(),
        at < items.len() ==> visible(listing_of(items@)[at as int], *config),
        none_visible_after(listing_of(items@), *config, at as int),
        at == items.len() ==> none_visible_after(listing_of(items@), *config, -1),
{
    let n = items.len();
    let mut i: usize = n;
    while i > 0
        invariant
            n == items.len(),
            i <= n,
            none_visible_after(listing_of(items@), *config, i - 1),
        decreases i,
    {
        if passes(items[i - 1].entry(), config) {
            return i - 1;
        }
        i -= 1;
    }
    n
}

/// Beyond the depth bound a listing has no rows.
proof fn lemma_level_beyond_bound(
    listing: Seq<EntryView>,
    n: int,
    depth: nat,
    config: Config,
    prefix: Seq<char>,
)
    requires
        depth > config.max_depth,
    ensures
        level_rows_upto(listing, n, depth, config, prefix) == Seq::<RowView>::empty(),
    decreases n,
{
    if n > 0 {
        lemma_level_beyond_bound(listing, n - 1, depth, config, prefix);
    }
}

/// The rows of one listing, whatever stands for its entries.
fn level<T: Listed>(items: &Vec<T>, depth: usize, config: &Config, prefix: &str) -> (rows: Vec<Row>)
    ensures
        rows.deep_view() == level_rows(listing_of(items@), depth as nat, *config, prefix@),
{
    let mut rows: Vec<Row> = Vec::new();
    let ghost listing = listing_of(items@);
    assert(rows.deep_view() =~= Seq::<RowView>::empty());
    if depth > config.max_depth {
        proof {
            lemma_level_beyond_bound(listing, listing.len() as int, depth as nat, *config, prefix@);
        }
        return rows;
    }
    let last = last_visible(items, config);
    let n = items.len();
    let mut i: usize = 0;
    while i < n
        invariant
            n == items.len(),
            i <= n,
            last <= n,
            listing == listing_of(items@),
            depth <= config.max_depth,
            last < n ==> visible(listing[last as int], *config),
            none_visible_after(listing, *config, last as int),
            last == n ==> none_visible_after(listing, *config, -1),
            rows.deep_view() == level_rows_upto(listing, i as int, depth as nat, *config, prefix@),
        decreases n - i,
    {
        let entry = items[i].entry();
        assert(listing[i as int] == entry@);
        if passes(entry, config) {
            let ghost before = rows.deep_view();
            let row = make_row(entry, i, i == last, depth, config, prefix);
            assert((i == last) == none_visible_after(listing, *config, i as int)) by {
                assert(visible(listing[i as int], *config));
                if i < last {
                    assert(visible(listing[last as int], *config));
                }
            }
            assert(row@ == row_at(listing, i as int, depth as nat, *config, prefix@));
            rows.push(row);
            assert(rows.deep_view() =~= before.push(row@));
        }
        i += 1;
    }
    rows
}

/// Lists one directory: decides, for the entries that a reading of a
/// directory of depth `depth` gave, which are printed, and returns their
/// rows in listing order. A row whose `descend` is set asks for the listing
/// of that entry, one level deeper and with the row's child prefix.
pub fn list_level(entries: &Vec<Entry>, depth: usize, config: &Config, prefix: &str) -> (rows: Vec<
    Row,
>)
    ensures
        rows.deep_view() == level_rows(entries.deep_view(), depth as nat, *config, prefix@),
{
    assert(listing_of(entries@) =~= entries.deep_view());
    level(entries, depth, config, prefix)
}

/// Appends to `out` the rows of `nodes` and of what lies below them: the
/// rows of the level, each followed at once, where it asks for it, by the
/// rows of that entry's children.
fn walk(nodes: &Vec<Node>, depth: usize, config: &Config, prefix: &str, out: &mut Vec<Row>)
    ensures
        final(out).deep_view() == old(out).deep_view() + tree_rows(
            nodes.deep_view(),
            depth as nat,
            *config,
            prefix@,
        ),
    decreases nodes,
{
    let ghost trees = nodes.deep_view();
    let ghost start = out.deep_view();
    let level = level(nodes, depth, config, prefix);
    let ghost rows = level.deep_view();
    let ghost items = level@;
    proof {
        lemma_node_view(nodes);
        assert(listing_of(nodes@) =~= entries_of(trees));
        lemma_level_rows_exact(entries_of(trees), depth as nat, *config, prefix@);
        lemma_listing_by_levels(trees, depth as nat, *config, prefix@);
        assert(start + Seq::<RowView>::empty() =~= start);
    }
    for row in it: level
        invariant
            it.seq() == items,
            rows.len() == items.len(),
            forall|k: int| 0 <= k < items.len() ==> (#[trigger] rows[k]) == items[k]@,
            forall|k: int|
                0 <= k < rows.len() ==> (#[trigger] rows[k]).index < nodes.len() && rows[k].depth
                    == depth && (rows[k].descend ==> depth < config.max_depth),
            trees == nodes.deep_view(),
            forall|i: int|
                0 <= i < nodes.len() ==> (#[trigger] nodes[i]).children.deep_view()
                    == trees[i].children,
            out.deep_view() == start + rows_by_levels_upto(trees, rows, it.index(), *config),
    {
        let ghost k = it.index();
        let ghost before = out.deep_view();
        let ghost done = rows_by_levels_upto(trees, rows, k, *config);
        let ghost row_view = row@;
        assert(row_view == rows[k]);
        let descend = row.descend;
        let index = row.index;
        let below = row.child_prefix();
        out.push(row);
        assert(out.deep_view() =~= before.push(row_view));
        if descend {
            walk(&nodes[index].children, depth + 1, config, below.as_str(), out);
            assert(out.deep_view() =~= start + (done.push(row_view) + tree_rows(
                trees[index as int].children,
                (depth + 1) as nat,
                *config,
                row_view.child_prefix(),
            )));
        } else {
            assert(out.deep_view() =~= start + (done.push(row_view) + Seq::<RowView>::empty()));
        }
    }
}

/// The rows of a whole tree: those of `nodes`, the children of a directory
/// of depth `depth`, and of everything below them, in depth-first pre-order.
pub fn list_rows(nodes: &Vec<Node>, depth: usize, config: &Config, prefix: &str) -> (rows: Vec<
    Row,
>)
    ensures
        rows.deep_view() == tree_rows(nodes.deep_view(), depth as nat, *config, prefix@),
{
    let mut rows: Vec<Row> = Vec::new();
    assert(rows.deep_view() =~= Seq::<RowView>::empty());
    walk(nodes, depth, config, prefix, &mut rows);
    assert(Seq::<RowView>::empty() + tree_rows(
        nodes.deep_view(),
        depth as nat,
        *config,
        prefix@,
    ) =~= tree_rows(nodes.deep_view(), depth as nat, *config, prefix@));
    rows
}

/// The printed lines of a whole tree, one for each printed entry, in
/// depth-first pre-order.
pub fn list_dir(nodes: &Vec<Node>, depth: usize, config: &Config, prefix: &str) -> (lines: Vec<
    String,
>)
    ensures
        lines.deep_view() == texts(
            tree_rows(nodes.deep_view(), depth as nat, *config, prefix@),
        ),
{
    let rows = list_rows(nodes, depth, config, prefix);
    let mut lines: Vec<String> = Vec::new();
    let n = rows.len();
    let mut i: usize = 0;
    while i < n
        invariant
            n == rows.len(),
            i <= n,
            lines.len() == i,
            forall|k: int| 0 <= k < i ==> lines[k]@ == rows[k]@.text(),
        decreases n - i,
    {
        lines.push(rows[i].text());
        i += 1;
    }
    assert(lines.deep_view() =~= texts(rows.deep_view()));
    lines
}

} // verus!
