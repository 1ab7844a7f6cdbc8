//! The dependency graph of the cells of a workbook.
//!
//! An edge leads from a precedent to the cell that refers to it: the
//! precedent has to be calculated first. A reference to more than one
//! cell is a node of its own, with an edge from each of its cells.

use crate::errors::Error;
use crate::parser::ast::{
    all_ranges_wf, expr_views, lemma_views_of_args, lemma_views_of_items, ranges_wf, Error as ExcelError, Expr,
    ExprView,
};
use crate::parser::parse_bytes;
use crate::range::Range;
use crate::sheet::Sheet;
use crate::text::{bytes_eq, copy_range};
use vstd::prelude::*;
use vstd::std_specs::convert::FromSpecImpl;

verus! {

/// A node as the graph keeps it: sheet, row, column, number of rows,
/// number of columns.
pub type NodeKey = (usize, usize, usize, usize, usize);

/// `petgraph::graphmap::GraphMap`, the graph type that keeps nodes by
/// their value.
#[verifier::external_type_specification]
#[verifier::external_body]
#[verifier::reject_recursive_types(N)]
#[verifier::reject_recursive_types(E)]
#[verifier::reject_recursive_types(Ty)]
#[verifier::reject_recursive_types(S)]
pub struct ExGraphMap<N, E, Ty, S: std::hash::BuildHasher>(petgraph::graphmap::GraphMap<N, E, Ty, S>);

/// `petgraph::Directed`, the marker of directed graphs.
#[verifier::external_type_specification]
#[verifier::external_body]
pub struct ExDirected(petgraph::Directed);

/// The nodes of the graph.
pub uninterp spec fn graph_nodes(
    g: petgraph::graphmap::GraphMap<
        NodeKey,
        u8,
        petgraph::Directed,
        std::collections::hash_map::RandomState,
    >,
) -> Set<NodeKey>;

/// The edges of the graph, each from its source to its target.
pub uninterp spec fn graph_edges(
    g: petgraph::graphmap::GraphMap<
        NodeKey,
        u8,
        petgraph::Directed,
        std::collections::hash_map::RandomState,
    >,
) -> Set<(NodeKey, NodeKey)>;

/// The order of calculation that the graph gives where it has none of
/// its cycles: it goes by the order in which the nodes and the edges came
/// into the graph, and so is the same whenever it is asked of the same
/// graph.
pub uninterp spec fn graph_order(
    g: petgraph::graphmap::GraphMap<
        NodeKey,
        u8,
        petgraph::Directed,
        std::collections::hash_map::RandomState,
    >,
) -> Seq<NodeKey>;

/// A walk along edges: at least one node, each next one the target of an
/// edge from the one before.
pub open spec fn is_path(edges: Set<(NodeKey, NodeKey)>, path: Seq<NodeKey>) -> bool {
    path.len() >= 1 && forall|i: int|
        0 <= i < path.len() - 1 ==> edges.contains((#[trigger] path[i], path[i + 1]))
}

/// Whether a walk along edges leads from `from` to `to`; a node reaches
/// itself.
pub open spec fn reachable(edges: Set<(NodeKey, NodeKey)>, from: NodeKey, to: NodeKey) -> bool {
    exists|path: Seq<NodeKey>| #[trigger]
        is_path(edges, path) && path[0] == from && path.last() == to
}

/// Whether a walk of at least one edge leads from `n` back to `n`.
pub open spec fn on_cycle(edges: Set<(NodeKey, NodeKey)>, n: NodeKey) -> bool {
    exists|path: Seq<NodeKey>| #[trigger]
        is_path(edges, path) && path.len() >= 2 && path[0] == n && path.last() == n
}

pub open spec fn has_cycle(edges: Set<(NodeKey, NodeKey)>) -> bool {
    exists|n: NodeKey| on_cycle(edges, n)
}

/// `order` holds every node once, and every edge leads from an earlier
/// node to a later one.
pub open spec fn is_topological(
    order: Seq<NodeKey>,
    nodes: Set<NodeKey>,
    edges: Set<(NodeKey, NodeKey)>,
) -> bool {
    &&& order.no_duplicates()
    &&& forall|n: NodeKey| nodes.contains(n) <==> order.contains(n)
    &&& forall|i: int, j: int|
        0 <= i < order.len() && 0 <= j < order.len() && edges.contains(
            (#[trigger] order[i], #[trigger] order[j]),
        ) ==> i < j
}

/// Both ends of every edge are nodes.
pub open spec fn ends_are_nodes(nodes: Set<NodeKey>, edges: Set<(NodeKey, NodeKey)>) -> bool {
    forall|e: (NodeKey, NodeKey)| #[trigger]
        edges.contains(e) ==> nodes.contains(e.0) && nodes.contains(e.1)
}

type Graph = petgraph::graphmap::GraphMap<
    NodeKey,
    u8,
    petgraph::Directed,
    std::collections::hash_map::RandomState,
>;

/// `GraphMap::new`: a graph without nodes and edges.
#[verifier::external_body]
fn graph_new() -> (g: Graph)
    ensures
        graph_nodes(g) == Set::<NodeKey>::empty(),
        graph_edges(g) == Set::<(NodeKey, NodeKey)>::empty(),
{
    petgraph::graphmap::GraphMap::new()
}

/// `GraphMap::add_node`: the node is in the graph afterwards; nothing
/// else changes.
#[verifier::external_body]
fn graph_add_node(g: &mut Graph, n: NodeKey)
    ensures
        graph_nodes(*final(g)) == graph_nodes(*old(g)).insert(n),
        graph_edges(*final(g)) == graph_edges(*old(g)),
{
    g.add_node(n);
}

/// `GraphMap::contains_node`.
#[verifier::external_body]
fn graph_contains_node(g: &Graph, n: NodeKey) -> (r: bool)
    ensures
        r == graph_nodes(*g).contains(n),
{
    g.contains_node(n)
}

/// `GraphMap::contains_edge`: whether the graph has the edge from `a` to
/// `b`.
#[verifier::external_body]
fn graph_contains_edge(g: &Graph, a: NodeKey, b: NodeKey) -> (r: bool)
    ensures
        r == graph_edges(*g).contains((a, b)),
{
    g.contains_edge(a, b)
}

/// `GraphMap::add_edge`: the edge from `a` to `b` is in the graph
/// afterwards, and so are `a` and `b`; nothing else changes.
#[verifier::external_body]
fn graph_add_edge(g: &mut Graph, a: NodeKey, b: NodeKey)
    ensures
        graph_nodes(*final(g)) == graph_nodes(*old(g)).insert(a).insert(b),
        graph_edges(*final(g)) == graph_edges(*old(g)).insert((a, b)),
{
    g.add_edge(a, b, 0);
}

/// `petgraph::algo::toposort`: the nodes in an order in which every edge
/// leads from an earlier to a later node, or else a node that lies on a
/// cycle. Which of the possible orders comes back is not said here but
/// for its name: the walk goes through the nodes and their neighbours in
/// the order in which the graph keeps them, which is the order in which
/// they were added, so the same graph gives the same order.
#[verifier::external_body]
fn graph_toposort(g: &Graph) -> (r: Result<Vec<NodeKey>, NodeKey>)
    ensures
        match r {
            Ok(order) => is_topological(order@, graph_nodes(*g), graph_edges(*g)) && order@
                == graph_order(*g),
            Err(n) => on_cycle(graph_edges(*g), n),
        },
{
    match petgraph::algo::toposort(g, None) {
        Ok(order) => Ok(order),
        Err(cycle) => Err(cycle.node_id()),
    }
}

/// `petgraph::visit::Dfs`, run from `root` to its end: every node that a
/// walk along edges reaches from `root`, `root` among them, each once.
#[verifier::external_body]
fn graph_reachable(g: &Graph, root: NodeKey) -> (r: Vec<NodeKey>)
    ensures
        r@.no_duplicates(),
        forall|n: NodeKey| r@.contains(n) <==> reachable(graph_edges(*g), root, n),
{
    let mut dfs = petgraph::visit::Dfs::new(g, root);
    let mut found: Vec<NodeKey> = Vec::new();
    while let Some(n) = dfs.next(g) {
        found.push(n);
    }
    found
}

/// A node of the dependency graph: a cell, or a rectangle of cells that a
/// formula refers to as a whole, with the mark that it has to be
/// calculated.
#[derive(Hash, PartialEq, Eq, Clone, Copy, Debug, Structural)]
pub struct CellId {
    pub sheet: usize,
    pub row: usize,
    pub column: usize,
    pub num_row: usize,
    pub num_col: usize,
    pub dirty: bool,
}

impl CellId {
    /// The node without its mark.
    pub open spec fn key(self) -> NodeKey {
        (self.sheet, self.row, self.column, self.num_row, self.num_col)
    }

    /// Whether `self` comes before `other`: by sheet, then row, then
    /// column.
    pub open spec fn spec_precedes(self, other: CellId) -> bool {
        self.sheet < other.sheet || (self.sheet == other.sheet && (self.row < other.row || (
        self.row == other.row && self.column < other.column)))
    }

    #[verifier::when_used_as_spec(key)]
    pub fn node_key(self) -> (r: NodeKey)
        ensures
            r == self.key(),
    {
        (self.sheet, self.row, self.column, self.num_row, self.num_col)
    }

    #[verifier::when_used_as_spec(spec_precedes)]
    pub fn precedes(self, other: CellId) -> (r: bool)
        ensures
            r == self.spec_precedes(other),
    {
        self.sheet < other.sheet || (self.sheet == other.sheet && (self.row < other.row || (
        self.row == other.row && self.column < other.column)))
    }
}

impl From<(usize, usize, usize, usize, usize, bool)> for CellId {
    fn from(parts: (usize, usize, usize, usize, usize, bool)) -> (r: CellId) {
        CellId {
            sheet: parts.0,
            row: parts.1,
            column: parts.2,
            num_row: parts.3,
            num_col: parts.4,
            dirty: parts.5,
        }
    }
}

impl FromSpecImpl<(usize, usize, usize, usize, usize, bool)> for CellId {
    open spec fn obeys_from_spec() -> bool {
        true
    }

    open spec fn from_spec(parts: (usize, usize, usize, usize, usize, bool)) -> CellId {
        CellId {
            sheet: parts.0,
            row: parts.1,
            column: parts.2,
            num_row: parts.3,
            num_col: parts.4,
            dirty: parts.5,
        }
    }
}

fn same_key(a: NodeKey, b: NodeKey) -> (r: bool)
    ensures
        r == (a == b),
{
    a.0 == b.0 && a.1 == b.1 && a.2 == b.2 && a.3 == b.3 && a.4 == b.4
}

fn holds_key(keys: &Vec<NodeKey>, key: NodeKey) -> (r: bool)
    ensures
        r == keys@.contains(key),
{
    let mut i: usize = 0;
    while i < keys.len()
        invariant
            i <= keys.len(),
            forall|j: int| 0 <= j < i ==> keys@[j] != key,
        decreases keys.len() - i,
    {
        if same_key(keys[i], key) {
            return true;
        }
        i = i + 1;
    }
    false
}

/// The sheet that a reference written in a cell of sheet `home` points
/// to: the first sheet of that name, or `home` itself where no sheet is
/// named. `None` where there is no such sheet.
pub open spec fn target_sheet(sheet: Option<Seq<u8>>, home: usize, sheets: Seq<Sheet>) -> Option<
    int,
> {
    match sheet {
        Some(name) => first_named(sheets, name, 0),
        None => if home < sheets.len() {
            Some(home as int)
        } else {
            None
        },
    }
}

/// Index of the first sheet from `from` on that is called `name`.
pub open spec fn first_named(sheets: Seq<Sheet>, name: Seq<u8>, from: int) -> Option<int>
    decreases sheets.len() - from,
{
    if from < 0 || from >= sheets.len() {
        None
    } else if sheets[from].name@ == name {
        Some(from)
    } else {
        first_named(sheets, name, from + 1)
    }
}

/// The node that stands for `range` on a sheet of `max_rows` by
/// `max_columns`: whole columns run from row 1 through the rows of the
/// sheet, whole rows from column 1 through its columns.
pub open spec fn range_node(
    range: Range,
    sheet: usize,
    max_rows: usize,
    max_columns: usize,
) -> NodeKey {
    (
        sheet,
        vstd::math::max(range.start_cell.row as int, 1) as usize,
        vstd::math::max(range.start_cell.column as int, 1) as usize,
        if range.start_cell.spec_is_vrange() {
            max_rows
        } else {
            range.spec_num_rows() as usize
        },
        if range.start_cell.spec_is_hrange() {
            max_columns
        } else {
            range.spec_num_cols() as usize
        },
    )
}

/// The single cells that the node `pre` is made of.
pub open spec fn is_constituent(pre: NodeKey, cell: NodeKey) -> bool {
    &&& cell.0 == pre.0
    &&& cell.3 == 1 && cell.4 == 1
    &&& pre.1 <= cell.1 < pre.1 + pre.3
    &&& pre.2 <= cell.2 < pre.2 + pre.4
    &&& cell != pre
}

/// The edges that one reference in a formula of `cell` stands for: from
/// the node of the reference to `cell`, unless the two are the same node;
/// and for a reference to more than one cell, from each of its cells to
/// its node.
pub open spec fn reference_edges(
    range: Range,
    sheet: usize,
    max_rows: usize,
    max_columns: usize,
    cell: NodeKey,
) -> Set<(NodeKey, NodeKey)> {
    let pre = range_node(range, sheet, max_rows, max_columns);
    Set::new(
        |e: (NodeKey, NodeKey)|
            (e.0 == pre && e.1 == cell && pre != cell) || (range.spec_is_multi_cell() && e.1
                == pre && is_constituent(pre, e.0)),
    )
}

/// The edges that the references of `e`, written in `cell` of sheet
/// `home`, stand for. A reference to a sheet that does not exist stands
/// for none.
pub open spec fn expression_edges(e: ExprView, home: usize, cell: NodeKey, sheets: Seq<Sheet>) -> Set<
    (NodeKey, NodeKey),
>
    decreases e,
{
    match e {
        ExprView::Reference { sheet, range } => match target_sheet(sheet, home, sheets) {
            Some(id) => reference_edges(
                range,
                id as usize,
                sheets[id].max_rows,
                sheets[id].max_columns,
                cell,
            ),
            None => Set::empty(),
        },
        ExprView::Infix(_, a, b) => expression_edges(*a, home, cell, sheets).union(
            expression_edges(*b, home, cell, sheets),
        ),
        ExprView::Prefix(_, a) => expression_edges(*a, home, cell, sheets),
        ExprView::Func { name, args } => items_edges(args, home, cell, sheets),
        ExprView::Array(items) => items_edges(items, home, cell, sheets),
        _ => Set::empty(),
    }
}

/// The edges that the references of all of `items` stand for.
pub open spec fn items_edges(items: Seq<ExprView>, home: usize, cell: NodeKey, sheets: Seq<Sheet>) -> Set<
    (NodeKey, NodeKey),
>
    decreases items,
{
    if items.len() == 0 {
        Set::empty()
    } else {
        items_edges(items.drop_last(), home, cell, sheets).union(
            expression_edges(items.last(), home, cell, sheets),
        )
    }
}

/// The edges to `pre` from those of its cells that come before `row` and
/// `column` in reading order.
pub open spec fn cells_before(pre: NodeKey, row: int, column: int) -> Set<(NodeKey, NodeKey)> {
    Set::new(
        |e: (NodeKey, NodeKey)|
            e.1 == pre && is_constituent(pre, e.0) && (e.0.1 < row || (e.0.1 == row && e.0.2
                < column)),
    )
}

/// Whether `n` is an end of one of `edges`.
pub open spec fn touches(edges: Set<(NodeKey, NodeKey)>, n: NodeKey) -> bool {
    exists|e: (NodeKey, NodeKey)| #[trigger] edges.contains(e) && (e.0 == n || e.1 == n)
}

/// How a graph relates to the graph `(nodes, edges, dirty)` that it grew
/// from by the edges `added`: it has those edges too, and their ends as
/// nodes; only ends of those edges are new nodes, and only new nodes are
/// newly marked.
pub open spec fn grown(
    now: DependencyTree,
    nodes: Set<NodeKey>,
    edges: Set<(NodeKey, NodeKey)>,
    dirty: Set<NodeKey>,
    added: Set<(NodeKey, NodeKey)>,
) -> bool {
    &&& now.wf()
    &&& now.edges() == edges.union(added)
    &&& nodes.subset_of(now.nodes())
    &&& forall|n: NodeKey| #[trigger] now.nodes().contains(n) ==> nodes.contains(n) || touches(added, n)
    &&& dirty.subset_of(now.dirty())
    &&& forall|n: NodeKey| #[trigger]
        now.dirty().contains(n) ==> dirty.contains(n) || (touches(added, n) && !nodes.contains(n))
}

pub struct DependencyTree {
    pub tree: petgraph::graphmap::GraphMap<
        NodeKey,
        u8,
        petgraph::Directed,
        std::collections::hash_map::RandomState,
    >,
    /// The nodes that have to be calculated.
    pub marked: Vec<NodeKey>,
}

impl DependencyTree {
    pub open spec fn nodes(&self) -> Set<NodeKey> {
        graph_nodes(self.tree)
    }

    pub open spec fn edges(&self) -> Set<(NodeKey, NodeKey)> {
        graph_edges(self.tree)
    }

    /// The nodes that have to be calculated.
    pub open spec fn dirty(&self) -> Set<NodeKey> {
        self.marked@.to_set()
    }

    /// Both ends of every edge are nodes.
    pub open spec fn wf(&self) -> bool {
        ends_are_nodes(self.nodes(), self.edges())
    }

    pub fn new() -> (r: DependencyTree)
        ensures
            r.wf(),
            r.nodes() == Set::<NodeKey>::empty(),
            r.edges() == Set::<(NodeKey, NodeKey)>::empty(),
            r.dirty() == Set::<NodeKey>::empty(),
    {
        let r = DependencyTree { tree: graph_new(), marked: Vec::new() };
        assert(r.marked@.to_set() =~= Set::<NodeKey>::empty());
        r
    }

    /// Marks or clears the mark of a node.
    fn set_mark(&mut self, key: NodeKey, dirty: bool)
        ensures
            final(self).tree == old(self).tree,
            final(self).dirty() == if dirty {
                old(self).dirty().insert(key)
            } else {
                old(self).dirty().remove(key)
            },
    {
        let mut kept: Vec<NodeKey> = Vec::new();
        let mut i: usize = 0;
        assert(kept@.to_set() =~= self.marked@.take(0).to_set().remove(key));
        while i < self.marked.len()
            invariant
                i <= self.marked.len(),
                self.marked == old(self).marked,
                self.tree == old(self).tree,
                kept@.to_set() == self.marked@.take(i as int).to_set().remove(key),
            decreases self.marked.len() - i,
        {
            let k: NodeKey = self.marked[i];
            let ghost before = kept@;
            let ghost prefix = self.marked@.take(i as int);
            assert(self.marked@.take(i + 1) =~= prefix.push(k));
            proof {
                prefix.lemma_push_to_set_commute(k);
                before.lemma_push_to_set_commute(k);
            }
            if !same_key(k, key) {
                kept.push(k);
                assert(kept@ == before.push(k));
                assert(kept@.to_set() =~= prefix.push(k).to_set().remove(key));
            } else {
                assert(kept@.to_set() =~= prefix.push(k).to_set().remove(key));
            }
            i = i + 1;
        }
        assert(self.marked@.take(self.marked.len() as int) =~= self.marked@);
        if dirty {
            let ghost before = kept@;
            kept.push(key);
            proof {
                before.lemma_push_to_set_commute(key);
            }
            assert(kept@ == before.push(key));
            assert(kept@.to_set() =~= old(self).marked@.to_set().insert(key));
        }
        self.marked = kept;
    }

    /// Adds a node, with its mark if it is marked. A node that the graph
    /// has already stays as it is, but gets the mark if `cell` has it.
    pub fn add_cell(&mut self, cell: CellId)
        requires
            old(self).wf(),
        ensures
            final(self).wf(),
            final(self).nodes() == old(self).nodes().insert(cell.key()),
            final(self).edges() == old(self).edges(),
            final(self).dirty() == if cell.dirty {
                old(self).dirty().insert(cell.key())
            } else {
                old(self).dirty()
            },
    {
        graph_add_node(&mut self.tree, cell.node_key());
        assert(self.wf());
        if cell.dirty {
            self.set_mark(cell.node_key(), true);
        }
    }

    pub fn cell_exists(&self, cell: &CellId) -> (r: bool)
        ensures
            r == self.nodes().contains(cell.key()),
    {
        graph_contains_node(&self.tree, cell.node_key())
    }

    /// Adds the node unless the graph has it.
    pub fn add_cell_if_missing(&mut self, cell: &CellId)
        requires
            old(self).wf(),
        ensures
            final(self).wf(),
            final(self).nodes() == old(self).nodes().insert(cell.key()),
            final(self).edges() == old(self).edges(),
            final(self).dirty() == if cell.dirty && !old(self).nodes().contains(cell.key()) {
                old(self).dirty().insert(cell.key())
            } else {
                old(self).dirty()
            },
    {
        if !graph_contains_node(&self.tree, cell.node_key()) {
            self.add_cell(*cell);
        } else {
            assert(self.nodes().insert(cell.key()) =~= self.nodes());
        }
    }

    /// Records that `precedent` has to be calculated before `cell`: both
    /// are nodes afterwards, marked as they come if they are new, and the
    /// edge from `precedent` to `cell` is in the graph.
    pub fn add_precedent(&mut self, precedent: &CellId, cell: &CellId)
        requires
            old(self).wf(),
        ensures
            final(self).wf(),
            final(self).nodes() == old(self).nodes().insert(precedent.key()).insert(cell.key()),
            final(self).edges() == old(self).edges().insert((precedent.key(), cell.key())),
            old(self).dirty().subset_of(final(self).dirty()),
            forall|k: NodeKey|
                final(self).dirty().contains(k) && !old(self).dirty().contains(k) ==> {
                    &&& !old(self).nodes().contains(k)
                    &&& (k == precedent.key() && precedent.dirty) || (k == cell.key()
                        && cell.dirty)
                },
            precedent.dirty && !old(self).nodes().contains(precedent.key())
                ==> final(self).dirty().contains(precedent.key()),
            cell.dirty && !old(self).nodes().contains(cell.key()) && cell.key() != precedent.key()
                ==> final(self).dirty().contains(cell.key()),
            grown(
                *final(self),
                old(self).nodes(),
                old(self).edges(),
                old(self).dirty(),
                set![(precedent.key(), cell.key())],
            ),
    {
        let ghost added = set![(precedent.key(), cell.key())];
        assert(added.contains((precedent.key(), cell.key())));
        assert(touches(added, precedent.key()) && touches(added, cell.key()));
        self.add_cell_if_missing(precedent);
        self.add_cell_if_missing(cell);
        if !graph_contains_edge(&self.tree, precedent.node_key(), cell.node_key()) {
            let ghost nodes = self.nodes();
            graph_add_edge(&mut self.tree, precedent.node_key(), cell.node_key());
            assert(self.nodes() =~= nodes);
        } else {
            assert(self.edges().insert((precedent.key(), cell.key())) =~= self.edges());
        }
        proof {
            assert(self.edges() =~= old(self).edges().union(added));
            assert forall|n: NodeKey| #[trigger] self.nodes().contains(n) implies old(
                self,
            ).nodes().contains(n) || touches(added, n) by {}
            assert forall|n: NodeKey| #[trigger] self.dirty().contains(n) implies old(
                self,
            ).dirty().contains(n) || touches(added, n) by {}
        }
    }

    /// Whether the graph has the edge from `cell1` to `cell2`.
    pub fn is_precedent_of(&self, cell1: &CellId, cell2: &CellId) -> (r: bool)
        ensures
            r == self.edges().contains((cell1.key(), cell2.key())),
    {
        graph_contains_edge(&self.tree, cell1.node_key(), cell2.node_key())
    }

    /// Whether the graph has the edge from `cell2` to `cell1`.
    pub fn is_dependent_of(&self, cell1: &CellId, cell2: &CellId) -> (r: bool)
        ensures
            r == self.edges().contains((cell2.key(), cell1.key())),
    {
        graph_contains_edge(&self.tree, cell2.node_key(), cell1.node_key())
    }

    /// Whether the node is marked.
    pub fn is_dirty(&self, cell: &CellId) -> (r: bool)
        ensures
            r == self.dirty().contains(cell.key()),
    {
        holds_key(&self.marked, cell.node_key())
    }

    /// Clears the mark of a node.
    pub fn clear_dirty(&mut self, cell: &CellId)
        ensures
            final(self).tree == old(self).tree,
            final(self).dirty() == old(self).dirty().remove(cell.key()),
    {
        self.set_mark(cell.node_key(), false);
    }

    /// The nodes in an order of calculation: every node once, each
    /// precedent before the cells that refer to it, each node with its
    /// mark. The order is the one that the graph gives, so two calls on
    /// one graph agree. A graph with a cycle has no such order and gives
    /// `Error::Num`.
    pub fn get_order(&self) -> (r: Result<Vec<CellId>, ExcelError>)
        requires
            self.wf(),
        ensures
            match r {
                Ok(order) => is_topological(order_keys(order@), self.nodes(), self.edges())
                    && order_keys(order@) == graph_order(self.tree) && forall|i: int|
                    0 <= i < order@.len() ==> (#[trigger] order@[i]).dirty == self.dirty().contains(
                        order@[i].key(),
                    ),
                Err(e) => e == ExcelError::Num && has_cycle(self.edges()),
            },
            has_cycle(self.edges()) ==> r.is_err(),
    {
        match self.order_or_cycle() {
            Ok(order) => Ok(order),
            Err(n) => Err(ExcelError::Num),
        }
    }

    /// The nodes in an order of calculation, as `get_order` gives them, or
    /// else a node that lies on a cycle.
    pub fn order_or_cycle(&self) -> (r: Result<Vec<CellId>, CellId>)
        requires
            self.wf(),
        ensures
            match r {
                Ok(order) => is_topological(order_keys(order@), self.nodes(), self.edges())
                    && order_keys(order@) == graph_order(self.tree) && forall|i: int|
                    0 <= i < order@.len() ==> (#[trigger] order@[i]).dirty == self.dirty().contains(
                        order@[i].key(),
                    ),
                Err(n) => on_cycle(self.edges(), n.key()),
            },
            has_cycle(self.edges()) ==> r.is_err(),
    {
        match graph_toposort(&self.tree) {
            Ok(keys) => {
                let mut order: Vec<CellId> = Vec::new();
                let mut i: usize = 0;
                while i < keys.len()
                    invariant
                        i <= keys.len(),
                        order@.len() == i,
                        forall|j: int|
                            0 <= j < i ==> (#[trigger] order@[j]).key() == keys@[j] && order@[j].dirty
                                == self.dirty().contains(keys@[j]),
                    decreases keys.len() - i,
                {
                    let k: NodeKey = keys[i];
                    let dirty = holds_key(&self.marked, k);
                    order.push(
                        CellId {
                            sheet: k.0,
                            row: k.1,
                            column: k.2,
                            num_row: k.3,
                            num_col: k.4,
                            dirty,
                        },
                    );
                    i = i + 1;
                }
                proof {
                    assert(order_keys(order@) =~= keys@);
                    lemma_order_excludes_cycle(keys@, self.nodes(), self.edges());
                }
                Ok(order)
            },
            Err(n) => Err(
                CellId {
                    sheet: n.0,
                    row: n.1,
                    column: n.2,
                    num_row: n.3,
                    num_col: n.4,
                    dirty: holds_key(&self.marked, n),
                },
            ),
        }
    }

    /// Marks `root` and every node that a walk along edges reaches from
    /// it: all that depends on `root`.
    pub fn mark_for_recalculation(&mut self, root: &CellId)
        ensures
            final(self).tree == old(self).tree,
            forall|k: NodeKey|
                final(self).dirty().contains(k) <==> (old(self).dirty().contains(k) || reachable(
                    old(self).edges(),
                    root.key(),
                    k,
                )),
    {
        let found = graph_reachable(&self.tree, root.node_key());
        let mut i: usize = 0;
        while i < found.len()
            invariant
                i <= found.len(),
                self.tree == old(self).tree,
                forall|k: NodeKey|
                    self.dirty().contains(k) <==> (old(self).dirty().contains(k) || found@.take(
                        i as int,
                    ).contains(k)),
            decreases found.len() - i,
        {
            let ghost before = self.dirty();
            self.set_mark(found[i], true);
            proof {
                let prefix = found@.take(i as int);
                let next = found@.take(i + 1);
                assert(next =~= prefix.push(found@[i as int]));
                let ghost start = old(self).dirty();
                assert forall|k: NodeKey| self.dirty().contains(k) <==> (start.contains(k)
                    || next.contains(k)) by {
                    if next.contains(k) {
                        let m = choose|m: int| 0 <= m < next.len() && next[m] == k;
                        if m < i {
                            assert(prefix[m] == k);
                        }
                    }
                    if prefix.contains(k) {
                        let m = choose|m: int| 0 <= m < prefix.len() && prefix[m] == k;
                        assert(next[m] == k);
                    }
                    if k == found@[i as int] {
                        assert(next[i as int] == k);
                    }
                }
            }
            i = i + 1;
        }
        assert(found@.take(found.len() as int) =~= found@);
    }
}

/// Growing a graph by some edges and then by others grows it by all of
/// them.
proof fn lemma_grown_chain(
    now: DependencyTree,
    mid: DependencyTree,
    nodes: Set<NodeKey>,
    edges: Set<(NodeKey, NodeKey)>,
    dirty: Set<NodeKey>,
    first: Set<(NodeKey, NodeKey)>,
    second: Set<(NodeKey, NodeKey)>,
    both: Set<(NodeKey, NodeKey)>,
)
    requires
        grown(mid, nodes, edges, dirty, first),
        grown(now, mid.nodes(), mid.edges(), mid.dirty(), second),
        both =~= first.union(second),
    ensures
        grown(now, nodes, edges, dirty, both),
{
    assert(now.edges() =~= edges.union(both));
    assert forall|n: NodeKey| #[trigger] now.nodes().contains(n) implies nodes.contains(n)
        || touches(both, n) by {
        if !nodes.contains(n) {
            if touches(second, n) {
                let e = choose|e: (NodeKey, NodeKey)| #[trigger]
                    second.contains(e) && (e.0 == n || e.1 == n);
                assert(both.contains(e));
            } else {
                assert(mid.nodes().contains(n));
                let e = choose|e: (NodeKey, NodeKey)| #[trigger]
                    first.contains(e) && (e.0 == n || e.1 == n);
                assert(both.contains(e));
            }
        }
    }
    assert forall|n: NodeKey| #[trigger] now.dirty().contains(n) implies dirty.contains(n)
        || touches(both, n) by {
        if !dirty.contains(n) {
            if touches(second, n) {
                let e = choose|e: (NodeKey, NodeKey)| #[trigger]
                    second.contains(e) && (e.0 == n || e.1 == n);
                assert(both.contains(e));
            } else {
                assert(mid.dirty().contains(n));
                let e = choose|e: (NodeKey, NodeKey)| #[trigger]
                    first.contains(e) && (e.0 == n || e.1 == n);
                assert(both.contains(e));
            }
        }
    }
}

/// Registering the same references a second time adds nothing to the
/// graph: neither an edge nor a node.
pub proof fn lemma_registering_again_adds_nothing(
    first: DependencyTree,
    second: DependencyTree,
    nodes: Set<NodeKey>,
    edges: Set<(NodeKey, NodeKey)>,
    dirty: Set<NodeKey>,
    added: Set<(NodeKey, NodeKey)>,
)
    requires
        grown(first, nodes, edges, dirty, added),
        grown(second, first.nodes(), first.edges(), first.dirty(), added),
    ensures
        second.edges() == first.edges(),
        second.nodes() == first.nodes(),
{
    assert(second.edges() =~= first.edges());
    assert forall|n: NodeKey| second.nodes().contains(n) implies first.nodes().contains(n) by {
        if !first.nodes().contains(n) {
            let e = choose|e: (NodeKey, NodeKey)| #[trigger]
                added.contains(e) && (e.0 == n || e.1 == n);
            assert(first.edges().contains(e));
        }
    }
    assert(second.nodes() =~= first.nodes());
}

/// A graph has grown from itself by no edges.
pub proof fn lemma_grown_by_nothing(now: DependencyTree)
    requires
        now.wf(),
    ensures
        grown(now, now.nodes(), now.edges(), now.dirty(), Set::empty()),
{
    assert(now.edges() =~= now.edges().union(Set::<(NodeKey, NodeKey)>::empty()));
}

/// The node that stands for `range` on a sheet of `max_rows` by
/// `max_columns`, without a mark.
pub fn node_of_range(range: &Range, sheet: usize, max_rows: usize, max_columns: usize) -> (r: CellId)
    requires
        range.wf(),
    ensures
        r.key() == range_node(*range, sheet, max_rows, max_columns),
        !r.dirty,
{
    let first_row: usize = if range.row() > 1 {
        range.row()
    } else {
        1
    };
    let first_column: usize = if range.column() > 1 {
        range.column()
    } else {
        1
    };
    let rows: usize = if range.is_vrange() {
        max_rows
    } else {
        range.num_rows()
    };
    let columns: usize = if range.is_hrange() {
        max_columns
    } else {
        range.num_cols()
    };
    CellId {
        sheet,
        row: first_row,
        column: first_column,
        num_row: rows,
        num_col: columns,
        dirty: false,
    }
}

fn find_sheet(sheets: &Vec<Sheet>, name: &[u8]) -> (r: Option<usize>)
    ensures
        match r {
            Some(i) => first_named(sheets@, name@, 0) == Some(i as int) && i < sheets.len(),
            None => first_named(sheets@, name@, 0).is_none(),
        },
{
    let mut i: usize = 0;
    while i < sheets.len()
        invariant
            i <= sheets.len(),
            first_named(sheets@, name@, 0) == first_named(sheets@, name@, i as int),
        decreases sheets.len() - i,
    {
        if bytes_eq(sheets[i].name.as_slice(), name) {
            return Some(i);
        }
        i = i + 1;
    }
    None
}

impl DependencyTree {
    /// Adds the edges to the node `pre` from its cells in row `row`.
    fn add_row(&mut self, pre: NodeKey, row: usize)
        requires
            old(self).wf(),
            pre.1 <= row < pre.1 + pre.3,
        ensures
            grown(
                *final(self),
                old(self).nodes(),
                old(self).edges(),
                old(self).dirty(),
                cells_before(pre, row as int, pre.2 + pre.4).difference(
                    cells_before(pre, row as int, pre.2 as int),
                ),
            ),
    {
        let ghost start = cells_before(pre, row as int, pre.2 as int);
        let target = CellId {
            sheet: pre.0,
            row: pre.1,
            column: pre.2,
            num_row: pre.3,
            num_col: pre.4,
            dirty: false,
        };
        let mut j: usize = 0;
        proof {
            lemma_grown_by_nothing(*self);
            assert(cells_before(pre, row as int, pre.2 + 0).difference(start) =~= Set::<
                (NodeKey, NodeKey),
            >::empty());
        }
        while j < pre.4
            invariant
                j <= pre.4,
                pre.1 <= row < pre.1 + pre.3,
                target.key() == pre,
                start == cells_before(pre, row as int, pre.2 as int),
                grown(
                    *self,
                    old(self).nodes(),
                    old(self).edges(),
                    old(self).dirty(),
                    cells_before(pre, row as int, pre.2 + j).difference(start),
                ),
            decreases pre.4 - j,
        {
            let ghost done = cells_before(pre, row as int, pre.2 + j).difference(start);
            let ghost next = cells_before(pre, row as int, pre.2 + j + 1).difference(start);
            match pre.2.checked_add(j) {
                Some(column) => {
                    let sub = CellId {
                        sheet: pre.0,
                        row,
                        column,
                        num_row: 1,
                        num_col: 1,
                        dirty: true,
                    };
                    if !same_key(sub.node_key(), pre) {
                        let ghost mid = *self;
                        self.add_precedent(&sub, &target);
                        proof {
                            assert(next =~= done.union(set![(sub.key(), pre)]));
                            lemma_grown_chain(
                                *self,
                                mid,
                                old(self).nodes(),
                                old(self).edges(),
                                old(self).dirty(),
                                done,
                                set![(sub.key(), pre)],
                                next,
                            );
                        }
                    } else {
                        assert(next =~= done);
                    }
                },
                None => {
                    assert(next =~= done);
                },
            }
            j = j + 1;
        }
    }

    /// Adds the edges that one reference in a formula of `cell` stands
    /// for.
    fn add_reference(
        &mut self,
        cell: CellId,
        range: &Range,
        sheet: usize,
        max_rows: usize,
        max_columns: usize,
    )
        requires
            old(self).wf(),
            range.wf(),
        ensures
            grown(
                *final(self),
                old(self).nodes(),
                old(self).edges(),
                old(self).dirty(),
                reference_edges(*range, sheet, max_rows, max_columns, cell.key()),
            ),
    {
        let first_row: usize = if range.row() > 1 {
            range.row()
        } else {
            1
        };
        let first_column: usize = if range.column() > 1 {
            range.column()
        } else {
            1
        };
        let rows: usize = if range.is_vrange() {
            max_rows
        } else {
            range.num_rows()
        };
        let columns: usize = if range.is_hrange() {
            max_columns
        } else {
            range.num_cols()
        };
        let pre: NodeKey = (sheet, first_row, first_column, rows, columns);
        assert(pre == range_node(*range, sheet, max_rows, max_columns));
        let multi = range.is_multi_cell();
        let ghost all = reference_edges(*range, sheet, max_rows, max_columns, cell.key());
        proof {
            lemma_grown_by_nothing(*self);
        }
        let ghost mut done: Set<(NodeKey, NodeKey)> = Set::empty();
        if multi {
            let mut i: usize = 0;
            proof {
                assert(cells_before(pre, pre.1 + 0, pre.2 as int) =~= Set::<
                    (NodeKey, NodeKey),
                >::empty());
            }
            while i < rows
                invariant
                    i <= rows,
                    pre == (sheet, first_row, first_column, rows, columns),
                    grown(
                        *self,
                        old(self).nodes(),
                        old(self).edges(),
                        old(self).dirty(),
                        cells_before(pre, pre.1 + i, pre.2 as int),
                    ),
                decreases rows - i,
            {
                let ghost before = cells_before(pre, pre.1 + i, pre.2 as int);
                let ghost after = cells_before(pre, pre.1 + i + 1, pre.2 as int);
                match first_row.checked_add(i) {
                    Some(row) => {
                        let ghost mid = *self;
                        self.add_row(pre, row);
                        proof {
                            let added = cells_before(pre, row as int, pre.2 + pre.4).difference(
                                cells_before(pre, row as int, pre.2 as int),
                            );
                            assert(after =~= before.union(added));
                            lemma_grown_chain(
                                *self,
                                mid,
                                old(self).nodes(),
                                old(self).edges(),
                                old(self).dirty(),
                                before,
                                added,
                                after,
                            );
                        }
                    },
                    None => {
                        assert(after =~= before);
                    },
                }
                i = i + 1;
            }
            proof {
                done = cells_before(pre, pre.1 + rows, pre.2 as int);
            }
        }
        let source = CellId {
            sheet,
            row: first_row,
            column: first_column,
            num_row: rows,
            num_col: columns,
            dirty: !multi,
        };
        if !same_key(pre, cell.node_key()) {
            let ghost mid = *self;
            self.add_precedent(&source, &cell);
            proof {
                assert(all =~= done.union(set![(pre, cell.key())]));
                lemma_grown_chain(
                    *self,
                    mid,
                    old(self).nodes(),
                    old(self).edges(),
                    old(self).dirty(),
                    done,
                    set![(pre, cell.key())],
                    all,
                );
            }
        } else {
            assert(all =~= done);
        }
    }

    /// Adds the edges that the references of all of `items` stand for.
    fn add_items(&mut self, cell: CellId, items: &Vec<Expr>, sheets: &Vec<Sheet>)
        requires
            old(self).wf(),
            forall|i: int| 0 <= i < items@.len() ==> ranges_wf(#[trigger] items@[i]@),
        ensures
            grown(
                *final(self),
                old(self).nodes(),
                old(self).edges(),
                old(self).dirty(),
                items_edges(expr_views(items@), cell.sheet, cell.key(), sheets@),
            ),
        decreases items,
    {
        let ghost views = expr_views(items@);
        let mut i: usize = 0;
        proof {
            lemma_grown_by_nothing(*self);
            assert(views.take(0) =~= Seq::<ExprView>::empty());
        }
        while i < items.len()
            invariant
                i <= items.len(),
                views == expr_views(items@),
                forall|k: int| 0 <= k < items@.len() ==> ranges_wf(#[trigger] items@[k]@),
                grown(
                    *self,
                    old(self).nodes(),
                    old(self).edges(),
                    old(self).dirty(),
                    items_edges(views.take(i as int), cell.sheet, cell.key(), sheets@),
                ),
            decreases items.len() - i,
        {
            let ghost mid = *self;
            let ghost done = items_edges(views.take(i as int), cell.sheet, cell.key(), sheets@);
            self.add_expression(cell, &items[i], sheets);
            proof {
                let next = views.take(i + 1);
                assert(next.drop_last() =~= views.take(i as int));
                assert(next.last() == items@[i as int]@);
                lemma_grown_chain(
                    *self,
                    mid,
                    old(self).nodes(),
                    old(self).edges(),
                    old(self).dirty(),
                    done,
                    expression_edges(items@[i as int]@, cell.sheet, cell.key(), sheets@),
                    items_edges(next, cell.sheet, cell.key(), sheets@),
                );
            }
            i = i + 1;
        }
        assert(views.take(items.len() as int) =~= views);
    }

    /// Registers the references of `expression`, the formula of `cell`,
    /// as precedents of `cell`. A reference to one cell becomes an edge
    /// from that cell; a reference to more becomes a node of its own,
    /// with an edge from each of its cells, and an edge from that node.
    /// Whole rows and columns are cut to the size of their sheet. The
    /// arguments of `OFFSET` are registered like any others: the cells
    /// that it comes to point to are known only when it is evaluated.
    /// A reference to a sheet that does not exist registers nothing.
    pub fn add_expression(&mut self, cell: CellId, expression: &Expr, sheets: &Vec<Sheet>)
        requires
            old(self).wf(),
            ranges_wf(expression@),
        ensures
            grown(
                *final(self),
                old(self).nodes(),
                old(self).edges(),
                old(self).dirty(),
                expression_edges(expression@, cell.sheet, cell.key(), sheets@),
            ),
        decreases expression,
    {
        proof {
            lemma_grown_by_nothing(*self);
        }
        match expression {
            Expr::Reference { sheet, range } => {
                let target: Option<usize> = match sheet {
                    Some(name) => find_sheet(sheets, name.as_slice()),
                    None => if cell.sheet < sheets.len() {
                        Some(cell.sheet)
                    } else {
                        None
                    },
                };
                match target {
                    Some(id) => {
                        self.add_reference(
                            cell,
                            range,
                            id,
                            sheets[id].max_rows,
                            sheets[id].max_columns,
                        );
                    },
                    None => {},
                }
            },
            Expr::Infix(_, a, b) => {
                self.add_expression(cell, a, sheets);
                let ghost mid = *self;
                self.add_expression(cell, b, sheets);
                proof {
                    lemma_grown_chain(
                        *self,
                        mid,
                        old(self).nodes(),
                        old(self).edges(),
                        old(self).dirty(),
                        expression_edges(a@, cell.sheet, cell.key(), sheets@),
                        expression_edges(b@, cell.sheet, cell.key(), sheets@),
                        expression_edges(expression@, cell.sheet, cell.key(), sheets@),
                    );
                }
            },
            Expr::Prefix(_, a) => {
                self.add_expression(cell, a, sheets);
            },
            Expr::Func { name, args } => {
                proof {
                    lemma_views_of_args(*name, *args);
                    reveal_with_fuel(ranges_wf, 2);
                    assert(all_ranges_wf(expr_views(args@)));
                    assert forall|i: int| 0 <= i < args@.len() implies ranges_wf(
                        #[trigger] args@[i]@,
                    ) by {
                        assert(expr_views(args@)[i] == args@[i]@);
                    }
                }
                self.add_items(cell, args, sheets);
            },
            Expr::Array(items) => {
                proof {
                    lemma_views_of_items(*items);
                    reveal_with_fuel(ranges_wf, 2);
                    assert(all_ranges_wf(expr_views(items@)));
                    assert forall|i: int| 0 <= i < items@.len() implies ranges_wf(
                        #[trigger] items@[i]@,
                    ) by {
                        assert(expr_views(items@)[i] == items@[i]@);
                    }
                }
                self.add_items(cell, items, sheets);
            },
            _ => {},
        }
    }

    /// Parses the formula text of `cell`, without the `=` that it may
    /// begin with, and registers its references as `add_expression` does.
    /// Text that is no formula gives the error of the parser and leaves
    /// the graph as it is.
    pub fn add_formula(&mut self, cell: CellId, formula_text: &[u8], sheets: &Vec<Sheet>) -> (r:
        Result<(), Error>)
        requires
            old(self).wf(),
        ensures
            final(self).wf(),
            match crate::parser::parse_text_spec(formula_body(formula_text@)) {
                Some(expression) => r.is_ok() && grown(
                    *final(self),
                    old(self).nodes(),
                    old(self).edges(),
                    old(self).dirty(),
                    expression_edges(expression, cell.sheet, cell.key(), sheets@),
                ),
                None => r matches Err(e) && crate::parser::parse_outcome(
                    formula_body(formula_text@),
                    Err::<Expr, Error>(e),
                ) && *final(self) == *old(self),
            },
    {
        let from: usize = if formula_text.len() > 0 && formula_text[0] == 0x3D {
            1
        } else {
            0
        };
        let body = copy_range(formula_text, from, formula_text.len());
        assert(body@ =~= formula_body(formula_text@));
        match parse_bytes(body.as_slice()) {
            Ok(expression) => {
                self.add_expression(cell, &expression, sheets);
                Ok(())
            },
            Err(e) => Err(e),
        }
    }
}

/// Formula text without the `=` that it may begin with.
pub open spec fn formula_body(text: Seq<u8>) -> Seq<u8> {
    if text.len() > 0 && text[0] == 0x3D {
        text.subrange(1, text.len() as int)
    } else {
        text
    }
}

/// The nodes of a run of cells.
pub open spec fn order_keys(order: Seq<CellId>) -> Seq<NodeKey> {
    Seq::new(order.len(), |i: int| order[i].key())
}

/// Along a walk, every node stands later in a topological order than the
/// one the walk began with.
proof fn lemma_walk_goes_forward(
    order: Seq<NodeKey>,
    nodes: Set<NodeKey>,
    edges: Set<(NodeKey, NodeKey)>,
    path: Seq<NodeKey>,
    k: int,
)
    requires
        is_topological(order, nodes, edges),
        ends_are_nodes(nodes, edges),
        is_path(edges, path),
        1 <= k < path.len(),
    ensures
        order.contains(path[0]),
        order.contains(path[k]),
        order.index_of(path[0]) < order.index_of(path[k]),
    decreases k,
{
    assert(edges.contains((path[k - 1], path[k])));
    assert(edges.contains((path[0], path[1])));
    assert(nodes.contains(path[k]) && nodes.contains(path[k - 1]) && nodes.contains(path[0]));
    let i = order.index_of(path[k - 1]);
    let j = order.index_of(path[k]);
    assert(order[i] == path[k - 1] && order[j] == path[k]);
    assert(i < j);
    if k > 1 {
        lemma_walk_goes_forward(order, nodes, edges, path, k - 1);
    }
}

/// A graph whose nodes can be put in a topological order has no cycle.
pub proof fn lemma_order_excludes_cycle(
    order: Seq<NodeKey>,
    nodes: Set<NodeKey>,
    edges: Set<(NodeKey, NodeKey)>,
)
    requires
        is_topological(order, nodes, edges),
        ends_are_nodes(nodes, edges),
    ensures
        !has_cycle(edges),
{
    if has_cycle(edges) {
        let n = choose|n: NodeKey| on_cycle(edges, n);
        let path = choose|path: Seq<NodeKey>| #[trigger]
            is_path(edges, path) && path.len() >= 2 && path[0] == n && path.last() == n;
        lemma_walk_goes_forward(order, nodes, edges, path, path.len() - 1);
    }
}

} // verus!
