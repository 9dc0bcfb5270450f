//! The layout engine: one forward pass over an ordered node sequence,
//! producing one grid row per node while keeping branch columns stable.

use vstd::prelude::*;

verus! {

// ---------------------------------------------------------------------------
// Abstract model
//
// The executable engine below is specified against a mathematical recurrence
// over these ghost values: a node is an identity plus an ordered parent list,
// and a row is the ordered column identities, the active column, and the two
// connector link sets.
// ---------------------------------------------------------------------------

/// Ghost model of one input node: its identity and its parents, in order.
#[verifier::ext_equal]
pub ghost struct NodeModel {
    pub id: u64,
    pub parents: Seq<u64>,
}

/// Ghost model of one layout row.
///
/// `ids` are the column identities left to right, `active` is the column of
/// the row's own node, `top` and `bot` are the connector links to the
/// previous and the next row, as (source column, target column) pairs.
#[verifier::ext_equal]
pub ghost struct RowModel {
    pub ids: Seq<u64>,
    pub active: int,
    pub top: Seq<(int, int)>,
    pub bot: Seq<(int, int)>,
}

/// Index of the first occurrence of `id` in `s` (equals `s.len()` when absent).
pub open spec fn first_index(s: Seq<u64>, id: u64) -> int
    decreases s.len(),
{
    if s.len() == 0 {
        0
    } else if s[0] == id {
        0
    } else {
        1 + first_index(s.drop_first(), id)
    }
}

/// The worklist entries one previous-row cell contributes: a cell holding the
/// expanded node's id emits one entry per parent; any other cell passes its
/// own id through. Every entry is tagged with its source column `i`.
pub open spec fn cell_entries(i: int, id: u64, node: NodeModel) -> Seq<(u64, Option<int>)> {
    if id == node.id {
        node.parents.map(|_j: int, p: u64| (p, Option::Some(i)))
    } else {
        seq![(id, Option::Some(i))]
    }
}

/// Worklist entries contributed by the first `p` cells of the previous row.
pub open spec fn expanded_prefix(ids: Seq<u64>, node: NodeModel, p: int) -> Seq<
    (u64, Option<int>),
>
    decreases p,
{
    if p <= 0 {
        Seq::empty()
    } else {
        expanded_prefix(ids, node, p - 1) + cell_entries(p - 1, ids[p - 1], node)
    }
}

/// The full ordered worklist for one row step: the previous row's cells left
/// to right, then one untagged entry forcing the next node's own column.
pub open spec fn worklist(ids: Seq<u64>, node: NodeModel, next_id: u64) -> Seq<
    (u64, Option<int>),
> {
    expanded_prefix(ids, node, ids.len() as int).push((next_id, Option::None))
}

/// Accumulator of the first-seen-wins column assignment: the columns created
/// so far and the links recorded so far.
#[verifier::ext_equal]
pub ghost struct Assignment {
    pub ids: Seq<u64>,
    pub links: Seq<(int, int)>,
}

pub open spec fn empty_assignment() -> Assignment {
    Assignment { ids: Seq::empty(), links: Seq::empty() }
}

/// One assignment step: a repeated id maps to its first-seen column, a new id
/// opens the next column; a tagged entry records a link into that column.
pub open spec fn assign_entry(st: Assignment, entry: (u64, Option<int>)) -> Assignment {
    let idx = if st.ids.contains(entry.0) {
        first_index(st.ids, entry.0)
    } else {
        st.ids.len() as int
    };
    let ids = if st.ids.contains(entry.0) {
        st.ids
    } else {
        st.ids.push(entry.0)
    };
    let links = match entry.1 {
        Option::Some(src) => st.links.push((src, idx)),
        Option::None => st.links,
    };
    Assignment { ids, links }
}

/// Walk the worklist in order, folding `assign_entry` over it.
pub open spec fn assign_all(st: Assignment, q: Seq<(u64, Option<int>)>) -> Assignment
    decreases q.len(),
{
    if q.len() == 0 {
        st
    } else {
        assign_all(assign_entry(st, q[0]), q.drop_first())
    }
}

/// Row 0: a single column holding the first node, no links.
pub open spec fn first_row_model(node: NodeModel) -> RowModel {
    RowModel { ids: seq![node.id], active: 0, top: Seq::empty(), bot: Seq::empty() }
}

/// The row that follows a row whose columns are `prev_ids`, when `prev` is
/// the node just visited and `next` the node now being visited. `bot` is left
/// empty; it is filled from the subsequent row's `top`.
pub open spec fn next_row_model(prev_ids: Seq<u64>, prev: NodeModel, next: NodeModel) -> RowModel {
    let st = assign_all(empty_assignment(), worklist(prev_ids, prev, next.id));
    RowModel {
        ids: st.ids,
        active: first_index(st.ids, next.id),
        top: st.links,
        bot: Seq::empty(),
    }
}

/// All rows of the layout recurrence, with every `bot` still empty.
pub open spec fn rows_before_fill(nodes: Seq<NodeModel>) -> Seq<RowModel>
    decreases nodes.len(),
{
    if nodes.len() == 0 {
        Seq::empty()
    } else if nodes.len() == 1 {
        seq![first_row_model(nodes[0])]
    } else {
        let prefix = rows_before_fill(nodes.drop_last());
        prefix.push(
            next_row_model(prefix.last().ids, nodes[nodes.len() - 2], nodes[nodes.len() - 1]),
        )
    }
}

/// Copy each row's `top` into the preceding row's `bot`; the last row keeps
/// an empty `bot`.
pub open spec fn fill_bottom_links(rows: Seq<RowModel>) -> Seq<RowModel> {
    rows.map(
        |i: int, r: RowModel|
            RowModel {
                ids: r.ids,
                active: r.active,
                top: r.top,
                bot: if i + 1 < rows.len() {
                    rows[i + 1].top
                } else {
                    Seq::empty()
                },
            },
    )
}

/// The full layout: one row per node, `bot` links forward-filled.
pub open spec fn spec_layout(nodes: Seq<NodeModel>) -> Seq<RowModel> {
    fill_bottom_links(rows_before_fill(nodes))
}

// ---------------------------------------------------------------------------
// Properties of first_index
// ---------------------------------------------------------------------------

/// When `id` occurs in `s`, `first_index` is a valid index of `s`, holds
/// `id`, and nothing to its left does.
pub proof fn lemma_first_index_props(s: Seq<u64>, id: u64)
    requires
        s.contains(id),
    ensures
        0 <= first_index(s, id) < s.len(),
        s[first_index(s, id)] == id,
        forall|k: int| 0 <= k < first_index(s, id) ==> s[k] != id,
    decreases s.len(),
{
    if s[0] == id {
    } else {
        let w = choose|w: int| 0 <= w < s.len() && s[w] == id;
        assert(s.drop_first()[w - 1] == id);
        assert(s.drop_first().contains(id));
        lemma_first_index_props(s.drop_first(), id);
        assert forall|k: int| 0 <= k < first_index(s, id) implies s[k] != id by {
            if k > 0 {
                assert(s.drop_first()[k - 1] != id);
            }
        }
    }
}

/// Conversely, an index `j` holding `id` with nothing equal to its left is
/// the first index of `id`.
pub proof fn lemma_first_index_of(s: Seq<u64>, id: u64, j: int)
    requires
        0 <= j < s.len(),
        s[j] == id,
        forall|k: int| 0 <= k < j ==> s[k] != id,
    ensures
        s.contains(id),
        first_index(s, id) == j,
    decreases j,
{
    if j == 0 {
    } else {
        assert forall|k: int| 0 <= k < j - 1 implies s.drop_first()[k] != id by {
            assert(s[k + 1] != id);
        }
        assert(s.drop_first()[j - 1] == id);
        lemma_first_index_of(s.drop_first(), id, j - 1);
    }
}

// ---------------------------------------------------------------------------
// Properties of the worklist and the assignment
// ---------------------------------------------------------------------------

/// Every tagged source in `q` lies in `[0, src_bound)`.
pub open spec fn sources_in_range(q: Seq<(u64, Option<int>)>, src_bound: int) -> bool {
    forall|k: int|
        0 <= k < q.len() ==> (#[trigger] q[k].1 matches Option::Some(s) ==> 0 <= s < src_bound)
}

/// Every link's source lies in `[0, src_bound)` and target in `[0, tgt_bound)`.
pub open spec fn links_in_range(links: Seq<(int, int)>, src_bound: int, tgt_bound: int) -> bool {
    forall|k: int|
        0 <= k < links.len() ==> (0 <= #[trigger] links[k].0 < src_bound && 0 <= links[k].1
            < tgt_bound)
}

/// How long the worklist prefix is: one entry per unexpanded cell, one per
/// parent for the single expanded cell.
pub proof fn lemma_expanded_prefix_len(ids: Seq<u64>, node: NodeModel, p: int)
    requires
        0 <= p <= ids.len(),
        ids.no_duplicates(),
    ensures
        expanded_prefix(ids, node, p).len() == if ids.take(p).contains(node.id) {
            p - 1 + node.parents.len()
        } else {
            p
        },
    decreases p,
{
    if p > 0 {
        lemma_expanded_prefix_len(ids, node, p - 1);
        assert(ids.take(p) =~= ids.take(p - 1).push(ids[p - 1]));
        if ids[p - 1] == node.id {
            assert(!ids.take(p - 1).contains(node.id)) by {
                if ids.take(p - 1).contains(node.id) {
                    let w = choose|w: int| 0 <= w < p - 1 && #[trigger] ids.take(p - 1)[w] == node.id;
                    assert(ids[w] == ids[p - 1]);
                }
            }
            assert(ids.take(p).contains(node.id)) by {
                assert(ids.take(p)[p - 1] == node.id);
            }
        } else {
            assert(ids.take(p).contains(node.id) == ids.take(p - 1).contains(node.id)) by {
                if ids.take(p).contains(node.id) {
                    let w = choose|w: int| 0 <= w < p && #[trigger] ids.take(p)[w] == node.id;
                    assert(w != p - 1);
                    assert(ids.take(p - 1)[w] == node.id);
                }
                if ids.take(p - 1).contains(node.id) {
                    let w = choose|w: int| 0 <= w < p - 1 && #[trigger] ids.take(p - 1)[w] == node.id;
                    assert(ids.take(p)[w] == node.id);
                }
            }
        }
    }
}

/// Worklist-prefix sources are exactly previous-row column indices below `p`.
pub proof fn lemma_expanded_prefix_sources(ids: Seq<u64>, node: NodeModel, p: int)
    requires
        0 <= p,
    ensures
        sources_in_range(expanded_prefix(ids, node, p), p),
    decreases p,
{
    if p > 0 {
        lemma_expanded_prefix_sources(ids, node, p - 1);
        let front = expanded_prefix(ids, node, p - 1);
        let back = cell_entries(p - 1, ids[p - 1], node);
        assert forall|k: int| 0 <= k < expanded_prefix(ids, node, p).len() implies (#[trigger]
        expanded_prefix(ids, node, p)[k].1 matches Option::Some(s) ==> 0 <= s < p) by {
            if k < front.len() {
                assert(expanded_prefix(ids, node, p)[k] == front[k]);
            } else {
                assert(expanded_prefix(ids, node, p)[k] == back[k - front.len()]);
            }
        }
    }
}

/// Pushing a fresh element keeps a sequence duplicate-free.
proof fn lemma_push_no_duplicates(s: Seq<u64>, x: u64)
    requires
        s.no_duplicates(),
        !s.contains(x),
    ensures
        s.push(x).no_duplicates(),
{
    assert forall|i: int, j: int|
        0 <= i < j < s.push(x).len() implies s.push(x)[i] != s.push(x)[j] by {
        if j == s.len() {
            assert(s.push(x)[i] == s[i]);
            if s[i] == x {
                assert(s.contains(x));
            }
        }
    }
}

/// What the assignment fold guarantees: duplicate-free columns that only
/// grow, links staying within the two rows' bounds, and a column for every
/// worklist id.
pub proof fn lemma_assign_all_props(st: Assignment, q: Seq<(u64, Option<int>)>, src_bound: int)
    requires
        st.ids.no_duplicates(),
        sources_in_range(q, src_bound),
        links_in_range(st.links, src_bound, st.ids.len() as int),
    ensures
        ({
            let r = assign_all(st, q);
            &&& r.ids.no_duplicates()
            &&& st.ids.len() <= r.ids.len() <= st.ids.len() + q.len()
            &&& forall|x: u64| st.ids.contains(x) ==> r.ids.contains(x)
            &&& links_in_range(r.links, src_bound, r.ids.len() as int)
            &&& forall|k: int| 0 <= k < q.len() ==> r.ids.contains(#[trigger] q[k].0)
        }),
    decreases q.len(),
{
    if q.len() > 0 {
        let st1 = assign_entry(st, q[0]);
        let rest = q.drop_first();
        if st.ids.contains(q[0].0) {
            lemma_first_index_props(st.ids, q[0].0);
        } else {
            lemma_push_no_duplicates(st.ids, q[0].0);
            assert(st1.ids[st.ids.len() as int] == q[0].0);
            assert forall|x: u64| st.ids.contains(x) implies st1.ids.contains(x) by {
                let w = choose|w: int| 0 <= w < st.ids.len() && st.ids[w] == x;
                assert(st1.ids[w] == x);
            }
        }
        assert(sources_in_range(rest, src_bound)) by {
            assert forall|k: int|
                0 <= k < rest.len() implies (#[trigger] rest[k].1 matches Option::Some(s) ==> 0 <= s
                < src_bound) by {
                assert(rest[k] == q[k + 1]);
            }
        }
        assert(links_in_range(st1.links, src_bound, st1.ids.len() as int)) by {
            assert forall|k: int|
                0 <= k < st1.links.len() implies (0 <= #[trigger] st1.links[k].0 < src_bound && 0
                <= st1.links[k].1 < st1.ids.len()) by {
                if k < st.links.len() {
                    assert(st1.links[k] == st.links[k]);
                } else {
                    assert(q[0].1 matches Option::Some(s) ==> 0 <= s < src_bound);
                }
            }
        }
        lemma_assign_all_props(st1, rest, src_bound);
        let r = assign_all(st, q);
        assert(r == assign_all(st1, rest));
        assert(st1.ids.contains(q[0].0)) by {
            if !st.ids.contains(q[0].0) {
                assert(st1.ids[st.ids.len() as int] == q[0].0);
            }
        }
        assert forall|k: int| 0 <= k < q.len() implies r.ids.contains(#[trigger] q[k].0) by {
            if k == 0 {
                assert(st1.ids.contains(q[0].0));
            } else {
                assert(rest[k - 1] == q[k]);
                assert(r.ids.contains(rest[k - 1].0));
            }
        }
    }
}

// ---------------------------------------------------------------------------
// Invariants of the row recurrence
// ---------------------------------------------------------------------------

/// Total number of parent references across `nodes`.
pub open spec fn total_parents(nodes: Seq<NodeModel>) -> nat
    decreases nodes.len(),
{
    if nodes.len() == 0 {
        0
    } else {
        total_parents(nodes.drop_last()) + nodes.last().parents.len()
    }
}

pub proof fn lemma_total_parents_take(nodes: Seq<NodeModel>, k: int)
    requires
        0 <= k < nodes.len(),
    ensures
        total_parents(nodes.take(k + 1)) == total_parents(nodes.take(k))
            + nodes[k].parents.len(),
{
    assert(nodes.take(k + 1).drop_last() =~= nodes.take(k));
    assert(nodes.take(k + 1).last() == nodes[k]);
}

pub proof fn lemma_total_parents_take_le(nodes: Seq<NodeModel>, k: int)
    requires
        0 <= k <= nodes.len(),
    ensures
        total_parents(nodes.take(k)) <= total_parents(nodes),
    decreases nodes.len() - k,
{
    if k == nodes.len() {
        assert(nodes.take(k) =~= nodes);
    } else {
        lemma_total_parents_take(nodes, k);
        lemma_total_parents_take_le(nodes, k + 1);
    }
}

/// The structural invariants the recurrence maintains, row by row: rows and
/// nodes correspond one to one, each row's columns are duplicate-free and
/// bounded, each row holds its own node's column as the active one, links
/// stay within the two adjacent rows, and each row is exactly what the
/// recurrence says.
pub open spec fn wf_rows(nodes: Seq<NodeModel>, rows: Seq<RowModel>) -> bool {
    &&& rows.len() == nodes.len()
    &&& forall|i: int| 0 <= i < rows.len() ==> (#[trigger] rows[i]).ids.no_duplicates()
    &&& forall|i: int| 0 <= i < rows.len() ==> (#[trigger] rows[i]).ids.contains(nodes[i].id)
    &&& forall|i: int|
        0 <= i < rows.len() ==> (#[trigger] rows[i]).active == first_index(
            rows[i].ids,
            nodes[i].id,
        )
    &&& forall|i: int|
        0 <= i < rows.len() ==> (#[trigger] rows[i]).ids.len() <= 1 + total_parents(
            nodes.take(i),
        )
    &&& forall|i: int|
        0 <= i < rows.len() ==> (#[trigger] rows[i]).bot == Seq::<(int, int)>::empty()
    &&& rows.len() > 0 ==> rows[0] == first_row_model(nodes[0])
    &&& forall|i: int|
        1 <= i < rows.len() ==> #[trigger] rows[i] == next_row_model(
            rows[i - 1].ids,
            nodes[i - 1],
            nodes[i],
        )
    &&& forall|i: int|
        1 <= i < rows.len() ==> links_in_range(
            (#[trigger] rows[i]).top,
            rows[i - 1].ids.len() as int,
            rows[i].ids.len() as int,
        )
}

/// `rows_before_fill` satisfies the recurrence invariants on every input.
pub proof fn lemma_rows_before_fill_wf(nodes: Seq<NodeModel>)
    ensures
        wf_rows(nodes, rows_before_fill(nodes)),
    decreases nodes.len(),
{
    let rows = rows_before_fill(nodes);
    if nodes.len() == 0 {
    } else if nodes.len() == 1 {
        assert(rows[0].ids.contains(nodes[0].id)) by {
            assert(rows[0].ids[0] == nodes[0].id);
        }
        assert(nodes.take(0) =~= Seq::<NodeModel>::empty());
    } else {
        let n = nodes.len() as int;
        let prefix_nodes = nodes.drop_last();
        lemma_rows_before_fill_wf(prefix_nodes);
        let prows = rows_before_fill(prefix_nodes);
        assert(rows == prows.push(
            next_row_model(prows.last().ids, nodes[n - 2], nodes[n - 1]),
        ));
        assert forall|i: int| 0 <= i < n - 1 implies prefix_nodes[i] == nodes[i]
            && #[trigger] rows[i] == prows[i] by {}
        assert forall|i: int| 0 <= i <= n - 1 implies #[trigger] nodes.take(i)
            =~= prefix_nodes.take(i) by {}

        // The new row comes out of one assignment fold over the worklist.
        let prev_ids = prows.last().ids;
        let pm = nodes[n - 2];
        let nm = nodes[n - 1];
        let q = worklist(prev_ids, pm, nm.id);
        let st = assign_all(empty_assignment(), q);
        assert(prev_ids == rows[n - 2].ids);
        assert(prev_ids.no_duplicates());
        assert(prev_ids.contains(pm.id));
        lemma_expanded_prefix_len(prev_ids, pm, prev_ids.len() as int);
        assert(prev_ids.take(prev_ids.len() as int) =~= prev_ids);
        assert(q.len() == prev_ids.len() + pm.parents.len());
        lemma_expanded_prefix_sources(prev_ids, pm, prev_ids.len() as int);
        assert(sources_in_range(q, prev_ids.len() as int)) by {
            assert forall|k: int|
                0 <= k < q.len() implies (#[trigger] q[k].1 matches Option::Some(s) ==> 0 <= s
                < prev_ids.len()) by {
                if k < q.len() - 1 {
                    assert(q[k] == expanded_prefix(prev_ids, pm, prev_ids.len() as int)[k]);
                }
            }
        }
        assert(empty_assignment().ids.no_duplicates());
        lemma_assign_all_props(empty_assignment(), q, prev_ids.len() as int);
        assert(st.ids.contains(nm.id)) by {
            assert(q[q.len() - 1].0 == nm.id);
        }

        // Column-count bound for the new row.
        assert(rows[n - 1].ids.len() <= 1 + total_parents(nodes.take(n - 1))) by {
            assert(prev_ids.len() <= 1 + total_parents(nodes.take(n - 2)));
            lemma_total_parents_take(nodes, n - 2);
            assert(st.ids.len() <= q.len());
        }
    }
}

// ---------------------------------------------------------------------------
// Executable data types
// ---------------------------------------------------------------------------

/// A zero-based column index into one row's cell list.
///
/// Meaningful only within a single row; columns are not stable across rows.
#[derive(Debug, Copy, Clone, Eq, PartialEq, Structural)]
pub struct CellId(pub u32);

/// One column of one row: the identity of the branch occupying it.
#[derive(Debug, Copy, Clone, Eq, PartialEq, Structural)]
pub struct LayoutCell {
    pub id: u64,
}

/// One row of the layout grid.
#[derive(Debug, Clone, Eq, PartialEq)]
pub struct LayoutRow {
    /// Columns alive at this row, left to right; order is significant.
    pub cells: Vec<LayoutCell>,
    /// Links (source column in the previous row, target column in this row).
    pub top_links: Vec<(CellId, CellId)>,
    /// Links (source column in this row, target column in the next row);
    /// always equal to the next row's `top_links` when that row exists.
    pub bot_links: Vec<(CellId, CellId)>,
    /// The column holding this row's own node.
    pub active_cell: CellId,
}

/// The column identities of a cell sequence, in order.
pub open spec fn ids_of(cells: Seq<LayoutCell>) -> Seq<u64> {
    cells.map(|_i: int, c: LayoutCell| c.id)
}

/// Link pairs as plain integers.
pub open spec fn links_of(links: Seq<(CellId, CellId)>) -> Seq<(int, int)> {
    links.map(|_i: int, l: (CellId, CellId)| (l.0.0 as int, l.1.0 as int))
}

impl View for LayoutRow {
    type V = RowModel;

    open spec fn view(&self) -> RowModel {
        RowModel {
            ids: ids_of(self.cells@),
            active: self.active_cell.0 as int,
            top: links_of(self.top_links@),
            bot: links_of(self.bot_links@),
        }
    }
}

/// The views of a row sequence.
pub open spec fn row_views(rows: Seq<LayoutRow>) -> Seq<RowModel> {
    rows.map(|_i: int, r: LayoutRow| r@)
}

// ---------------------------------------------------------------------------
// The node abstraction
// ---------------------------------------------------------------------------

/// Capability contract a graph element must satisfy to be laid out: a stable
/// identity and an ordered list of predecessor identities.
pub trait Node {
    /// The node's identity, as the layout sees it.
    spec fn spec_id(&self) -> u64;

    /// The node's parent identities, in declaration order.
    spec fn spec_parents(&self) -> Seq<u64>;

    /// Returns the node's identity.
    fn id(&self) -> (r: u64)
        ensures
            r == self.spec_id(),
    ;

    /// Returns the node's parent identities, in order.
    fn parents(&self) -> (r: &[u64])
        ensures
            r@ == self.spec_parents(),
    ;
}

/// The ghost model of one node.
pub open spec fn node_model<TNode: Node>(node: TNode) -> NodeModel {
    NodeModel { id: node.spec_id(), parents: node.spec_parents() }
}

/// The ghost models of a node sequence.
pub open spec fn node_models<TNode: Node>(nodes: Seq<TNode>) -> Seq<NodeModel> {
    nodes.map(|_i: int, n: TNode| node_model(n))
}

/// A plain graph node: an identity and an owned parent list.
#[derive(Debug, Clone, Eq, PartialEq)]
pub struct SimpleNode {
    pub id: u64,
    pub parents: Vec<u64>,
}

impl Node for SimpleNode {
    open spec fn spec_id(&self) -> u64 {
        self.id
    }

    open spec fn spec_parents(&self) -> Seq<u64> {
        self.parents@
    }

    fn id(&self) -> u64 {
        self.id
    }

    fn parents(&self) -> &[u64] {
        self.parents.as_slice()
    }
}

// ---------------------------------------------------------------------------
// The engine
// ---------------------------------------------------------------------------

/// First-seen-wins lookup: the column already assigned to `id`, if any.
fn find_cell(cells: &Vec<LayoutCell>, id: u64) -> (r: Option<usize>)
    ensures
        match r {
            Option::Some(i) => ids_of(cells@).contains(id) && i < cells@.len() && i as int
                == first_index(ids_of(cells@), id),
            Option::None => !ids_of(cells@).contains(id),
        },
{
    let ghost ids = ids_of(cells@);
    let mut j: usize = 0;
    while j < cells.len()
        invariant
            j <= cells@.len(),
            ids == ids_of(cells@),
            forall|k: int| 0 <= k < j ==> ids[k] != id,
        decreases cells@.len() - j,
    {
        if cells[j].id == id {
            proof {
                lemma_first_index_of(ids, id, j as int);
            }
            return Option::Some(j);
        }
        j += 1;
    }
    Option::None
}

/// The ghost view of the executable worklist, with plain-integer sources.
pub open spec fn queue_view(q: Seq<(u64, Option<usize>)>) -> Seq<(u64, Option<int>)> {
    q.map(
        |_i: int, e: (u64, Option<usize>)|
            (
                e.0,
                match e.1 {
                    Option::Some(s) => Option::Some(s as int),
                    Option::None => Option::<int>::None,
                },
            ),
    )
}

/// A plain element-by-element copy of a link list.
fn copy_links(src: &Vec<(CellId, CellId)>) -> (r: Vec<(CellId, CellId)>)
    ensures
        r@ == src@,
{
    let mut r: Vec<(CellId, CellId)> = Vec::new();
    let mut k: usize = 0;
    while k < src.len()
        invariant
            k <= src@.len(),
            r@ == src@.take(k as int),
        decreases src@.len() - k,
    {
        r.push(src[k]);
        proof {
            assert(r@ =~= src@.take(k as int + 1));
        }
        k += 1;
    }
    proof {
        assert(src@.take(src@.len() as int) =~= src@);
    }
    r
}

/// Builds the row that follows `prev_row`, where `prev_node` is the node just
/// visited (owning the row's active column) and `next_node` the node now
/// being visited; fills `prev_row`'s bottom links with the new row's top
/// links, which finalizes the previous row.
fn compute_next_row<TNode: Node>(
    prev_row: &mut LayoutRow,
    prev_node: &TNode,
    next_node: &TNode,
) -> (row: LayoutRow)
    requires
        old(prev_row)@.ids.no_duplicates(),
        old(prev_row)@.ids.contains(prev_node.spec_id()),
        old(prev_row)@.ids.len() + prev_node.spec_parents().len() <= u32::MAX,
    ensures
        row@ == next_row_model(old(prev_row)@.ids, node_model(*prev_node), node_model(*next_node)),
        final(prev_row)@.ids == old(prev_row)@.ids,
        final(prev_row)@.active == old(prev_row)@.active,
        final(prev_row)@.top == old(prev_row)@.top,
        final(prev_row)@.bot == row@.top,
{
    let ghost prev_ids = old(prev_row)@.ids;
    let ghost pm = node_model(*prev_node);
    let ghost nm = node_model(*next_node);

    let prev_id = prev_node.id();
    let parents: &[u64] = prev_node.parents();

    // Scan the previous row's cells left to right, expanding the active
    // node's column into its parents and passing every other column through.
    let mut queue: Vec<(u64, Option<usize>)> = Vec::new();
    let mut p: usize = 0;
    while p < prev_row.cells.len()
        invariant
            *prev_row == *old(prev_row),
            ids_of(prev_row.cells@) == prev_ids,
            parents@ == pm.parents,
            prev_id == pm.id,
            p <= prev_ids.len(),
            queue_view(queue@) == expanded_prefix(prev_ids, pm, p as int),
        decreases prev_ids.len() - p,
    {
        assert(prev_ids[p as int] == prev_row.cells@[p as int].id);
        if prev_row.cells[p].id == prev_id {
            let mut t: usize = 0;
            while t < parents.len()
                invariant
                    *prev_row == *old(prev_row),
                    ids_of(prev_row.cells@) == prev_ids,
                    parents@ == pm.parents,
                    prev_id == pm.id,
                    p < prev_ids.len(),
                    prev_ids[p as int] == pm.id,
                    t <= pm.parents.len(),
                    queue_view(queue@) == expanded_prefix(prev_ids, pm, p as int)
                        + pm.parents.take(t as int).map(
                        |_j: int, par: u64| (par, Option::Some(p as int)),
                    ),
                decreases pm.parents.len() - t,
            {
                queue.push((parents[t], Option::Some(p)));
                proof {
                    let front = expanded_prefix(prev_ids, pm, p as int);
                    let taken = pm.parents.take(t as int).map(
                        |_j: int, par: u64| (par, Option::Some(p as int)),
                    );
                    let taken1 = pm.parents.take(t as int + 1).map(
                        |_j: int, par: u64| (par, Option::Some(p as int)),
                    );
                    assert(taken1 =~= taken.push((pm.parents[t as int], Option::Some(p as int))));
                    assert(queue_view(queue@) =~= (front + taken).push(
                        (pm.parents[t as int], Option::Some(p as int)),
                    ));
                    assert((front + taken).push((pm.parents[t as int], Option::Some(p as int)))
                        =~= front + taken1);
                }
                t += 1;
            }
            proof {
                assert(pm.parents.take(pm.parents.len() as int) =~= pm.parents);
                assert(cell_entries(p as int, prev_ids[p as int], pm) == pm.parents.map(
                    |_j: int, par: u64| (par, Option::Some(p as int)),
                ));
                assert(queue_view(queue@) =~= expanded_prefix(prev_ids, pm, p as int + 1));
            }
        } else {
            queue.push((prev_row.cells[p].id, Option::Some(p)));
            proof {
                assert(cell_entries(p as int, prev_ids[p as int], pm) =~= seq![
                    (prev_ids[p as int], Option::Some(p as int)),
                ]);
                assert(queue_view(queue@) =~= expanded_prefix(prev_ids, pm, p as int + 1));
            }
        }
        p += 1;
    }

    // Force the next node's own column, even when it is not a parent of
    // anything alive: the traversal may jump to an unrelated branch.
    let next_id = next_node.id();
    queue.push((next_id, Option::None));
    let ghost q = queue_view(queue@);
    proof {
        assert(q =~= worklist(prev_ids, pm, nm.id));
        lemma_expanded_prefix_len(prev_ids, pm, prev_ids.len() as int);
        assert(prev_ids.take(prev_ids.len() as int) =~= prev_ids);
        assert(q.len() == prev_ids.len() + pm.parents.len());
        lemma_expanded_prefix_sources(prev_ids, pm, prev_ids.len() as int);
        assert(sources_in_range(q, prev_ids.len() as int)) by {
            assert forall|k: int|
                0 <= k < q.len() implies (#[trigger] q[k].1 matches Option::Some(s) ==> 0 <= s
                < prev_ids.len()) by {
                if k < q.len() - 1 {
                    assert(q[k] == expanded_prefix(prev_ids, pm, prev_ids.len() as int)[k]);
                }
            }
        }
    }

    // Walk the worklist in order: first occurrence of an id opens the next
    // free column, a repeated id folds into its first-seen column, and every
    // tagged entry records one link.
    let mut cells: Vec<LayoutCell> = Vec::new();
    let mut top_links: Vec<(CellId, CellId)> = Vec::new();
    proof {
        assert(ids_of(cells@) =~= Seq::<u64>::empty());
        assert(links_of(top_links@) =~= Seq::<(int, int)>::empty());
        assert(Assignment { ids: ids_of(cells@), links: links_of(top_links@) }
            =~= empty_assignment());
        assert(q.skip(0) =~= q);
    }
    let mut t: usize = 0;
    while t < queue.len()
        invariant
            q == queue_view(queue@),
            q.len() <= u32::MAX,
            sources_in_range(q, prev_ids.len() as int),
            prev_ids.len() <= u32::MAX,
            t <= q.len(),
            cells@.len() <= t,
            assign_all(empty_assignment(), q) == assign_all(
                Assignment { ids: ids_of(cells@), links: links_of(top_links@) },
                q.skip(t as int),
            ),
        decreases q.len() - t,
    {
        let ghost st = Assignment { ids: ids_of(cells@), links: links_of(top_links@) };
        let entry = queue[t];
        proof {
            assert(q[t as int] == (
                entry.0,
                match entry.1 {
                    Option::Some(s) => Option::Some(s as int),
                    Option::None => Option::<int>::None,
                },
            ));
        }
        let idx: usize = match find_cell(&cells, entry.0) {
            Option::Some(i) => i,
            Option::None => {
                cells.push(LayoutCell { id: entry.0 });
                cells.len() - 1
            },
        };
        proof {
            assert(ids_of(cells@) =~= assign_entry(st, q[t as int]).ids);
        }
        match entry.1 {
            Option::Some(src) => {
                assert(0 <= src < prev_ids.len());
                top_links.push((CellId(src as u32), CellId(idx as u32)));
            },
            Option::None => {},
        }
        proof {
            assert(links_of(top_links@) =~= assign_entry(st, q[t as int]).links);
            assert(Assignment { ids: ids_of(cells@), links: links_of(top_links@) } =~= assign_entry(
                st,
                q[t as int],
            ));
            assert(q.skip(t as int).drop_first() =~= q.skip(t as int + 1));
            assert(q.skip(t as int)[0] == q[t as int]);
        }
        t += 1;
    }
    proof {
        assert(q.skip(q.len() as int) =~= Seq::<(u64, Option<int>)>::empty());
    }
    let ghost st = assign_all(empty_assignment(), q);
    proof {
        assert(st == Assignment { ids: ids_of(cells@), links: links_of(top_links@) });
        lemma_assign_all_props(empty_assignment(), q, prev_ids.len() as int);
        assert(st.ids.contains(nm.id)) by {
            assert(q[q.len() - 1].0 == nm.id);
        }
    }

    // The active column is wherever the next node's id first landed.
    let active: usize = match find_cell(&cells, next_id) {
        Option::Some(i) => i,
        Option::None => 0,
    };

    let finished_links = copy_links(&top_links);
    prev_row.bot_links = finished_links;
    let row = LayoutRow {
        cells,
        top_links,
        bot_links: Vec::new(),
        active_cell: CellId(active as u32),
    };
    proof {
        assert(row@ =~= next_row_model(prev_ids, pm, nm));
        assert(prev_row@.bot =~= row@.top);
    }
    row
}

/// Lays out an ordered, newest-first node sequence as a grid: one row per
/// node, in input order. Columns persist between rows (first-seen-wins), a
/// visited node's column expands into its parents, converging branches
/// collapse into one column, and each row's bottom links equal the next
/// row's top links.
///
/// The result is a pure function of the input models, so two calls on equal
/// inputs yield structurally identical rows.
pub fn layout_nodes<TNode: Node>(nodes: &[TNode]) -> (result: Vec<LayoutRow>)
    requires
        1 + total_parents(node_models(nodes@)) <= u32::MAX,
    ensures
        result@.len() == nodes@.len(),
        row_views(result@) == spec_layout(node_models(nodes@)),
{
    let ghost ms = node_models(nodes@);
    let mut result: Vec<LayoutRow> = Vec::new();
    if nodes.is_empty() {
        proof {
            assert(row_views(result@) =~= spec_layout(ms));
        }
        return result;
    }

    let first_id = nodes[0].id();
    let mut prev_row = LayoutRow {
        cells: vec![LayoutCell { id: first_id }],
        top_links: Vec::new(),
        bot_links: Vec::new(),
        active_cell: CellId(0),
    };
    proof {
        assert(ms[0] == node_model(nodes@[0]));
        assert(prev_row@ =~= first_row_model(ms[0]));
        assert(rows_before_fill(ms.take(1)) == seq![first_row_model(ms.take(1)[0])]);
        assert(row_views(result@).push(prev_row@) =~= spec_layout(ms.take(1)));
    }

    let mut k: usize = 1;
    while k < nodes.len()
        invariant
            1 <= k <= ms.len(),
            ms == node_models(nodes@),
            nodes@.len() == ms.len(),
            1 + total_parents(ms) <= u32::MAX,
            result@.len() == k - 1,
            row_views(result@).push(prev_row@) == spec_layout(ms.take(k as int)),
        decreases ms.len() - k,
    {
        let ghost ki = k as int;
        let ghost rb = rows_before_fill(ms.take(ki));
        proof {
            lemma_rows_before_fill_wf(ms.take(ki));
            // The last produced row is exactly the recurrence's row k-1.
            assert(spec_layout(ms.take(ki))[ki - 1] == prev_row@);
            assert(fill_bottom_links(rb)[ki - 1].ids == rb[ki - 1].ids);
            assert(prev_row@.ids == rb[ki - 1].ids);
            assert(ms.take(ki)[ki - 1] == ms[ki - 1]);
            assert(ms[ki - 1] == node_model(nodes@[ki - 1]));
            // Discharge the step's size bound from the global one.
            assert(rb[ki - 1].ids.len() <= 1 + total_parents(ms.take(ki).take(ki - 1)));
            assert(ms.take(ki).take(ki - 1) =~= ms.take(ki - 1));
            lemma_total_parents_take(ms, ki - 1);
            lemma_total_parents_take_le(ms, ki);
        }
        let row = compute_next_row(&mut prev_row, &nodes[k - 1], &nodes[k]);
        proof {
            let rb1 = rows_before_fill(ms.take(ki + 1));
            assert(ms.take(ki + 1).drop_last() =~= ms.take(ki));
            assert(ms.take(ki + 1)[ki - 1] == ms[ki - 1] && ms.take(ki + 1)[ki] == ms[ki]);
            assert(ms[ki] == node_model(nodes@[ki]));
            assert(rb1 == rb.push(next_row_model(rb[ki - 1].ids, ms[ki - 1], ms[ki])));
            assert(row@ == rb1[ki]);
        }
        result.push(prev_row);
        prev_row = row;
        proof {
            let rb1 = rows_before_fill(ms.take(ki + 1));
            assert forall|i: int|
                0 <= i < ki implies row_views(result@)[i] == #[trigger] spec_layout(
                ms.take(ki + 1),
            )[i] by {
                assert(rb1[i] == rb[i] && (i + 1 < ki ==> rb1[i + 1] == rb[i + 1]));
                if i < ki - 1 {
                    assert(row_views(result@)[i] == spec_layout(ms.take(ki))[i]);
                } else {
                    // The row just finalized: same columns, bottom links
                    // filled with the new row's top links.
                    assert(row_views(result@)[ki - 1] == result@[ki - 1]@);
                    assert(spec_layout(ms.take(ki + 1))[ki - 1] =~= result@[ki - 1]@);
                }
            }
            assert(row_views(result@).push(prev_row@) =~= spec_layout(ms.take(ki + 1)));
        }
        k += 1;
    }

    result.push(prev_row);
    proof {
        assert(ms.take(ms.len() as int) =~= ms);
        assert(row_views(result@) =~= spec_layout(ms));
    }
    result
}

// ---------------------------------------------------------------------------
// Laws of the layout
// ---------------------------------------------------------------------------

/// The layout has one row per input node, in input order.
pub proof fn lemma_layout_length(nodes: Seq<NodeModel>)
    ensures
        spec_layout(nodes).len() == nodes.len(),
{
    lemma_rows_before_fill_wf(nodes);
}

/// Row 0 has exactly one cell holding the first node's id, active column 0,
/// and no top links; its bottom links are empty when no second row exists,
/// and otherwise equal the second row's top links.
pub proof fn lemma_first_row(nodes: Seq<NodeModel>)
    requires
        nodes.len() > 0,
    ensures
        spec_layout(nodes)[0].ids == seq![nodes[0].id],
        spec_layout(nodes)[0].active == 0,
        spec_layout(nodes)[0].top == Seq::<(int, int)>::empty(),
        nodes.len() == 1 ==> spec_layout(nodes)[0].bot == Seq::<(int, int)>::empty(),
        nodes.len() > 1 ==> spec_layout(nodes)[0].bot == spec_layout(nodes)[1].top,
{
    lemma_rows_before_fill_wf(nodes);
}

/// Every row's active cell is a valid column and holds the row's own node.
pub proof fn lemma_active_cell(nodes: Seq<NodeModel>, i: int)
    requires
        0 <= i < nodes.len(),
    ensures
        0 <= spec_layout(nodes)[i].active < spec_layout(nodes)[i].ids.len(),
        spec_layout(nodes)[i].ids[spec_layout(nodes)[i].active] == nodes[i].id,
{
    lemma_rows_before_fill_wf(nodes);
    let rows = rows_before_fill(nodes);
    lemma_first_index_props(rows[i].ids, nodes[i].id);
}

/// No id occupies two columns of one row.
pub proof fn lemma_distinct_columns(nodes: Seq<NodeModel>, i: int)
    requires
        0 <= i < nodes.len(),
    ensures
        spec_layout(nodes)[i].ids.no_duplicates(),
{
    lemma_rows_before_fill_wf(nodes);
}

/// Every top link of row `i` joins a valid column of row `i - 1` to a valid
/// column of row `i`.
pub proof fn lemma_link_ranges(nodes: Seq<NodeModel>, i: int)
    requires
        1 <= i < nodes.len(),
    ensures
        links_in_range(
            spec_layout(nodes)[i].top,
            spec_layout(nodes)[i - 1].ids.len() as int,
            spec_layout(nodes)[i].ids.len() as int,
        ),
{
    lemma_rows_before_fill_wf(nodes);
}

/// Row `i`'s bottom links are exactly row `i + 1`'s top links; the last row
/// has none.
pub proof fn lemma_bottom_links(nodes: Seq<NodeModel>, i: int)
    requires
        0 <= i < nodes.len(),
    ensures
        i + 1 < nodes.len() ==> spec_layout(nodes)[i].bot == spec_layout(nodes)[i + 1].top,
        i + 1 == nodes.len() ==> spec_layout(nodes)[i].bot == Seq::<(int, int)>::empty(),
{
    lemma_rows_before_fill_wf(nodes);
}

/// Determinism: the layout is a function of the node models alone, so two
/// results of `layout_nodes` on inputs with equal models are structurally
/// identical.
pub proof fn lemma_layout_deterministic(nodes: Seq<NodeModel>, a: Seq<RowModel>, b: Seq<RowModel>)
    requires
        a == spec_layout(nodes),
        b == spec_layout(nodes),
    ensures
        a == b,
{
}

/// Which ids the assignment fold produces: exactly those it started with
/// plus those occurring in the worklist.
proof fn lemma_assign_all_ids(st: Assignment, q: Seq<(u64, Option<int>)>, x: u64)
    ensures
        assign_all(st, q).ids.contains(x) <==> st.ids.contains(x) || exists|k: int|
            0 <= k < q.len() && (#[trigger] q[k]).0 == x,
    decreases q.len(),
{
    if q.len() > 0 {
        let st1 = assign_entry(st, q[0]);
        lemma_assign_all_ids(st1, q.drop_first(), x);
        assert(st1.ids.contains(x) <==> st.ids.contains(x) || q[0].0 == x) by {
            if st.ids.contains(x) {
                let w = choose|w: int| 0 <= w < st.ids.len() && st.ids[w] == x;
                assert(st1.ids[w] == x);
            }
            if !st.ids.contains(q[0].0) {
                assert(st1.ids[st.ids.len() as int] == q[0].0);
                if st1.ids.contains(x) && !st.ids.contains(x) {
                    let w = choose|w: int| 0 <= w < st1.ids.len() && st1.ids[w] == x;
                    assert(w == st.ids.len());
                }
            }
        }
        assert forall|k: int| 0 <= k < q.len() && (#[trigger] q[k]).0 == x implies st1.ids.contains(
            x,
        ) || exists|k2: int| 0 <= k2 < q.drop_first().len() && (#[trigger] q.drop_first()[k2]).0
            == x by {
            if k > 0 {
                assert(q.drop_first()[k - 1].0 == x);
            }
        }
        assert forall|k2: int|
            0 <= k2 < q.drop_first().len() && (#[trigger] q.drop_first()[k2]).0 == x implies exists|
            k: int,
        | 0 <= k < q.len() && (#[trigger] q[k]).0 == x by {
            assert(q[k2 + 1].0 == x);
        }
    }
}

/// When the expanded node has no parents, its id never enters the worklist
/// prefix: unexpanded cells pass through their own, different ids.
proof fn lemma_expanded_prefix_drops_id(ids: Seq<u64>, node: NodeModel, p: int)
    requires
        0 <= p <= ids.len(),
        node.parents.len() == 0,
    ensures
        forall|k: int|
            0 <= k < expanded_prefix(ids, node, p).len() ==> (#[trigger] expanded_prefix(
                ids,
                node,
                p,
            )[k]).0 != node.id,
    decreases p,
{
    if p > 0 {
        lemma_expanded_prefix_drops_id(ids, node, p - 1);
        let front = expanded_prefix(ids, node, p - 1);
        let back = cell_entries(p - 1, ids[p - 1], node);
        assert forall|k: int|
            0 <= k < expanded_prefix(ids, node, p).len() implies (#[trigger] expanded_prefix(
            ids,
            node,
            p,
        )[k]).0 != node.id by {
            if k < front.len() {
                assert(expanded_prefix(ids, node, p)[k] == front[k]);
            } else {
                assert(expanded_prefix(ids, node, p)[k] == back[k - front.len()]);
            }
        }
    }
}

/// Every worklist-prefix entry carries either a previous-row column id (a
/// pass-through) or a parent of the expanded node.
proof fn lemma_expanded_prefix_entry_ids(ids: Seq<u64>, node: NodeModel, p: int)
    requires
        0 <= p <= ids.len(),
    ensures
        forall|k: int|
            0 <= k < expanded_prefix(ids, node, p).len() ==> (ids.contains(
                (#[trigger] expanded_prefix(ids, node, p)[k]).0,
            ) || node.parents.contains(expanded_prefix(ids, node, p)[k].0)),
    decreases p,
{
    if p > 0 {
        lemma_expanded_prefix_entry_ids(ids, node, p - 1);
        let front = expanded_prefix(ids, node, p - 1);
        let back = cell_entries(p - 1, ids[p - 1], node);
        assert forall|k: int|
            0 <= k < expanded_prefix(ids, node, p).len() implies (ids.contains(
            (#[trigger] expanded_prefix(ids, node, p)[k]).0,
        ) || node.parents.contains(expanded_prefix(ids, node, p)[k].0)) by {
            if k < front.len() {
                assert(expanded_prefix(ids, node, p)[k] == front[k]);
            } else {
                assert(expanded_prefix(ids, node, p)[k] == back[k - front.len()]);
                if ids[p - 1] == node.id {
                    assert(back[k - front.len()].0 == node.parents[k - front.len()]);
                } else {
                    assert(back[k - front.len()].0 == ids[p - 1]);
                }
            }
        }
    }
}

/// An id absent from a row stays absent from the following row, unless the
/// visited node's parents or the next node itself reintroduce it.
pub proof fn lemma_absent_column_stays_absent(nodes: Seq<NodeModel>, i: int, x: u64)
    requires
        1 <= i < nodes.len(),
        !spec_layout(nodes)[i - 1].ids.contains(x),
        !nodes[i - 1].parents.contains(x),
        nodes[i].id != x,
    ensures
        !spec_layout(nodes)[i].ids.contains(x),
{
    lemma_rows_before_fill_wf(nodes);
    let rows = rows_before_fill(nodes);
    let prev_ids = rows[i - 1].ids;
    let pm = nodes[i - 1];
    let q = worklist(prev_ids, pm, nodes[i].id);
    lemma_expanded_prefix_entry_ids(prev_ids, pm, prev_ids.len() as int);
    lemma_assign_all_ids(empty_assignment(), q, x);
    assert(spec_layout(nodes)[i - 1].ids == prev_ids);
    assert forall|k: int| 0 <= k < q.len() implies (#[trigger] q[k]).0 != x by {
        if k < q.len() - 1 {
            assert(q[k] == expanded_prefix(prev_ids, pm, prev_ids.len() as int)[k]);
        }
    }
}

/// Zero-parent termination: when a node has no parents, its column vanishes
/// from the next row — unless the next node itself carries the same id, the
/// one way the id can be independently reintroduced there. Together with
/// `lemma_absent_column_stays_absent`, the column then stays out of all
/// subsequent rows until some parent list or visited node reintroduces it.
pub proof fn lemma_zero_parents_drop_column(nodes: Seq<NodeModel>, i: int)
    requires
        1 <= i < nodes.len(),
        nodes[i - 1].parents.len() == 0,
        nodes[i].id != nodes[i - 1].id,
    ensures
        !spec_layout(nodes)[i].ids.contains(nodes[i - 1].id),
{
    lemma_rows_before_fill_wf(nodes);
    let rows = rows_before_fill(nodes);
    let prev_ids = rows[i - 1].ids;
    let pm = nodes[i - 1];
    let q = worklist(prev_ids, pm, nodes[i].id);
    lemma_expanded_prefix_drops_id(prev_ids, pm, prev_ids.len() as int);
    lemma_assign_all_ids(empty_assignment(), q, pm.id);
    assert forall|k: int| 0 <= k < q.len() implies (#[trigger] q[k]).0 != pm.id by {
        if k < q.len() - 1 {
            assert(q[k] == expanded_prefix(prev_ids, pm, prev_ids.len() as int)[k]);
        }
    }
}

} // verus!
