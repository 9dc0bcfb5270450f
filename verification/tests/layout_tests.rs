use stainless_git::dag_layout::{layout_nodes, CellId, SimpleNode};

fn node(id: u64, parents: Vec<u64>) -> SimpleNode {
    SimpleNode { id, parents }
}

#[test]
fn empty_input_yields_no_rows() {
    let nodes: Vec<SimpleNode> = Vec::new();
    let rows = layout_nodes(&nodes);
    assert!(rows.is_empty());
}

#[test]
fn single_node_row() {
    let nodes = vec![node(7, vec![])];
    let rows = layout_nodes(&nodes);
    assert_eq!(rows.len(), 1);
    assert_eq!(rows[0].cells.len(), 1);
    assert_eq!(rows[0].cells[0].id, 7);
    assert_eq!(rows[0].active_cell, CellId(0));
    assert!(rows[0].top_links.is_empty());
    assert!(rows[0].bot_links.is_empty());
}

#[test]
fn one_row_per_node_in_order() {
    let nodes = vec![node(1, vec![2]), node(2, vec![3]), node(3, vec![])];
    let rows = layout_nodes(&nodes);
    assert_eq!(rows.len(), nodes.len());
    for (row, n) in rows.iter().zip(nodes.iter()) {
        assert_eq!(row.cells[row.active_cell.0 as usize].id, n.id);
    }
}

#[test]
fn first_row_has_one_cell_and_no_top_links() {
    let nodes = vec![node(5, vec![6, 7]), node(6, vec![]), node(7, vec![])];
    let rows = layout_nodes(&nodes);
    assert_eq!(rows[0].cells.len(), 1);
    assert_eq!(rows[0].cells[0].id, 5);
    assert_eq!(rows[0].active_cell, CellId(0));
    assert!(rows[0].top_links.is_empty());
}

#[test]
fn columns_are_pairwise_distinct() {
    // Duplicate parent declarations collapse into one column.
    let nodes = vec![node(1, vec![2, 2, 3]), node(2, vec![]), node(3, vec![])];
    let rows = layout_nodes(&nodes);
    for row in &rows {
        for a in 0..row.cells.len() {
            for b in (a + 1)..row.cells.len() {
                assert_ne!(row.cells[a].id, row.cells[b].id);
            }
        }
    }
    // Both declarations of parent 2 still land as links into one column.
    assert_eq!(rows[1].cells.len(), 2);
    assert_eq!(
        rows[1].top_links,
        vec![(CellId(0), CellId(0)), (CellId(0), CellId(0)), (CellId(0), CellId(1))]
    );
}

#[test]
fn links_stay_within_adjacent_rows() {
    let nodes = vec![
        node(1, vec![2, 3]),
        node(2, vec![4]),
        node(3, vec![4]),
        node(4, vec![]),
    ];
    let rows = layout_nodes(&nodes);
    for i in 1..rows.len() {
        for (s, t) in &rows[i].top_links {
            assert!((s.0 as usize) < rows[i - 1].cells.len());
            assert!((t.0 as usize) < rows[i].cells.len());
        }
        assert_eq!(rows[i - 1].bot_links, rows[i].top_links);
    }
    assert!(rows.last().unwrap().bot_links.is_empty());
}

#[test]
fn layout_is_deterministic() {
    let nodes = vec![
        node(1, vec![2, 3]),
        node(2, vec![4]),
        node(3, vec![4]),
        node(4, vec![]),
    ];
    let first = layout_nodes(&nodes);
    let second = layout_nodes(&nodes);
    assert_eq!(first, second);
}

#[test]
fn linear_chain() {
    let nodes = vec![node(1, vec![2]), node(2, vec![3]), node(3, vec![])];
    let rows = layout_nodes(&nodes);
    assert_eq!(rows.len(), 3);
    for (i, id) in [1u64, 2, 3].iter().enumerate() {
        assert_eq!(rows[i].cells.len(), 1);
        assert_eq!(rows[i].cells[0].id, *id);
        assert_eq!(rows[i].active_cell, CellId(0));
    }
    let straight = vec![(CellId(0), CellId(0))];
    assert!(rows[0].top_links.is_empty());
    assert_eq!(rows[0].bot_links, straight);
    assert_eq!(rows[1].top_links, straight);
    assert_eq!(rows[1].bot_links, straight);
    assert_eq!(rows[2].top_links, straight);
    assert!(rows[2].bot_links.is_empty());
}

#[test]
fn fork_spawns_second_column() {
    let nodes = vec![node(1, vec![2, 3]), node(2, vec![]), node(3, vec![])];
    let rows = layout_nodes(&nodes);
    assert_eq!(rows[0].cells.len(), 1);
    assert_eq!(rows[0].cells[0].id, 1);
    // Row 1: both parents fan out of column 0, B's column is active.
    assert_eq!(rows[1].cells.len(), 2);
    assert_eq!(rows[1].cells[0].id, 2);
    assert_eq!(rows[1].cells[1].id, 3);
    assert_eq!(rows[1].active_cell, CellId(0));
    assert_eq!(
        rows[1].top_links,
        vec![(CellId(0), CellId(0)), (CellId(0), CellId(1))]
    );
    // Row 2: B resolved without parents, C's column remains.
    assert_eq!(rows[2].cells.len(), 1);
    assert_eq!(rows[2].cells[0].id, 3);
    assert_eq!(rows[2].active_cell, CellId(0));
    assert_eq!(rows[2].top_links, vec![(CellId(1), CellId(0))]);
}

#[test]
fn merge_collapses_columns() {
    let nodes = vec![
        node(1, vec![2, 3]),
        node(2, vec![4]),
        node(3, vec![4]),
        node(4, vec![]),
    ];
    let rows = layout_nodes(&nodes);
    // Row 2: B expands to parent 4, C passes through.
    assert_eq!(rows[2].cells.len(), 2);
    assert_eq!(rows[2].cells[0].id, 4);
    assert_eq!(rows[2].cells[1].id, 3);
    assert_eq!(rows[2].active_cell, CellId(1));
    // Row 3: both columns resolve to id 4 and collapse into one cell,
    // with both incoming links retained.
    assert_eq!(rows[3].cells.len(), 1);
    assert_eq!(rows[3].cells[0].id, 4);
    assert_eq!(
        rows[3].top_links,
        vec![(CellId(0), CellId(0)), (CellId(1), CellId(0))]
    );
    assert_eq!(rows[2].bot_links, rows[3].top_links);
}

#[test]
fn zero_parents_drop_column() {
    let nodes = vec![node(1, vec![2]), node(2, vec![]), node(3, vec![])];
    let rows = layout_nodes(&nodes);
    // Node 2 had no parents: its column vanishes from row 2, which holds
    // only the forced column of node 3, reached by no link.
    assert_eq!(rows[2].cells.len(), 1);
    assert_eq!(rows[2].cells[0].id, 3);
    assert!(rows[2].top_links.is_empty());
    assert_eq!(rows[2].active_cell, CellId(0));
}

#[test]
fn dropped_column_stays_out() {
    let nodes = vec![
        node(1, vec![2]),
        node(2, vec![]),
        node(3, vec![]),
        node(4, vec![]),
    ];
    let rows = layout_nodes(&nodes);
    // Nothing after row 1 mentions id 2 again, so its column never returns.
    for row in &rows[2..] {
        assert!(row.cells.iter().all(|c| c.id != 2));
    }
}

#[test]
fn self_referential_parent_is_tolerated() {
    let nodes = vec![node(1, vec![1]), node(2, vec![])];
    let rows = layout_nodes(&nodes);
    assert_eq!(rows.len(), 2);
    // Node 1's own id re-enters the row as its parent, then node 2's column
    // is forced alongside it.
    assert_eq!(rows[1].cells.len(), 2);
    assert_eq!(rows[1].cells[0].id, 1);
    assert_eq!(rows[1].cells[1].id, 2);
    assert_eq!(rows[1].active_cell, CellId(1));
}

#[test]
fn unrelated_branch_gets_forced_column() {
    // The traversal jumps to a node nothing referenced.
    let nodes = vec![node(1, vec![2]), node(9, vec![]), node(2, vec![])];
    let rows = layout_nodes(&nodes);
    assert_eq!(rows[1].cells.len(), 2);
    assert_eq!(rows[1].cells[0].id, 2);
    assert_eq!(rows[1].cells[1].id, 9);
    assert_eq!(rows[1].active_cell, CellId(1));
    assert_eq!(rows[1].top_links, vec![(CellId(0), CellId(0))]);
}
