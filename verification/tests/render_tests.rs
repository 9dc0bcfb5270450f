use stainless_git::dag_layout::{layout_nodes, SimpleNode};
use stainless_git::render::{bottom_connector_line, content_line, top_connector_line};

fn node(id: u64, parents: Vec<u64>) -> SimpleNode {
    SimpleNode { id, parents }
}

#[test]
fn content_line_marks_active_column() {
    let nodes = vec![node(1, vec![2, 3]), node(2, vec![]), node(3, vec![])];
    let rows = layout_nodes(&nodes);
    assert_eq!(content_line(&rows[0], "first"), " *  first");
    assert_eq!(content_line(&rows[1], "second"), " *  |  second");
}

#[test]
fn content_line_appends_label_after_one_space() {
    let nodes = vec![node(4, vec![])];
    let rows = layout_nodes(&nodes);
    assert_eq!(content_line(&rows[0], ""), " *  ");
    assert_eq!(content_line(&rows[0], "a b"), " *  a b");
}

#[test]
fn straight_connectors_render_vertical_bars() {
    let nodes = vec![node(1, vec![2]), node(2, vec![])];
    let rows = layout_nodes(&nodes);
    assert_eq!(top_connector_line(&rows[0]), "   ");
    assert_eq!(bottom_connector_line(&rows[0]), " | ");
    assert_eq!(top_connector_line(&rows[1]), " | ");
    assert_eq!(bottom_connector_line(&rows[1]), "   ");
}

#[test]
fn fork_renders_left_diagonal() {
    let nodes = vec![node(1, vec![2, 3]), node(2, vec![]), node(3, vec![])];
    let rows = layout_nodes(&nodes);
    // Row 0 fans out into two columns below it.
    assert_eq!(bottom_connector_line(&rows[0]), " |\\");
    // Row 1 receives one vertical and one diagonal from the upper left.
    assert_eq!(top_connector_line(&rows[1]), " | \\  ");
}

#[test]
fn merge_reports_both_diagonal_sources() {
    let nodes = vec![
        node(1, vec![2, 3]),
        node(2, vec![4]),
        node(3, vec![4]),
        node(4, vec![]),
    ];
    let rows = layout_nodes(&nodes);
    // Row 3 is the merge: its single column is reached straight from
    // column 0 and diagonally from column 1 of row 2.
    assert_eq!(top_connector_line(&rows[3]), " |/");
    // Row 2's bottom line mirrors the same two links.
    assert_eq!(bottom_connector_line(&rows[2]), " | /  ");
}

#[test]
fn lines_are_three_characters_per_column() {
    let nodes = vec![
        node(1, vec![2, 3]),
        node(2, vec![4]),
        node(3, vec![4]),
        node(4, vec![]),
    ];
    let rows = layout_nodes(&nodes);
    for row in &rows {
        let w = 3 * row.cells.len();
        assert_eq!(top_connector_line(row).len(), w);
        assert_eq!(bottom_connector_line(row).len(), w);
        assert_eq!(content_line(row, "x").len(), w + 2);
    }
}
