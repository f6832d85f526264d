use ts_bnf_tool::visitor::render_table;

/// Both columns are padded to their own widest cell, independently.
#[test]
fn render_table_pads_columns_to_widest_cell() {
    let rows = [["a", "bb"], ["ccc", "d"]];
    assert_eq!(
        render_table(&rows),
        "| a   | bb |\n|-----|----|\n| ccc | d  |"
    );
}

/// A header-only table still emits the separator row.
#[test]
fn render_table_header_only() {
    assert_eq!(render_table(&[["h1", "h2"]]), "| h1 | h2 |\n|----|----|");
}

/// A cell wider than every other cell in its column sets that column's
/// width; the other column is unaffected.
#[test]
fn render_table_widest_cell_in_one_column_does_not_affect_the_other() {
    let rows = [["short", "y"], ["a very long header cell", "z"]];
    let out = render_table(&rows);
    let lines: Vec<&str> = out.lines().collect();
    assert_eq!(lines[0], "| short                   | y |");
    assert_eq!(lines[2], "| a very long header cell | z |");
}
