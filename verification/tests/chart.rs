use pcfg::grammar::chart::Chart;

#[test]
fn chart_cells_are_numbered_by_span() {
    let chart: Chart<u64> = Chart::new(3, 2);
    assert_eq!(12, chart.data().len());
    assert!(chart.data().iter().all(|e| *e == 0));
    assert_eq!(0, chart.cell_start_index(0, 1));
    assert_eq!(2, chart.cell_start_index(1, 1));
    assert_eq!(4, chart.cell_start_index(2, 1));
    assert_eq!(6, chart.cell_start_index(0, 2));
    assert_eq!(8, chart.cell_start_index(1, 2));
    assert_eq!(10, chart.cell_start_index(0, 3));
}

#[test]
fn chart_entries_can_be_set() {
    let mut chart: Chart<u64> = Chart::new(2, 3);
    assert_eq!(9, chart.data().len());
    chart.set(4, 7);
    assert_eq!(7, *chart.get(4));
    assert_eq!(0, *chart.get(3));
    let cell = chart.get_cell_mut(3);
    assert_eq!(3, cell.len());
    assert_eq!(7, cell[1]);
    cell[2] = 9;
    assert_eq!(9, *chart.get(5));
    assert_eq!(2, chart.sentence_len());
    assert_eq!(3, chart.num_nt());
}

#[test]
fn chart_for_no_words_is_empty() {
    let chart: Chart<u64> = Chart::new(0, 5);
    assert_eq!(0, chart.data().len());
}
