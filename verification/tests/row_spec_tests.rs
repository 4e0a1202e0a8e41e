use lepton_jpeg::row_spec::RowSpec;

fn order(heights: &[i32], mcuv: i32, max_coded: &[i32]) -> Vec<(usize, i32, i32, bool)> {
    let heights = heights.to_vec();
    let max_coded = max_coded.to_vec();
    let mut out = Vec::new();
    let mut index = 0;
    loop {
        let row = RowSpec::get_row_spec_from_index(index, &heights, mcuv, &max_coded);
        if row.done {
            break;
        }
        if !row.skip {
            out.push((row.component, row.curr_y, row.luma_y, row.last_row_to_complete_mcu));
        }
        index += 1;
        assert!(index < 1000);
    }
    out
}

#[test]
fn one_component_is_coded_row_by_row() {
    let rows = order(&[4], 4, &[4]);
    assert_eq!(rows, vec![(0, 0, 0, true), (0, 1, 1, true), (0, 2, 2, true), (0, 3, 3, true)]);
}

#[test]
fn chroma_rows_come_before_the_luma_rows_of_their_mcu() {
    // luma of twice the height of the two chroma components, two rows of MCUs
    let rows = order(&[4, 2, 2], 2, &[4, 2, 2]);
    assert_eq!(
        rows,
        vec![
            (2, 0, 0, false),
            (1, 0, 0, false),
            (0, 0, 0, false),
            (0, 1, 1, true),
            (2, 1, 2, false),
            (1, 1, 2, false),
            (0, 2, 2, false),
            (0, 3, 3, true),
        ]
    );
}

#[test]
fn rows_past_the_coded_height_are_skipped() {
    let rows = order(&[4, 2, 2], 2, &[3, 2, 1]);
    assert_eq!(
        rows,
        vec![
            (2, 0, 0, false),
            (1, 0, 0, false),
            (0, 0, 0, false),
            (0, 1, 1, true),
            (1, 1, 2, false),
            (0, 2, 2, false),
        ]
    );
}

#[test]
fn fields_of_a_step() {
    let heights = vec![4, 2, 2];
    let row = RowSpec::get_row_spec_from_index(6, &heights, 2, &heights);
    assert_eq!(row.mcu_row_index, 1);
    assert_eq!(row.min_row_luma_y, 2);
    assert_eq!(row.next_row_luma_y, 4);
    assert_eq!((row.component, row.curr_y, row.luma_y), (0, 2, 2));
    assert!(!row.skip && !row.done);
    let end = RowSpec::get_row_spec_from_index(8, &heights, 2, &heights);
    assert!(end.skip && end.done);
}

#[test]
fn every_step_names_the_next_row_of_its_component() {
    let heights = vec![12, 6, 3, 9];
    let coded = vec![12, 6, 3, 9];
    let mut next = [0i32; 4];
    for index in 0..60 {
        let row = RowSpec::get_row_spec_from_index(index, &heights, 3, &coded);
        assert!(row.component < 4);
        assert_eq!(row.curr_y, next[row.component]);
        assert_eq!(row.luma_y, next[0]);
        assert_eq!(row.skip, row.curr_y >= coded[row.component]);
        next[row.component] += 1;
    }
    assert_eq!(next, [24, 12, 6, 18]);
}
