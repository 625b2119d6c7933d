use serial_graph::export::{flatten, gather, rows};

#[test]
fn a_capture_is_dumped_sample_after_sample() {
    let values = vec![[1u8, 2, 3, 4], [5, 6, 7, 8], [9, 10, 11, 12]];
    assert_eq!(flatten(&values), vec![1, 2, 3, 4, 5, 6, 7, 8, 9, 10, 11, 12]);
    assert_eq!(flatten(&Vec::new()), Vec::<u8>::new());
}

#[test]
fn a_dump_is_cut_back_into_samples() {
    let bytes = vec![1u8, 2, 3, 4, 5, 6, 7, 8];
    assert_eq!(gather(&bytes), vec![[1, 2, 3, 4], [5, 6, 7, 8]]);
    // Bytes that make no whole sample are left out.
    let bytes = vec![1u8, 2, 3, 4, 5, 6, 7];
    assert_eq!(gather(&bytes), vec![[1, 2, 3, 4]]);
    assert_eq!(gather(&vec![1u8, 2, 3]), Vec::<[u8; 4]>::new());
    assert_eq!(gather(&Vec::new()), Vec::<[u8; 4]>::new());
}

#[test]
fn dumping_and_cutting_give_the_capture_back() {
    let mut values: Vec<[u8; 4]> = Vec::new();
    let mut state: u32 = 99;
    for _ in 0..1000 {
        state = state.wrapping_mul(1_664_525).wrapping_add(1_013_904_223);
        values.push(state.to_le_bytes());
    }
    assert_eq!(gather(&flatten(&values)), values);
}

#[test]
fn rows_line_channels_up_by_index() {
    let columns = vec![
        vec!["1".to_string(), "2".to_string(), "3".to_string()],
        vec!["10".to_string()],
        vec!["-0.5".to_string(), "1.5".to_string()],
    ];
    // The newest values come first; a comma separates the fields, and a
    // channel that has no value at an index leaves its field empty.
    assert_eq!(
        rows(&columns),
        vec!["3,,".to_string(), "2,,1.5".to_string(), "1,10,-0.5".to_string()]
    );
    let columns = vec![
        vec!["1".to_string(), "2".to_string()],
        vec!["3".to_string()],
    ];
    assert_eq!(rows(&columns), vec!["2,".to_string(), "1,3".to_string()]);
}

#[test]
fn rows_of_nothing_are_none() {
    assert_eq!(rows(&Vec::new()), Vec::<String>::new());
    assert_eq!(rows(&vec![Vec::new(), Vec::new()]), Vec::<String>::new());
    assert_eq!(rows(&vec![vec!["7".to_string()]]), vec!["7".to_string()]);
}
