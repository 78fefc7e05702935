use procview::lines::{get_numlines, get_numlines_from_widths};

#[test]
fn test_boxsize() {
    let text = vec!["hi\n".to_string(), "hey".to_string()];

    let l = get_numlines(&text, 5);
    assert_eq!(l, 2);
}

#[test]
fn test_numlines_wraps_long_line() {
    // a closed 6-byte line on a 5-column viewport takes two rows, and the
    // fold starts from one
    let text = vec!["aaaaaa\n".to_string()];
    assert_eq!(get_numlines(&text, 5), 3);
}

#[test]
fn test_numlines_empty() {
    let text: Vec<String> = Vec::new();
    assert_eq!(get_numlines(&text, 5), 1);
}

#[test]
fn test_numlines_from_widths() {
    // each piece costs one row plus its overflow rows
    let widths = vec![3usize, 12, 0];
    assert_eq!(get_numlines_from_widths(&widths, 5), 1 + 1 + (1 + 2) + 1);
}
