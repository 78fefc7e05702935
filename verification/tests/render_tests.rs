use procview::render::TreeGlyph::{Blank, Corner, Pass, Tee};
use procview::render::{connector_rows, TreeGlyph};
use procview::spark::SparklineData;

#[test]
fn test_connectors_small_tree() {
    // the flattened sample: root, a first child with one grandchild, then
    // a last child
    let rows = vec![(1usize, 0u32), (2, 2), (3, 1), (2, 2)];
    let glyphs = connector_rows(&rows);
    assert_eq!(glyphs.len(), 4);
    assert_eq!(glyphs[0], vec![Corner]);
    assert_eq!(glyphs[1], vec![Blank, Tee]);
    assert_eq!(glyphs[2], vec![Blank, Pass, Corner]);
    assert_eq!(glyphs[3], vec![Blank, Corner]);
}

#[test]
fn test_connectors_empty() {
    let rows: Vec<(usize, u32)> = Vec::new();
    assert!(connector_rows(&rows).is_empty());
}

#[test]
fn test_sparkline_window() {
    let mut s = SparklineData::new();
    for i in 0..400u64 {
        s.push(i);
    }
    assert_eq!(s.as_slice().len(), 400);
    assert_eq!(s.as_slice()[0], 0);
    // one more sample pushes the oldest one off the front
    s.push(400);
    assert_eq!(s.as_slice().len(), 400);
    assert_eq!(s.as_slice()[0], 1);
    assert_eq!(s.as_slice()[399], 400);
}
