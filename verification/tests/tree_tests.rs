use procview::scroll::NavKey;
use procview::tree::{ProcessRecord, ProcessTree};

fn rec(pid: i32, ppid: i32, name: &str) -> ProcessRecord {
    ProcessRecord { pid, ppid, cmdline: name.to_string() }
}

/// A small host: 1 -> {10, 20}, 10 -> {11, 12}, 20 -> {21}, plus one
/// record whose parent does not exist at all.
fn sample_snapshot() -> Vec<ProcessRecord> {
    vec![
        rec(1, 0, "init"),
        rec(10, 1, "shell"),
        rec(20, 1, "daemon"),
        rec(11, 10, "editor"),
        rec(12, 10, "pager"),
        rec(21, 20, "worker"),
        rec(99, 777, "orphan"),
    ]
}

#[test]
fn test_root_exists() {
    let records = sample_snapshot();
    let tree = ProcessTree::new(&records, None);
    assert!(tree.entries.contains_key(&1));
    assert_eq!(tree.entries.get(&1).unwrap().ppid, 0);
}

#[test]
fn test_flatten_counts_every_entry() {
    let records = sample_snapshot();
    let tree = ProcessTree::new(&records, None);
    let flattened = tree.flatten();
    assert_eq!(flattened.len(), tree.entries.len());
}

#[test]
fn test_flatten_preorder_and_depths() {
    let records = sample_snapshot();
    let tree = ProcessTree::new(&records, None);
    let flattened = tree.flatten();
    let got: Vec<(usize, i32)> = flattened.iter().map(|(d, e)| (*d, e.pid)).collect();
    // pre-order, children in snapshot order, each depth one more than its
    // parent's
    assert_eq!(got, vec![(1, 1), (2, 10), (3, 11), (3, 12), (2, 20), (3, 21)]);
}

#[test]
fn test_orphan_record_is_skipped() {
    let records = sample_snapshot();
    let tree = ProcessTree::new(&records, None);
    assert!(!tree.entries.contains_key(&99));
    assert_eq!(tree.entries.len(), 6);
}

#[test]
fn test_children_and_siblings() {
    let records = sample_snapshot();
    let tree = ProcessTree::new(&records, None);
    let root = tree.entries.get(&1).unwrap();
    assert_eq!(root.children, vec![10, 20]);
    assert_eq!(root.num_siblings, 0);
    let shell = tree.entries.get(&10).unwrap();
    assert_eq!(shell.children, vec![11, 12]);
    assert_eq!(shell.num_siblings, 2);
    assert_eq!(shell.cmdline, "shell");
    let editor = tree.entries.get(&11).unwrap();
    assert_eq!(editor.num_siblings, 2);
    assert!(editor.children.is_empty());
}

#[test]
fn test_prune_retention() {
    // focus F = 11 with ancestor chain [11, 10, 1] and children [111, 112]
    let records = vec![
        rec(1, 0, "init"),
        rec(10, 1, "shell"),
        rec(20, 1, "daemon"),
        rec(11, 10, "editor"),
        rec(12, 10, "pager"),
        rec(111, 11, "lsp"),
        rec(112, 11, "fmt"),
        rec(21, 20, "worker"),
    ];
    let parents = vec![11, 10, 1];
    let tree = ProcessTree::new(&records, Some((&parents, 11)));
    let mut kept: Vec<i32> = tree.entries.keys().cloned().collect();
    kept.sort();
    assert_eq!(kept, vec![1, 10, 11, 111, 112]);
}

#[test]
fn test_prune_keeps_flatten_working() {
    let records = vec![
        rec(1, 0, "init"),
        rec(10, 1, "shell"),
        rec(11, 10, "editor"),
        rec(111, 11, "lsp"),
        rec(20, 1, "daemon"),
    ];
    let parents = vec![11, 10, 1];
    let tree = ProcessTree::new(&records, Some((&parents, 11)));
    let flattened = tree.flatten();
    let got: Vec<(usize, i32)> = flattened.iter().map(|(d, e)| (*d, e.pid)).collect();
    assert_eq!(got, vec![(1, 1), (2, 10), (3, 11), (4, 111)]);
}

#[test]
fn test_selection_recovery() {
    // the focus 11 vanished; its recorded chain was [11, 10, 1]
    let records = vec![rec(1, 0, "init"), rec(10, 1, "shell"), rec(20, 1, "daemon")];
    let tree = ProcessTree::new(&records, None);
    let parents = vec![11, 10, 1];
    // the selection lands on the nearest recorded ancestor still alive,
    // not on the root
    assert_eq!(tree.recover_selection(&parents, 11), 10);
    // with 10 also gone, it falls through to the root
    let records2 = vec![rec(1, 0, "init"), rec(20, 1, "daemon")];
    let tree2 = ProcessTree::new(&records2, None);
    assert_eq!(tree2.recover_selection(&parents, 11), 1);
    // a surviving selection stays put
    assert_eq!(tree.recover_selection(&parents, 20), 20);
}

#[test]
fn test_ancestor_chain() {
    let records = sample_snapshot();
    let tree = ProcessTree::new(&records, None);
    assert_eq!(tree.ancestor_chain(11), vec![11, 10, 1, 1]);
    assert_eq!(tree.ancestor_chain(1), vec![1, 1]);
    // a pid missing from the tree contributes nothing to the walk
    assert_eq!(tree.ancestor_chain(99), vec![99, 1]);
}

#[test]
fn test_move_selection() {
    let records = sample_snapshot();
    let tree = ProcessTree::new(&records, None);
    // order: 1, 10, 11, 12, 20, 21
    assert_eq!(tree.move_selection(11, NavKey::Down), (12, true));
    assert_eq!(tree.move_selection(11, NavKey::Up), (10, true));
    assert_eq!(tree.move_selection(1, NavKey::Up), (1, false));
    // at the last row a movement is still reported but the selection
    // stays
    assert_eq!(tree.move_selection(21, NavKey::Down), (21, true));
    assert_eq!(tree.move_selection(11, NavKey::Other), (11, false));
}
