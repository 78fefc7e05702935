//! Process tree construction from a flat snapshot of the host's processes,
//! with optional pruning to a focus process, pre-order flattening for
//! display, and selection bookkeeping across rebuilds.

use std::collections::HashMap;
use vstd::prelude::*;

verus! {

broadcast use vstd::std_specs::hash::group_hash_axioms;

/// One process as the snapshot source reports it: identity, parentage, and a
/// best-effort display string.  Processes whose metadata could not be read
/// are simply absent from the snapshot.
#[derive(Debug)]
pub struct ProcessRecord {
    /// Process id, unique among live processes.
    pub pid: i32,
    /// Parent process id; `0` only for the root's synthetic parent.
    pub ppid: i32,
    /// Full command line if obtainable, otherwise a short name.
    pub cmdline: String,
}

/// One node of the built tree.
#[derive(Debug)]
pub struct ProcessTreeEntry {
    /// Process id of this node.
    pub pid: i32,
    /// Parent process id; `0` only for the root's synthetic parent.
    pub ppid: i32,
    /// Display string carried over from the snapshot record.
    pub cmdline: String,
    /// How many children the parent of this node has (this node included);
    /// used only for drawing tree connectors.  Zero at the root.
    pub num_siblings: u32,
    /// Child pids in snapshot order.
    pub children: Vec<i32>,
}

/// A rooted process tree: a mapping from pid to entry, always containing the
/// root pid 1, plus a ghost depth assignment that witnesses its shape.
pub struct ProcessTree {
    /// The nodes, keyed by pid.
    pub entries: HashMap<i32, ProcessTreeEntry>,
    /// Ghost: each node's distance from the root along parent links.
    pub depths: Ghost<Map<i32, int>>,
    /// Ghost: an upper bound on every depth, fixed at build time.
    pub depth_bound: Ghost<int>,
}

/// Whether some record of the snapshot carries this pid.
pub open spec fn has_pid(records: Seq<ProcessRecord>, pid: i32) -> bool {
    exists|i: int| 0 <= i < records.len() && records[i].pid == pid
}

/// The index of the record carrying this pid (unique in a well-formed
/// snapshot).
pub open spec fn index_of_pid(records: Seq<ProcessRecord>, pid: i32) -> int {
    choose|i: int| 0 <= i < records.len() && records[i].pid == pid
}

/// The record carrying this pid.
pub open spec fn record_of(records: Seq<ProcessRecord>, pid: i32) -> ProcessRecord {
    records[index_of_pid(records, pid)]
}

/// The stated parent of this pid.
pub open spec fn ppid_of(records: Seq<ProcessRecord>, pid: i32) -> i32 {
    record_of(records, pid).ppid
}

/// The pids of the records among the first `n` whose stated parent is
/// `parent`, in snapshot order.
pub open spec fn children_upto(records: Seq<ProcessRecord>, parent: i32, n: int) -> Seq<i32>
    decreases n,
{
    if n <= 0 {
        Seq::empty()
    } else {
        let prefix = children_upto(records, parent, n - 1);
        if records[n - 1].ppid == parent {
            prefix.push(records[n - 1].pid)
        } else {
            prefix
        }
    }
}

/// The pids of all records whose stated parent is `parent`, in snapshot
/// order: the children the built tree gives that node.
pub open spec fn children_of(records: Seq<ProcessRecord>, parent: i32) -> Seq<i32> {
    children_upto(records, parent, records.len() as int)
}

/// Whether following stated parents from `pid` reaches the root pid 1
/// within `fuel` hops, every intermediate pid having a record.
pub open spec fn reaches_root(records: Seq<ProcessRecord>, pid: i32, fuel: nat) -> bool
    decreases fuel,
{
    if pid == 1 {
        true
    } else if fuel == 0 {
        false
    } else if has_pid(records, pid) {
        reaches_root(records, ppid_of(records, pid), (fuel - 1) as nat)
    } else {
        false
    }
}

/// The pids the full (unpruned) build keeps: those with a record whose
/// parent chain reaches the root.  A chain that reaches the root does so
/// within one hop per record, so the fuel covers every such pid.
pub open spec fn in_tree(records: Seq<ProcessRecord>, pid: i32) -> bool {
    has_pid(records, pid) && reaches_root(records, pid, records.len() as nat)
}

/// What the builder demands of a snapshot: pids are unique and positive,
/// and the root pid 1 is present with its synthetic parent 0.  A snapshot
/// without a root would make construction panic, as the inspector treats a
/// host without an init process as unrecoverable.
pub open spec fn snapshot_wf(records: Seq<ProcessRecord>) -> bool {
    &&& forall|i: int, j: int|
        #![trigger records[i].pid, records[j].pid]
        0 <= i < j < records.len() ==> records[i].pid != records[j].pid
    &&& forall|i: int| 0 <= i < records.len() ==> (#[trigger] records[i]).pid >= 1
    &&& has_pid(records, 1)
    &&& ppid_of(records, 1) == 0
    &&& records.len() <= 0xFFFF_FFFE
}

/// What one built entry holds, as a function of the snapshot alone.
pub open spec fn entry_matches(
    records: Seq<ProcessRecord>,
    pid: i32,
    e: ProcessTreeEntry,
) -> bool {
    &&& e.pid == pid
    &&& e.ppid == ppid_of(records, pid)
    &&& e.cmdline@ == record_of(records, pid).cmdline@
    &&& e.children@ == children_of(records, pid)
    &&& e.num_siblings as int == if pid == 1 {
        0
    } else {
        children_of(records, ppid_of(records, pid)).len() as int
    }
}

/// Structural well-formedness of a pid-to-entry map, witnessed by a depth
/// assignment `d` bounded by `bound`: the root is present at depth zero;
/// every entry records its own pid; child lists repeat no pid; a child
/// present in the map points back at its parent and sits one level deeper;
/// and an entry whose parent is present sits one level below it.  Pruning
/// can orphan an entry (its parent removed), so nothing here forces a
/// parent to be present.
pub open spec fn map_wf(m: Map<i32, ProcessTreeEntry>, d: Map<i32, int>, bound: int) -> bool {
    &&& 0 <= bound <= 0xFFFF_FFFE
    &&& m.contains_key(1)
    &&& m[1].ppid == 0
    &&& d.contains_key(1) && d[1] == 0
    &&& m.dom().finite()
    &&& forall|p: i32| m.contains_key(p) ==> (#[trigger] m[p]).pid == p
    &&& forall|p: i32|
        #[trigger] m.contains_key(p) ==> d.contains_key(p) && 0 <= d[p] <= bound
    &&& forall|p: i32| m.contains_key(p) ==> (#[trigger] m[p]).children@.no_duplicates()
    &&& forall|p: i32, c: i32|
        m.contains_key(p) && #[trigger] m[p].children@.contains(c) && m.contains_key(c)
            ==> c != 1 && m[c].ppid == p && d[c] == d[p] + 1
    &&& forall|p: i32|
        m.contains_key(p) && p != 1 && m.contains_key((#[trigger] m[p]).ppid) ==> d[p] == d[m[p].ppid]
            + 1 && m[p].ppid != p
}

/// Full parent linkage of a pid-to-entry map: every non-root entry's parent
/// is present and lists it among its children.
pub open spec fn map_parent_closed(m: Map<i32, ProcessTreeEntry>) -> bool {
    forall|p: i32|
        m.contains_key(p) && p != 1 ==> m.contains_key((#[trigger] m[p]).ppid)
            && m[m[p].ppid].children@.contains(p)
}

/// The pre-order pid sequence below one node: the node itself, then each
/// child's subtree in list order, children absent from the map skipped.
/// The fuel bounds the recursion; a well-formed tree is never deeper than
/// its depth bound, so the fuel never runs out on one.
pub open spec fn preorder_from(m: Map<i32, ProcessTreeEntry>, pid: i32, fuel: nat) -> Seq<i32>
    decreases fuel, 0nat, 0nat,
{
    if !m.contains_key(pid) {
        Seq::empty()
    } else if fuel == 0 {
        seq![pid]
    } else {
        seq![pid] + preorder_kids(m, m[pid].children@, (fuel - 1) as nat)
    }
}

/// The concatenated pre-order sequences of a list of child pids.
pub open spec fn preorder_kids(m: Map<i32, ProcessTreeEntry>, kids: Seq<i32>, fuel: nat) -> Seq<
    i32,
>
    decreases fuel, 1nat, kids.len(),
{
    if kids.len() == 0 {
        Seq::empty()
    } else {
        preorder_from(m, kids[0], fuel) + preorder_kids(m, kids.drop_first(), fuel)
    }
}

impl ProcessTree {
    /// Structural well-formedness, witnessed by the ghost depth assignment.
    pub open spec fn wf(self) -> bool {
        map_wf(self.entries@, self.depths@, self.depth_bound@)
    }

    /// Full parent linkage, true of unpruned builds.
    pub open spec fn parent_closed(self) -> bool {
        map_parent_closed(self.entries@)
    }

    /// The pre-order pid sequence of the whole tree: what `flatten` walks.
    pub open spec fn order(self) -> Seq<i32> {
        preorder_from(self.entries@, 1, (self.depth_bound@ + 1) as nat)
    }
}

// ---- facts about the snapshot specification functions ----

/// In a well-formed snapshot, the record index chosen for a pid is the only
/// index carrying it.
proof fn lemma_index_unique(records: Seq<ProcessRecord>, i: int)
    requires
        snapshot_wf(records),
        0 <= i < records.len(),
    ensures
        has_pid(records, records[i].pid),
        index_of_pid(records, records[i].pid) == i,
        record_of(records, records[i].pid) == records[i],
{
    assert(has_pid(records, records[i].pid));
    let j = index_of_pid(records, records[i].pid);
    assert(0 <= j < records.len() && records[j].pid == records[i].pid);
    if i < j {
        assert(records[i].pid != records[j].pid);
    }
    if j < i {
        assert(records[j].pid != records[i].pid);
    }
}

proof fn lemma_children_upto_len(records: Seq<ProcessRecord>, parent: i32, n: int)
    requires
        0 <= n <= records.len(),
    ensures
        children_upto(records, parent, n).len() <= n,
    decreases n,
{
    if n > 0 {
        lemma_children_upto_len(records, parent, n - 1);
    }
}

/// Membership in a children list is exactly having a record with that
/// parent.
proof fn lemma_children_upto_mem(records: Seq<ProcessRecord>, parent: i32, n: int)
    requires
        0 <= n <= records.len(),
    ensures
        forall|c: i32|
            children_upto(records, parent, n).contains(c) <==> exists|i: int|
                0 <= i < n && records[i].pid == c && (#[trigger] records[i]).ppid == parent,
    decreases n,
{
    if n > 0 {
        lemma_children_upto_mem(records, parent, n - 1);
        let prefix = children_upto(records, parent, n - 1);
        let full = children_upto(records, parent, n);
        if records[n - 1].ppid == parent {
            assert(full == prefix.push(records[n - 1].pid));
            assert forall|c: i32| full.contains(c) implies exists|i: int|
                0 <= i < n && records[i].pid == c && (#[trigger] records[i]).ppid == parent by {
                if c == records[n - 1].pid {
                    assert(records[n - 1].pid == c && records[n - 1].ppid == parent);
                } else {
                    let k = choose|k: int| 0 <= k < full.len() && full[k] == c;
                    assert(prefix[k] == c);
                    assert(prefix.contains(c));
                }
            }
            assert forall|c: i32|
                (exists|i: int|
                    0 <= i < n && records[i].pid == c && (#[trigger] records[i]).ppid
                        == parent) implies full.contains(c) by {
                let i = choose|i: int|
                    0 <= i < n && records[i].pid == c && (#[trigger] records[i]).ppid == parent;
                if i == n - 1 {
                    assert(full[full.len() - 1] == c);
                } else {
                    assert(prefix.contains(c));
                    let k = choose|k: int| 0 <= k < prefix.len() && prefix[k] == c;
                    assert(full[k] == c);
                }
            }
        } else {
            assert forall|c: i32| full.contains(c) implies prefix.contains(c) by {
                let k = choose|k: int| 0 <= k < full.len() && full[k] == c;
                assert(prefix[k] == c);
            }
            assert forall|c: i32| prefix.contains(c) implies full.contains(c) by {
                let k = choose|k: int| 0 <= k < prefix.len() && prefix[k] == c;
                assert(full[k] == c);
            }
        }
    }
}

/// In a well-formed snapshot no pid appears twice in a children list.
proof fn lemma_children_upto_nodup(records: Seq<ProcessRecord>, parent: i32, n: int)
    requires
        snapshot_wf(records),
        0 <= n <= records.len(),
    ensures
        children_upto(records, parent, n).no_duplicates(),
    decreases n,
{
    if n > 0 {
        lemma_children_upto_nodup(records, parent, n - 1);
        lemma_children_upto_mem(records, parent, n - 1);
        let prefix = children_upto(records, parent, n - 1);
        if records[n - 1].ppid == parent {
            if prefix.contains(records[n - 1].pid) {
                let i = choose|i: int|
                    0 <= i < n - 1 && records[i].pid == records[n - 1].pid && (#[trigger] records[i]).ppid
                        == parent;
                assert(records[i].pid != records[n - 1].pid);
            }
        }
    }
}

/// A child's record states the parent it was collected under.
proof fn lemma_children_ppid(records: Seq<ProcessRecord>, parent: i32, c: i32)
    requires
        snapshot_wf(records),
        children_of(records, parent).contains(c),
    ensures
        has_pid(records, c),
        ppid_of(records, c) == parent,
{
    lemma_children_upto_mem(records, parent, records.len() as int);
    let i = choose|i: int|
        0 <= i < records.len() && records[i].pid == c && (#[trigger] records[i]).ppid == parent;
    lemma_index_unique(records, i);
}

/// A record whose stated parent is `parent` appears in that parent's
/// children list.
proof fn lemma_children_member(records: Seq<ProcessRecord>, i: int)
    requires
        snapshot_wf(records),
        0 <= i < records.len(),
    ensures
        children_of(records, records[i].ppid).contains(records[i].pid),
{
    lemma_children_upto_mem(records, records[i].ppid, records.len() as int);
}

/// More fuel never loses the root.
proof fn lemma_reaches_mono(records: Seq<ProcessRecord>, pid: i32, f1: nat, f2: nat)
    requires
        f1 <= f2,
        reaches_root(records, pid, f1),
    ensures
        reaches_root(records, pid, f2),
    decreases f1,
{
    if pid != 1 {
        lemma_reaches_mono(records, ppid_of(records, pid), (f1 - 1) as nat, (f2 - 1) as nat);
    }
}

/// A set of pids that all occur in the snapshot is no larger than the
/// snapshot.
proof fn lemma_pid_set_card(records: Seq<ProcessRecord>, s: Set<i32>)
    requires
        s.finite(),
        forall|p: i32| #[trigger] s.contains(p) ==> has_pid(records, p),
    ensures
        s.len() <= records.len(),
{
    let pids = records.map_values(|r: ProcessRecord| r.pid);
    assert forall|p: i32| s.contains(p) implies pids.to_set().contains(p) by {
        let i = choose|i: int| 0 <= i < records.len() && records[i].pid == p;
        assert(pids[i] == p);
        assert(pids.contains(p));
    }
    vstd::set_lib::lemma_len_subset(s, pids.to_set());
    pids.lemma_cardinality_of_set();
}

// ---- executable helpers over the snapshot ----

/// Find the record carrying a pid, scanning in snapshot order.
fn find_pid(records: &Vec<ProcessRecord>, pid: i32) -> (r: Option<usize>)
    ensures
        match r {
            Option::Some(i) => i < records@.len() && records@[i as int].pid == pid,
            Option::None => !has_pid(records@, pid),
        },
{
    let n = records.len();
    for i in 0..n
        invariant
            n == records@.len(),
            forall|j: int| 0 <= j < i ==> records@[j].pid != pid,
    {
        if records[i].pid == pid {
            return Some(i);
        }
    }
    None
}

/// Collect the children list of one pid: every record naming it as parent,
/// in snapshot order.
fn collect_children(records: &Vec<ProcessRecord>, parent: i32) -> (v: Vec<i32>)
    ensures
        v@ == children_of(records@, parent),
{
    let n = records.len();
    let mut v: Vec<i32> = Vec::new();
    for i in 0..n
        invariant
            n == records@.len(),
            v@ == children_upto(records@, parent, i as int),
    {
        if records[i].ppid == parent {
            v.push(records[i].pid);
        }
    }
    v
}

/// Linear membership test on a pid list.
fn pid_list_contains(v: &Vec<i32>, x: i32) -> (r: bool)
    ensures
        r == v@.contains(x),
{
    let n = v.len();
    for i in 0..n
        invariant
            n == v@.len(),
            forall|j: int| 0 <= j < i ==> v@[j] != x,
    {
        if v[i] == x {
            return true;
        }
    }
    false
}

/// Build the entry of the record at index `i`, entirely from the snapshot.
fn make_entry(records: &Vec<ProcessRecord>, i: usize) -> (e: ProcessTreeEntry)
    requires
        snapshot_wf(records@),
        i < records@.len(),
    ensures
        entry_matches(records@, records@[i as int].pid, e),
{
    proof {
        lemma_index_unique(records@, i as int);
    }
    let pid = records[i].pid;
    let ppid = records[i].ppid;
    let children = collect_children(records, pid);
    let num_siblings: u32 = if pid == 1 {
        0
    } else {
        let sibs = collect_children(records, ppid);
        proof {
            lemma_children_upto_len(records@, ppid, records@.len() as int);
        }
        sibs.len() as u32
    };
    ProcessTreeEntry { pid, ppid, cmdline: records[i].cmdline.clone(), num_siblings, children }
}

// ---- construction of the full tree ----

/// Everything the builder maintains while it grows the map: the root is in
/// place; every entry is the one the snapshot dictates; depths witness the
/// parent links and stay below the map's size; and every key's parent chain
/// reaches the root within its depth.
spec fn build_inv(records: Seq<ProcessRecord>, m: Map<i32, ProcessTreeEntry>, d: Map<i32, int>) -> bool {
    &&& m.contains_key(1)
    &&& d.contains_key(1) && d[1] == 0
    &&& forall|p: i32| #[trigger] m.contains_key(p) ==> entry_matches(records, p, m[p])
    &&& forall|p: i32|
        #[trigger] m.contains_key(p) ==> d.contains_key(p) && 0 <= d[p] <= m.dom().len() - 1
    &&& forall|p: i32|
        #[trigger] m.contains_key(p) && p != 1 ==> m.contains_key(ppid_of(records, p)) && d[p]
            == d[ppid_of(records, p)] + 1
    &&& forall|p: i32|
        #[trigger] m.contains_key(p) ==> has_pid(records, p) && reaches_root(
            records,
            p,
            d[p] as nat,
        )
}

/// Build the full (unpruned) tree: exactly the records whose parent chain
/// reaches the root become entries, each entry a pure function of the
/// snapshot.
fn build_map(records: &Vec<ProcessRecord>) -> (t: ProcessTree)
    requires
        snapshot_wf(records@),
    ensures
        t.wf(),
        t.parent_closed(),
        t.depth_bound@ == records@.len() as int,
        forall|p: i32| #[trigger] t.entries@.contains_key(p) <==> in_tree(records@, p),
        forall|p: i32|
            #[trigger] t.entries@.contains_key(p) ==> entry_matches(records@, p, t.entries@[p]),
        forall|p: i32, c: i32|
            #![trigger t.entries@.contains_key(p), children_of(records@, p).contains(c)]
            t.entries@.contains_key(p) && children_of(records@, p).contains(c)
                ==> t.entries@.contains_key(c),
{
    let n = records.len();
    let mut entries: HashMap<i32, ProcessTreeEntry> = HashMap::new();
    let ghost mut d: Map<i32, int> = Map::empty();
    let root_idx = find_pid(records, 1).unwrap();
    let root_entry = make_entry(records, root_idx);
    entries.insert(1, root_entry);
    proof {
        d = d.insert(1, 0);
        assert(entries@.dom() =~= Set::empty().insert(1i32));
    }
    let mut pass: usize = 0;
    while pass < n
        invariant
            n == records@.len(),
            snapshot_wf(records@),
            build_inv(records@, entries@, d),
            pass <= n,
            forall|p: i32|
                has_pid(records@, p) && reaches_root(records@, p, pass as nat)
                    ==> #[trigger] entries@.contains_key(p),
        decreases n - pass,
    {
        let mut i: usize = 0;
        while i < n
            invariant
                n == records@.len(),
                snapshot_wf(records@),
                build_inv(records@, entries@, d),
                i <= n,
                pass < n,
                forall|p: i32|
                    has_pid(records@, p) && reaches_root(records@, p, pass as nat)
                        ==> #[trigger] entries@.contains_key(p),
                forall|j: int|
                    0 <= j < i && reaches_root(records@, records@[j].pid, (pass + 1) as nat)
                        ==> entries@.contains_key(#[trigger] records@[j].pid),
            decreases n - i,
        {
            let r_pid = records[i].pid;
            let r_ppid = records[i].ppid;
            proof {
                lemma_index_unique(records@, i as int);
            }
            if r_pid != 1 && !entries.contains_key(&r_pid) && entries.contains_key(&r_ppid) {
                let ghost dom_before = entries@.dom();
                let e = make_entry(records, i);
                proof {
                    d = d.insert(r_pid, d[r_ppid] + 1);
                }
                entries.insert(r_pid, e);
                proof {
                    assert(entries@.dom() =~= dom_before.insert(r_pid));
                    assert(reaches_root(records@, r_pid, d[r_pid] as nat));
                }
            }
            proof {
                if reaches_root(records@, r_pid, (pass + 1) as nat) && !entries@.contains_key(
                    r_pid,
                ) {
                    // The root is always present, so the chain steps to the parent;
                    // the parent is in place from the previous pass, so the branch
                    // above must have inserted this record.
                    assert(r_pid != 1);
                    assert(reaches_root(records@, r_ppid, pass as nat));
                    assert(entries@.contains_key(r_ppid));
                    assert(false);
                }
            }
            i += 1;
        }
        pass += 1;
        proof {
            assert forall|p: i32|
                has_pid(records@, p) && reaches_root(records@, p, pass as nat) implies
                entries@.contains_key(p) by {
                let j = choose|j: int| 0 <= j < records@.len() && records@[j].pid == p;
            };
        }
    }
    let ghost bound = n as int;
    let t = ProcessTree { entries, depths: Ghost(d), depth_bound: Ghost(bound) };
    proof {
        let m = t.entries@;
        lemma_pid_set_card(records@, m.dom());
        assert(m.dom().len() <= n);
        // every key is genuinely in the tree, and conversely
        assert forall|p: i32| #[trigger] m.contains_key(p) implies in_tree(records@, p) by {
            lemma_reaches_mono(records@, p, d[p] as nat, n as nat);
        };
        // well-formedness of the result
        assert forall|p: i32| #[trigger] m.contains_key(p) implies m[p].children@.no_duplicates() by {
            lemma_children_upto_nodup(records@, p, records@.len() as int);
        };
        assert forall|p: i32, c: i32|
            m.contains_key(p) && #[trigger] m[p].children@.contains(c) && m.contains_key(c) implies
            c != 1 && m[c].ppid == p && d[c] == d[p] + 1 by {
            lemma_children_ppid(records@, p, c);
            if c == 1 {
                assert(ppid_of(records@, 1) == 0);
                let ip = choose|ip: int| 0 <= ip < records@.len() && records@[ip].pid == p;
                assert(records@[ip].pid >= 1);
            }
        };
        assert forall|p: i32|
            m.contains_key(p) && p != 1 implies m.contains_key((#[trigger] m[p]).ppid)
            && m[m[p].ppid].children@.contains(p) by {
            let ip = index_of_pid(records@, p);
            lemma_index_unique(records@, ip);
            lemma_children_member(records@, ip);
        };
        // every child of a kept node is kept
        assert forall|p: i32, c: i32|
            #![trigger m.contains_key(p), children_of(records@, p).contains(c)]
            m.contains_key(p) && children_of(records@, p).contains(c) implies m.contains_key(
            c,
        ) by {
            lemma_children_ppid(records@, p, c);
            if c == 1 {
                let ip = choose|ip: int| 0 <= ip < records@.len() && records@[ip].pid == p;
                assert(records@[ip].pid >= 1);
            }
            assert(reaches_root(records@, c, (d[p] + 1) as nat));
            lemma_reaches_mono(records@, c, (d[p] + 1) as nat, n as nat);
        };
    }
    t
}

// ---- flattening ----

/// One row of the flattened tree stands for one pid: the entry reference
/// points at that pid's entry, and the printed depth is one more than its
/// distance from the root.
pub open spec fn row_matches(
    m: Map<i32, ProcessTreeEntry>,
    d: Map<i32, int>,
    row: (usize, &ProcessTreeEntry),
    pid: i32,
) -> bool {
    &&& m.contains_key(pid)
    &&& *row.1 == m[pid]
    &&& row.0 as int == d[pid] + 1
}

/// Appending one child to a list appends its subtree to the list's walk.
proof fn lemma_preorder_kids_snoc(m: Map<i32, ProcessTreeEntry>, s: Seq<i32>, c: i32, fuel: nat)
    ensures
        preorder_kids(m, s.push(c), fuel) == preorder_kids(m, s, fuel) + preorder_from(
            m,
            c,
            fuel,
        ),
    decreases s.len(),
{
    if s.len() == 0 {
        assert(s.push(c)[0] == c);
        assert(s.push(c).drop_first() =~= Seq::<i32>::empty());
        assert(preorder_kids(m, s.push(c), fuel) == preorder_from(m, c, fuel) + preorder_kids(
            m,
            Seq::<i32>::empty(),
            fuel,
        ));
        assert(preorder_kids(m, Seq::<i32>::empty(), fuel) == Seq::<i32>::empty());
        assert(preorder_kids(m, s, fuel) == Seq::<i32>::empty());
        assert(preorder_from(m, c, fuel) + Seq::<i32>::empty() =~= preorder_from(m, c, fuel));
        assert(Seq::<i32>::empty() + preorder_from(m, c, fuel) =~= preorder_from(m, c, fuel));
    } else {
        assert(s.push(c)[0] == s[0]);
        assert(s.push(c).drop_first() =~= s.drop_first().push(c));
        lemma_preorder_kids_snoc(m, s.drop_first(), c, fuel);
        assert(preorder_kids(m, s.push(c), fuel) == preorder_from(m, s[0], fuel) + (preorder_kids(
            m,
            s.drop_first(),
            fuel,
        ) + preorder_from(m, c, fuel)));
        assert(preorder_from(m, s[0], fuel) + (preorder_kids(m, s.drop_first(), fuel)
            + preorder_from(m, c, fuel)) =~= (preorder_from(m, s[0], fuel) + preorder_kids(
            m,
            s.drop_first(),
            fuel,
        )) + preorder_from(m, c, fuel));
    }
}

// ---- pruning ----

/// The pids the pruning walk visits: starting at the focus, the stated
/// parent of every pid that still has a record, one hop per unit of fuel.
/// A focus whose chain reaches the root contributes its whole ancestor
/// chain, the root's synthetic parent 0 included.
pub open spec fn walk_parents(records: Seq<ProcessRecord>, pid: i32, fuel: nat) -> Set<i32>
    decreases fuel,
{
    if fuel == 0 || !has_pid(records, pid) {
        Set::empty()
    } else {
        walk_parents(records, ppid_of(records, pid), (fuel - 1) as nat).insert(
            ppid_of(records, pid),
        )
    }
}

/// Everything a pruned build keeps: the cached ancestor pids, the focus
/// itself, its direct children in the fresh snapshot, and whatever the
/// parent walk from the focus visits.
pub open spec fn keep_set(records: Seq<ProcessRecord>, parents: Seq<i32>, focus_pid: i32) -> Set<
    i32,
> {
    Set::new(
        |x: i32|
            parents.contains(x) || x == focus_pid || children_of(records, focus_pid).contains(x)
                || walk_parents(records, focus_pid, records.len() as nat).contains(x),
    )
}

proof fn lemma_push_contains(s: Seq<i32>, e: i32, x: i32)
    ensures
        s.push(e).contains(x) <==> s.contains(x) || x == e,
{
    if s.push(e).contains(x) {
        let k = choose|k: int| 0 <= k < s.push(e).len() && s.push(e)[k] == x;
        if k < s.len() {
            assert(s[k] == x);
        }
    }
    if s.contains(x) {
        let k = choose|k: int| 0 <= k < s.len() && s[k] == x;
        assert(s.push(e)[k] == x);
    }
    if x == e {
        assert(s.push(e)[s.len() as int] == x);
    }
}

proof fn lemma_concat_contains(a: Seq<i32>, b: Seq<i32>, x: i32)
    ensures
        (a + b).contains(x) <==> a.contains(x) || b.contains(x),
{
    if (a + b).contains(x) {
        let k = choose|k: int| 0 <= k < (a + b).len() && (a + b)[k] == x;
        if k < a.len() {
            assert(a[k] == x);
        } else {
            assert(b[k - a.len()] == x);
        }
    }
    if a.contains(x) {
        let k = choose|k: int| 0 <= k < a.len() && a[k] == x;
        assert((a + b)[k] == x);
    }
    if b.contains(x) {
        let k = choose|k: int| 0 <= k < b.len() && b[k] == x;
        assert((a + b)[a.len() + k] == x);
    }
}

/// Append a whole pid list.
fn push_all(dst: &mut Vec<i32>, src: &Vec<i32>)
    ensures
        final(dst)@ == old(dst)@ + src@,
{
    let ghost dst0 = old(dst)@;
    let n = src.len();
    for i in 0..n
        invariant
            n == src@.len(),
            dst@ == dst0 + src@.take(i as int),
    {
        dst.push(src[i]);
        proof {
            assert(src@.take(i + 1 as int) =~= src@.take(i as int).push(src@[i as int]));
            assert(dst@ =~= dst0 + src@.take(i + 1 as int));
        }
    }
    proof {
        assert(src@.take(n as int) =~= src@);
    }
}

/// Walk stated parents upward from the focus, collecting each parent pid,
/// stopping at a pid with no record; the walk gives up after one hop per
/// record, which covers every chain that ever ends.
fn walk_parent_chain(records: &Vec<ProcessRecord>, focus_pid: i32) -> (v: Vec<i32>)
    requires
        snapshot_wf(records@),
    ensures
        forall|x: i32|
            #[trigger] v@.contains(x) <==> walk_parents(
                records@,
                focus_pid,
                records@.len() as nat,
            ).contains(x),
{
    let n = records.len();
    let mut v: Vec<i32> = Vec::new();
    let mut cur = focus_pid;
    let mut steps: usize = 0;
    let ghost mut fuel_left: nat = n as nat;
    while steps < n
        invariant
            n == records@.len(),
            snapshot_wf(records@),
            steps <= n,
            fuel_left == (n - steps) as nat,
            forall|x: i32|
                walk_parents(records@, focus_pid, n as nat).contains(x) <==> #[trigger] v@.contains(
                    x,
                ) || walk_parents(records@, cur, fuel_left).contains(x),
        decreases n - steps,
    {
        let found = find_pid(records, cur);
        match found {
            Some(i) => {
                proof {
                    lemma_index_unique(records@, i as int);
                }
                let pp = records[i].ppid;
                let ghost v_before = v@;
                v.push(pp);
                proof {
                    assert(records@[i as int].pid == cur);
                    assert(has_pid(records@, cur));
                    assert(ppid_of(records@, cur) == pp);
                    assert(walk_parents(records@, cur, fuel_left) == walk_parents(
                        records@,
                        pp,
                        (fuel_left - 1) as nat,
                    ).insert(pp));
                    assert forall|x: i32|
                        walk_parents(records@, focus_pid, n as nat).contains(x) <==> #[trigger] v@.contains(
                            x,
                        ) || walk_parents(records@, pp, (fuel_left - 1) as nat).contains(x) by {
                        lemma_push_contains(v_before, pp, x);
                    }
                    fuel_left = (fuel_left - 1) as nat;
                }
                cur = pp;
            },
            None => {
                return v;
            },
        }
        steps += 1;
    }
    v
}

/// The pid list a pruned rebuild retains, assembled as the cached parents,
/// the focus, its fresh children, and the upward walk.
fn keep_pids(records: &Vec<ProcessRecord>, parents: &Vec<i32>, focus_pid: i32) -> (v: Vec<i32>)
    requires
        snapshot_wf(records@),
    ensures
        forall|x: i32|
            #[trigger] v@.contains(x) <==> keep_set(records@, parents@, focus_pid).contains(x),
{
    let mut v: Vec<i32> = Vec::new();
    push_all(&mut v, parents);
    let ghost v1 = v@;
    v.push(focus_pid);
    let kids = collect_children(records, focus_pid);
    push_all(&mut v, &kids);
    let walk = walk_parent_chain(records, focus_pid);
    push_all(&mut v, &walk);
    proof {
        assert(v1 =~= Seq::<i32>::empty() + parents@);
        assert forall|x: i32|
            #[trigger] v@.contains(x) <==> keep_set(records@, parents@, focus_pid).contains(
                x,
            ) by {
            lemma_concat_contains(v1.push(focus_pid) + kids@, walk@, x);
            lemma_concat_contains(v1.push(focus_pid), kids@, x);
            lemma_push_contains(v1, focus_pid, x);
            lemma_concat_contains(Seq::<i32>::empty(), parents@, x);
        }
    }
    v
}

impl ProcessTree {
    /// Build a tree from a flat snapshot of the host's processes.
    ///
    /// With no focus, the tree holds every record whose parent chain
    /// reaches the root pid 1; records orphaned by mid-scan churn are
    /// silently omitted.  With a focus, the tree is pruned to the cached
    /// ancestor pids, the focus, its direct children, and the ancestors
    /// found by walking the fresh snapshot upward from the focus; the
    /// cached list must name the root, which is what keeps the root in
    /// every pruned tree.
    pub fn new(records: &Vec<ProcessRecord>, focus: Option<(&Vec<i32>, i32)>) -> (t: ProcessTree)
        requires
            snapshot_wf(records@),
            match focus {
                Option::Some((parents, _)) => parents@.contains(1),
                Option::None => true,
            },
        ensures
            t.wf(),
            t.entries@.contains_key(1),
            t.depth_bound@ == records@.len() as int,
            forall|p: i32|
                #[trigger] t.entries@.contains_key(p) ==> entry_matches(
                    records@,
                    p,
                    t.entries@[p],
                ),
            match focus {
                Option::None => {
                    &&& t.parent_closed()
                    &&& forall|p: i32| #[trigger] t.entries@.contains_key(p) <==> in_tree(records@, p)
                    &&& forall|p: i32, c: i32|
                        #![trigger t.entries@.contains_key(p), children_of(records@, p).contains(c)]
                        t.entries@.contains_key(p) && children_of(records@, p).contains(c)
                            ==> t.entries@.contains_key(c)
                },
                Option::Some((parents, f)) => forall|p: i32|
                    #[trigger] t.entries@.contains_key(p) <==> in_tree(records@, p) && keep_set(
                        records@,
                        parents@,
                        f,
                    ).contains(p),
            },
    {
        let full = build_map(records);
        match focus {
            None => full,
            Some((parents, focus_pid)) => {
                let keep = keep_pids(records, parents, focus_pid);
                let ghost old_m = full.entries@;
                let ghost d = full.depths@;
                let ghost bound = full.depth_bound@;
                let ghost kset = keep_set(records@, parents@, focus_pid);
                let mut entries = full.entries;
                let mut kept: HashMap<i32, ProcessTreeEntry> = HashMap::new();
                let n = records.len();
                for i in 0..n
                    invariant
                        n == records@.len(),
                        snapshot_wf(records@),
                        kset == keep_set(records@, parents@, focus_pid),
                        forall|x: i32| #[trigger] keep@.contains(x) <==> kset.contains(x),
                        forall|p: i32| #[trigger] old_m.contains_key(p) ==> has_pid(records@, p),
                        forall|p: i32|
                            #[trigger] kept@.contains_key(p) <==> old_m.contains_key(p)
                                && kset.contains(p) && (exists|j: int|
                                0 <= j < i && records@[j].pid == p),
                        forall|p: i32|
                            #[trigger] kept@.contains_key(p) ==> kept@[p] == old_m[p],
                        forall|p: i32|
                            #[trigger] entries@.contains_key(p) <==> old_m.contains_key(p)
                                && !kept@.contains_key(p),
                        forall|p: i32|
                            #[trigger] entries@.contains_key(p) ==> entries@[p] == old_m[p],
                {
                    let pid = records[i].pid;
                    proof {
                        lemma_index_unique(records@, i as int);
                    }
                    if pid_list_contains(&keep, pid) {
                        match entries.remove(&pid) {
                            Some(e) => {
                                kept.insert(pid, e);
                            },
                            None => {},
                        }
                    }
                }
                proof {
                    // everything that survives was seen at its own record
                    assert forall|p: i32|
                        old_m.contains_key(p) && kset.contains(p) implies #[trigger] kept@.contains_key(
                        p,
                    ) by {
                        let j = choose|j: int| 0 <= j < records@.len() && records@[j].pid == p;
                    }
                    // the root is cached, so it is always retained
                    assert(kset.contains(1i32));
                    assert(kept@.contains_key(1i32));
                    // well-formedness restricts clause by clause
                    assert forall|p: i32, c: i32|
                        kept@.contains_key(p) && #[trigger] kept@[p].children@.contains(c)
                            && kept@.contains_key(c) implies c != 1 && kept@[c].ppid == p
                        && d[c] == d[p] + 1 by {
                        assert(old_m[p].children@.contains(c));
                    }
                    assert forall|p: i32|
                        kept@.contains_key(p) && p != 1 && kept@.contains_key(
                            (#[trigger] kept@[p]).ppid,
                        ) implies d[p] == d[kept@[p].ppid] + 1 && kept@[p].ppid != p by {
                        assert(old_m.contains_key(old_m[p].ppid));
                    }
                }
                ProcessTree { entries: kept, depths: Ghost(d), depth_bound: Ghost(bound) }
            },
        }
    }
}

// ---- how much fuel a chain really needs ----

/// Any pid that reaches the root does so at some least fuel.
proof fn lemma_reaches_min(records: Seq<ProcessRecord>, p: i32, fuel: nat)
    requires
        reaches_root(records, p, fuel),
    ensures
        exists|k: nat|
            k <= fuel && #[trigger] reaches_root(records, p, k) && (k == 0 || !reaches_root(
                records,
                p,
                (k - 1) as nat,
            )),
    decreases fuel,
{
    if fuel == 0 {
        assert(reaches_root(records, p, 0nat));
    } else if !reaches_root(records, p, (fuel - 1) as nat) {
        assert(reaches_root(records, p, fuel));
    } else {
        lemma_reaches_min(records, p, (fuel - 1) as nat);
    }
}

/// A chain that first reaches the root at fuel `k` passes through `k + 1`
/// distinct recorded pids: the minimal fuel strictly decreases along it,
/// so no pid repeats.
proof fn chain_pids(records: Seq<ProcessRecord>, p: i32, k: nat) -> (s: Set<i32>)
    requires
        snapshot_wf(records),
        reaches_root(records, p, k),
        k == 0 || !reaches_root(records, p, (k - 1) as nat),
    ensures
        s.finite(),
        s.len() == k + 1,
        forall|x: i32| #[trigger] s.contains(x) ==> has_pid(records, x) && reaches_root(
            records,
            x,
            k,
        ),
    decreases k,
{
    if k == 0 {
        assert(p == 1);
        let s = Set::empty().insert(1i32);
        assert(reaches_root(records, 1i32, 0nat));
        s
    } else {
        assert(p != 1);
        let pp = ppid_of(records, p);
        assert(has_pid(records, p));
        assert(reaches_root(records, pp, (k - 1) as nat));
        if k >= 2 && reaches_root(records, pp, (k - 2) as nat) {
            assert(reaches_root(records, p, (k - 1) as nat));
            assert(false);
        }
        let sub = chain_pids(records, pp, (k - 1) as nat);
        if sub.contains(p) {
            assert(reaches_root(records, p, (k - 1) as nat));
            assert(false);
        }
        assert forall|x: i32| #[trigger] sub.insert(p).contains(x) implies has_pid(records, x)
            && reaches_root(records, x, k) by {
            if x == p {
            } else {
                lemma_reaches_mono(records, x, (k - 1) as nat, k);
            }
        }
        sub.insert(p)
    }
}

/// A chain that ever reaches the root reaches it within one hop per record
/// but the last: its pids are distinct, and there are only so many records.
proof fn lemma_reaches_tighten(records: Seq<ProcessRecord>, p: i32, fuel: nat)
    requires
        snapshot_wf(records),
        reaches_root(records, p, fuel),
    ensures
        reaches_root(records, p, (records.len() - 1) as nat),
{
    lemma_reaches_min(records, p, fuel);
    let k = choose|k: nat|
        k <= fuel && #[trigger] reaches_root(records, p, k) && (k == 0 || !reaches_root(
            records,
            p,
            (k - 1) as nat,
        ));
    let s = chain_pids(records, p, k);
    lemma_pid_set_card(records, s);
    assert(k + 1 <= records.len());
    lemma_reaches_mono(records, p, k, (records.len() - 1) as nat);
}

/// A direct child of a pid that is in the tree is in the tree as well.
proof fn lemma_child_in_tree(records: Seq<ProcessRecord>, f: i32, c: i32)
    requires
        snapshot_wf(records),
        in_tree(records, f),
        children_of(records, f).contains(c),
    ensures
        in_tree(records, c),
{
    lemma_children_ppid(records, f, c);
    if c == 1 {
        let i = index_of_pid(records, f);
        assert(has_pid(records, f));
        assert(0 <= i < records.len() && records[i].pid == f);
        assert(f >= 1);
        assert(ppid_of(records, 1) == 0);
        assert(false);
    }
    lemma_reaches_tighten(records, f, records.len() as nat);
    assert(reaches_root(records, c, records.len() as nat));
}

// ---- the exact shape of a pruned tree ----

/// The ancestor chain of a pid as a set: the pid itself and, while records
/// last, each stated parent in turn, ending at the root.
pub open spec fn chain_set(records: Seq<ProcessRecord>, pid: i32, fuel: nat) -> Set<i32>
    decreases fuel,
{
    if pid == 1 {
        Set::empty().insert(1i32)
    } else if fuel == 0 || !has_pid(records, pid) {
        Set::empty().insert(pid)
    } else {
        chain_set(records, ppid_of(records, pid), (fuel - 1) as nat).insert(pid)
    }
}

proof fn lemma_chain_self(records: Seq<ProcessRecord>, pid: i32, fuel: nat)
    ensures
        chain_set(records, pid, fuel).contains(pid),
    decreases fuel,
{
}

/// Every pid on the chain of an in-tree pid is itself in the tree.
proof fn lemma_chain_in_tree(records: Seq<ProcessRecord>, p: i32, fuel: nat)
    requires
        snapshot_wf(records),
        reaches_root(records, p, fuel),
        fuel <= records.len(),
        has_pid(records, p) || p == 1,
    ensures
        forall|x: i32| #[trigger] chain_set(records, p, fuel).contains(x) ==> in_tree(records, x),
    decreases fuel,
{
    if p == 1 {
        assert(in_tree(records, 1));
    } else {
        let pp = ppid_of(records, p);
        assert(fuel > 0);
        assert(has_pid(records, p));
        assert(reaches_root(records, pp, (fuel - 1) as nat));
        if pp != 1 {
            assert(has_pid(records, pp));
        }
        lemma_chain_in_tree(records, pp, (fuel - 1) as nat);
        assert forall|x: i32| #[trigger] chain_set(records, p, fuel).contains(x) implies in_tree(
            records,
            x,
        ) by {
            if x == p {
                lemma_reaches_mono(records, p, fuel, records.len() as nat);
            } else {
                assert(chain_set(records, pp, (fuel - 1) as nat).contains(x));
            }
        }
    }
}

/// The pruning walk visits only the chain of its focus, beside the root's
/// synthetic parent 0.
proof fn lemma_walk_in_chain(records: Seq<ProcessRecord>, p: i32, fuel: nat)
    requires
        snapshot_wf(records),
    ensures
        forall|x: i32|
            #[trigger] walk_parents(records, p, fuel).contains(x) ==> x == 0 || chain_set(
                records,
                p,
                fuel,
            ).contains(x),
    decreases fuel,
{
    if fuel > 0 && has_pid(records, p) {
        let pp = ppid_of(records, p);
        lemma_walk_in_chain(records, pp, (fuel - 1) as nat);
        assert forall|x: i32| #[trigger] walk_parents(records, p, fuel).contains(x) implies x == 0
            || chain_set(records, p, fuel).contains(x) by {
            if p == 1 {
                assert(pp == 0);
                if x != 0 {
                    assert(walk_parents(records, 0i32, (fuel - 1) as nat).contains(x));
                    let i = index_of_pid(records, 0i32);
                    if has_pid(records, 0i32) {
                        assert(records[index_of_pid(records, 0i32)].pid >= 1);
                    }
                    assert(!has_pid(records, 0i32));
                    assert(false);
                }
            } else {
                if x == pp {
                    lemma_chain_self(records, pp, (fuel - 1) as nat);
                } else if x != 0 {
                    assert(walk_parents(records, pp, (fuel - 1) as nat).contains(x));
                    assert(chain_set(records, pp, (fuel - 1) as nat).contains(x));
                }
            }
        }
    }
}

/// Law of pruning retention: rebuilt around a live focus whose cached
/// ancestor list names exactly its chain (focus and root included), the
/// pruned tree keeps exactly that chain plus the focus's direct children
/// in the fresh snapshot — nothing more.
pub proof fn lemma_prune_retention(
    records: Seq<ProcessRecord>,
    parents: Seq<i32>,
    f: i32,
    t: ProcessTree,
)
    requires
        snapshot_wf(records),
        in_tree(records, f),
        forall|x: i32|
            #[trigger] parents.contains(x) <==> chain_set(
                records,
                f,
                records.len() as nat,
            ).contains(x),
        forall|p: i32|
            #[trigger] t.entries@.contains_key(p) <==> in_tree(records, p) && keep_set(
                records,
                parents,
                f,
            ).contains(p),
    ensures
        forall|p: i32|
            #[trigger] t.entries@.contains_key(p) <==> parents.contains(p) || children_of(
                records,
                f,
            ).contains(p),
{
    let n = records.len() as nat;
    lemma_chain_in_tree(records, f, n);
    lemma_walk_in_chain(records, f, n);
    lemma_chain_self(records, f, n);
    assert forall|p: i32|
        parents.contains(p) || children_of(records, f).contains(p) implies #[trigger] t.entries@.contains_key(
        p,
    ) by {
        if parents.contains(p) {
            assert(chain_set(records, f, n).contains(p));
            assert(in_tree(records, p));
            assert(keep_set(records, parents, f).contains(p));
        } else {
            lemma_child_in_tree(records, f, p);
            assert(keep_set(records, parents, f).contains(p));
        }
    }
    assert forall|p: i32|
        #[trigger] t.entries@.contains_key(p) implies parents.contains(p) || children_of(
        records,
        f,
    ).contains(p) by {
        assert(in_tree(records, p) && keep_set(records, parents, f).contains(p));
        if !parents.contains(p) && !children_of(records, f).contains(p) {
            if p == f {
                assert(parents.contains(f));
            } else {
                assert(walk_parents(records, f, n).contains(p));
                if p == 0 {
                    assert(has_pid(records, 0i32));
                    assert(records[index_of_pid(records, 0i32)].pid >= 1);
                } else {
                    assert(chain_set(records, f, n).contains(p));
                }
            }
            assert(false);
        }
    }
}

// ---- selection across rebuilds ----

/// The first pid of the list that is present in the map, or the fallback
/// if none is.
pub open spec fn first_present(
    m: Map<i32, ProcessTreeEntry>,
    parents: Seq<i32>,
    fallback: i32,
) -> i32
    decreases parents.len(),
{
    if parents.len() == 0 {
        fallback
    } else if m.contains_key(parents[0]) {
        parents[0]
    } else {
        first_present(m, parents.drop_first(), fallback)
    }
}

/// What selection recovery yields: the selected pid if it survived the
/// rebuild, otherwise the first cached ancestor that did, otherwise the
/// selected pid unchanged.
pub open spec fn recovered_selection(
    m: Map<i32, ProcessTreeEntry>,
    parents: Seq<i32>,
    selected: i32,
) -> i32 {
    if m.contains_key(selected) {
        selected
    } else {
        first_present(m, parents, selected)
    }
}

/// The parent pids recorded while walking up from a pid through the map:
/// each present entry contributes its `ppid`, the walk stopping at the
/// root, at a missing entry, or at a nonpositive pid.
pub open spec fn up_chain(m: Map<i32, ProcessTreeEntry>, pid: i32, fuel: nat) -> Seq<i32>
    decreases fuel,
{
    if fuel == 0 || pid <= 1 || !m.contains_key(pid) {
        Seq::empty()
    } else {
        seq![m[pid].ppid] + up_chain(m, m[pid].ppid, (fuel - 1) as nat)
    }
}

impl ProcessTree {
    /// Law of selection recovery: after a rebuild, a vanished selection
    /// falls back to the first of its previously recorded ancestors that
    /// still exists, walking the recorded chain in order, and stays where
    /// it was only if every recorded ancestor is gone too.
    pub fn recover_selection(&self, parents: &Vec<i32>, selected: i32) -> (r: i32)
        ensures
            r == recovered_selection(self.entries@, parents@, selected),
    {
        if self.entries.contains_key(&selected) {
            return selected;
        }
        let n = parents.len();
        proof {
            assert(parents@.skip(0) =~= parents@);
        }
        for i in 0..n
            invariant
                n == parents@.len(),
                !self.entries@.contains_key(selected),
                first_present(self.entries@, parents@, selected) == first_present(
                    self.entries@,
                    parents@.skip(i as int),
                    selected,
                ),
        {
            let p = parents[i];
            proof {
                assert(parents@.skip(i as int)[0] == p);
            }
            if self.entries.contains_key(&p) {
                return p;
            }
            proof {
                assert(parents@.skip(i as int).drop_first() =~= parents@.skip(i + 1 as int));
            }
        }
        proof {
            assert(parents@.skip(n as int) =~= Seq::<i32>::empty());
        }
        selected
    }

    /// Record the selected pid's ancestor chain, bottom up: the selection
    /// itself, then the parent of every entry found while walking upward,
    /// and finally the root pid — appended even when the walk already
    /// reached it, so the root always closes the list.
    pub fn ancestor_chain(&self, selected: i32) -> (v: Vec<i32>)
        requires
            self.wf(),
        ensures
            v@ == seq![selected] + up_chain(
                self.entries@,
                selected,
                (self.depth_bound@ + 2) as nat,
            ) + seq![1i32],
    {
        let ghost m = self.entries@;
        let ghost d = self.depths@;
        let ghost full_fuel = (self.depth_bound@ + 2) as nat;
        let mut v: Vec<i32> = Vec::new();
        v.push(selected);
        let mut pid = selected;
        let mut done = false;
        let ghost mut fuel_left: nat = full_fuel;
        while !done && pid > 1
            invariant
                self.wf(),
                m == self.entries@,
                d == self.depths@,
                seq![selected] + up_chain(m, selected, full_fuel) == v@ + up_chain(
                    m,
                    pid,
                    fuel_left,
                ),
                done ==> !m.contains_key(pid),
                m.contains_key(pid) && pid > 1 ==> fuel_left >= d[pid] + 2,
                fuel_left >= 1,
            decreases fuel_left, (if done { 0int } else { 1int }),
        {
            let got = self.entries.get(&pid);
            match got {
                Some(e) => {
                    let pp = e.ppid;
                    let ghost v_before = v@;
                    v.push(pp);
                    proof {
                        assert(up_chain(m, pid, fuel_left) == seq![pp] + up_chain(
                            m,
                            pp,
                            (fuel_left - 1) as nat,
                        ));
                        assert(v_before + (seq![pp] + up_chain(m, pp, (fuel_left - 1) as nat))
                            =~= (v_before + seq![pp]) + up_chain(m, pp, (fuel_left - 1) as nat));
                        assert(v_before.push(pp) =~= v_before + seq![pp]);
                        if m.contains_key(pp) && pp > 1 {
                            assert(d[pid] == d[pp] + 1);
                        }
                        fuel_left = (fuel_left - 1) as nat;
                    }
                    pid = pp;
                },
                None => {
                    done = true;
                },
            }
        }
        proof {
            assert(up_chain(m, pid, fuel_left) =~= Seq::<i32>::empty());
            assert(v@ =~= seq![selected] + up_chain(m, selected, full_fuel));
        }
        v.push(1);
        proof {
            assert(v@ =~= seq![selected] + up_chain(m, selected, full_fuel) + seq![1i32]);
        }
        v
    }

    /// Move the selection one row through the flattened display order.
    /// `Up` steps back a row and reports movement unless already at the
    /// top; `Down` always reports movement even at the last row, where
    /// the selection nevertheless stays put; any other key is a no-op.
    pub fn move_selection(&self, selected: i32, key: crate::scroll::NavKey) -> (r: (i32, bool))
        requires
            self.wf(),
            self.order().contains(selected),
        ensures
            ({
                let ord = self.order();
                let idx = ord.index_of_first(selected).unwrap();
                match key {
                    crate::scroll::NavKey::Up => if idx > 0 {
                        r == (ord[idx - 1], true)
                    } else {
                        r == (selected, false)
                    },
                    crate::scroll::NavKey::Down => r.1 == true && r.0 == if idx + 1
                        < ord.len() {
                        ord[idx + 1]
                    } else {
                        selected
                    },
                    _ => r == (selected, false),
                }
            }),
    {
        proof {
            self.order().index_of_first_ensures(selected);
        }
        let ghost ord = self.order();
        let ghost idx = ord.index_of_first(selected).unwrap();
        let fl = self.flatten();
        let n = fl.len();
        let mut i: usize = 0;
        while i < n && fl[i].1.pid != selected
            invariant
                self.wf(),
                ord == self.order(),
                n == fl@.len(),
                n == ord.len(),
                i <= n,
                forall|k: int|
                    0 <= k < n ==> row_matches(self.entries@, self.depths@, #[trigger] fl@[k], ord[k]),
                forall|k: int| 0 <= k < i ==> ord[k] != selected,
                0 <= idx < ord.len() && ord[idx] == selected,
                forall|k: int| 0 <= k < idx ==> ord[k] != selected,
            decreases n - i,
        {
            proof {
                assert(fl@[i as int].1.pid == ord[i as int]);
            }
            i += 1;
        }
        proof {
            if i < n {
                assert(fl@[i as int].1.pid == ord[i as int]);
            }
            assert(i as int == idx);
        }
        match key {
            crate::scroll::NavKey::Up => {
                if i > 0 {
                    let row = fl[i - 1];
                    proof {
                        assert(row.1.pid == ord[i - 1 as int]);
                    }
                    (row.1.pid, true)
                } else {
                    (selected, false)
                }
            },
            crate::scroll::NavKey::Down => {
                if i + 1 < n {
                    let row = fl[i + 1];
                    proof {
                        assert(row.1.pid == ord[i + 1 as int]);
                    }
                    (row.1.pid, true)
                } else {
                    (selected, true)
                }
            },
            _ => (selected, false),
        }
    }
}

// ---- completeness of the pre-order walk ----

/// The ancestor `k` parent-hops above `pid`.
spec fn anc_up(m: Map<i32, ProcessTreeEntry>, pid: i32, k: nat) -> i32
    decreases k,
{
    if k == 0 {
        pid
    } else {
        anc_up(m, m[pid].ppid, (k - 1) as nat)
    }
}

/// Whether `q` lies in the subtree rooted at `p`: it is present, no
/// shallower than `p`, and its ancestor at `p`'s depth is `p` itself.
spec fn in_subtree(m: Map<i32, ProcessTreeEntry>, d: Map<i32, int>, p: i32, q: i32) -> bool {
    &&& m.contains_key(q)
    &&& d[q] >= d[p]
    &&& anc_up(m, q, (d[q] - d[p]) as nat) == p
}

proof fn lemma_anc_up_compose(m: Map<i32, ProcessTreeEntry>, q: i32, a: nat, b: nat)
    ensures
        anc_up(m, q, a + b) == anc_up(m, anc_up(m, q, a), b),
    decreases a,
{
    if a > 0 {
        lemma_anc_up_compose(m, m[q].ppid, (a - 1) as nat, b);
        assert((a + b - 1) as nat == (a - 1) as nat + b);
    }
}

/// Walking up from a present node stays in the map, one level shallower
/// per hop.
proof fn lemma_anc_in_dom(
    m: Map<i32, ProcessTreeEntry>,
    d: Map<i32, int>,
    bound: int,
    q: i32,
    k: nat,
)
    requires
        map_wf(m, d, bound),
        map_parent_closed(m),
        m.contains_key(q),
        k <= d[q],
    ensures
        m.contains_key(anc_up(m, q, k)),
        d[anc_up(m, q, k)] == d[q] - k,
    decreases k,
{
    if k > 0 {
        assert(q != 1);
        lemma_anc_in_dom(m, d, bound, m[q].ppid, (k - 1) as nat);
    }
}

/// Every present node's topmost ancestor is the root.
proof fn lemma_anc_up_root(m: Map<i32, ProcessTreeEntry>, d: Map<i32, int>, bound: int, q: i32)
    requires
        map_wf(m, d, bound),
        map_parent_closed(m),
        m.contains_key(q),
    ensures
        anc_up(m, q, d[q] as nat) == 1,
    decreases d[q],
{
    if q != 1 {
        lemma_anc_up_root(m, d, bound, m[q].ppid);
    }
}

/// A node of some subtree other than its root lies in the subtree of
/// exactly one present child of that root; this names it.
proof fn lemma_subtree_step(
    m: Map<i32, ProcessTreeEntry>,
    d: Map<i32, int>,
    bound: int,
    p: i32,
    q: i32,
)
    requires
        map_wf(m, d, bound),
        map_parent_closed(m),
        m.contains_key(p),
        in_subtree(m, d, p, q),
        q != p,
    ensures
        ({
            let c = anc_up(m, q, (d[q] - d[p] - 1) as nat);
            &&& m.contains_key(c)
            &&& d[c] == d[p] + 1
            &&& m[c].ppid == p
            &&& m[p].children@.contains(c)
            &&& in_subtree(m, d, c, q)
        }),
{
    if d[q] == d[p] {
        assert(anc_up(m, q, 0) == q);
        assert(false);
    }
    let k = (d[q] - d[p] - 1) as nat;
    lemma_anc_in_dom(m, d, bound, q, k);
    let c = anc_up(m, q, k);
    lemma_anc_up_compose(m, q, k, 1);
    assert(anc_up(m, m[c].ppid, 0) == m[c].ppid);
    assert(anc_up(m, c, 1) == m[c].ppid);
    assert(k + 1 == (d[q] - d[p]) as nat);
    assert(m[c].ppid == p);
    assert(c != 1);
    assert(m[m[c].ppid].children@.contains(c));
}

/// The subtree of a child is contained in the subtree of its parent.
proof fn lemma_subtree_extend(
    m: Map<i32, ProcessTreeEntry>,
    d: Map<i32, int>,
    bound: int,
    p: i32,
    c: i32,
    q: i32,
)
    requires
        map_wf(m, d, bound),
        map_parent_closed(m),
        m.contains_key(p),
        m.contains_key(c),
        m[c].ppid == p,
        d[c] == d[p] + 1,
        in_subtree(m, d, c, q),
    ensures
        in_subtree(m, d, p, q),
{
    lemma_anc_up_compose(m, q, (d[q] - d[c]) as nat, 1);
    assert(anc_up(m, m[c].ppid, 0) == m[c].ppid);
    assert(anc_up(m, c, 1) == m[c].ppid);
    assert((d[q] - d[c]) as nat + 1 == (d[q] - d[p]) as nat);
}

/// The pre-order walk below a present node visits exactly its subtree,
/// each node once.
proof fn lemma_preorder_covers(
    m: Map<i32, ProcessTreeEntry>,
    d: Map<i32, int>,
    bound: int,
    pid: i32,
    fuel: nat,
)
    requires
        map_wf(m, d, bound),
        map_parent_closed(m),
        m.contains_key(pid),
        fuel == bound + 1 - d[pid],
    ensures
        ({
            let ord = preorder_from(m, pid, fuel);
            &&& ord.no_duplicates()
            &&& forall|q: i32| #[trigger] ord.contains(q) <==> in_subtree(m, d, pid, q)
        }),
    decreases fuel, 0nat, 0nat,
{
    let ord = preorder_from(m, pid, fuel);
    let kids = m[pid].children@;
    lemma_preorder_kids_covers(m, d, bound, pid, kids, (fuel - 1) as nat);
    let kord = preorder_kids(m, kids, (fuel - 1) as nat);
    assert(ord == seq![pid] + kord);
    if kord.contains(pid) {
        let c = choose|c: i32| kids.contains(c) && m.contains_key(c) && in_subtree(m, d, c, pid);
        assert(d[pid] >= d[c] == d[pid] + 1);
        assert(false);
    }
    assert(seq![pid].no_duplicates());
    vstd::seq_lib::lemma_no_dup_in_concat(seq![pid], kord);
    assert forall|q: i32| #[trigger] ord.contains(q) implies in_subtree(m, d, pid, q) by {
        let k = choose|k: int| 0 <= k < ord.len() && ord[k] == q;
        if k == 0 {
            assert(q == pid);
            assert(anc_up(m, q, 0) == q);
        } else {
            assert(kord[k - 1] == q);
            assert(kord.contains(q));
            let c = choose|c: i32| kids.contains(c) && m.contains_key(c) && in_subtree(m, d, c, q);
            lemma_subtree_extend(m, d, bound, pid, c, q);
        }
    }
    assert forall|q: i32| in_subtree(m, d, pid, q) implies #[trigger] ord.contains(q) by {
        if q == pid {
            assert(ord[0] == pid);
        } else {
            lemma_subtree_step(m, d, bound, pid, q);
            let c = anc_up(m, q, (d[q] - d[pid] - 1) as nat);
            assert(kids.contains(c) && m.contains_key(c) && in_subtree(m, d, c, q));
            assert(kord.contains(q));
            let k = choose|k: int| 0 <= k < kord.len() && kord[k] == q;
            assert(ord[k + 1] == q);
        }
    }
}

/// The concatenated walks of a duplicate-free list of some node's children
/// visit exactly the union of those children's subtrees, each node once.
proof fn lemma_preorder_kids_covers(
    m: Map<i32, ProcessTreeEntry>,
    d: Map<i32, int>,
    bound: int,
    p: i32,
    kids: Seq<i32>,
    fuel: nat,
)
    requires
        map_wf(m, d, bound),
        map_parent_closed(m),
        m.contains_key(p),
        fuel == bound - d[p],
        forall|x: i32| #[trigger] kids.contains(x) ==> m[p].children@.contains(x),
        kids.no_duplicates(),
    ensures
        ({
            let kord = preorder_kids(m, kids, fuel);
            &&& kord.no_duplicates()
            &&& forall|q: i32|
                #[trigger] kord.contains(q) <==> exists|c: i32|
                    kids.contains(c) && m.contains_key(c) && in_subtree(m, d, c, q)
        }),
    decreases fuel, 1nat, kids.len(),
{
    let kord = preorder_kids(m, kids, fuel);
    if kids.len() == 0 {
        assert forall|q: i32| #[trigger] kord.contains(q) implies exists|c: i32|
            kids.contains(c) && m.contains_key(c) && in_subtree(m, d, c, q) by {
            assert(false);
        }
    } else {
        let c0 = kids[0];
        let rest = kids.drop_first();
        assert(kids.contains(c0));
        assert forall|x: i32| #[trigger] rest.contains(x) implies m[p].children@.contains(x) by {
            let k = choose|k: int| 0 <= k < rest.len() && rest[k] == x;
            assert(kids[k + 1] == x);
            assert(kids.contains(x));
        }
        lemma_preorder_kids_covers(m, d, bound, p, rest, fuel);
        let restord = preorder_kids(m, rest, fuel);
        let ford = preorder_from(m, c0, fuel);
        assert(kord == ford + restord);
        if m.contains_key(c0) {
            assert(d[c0] == d[p] + 1);
            lemma_preorder_covers(m, d, bound, c0, fuel);
            // the head child's subtree is disjoint from every later child's
            assert forall|i: int, j: int|
                0 <= i < ford.len() && 0 <= j < restord.len() implies ford[i] != restord[j] by {
                if ford[i] == restord[j] {
                    let q = ford[i];
                    assert(ford.contains(q));
                    assert(restord.contains(q));
                    assert(in_subtree(m, d, c0, q));
                    let c = choose|c: i32|
                        rest.contains(c) && m.contains_key(c) && in_subtree(m, d, c, q);
                    assert(d[c] == d[p] + 1);
                    assert(anc_up(m, q, (d[q] - d[p] - 1) as nat) == c0);
                    assert(anc_up(m, q, (d[q] - d[p] - 1) as nat) == c);
                    let k = choose|k: int| 0 <= k < rest.len() && rest[k] == c;
                    assert(kids[k + 1] == c0 && kids[0] == c0);
                    assert(false);
                }
            }
            vstd::seq_lib::lemma_no_dup_in_concat(ford, restord);
            assert forall|q: i32| #[trigger] kord.contains(q) implies exists|c: i32|
                kids.contains(c) && m.contains_key(c) && in_subtree(m, d, c, q) by {
                let k = choose|k: int| 0 <= k < kord.len() && kord[k] == q;
                if k < ford.len() {
                    assert(ford.contains(q));
                    assert(kids.contains(c0) && m.contains_key(c0) && in_subtree(m, d, c0, q));
                } else {
                    assert(restord[k - ford.len()] == q);
                    assert(restord.contains(q));
                    let c = choose|c: i32|
                        rest.contains(c) && m.contains_key(c) && in_subtree(m, d, c, q);
                    let rk = choose|rk: int| 0 <= rk < rest.len() && rest[rk] == c;
                    assert(kids[rk + 1] == c);
                    assert(kids.contains(c) && m.contains_key(c) && in_subtree(m, d, c, q));
                }
            }
            assert forall|q: i32|
                (exists|c: i32| kids.contains(c) && m.contains_key(c) && in_subtree(m, d, c, q))
                implies #[trigger] kord.contains(q) by {
                let c = choose|c: i32| kids.contains(c) && m.contains_key(c) && in_subtree(m, d, c, q);
                if c == c0 {
                    assert(ford.contains(q));
                    let k = choose|k: int| 0 <= k < ford.len() && ford[k] == q;
                    assert(kord[k] == q);
                } else {
                    let k = choose|k: int| 0 <= k < kids.len() && kids[k] == c;
                    assert(k >= 1);
                    assert(rest[k - 1] == c);
                    assert(rest.contains(c));
                    assert(restord.contains(q));
                    let rk = choose|rk: int| 0 <= rk < restord.len() && restord[rk] == q;
                    assert(kord[ford.len() + rk] == q);
                }
            }
        } else {
            assert(ford == Seq::<i32>::empty());
            assert(kord =~= restord);
            assert forall|q: i32| #[trigger] kord.contains(q) implies exists|c: i32|
                kids.contains(c) && m.contains_key(c) && in_subtree(m, d, c, q) by {
                assert(restord.contains(q));
                let c = choose|c: i32|
                    rest.contains(c) && m.contains_key(c) && in_subtree(m, d, c, q);
                let rk = choose|rk: int| 0 <= rk < rest.len() && rest[rk] == c;
                assert(kids[rk + 1] == c);
                assert(kids.contains(c) && m.contains_key(c) && in_subtree(m, d, c, q));
            }
            assert forall|q: i32|
                (exists|c: i32| kids.contains(c) && m.contains_key(c) && in_subtree(m, d, c, q))
                implies #[trigger] kord.contains(q) by {
                let c = choose|c: i32| kids.contains(c) && m.contains_key(c) && in_subtree(m, d, c, q);
                assert(c != c0);
                let k = choose|k: int| 0 <= k < kids.len() && kids[k] == c;
                assert(k >= 1);
                assert(rest[k - 1] == c);
                assert(rest.contains(c));
            }
        }
    }
}

/// Law of tree completeness: on a fully linked tree, the pre-order walk
/// lists every entry of the mapping exactly once, so its length equals the
/// mapping's size; and by well-formedness each row's printed depth is one
/// more than its node's distance from the root.
pub proof fn lemma_order_complete(t: ProcessTree)
    requires
        t.wf(),
        t.parent_closed(),
    ensures
        t.order().no_duplicates(),
        forall|q: i32| #[trigger] t.order().contains(q) <==> t.entries@.contains_key(q),
        t.order().len() == t.entries@.dom().len(),
{
    let m = t.entries@;
    let d = t.depths@;
    let bound = t.depth_bound@;
    lemma_preorder_covers(m, d, bound, 1, (bound + 1) as nat);
    assert(t.order() == preorder_from(m, 1, (bound + 1 - d[1]) as nat));
    assert forall|q: i32| m.contains_key(q) implies #[trigger] t.order().contains(q) by {
        lemma_anc_up_root(m, d, bound, q);
        assert(in_subtree(m, d, 1, q));
    }
    t.order().unique_seq_to_set();
    assert(t.order().to_set() =~= m.dom());
}

impl ProcessTree {
    /// Walk the subtree below `pid` in pre-order, pushing one `(depth,
    /// entry)` row per visited node onto `v`.  Children that are not in the
    /// map are skipped: pruning may leave such dangling child ids behind.
    fn flatten_helper<'a>(
        map: &'a HashMap<i32, ProcessTreeEntry>,
        Ghost(d): Ghost<Map<i32, int>>,
        Ghost(bound): Ghost<int>,
        v: &mut Vec<(usize, &'a ProcessTreeEntry)>,
        pid: i32,
        depth: usize,
    )
        requires
            map_wf(map@, d, bound),
            map@.contains_key(pid),
            depth as int == d[pid] + 1,
        ensures
            ({
                let ord = preorder_from(map@, pid, (bound + 1 - d[pid]) as nat);
                &&& final(v)@.len() == old(v)@.len() + ord.len()
                &&& forall|k: int| 0 <= k < old(v)@.len() ==> final(v)@[k] == old(v)@[k]
                &&& forall|k: int|
                    0 <= k < ord.len() ==> row_matches(
                        map@,
                        d,
                        #[trigger] final(v)@[old(v)@.len() + k],
                        ord[k],
                    )
            }),
        decreases bound + 1 - d[pid],
    {
        let entry: &ProcessTreeEntry = map.get(&pid).unwrap();
        let ghost fuel = (bound + 1 - d[pid]) as nat;
        let ghost v0 = v@;
        let ghost prefix_len = v0.len() as int;
        v.push((depth, entry));
        let num = entry.children.len();
        let mut j: usize = 0;
        while j < num
            invariant
                map_wf(map@, d, bound),
                map@.contains_key(pid),
                *entry == map@[pid],
                num == entry.children@.len(),
                depth as int == d[pid] + 1,
                fuel == (bound + 1 - d[pid]) as nat,
                j <= num,
                prefix_len == v0.len(),
                ({
                    let part = seq![pid] + preorder_kids(
                        map@,
                        entry.children@.take(j as int),
                        (fuel - 1) as nat,
                    );
                    &&& v@.len() == prefix_len + part.len()
                    &&& forall|k: int| 0 <= k < prefix_len ==> v@[k] == v0[k]
                    &&& forall|k: int|
                        0 <= k < part.len() ==> row_matches(
                            map@,
                            d,
                            #[trigger] v@[prefix_len + k],
                            part[k],
                        )
                }),
            decreases num - j,
        {
            let cid = entry.children[j];
            let ghost v_mid = v@;
            proof {
                lemma_preorder_kids_snoc(
                    map@,
                    entry.children@.take(j as int),
                    cid,
                    (fuel - 1) as nat,
                );
                assert(entry.children@.take(j as int + 1) =~= entry.children@.take(
                    j as int,
                ).push(cid));
                assert(entry.children@.contains(cid));
            }
            match map.get(&cid) {
                Some(child) => {
                    proof {
                        assert(map@.contains_key(cid));
                        assert(d[cid] == d[pid] + 1);
                        assert(depth + 1 == d[cid] + 1);
                        assert(d[cid] + 1 <= bound + 1 <= 0xFFFF_FFFF);
                        assert((bound + 1 - d[cid]) as nat == (fuel - 1) as nat);
                    }
                    let child_pid = child.pid;
                    Self::flatten_helper(map, Ghost(d), Ghost(bound), v, child_pid, depth + 1);
                },
                None => {
                    proof {
                        assert(preorder_from(map@, cid, (fuel - 1) as nat) =~= Seq::<
                            i32,
                        >::empty());
                    }
                },
            }
            proof {
                let kids_j = preorder_kids(map@, entry.children@.take(j as int), (fuel - 1) as nat);
                let from_c = preorder_from(map@, cid, (fuel - 1) as nat);
                assert(preorder_kids(map@, entry.children@.take(j as int + 1), (fuel - 1) as nat)
                    == kids_j + from_c);
                assert((seq![pid] + kids_j) + from_c =~= seq![pid] + (kids_j + from_c));
                let part_old = seq![pid] + kids_j;
                let part_new = seq![pid] + (kids_j + from_c);
                assert(part_new == part_old + from_c);
                assert(v@.len() == prefix_len + part_new.len());
                assert(forall|k: int| 0 <= k < prefix_len ==> v@[k] == v0[k]);
                assert forall|k: int| 0 <= k < part_new.len() implies row_matches(
                    map@,
                    d,
                    #[trigger] v@[prefix_len + k],
                    part_new[k],
                ) by {
                    if k < part_old.len() {
                        assert(part_new[k] == part_old[k]);
                        assert(row_matches(map@, d, v_mid[prefix_len + k], part_old[k]));
                        assert(v@[prefix_len + k] == v_mid[prefix_len + k]);
                    } else {
                        assert(part_new[k] == from_c[k - part_old.len()]);
                        assert(v@[prefix_len + k] == v@[v_mid.len() + (k - part_old.len())]);
                    }
                }
            }
            j += 1;
        }
        proof {
            assert(entry.children@.take(num as int) =~= entry.children@);
        }
    }

    /// Flatten the tree into its display order: a pre-order walk from the
    /// root, each row carrying the node's depth (the root at depth one) and
    /// a reference to its entry.
    pub fn flatten(&self) -> (r: Vec<(usize, &ProcessTreeEntry)>)
        requires
            self.wf(),
        ensures
            r@.len() == self.order().len(),
            forall|k: int|
                0 <= k < r@.len() ==> row_matches(
                    self.entries@,
                    self.depths@,
                    #[trigger] r@[k],
                    self.order()[k],
                ),
            self.parent_closed() ==> r@.len() == self.entries@.dom().len(),
    {
        proof {
            if self.parent_closed() {
                lemma_order_complete(*self);
            }
        }
        let mut v: Vec<(usize, &ProcessTreeEntry)> = Vec::new();
        Self::flatten_helper(
            &self.entries,
            Ghost(self.depths@),
            Ghost(self.depth_bound@),
            &mut v,
            1,
            1,
        );
        proof {
            let ord = self.order();
            assert(ord == preorder_from(
                self.entries@,
                1,
                (self.depth_bound@ + 1 - self.depths@[1]) as nat,
            ));
            assert forall|k: int| 0 <= k < v@.len() implies row_matches(
                self.entries@,
                self.depths@,
                #[trigger] v@[k],
                ord[k],
            ) by {
                assert(v@[0 + k] == v@[k]);
            }
        }
        v
    }
}

} // verus!
