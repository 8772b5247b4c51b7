//! The processes behind a build: starting from the processes found working
//! in a build directory, the whole tree of their descendants, with the memory
//! it holds and its busiest process.

use vstd::prelude::*;
use crate::text::chars_of;
use crate::pattern::literal_at;

verus! {

/// What is read of one running process.
#[derive(Debug, Clone, Copy)]
pub struct ProcessInfo {
    pub pid: u32,
    pub parent: Option<u32>,
    /// Resident memory, in bytes.
    pub memory: u64,
    /// A key ordered as the process's CPU usage is.
    pub cpu_rank: u32,
}

/// The first entry of the table for `pid`.
pub open spec fn lookup(t: Seq<ProcessInfo>, pid: u32) -> Option<ProcessInfo>
    decreases t.len(),
{
    if t.len() == 0 {
        None
    } else if t[0].pid == pid {
        Some(t[0])
    } else {
        lookup(t.drop_first(), pid)
    }
}

/// `c` is listed as a child of `p`.
pub open spec fn is_child_of(t: Seq<ProcessInfo>, c: u32, p: u32) -> bool {
    exists|k: int| 0 <= k < t.len() && #[trigger] t[k].pid == c && t[k].parent == Some(p)
}

/// `x` is reached from `roots` in at most `n` steps from parent to child.
pub open spec fn reach_within(t: Seq<ProcessInfo>, roots: Seq<u32>, x: u32, n: nat) -> bool
    decreases n,
{
    if n == 0 {
        roots.contains(x)
    } else {
        reach_within(t, roots, x, (n - 1) as nat) || exists|p: u32|
            reach_within(t, roots, p, (n - 1) as nat) && #[trigger] is_child_of(t, x, p)
    }
}

/// `x` is one of `roots` or a descendant of one.
pub open spec fn in_tree(t: Seq<ProcessInfo>, roots: Seq<u32>, x: u32) -> bool {
    exists|n: nat| #[trigger] reach_within(t, roots, x, n)
}

/// The memory of those of `entries` whose pid is in the tree that `table`
/// and `roots` make.
pub open spec fn memory_where(entries: Seq<ProcessInfo>, table: Seq<ProcessInfo>, roots: Seq<u32>) -> nat
    decreases entries.len(),
{
    if entries.len() == 0 {
        0
    } else {
        memory_where(entries.drop_last(), table, roots) + if in_tree(table, roots, entries.last().pid) {
            entries.last().memory as nat
        } else {
            0
        }
    }
}

/// The memory of the listed processes of the tree that starts at `roots`.
pub open spec fn tree_memory(table: Seq<ProcessInfo>, roots: Seq<u32>) -> nat {
    memory_where(table, table, roots)
}

/// `top` is the busiest listed process among `visited`: the first in visiting
/// order of those with the highest rank; none when none of them is listed.
pub open spec fn is_top(t: Seq<ProcessInfo>, visited: Seq<u32>, top: Option<u32>) -> bool {
    match top {
        None => forall|i: int| 0 <= i < visited.len() ==> lookup(t, #[trigger] visited[i]) is None,
        Some(p) => exists|j: int|
            0 <= j < visited.len() && visited[j] == p && #[trigger] lookup(t, visited[j]) is Some
                && (forall|i: int|
                0 <= i < visited.len() && #[trigger] lookup(t, visited[i]) is Some ==> lookup(
                    t,
                    visited[i],
                )->0.cpu_rank <= lookup(t, p)->0.cpu_rank) && (forall|i: int|
                0 <= i < j && #[trigger] lookup(t, visited[i]) is Some ==> lookup(
                    t,
                    visited[i],
                )->0.cpu_rank < lookup(t, p)->0.cpu_rank),
    }
}

/// What a process tree adds up to.
#[derive(Debug, Clone)]
pub struct TreeUsage {
    /// The distinct pids of the tree, in the order they were visited.
    pub visited: Vec<u32>,
    /// The memory of the listed processes of the tree, in bytes.
    pub memory_bytes: u128,
    /// How many distinct processes the tree holds.
    pub process_count: usize,
    /// The busiest listed process of the tree.
    pub top_pid: Option<u32>,
}

impl TreeUsage {
    /// The tree's memory in MiB (rounded down), when the byte count fits a
    /// `u64`; `None` when adding it up in a `u64` overflows.
    pub fn memory_mb(&self) -> (r: Option<u64>)
        ensures
            r == if self.memory_bytes <= u64::MAX {
                Some((self.memory_bytes / 1024 / 1024) as u64)
            } else {
                None
            },
    {
        if self.memory_bytes <= u64::MAX as u128 {
            Some((self.memory_bytes / 1024 / 1024) as u64)
        } else {
            None
        }
    }
}

fn lookup_exec(t: &Vec<ProcessInfo>, pid: u32) -> (r: Option<ProcessInfo>)
    ensures
        r == lookup(t@, pid),
{
    let mut k: usize = 0;
    assert(t@.skip(0) =~= t@);
    while k < t.len()
        invariant
            k <= t@.len(),
            lookup(t@.skip(k as int), pid) == lookup(t@, pid),
        decreases t@.len() - k,
    {
        assert(t@.skip(k as int)[0] == t@[k as int]);
        if t[k].pid == pid {
            return Some(t[k]);
        }
        assert(t@.skip(k as int).drop_first() =~= t@.skip(k + 1));
        k = k + 1;
    }
    None
}

proof fn lemma_lookup_some(t: Seq<ProcessInfo>, pid: u32)
    ensures
        lookup(t, pid) is Some <==> exists|k: int| 0 <= k < t.len() && #[trigger] t[k].pid == pid,
        lookup(t, pid) matches Some(e) ==> e.pid == pid,
    decreases t.len(),
{
    if t.len() > 0 {
        lemma_lookup_some(t.drop_first(), pid);
        if t[0].pid != pid {
            if exists|k: int| 0 <= k < t.len() && #[trigger] t[k].pid == pid {
                let k = choose|k: int| 0 <= k < t.len() && #[trigger] t[k].pid == pid;
                assert(t.drop_first()[k - 1].pid == pid);
            }
            if exists|k: int| 0 <= k < t.drop_first().len() && #[trigger] t.drop_first()[k].pid == pid {
                let k = choose|k: int| 0 <= k < t.drop_first().len() && #[trigger] t.drop_first()[k].pid == pid;
                assert(t[k + 1].pid == pid);
            }
        }
    }
}

fn vec_contains(v: &Vec<u32>, x: u32) -> (r: bool)
    ensures
        r == v@.contains(x),
{
    let mut k: usize = 0;
    while k < v.len()
        invariant
            k <= v@.len(),
            forall|i: int| 0 <= i < k ==> v@[i] != x,
        decreases v@.len() - k,
    {
        if v[k] == x {
            assert(v@[k as int] == x);
            return true;
        }
        k = k + 1;
    }
    false
}

/// The pids a table lists, in order.
pub open spec fn table_pids(t: Seq<ProcessInfo>) -> Seq<u32> {
    t.map_values(|e: ProcessInfo| e.pid)
}

proof fn lemma_bounded_distinct(s: Seq<u32>, w: Seq<u32>)
    requires
        s.no_duplicates(),
        forall|x: u32| s.contains(x) ==> w.contains(x),
    ensures
        s.len() <= w.len(),
{
    s.unique_seq_to_set();
    w.lemma_cardinality_of_set();
    assert(s.to_set().subset_of(w.to_set()));
    vstd::set_lib::lemma_len_subset(s.to_set(), w.to_set());
}

proof fn lemma_child_in_tree(t: Seq<ProcessInfo>, roots: Seq<u32>, p: u32, k: int)
    requires
        in_tree(t, roots, p),
        0 <= k < t.len(),
        t[k].parent == Some(p),
    ensures
        in_tree(t, roots, t[k].pid),
{
    let n = choose|n: nat| #[trigger] reach_within(t, roots, p, n);
    assert(is_child_of(t, t[k].pid, p));
    assert(reach_within(t, roots, t[k].pid, n + 1));
}

proof fn lemma_root_in_tree(t: Seq<ProcessInfo>, roots: Seq<u32>, x: u32)
    requires
        roots.contains(x),
    ensures
        in_tree(t, roots, x),
{
    assert(reach_within(t, roots, x, 0));
}

proof fn lemma_tree_closed(t: Seq<ProcessInfo>, roots: Seq<u32>, seen: Seq<u32>, x: u32, n: nat)
    requires
        forall|r: u32| roots.contains(r) ==> seen.contains(r),
        forall|y: u32, k: int|
            #![trigger seen.contains(y), t[k]]
            seen.contains(y) && 0 <= k < t.len() && t[k].parent == Some(y) ==> seen.contains(t[k].pid),
        reach_within(t, roots, x, n),
    ensures
        seen.contains(x),
    decreases n,
{
    if n > 0 {
        if reach_within(t, roots, x, (n - 1) as nat) {
            lemma_tree_closed(t, roots, seen, x, (n - 1) as nat);
        } else {
            let p = choose|p: u32|
                reach_within(t, roots, p, (n - 1) as nat) && #[trigger] is_child_of(t, x, p);
            lemma_tree_closed(t, roots, seen, p, (n - 1) as nat);
            let k = choose|k: int| 0 <= k < t.len() && #[trigger] t[k].pid == x && t[k].parent == Some(p);
            assert(t[k].parent == Some(p));
        }
    }
}

/// Pushes, in table order, the pids that the table lists as children of `pid`.
fn push_children(table: &Vec<ProcessInfo>, pid: u32, stack: &mut Vec<u32>)
    ensures
        forall|x: u32| old(stack)@.contains(x) ==> final(stack)@.contains(x),
        forall|x: u32| final(stack)@.contains(x) ==> old(stack)@.contains(x) || is_child_of(table@, x, pid),
        forall|m: int| 0 <= m < table@.len() && #[trigger] table@[m].parent == Some(pid) ==> final(stack)@.contains(table@[m].pid),
{
    let ghost start = stack@;
    let mut k: usize = 0;
    while k < table.len()
        invariant
            k <= table@.len(),
            start == old(stack)@,
            forall|x: u32| start.contains(x) ==> stack@.contains(x),
            forall|x: u32| stack@.contains(x) ==> start.contains(x) || is_child_of(table@, x, pid),
            forall|m: int| 0 <= m < k && #[trigger] table@[m].parent == Some(pid) ==> stack@.contains(table@[m].pid),
        decreases table@.len() - k,
    {
        if table[k].parent == Some(pid) {
            let ghost before = stack@;
            stack.push(table[k].pid);
            proof {
                assert forall|x: u32| before.contains(x) implies stack@.contains(x) by {
                    let j = choose|j: int| 0 <= j < before.len() && before[j] == x;
                    assert(stack@[j] == x);
                }
                assert(stack@[stack@.len() - 1] == table@[k as int].pid);
                assert(is_child_of(table@, table@[k as int].pid, pid));
                assert forall|x: u32| stack@.contains(x) implies start.contains(x) || is_child_of(table@, x, pid) by {
                    let j = choose|j: int| 0 <= j < stack@.len() && stack@[j] == x;
                    if j < before.len() {
                        assert(before[j] == x);
                    }
                }
            }
        }
        k = k + 1;
    }
}

/// Walks the tree of processes that starts at `roots` (`sum_usage`): the
/// tree's distinct pids, their number, the memory of those the table lists
/// (in MiB) and the busiest of those.
pub fn sum_usage(roots: &Vec<u32>, table: &Vec<ProcessInfo>) -> (r: TreeUsage)
    ensures
        r.visited@.no_duplicates(),
        forall|x: u32| r.visited@.contains(x) <==> in_tree(table@, roots@, x),
        r.process_count == r.visited@.len(),
        r.memory_bytes == tree_memory(table@, roots@),
        is_top(table@, r.visited@, r.top_pid),
{
    let ghost t = table@;
    let ghost universe = roots@ + table_pids(t);
    let ghost bound: int = (roots@.len() + t.len()) as int;
    let mut seen: Vec<u32> = Vec::new();
    let mut stack: Vec<u32> = Vec::new();
    let mut i: usize = 0;
    while i < roots.len()
        invariant
            i <= roots@.len(),
            stack@ == roots@.take(i as int),
        decreases roots@.len() - i,
    {
        stack.push(roots[i]);
        i = i + 1;
        assert(stack@ =~= roots@.take(i as int));
    }
    assert(stack@ =~= roots@);
    assert forall|x: u32| stack@.contains(x) implies in_tree(t, roots@, x) by {
        lemma_root_in_tree(t, roots@, x);
    }
    let mut top: Option<(u32, u32)> = None;
    let ghost mut top_at: int = 0;
    while stack.len() > 0
        invariant
            t == table@,
            universe == roots@ + table_pids(t),
            bound == roots@.len() + t.len(),
            seen@.no_duplicates(),
            seen@.len() <= bound,
            forall|x: u32| seen@.contains(x) ==> universe.contains(x),
            forall|x: u32| seen@.contains(x) ==> in_tree(t, roots@, x),
            forall|x: u32| stack@.contains(x) ==> in_tree(t, roots@, x),
            forall|x: u32| roots@.contains(x) ==> seen@.contains(x) || stack@.contains(x),
            forall|y: u32, k: int|
                #![trigger seen@.contains(y), t[k]]
                seen@.contains(y) && 0 <= k < t.len() && t[k].parent == Some(y) ==> seen@.contains(
                    t[k].pid,
                ) || stack@.contains(t[k].pid),
            match top {
                None => forall|i: int| 0 <= i < seen@.len() ==> lookup(t, #[trigger] seen@[i]) is None,
                Some((p, rank)) => {
                    &&& 0 <= top_at < seen@.len()
                    &&& seen@[top_at] == p
                    &&& lookup(t, p) is Some
                    &&& lookup(t, p)->0.cpu_rank == rank
                    &&& forall|i: int| 0 <= i < seen@.len() && #[trigger] lookup(t, seen@[i]) is Some
                        ==> lookup(t, seen@[i])->0.cpu_rank <= rank
                    &&& forall|i: int| 0 <= i < top_at && #[trigger] lookup(t, seen@[i]) is Some
                        ==> lookup(t, seen@[i])->0.cpu_rank < rank
                },
            },
        decreases bound - seen@.len(), stack@.len(),
    {
        let ghost old_stack = stack@;
        let ghost old_seen = seen@;
        let pid = stack.pop().unwrap();
        assert(old_stack == stack@.push(pid));
        assert forall|x: u32| old_stack.contains(x) && x != pid implies stack@.contains(x) by {
            let j = choose|j: int| 0 <= j < old_stack.len() && old_stack[j] == x;
            assert(j < stack@.len());
            assert(stack@[j] == x);
        }
        assert(old_stack.contains(pid)) by {
            assert(old_stack[old_stack.len() - 1] == pid);
        }
        assert(in_tree(t, roots@, pid));
        assert forall|x: u32| stack@.contains(x) implies in_tree(t, roots@, x) by {
            let j = choose|j: int| 0 <= j < stack@.len() && stack@[j] == x;
            assert(old_stack[j] == x);
            assert(old_stack.contains(x));
        }
        if !vec_contains(&seen, pid) {
            seen.push(pid);
            proof {
                assert forall|x: u32| seen@.contains(x) implies old_seen.contains(x) || x == pid by {
                    let j = choose|j: int| 0 <= j < seen@.len() && seen@[j] == x;
                    if j < old_seen.len() {
                        assert(old_seen[j] == x);
                    }
                }
                assert forall|x: u32| old_seen.contains(x) implies seen@.contains(x) by {
                    let j = choose|j: int| 0 <= j < old_seen.len() && old_seen[j] == x;
                    assert(seen@[j] == x);
                }
                assert(seen@[seen@.len() - 1] == pid);
                assert forall|x: u32| seen@.contains(x) implies in_tree(t, roots@, x) by {
                    if x != pid {
                        assert(old_seen.contains(x));
                    }
                }
                assert(seen@.no_duplicates()) by {
                    assert forall|a: int, b: int|
                        0 <= a < seen@.len() && 0 <= b < seen@.len() && a != b implies seen@[a]
                        != seen@[b] by {
                        if a == seen@.len() - 1 {
                            assert(old_seen.contains(seen@[b]) || b == a);
                        } else if b == seen@.len() - 1 {
                            assert(old_seen[a] == seen@[a]);
                        }
                    }
                }
                assert(universe.contains(pid)) by {
                    let n = choose|n: nat| #[trigger] reach_within(t, roots@, pid, n);
                    lemma_tree_member(t, roots@, pid, n);
                    if !roots@.contains(pid) {
                        let k = choose|k: int| 0 <= k < t.len() && #[trigger] t[k].pid == pid;
                        assert(table_pids(t)[k] == pid);
                        assert(universe[roots@.len() + k] == pid);
                    } else {
                        let k = choose|k: int| 0 <= k < roots@.len() && roots@[k] == pid;
                        assert(universe[k] == pid);
                    }
                }
                lemma_bounded_distinct(seen@, universe);
            }
            let found = lookup_exec(table, pid);
            proof {
                lemma_lookup_some(t, pid);
            }
            match found {
                Some(e) => {
                    let better = match top {
                        None => true,
                        Some((_, rank)) => e.cpu_rank > rank,
                    };
                    if better {
                        proof {
                            top_at = seen@.len() - 1;
                        }
                        top = Some((pid, e.cpu_rank));
                    }
                },
                None => {},
            }
            let ghost stack_mid = stack@;
            push_children(table, pid, &mut stack);
            proof {
                assert forall|x: u32| stack@.contains(x) implies in_tree(t, roots@, x) by {
                    if !stack_mid.contains(x) {
                        let k = choose|k: int| 0 <= k < t.len() && #[trigger] t[k].pid == x && t[k].parent == Some(pid);
                        lemma_child_in_tree(t, roots@, pid, k);
                    }
                }
                assert forall|y: u32, k: int|
                    #![trigger seen@.contains(y), t[k]]
                    seen@.contains(y) && 0 <= k < t.len() && t[k].parent == Some(y) implies seen@.contains(
                        t[k].pid,
                    ) || stack@.contains(t[k].pid) by {
                    if y == pid {
                        assert(table@[k].parent == Some(pid));
                    } else {
                        assert(old_seen.contains(y));
                        let c = t[k].pid;
                        if old_seen.contains(c) {
                            assert(seen@.contains(c));
                        } else if c != pid {
                            assert(old_stack.contains(c));
                            assert(stack_mid.contains(c));
                        }
                    }
                }
            }
        } else {
            proof {
                assert forall|y: u32, k: int|
                    #![trigger seen@.contains(y), t[k]]
                    seen@.contains(y) && 0 <= k < t.len() && t[k].parent == Some(y) implies seen@.contains(
                        t[k].pid,
                    ) || stack@.contains(t[k].pid) by {
                    let c = t[k].pid;
                    if !seen@.contains(c) && c != pid {
                        assert(old_stack.contains(c));
                    }
                }
            }
        }
    }
    proof {
        assert forall|x: u32| in_tree(t, roots@, x) implies seen@.contains(x) by {
            let n = choose|n: nat| #[trigger] reach_within(t, roots@, x, n);
            lemma_tree_closed(t, roots@, seen@, x, n);
        }
    }
    let mut mem: u128 = 0;
    let mut k: usize = 0;
    assert(table@.take(0) =~= Seq::<ProcessInfo>::empty());
    while k < table.len()
        invariant
            t == table@,
            k <= t.len(),
            forall|x: u32| seen@.contains(x) <==> in_tree(t, roots@, x),
            mem == memory_where(t.take(k as int), t, roots@),
            mem <= k * 0xffff_ffff_ffff_ffffu128,
        decreases t.len() - k,
    {
        proof {
            assert(t.take(k + 1).drop_last() =~= t.take(k as int));
        }
        if vec_contains(&seen, table[k].pid) {
            let m = table[k].memory;
            proof {
                let kk = k as int;
                assert(kk < 0x1_0000_0000_0000_0000);
                assert(mem + m <= (kk + 1) * 0xffff_ffff_ffff_ffff
                    && (kk + 1) * 0xffff_ffff_ffff_ffff <= 0xffff_ffff_ffff_ffff_ffff_ffff_ffff_ffff) by (nonlinear_arith)
                    requires
                        mem <= kk * 0xffff_ffff_ffff_ffff,
                        m <= 0xffff_ffff_ffff_ffff,
                        0 <= kk < 0x1_0000_0000_0000_0000,
                ;
            }
            mem = mem + m as u128;
        } else {
            proof {
                let kk = k as int;
                assert(mem <= (kk + 1) * 0xffff_ffff_ffff_ffff) by (nonlinear_arith)
                    requires
                        mem <= kk * 0xffff_ffff_ffff_ffff,
                        0 <= kk,
                ;
            }
        }
        k = k + 1;
    }
    assert(t.take(k as int) =~= t);
    let count = seen.len();
    let top_pid = match top {
        Some((p, _)) => Some(p),
        None => None,
    };
    TreeUsage { visited: seen, memory_bytes: mem, process_count: count, top_pid }
}

proof fn lemma_reached_member(t: Seq<ProcessInfo>, roots: Seq<u32>, x: u32, n: nat)
    requires
        reach_within(t, roots, x, n),
    ensures
        roots.contains(x) || exists|p: u32| in_tree(t, roots, p) && #[trigger] is_child_of(t, x, p),
    decreases n,
{
    if n > 0 {
        if reach_within(t, roots, x, (n - 1) as nat) {
            lemma_reached_member(t, roots, x, (n - 1) as nat);
        } else {
            let p = choose|p: u32|
                reach_within(t, roots, p, (n - 1) as nat) && #[trigger] is_child_of(t, x, p);
            assert(reach_within(t, roots, p, (n - 1) as nat));
            assert(in_tree(t, roots, p));
        }
    }
}

/// The tree of a build's processes holds its roots and, with each member,
/// every process listed as that member's child; it holds nothing else: a
/// member that is not a root is listed as the child of a member.
pub proof fn lemma_tree_shape(t: Seq<ProcessInfo>, roots: Seq<u32>, p: u32, c: u32)
    ensures
        roots.contains(p) ==> in_tree(t, roots, p),
        in_tree(t, roots, p) && is_child_of(t, c, p) ==> in_tree(t, roots, c),
        in_tree(t, roots, c) ==> roots.contains(c) || exists|q: u32|
            in_tree(t, roots, q) && #[trigger] is_child_of(t, c, q),
{
    if roots.contains(p) {
        assert(reach_within(t, roots, p, 0));
    }
    if in_tree(t, roots, p) && is_child_of(t, c, p) {
        let n = choose|n: nat| #[trigger] reach_within(t, roots, p, n);
        assert(reach_within(t, roots, c, n + 1));
    }
    if in_tree(t, roots, c) {
        let n = choose|n: nat| #[trigger] reach_within(t, roots, c, n);
        lemma_reached_member(t, roots, c, n);
    }
}

/// Every member of the tree is a root or is listed.
proof fn lemma_tree_member(t: Seq<ProcessInfo>, roots: Seq<u32>, x: u32, n: nat)
    requires
        reach_within(t, roots, x, n),
    ensures
        roots.contains(x) || exists|k: int| 0 <= k < t.len() && #[trigger] t[k].pid == x,
    decreases n,
{
    if n > 0 {
        if reach_within(t, roots, x, (n - 1) as nat) {
            lemma_tree_member(t, roots, x, (n - 1) as nat);
        } else {
            let p = choose|p: u32|
                reach_within(t, roots, p, (n - 1) as nat) && #[trigger] is_child_of(t, x, p);
            assert(is_child_of(t, x, p));
        }
    }
}

// ---------------------------------------------------------------------------
// Which processes work on a build
// ---------------------------------------------------------------------------

/// `dir`, a directory's path, occurs in `hay` at `i` as a whole path: what
/// follows it there is the end of `hay` or a `/` (or `dir` ends with `/`),
/// so that `hay` names `dir` or a path inside it.
pub open spec fn dir_at(dir: Seq<char>, hay: Seq<char>, i: int) -> bool {
    &&& 0 <= i
    &&& i + dir.len() <= hay.len()
    &&& hay.subrange(i, i + dir.len()) == dir
    &&& (i + dir.len() == hay.len() || hay[i + dir.len()] == '/' || (dir.len() > 0 && dir.last()
        == '/'))
}

/// `hay` points to the directory `dir` or inside it somewhere in its text.
pub open spec fn points_inside(dir: Seq<char>, hay: Seq<char>) -> bool {
    exists|i: int| #[trigger] dir_at(dir, hay, i)
}

fn points_inside_exec(dir: &Vec<char>, hay: &Vec<char>) -> (r: bool)
    ensures
        r == points_inside(dir@, hay@),
{
    let n = dir.len();
    if n > hay.len() {
        assert(forall|i: int| !#[trigger] dir_at(dir@, hay@, i));
        return false;
    }
    let ends_with_slash = n > 0 && dir[n - 1] == '/';
    let last = hay.len() - n;
    let mut i: usize = 0;
    while i <= last
        invariant
            n == dir@.len(),
            last + n == hay@.len(),
            hay@.len() == hay.len(),
            ends_with_slash == (n > 0 && dir@.last() == '/'),
            forall|m: int| 0 <= m < i ==> !#[trigger] dir_at(dir@, hay@, m),
        decreases last + 1 - i,
    {
        if literal_at(hay, i, dir.as_slice()) && (i == last || hay[i + n] == '/' || ends_with_slash) {
            assert(dir_at(dir@, hay@, i as int));
            return true;
        }
        if i == last {
            assert forall|m: int| !#[trigger] dir_at(dir@, hay@, m) by {
                if 0 <= m && m + n <= hay@.len() {
                    assert(m <= i);
                }
            }
            return false;
        }
        i = i + 1;
    }
    false
}

/// A process works on a build when its working directory lies inside the
/// build directory or one of its arguments points to the directory or inside
/// it.
pub open spec fn matches_build(cwd_inside: bool, args: Seq<Seq<char>>, dir: Seq<char>) -> bool {
    cwd_inside || exists|i: int| 0 <= i < args.len() && points_inside(dir, #[trigger] args[i])
}

/// An argument that holds the directory's path as a whole path, followed by
/// nothing or by `/` and more (anything, when the path ends with `/`),
/// points inside it, whatever stands before the path.
pub proof fn lemma_path_points_inside(dir: Seq<char>, before: Seq<char>, rest: Seq<char>)
    requires
        rest.len() == 0 || rest[0] == '/' || (dir.len() > 0 && dir.last() == '/'),
    ensures
        points_inside(dir, before + dir + rest),
{
    let hay = before + dir + rest;
    let i = before.len() as int;
    assert(hay.subrange(i, i + dir.len()) =~= dir);
    if rest.len() > 0 {
        assert(hay[i + dir.len()] == rest[0]);
    }
    assert(dir_at(dir, hay, i));
}

/// Where an argument stands among the others does not matter: a process
/// with an argument that holds the build directory's path as a whole path
/// works on the build, whatever the arguments before and after it and
/// whatever its working directory.
pub proof fn lemma_any_argument_matches(
    cwd_inside: bool,
    first: Seq<Seq<char>>,
    last: Seq<Seq<char>>,
    dir: Seq<char>,
    before: Seq<char>,
    rest: Seq<char>,
)
    requires
        rest.len() == 0 || rest[0] == '/' || (dir.len() > 0 && dir.last() == '/'),
    ensures
        matches_build(cwd_inside, first + seq![before + dir + rest] + last, dir),
{
    let args = first + seq![before + dir + rest] + last;
    let i = first.len() as int;
    lemma_path_points_inside(dir, before, rest);
    assert(args[i] == before + dir + rest);
}

/// More arguments, before or after, never undo a match.
pub proof fn lemma_more_arguments_keep_match(
    cwd_inside: bool,
    args: Seq<Seq<char>>,
    first: Seq<Seq<char>>,
    last: Seq<Seq<char>>,
    dir: Seq<char>,
)
    requires
        matches_build(cwd_inside, args, dir),
    ensures
        matches_build(cwd_inside, first + args + last, dir),
{
    if !cwd_inside {
        let i = choose|i: int| 0 <= i < args.len() && points_inside(dir, #[trigger] args[i]);
        let all = first + args + last;
        assert(all[first.len() + i] == args[i]);
    }
}

/// A process that does not work in the build directory works on the build
/// only through an argument that holds the directory's path as a whole path.
pub proof fn lemma_match_needs_path(args: Seq<Seq<char>>, dir: Seq<char>)
    requires
        matches_build(false, args, dir),
    ensures
        exists|i: int, j: int|
            0 <= i < args.len() && 0 <= j && j + dir.len() <= args[i].len()
                && #[trigger] args[i].subrange(j, j + dir.len()) == dir && (j + dir.len()
                == args[i].len() || args[i][j + dir.len()] == '/' || (dir.len() > 0 && dir.last()
                == '/')),
{
    let i = choose|i: int| 0 <= i < args.len() && points_inside(dir, #[trigger] args[i]);
    let j = choose|j: int| #[trigger] dir_at(dir, args[i], j);
    assert(args[i].subrange(j, j + dir.len()) == dir);
}

/// Whether a process works on a build (see [`matches_build`]).
pub fn process_matches(cwd_inside: bool, args: &Vec<String>, dir: &str) -> (r: bool)
    ensures
        r == matches_build(cwd_inside, args@.map_values(|a: String| a@), dir@),
{
    let ghost views = args@.map_values(|a: String| a@);
    if cwd_inside {
        return true;
    }
    let n = chars_of(dir);
    let mut i: usize = 0;
    while i < args.len()
        invariant
            i <= args@.len(),
            n@ == dir@,
            views == args@.map_values(|a: String| a@),
            forall|m: int| 0 <= m < i ==> !points_inside(dir@, #[trigger] views[m]),
        decreases args@.len() - i,
    {
        let a = chars_of(args[i].as_str());
        if points_inside_exec(&n, &a) {
            assert(views[i as int] == a@);
            return true;
        }
        i = i + 1;
    }
    false
}

} // verus!
