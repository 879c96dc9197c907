//! A dependency graph of tasks with cycle-checked edges.
//!
//! Tasks are numbered from 1 in order of creation; a task's id is the
//! decimal text of its number, and the task with number `n` sits at
//! position `n - 1`. Dependency sets hold task numbers.
use vstd::prelude::*;
use vstd::set_lib::*;

use crate::text::{decimal, decimal_string, digit_char, push_text};

verus! {

#[derive(Debug, Clone, Copy, PartialEq, Eq, Structural)]
pub enum TaskStatus {
    Pending,
    Blocked,
    InProgress,
    Completed,
    Failed,
}

/// Why a dependency could not be added.
#[derive(Debug, Clone, Copy, PartialEq, Eq, Structural)]
pub enum TaskError {
    SelfDependency,
    UnknownTask,
    CycleDetected,
}

impl TaskError {
    pub fn message(&self) -> (r: String)
        ensures
            r@ == error_text(*self),
    {
        let mut s = String::new();
        match self {
            TaskError::SelfDependency => push_text(&mut s, "A task cannot depend on itself"),
            TaskError::UnknownTask => push_text(&mut s, "Task does not exist"),
            TaskError::CycleDetected => push_text(&mut s, "Adding this dependency would create a cycle"),
        }
        s
    }
}

pub open spec fn error_text(e: TaskError) -> Seq<char> {
    match e {
        TaskError::SelfDependency => "A task cannot depend on itself"@,
        TaskError::UnknownTask => "Task does not exist"@,
        TaskError::CycleDetected => "Adding this dependency would create a cycle"@,
    }
}

#[derive(Debug)]
pub struct TaskNode {
    pub id: String,
    pub subject: String,
    pub description: String,
    pub status: TaskStatus,
    pub owner: Option<String>,
    /// Numbers of the tasks that must complete before this one.
    pub blocked_by: Vec<usize>,
    /// Numbers of the tasks that wait for this one.
    pub blocks: Vec<usize>,
    pub dispatch_agent: Option<String>,
    pub prompt: Option<String>,
}

/// The mathematical value of a task node.
pub struct TaskNodeView {
    pub id: Seq<char>,
    pub subject: Seq<char>,
    pub description: Seq<char>,
    pub status: TaskStatus,
    pub owner: Option<Seq<char>>,
    pub blocked_by: Seq<usize>,
    pub blocks: Seq<usize>,
    pub dispatch_agent: Option<Seq<char>>,
    pub prompt: Option<Seq<char>>,
}

pub open spec fn opt_view(o: Option<String>) -> Option<Seq<char>> {
    match o {
        Some(s) => Some(s@),
        None => None,
    }
}

impl View for TaskNode {
    type V = TaskNodeView;

    open spec fn view(&self) -> TaskNodeView {
        TaskNodeView {
            id: self.id@,
            subject: self.subject@,
            description: self.description@,
            status: self.status,
            owner: opt_view(self.owner),
            blocked_by: self.blocked_by@,
            blocks: self.blocks@,
            dispatch_agent: opt_view(self.dispatch_agent),
            prompt: opt_view(self.prompt),
        }
    }
}

pub open spec fn runnable(n: TaskNodeView) -> bool {
    n.status == TaskStatus::Pending && n.blocked_by.len() == 0
}

impl TaskNode {
    pub fn new(id: String, subject: String, description: String) -> (r: Self)
        ensures
            r@ == (TaskNodeView {
                id: id@,
                subject: subject@,
                description: description@,
                status: TaskStatus::Pending,
                owner: None,
                blocked_by: Seq::empty(),
                blocks: Seq::empty(),
                dispatch_agent: None,
                prompt: None,
            }),
    {
        let r = TaskNode {
            id,
            subject,
            description,
            status: TaskStatus::Pending,
            owner: None,
            blocked_by: Vec::new(),
            blocks: Vec::new(),
            dispatch_agent: None,
            prompt: None,
        };
        proof {
            assert(r@.blocked_by =~= Seq::<usize>::empty());
            assert(r@.blocks =~= Seq::<usize>::empty());
        }
        r
    }

    pub fn is_runnable(&self) -> (r: bool)
        ensures
            r == runnable(self@),
    {
        self.status == TaskStatus::Pending && self.blocked_by.len() == 0
    }
}

// ---------------------------------------------------------------------------
// The dependency graph
// ---------------------------------------------------------------------------

/// The task at position `a` waits for the task at position `b`.
pub open spec fn edge(nodes: Seq<TaskNodeView>, a: int, b: int) -> bool {
    &&& 0 <= a < nodes.len()
    &&& 0 <= b < nodes.len()
    &&& nodes[a].blocked_by.contains((b + 1) as usize)
}

/// `p` is a walk along dependency edges.
pub open spec fn is_path(nodes: Seq<TaskNodeView>, p: Seq<int>) -> bool {
    &&& p.len() >= 1
    &&& forall|i: int| 0 <= i < p.len() - 1 ==> #[trigger] edge(nodes, p[i], p[i + 1])
}

/// Position `b` can be reached from position `a` along zero or more edges.
pub open spec fn reaches(nodes: Seq<TaskNodeView>, a: int, b: int) -> bool {
    exists|p: Seq<int>| #[trigger] is_path(nodes, p) && p[0] == a && p.last() == b
}

/// No task waits, directly or through others, for itself.
pub open spec fn acyclic(nodes: Seq<TaskNodeView>) -> bool {
    forall|a: int, b: int| #[trigger] edge(nodes, a, b) ==> !reaches(nodes, b, a)
}

/// `a` waits for `b` exactly when `b` lists `a` among the tasks it blocks.
pub open spec fn mirrored(nodes: Seq<TaskNodeView>) -> bool {
    forall|a: int, b: int|
        #![trigger nodes[a].blocked_by.contains((b + 1) as usize)]
        #![trigger nodes[b].blocks.contains((a + 1) as usize)]
        0 <= a < nodes.len() && 0 <= b < nodes.len() ==> (nodes[a].blocked_by.contains(
            (b + 1) as usize,
        ) <==> nodes[b].blocks.contains((a + 1) as usize))
}

/// Every number in a dependency set names an existing task, at most once.
pub open spec fn refs_valid(nodes: Seq<TaskNodeView>) -> bool {
    &&& forall|i: int, x: usize|
        0 <= i < nodes.len() && #[trigger] nodes[i].blocked_by.contains(x) ==> 1 <= x
            <= nodes.len()
    &&& forall|i: int, x: usize|
        0 <= i < nodes.len() && #[trigger] nodes[i].blocks.contains(x) ==> 1 <= x <= nodes.len()
    &&& forall|i: int| 0 <= i < nodes.len() ==> (#[trigger] nodes[i].blocked_by).no_duplicates()
    &&& forall|i: int| 0 <= i < nodes.len() ==> (#[trigger] nodes[i].blocks).no_duplicates()
}

/// The task at position `i` has the id of its number.
pub open spec fn ids_numbered(nodes: Seq<TaskNodeView>) -> bool {
    forall|i: int| 0 <= i < nodes.len() ==> #[trigger] nodes[i].id == decimal((i + 1) as nat)
}

/// The position of the task with id `s`, if there is one.
pub open spec fn position_of(nodes: Seq<TaskNodeView>, s: Seq<char>) -> Option<int> {
    if exists|k: int| 0 <= k < nodes.len() && #[trigger] nodes[k].id == s {
        Some(choose|k: int| 0 <= k < nodes.len() && #[trigger] nodes[k].id == s)
    } else {
        None
    }
}

/// `s` with `v` added at the end, unless it is there already.
pub open spec fn with_value(s: Seq<usize>, v: usize) -> Seq<usize> {
    if s.contains(v) {
        s
    } else {
        s.push(v)
    }
}

/// `s` without `v`.
pub open spec fn without_value(s: Seq<usize>, v: usize) -> Seq<usize> {
    if s.contains(v) {
        s.remove(s.index_of(v))
    } else {
        s
    }
}

/// What `add_dependency(t, b)` returns.
pub open spec fn dependency_result(nodes: Seq<TaskNodeView>, t: Seq<char>, b: Seq<char>) -> Result<
    (),
    TaskError,
> {
    if t == b {
        Err(TaskError::SelfDependency)
    } else if position_of(nodes, b) is None || position_of(nodes, t) is None {
        Err(TaskError::UnknownTask)
    } else if reaches(nodes, position_of(nodes, b)->0, position_of(nodes, t)->0) {
        Err(TaskError::CycleDetected)
    } else {
        Ok(())
    }
}

/// The tasks after `add_dependency(t, b)`.
pub open spec fn dependency_state(nodes: Seq<TaskNodeView>, t: Seq<char>, b: Seq<char>) -> Seq<
    TaskNodeView,
> {
    if dependency_result(nodes, t, b) is Ok {
        let ti = position_of(nodes, t)->0;
        let bi = position_of(nodes, b)->0;
        nodes.update(
            ti,
            TaskNodeView {
                status: TaskStatus::Blocked,
                blocked_by: with_value(nodes[ti].blocked_by, (bi + 1) as usize),
                ..nodes[ti]
            },
        ).update(bi, TaskNodeView { blocks: with_value(nodes[bi].blocks, (ti + 1) as usize), ..nodes[bi] })
    } else {
        nodes
    }
}

/// A dependent of the task at position `x` once that task has completed.
pub open spec fn released(n: TaskNodeView, x: int) -> TaskNodeView {
    let rest = without_value(n.blocked_by, (x + 1) as usize);
    TaskNodeView {
        blocked_by: rest,
        status: if rest.len() == 0 && n.status == TaskStatus::Blocked {
            TaskStatus::Pending
        } else {
            n.status
        },
        ..n
    }
}

/// Whether completing the task at position `x` makes the task numbered `m` runnable.
pub open spec fn freed_by(nodes: Seq<TaskNodeView>, x: int, m: usize) -> bool {
    &&& without_value(nodes[m - 1].blocked_by, (x + 1) as usize).len() == 0
    &&& nodes[m - 1].status == TaskStatus::Blocked
}

/// The ids of the tasks among `deps` that completing position `x` makes runnable, in order.
pub open spec fn freed_ids(nodes: Seq<TaskNodeView>, x: int, deps: Seq<usize>) -> Seq<Seq<char>>
    decreases deps.len(),
{
    if deps.len() == 0 {
        Seq::empty()
    } else {
        let rest = freed_ids(nodes, x, deps.drop_last());
        if freed_by(nodes, x, deps.last()) {
            rest.push(decimal(deps.last() as nat))
        } else {
            rest
        }
    }
}

/// The tasks after completing the task at position `x` (not yet completed).
pub open spec fn completed_state(nodes: Seq<TaskNodeView>, x: int) -> Seq<TaskNodeView> {
    Seq::new(
        nodes.len(),
        |i: int|
            if i == x {
                TaskNodeView { status: TaskStatus::Completed, blocks: Seq::empty(), ..nodes[x] }
            } else if nodes[x].blocks.contains((i + 1) as usize) {
                released(nodes[i], x)
            } else {
                nodes[i]
            },
    )
}

/// What `complete(t)` returns.
pub open spec fn complete_result(nodes: Seq<TaskNodeView>, t: Seq<char>) -> Seq<Seq<char>> {
    match position_of(nodes, t) {
        Some(x) => if nodes[x].status == TaskStatus::Completed {
            Seq::empty()
        } else {
            freed_ids(nodes, x, nodes[x].blocks)
        },
        None => Seq::empty(),
    }
}

/// The tasks after `complete(t)`.
pub open spec fn complete_state(nodes: Seq<TaskNodeView>, t: Seq<char>) -> Seq<TaskNodeView> {
    match position_of(nodes, t) {
        Some(x) => if nodes[x].status == TaskStatus::Completed {
            nodes
        } else {
            completed_state(nodes, x)
        },
        None => nodes,
    }
}

// ---------------------------------------------------------------------------
// Lemmas on paths
// ---------------------------------------------------------------------------

proof fn lemma_path_trivial(nodes: Seq<TaskNodeView>, a: int)
    ensures
        reaches(nodes, a, a),
{
    let p = seq![a];
    assert(is_path(nodes, p));
}

proof fn lemma_path_extend(nodes: Seq<TaskNodeView>, a: int, b: int, c: int)
    requires
        reaches(nodes, a, b),
        edge(nodes, b, c),
    ensures
        reaches(nodes, a, c),
{
    let p = choose|p: Seq<int>| #[trigger] is_path(nodes, p) && p[0] == a && p.last() == b;
    let q = p.push(c);
    assert forall|i: int| 0 <= i < q.len() - 1 implies #[trigger] edge(nodes, q[i], q[i + 1]) by {
        if i < p.len() - 1 {
            assert(q[i] == p[i] && q[i + 1] == p[i + 1]);
        }
    }
    assert(is_path(nodes, q));
}

proof fn lemma_path_prepend(nodes: Seq<TaskNodeView>, a: int, b: int, c: int)
    requires
        edge(nodes, a, b),
        reaches(nodes, b, c),
    ensures
        reaches(nodes, a, c),
{
    let p = choose|p: Seq<int>| #[trigger] is_path(nodes, p) && p[0] == b && p.last() == c;
    let q = seq![a] + p;
    assert forall|i: int| 0 <= i < q.len() - 1 implies #[trigger] edge(nodes, q[i], q[i + 1]) by {
        if i > 0 {
            let j = i - 1;
            assert(edge(nodes, p[j], p[j + 1]));
            assert(q[i] == p[j] && q[i + 1] == p[j + 1]);
        } else {
            assert(q[0] == a && q[1] == p[0]);
        }
    }
    assert(is_path(nodes, q));
}

/// A set closed under edges keeps every position reachable from its members.
proof fn lemma_closed_set(nodes: Seq<TaskNodeView>, s: Set<int>, p: Seq<int>)
    requires
        is_path(nodes, p),
        s.contains(p[0]),
        forall|k: int, m: int| s.contains(k) && #[trigger] edge(nodes, k, m) ==> s.contains(m),
    ensures
        s.contains(p.last()),
    decreases p.len(),
{
    if p.len() > 1 {
        let q = p.drop_last();
        assert forall|i: int| 0 <= i < q.len() - 1 implies #[trigger] edge(nodes, q[i], q[i + 1]) by {
            assert(edge(nodes, p[i], p[i + 1]));
            assert(q[i] == p[i] && q[i + 1] == p[i + 1]);
        }
        lemma_closed_set(nodes, s, q);
        let i = p.len() - 2;
        assert(edge(nodes, p[i], p[i + 1]));
        assert(q.last() == p[i]);
    }
}

/// Removing edges removes paths.
proof fn lemma_fewer_edges(small: Seq<TaskNodeView>, big: Seq<TaskNodeView>)
    requires
        forall|a: int, b: int| #[trigger] edge(small, a, b) ==> edge(big, a, b),
        acyclic(big),
    ensures
        forall|a: int, b: int| reaches(small, a, b) ==> reaches(big, a, b),
        acyclic(small),
{
    assert forall|a: int, b: int| reaches(small, a, b) implies reaches(big, a, b) by {
        let p = choose|p: Seq<int>| #[trigger] is_path(small, p) && p[0] == a && p.last() == b;
        assert forall|i: int| 0 <= i < p.len() - 1 implies #[trigger] edge(big, p[i], p[i + 1]) by {
            assert(edge(small, p[i], p[i + 1]));
        }
        assert(is_path(big, p));
    }
    assert forall|a: int, b: int| #[trigger] edge(small, a, b) implies !reaches(small, b, a) by {
        assert(edge(big, a, b));
    }
}

/// In a graph with one more edge `t -> k`, a path either avoids it or passes through it.
proof fn lemma_split_path(
    old_nodes: Seq<TaskNodeView>,
    new_nodes: Seq<TaskNodeView>,
    t: int,
    k: int,
    p: Seq<int>,
)
    requires
        forall|a: int, b: int| #[trigger]
            edge(new_nodes, a, b) ==> edge(old_nodes, a, b) || (a == t && b == k),
        is_path(new_nodes, p),
    ensures
        reaches(old_nodes, p[0], p.last()) || (reaches(old_nodes, p[0], t) && reaches(
            old_nodes,
            k,
            p.last(),
        )),
    decreases p.len(),
{
    if p.len() == 1 {
        lemma_path_trivial(old_nodes, p[0]);
    } else {
        let q = p.drop_last();
        assert forall|i: int| 0 <= i < q.len() - 1 implies #[trigger] edge(
            new_nodes,
            q[i],
            q[i + 1],
        ) by {
            assert(edge(new_nodes, p[i], p[i + 1]));
            assert(q[i] == p[i] && q[i + 1] == p[i + 1]);
        }
        lemma_split_path(old_nodes, new_nodes, t, k, q);
        let y = q.last();
        let z = p.last();
        let i = p.len() - 2;
        assert(edge(new_nodes, p[i], p[i + 1]));
        assert(y == p[i]);
        if edge(old_nodes, y, z) {
            if reaches(old_nodes, p[0], y) {
                lemma_path_extend(old_nodes, p[0], y, z);
            } else {
                lemma_path_extend(old_nodes, k, y, z);
            }
        } else {
            assert(y == t && z == k);
            lemma_path_trivial(old_nodes, k);
            if reaches(old_nodes, p[0], y) {
            } else {
                assert(reaches(old_nodes, p[0], t));
            }
        }
    }
}

proof fn lemma_reaches_trans(nodes: Seq<TaskNodeView>, a: int, b: int, c: int)
    requires
        reaches(nodes, a, b),
        reaches(nodes, b, c),
    ensures
        reaches(nodes, a, c),
{
    let p = choose|p: Seq<int>| #[trigger] is_path(nodes, p) && p[0] == a && p.last() == b;
    let q = choose|q: Seq<int>| #[trigger] is_path(nodes, q) && q[0] == b && q.last() == c;
    let r = p + q.drop_first();
    assert forall|i: int| 0 <= i < r.len() - 1 implies #[trigger] edge(nodes, r[i], r[i + 1]) by {
        if i < p.len() - 1 {
            assert(r[i] == p[i] && r[i + 1] == p[i + 1]);
        } else {
            let j = i - p.len() + 1;
            assert(r[i] == q[j] && r[i + 1] == q[j + 1]);
            assert(edge(nodes, q[j], q[j + 1]));
        }
    }
    assert(is_path(nodes, r));
    if q.len() == 1 {
        assert(r =~= p);
    }
}

/// Adding the edge `t -> k` keeps the graph acyclic when `k` cannot reach `t`.
proof fn lemma_add_edge_acyclic(
    old_nodes: Seq<TaskNodeView>,
    new_nodes: Seq<TaskNodeView>,
    t: int,
    k: int,
)
    requires
        acyclic(old_nodes),
        !reaches(old_nodes, k, t),
        forall|a: int, b: int| #[trigger]
            edge(new_nodes, a, b) ==> edge(old_nodes, a, b) || (a == t && b == k),
    ensures
        acyclic(new_nodes),
{
    assert forall|a: int, b: int| #[trigger] edge(new_nodes, a, b) implies !reaches(
        new_nodes,
        b,
        a,
    ) by {
        if reaches(new_nodes, b, a) {
            let p = choose|p: Seq<int>| #[trigger] is_path(new_nodes, p) && p[0] == b && p.last() == a;
            lemma_split_path(old_nodes, new_nodes, t, k, p);
            if edge(old_nodes, a, b) {
                if reaches(old_nodes, b, a) {
                } else {
                    // k reaches a, a -> b, b reaches t
                    lemma_path_prepend(old_nodes, a, b, t);
                    lemma_reaches_trans(old_nodes, k, a, t);
                }
            } else {
                assert(a == t && b == k);
                if reaches(old_nodes, b, a) {
                } else {
                    assert(reaches(old_nodes, k, t));
                }
            }
        }
    }
}

spec fn digit_value(c: char) -> int {
    if c == '0' { 0 } else if c == '1' { 1 } else if c == '2' { 2 } else if c == '3' { 3 }
    else if c == '4' { 4 } else if c == '5' { 5 } else if c == '6' { 6 } else if c == '7' { 7 }
    else if c == '8' { 8 } else { 9 }
}

proof fn lemma_digit_value(d: int)
    requires
        0 <= d < 10,
    ensures
        digit_value(digit_char(d)) == d,
{
    if d == 0 {
    } else if d == 1 {
    } else if d == 2 {
    } else if d == 3 {
    } else if d == 4 {
    } else if d == 5 {
    } else if d == 6 {
    } else if d == 7 {
    } else if d == 8 {
    } else {
    }
}

proof fn lemma_decimal_len(n: nat)
    ensures
        decimal(n).len() >= 1,
        n >= 10 ==> decimal(n).len() >= 2,
    decreases n,
{
    if n >= 10 {
        lemma_decimal_len(n / 10);
    }
}

proof fn lemma_decimal_injective(n: nat, m: nat)
    requires
        decimal(n) == decimal(m),
    ensures
        n == m,
    decreases n,
{
    lemma_decimal_len(n);
    lemma_decimal_len(m);
    if n < 10 {
        assert(decimal(n) == seq![digit_char(n as int)]);
    }
    if m < 10 {
        assert(decimal(m) == seq![digit_char(m as int)]);
    }
    if n < 10 && m < 10 {
        assert(decimal(n)[0] == digit_char(n as int));
        assert(decimal(m)[0] == digit_char(m as int));
        lemma_digit_value(n as int);
        lemma_digit_value(m as int);
    } else if n >= 10 && m >= 10 {
        let dn = decimal(n);
        let dm = decimal(m);
        assert(dn == decimal(n / 10) + seq![digit_char((n % 10) as int)]);
        assert(dm == decimal(m / 10) + seq![digit_char((m % 10) as int)]);
        assert(dn.last() == digit_char((n % 10) as int));
        assert(dm.last() == digit_char((m % 10) as int));
        lemma_digit_value((n % 10) as int);
        lemma_digit_value((m % 10) as int);
        assert(dn.drop_last() =~= decimal(n / 10));
        assert(dm.drop_last() =~= decimal(m / 10));
        lemma_decimal_injective(n / 10, m / 10);
        assert(n == 10 * (n / 10) + n % 10);
        assert(m == 10 * (m / 10) + m % 10);
    }
}

proof fn lemma_without_value(s: Seq<usize>, v: usize)
    requires
        s.no_duplicates(),
    ensures
        without_value(s, v).no_duplicates(),
        forall|y: usize| #[trigger] without_value(s, v).contains(y) <==> (s.contains(y) && y != v),
        s.contains(v) ==> without_value(s, v).len() == s.len() - 1,
{
    if s.contains(v) {
        let i = s.index_of(v);
        s.remove_ensures(i);
        let r = s.remove(i);
        assert forall|y: usize| #[trigger] r.contains(y) <==> (s.contains(y) && y != v) by {
            if r.contains(y) {
                let j = choose|j: int| 0 <= j < r.len() && r[j] == y;
                if j < i {
                    assert(s[j] == y);
                } else {
                    assert(s[j + 1] == y);
                }
            }
            if s.contains(y) && y != v {
                let j = choose|j: int| 0 <= j < s.len() && s[j] == y;
                if j < i {
                    assert(r[j] == y);
                } else {
                    assert(j != i);
                    assert(r[j - 1] == y);
                }
            }
        }
    }
}

proof fn lemma_with_value(s: Seq<usize>, v: usize)
    requires
        s.no_duplicates(),
    ensures
        with_value(s, v).no_duplicates(),
        forall|y: usize| #[trigger] with_value(s, v).contains(y) <==> (s.contains(y) || y == v),
{
    if !s.contains(v) {
        let r = s.push(v);
        assert(r[r.len() - 1] == v);
        assert forall|y: usize| #[trigger] r.contains(y) <==> (s.contains(y) || y == v) by {
            if s.contains(y) {
                let j = choose|j: int| 0 <= j < s.len() && s[j] == y;
                assert(r[j] == y);
            }
        }
    }
}

/// A change of one task's status or owner keeps the graph invariant.
proof fn lemma_same_graph(old_nodes: Seq<TaskNodeView>, nodes: Seq<TaskNodeView>)
    requires
        graph_wf(old_nodes),
        nodes.len() == old_nodes.len(),
        forall|i: int|
            0 <= i < nodes.len() ==> (#[trigger] nodes[i]).id == old_nodes[i].id
                && nodes[i].blocked_by == old_nodes[i].blocked_by && nodes[i].blocks
                == old_nodes[i].blocks,
    ensures
        graph_wf(nodes),
{
    assert forall|i: int| 0 <= i < nodes.len() implies #[trigger] nodes[i].id == decimal(
        (i + 1) as nat,
    ) by {
        assert(old_nodes[i].id == decimal((i + 1) as nat));
    }
    assert forall|a: int, b: int| #[trigger] edge(nodes, a, b) implies edge(old_nodes, a, b) by {
        assert(nodes[a].blocked_by == old_nodes[a].blocked_by);
    }
    assert forall|i: int, x: usize|
        0 <= i < nodes.len() && #[trigger] nodes[i].blocked_by.contains(x) implies 1 <= x
        <= nodes.len() by {
        assert(nodes[i].blocked_by == old_nodes[i].blocked_by);
    }
    assert forall|i: int, x: usize|
        0 <= i < nodes.len() && #[trigger] nodes[i].blocks.contains(x) implies 1 <= x
        <= nodes.len() by {
        assert(nodes[i].blocks == old_nodes[i].blocks);
    }
    assert forall|i: int| 0 <= i < nodes.len() implies (#[trigger] nodes[i].blocked_by).no_duplicates() by {
        assert(nodes[i].blocked_by == old_nodes[i].blocked_by);
    }
    assert forall|i: int| 0 <= i < nodes.len() implies (#[trigger] nodes[i].blocks).no_duplicates() by {
        assert(nodes[i].blocks == old_nodes[i].blocks);
    }
    assert(mirrored(nodes)) by {
        assert forall|a: int, b: int|
            0 <= a < nodes.len() && 0 <= b < nodes.len() implies (
            #[trigger] nodes[a].blocked_by.contains((b + 1) as usize) <==> #[trigger] nodes[b].blocks.contains(
                (a + 1) as usize,
            )) by {
            assert(old_nodes[a].blocked_by.contains((b + 1) as usize)
                <==> old_nodes[b].blocks.contains((a + 1) as usize));
            assert(nodes[a].blocked_by == old_nodes[a].blocked_by);
            assert(nodes[b].blocks == old_nodes[b].blocks);
        }
    }
    lemma_fewer_edges(nodes, old_nodes);
}

// ---------------------------------------------------------------------------
// The queue
// ---------------------------------------------------------------------------

pub struct TaskQueue {
    tasks: Vec<TaskNode>,
    next_id: usize,
}

impl View for TaskQueue {
    type V = Seq<TaskNodeView>;

    closed spec fn view(&self) -> Seq<TaskNodeView> {
        self.tasks@.map_values(|n: TaskNode| n@)
    }
}

/// The invariant of a task graph: numbered ids, valid and mirrored edges, no cycle.
pub open spec fn graph_wf(nodes: Seq<TaskNodeView>) -> bool {
    &&& ids_numbered(nodes)
    &&& refs_valid(nodes)
    &&& mirrored(nodes)
    &&& acyclic(nodes)
}

fn copy_numbers(v: &Vec<usize>) -> (r: Vec<usize>)
    ensures
        r@ == v@,
{
    let mut r: Vec<usize> = Vec::new();
    let mut i: usize = 0;
    while i < v.len()
        invariant
            0 <= i <= v@.len(),
            r@ == v@.take(i as int),
        decreases v@.len() - i,
    {
        r.push(v[i]);
        i += 1;
        proof {
            assert(r@ =~= v@.take(i as int));
        }
    }
    proof {
        assert(v@.take(i as int) =~= v@);
    }
    r
}

impl TaskQueue {
    pub closed spec fn wf(&self) -> bool {
        &&& self.next_id == self.tasks@.len() + 1
        &&& graph_wf(self@)
    }

    proof fn lemma_view(&self)
        ensures
            self@.len() == self.tasks@.len(),
            forall|i: int| 0 <= i < self.tasks@.len() ==> #[trigger] self@[i] == self.tasks@[i]@,
    {
    }

    proof fn lemma_ids_unique(&self)
        requires
            self.wf(),
        ensures
            forall|i: int, j: int|
                0 <= i < self@.len() && 0 <= j < self@.len() && #[trigger] self@[i].id
                    == #[trigger] self@[j].id ==> i == j,
    {
        assert forall|i: int, j: int|
            0 <= i < self@.len() && 0 <= j < self@.len() && #[trigger] self@[i].id
                == #[trigger] self@[j].id implies i == j by {
            assert(self@[i].id == decimal((i + 1) as nat));
            assert(self@[j].id == decimal((j + 1) as nat));
            lemma_decimal_injective((i + 1) as nat, (j + 1) as nat);
        }
    }

    pub fn new() -> (r: Self)
        ensures
            r.wf(),
            r@.len() == 0,
    {
        let r = TaskQueue { tasks: Vec::new(), next_id: 1 };
        proof {
            assert(r@ =~= Seq::<TaskNodeView>::empty());
        }
        r
    }

    /// The position of the task with the given id.
    fn find(&self, id: &str) -> (r: Option<usize>)
        requires
            self.wf(),
        ensures
            r matches Some(k) ==> position_of(self@, id@) == Some(k as int),
            r is None ==> position_of(self@, id@) is None,
    {
        proof {
            self.lemma_view();
            self.lemma_ids_unique();
        }
        let key = id.to_owned();
        let mut i: usize = 0;
        while i < self.tasks.len()
            invariant
                0 <= i <= self.tasks@.len(),
                key@ == id@,
                self.wf(),
                forall|j: int| 0 <= j < i ==> self@[j].id != id@,
            decreases self.tasks@.len() - i,
        {
            proof {
                self.lemma_view();
                self.lemma_ids_unique();
            }
            if self.tasks[i].id == key {
                proof {
                    assert(self@[i as int].id == id@);
                    let c = choose|k: int| 0 <= k < self@.len() && #[trigger] self@[k].id == id@;
                    assert(self@[c].id == self@[i as int].id);
                }
                return Some(i);
            }
            i += 1;
        }
        None
    }

    /// Creates a pending task with the next id and returns that id.
    pub fn create(
        &mut self,
        subject: String,
        description: String,
        dispatch_agent: Option<String>,
        prompt: Option<String>,
    ) -> (id: String)
        requires
            old(self).wf(),
            old(self)@.len() + 2 < usize::MAX,
            dispatch_agent is Some ==> prompt is Some,
        ensures
            final(self).wf(),
            id@ == decimal(old(self)@.len() + 1),
            final(self)@ == old(self)@.push(
                TaskNodeView {
                    id: id@,
                    subject: subject@,
                    description: description@,
                    status: TaskStatus::Pending,
                    owner: None,
                    blocked_by: Seq::empty(),
                    blocks: Seq::empty(),
                    dispatch_agent: opt_view(dispatch_agent),
                    prompt: opt_view(prompt),
                },
            ),
    {
        proof {
            self.lemma_view();
        }
        let id = decimal_string(self.next_id);
        let mut node = TaskNode::new(id.clone(), subject, description);
        node.dispatch_agent = dispatch_agent;
        node.prompt = prompt;
        let ghost old_nodes = self@;
        self.tasks.push(node);
        self.next_id = self.next_id + 1;
        proof {
            self.lemma_view();
            let nodes = self@;
            assert(nodes =~= old_nodes.push(nodes.last()));
            assert(nodes.last() == node@);
            assert(ids_numbered(nodes)) by {
                assert forall|i: int| 0 <= i < nodes.len() implies #[trigger] nodes[i].id == decimal(
                    (i + 1) as nat,
                ) by {
                    if i < old_nodes.len() {
                        assert(nodes[i] == old_nodes[i]);
                    }
                }
            }
            assert forall|a: int, b: int| #[trigger] edge(nodes, a, b) implies edge(old_nodes, a, b) by {
                assert(a < old_nodes.len());
                assert(nodes[a] == old_nodes[a]);
            }
            assert forall|i: int, x: usize|
                0 <= i < nodes.len() && #[trigger] nodes[i].blocked_by.contains(x) implies 1 <= x
                <= nodes.len() by {
                if i < old_nodes.len() {
                    assert(nodes[i] == old_nodes[i]);
                }
            }
            assert forall|i: int, x: usize|
                0 <= i < nodes.len() && #[trigger] nodes[i].blocks.contains(x) implies 1 <= x
                <= nodes.len() by {
                if i < old_nodes.len() {
                    assert(nodes[i] == old_nodes[i]);
                }
            }
            assert forall|i: int| 0 <= i < nodes.len() implies (#[trigger] nodes[i].blocked_by).no_duplicates() by {
                if i < old_nodes.len() {
                    assert(nodes[i] == old_nodes[i]);
                }
            }
            assert forall|i: int| 0 <= i < nodes.len() implies (#[trigger] nodes[i].blocks).no_duplicates() by {
                if i < old_nodes.len() {
                    assert(nodes[i] == old_nodes[i]);
                }
            }
            assert(mirrored(nodes)) by {
                assert forall|a: int, b: int|
                    0 <= a < nodes.len() && 0 <= b < nodes.len() implies (
                    #[trigger] nodes[a].blocked_by.contains((b + 1) as usize) <==> #[trigger] nodes[b].blocks.contains(
                        (a + 1) as usize,
                    )) by {
                    if a < old_nodes.len() && b < old_nodes.len() {
                        assert(nodes[a] == old_nodes[a]);
                        assert(nodes[b] == old_nodes[b]);
                    } else if a < old_nodes.len() {
                        assert(nodes[a] == old_nodes[a]);
                        assert(!old_nodes[a].blocked_by.contains((b + 1) as usize));
                    } else if b < old_nodes.len() {
                        assert(nodes[b] == old_nodes[b]);
                        assert(!old_nodes[b].blocks.contains((a + 1) as usize));
                    }
                }
            }
            lemma_fewer_edges(nodes, old_nodes);
        }
        id
    }

    /// Makes the task `task_id` wait for the task `blocked_by`.
    pub fn add_dependency(&mut self, task_id: &str, blocked_by: &str) -> (r: Result<(), TaskError>)
        requires
            old(self).wf(),
        ensures
            final(self).wf(),
            r == dependency_result(old(self)@, task_id@, blocked_by@),
            final(self)@ == dependency_state(old(self)@, task_id@, blocked_by@),
    {
        proof {
            self.lemma_view();
        }
        if str_eq(task_id, blocked_by) {
            return Err(TaskError::SelfDependency);
        }
        let bi = match self.find(blocked_by) {
            Some(k) => k,
            None => {
                return Err(TaskError::UnknownTask);
            },
        };
        let ti = match self.find(task_id) {
            Some(k) => k,
            None => {
                return Err(TaskError::UnknownTask);
            },
        };
        if self.would_create_cycle(ti, bi) {
            return Err(TaskError::CycleDetected);
        }
        let ghost old_nodes = self@;
        proof {
            assert(ti != bi);
            assert(refs_valid(old_nodes));
            assert(old_nodes[ti as int].blocked_by.no_duplicates());
            assert(old_nodes[bi as int].blocks.no_duplicates());
            lemma_with_value(old_nodes[ti as int].blocked_by, (bi + 1) as usize);
            lemma_with_value(old_nodes[bi as int].blocks, (ti + 1) as usize);
        }
        if !contains_number(&self.tasks[ti].blocked_by, bi + 1) {
            self.tasks[ti].blocked_by.push(bi + 1);
        }
        self.tasks[ti].status = TaskStatus::Blocked;
        if !contains_number(&self.tasks[bi].blocks, ti + 1) {
            self.tasks[bi].blocks.push(ti + 1);
        }
        proof {
            self.lemma_view();
            let nodes = self@;
            let expected = dependency_state(old_nodes, task_id@, blocked_by@);
            assert(nodes =~= expected);
            assert(forall|i: int| 0 <= i < nodes.len() && i != ti && i != bi ==> nodes[i] == old_nodes[i]);
            assert(ids_numbered(nodes)) by {
                assert forall|i: int| 0 <= i < nodes.len() implies #[trigger] nodes[i].id == decimal(
                    (i + 1) as nat,
                ) by {
                    assert(old_nodes[i].id == decimal((i + 1) as nat));
                }
            }
            assert forall|a: int, b: int| #[trigger]
                edge(nodes, a, b) implies edge(old_nodes, a, b) || (a == ti && b == bi) by {
                if a != ti {
                    assert(nodes[a].blocked_by == old_nodes[a].blocked_by);
                }
            }
            assert forall|i: int, x: usize|
                0 <= i < nodes.len() && #[trigger] nodes[i].blocked_by.contains(x) implies 1 <= x
                <= nodes.len() by {
                if i != ti {
                    assert(nodes[i].blocked_by == old_nodes[i].blocked_by);
                }
            }
            assert forall|i: int, x: usize|
                0 <= i < nodes.len() && #[trigger] nodes[i].blocks.contains(x) implies 1 <= x
                <= nodes.len() by {
                if i != bi {
                    assert(nodes[i].blocks == old_nodes[i].blocks);
                }
            }
            assert forall|i: int| 0 <= i < nodes.len() implies (#[trigger] nodes[i].blocked_by).no_duplicates() by {
                if i != ti {
                    assert(nodes[i].blocked_by == old_nodes[i].blocked_by);
                }
            }
            assert forall|i: int| 0 <= i < nodes.len() implies (#[trigger] nodes[i].blocks).no_duplicates() by {
                if i != bi {
                    assert(nodes[i].blocks == old_nodes[i].blocks);
                }
            }
            assert(mirrored(nodes)) by {
                assert forall|a: int, b: int|
                    0 <= a < nodes.len() && 0 <= b < nodes.len() implies (
                    #[trigger] nodes[a].blocked_by.contains((b + 1) as usize) <==> #[trigger] nodes[b].blocks.contains(
                        (a + 1) as usize,
                    )) by {
                    assert(old_nodes[a].blocked_by.contains((b + 1) as usize)
                        <==> old_nodes[b].blocks.contains((a + 1) as usize));
                    if a != ti {
                        assert(nodes[a].blocked_by == old_nodes[a].blocked_by);
                    }
                    if b != bi {
                        assert(nodes[b].blocks == old_nodes[b].blocks);
                    }
                }
            }
            lemma_add_edge_acyclic(old_nodes, nodes, ti as int, bi as int);
        }
        Ok(())
    }

    /// Marks a task completed and returns the ids of the tasks it leaves runnable.
    pub fn complete(&mut self, task_id: &str) -> (r: Vec<String>)
        requires
            old(self).wf(),
        ensures
            final(self).wf(),
            r@.map_values(|s: String| s@) == complete_result(old(self)@, task_id@),
            final(self)@ == complete_state(old(self)@, task_id@),
    {
        proof {
            self.lemma_view();
        }
        let mut freed: Vec<String> = Vec::new();
        let x = match self.find(task_id) {
            Some(k) => k,
            None => {
                proof {
                    assert(freed@.map_values(|s: String| s@) =~= Seq::<Seq<char>>::empty());
                }
                return freed;
            },
        };
        if self.tasks[x].status == TaskStatus::Completed {
            proof {
                assert(freed@.map_values(|s: String| s@) =~= Seq::<Seq<char>>::empty());
            }
            return freed;
        }
        let ghost old_nodes = self@;
        let dependents = copy_numbers(&self.tasks[x].blocks);
        proof {
            assert(old_nodes.len() < usize::MAX);
            assert(refs_valid(old_nodes));
            assert(old_nodes[x as int].blocks.no_duplicates());
            assert(!old_nodes[x as int].blocks.contains((x + 1) as usize)) by {
                if old_nodes[x as int].blocks.contains((x + 1) as usize) {
                    assert(old_nodes[x as int].blocked_by.contains((x + 1) as usize));
                    assert(edge(old_nodes, x as int, x as int));
                    lemma_path_trivial(old_nodes, x as int);
                }
            }
        }
        self.tasks[x].status = TaskStatus::Completed;
        self.tasks[x].blocks = Vec::new();
        let mut j: usize = 0;
        while j < dependents.len()
            invariant
                0 <= j <= dependents@.len(),
                dependents@ == old_nodes[x as int].blocks,
                dependents@.no_duplicates(),
                !dependents@.contains((x + 1) as usize),
                forall|i: int, y: usize|
                    0 <= i < old_nodes.len() && #[trigger] old_nodes[i].blocks.contains(y) ==> 1
                        <= y <= old_nodes.len(),
                x < old_nodes.len(),
                old_nodes.len() < usize::MAX,
                self.tasks@.len() == old_nodes.len(),
                self.next_id == old_nodes.len() + 1,
                forall|i: int|
                    0 <= i < old_nodes.len() ==> #[trigger] self.tasks@[i]@ == if i == x {
                        TaskNodeView {
                            status: TaskStatus::Completed,
                            blocks: Seq::empty(),
                            ..old_nodes[x as int]
                        }
                    } else if dependents@.take(j as int).contains((i + 1) as usize) {
                        released(old_nodes[i], x as int)
                    } else {
                        old_nodes[i]
                    },
                freed@.map_values(|s: String| s@) == freed_ids(
                    old_nodes,
                    x as int,
                    dependents@.take(j as int),
                ),
                forall|i: int| 0 <= i < old_nodes.len() ==> (#[trigger] old_nodes[i].blocked_by).no_duplicates(),
            decreases dependents@.len() - j,
        {
            let m = dependents[j];
            proof {
                assert(old_nodes[x as int].blocks.contains(m));
                assert(dependents@.take(j + 1).drop_last() =~= dependents@.take(j as int));
                assert(!dependents@.take(j as int).contains(m)) by {
                    if dependents@.take(j as int).contains(m) {
                        let q = choose|q: int| 0 <= q < j && dependents@.take(j as int)[q] == m;
                        assert(dependents@[q] == dependents@[j as int]);
                    }
                }
                assert(self.tasks@[m - 1]@ == old_nodes[m - 1]);
                lemma_without_value(old_nodes[m - 1].blocked_by, (x + 1) as usize);
            }
            remove_number(&mut self.tasks[m - 1].blocked_by, x + 1);
            let now_free = self.tasks[m - 1].blocked_by.len() == 0 && self.tasks[m - 1].status
                == TaskStatus::Blocked;
            if now_free {
                self.tasks[m - 1].status = TaskStatus::Pending;
                freed.push(decimal_string(m));
            }
            proof {
                let t = dependents@.take(j + 1);
                assert forall|i: int| 0 <= i < old_nodes.len() implies #[trigger] self.tasks@[i]@
                    == if i == x {
                    TaskNodeView {
                        status: TaskStatus::Completed,
                        blocks: Seq::empty(),
                        ..old_nodes[x as int]
                    }
                } else if t.contains((i + 1) as usize) {
                    released(old_nodes[i], x as int)
                } else {
                    old_nodes[i]
                } by {
                    assert(t[j as int] == m);
                    if i == m - 1 {
                    } else if i != x {
                        if t.contains((i + 1) as usize) {
                            let q = choose|q: int| 0 <= q < t.len() && t[q] == (i + 1) as usize;
                            assert(q != j);
                            assert(dependents@.take(j as int)[q] == (i + 1) as usize);
                        }
                        if dependents@.take(j as int).contains((i + 1) as usize) {
                            let q = choose|q: int|
                                0 <= q < j && dependents@.take(j as int)[q] == (i + 1) as usize;
                            assert(t[q] == (i + 1) as usize);
                        }
                    }
                }
                assert(freed@.map_values(|s: String| s@) =~= freed_ids(old_nodes, x as int, t));
            }
            j += 1;
        }
        proof {
            self.lemma_view();
            let nodes = self@;
            assert(dependents@.take(j as int) =~= dependents@);
            assert(nodes =~= completed_state(old_nodes, x as int));
            assert(ids_numbered(nodes)) by {
                assert forall|i: int| 0 <= i < nodes.len() implies #[trigger] nodes[i].id == decimal(
                    (i + 1) as nat,
                ) by {
                    assert(old_nodes[i].id == decimal((i + 1) as nat));
                }
            }
            assert forall|a: int, b: int| #[trigger] edge(nodes, a, b) implies edge(old_nodes, a, b) by {
                if a != x && dependents@.contains((a + 1) as usize) {
                    lemma_without_value(old_nodes[a].blocked_by, (x + 1) as usize);
                }
            }
            assert forall|i: int, y: usize|
                0 <= i < nodes.len() && #[trigger] nodes[i].blocked_by.contains(y) implies 1 <= y
                <= nodes.len() by {
                if i != x && dependents@.contains((i + 1) as usize) {
                    lemma_without_value(old_nodes[i].blocked_by, (x + 1) as usize);
                }
            }
            assert forall|i: int, y: usize|
                0 <= i < nodes.len() && #[trigger] nodes[i].blocks.contains(y) implies 1 <= y
                <= nodes.len() by {
                if i != x {
                    assert(nodes[i].blocks == old_nodes[i].blocks);
                }
            }
            assert forall|i: int| 0 <= i < nodes.len() implies (#[trigger] nodes[i].blocked_by).no_duplicates() by {
                if i != x && dependents@.contains((i + 1) as usize) {
                    lemma_without_value(old_nodes[i].blocked_by, (x + 1) as usize);
                }
            }
            assert forall|i: int| 0 <= i < nodes.len() implies (#[trigger] nodes[i].blocks).no_duplicates() by {
                if i != x {
                    assert(nodes[i].blocks == old_nodes[i].blocks);
                }
            }
            assert(mirrored(nodes)) by {
                assert forall|a: int, b: int|
                    0 <= a < nodes.len() && 0 <= b < nodes.len() implies (
                    #[trigger] nodes[a].blocked_by.contains((b + 1) as usize) <==> #[trigger] nodes[b].blocks.contains(
                        (a + 1) as usize,
                    )) by {
                    assert(old_nodes[a].blocked_by.contains((b + 1) as usize)
                        <==> old_nodes[b].blocks.contains((a + 1) as usize));
                    assert(old_nodes[a].blocked_by.contains((x + 1) as usize)
                        <==> old_nodes[x as int].blocks.contains((a + 1) as usize));
                    if a != x && dependents@.contains((a + 1) as usize) {
                        lemma_without_value(old_nodes[a].blocked_by, (x + 1) as usize);
                    }
                }
            }
            lemma_fewer_edges(nodes, old_nodes);
        }
        freed
    }

    /// Marks a task failed; the tasks that wait for it stay blocked.
    pub fn fail(&mut self, task_id: &str)
        requires
            old(self).wf(),
        ensures
            final(self).wf(),
            final(self)@ == match position_of(old(self)@, task_id@) {
                Some(k) => old(self)@.update(
                    k,
                    TaskNodeView { status: TaskStatus::Failed, ..old(self)@[k] },
                ),
                None => old(self)@,
            },
    {
        proof {
            self.lemma_view();
        }
        if let Some(k) = self.find(task_id) {
            let ghost old_nodes = self@;
            self.tasks[k].status = TaskStatus::Failed;
            proof {
                self.lemma_view();
                let nodes = self@;
                assert(nodes =~= old_nodes.update(
                    k as int,
                    TaskNodeView { status: TaskStatus::Failed, ..old_nodes[k as int] },
                ));
                lemma_same_graph(old_nodes, nodes);
            }
        }
    }

    /// Gives a runnable, unowned task to `owner` and starts it.
    pub fn claim(&mut self, task_id: &str, owner: &str) -> (r: bool)
        requires
            old(self).wf(),
        ensures
            final(self).wf(),
            r == match position_of(old(self)@, task_id@) {
                Some(k) => runnable(old(self)@[k]) && old(self)@[k].owner is None,
                None => false,
            },
            final(self)@ == if r {
                let k = position_of(old(self)@, task_id@)->0;
                old(self)@.update(
                    k,
                    TaskNodeView {
                        status: TaskStatus::InProgress,
                        owner: Some(owner@),
                        ..old(self)@[k]
                    },
                )
            } else {
                old(self)@
            },
    {
        proof {
            self.lemma_view();
        }
        if let Some(k) = self.find(task_id) {
            if self.tasks[k].is_runnable() && self.tasks[k].owner.is_none() {
                let ghost old_nodes = self@;
                self.tasks[k].owner = Some(owner.to_owned());
                self.tasks[k].status = TaskStatus::InProgress;
                proof {
                    self.lemma_view();
                    let nodes = self@;
                    assert(nodes =~= old_nodes.update(
                        k as int,
                        TaskNodeView {
                            status: TaskStatus::InProgress,
                            owner: Some(owner@),
                            ..old_nodes[k as int]
                        },
                    ));
                    lemma_same_graph(old_nodes, nodes);
                }
                return true;
            }
        }
        false
    }

    /// Whether `blocker` already reaches `task` along dependency edges.
    fn would_create_cycle(&self, task: usize, blocker: usize) -> (r: bool)
        requires
            self.wf(),
            task < self@.len(),
            blocker < self@.len(),
        ensures
            r == reaches(self@, blocker as int, task as int),
    {
        proof {
            self.lemma_view();
        }
        let n = self.tasks.len();
        let ghost nodes = self@;
        let mut visited: Vec<bool> = Vec::new();
        let mut i: usize = 0;
        while i < n
            invariant
                0 <= i <= n,
                visited@.len() == i,
                forall|k: int| 0 <= k < i ==> !visited@[k],
            decreases n - i,
        {
            visited.push(false);
            i += 1;
        }
        let mut stack: Vec<usize> = Vec::new();
        stack.push(blocker);
        let ghost mut seen: Set<int> = Set::empty();
        proof {
            lemma_path_trivial(nodes, blocker as int);
            assert(stack@[0] == blocker);
        }
        while stack.len() > 0
            invariant
                nodes == self@,
                self.wf(),
                n == nodes.len(),
                task < n,
                blocker < n,
                visited@.len() == n,
                seen.finite(),
                forall|k: int| 0 <= k < n ==> (visited@[k] <==> seen.contains(k)),
                forall|k: int| seen.contains(k) ==> 0 <= k < n,
                forall|q: int| 0 <= q < stack@.len() ==> stack@[q] < n,
                forall|k: int| seen.contains(k) ==> reaches(nodes, blocker as int, k),
                forall|q: int|
                    0 <= q < stack@.len() ==> reaches(nodes, blocker as int, #[trigger] stack@[q] as int),
                !seen.contains(task as int),
                seen.contains(blocker as int) || stack@.contains(blocker),
                forall|k: int, m: int|
                    seen.contains(k) && #[trigger] edge(nodes, k, m) ==> seen.contains(m)
                        || stack@.contains(m as usize),
            decreases n - seen.len(), stack@.len(),
        {
            proof {
                assert(seen.subset_of(set_int_range(0, n as int)));
                lemma_int_range(0, n as int);
                lemma_len_subset(seen, set_int_range(0, n as int));
            }
            let ghost pre = stack@;
            let current = stack.pop().unwrap();
            proof {
                assert(pre =~= stack@.push(current));
                assert(reaches(nodes, blocker as int, pre[pre.len() - 1] as int));
                assert forall|m: usize| pre.contains(m) implies stack@.contains(m) || m == current by {
                    let q = choose|q: int| 0 <= q < pre.len() && pre[q] == m;
                    if q < pre.len() - 1 {
                        assert(stack@[q] == m);
                    }
                }
            }
            if current == task {
                return true;
            }
            if !visited[current] {
                visited.set(current, true);
                proof {
                    seen = seen.insert(current as int);
                    assert(seen.subset_of(set_int_range(0, n as int)));
                    lemma_len_subset(seen, set_int_range(0, n as int));
                }
                let deps = &self.tasks[current].blocked_by;
                let ghost base = stack@;
                let mut j: usize = 0;
                while j < deps.len()
                    invariant
                        nodes == self@,
                        self.wf(),
                        n == nodes.len(),
                        current < n,
                        deps@ == nodes[current as int].blocked_by,
                        0 <= j <= deps@.len(),
                        stack@.len() == base.len() + j,
                        forall|q: int| 0 <= q < base.len() ==> stack@[q] == base[q],
                        forall|q: int| 0 <= q < j ==> stack@[base.len() + q] == deps@[q] - 1,
                        forall|q: int| 0 <= q < base.len() ==> base[q] < n,
                        forall|q: int|
                            0 <= q < base.len() ==> reaches(nodes, blocker as int, #[trigger] base[q] as int),
                        reaches(nodes, blocker as int, current as int),
                    decreases deps@.len() - j,
                {
                    proof {
                        assert(refs_valid(nodes));
                        assert(nodes[current as int].blocked_by.contains(deps@[j as int]));
                    }
                    stack.push(deps[j] - 1);
                    j += 1;
                }
                proof {
                    assert forall|q: int| 0 <= q < stack@.len() implies stack@[q] < n && reaches(
                        nodes,
                        blocker as int,
                        #[trigger] stack@[q] as int,
                    ) by {
                        if q < base.len() {
                            assert(stack@[q] == base[q]);
                        } else {
                            let d = q - base.len();
                            assert(stack@[q] == deps@[d] - 1);
                            assert(nodes[current as int].blocked_by.contains(deps@[d]));
                            assert(edge(nodes, current as int, stack@[q] as int));
                            lemma_path_extend(nodes, blocker as int, current as int, stack@[q] as int);
                        }
                    }
                    assert forall|m: usize| base.contains(m) implies stack@.contains(m) by {
                        let q = choose|q: int| 0 <= q < base.len() && base[q] == m;
                        assert(stack@[q] == m);
                    }
                    assert forall|k: int, m: int|
                        seen.contains(k) && #[trigger] edge(nodes, k, m) implies seen.contains(m)
                        || stack@.contains(m as usize) by {
                        if k == current {
                            let d = choose|d: int|
                                0 <= d < deps@.len() && deps@[d] == (m + 1) as usize;
                            assert(stack@[base.len() + d] == m as usize);
                        } else {
                            assert(pre.contains(m as usize) || seen.contains(m));
                        }
                    }
                }
            } else {
                proof {
                    assert forall|q: int| 0 <= q < stack@.len() implies reaches(
                        nodes,
                        blocker as int,
                        #[trigger] stack@[q] as int,
                    ) by {
                        assert(stack@[q] == pre[q]);
                    }
                }
            }
        }
        proof {
            if reaches(nodes, blocker as int, task as int) {
                let p = choose|p: Seq<int>|
                    #[trigger] is_path(nodes, p) && p[0] == blocker as int && p.last() == task as int;
                lemma_closed_set(nodes, seen, p);
            }
        }
        false
    }

    /// The runnable tasks, by id.
    pub fn runnable_tasks(&self) -> (r: Vec<&TaskNode>)
        ensures
            r@.map_values(|n: &TaskNode| n@) == self@.filter(|n: TaskNodeView| runnable(n)),
    {
        proof {
            self.lemma_view();
        }
        let mut r: Vec<&TaskNode> = Vec::new();
        let mut i: usize = 0;
        while i < self.tasks.len()
            invariant
                0 <= i <= self@.len(),
                self@.len() == self.tasks@.len(),
                forall|k: int| 0 <= k < self.tasks@.len() ==> #[trigger] self@[k] == self.tasks@[k]@,
                r@.map_values(|n: &TaskNode| n@) == self@.take(i as int).filter(
                    |n: TaskNodeView| runnable(n),
                ),
            decreases self@.len() - i,
        {
            proof {
                let t = self@.take(i + 1);
                assert(t.drop_last() =~= self@.take(i as int));
                reveal_with_fuel(Seq::filter, 1);
            }
            if self.tasks[i].is_runnable() {
                r.push(&self.tasks[i]);
            }
            proof {
                let t = self@.take(i + 1);
                assert(t.last() == self@[i as int]);
                assert(r@.map_values(|n: &TaskNode| n@) =~= t.filter(|n: TaskNodeView| runnable(n)));
            }
            i += 1;
        }
        proof {
            assert(self@.take(i as int) =~= self@);
        }
        r
    }

    /// The task with the given id.
    pub fn get(&self, task_id: &str) -> (r: Option<&TaskNode>)
        requires
            self.wf(),
        ensures
            match position_of(self@, task_id@) {
                Some(k) => r matches Some(n) && n@ == self@[k],
                None => r is None,
            },
    {
        proof {
            self.lemma_view();
        }
        match self.find(task_id) {
            Some(k) => Some(&self.tasks[k]),
            None => None,
        }
    }

    /// All tasks, in ascending order of their numeric ids.
    pub fn list(&self) -> (r: Vec<&TaskNode>)
        ensures
            r@.map_values(|n: &TaskNode| n@) == self@,
    {
        proof {
            self.lemma_view();
        }
        let mut r: Vec<&TaskNode> = Vec::new();
        let mut i: usize = 0;
        while i < self.tasks.len()
            invariant
                0 <= i <= self@.len(),
                self@.len() == self.tasks@.len(),
                forall|k: int| 0 <= k < self.tasks@.len() ==> #[trigger] self@[k] == self.tasks@[k]@,
                r@.len() == i,
                forall|k: int| 0 <= k < i ==> #[trigger] r@[k]@ == self@[k],
            decreases self@.len() - i,
        {
            r.push(&self.tasks[i]);
            i += 1;
        }
        proof {
            assert(r@.map_values(|n: &TaskNode| n@) =~= self@);
        }
        r
    }
}

/// `add_dependency(t, b)` for each `b` of `bs` in turn: the tasks after, and the errors met.
pub open spec fn dependencies_all(nodes: Seq<TaskNodeView>, t: Seq<char>, bs: Seq<Seq<char>>) -> (
    Seq<TaskNodeView>,
    Seq<TaskError>,
)
    decreases bs.len(),
{
    if bs.len() == 0 {
        (nodes, Seq::empty())
    } else {
        let prev = dependencies_all(nodes, t, bs.drop_last());
        (
            dependency_state(prev.0, t, bs.last()),
            match dependency_result(prev.0, t, bs.last()) {
                Err(e) => prev.1.push(e),
                Ok(_) => prev.1,
            },
        )
    }
}

impl TaskQueue {
    /// Creates a task, then makes it wait for each task of `blocked_by` in
    /// turn. Returns its id and the errors of the dependencies that could not
    /// be added; those are skipped.
    pub fn create_with_dependencies(
        &mut self,
        subject: String,
        description: String,
        blocked_by: &Vec<String>,
        dispatch_agent: Option<String>,
        prompt: Option<String>,
    ) -> (r: (String, Vec<TaskError>))
        requires
            old(self).wf(),
            old(self)@.len() + 2 < usize::MAX,
            dispatch_agent is Some ==> prompt is Some,
        ensures
            final(self).wf(),
            r.0@ == decimal(old(self)@.len() + 1),
            final(self)@ == dependencies_all(
                old(self)@.push(
                    TaskNodeView {
                        id: r.0@,
                        subject: subject@,
                        description: description@,
                        status: TaskStatus::Pending,
                        owner: None,
                        blocked_by: Seq::empty(),
                        blocks: Seq::empty(),
                        dispatch_agent: opt_view(dispatch_agent),
                        prompt: opt_view(prompt),
                    },
                ),
                r.0@,
                blocked_by@.map_values(|s: String| s@),
            ).0,
            r.1@ == dependencies_all(
                old(self)@.push(
                    TaskNodeView {
                        id: r.0@,
                        subject: subject@,
                        description: description@,
                        status: TaskStatus::Pending,
                        owner: None,
                        blocked_by: Seq::empty(),
                        blocks: Seq::empty(),
                        dispatch_agent: opt_view(dispatch_agent),
                        prompt: opt_view(prompt),
                    },
                ),
                r.0@,
                blocked_by@.map_values(|s: String| s@),
            ).1,
    {
        let id = self.create(subject, description, dispatch_agent, prompt);
        let ghost start = self@;
        let ghost bs = blocked_by@.map_values(|s: String| s@);
        let mut errors: Vec<TaskError> = Vec::new();
        let mut j: usize = 0;
        while j < blocked_by.len()
            invariant
                0 <= j <= blocked_by@.len(),
                self.wf(),
                bs == blocked_by@.map_values(|s: String| s@),
                self@ == dependencies_all(start, id@, bs.take(j as int)).0,
                errors@ == dependencies_all(start, id@, bs.take(j as int)).1,
            decreases blocked_by@.len() - j,
        {
            proof {
                assert(bs.take(j + 1).drop_last() =~= bs.take(j as int));
                assert(bs.take(j + 1).last() == blocked_by@[j as int]@);
            }
            match self.add_dependency(id.as_str(), blocked_by[j].as_str()) {
                Ok(()) => {},
                Err(e) => {
                    errors.push(e);
                },
            }
            j += 1;
        }
        proof {
            assert(bs.take(j as int) =~= bs);
        }
        (id, errors)
    }
}

// ---------------------------------------------------------------------------
// Auto-dispatch
// ---------------------------------------------------------------------------

/// A task claimed for an automatic spawn: which agent runs it, with what prompt.
#[derive(Debug, Clone, PartialEq, Eq)]
pub struct DispatchOrder {
    pub task_id: String,
    pub agent: String,
    pub prompt: String,
}

pub open spec fn order_view(o: DispatchOrder) -> (Seq<char>, Seq<char>, Seq<char>) {
    (o.task_id@, o.agent@, o.prompt@)
}

/// The owner recorded for a task claimed on behalf of `agent`.
pub open spec fn auto_owner(agent: Seq<char>) -> Seq<char> {
    "auto:"@ + agent
}

/// Claiming the task `id` for its dispatch agent, if it names one with a prompt
/// and is runnable and unowned: the tasks after, and the order made.
pub open spec fn dispatch_step(nodes: Seq<TaskNodeView>, id: Seq<char>) -> (
    Seq<TaskNodeView>,
    Option<(Seq<char>, Seq<char>, Seq<char>)>,
) {
    match position_of(nodes, id) {
        Some(k) => {
            let n = nodes[k];
            if n.dispatch_agent is Some && n.prompt is Some && runnable(n) && n.owner is None {
                (
                    nodes.update(
                        k,
                        TaskNodeView {
                            status: TaskStatus::InProgress,
                            owner: Some(auto_owner(n.dispatch_agent->0)),
                            ..n
                        },
                    ),
                    Some((id, n.dispatch_agent->0, n.prompt->0)),
                )
            } else {
                (nodes, None)
            }
        },
        None => (nodes, None),
    }
}

/// `dispatch_step` over each id of `ids` in turn: the tasks after, and the orders made.
pub open spec fn dispatch_all(nodes: Seq<TaskNodeView>, ids: Seq<Seq<char>>) -> (
    Seq<TaskNodeView>,
    Seq<(Seq<char>, Seq<char>, Seq<char>)>,
)
    decreases ids.len(),
{
    if ids.len() == 0 {
        (nodes, Seq::empty())
    } else {
        let prev = dispatch_all(nodes, ids.drop_last());
        let step = dispatch_step(prev.0, ids.last());
        (
            step.0,
            match step.1 {
                Some(o) => prev.1.push(o),
                None => prev.1,
            },
        )
    }
}

impl TaskQueue {
    /// Claims the task `task_id` for its dispatch agent, when it has one.
    pub fn claim_for_dispatch(&mut self, task_id: &str) -> (r: Option<DispatchOrder>)
        requires
            old(self).wf(),
        ensures
            final(self).wf(),
            final(self)@ == dispatch_step(old(self)@, task_id@).0,
            match dispatch_step(old(self)@, task_id@).1 {
                Some(o) => r matches Some(d) && order_view(d) == o,
                None => r is None,
            },
    {
        proof {
            self.lemma_view();
        }
        let k = match self.find(task_id) {
            Some(k) => k,
            None => {
                return None;
            },
        };
        let (agent, prompt) = match (&self.tasks[k].dispatch_agent, &self.tasks[k].prompt) {
            (Some(a), Some(p)) => (a.clone(), p.clone()),
            _ => {
                return None;
            },
        };
        let mut owner = String::new();
        push_text(&mut owner, "auto:");
        push_text(&mut owner, agent.as_str());
        if self.claim(task_id, owner.as_str()) {
            proof {
                assert(owner@ == auto_owner(agent@));
            }
            Some(DispatchOrder { task_id: task_id.to_owned(), agent, prompt })
        } else {
            None
        }
    }

    /// Completes a task, then claims each task it leaves runnable that names a
    /// dispatch agent and a prompt. Returns the ids left runnable and the orders
    /// for the tasks that were claimed.
    pub fn complete_and_dispatch(&mut self, task_id: &str) -> (r: (Vec<String>, Vec<DispatchOrder>))
        requires
            old(self).wf(),
        ensures
            final(self).wf(),
            r.0@.map_values(|s: String| s@) == complete_result(old(self)@, task_id@),
            final(self)@ == dispatch_all(
                complete_state(old(self)@, task_id@),
                complete_result(old(self)@, task_id@),
            ).0,
            r.1@.map_values(|o: DispatchOrder| order_view(o)) == dispatch_all(
                complete_state(old(self)@, task_id@),
                complete_result(old(self)@, task_id@),
            ).1,
    {
        let freed = self.complete(task_id);
        let ghost after = self@;
        let ghost ids = freed@.map_values(|s: String| s@);
        let mut orders: Vec<DispatchOrder> = Vec::new();
        let mut j: usize = 0;
        while j < freed.len()
            invariant
                0 <= j <= freed@.len(),
                self.wf(),
                ids == freed@.map_values(|s: String| s@),
                self@ == dispatch_all(after, ids.take(j as int)).0,
                orders@.map_values(|o: DispatchOrder| order_view(o)) == dispatch_all(
                    after,
                    ids.take(j as int),
                ).1,
            decreases freed@.len() - j,
        {
            proof {
                assert(ids.take(j + 1).drop_last() =~= ids.take(j as int));
                assert(ids.take(j + 1).last() == freed@[j as int]@);
            }
            if let Some(o) = self.claim_for_dispatch(freed[j].as_str()) {
                orders.push(o);
            }
            proof {
                assert(orders@.map_values(|o: DispatchOrder| order_view(o)) =~= dispatch_all(
                    after,
                    ids.take(j + 1),
                ).1);
            }
            j += 1;
        }
        proof {
            assert(ids.take(j as int) =~= ids);
        }
        (freed, orders)
    }
}

// ---------------------------------------------------------------------------
// Laws
// ---------------------------------------------------------------------------

proof fn lemma_position(nodes: Seq<TaskNodeView>, s: Seq<char>, k: int)
    requires
        ids_numbered(nodes),
        0 <= k < nodes.len(),
        nodes[k].id == s,
    ensures
        position_of(nodes, s) == Some(k),
{
    let c = choose|c: int| 0 <= c < nodes.len() && #[trigger] nodes[c].id == s;
    assert(nodes[c].id == s);
    assert(nodes[c].id == decimal((c + 1) as nat));
    assert(nodes[k].id == decimal((k + 1) as nat));
    lemma_decimal_injective((c + 1) as nat, (k + 1) as nat);
}

proof fn lemma_same_ids(n0: Seq<TaskNodeView>, n1: Seq<TaskNodeView>, s: Seq<char>)
    requires
        ids_numbered(n0),
        n1.len() == n0.len(),
        forall|i: int| 0 <= i < n1.len() ==> (#[trigger] n1[i]).id == n0[i].id,
    ensures
        ids_numbered(n1),
        position_of(n1, s) == position_of(n0, s),
{
    assert forall|i: int| 0 <= i < n1.len() implies #[trigger] n1[i].id == decimal((i + 1) as nat) by {
        assert(n1[i].id == n0[i].id);
        assert(n0[i].id == decimal((i + 1) as nat));
    }
    if let Some(k) = position_of(n0, s) {
        assert(n0[k].id == s);
        assert(n1[k].id == s);
        lemma_position(n1, s, k);
    } else {
        assert forall|k: int| 0 <= k < n1.len() implies #[trigger] n1[k].id != s by {
            assert(n1[k].id == n0[k].id);
            if n0[k].id == s {
                assert(0 <= k < n0.len() && n0[k].id == s);
            }
        }
    }
}

/// In every well-formed queue the dependency graph has no cycle, and a task
/// lists another among its blockers exactly when the other lists it among the
/// tasks it blocks.
pub proof fn lemma_task_graph(q: &TaskQueue)
    requires
        q.wf(),
    ensures
        acyclic(q@),
        mirrored(q@),
{
}

/// Adding the same dependency a second time changes nothing and reports what
/// the first call reported.
pub proof fn lemma_add_dependency_idempotent(q: &TaskQueue, t: Seq<char>, b: Seq<char>)
    requires
        q.wf(),
    ensures
        dependency_result(dependency_state(q@, t, b), t, b) == dependency_result(q@, t, b),
        dependency_state(dependency_state(q@, t, b), t, b) == dependency_state(q@, t, b),
{
    let n0 = q@;
    let n1 = dependency_state(n0, t, b);
    if dependency_result(n0, t, b) is Ok {
        let ti = position_of(n0, t)->0;
        let bi = position_of(n0, b)->0;
        assert(n0[ti].id == t);
        assert(n0[bi].id == b);
        assert(ti != bi);
        assert(n1.len() == n0.len());
        assert forall|i: int| 0 <= i < n1.len() implies (#[trigger] n1[i]).id == n0[i].id by {}
        lemma_same_ids(n0, n1, t);
        lemma_same_ids(n0, n1, b);
        assert(refs_valid(n0));
        assert(n0[ti].blocked_by.no_duplicates());
        lemma_with_value(n0[ti].blocked_by, (bi + 1) as usize);
        assert forall|a: int, c: int| #[trigger]
            edge(n1, a, c) implies edge(n0, a, c) || (a == ti && c == bi) by {
            if a != ti {
                assert(n1[a].blocked_by == n0[a].blocked_by);
            }
        }
        lemma_add_edge_acyclic(n0, n1, ti, bi);
        assert(edge(n1, ti, bi));
        assert(!reaches(n1, bi, ti));
        lemma_with_value(n0[bi].blocks, (ti + 1) as usize);
        assert(n1[bi].blocks.contains((ti + 1) as usize));
        let n2 = dependency_state(n1, t, b);
        assert(n2 =~= n1);
    }
}

/// Completing a task that is already completed changes nothing and frees no task.
pub proof fn lemma_complete_completed_is_noop(q: &TaskQueue, t: Seq<char>)
    requires
        q.wf(),
        position_of(q@, t) matches Some(x) && q@[x].status == TaskStatus::Completed,
    ensures
        complete_result(q@, t) == Seq::<Seq<char>>::empty(),
        complete_state(q@, t) == q@,
{
}

/// Completing the same task twice: the second call changes nothing and frees no task.
pub proof fn lemma_complete_twice(q: &TaskQueue, t: Seq<char>)
    requires
        q.wf(),
    ensures
        complete_result(complete_state(q@, t), t) == Seq::<Seq<char>>::empty(),
        complete_state(complete_state(q@, t), t) == complete_state(q@, t),
{
    let n0 = q@;
    if let Some(x) = position_of(n0, t) {
        if n0[x].status != TaskStatus::Completed {
            let n1 = completed_state(n0, x);
            assert forall|i: int| 0 <= i < n1.len() implies (#[trigger] n1[i]).id == n0[i].id by {}
            lemma_same_ids(n0, n1, t);
            assert(n1[x].status == TaskStatus::Completed);
        }
    }
}

impl Default for TaskQueue {
    fn default() -> (r: Self)
        ensures
            r.wf(),
            r@.len() == 0,
    {
        TaskQueue::new()
    }
}

/// Compares two texts.
fn str_eq(a: &str, b: &str) -> (r: bool)
    ensures
        r == (a@ == b@),
{
    let x = a.to_owned();
    let y = b.to_owned();
    x == y
}

fn contains_number(v: &Vec<usize>, x: usize) -> (r: bool)
    ensures
        r == v@.contains(x),
{
    let mut i: usize = 0;
    while i < v.len()
        invariant
            0 <= i <= v@.len(),
            forall|k: int| 0 <= k < i ==> v@[k] != x,
        decreases v@.len() - i,
    {
        if v[i] == x {
            return true;
        }
        i += 1;
    }
    false
}

fn remove_number(v: &mut Vec<usize>, x: usize)
    requires
        old(v)@.no_duplicates(),
    ensures
        final(v)@ == without_value(old(v)@, x),
{
    let mut i: usize = 0;
    while i < v.len()
        invariant
            0 <= i <= v@.len(),
            v@ == old(v)@,
            old(v)@.no_duplicates(),
            forall|k: int| 0 <= k < i ==> v@[k] != x,
        decreases v@.len() - i,
    {
        if v[i] == x {
            proof {
                let c = old(v)@.index_of(x);
                assert(old(v)@.contains(x));
                assert(old(v)@[c] == x);
                assert(c == i as int);
            }
            v.remove(i);
            return;
        }
        i += 1;
    }
}

} // verus!
