//! A per-agent goal with a numbered checklist.
use vstd::prelude::*;

use crate::text::{decimal, decimal_string, push_text};

verus! {

#[derive(Debug, Clone, Copy, PartialEq, Eq, Structural)]
pub enum TodoStatus {
    Pending,
    Done,
}

/// The icon shown in front of an item of the given status.
pub open spec fn icon_text(status: TodoStatus) -> Seq<char> {
    match status {
        TodoStatus::Pending => "○"@,
        TodoStatus::Done => "✓"@,
    }
}

impl TodoStatus {
    pub fn icon(&self) -> (r: &'static str)
        ensures
            r@ == icon_text(*self),
    {
        match self {
            TodoStatus::Pending => "○",
            TodoStatus::Done => "✓",
        }
    }
}

#[derive(Debug, Clone)]
pub struct TodoItem {
    pub id: usize,
    pub desc: String,
    pub done: bool,
}

#[derive(Debug, Clone)]
pub struct TodoList {
    pub goal: String,
    pub todos: Vec<TodoItem>,
}

/// The largest id among `items`, or 0 when there is none.
pub open spec fn max_id(items: Seq<TodoItem>) -> nat
    decreases items.len(),
{
    if items.len() == 0 {
        0
    } else {
        let rest = max_id(items.drop_last());
        if items.last().id as nat > rest {
            items.last().id as nat
        } else {
            rest
        }
    }
}

/// The number of items that are done.
pub open spec fn done_count(items: Seq<TodoItem>) -> nat
    decreases items.len(),
{
    if items.len() == 0 {
        0
    } else {
        done_count(items.drop_last()) + if items.last().done { 1nat } else { 0nat }
    }
}

/// The number of items that are not done.
pub open spec fn pending_count(items: Seq<TodoItem>) -> nat
    decreases items.len(),
{
    if items.len() == 0 {
        0
    } else {
        pending_count(items.drop_last()) + if items.last().done { 0nat } else { 1nat }
    }
}

/// Ids are positive and strictly increase along the list.
pub open spec fn ids_increasing(items: Seq<TodoItem>) -> bool {
    &&& forall|i: int| 0 <= i < items.len() ==> items[i].id >= 1
    &&& forall|i: int, j: int| 0 <= i < j < items.len() ==> items[i].id < items[j].id
}

/// The line that shows one item after its indent: icon, id, a dot, description.
pub open spec fn item_line(item: TodoItem) -> Seq<char> {
    icon_text(if item.done { TodoStatus::Done } else { TodoStatus::Pending }) + " "@
        + decimal(item.id as nat) + ". "@ + item.desc@
}

/// The item lines, each preceded by a line break and an indent of two spaces.
pub open spec fn item_lines(items: Seq<TodoItem>) -> Seq<char>
    decreases items.len(),
{
    if items.len() == 0 {
        Seq::empty()
    } else {
        item_lines(items.drop_last()) + "\n  "@ + item_line(items.last())
    }
}

/// The text that shows a list to the model.
pub open spec fn rendered(goal: Seq<char>, items: Seq<TodoItem>) -> Seq<char> {
    (if goal.len() > 0 {
        "Goal: "@ + goal + "\n"@
    } else {
        Seq::empty()
    }) + "Progress: "@ + decimal(done_count(items)) + "/"@ + decimal(items.len()) + " completed"@
        + item_lines(items)
}

/// The position of the first item with the given id, if any.
pub open spec fn first_with_id(items: Seq<TodoItem>, id: usize, k: int) -> bool {
    &&& 0 <= k < items.len()
    &&& items[k].id == id
    &&& forall|j: int| 0 <= j < k ==> items[j].id != id
}

proof fn lemma_max_id_bound(items: Seq<TodoItem>)
    ensures
        forall|i: int| 0 <= i < items.len() ==> items[i].id <= max_id(items),
    decreases items.len(),
{
    if items.len() > 0 {
        lemma_max_id_bound(items.drop_last());
        assert forall|i: int| 0 <= i < items.len() implies items[i].id <= max_id(items) by {
            if i < items.len() - 1 {
                assert(items.drop_last()[i] == items[i]);
            }
        }
    }
}

proof fn lemma_counts_sum(items: Seq<TodoItem>)
    ensures
        done_count(items) + pending_count(items) == items.len(),
    decreases items.len(),
{
    if items.len() > 0 {
        lemma_counts_sum(items.drop_last());
    }
}

/// Every list is split exactly into its completed and its pending items.
pub proof fn lemma_todo_counts(list: TodoList)
    ensures
        done_count(list.todos@) + pending_count(list.todos@) == list.todos@.len(),
{
    lemma_counts_sum(list.todos@);
}

fn render_item(item: &TodoItem) -> (r: String)
    ensures
        r@ == "\n  "@ + item_line(*item),
{
    let status = if item.done {
        TodoStatus::Done
    } else {
        TodoStatus::Pending
    };
    let mut line = String::new();
    push_text(&mut line, "\n  ");
    push_text(&mut line, status.icon());
    push_text(&mut line, " ");
    let id_text = decimal_string(item.id);
    push_text(&mut line, id_text.as_str());
    push_text(&mut line, ". ");
    push_text(&mut line, item.desc.as_str());
    assert(line@ =~= "\n  "@ + item_line(*item));
    line
}

impl TodoList {
    pub fn new(goal: &str) -> (r: Self)
        ensures
            r.goal@ == goal@,
            r.todos@.len() == 0,
            ids_increasing(r.todos@),
    {
        TodoList { goal: goal.to_owned(), todos: Vec::new() }
    }

    /// Appends a pending item whose id is one more than the largest id so far.
    pub fn add(&mut self, task: &str) -> (id: usize)
        requires
            max_id(old(self).todos@) < usize::MAX,
        ensures
            id == max_id(old(self).todos@) + 1,
            final(self).goal == old(self).goal,
            final(self).todos@.len() == old(self).todos@.len() + 1,
            final(self).todos@.drop_last() == old(self).todos@,
            final(self).todos@.last().id == id,
            final(self).todos@.last().desc@ == task@,
            !final(self).todos@.last().done,
            ids_increasing(old(self).todos@) ==> ids_increasing(final(self).todos@),
    {
        let mut max: usize = 0;
        let mut i: usize = 0;
        while i < self.todos.len()
            invariant
                0 <= i <= self.todos@.len(),
                max == max_id(self.todos@.take(i as int)),
                max_id(self.todos@) < usize::MAX,
            decreases self.todos@.len() - i,
        {
            proof {
                assert(self.todos@.take(i + 1).drop_last() =~= self.todos@.take(i as int));
            }
            if self.todos[i].id > max {
                max = self.todos[i].id;
            }
            i += 1;
        }
        proof {
            assert(self.todos@.take(i as int) =~= self.todos@);
            lemma_max_id_bound(self.todos@);
        }
        let id = max + 1;
        let item = TodoItem { id, desc: task.to_owned(), done: false };
        self.todos.push(item);
        proof {
            assert(self.todos@.drop_last() =~= old(self).todos@);
        }
        id
    }

    /// Marks the first item with the given id as done; false when there is none.
    pub fn mark_done(&mut self, id: usize) -> (found: bool)
        ensures
            final(self).goal == old(self).goal,
            found == exists|k: int| 0 <= k < old(self).todos@.len() && old(self).todos@[k].id == id,
            found ==> exists|k: int|
                first_with_id(old(self).todos@, id, k) && final(self).todos@
                    == old(self).todos@.update(k, (TodoItem { done: true, ..old(self).todos@[k] })),
            !found ==> final(self).todos@ == old(self).todos@,
            ids_increasing(old(self).todos@) ==> ids_increasing(final(self).todos@),
    {
        let mut i: usize = 0;
        while i < self.todos.len()
            invariant
                0 <= i <= self.todos@.len(),
                self.todos@ == old(self).todos@,
                self.goal == old(self).goal,
                forall|j: int| 0 <= j < i ==> self.todos@[j].id != id,
            decreases self.todos@.len() - i,
        {
            if self.todos[i].id == id {
                let item = TodoItem { id: self.todos[i].id, desc: self.todos[i].desc.clone(), done: true };
                proof {
                    assert(item == (TodoItem { done: true, ..old(self).todos@[i as int] }));
                }
                self.todos.set(i, item);
                proof {
                    assert(first_with_id(old(self).todos@, id, i as int));
                    assert(self.todos@ == old(self).todos@.update(
                        i as int,
                        (TodoItem { done: true, ..old(self).todos@[i as int] }),
                    ));
                }
                return true;
            }
            i += 1;
        }
        false
    }

    pub fn has_incomplete(&self) -> (r: bool)
        ensures
            r == exists|k: int| 0 <= k < self.todos@.len() && !self.todos@[k].done,
    {
        let mut i: usize = 0;
        while i < self.todos.len()
            invariant
                0 <= i <= self.todos@.len(),
                forall|j: int| 0 <= j < i ==> self.todos@[j].done,
            decreases self.todos@.len() - i,
        {
            if !self.todos[i].done {
                return true;
            }
            i += 1;
        }
        false
    }

    pub fn is_empty(&self) -> (r: bool)
        ensures
            r == (self.todos@.len() == 0),
    {
        self.todos.len() == 0
    }

    pub fn render_for_model(&self) -> (r: String)
        ensures
            r@ == rendered(self.goal@, self.todos@),
    {
        let mut out = String::new();
        if !self.goal.as_str().is_empty() {
            push_text(&mut out, "Goal: ");
            push_text(&mut out, self.goal.as_str());
            push_text(&mut out, "\n");
        }
        push_text(&mut out, "Progress: ");
        let done = self.completed_count();
        let done_text = decimal_string(done);
        push_text(&mut out, done_text.as_str());
        push_text(&mut out, "/");
        let total_text = decimal_string(self.todos.len());
        push_text(&mut out, total_text.as_str());
        push_text(&mut out, " completed");
        let ghost head = out@;
        let mut i: usize = 0;
        while i < self.todos.len()
            invariant
                0 <= i <= self.todos@.len(),
                out@ == head + item_lines(self.todos@.take(i as int)),
            decreases self.todos@.len() - i,
        {
            let line = render_item(&self.todos[i]);
            push_text(&mut out, line.as_str());
            proof {
                let t = self.todos@.take(i + 1);
                assert(t.drop_last() =~= self.todos@.take(i as int));
                assert(out@ =~= head + item_lines(t));
            }
            i += 1;
        }
        proof {
            assert(self.todos@.take(i as int) =~= self.todos@);
        }
        out
    }

    pub fn incomplete_count(&self) -> (r: usize)
        ensures
            r == pending_count(self.todos@),
    {
        let mut count: usize = 0;
        let mut i: usize = 0;
        while i < self.todos.len()
            invariant
                0 <= i <= self.todos@.len(),
                count == pending_count(self.todos@.take(i as int)),
                count <= i,
            decreases self.todos@.len() - i,
        {
            proof {
                assert(self.todos@.take(i + 1).drop_last() =~= self.todos@.take(i as int));
            }
            if !self.todos[i].done {
                count += 1;
            }
            i += 1;
        }
        proof {
            assert(self.todos@.take(i as int) =~= self.todos@);
        }
        count
    }

    pub fn completed_count(&self) -> (r: usize)
        ensures
            r == done_count(self.todos@),
    {
        let mut count: usize = 0;
        let mut i: usize = 0;
        while i < self.todos.len()
            invariant
                0 <= i <= self.todos@.len(),
                count == done_count(self.todos@.take(i as int)),
                count <= i,
            decreases self.todos@.len() - i,
        {
            proof {
                assert(self.todos@.take(i + 1).drop_last() =~= self.todos@.take(i as int));
            }
            if self.todos[i].done {
                count += 1;
            }
            i += 1;
        }
        proof {
            assert(self.todos@.take(i as int) =~= self.todos@);
        }
        count
    }
}

/// One request of the todo tool family, with its arguments already read.
#[derive(Debug, Clone)]
pub enum TodoAction {
    /// Start a new list with this goal.
    Init(String),
    /// Add an item with this description.
    Add(String),
    /// Mark the item with this id done; `None` when no usable id was given.
    Done(Option<usize>),
    /// Show the list.
    List,
}

/// What a todo request did.
#[derive(Debug, Clone, Copy, PartialEq, Eq, Structural)]
pub enum TodoOutcome {
    Initialized,
    Added(usize),
    Marked(usize),
    NotFound(usize),
    MissingTask,
    MissingId,
    /// No id is left above the largest one in the list.
    IdsExhausted,
    Listed,
}

impl TodoList {
    pub fn largest_id(&self) -> (r: usize)
        ensures
            r == max_id(self.todos@),
    {
        let mut max: usize = 0;
        let mut i: usize = 0;
        while i < self.todos.len()
            invariant
                0 <= i <= self.todos@.len(),
                max == max_id(self.todos@.take(i as int)),
            decreases self.todos@.len() - i,
        {
            proof {
                assert(self.todos@.take(i + 1).drop_last() =~= self.todos@.take(i as int));
            }
            if self.todos[i].id > max {
                max = self.todos[i].id;
            }
            i += 1;
        }
        proof {
            assert(self.todos@.take(i as int) =~= self.todos@);
        }
        max
    }
}

/// Carries out one todo request on an agent's list.
pub fn apply_todo_action(list: &mut TodoList, action: TodoAction) -> (r: TodoOutcome)
    ensures
        match action {
            TodoAction::Init(goal) => r == TodoOutcome::Initialized && final(list).goal@ == goal@
                && final(list).todos@.len() == 0,
            TodoAction::Add(task) => if task@.len() == 0 {
                r == TodoOutcome::MissingTask && *final(list) == *old(list)
            } else if max_id(old(list).todos@) == usize::MAX {
                r == TodoOutcome::IdsExhausted && *final(list) == *old(list)
            } else {
                &&& r == TodoOutcome::Added((max_id(old(list).todos@) + 1) as usize)
                &&& final(list).goal == old(list).goal
                &&& final(list).todos@.drop_last() == old(list).todos@
                &&& final(list).todos@.last().id == max_id(old(list).todos@) + 1
                &&& final(list).todos@.last().desc@ == task@
                &&& !final(list).todos@.last().done
            },
            TodoAction::Done(None) => r == TodoOutcome::MissingId && *final(list) == *old(list),
            TodoAction::Done(Some(id)) => {
                let found = exists|k: int|
                    0 <= k < old(list).todos@.len() && old(list).todos@[k].id == id;
                &&& r == if found {
                    TodoOutcome::Marked(id)
                } else {
                    TodoOutcome::NotFound(id)
                }
                &&& final(list).goal == old(list).goal
                &&& found ==> exists|k: int|
                    first_with_id(old(list).todos@, id, k) && final(list).todos@ == old(
                        list,
                    ).todos@.update(k, (TodoItem { done: true, ..old(list).todos@[k] }))
                &&& !found ==> final(list).todos@ == old(list).todos@
            },
            TodoAction::List => r == TodoOutcome::Listed && *final(list) == *old(list),
        },
{
    match action {
        TodoAction::Init(goal) => {
            *list = TodoList::new(goal.as_str());
            TodoOutcome::Initialized
        },
        TodoAction::Add(task) => {
            if task.as_str().is_empty() {
                return TodoOutcome::MissingTask;
            }
            if list.largest_id() == usize::MAX {
                return TodoOutcome::IdsExhausted;
            }
            let id = list.add(task.as_str());
            TodoOutcome::Added(id)
        },
        TodoAction::Done(None) => TodoOutcome::MissingId,
        TodoAction::Done(Some(id)) => {
            if list.mark_done(id) {
                TodoOutcome::Marked(id)
            } else {
                TodoOutcome::NotFound(id)
            }
        },
        TodoAction::List => TodoOutcome::Listed,
    }
}

impl Default for TodoList {
    fn default() -> (r: Self)
        ensures
            r.goal@.len() == 0,
            r.todos@.len() == 0,
    {
        TodoList { goal: String::new(), todos: Vec::new() }
    }
}

} // verus!
