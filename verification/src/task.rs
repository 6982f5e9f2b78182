use vstd::prelude::*;
use crate::text::chars_to_string;
use crate::text::dec_chars;
use crate::text::str_to_chars;
use crate::text::usize_to_chars;

verus! {

/// One to-do entry: a description and a completion flag.
pub struct Todo {
    pub task: String,
    pub completed: bool,
}

/// The mathematical content of a task list: the ordered sequence of
/// (description, completed) pairs.
pub open spec fn pairs(s: Seq<Todo>) -> Seq<(Seq<char>, bool)> {
    s.map(|i: int, t: Todo| (t.task@, t.completed))
}

impl Todo {
    /// A fresh task: the given description, not yet completed.
    pub fn new(task: &str) -> (t: Todo)
        ensures
            t.task@ == task@,
            !t.completed,
    {
        Todo { task: task.to_owned(), completed: false }
    }
}

/// Append a new, uncompleted task with the given description.
pub fn add_task(todos: &mut Vec<Todo>, task: &str)
    ensures
        final(todos)@.len() == old(todos)@.len() + 1,
        pairs(final(todos)@) == pairs(old(todos)@).push((task@, false)),
{
    todos.push(Todo::new(task));
    proof {
        assert(pairs(todos@) =~= pairs(old(todos)@).push((task@, false)));
    }
}

/// Mark the task at 1-based position n as completed; true iff n was in
/// range. Every other task, and the description at n, stay as they were.
pub fn complete_task(todos: &mut Vec<Todo>, n: usize) -> (ok: bool)
    ensures
        ok == (1 <= n && n <= old(todos)@.len()),
        ok ==> pairs(final(todos)@) == pairs(old(todos)@).update(
            n - 1,
            (old(todos)@[n - 1].task@, true),
        ),
        !ok ==> final(todos)@ == old(todos)@,
{
    if n >= 1 && n <= todos.len() {
        let t = todos.remove(n - 1);
        let done = Todo { task: t.task, completed: true };
        todos.insert(n - 1, done);
        proof {
            assert(pairs(todos@) =~= pairs(old(todos)@).update(
                n - 1,
                (old(todos)@[n - 1].task@, true),
            ));
        }
        true
    } else {
        false
    }
}

/// The completion marker shown before a task.
pub open spec fn marker(completed: bool) -> Seq<char> {
    if completed {
        seq!['[', 'x', ']']
    } else {
        seq!['[', ' ', ']']
    }
}

/// The display line for a (description, completed) pair at 1-based
/// position n.
pub open spec fn line_of_pair(n: nat, p: (Seq<char>, bool)) -> Seq<char> {
    dec_chars(n) + seq![':', ' '] + marker(p.1) + seq![' '] + p.0
}

/// The display line for the task at 1-based position n.
pub open spec fn line_of(n: nat, t: Todo) -> Seq<char> {
    line_of_pair(n, (t.task@, t.completed))
}

/// Render one display line.
pub fn render_line(n: usize, t: &Todo) -> (r: String)
    ensures
        r@ == line_of(n as nat, *t),
{
    let mut v = usize_to_chars(n);
    v.push(':');
    v.push(' ');
    v.push('[');
    if t.completed {
        v.push('x');
    } else {
        v.push(' ');
    }
    v.push(']');
    v.push(' ');
    let mut rest = str_to_chars(t.task.as_str());
    v.append(&mut rest);
    proof {
        assert(v@ =~= line_of(n as nat, *t));
    }
    chars_to_string(&v)
}

/// The display lines of a whole list, in order, 1-indexed.
pub fn render_lines(todos: &Vec<Todo>) -> (r: Vec<String>)
    ensures
        r@.len() == todos@.len(),
        forall|i: int| 0 <= i < todos@.len() ==> r@[i]@ == line_of((i + 1) as nat, todos@[i]),
{
    let mut r: Vec<String> = Vec::new();
    let mut i: usize = 0;
    while i < todos.len()
        invariant
            i <= todos@.len(),
            r@.len() == i,
            forall|j: int| 0 <= j < i ==> r@[j]@ == line_of((j + 1) as nat, todos@[j]),
        decreases todos@.len() - i,
    {
        let line = render_line(i + 1, &todos[i]);
        r.push(line);
        i = i + 1;
    }
    r
}

} // verus!
