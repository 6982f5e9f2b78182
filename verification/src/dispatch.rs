use vstd::prelude::*;
use crate::task::Todo;
use crate::task::add_task;
use crate::task::complete_task;
use crate::task::line_of_pair;
use crate::task::pairs;
use crate::task::render_lines;
use crate::text::all_digits;
use crate::text::chars_to_string;
use crate::text::dec_chars;
use crate::text::dec_val;
use crate::text::parse_index;
use crate::text::str_eq;
use crate::text::usize_to_chars;
use vstd::string::StringExecFns;

verus! {

/// What one invocation decided: the list afterwards, whether it must
/// be persisted, whether the invocation is a fatal input error, and
/// the lines to print, in order.
pub struct Outcome {
    pub todos: Vec<Todo>,
    pub save: bool,
    pub fatal: bool,
    pub output: Vec<String>,
}

pub open spec fn usage_msg() -> Seq<char> {
    "Usage: todo <command> [task]"@
}

pub open spec fn missing_task_msg() -> Seq<char> {
    "Please provide a task to add."@
}

pub open spec fn added_msg(t: Seq<char>) -> Seq<char> {
    "Added task: "@ + t
}

pub open spec fn missing_index_msg() -> Seq<char> {
    "Please provide the task number to complete."@
}

pub open spec fn invalid_index_msg() -> Seq<char> {
    "Invalid index"@
}

pub open spec fn no_such_task_msg() -> Seq<char> {
    "Task number does not exist."@
}

pub open spec fn marked_msg(n: nat) -> Seq<char> {
    "Marked task "@ + dec_chars(n) + " as completed."@
}

pub open spec fn unknown_msg() -> Seq<char> {
    "Unknown command. Use 'add', 'list', or 'complete'."@
}

/// Everything one invocation guarantees, over the argument texts `a`
/// (the program name excluded) and the loaded list `before`.
pub open spec fn run_post(a: Seq<Seq<char>>, before: Seq<(Seq<char>, bool)>, r: Outcome) -> bool {
    &&& (!r.save ==> pairs(r.todos@) == before)
    &&& (a.len() == 0 ==> !r.save && !r.fatal && r.output.deep_view() == seq![usage_msg()])
    &&& (a.len() >= 1 && a[0] == "add"@ && a.len() == 1 ==> !r.save && !r.fatal
        && r.output.deep_view() == seq![missing_task_msg()])
    &&& (a.len() >= 2 && a[0] == "add"@ ==> r.save && !r.fatal && pairs(r.todos@) == before.push(
        (a[1], false),
    ) && r.output.deep_view() == seq![added_msg(a[1])])
    &&& (a.len() >= 1 && a[0] == "list"@ ==> !r.save && !r.fatal && r.output.deep_view()
        == Seq::new(before.len(), |i: int| line_of_pair((i + 1) as nat, before[i])))
    &&& (a.len() >= 1 && a[0] == "complete"@ && a.len() == 1 ==> !r.save && !r.fatal
        && r.output.deep_view() == seq![missing_index_msg()])
    &&& (a.len() >= 2 && a[0] == "complete"@ && (a[1].len() == 0 || !all_digits(a[1]) || dec_val(
        a[1],
    ) > usize::MAX) ==> !r.save && r.fatal && r.output.deep_view() == seq![invalid_index_msg()])
    &&& (a.len() >= 2 && a[0] == "complete"@ && a[1].len() > 0 && all_digits(a[1]) && dec_val(a[1])
        <= usize::MAX ==> {
        let n = dec_val(a[1]);
        if 1 <= n <= before.len() {
            &&& r.save
            &&& !r.fatal
            &&& pairs(r.todos@) == before.update(n - 1, (before[n - 1].0, true))
            &&& r.output.deep_view() == seq![marked_msg(n)]
        } else {
            &&& !r.save
            &&& !r.fatal
            &&& r.output.deep_view() == seq![no_such_task_msg()]
        }
    })
    &&& (a.len() >= 1 && a[0] != "add"@ && a[0] != "list"@ && a[0] != "complete"@ ==> !r.save
        && !r.fatal && r.output.deep_view() == seq![unknown_msg()])
}

fn one_line(msg: String) -> (r: Vec<String>)
    ensures
        r.deep_view() == seq![msg@],
{
    let mut r: Vec<String> = Vec::new();
    r.push(msg);
    proof {
        assert(r.deep_view() =~= seq![r@[0]@]);
    }
    r
}

/// One invocation of the tracker: interpret the arguments against the
/// loaded list, mutate it where the command says so, and say whether
/// the result must be persisted.
pub fn run(args: &Vec<String>, todos: Vec<Todo>) -> (r: Outcome)
    ensures
        run_post(args.deep_view(), pairs(todos@), r),
{
    let ghost a = args.deep_view();
    let ghost before = pairs(todos@);
    proof {
        reveal_strlit("add");
        reveal_strlit("list");
        reveal_strlit("complete");
    }
    if args.len() == 0 {
        let output = one_line(String::from_str("Usage: todo <command> [task]"));
        return Outcome { todos, save: false, fatal: false, output };
    }
    let cmd = &args[0];
    proof {
        assert(a[0] == args@[0]@);
        assert(a.len() >= 2 ==> a[1] == args@[1]@);
    }
    if str_eq(cmd.as_str(), "add") {
        if args.len() < 2 {
            let output = one_line(String::from_str("Please provide a task to add."));
            return Outcome { todos, save: false, fatal: false, output };
        }
        let text = args[1].clone();
        let mut todos = todos;
        add_task(&mut todos, text.as_str());
        let mut msg = String::from_str("Added task: ");
        msg.append(text.as_str());
        let output = one_line(msg);
        return Outcome { todos, save: true, fatal: false, output };
    } else if str_eq(cmd.as_str(), "list") {
        let output = render_lines(&todos);
        proof {
            assert(output.deep_view() =~= Seq::new(
                before.len(),
                |i: int| line_of_pair((i + 1) as nat, before[i]),
            ));
        }
        return Outcome { todos, save: false, fatal: false, output };
    } else if str_eq(cmd.as_str(), "complete") {
        if args.len() < 2 {
            let output = one_line(String::from_str("Please provide the task number to complete."));
            return Outcome { todos, save: false, fatal: false, output };
        }
        match parse_index(args[1].as_str()) {
            None => {
                let output = one_line(String::from_str("Invalid index"));
                Outcome { todos, save: false, fatal: true, output }
            },
            Some(n) => {
                let mut todos = todos;
                let ok = complete_task(&mut todos, n);
                if ok {
                    let mut msg = String::from_str("Marked task ");
                    let num = usize_to_chars(n);
                    let num_str = chars_to_string(&num);
                    msg.append(num_str.as_str());
                    msg.append(" as completed.");
                    proof {
                        assert(msg@ == marked_msg(n as nat));
                    }
                    let output = one_line(msg);
                    Outcome { todos, save: true, fatal: false, output }
                } else {
                    let output = one_line(String::from_str("Task number does not exist."));
                    Outcome { todos, save: false, fatal: false, output }
                }
            },
        }
    } else {
        let output = one_line(String::from_str("Unknown command. Use 'add', 'list', or 'complete'."));
        Outcome { todos, save: false, fatal: false, output }
    }
}

} // verus!
