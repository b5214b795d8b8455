use vstd::prelude::*;
use vstd::string::StringExecFns;
use crate::action::Action;

verus! {

/// The script line of an action, with the newline before it; skip and
/// rename have none.
pub open spec fn action_line(a: Action) -> Seq<char> {
    match a {
        Action::MkDir(d) => "\nmkdir -p \""@ + d@ + "\""@,
        Action::Move(p, d) => "\nmv \""@ + p@ + "\" \""@ + d@ + "\""@,
        Action::Delete(p) => "\nrm \""@ + p@ + "\""@,
        Action::Skip(_) | Action::Rename(_) => Seq::empty(),
    }
}

/// The lines of the actions of `s`, in order.
pub open spec fn script_lines(s: Seq<Action>) -> Seq<char>
    decreases s.len(),
{
    if s.len() == 0 {
        Seq::empty()
    } else {
        script_lines(s.drop_last()) + action_line(s.last())
    }
}

/// The shell script of a log: the interpreter line, then one line for each
/// mkdir, move and delete, joined by newlines.
pub open spec fn script_text(s: Seq<Action>) -> Seq<char> {
    "#!/bin/sh"@ + script_lines(s)
}

/// Renders a log of actions as a shell script.
pub fn render_script(actions: &Vec<Action>) -> (r: String)
    ensures
        r@ == script_text(actions@),
{
    let mut out = String::from_str("#!/bin/sh");
    let mut i: usize = 0;
    while i < actions.len()
        invariant
            i <= actions@.len(),
            out@ == "#!/bin/sh"@ + script_lines(actions@.take(i as int)),
        decreases actions@.len() - i,
    {
        let ghost before = out@;
        match &actions[i] {
            Action::MkDir(d) => {
                out.append("\nmkdir -p \"");
                out.append(d.as_str());
                out.append("\"");
            },
            Action::Move(p, d) => {
                out.append("\nmv \"");
                out.append(p.as_str());
                out.append("\" \"");
                out.append(d.as_str());
                out.append("\"");
            },
            Action::Delete(p) => {
                out.append("\nrm \"");
                out.append(p.as_str());
                out.append("\"");
            },
            Action::Skip(_) | Action::Rename(_) => {},
        }
        proof {
            let t = actions@.take(i + 1);
            assert(t.drop_last() =~= actions@.take(i as int));
            assert(t.last() == actions@[i as int]);
            assert(out@ =~= before + action_line(actions@[i as int]));
        }
        i = i + 1;
    }
    assert(actions@.take(actions@.len() as int) =~= actions@);
    out
}

} // verus!
