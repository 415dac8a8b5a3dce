use vstd::prelude::*;

verus! {

/// What the program was asked to do.
pub enum Command {
    /// Bookmark a directory, under the name given, if any.
    Add(Option<String>),
    Delete,
    Open,
    Help,
}

/// Whether `a` spells exactly `b`.
fn same_text(a: &str, b: &str) -> (r: bool)
    ensures
        r == (a@ == b@),
{
    let n = a.unicode_len();
    if n != b.unicode_len() {
        return false;
    }
    let mut i: usize = 0;
    while i < n
        invariant
            n == a@.len(),
            n == b@.len(),
            i <= n,
            forall|k: int| 0 <= k < i ==> a@[k] == b@[k],
        decreases n - i,
    {
        if a.get_char(i) != b.get_char(i) {
            return false;
        }
        i = i + 1;
    }
    assert(a@ =~= b@);
    true
}

pub open spec fn command_spec(first: Option<Seq<char>>, second: Option<String>) -> Command {
    match first {
        None => Command::Open,
        Some(arg) => if arg == seq!['a', 'd', 'd'] || arg == seq!['-', 'a'] {
            Command::Add(second)
        } else if arg == seq!['d', 'e', 'l', 'e', 't', 'e'] || arg == seq!['-', 'd'] {
            Command::Delete
        } else {
            Command::Help
        },
    }
}

/// The command for the first two program arguments: none opens; `add` or `-a` adds,
/// under the second argument as a name; `delete` or `-d` deletes; anything else asks
/// for help.
pub fn command_from_args(first: Option<&str>, second: Option<String>) -> (r: Command)
    ensures
        r == command_spec(
            match first {
                Some(a) => Some(a@),
                None => None,
            },
            second,
        ),
{
    proof {
        reveal_strlit("add");
        reveal_strlit("-a");
        reveal_strlit("delete");
        reveal_strlit("-d");
    }
    match first {
        None => Command::Open,
        Some(arg) => {
            assert("add"@ =~= seq!['a', 'd', 'd']);
            assert("-a"@ =~= seq!['-', 'a']);
            assert("delete"@ =~= seq!['d', 'e', 'l', 'e', 't', 'e']);
            assert("-d"@ =~= seq!['-', 'd']);
            if same_text(arg, "add") || same_text(arg, "-a") {
                Command::Add(second)
            } else if same_text(arg, "delete") || same_text(arg, "-d") {
                Command::Delete
            } else {
                Command::Help
            }
        },
    }
}

} // verus!
