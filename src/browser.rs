use vstd::prelude::*;

use crate::dir_list::{
    fresh_cursor, filtered_view, next_cursor, previous_cursor, visible_paths, DriList,
    ScannedEntry,
};

verus! {

/// A key press, as far as the browser tells keys apart.
pub enum Key {
    Up,
    Down,
    Left,
    Right,
    Enter,
    Esc,
    Backspace,
    /// A character key, with whether Control was held.
    Char { ch: char, ctrl: bool },
    Other,
}

/// What a key press asks for.
pub enum Intent {
    Exit,
    Previous,
    Next,
    OpenParent,
    Accept,
    OpenSelected,
    Type(char),
    Erase,
    Ignore,
}

pub open spec fn intent_spec(key: Key) -> Intent {
    match key {
        Key::Char { ch, ctrl } => if ctrl && (ch == 'q' || ch == 'c') {
            Intent::Exit
        } else if ctrl && ch == 'k' {
            Intent::Previous
        } else if ctrl && ch == 'j' {
            Intent::Next
        } else if ctrl && ch == 'y' {
            Intent::Accept
        } else {
            Intent::Type(ch)
        },
        Key::Up => Intent::Previous,
        Key::Down => Intent::Next,
        Key::Left => Intent::OpenParent,
        Key::Esc => Intent::Exit,
        Key::Enter => Intent::OpenSelected,
        Key::Right => Intent::OpenSelected,
        Key::Backspace => Intent::Erase,
        Key::Other => Intent::Ignore,
    }
}

/// What a key press asks for: Control with q or c, or Esc, leaves; Up or Control-k and
/// Down or Control-j move the cursor; Left opens the parent; Control-y accepts the
/// root; Enter or Right opens the highlighted entry; other characters edit the filter.
pub fn intent(key: &Key) -> (r: Intent)
    ensures
        r == intent_spec(*key),
{
    match key {
        Key::Char { ch, ctrl } => {
            let ch = *ch;
            if *ctrl && (ch == 'q' || ch == 'c') {
                Intent::Exit
            } else if *ctrl && ch == 'k' {
                Intent::Previous
            } else if *ctrl && ch == 'j' {
                Intent::Next
            } else if *ctrl && ch == 'y' {
                Intent::Accept
            } else {
                Intent::Type(ch)
            }
        },
        Key::Up => Intent::Previous,
        Key::Down => Intent::Next,
        Key::Left => Intent::OpenParent,
        Key::Esc => Intent::Exit,
        Key::Enter => Intent::OpenSelected,
        Key::Right => Intent::OpenSelected,
        Key::Backspace => Intent::Erase,
        Key::Other => Intent::Ignore,
    }
}

/// What the caller is to do after a key press.
pub enum Action {
    /// Nothing beyond drawing again.
    Stay,
    /// Leave without a result.
    Exit,
    /// Leave with this directory as the result.
    Accept(String),
    /// Read this directory and hand the outcome to `navigate`.
    Open(String),
    /// Read the parent of the root, if it has one, and hand the outcome to `navigate`.
    OpenParent,
}

/// Relies on `String::push`: the character is appended.
#[verifier::external_body]
fn push_char(s: &mut String, c: char)
    ensures
        final(s)@ == old(s)@.push(c),
{
    s.push(c)
}

/// Relies on `String::pop`: the last character is removed and returned, and an empty
/// string is left as it is.
#[verifier::external_body]
fn pop_char(s: &mut String) -> (r: Option<char>)
    ensures
        old(s)@.len() == 0 ==> r is None && final(s)@ == old(s)@,
        old(s)@.len() > 0 ==> r == Some(old(s)@.last()) && final(s)@ == old(s)@.drop_last(),
{
    s.pop()
}

/// The state of a browsing session: the directory being listed, its list, the filter
/// text, and the last error message.
pub struct App {
    root: String,
    list: DriList,
    input: String,
    error: String,
}

impl App {
    pub closed spec fn root_spec(&self) -> Seq<char> {
        self.root@
    }

    pub closed spec fn list_spec(&self) -> DriList {
        self.list
    }

    pub closed spec fn input_spec(&self) -> Seq<char> {
        self.input@
    }

    pub closed spec fn error_spec(&self) -> Seq<char> {
        self.error@
    }

    /// The list and the filter text of `self` and `other` agree.
    pub open spec fn same_view(&self, other: App) -> bool {
        self.list_spec() == other.list_spec() && self.input_spec() == other.input_spec()
    }

    pub open spec fn wf(&self) -> bool {
        &&& self.list_spec().wf()
        &&& self.list_spec().view() == filtered_view(self.list_spec().snapshot(), self.input_spec())
    }

    /// A session on `root`, whose children were read as `entries`.
    pub fn new(root: String, entries: &Vec<ScannedEntry>) -> (r: App)
        ensures
            r.wf(),
            r.root_spec() == root@,
            r.list_spec().snapshot() == visible_paths(entries@),
            r.list_spec().view() == r.list_spec().snapshot(),
            r.list_spec().cursor_spec() == fresh_cursor(r.list_spec().view().len()),
            r.input_spec().len() == 0,
            r.error_spec().len() == 0,
    {
        App { root, list: DriList::new(entries), input: String::new(), error: String::new() }
    }

    /// Moves to `new_root`, whose read gave `scan`. On success the root, the list and
    /// the filter start afresh and the error is cleared; on failure only the error
    /// message changes.
    pub fn navigate(&mut self, new_root: String, scan: Result<Vec<ScannedEntry>, String>)
        requires
            old(self).wf(),
        ensures
            final(self).wf(),
            match scan {
                Ok(entries) => {
                    &&& final(self).root_spec() == new_root@
                    &&& final(self).list_spec().snapshot() == visible_paths(entries@)
                    &&& final(self).list_spec().view() == final(self).list_spec().snapshot()
                    &&& final(self).list_spec().cursor_spec() == fresh_cursor(
                        final(self).list_spec().view().len(),
                    )
                    &&& final(self).input_spec().len() == 0
                    &&& final(self).error_spec().len() == 0
                },
                Err(message) => {
                    &&& final(self).root_spec() == old(self).root_spec()
                    &&& final(self).list_spec() == old(self).list_spec()
                    &&& final(self).input_spec() == old(self).input_spec()
                    &&& final(self).error_spec() == message@
                },
            },
    {
        match scan {
            Ok(entries) => {
                self.root = new_root;
                self.list = DriList::new(&entries);
                self.input = String::new();
                self.error = String::new();
            },
            Err(message) => {
                self.error = message;
            },
        }
    }

    fn set_input(&mut self, input: String)
        requires
            old(self).wf(),
        ensures
            final(self).wf(),
            final(self).root_spec() == old(self).root_spec(),
            final(self).error_spec() == old(self).error_spec(),
            final(self).input_spec() == input@,
            final(self).list_spec().snapshot() == old(self).list_spec().snapshot(),
            final(self).list_spec().view() == filtered_view(old(self).list_spec().snapshot(), input@),
            final(self).list_spec().cursor_spec() == fresh_cursor(final(self).list_spec().view().len()),
    {
        self.list.fuzzy_match(input.as_str());
        self.input = input;
    }

    /// Acts on one key press (see `intent`): cursor moves and filter edits happen here,
    /// and what needs the file system or ends the session is handed back.
    pub fn handle_key(&mut self, key: Key) -> (r: Action)
        requires
            old(self).wf(),
        ensures
            final(self).wf(),
            final(self).root_spec() == old(self).root_spec(),
            final(self).error_spec() == old(self).error_spec(),
            final(self).list_spec().snapshot() == old(self).list_spec().snapshot(),
            match intent_spec(key) {
                Intent::Previous | Intent::Next => {
                    &&& r == Action::Stay
                    &&& final(self).input_spec() == old(self).input_spec()
                    &&& final(self).list_spec().view() == old(self).list_spec().view()
                    &&& final(self).list_spec().cursor_spec() == if intent_spec(key) == Intent::Next {
                        next_cursor(old(self).list_spec().cursor_spec(), old(self).list_spec().view().len())
                    } else {
                        previous_cursor(old(self).list_spec().cursor_spec(), old(self).list_spec().view().len())
                    }
                },
                Intent::Type(c) => {
                    &&& r == Action::Stay
                    &&& final(self).input_spec() == old(self).input_spec().push(c)
                    &&& final(self).list_spec().view() == filtered_view(
                        old(self).list_spec().snapshot(),
                        final(self).input_spec(),
                    )
                    &&& final(self).list_spec().cursor_spec() == fresh_cursor(
                        final(self).list_spec().view().len(),
                    )
                },
                Intent::Erase => {
                    &&& r == Action::Stay
                    &&& final(self).input_spec() == if old(self).input_spec().len() == 0 {
                        old(self).input_spec()
                    } else {
                        old(self).input_spec().drop_last()
                    }
                    &&& final(self).list_spec().view() == filtered_view(
                        old(self).list_spec().snapshot(),
                        final(self).input_spec(),
                    )
                    &&& final(self).list_spec().cursor_spec() == fresh_cursor(
                        final(self).list_spec().view().len(),
                    )
                },
                Intent::Exit => r == Action::Exit && final(self).same_view(*old(self)),
                Intent::OpenParent => r == Action::OpenParent && final(self).same_view(*old(self)),
                Intent::Ignore => r == Action::Stay && final(self).same_view(*old(self)),
                Intent::Accept => {
                    &&& r is Accept
                    &&& r->Accept_0@ == old(self).root_spec()
                    &&& final(self).same_view(*old(self))
                },
                Intent::OpenSelected => {
                    &&& final(self).same_view(*old(self))
                    &&& r == match old(self).list_spec().cursor_spec() {
                        Some(i) => Action::Open(old(self).list_spec().view()[i as int]),
                        None => Action::Stay,
                    }
                },
            },
    {
        match intent(&key) {
            Intent::Exit => Action::Exit,
            Intent::Previous => {
                self.list.previous();
                Action::Stay
            },
            Intent::Next => {
                self.list.next();
                Action::Stay
            },
            Intent::OpenParent => Action::OpenParent,
            Intent::Accept => Action::Accept(self.root.clone()),
            Intent::OpenSelected => match self.list.cursor() {
                Some(i) => Action::Open(self.list.items()[i].clone()),
                None => Action::Stay,
            },
            Intent::Type(c) => {
                let mut input = self.input.clone();
                push_char(&mut input, c);
                self.set_input(input);
                Action::Stay
            },
            Intent::Erase => {
                let mut input = self.input.clone();
                pop_char(&mut input);
                self.set_input(input);
                Action::Stay
            },
            Intent::Ignore => Action::Stay,
        }
    }

    /// The directory being listed.
    pub fn root(&self) -> (r: &str)
        ensures
            r@ == self.root_spec(),
    {
        self.root.as_str()
    }

    /// Its list.
    pub fn list(&self) -> (r: &DriList)
        ensures
            *r == self.list_spec(),
    {
        &self.list
    }

    /// The filter text.
    pub fn input(&self) -> (r: &str)
        ensures
            r@ == self.input_spec(),
    {
        self.input.as_str()
    }

    /// The last error message, empty when there is none.
    pub fn error(&self) -> (r: &str)
        ensures
            r@ == self.error_spec(),
    {
        self.error.as_str()
    }
}

} // verus!
