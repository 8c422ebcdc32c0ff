//! The new-session dialog as a state machine: four text fields, a focus
//! cursor, and one transition per key. Reading keys and painting the dialog
//! stay outside; the dialog itself only decides.

use vstd::prelude::*;

use crate::paths::seg_name;
use crate::paths::seg_name_exec;

verus! {

/// What a dialog does with a key: swallow it, give up, or hand back a value.
pub enum DialogResult<T> {
    Continue,
    Cancel,
    Submit(T),
}

/// The keys the dialog reacts to, already freed of the terminal library's
/// event type.
#[derive(Debug, PartialEq, Eq, Structural, Clone, Copy)]
pub enum Key {
    Esc,
    Enter,
    Tab,
    BackTab,
    Backspace,
    Char(char),
    Other,
}

/// What a submitted dialog hands back.
pub struct NewSessionData {
    pub title: String,
    pub path: String,
    pub group: String,
    pub command: String,
}

/// The dialog state: the four fields and which of them has focus.
pub struct NewSessionDialog {
    title: String,
    path: String,
    group: String,
    command: String,
    focused_field: usize,
}

/// The view of the field with the given focus index.
pub open spec fn field_at(d: NewSessionDialog, idx: usize) -> Seq<char> {
    if idx == 0 {
        d.title_view()
    } else if idx == 1 {
        d.path_view()
    } else if idx == 2 {
        d.group_view()
    } else if idx == 3 {
        d.command_view()
    } else {
        d.title_view()
    }
}

/// The title an empty title field falls back to on submit: the last
/// path segment of the working directory, or "untitled" when that segment
/// is empty.
pub open spec fn fallback_title(path: Seq<char>) -> Seq<char> {
    if seg_name(path).len() == 0 {
        "untitled"@
    } else {
        seg_name(path)
    }
}

/// Relies on String::push: appends exactly the one character.
#[verifier::external_body]
fn push_char(s: &mut String, c: char)
    ensures
        final(s)@ == old(s)@.push(c),
{
    s.push(c);
}

/// Drop the last character of a field, if any.
fn pop_field(s: &mut String)
    ensures
        old(s)@.len() == 0 ==> final(s)@ == old(s)@,
        old(s)@.len() > 0 ==> final(s)@ == old(s)@.drop_last(),
{
    let n = s.as_str().unicode_len();
    if n > 0 {
        let head = s.as_str().substring_char(0, n - 1);
        let r = String::from_str(head);
        proof {
            assert(r@ =~= s@.drop_last());
        }
        *s = r;
    }
}

impl NewSessionDialog {
    pub closed spec fn title_view(&self) -> Seq<char> {
        self.title@
    }

    pub closed spec fn path_view(&self) -> Seq<char> {
        self.path@
    }

    pub closed spec fn group_view(&self) -> Seq<char> {
        self.group@
    }

    pub closed spec fn command_view(&self) -> Seq<char> {
        self.command@
    }

    pub closed spec fn focused(&self) -> usize {
        self.focused_field
    }

    /// The focus cursor stays on one of the four fields.
    pub open spec fn wf(&self) -> bool {
        self.focused() < 4
    }

    /// A fresh dialog: empty fields except the path, which starts at the
    /// caller's working directory; focus on the title.
    pub fn new(current_dir: &str) -> (d: NewSessionDialog)
        ensures
            d.wf(),
            d.title_view().len() == 0,
            d.path_view() == current_dir@,
            d.group_view().len() == 0,
            d.command_view().len() == 0,
            d.focused() == 0,
    {
        NewSessionDialog {
            title: String::new(),
            path: String::from_str(current_dir),
            group: String::new(),
            command: String::new(),
            focused_field: 0,
        }
    }

    pub fn title(&self) -> (r: &String)
        ensures
            r@ == self.title_view(),
    {
        &self.title
    }

    pub fn path(&self) -> (r: &String)
        ensures
            r@ == self.path_view(),
    {
        &self.path
    }

    pub fn group(&self) -> (r: &String)
        ensures
            r@ == self.group_view(),
    {
        &self.group
    }

    pub fn command(&self) -> (r: &String)
        ensures
            r@ == self.command_view(),
    {
        &self.command
    }

    pub fn focused_field(&self) -> (r: usize)
        ensures
            r == self.focused(),
    {
        self.focused_field
    }

    /// One transition of the dialog. Escape cancels; Enter submits the four
    /// fields, deriving the title from the path when it was left empty; Tab
    /// and BackTab cycle the focus; Backspace and printable characters edit
    /// the focused field; anything else is swallowed.
    pub fn handle_key(&mut self, key: Key) -> (r: DialogResult<NewSessionData>)
        requires
            old(self).wf(),
        ensures
            final(self).wf(),
            match key {
                Key::Esc => r is Cancel && *final(self) == *old(self),
                Key::Enter => match r {
                    DialogResult::Submit(data) => {
                        &&& data.title@ == if old(self).title_view().len() == 0 {
                            fallback_title(old(self).path_view())
                        } else {
                            old(self).title_view()
                        }
                        &&& data.path@ == old(self).path_view()
                        &&& data.group@ == old(self).group_view()
                        &&& data.command@ == old(self).command_view()
                        &&& final(self).title_view() == data.title@
                        &&& final(self).path_view() == old(self).path_view()
                        &&& final(self).group_view() == old(self).group_view()
                        &&& final(self).command_view() == old(self).command_view()
                        &&& final(self).focused() == old(self).focused()
                    },
                    _ => false,
                },
                Key::Tab => r is Continue && final(self).focused() == ((old(self).focused() + 1) % 4)
                    && unchanged_fields(*old(self), *final(self)),
                Key::BackTab => r is Continue && final(self).focused() == (if old(self).focused()
                    == 0 {
                    3int
                } else {
                    old(self).focused() - 1
                }) && unchanged_fields(*old(self), *final(self)),
                Key::Backspace => r is Continue && final(self).focused() == old(self).focused()
                    && edited(*old(self), *final(self), popped(field_at(*old(self), old(self).focused()))),
                Key::Char(c) => r is Continue && final(self).focused() == old(self).focused()
                    && edited(*old(self), *final(self), field_at(*old(self), old(self).focused()).push(c)),
                Key::Other => r is Continue && *final(self) == *old(self),
            },
    {
        match key {
            Key::Esc => DialogResult::Cancel,
            Key::Enter => {
                if self.title.as_str().is_empty() {
                    let fallback = seg_name_exec(self.path.as_str());
                    if fallback.as_str().is_empty() {
                        self.title = String::from_str("untitled");
                    } else {
                        self.title = fallback;
                    }
                }
                DialogResult::Submit(
                    NewSessionData {
                        title: self.title.clone(),
                        path: self.path.clone(),
                        group: self.group.clone(),
                        command: self.command.clone(),
                    },
                )
            },
            Key::Tab => {
                self.focused_field = (self.focused_field + 1) % 4;
                DialogResult::Continue
            },
            Key::BackTab => {
                self.focused_field = if self.focused_field == 0 {
                    3
                } else {
                    self.focused_field - 1
                };
                DialogResult::Continue
            },
            Key::Backspace => {
                if self.focused_field == 0 {
                    pop_field(&mut self.title);
                } else if self.focused_field == 1 {
                    pop_field(&mut self.path);
                } else if self.focused_field == 2 {
                    pop_field(&mut self.group);
                } else {
                    pop_field(&mut self.command);
                }
                DialogResult::Continue
            },
            Key::Char(c) => {
                if self.focused_field == 0 {
                    push_char(&mut self.title, c);
                } else if self.focused_field == 1 {
                    push_char(&mut self.path, c);
                } else if self.focused_field == 2 {
                    push_char(&mut self.group, c);
                } else {
                    push_char(&mut self.command, c);
                }
                DialogResult::Continue
            },
            Key::Other => DialogResult::Continue,
        }
    }
}

/// The four fields are untouched.
pub open spec fn unchanged_fields(before: NewSessionDialog, after: NewSessionDialog) -> bool {
    &&& after.title_view() == before.title_view()
    &&& after.path_view() == before.path_view()
    &&& after.group_view() == before.group_view()
    &&& after.command_view() == before.command_view()
}

/// The focused field now reads `new_value`; the other three are untouched.
pub open spec fn edited(
    before: NewSessionDialog,
    after: NewSessionDialog,
    new_value: Seq<char>,
) -> bool {
    &&& field_at(after, before.focused()) == new_value
    &&& (before.focused() != 0 ==> after.title_view() == before.title_view())
    &&& (before.focused() != 1 ==> after.path_view() == before.path_view())
    &&& (before.focused() != 2 ==> after.group_view() == before.group_view())
    &&& (before.focused() != 3 && before.focused() < 4 ==> after.command_view()
        == before.command_view())
}

/// A field after one backspace: its last character gone, or still empty.
pub open spec fn popped(v: Seq<char>) -> Seq<char> {
    if v.len() == 0 {
        v
    } else {
        v.drop_last()
    }
}

} // verus!
