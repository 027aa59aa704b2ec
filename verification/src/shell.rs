use vstd::prelude::*;
use vstd::string::*;
use vstd::utf8::encode_utf8;
use crate::container::Container;
use crate::error::FsError;
use crate::filesystem::{FilePermission, FileSystem, FileType};
use crate::model::{
    cd_spec, cp_spec, create_spec, exists_spec, ls_spec, mv_spec, read_spec, rm_spec,
    write_spec, FsState,
};
use crate::path::text_eq;
use crate::stdio::{trimmed, Stdio, StdioView};
use crate::user::{admin_name, lemma_admin_literal, Permissions, User, UserView, Users};

verus! {

/// What the terminal is to do after a command.
#[derive(Debug, PartialEq, Eq)]
pub enum Reply {
    /// Nothing.
    Silent,
    /// Print the text on the standard output.
    Print(Vec<u8>),
    /// Print the text on the standard error.
    PrintError(Vec<u8>),
    /// Persist the engine and end the session.
    Exit,
}

/// What a `Reply` stands for in contracts.
pub enum ReplyView {
    Silent,
    Print(Seq<u8>),
    PrintError(Seq<u8>),
    Exit,
}

impl View for Reply {
    type V = ReplyView;

    open spec fn view(&self) -> ReplyView {
        match self {
            Reply::Silent => ReplyView::Silent,
            Reply::Print(text) => ReplyView::Print(text@),
            Reply::PrintError(text) => ReplyView::PrintError(text@),
            Reply::Exit => ReplyView::Exit,
        }
    }
}

/// The views of the words of a command, in order.
pub open spec fn word_views(words: Seq<String>) -> Seq<Seq<char>> {
    Seq::new(words.len(), |i: int| words[i]@)
}

/// Whether a user called `name` is known.
pub open spec fn known(users: Seq<UserView>, name: Seq<char>) -> bool {
    exists|i: int| 0 <= i < users.len() && (#[trigger] users[i]).name == name
}

/// Position of the first user called `name`.
pub open spec fn first_known(users: Seq<UserView>, name: Seq<char>) -> int {
    choose|i: int|
        0 <= i < users.len() && (#[trigger] users[i]).name == name && forall|k: int|
            0 <= k < i ==> (#[trigger] users[k]).name != name
}

/// The user that a session for `name` runs as, and the users afterwards:
/// the first known user of that name; else a new user who may read and
/// write, and may execute only if it is the administrator and the first
/// user of all.
pub open spec fn sign_in_spec(users: Seq<UserView>, name: Seq<char>) -> (UserView, Seq<UserView>) {
    if known(users, name) {
        (users[first_known(users, name)], users)
    } else {
        let user = UserView {
            name,
            permissions: Permissions {
                can_read: true,
                can_write: true,
                can_execute: users.len() == 0 && name == admin_name(),
            },
        };
        (user, users.push(user))
    }
}

/// The words from `from` up to `to`, with one space between neighbours.
pub open spec fn joined(words: Seq<Seq<char>>, from: int, to: int) -> Seq<char>
    decreases to - from,
{
    if to <= from {
        Seq::empty()
    } else if to == from + 1 {
        words[from]
    } else {
        joined(words, from, to - 1) + " "@ + words[to - 1]
    }
}

/// Number of redirection marks among the words from 1 up to `upto`.
pub open spec fn arrow_count(words: Seq<Seq<char>>, upto: int) -> nat
    decreases upto,
{
    if upto <= 1 {
        0
    } else if words[upto - 1] == ">"@ {
        arrow_count(words, upto - 1) + 1
    } else {
        arrow_count(words, upto - 1)
    }
}

/// Position of the first redirection mark from `from` on; the number of
/// words when there is none.
pub open spec fn first_arrow(words: Seq<Seq<char>>, from: int) -> int
    decreases words.len() - from,
{
    if from < 0 || from >= words.len() {
        words.len() as int
    } else if words[from] == ">"@ {
        from
    } else {
        first_arrow(words, from + 1)
    }
}

/// A text as the terminal shows it.
pub open spec fn shown(text: Seq<char>) -> Seq<u8> {
    trimmed(encode_utf8(text))
}

/// The operation of the engine that a command asked for.
#[derive(Debug, Clone, Copy, PartialEq, Eq, Structural)]
pub enum Site {
    /// Moving the cursor to a named directory.
    Enter,
    /// Moving the cursor to the parent.
    Leave,
    /// Creating an entry.
    Create,
    /// Reading a file.
    Read,
    /// Appending to a file.
    Write,
    /// Removing an entry.
    Remove,
    /// Copying or moving a file.
    Copy,
}

/// What the terminal says of a failure: of a missing entry according to the
/// operation that missed it, of any other failure the text of its kind.
pub open spec fn failure_text(site: Site, e: FsError) -> Seq<char> {
    if e == FsError::NotFound {
        match site {
            Site::Enter => "Directory not found"@,
            Site::Leave => "No parent directory"@,
            Site::Create => e.spec_message(),
            Site::Read => "File not found"@,
            Site::Write => "File not found"@,
            Site::Remove => "File or directory not found"@,
            Site::Copy => "Source file not found"@,
        }
    } else {
        e.spec_message()
    }
}

/// The reply to a failure.
pub open spec fn failure(site: Site, e: FsError) -> ReplyView {
    ReplyView::PrintError(shown("Error: "@ + failure_text(site, e)))
}

/// The reply to the result of an operation of the engine.
pub open spec fn outcome(site: Site, r: Result<(), FsError>) -> ReplyView {
    match r {
        Ok(()) => ReplyView::Silent,
        Err(e) => failure(site, e),
    }
}

/// The operation behind `cd` with the given target.
pub open spec fn cd_site(target: Seq<char>) -> Site {
    if target == seq!['.', '.'] {
        Site::Leave
    } else {
        Site::Enter
    }
}

/// The flags of an entry made by `touch`.
pub open spec fn touch_flags() -> Option<Seq<FilePermission>> {
    Some(seq![FilePermission::Readable, FilePermission::Writable])
}

/// `echo`: without a redirection mark the words are shown. With exactly one
/// the words before it are appended to the file named by the words after
/// it, which is created first if it is missing; no name, nothing done.
pub open spec fn echo_spec(s: FsState, c: Seq<u8>, limit: nat, words: Seq<Seq<char>>) -> (
    ReplyView,
    FsState,
    Seq<u8>,
) {
    let n = words.len() as int;
    let arrows = arrow_count(words, n);
    let at = first_arrow(words, 1);
    let target = joined(words, at + 1, n);
    let made = if exists_spec(s, target) {
        s
    } else {
        create_spec(s, target, FileType::File, s.user, touch_flags()).1
    };
    let done = write_spec(made, c, limit, target, encode_utf8(joined(words, 1, at)));
    if arrows == 0 {
        (ReplyView::Print(shown(joined(words, 1, n))), s, c)
    } else if arrows != 1 {
        (ReplyView::Print(shown("Usage: echo <data> [> <filename>]"@)), s, c)
    } else if target.len() == 0 {
        (ReplyView::Silent, s, c)
    } else {
        (outcome(Site::Write, done.0), done.1, done.2)
    }
}

/// What a command does: the reply, the engine and the container after it.
/// The first word names the command, the others are its arguments.
pub open spec fn command_spec(
    user: UserView,
    s: FsState,
    c: Seq<u8>,
    limit: nat,
    words: Seq<Seq<char>>,
) -> (ReplyView, FsState, Seq<u8>) {
    if words.len() == 0 {
        (ReplyView::Silent, s, c)
    } else if words[0] == "cd"@ {
        if words.len() > 1 {
            (outcome(cd_site(words[1]), cd_spec(s, words[1]).0), cd_spec(s, words[1]).1, c)
        } else {
            (ReplyView::Print(shown("Usage: cd <path>"@)), s, c)
        }
    } else if words[0] == "ls"@ {
        (ReplyView::Print(ls_spec(s)), s, c)
    } else if words[0] == "touch"@ {
        if words.len() > 1 {
            let made = create_spec(s, words[1], FileType::File, s.user, touch_flags());
            (outcome(Site::Create, made.0), made.1, c)
        } else {
            (ReplyView::Print(shown("Usage: touch <filename>"@)), s, c)
        }
    } else if words[0] == "cat"@ {
        if !user.permissions.can_read {
            (ReplyView::Print(shown("Permission denied"@)), s, c)
        } else if words.len() > 1 {
            match read_spec(s, c, words[1]) {
                Ok(data) => (ReplyView::Print(trimmed(data)), s, c),
                Err(e) => (failure(Site::Read, e), s, c),
            }
        } else {
            (ReplyView::Print(shown("Usage: cat <filename>"@)), s, c)
        }
    } else if words[0] == "mkdir"@ {
        if words.len() > 1 {
            let made = create_spec(s, words[1], FileType::Directory, s.user, touch_flags());
            (outcome(Site::Create, made.0), made.1, c)
        } else {
            (ReplyView::Print(shown("Usage: mkdir <directory>"@)), s, c)
        }
    } else if words[0] == "rm"@ {
        if words.len() > 1 {
            (outcome(Site::Remove, rm_spec(s, words[1]).0), rm_spec(s, words[1]).1, c)
        } else {
            (ReplyView::Print(shown("Usage: rm <filename>"@)), s, c)
        }
    } else if words[0] == "mv"@ {
        if words.len() > 2 {
            let moved = mv_spec(s, c, limit, words[1], words[2]);
            (outcome(Site::Copy, moved.0), moved.1, moved.2)
        } else {
            (ReplyView::Silent, s, c)
        }
    } else if words[0] == "cp"@ {
        if words.len() > 2 {
            let copied = cp_spec(s, c, limit, words[1], words[2]);
            (outcome(Site::Copy, copied.0), copied.1, copied.2)
        } else {
            (ReplyView::Print(shown("Usage: cp <source> <destination>"@)), s, c)
        }
    } else if words[0] == "echo"@ {
        echo_spec(s, c, limit, words)
    } else if words[0] == "exit"@ {
        (ReplyView::Exit, s, c)
    } else {
        (ReplyView::Print(shown("Command not found"@)), s, c)
    }
}

/// The words of a line: its maximal runs of characters that are not
/// whitespace, in order.
pub uninterp spec fn words_of(line: Seq<char>) -> Seq<Seq<char>>;

/// Splits a line at whitespace with `str::split_whitespace`, which gives
/// the words of the line in order; the contract names that result.
#[verifier::external_body]
fn split_words(line: &str) -> (words: Vec<String>)
    ensures
        word_views(words@) == words_of(line@),
{
    let mut words: Vec<String> = Vec::new();
    for word in line.split_whitespace() {
        words.push(word.to_string());
    }
    words
}

/// The session of one user at the terminal.
#[derive(Debug)]
pub struct Shell {
    current_user: User,
    stdio: Stdio,
}

/// What a `Shell` stands for in contracts.
pub struct ShellView {
    pub user: UserView,
    pub stdio: StdioView,
}

impl View for Shell {
    type V = ShellView;

    closed spec fn view(&self) -> ShellView {
        ShellView { user: self.current_user@, stdio: self.stdio@ }
    }
}

impl Clone for Shell {
    fn clone(&self) -> (copy: Shell)
        ensures
            copy@ == self@,
    {
        Shell { current_user: self.current_user.clone(), stdio: self.stdio.clone() }
    }
}

impl Shell {
    /// Between commands nothing is pending on either output.
    pub open spec fn wf(&self) -> bool {
        self@.stdio.output.len() == 0 && self@.stdio.error.len() == 0
    }

    /// Starts the session of the user called `user`: the first known user
    /// of that name, or a new one, who joins `users`.
    pub fn init(user: String, users: &mut Users) -> (shell: Shell)
        ensures
            shell.wf(),
            (shell@.user, final(users)@) == sign_in_spec(old(users)@, user@),
    {
        let mut found: Option<User> = None;
        let mut count: usize = 0;
        {
            let list = users.get_users();
            count = list.len();
            let mut i: usize = 0;
            while i < list.len() && found.is_none()
                invariant
                    i <= list@.len(),
                    list@.len() == users@.len(),
                    count == list@.len(),
                    forall|k: int| 0 <= k < list@.len() ==> (#[trigger] list@[k])@ == users@[k],
                    match found {
                        Some(u) => i < list@.len() && u@ == users@[i as int] && u@.name == user@,
                        None => true,
                    },
                    forall|k: int| 0 <= k < i ==> (#[trigger] users@[k]).name != user@,
                decreases list@.len() - i + (if found.is_none() { 1int } else { 0int }),
            {
                if list[i].get_user_name() == user {
                    found = Some(list[i].clone());
                } else {
                    i += 1;
                }
            }
            proof {
                if found.is_some() {
                    assert(known(users@, user@));
                    let f = first_known(users@, user@);
                    assert(f == i);
                }
            }
        }
        let current_user = match found {
            Some(u) => u,
            None => {
                proof {
                    lemma_admin_literal();
                }
                let first_admin = count == 0 && user == String::from_str("root");
                let made = User::new(user.as_str(), true, true, first_admin);
                users.add_user(made.clone());
                made
            },
        };
        Shell { current_user, stdio: Stdio::new() }
    }

    /// The user of the session.
    pub fn current_user(&self) -> (user: &User)
        ensures
            user@ == self@.user,
    {
        &self.current_user
    }

    /// The reply that shows `text` on the standard output.
    fn say(&mut self, text: &str) -> (reply: Reply)
        requires
            old(self).wf(),
        ensures
            final(self).wf(),
            final(self)@.user == old(self)@.user,
            reply@ == ReplyView::Print(shown(text@)),
    {
        self.stdio.write(text.as_bytes());
        assert(self@.stdio.output =~= encode_utf8(text@));
        Reply::Print(self.stdio.print())
    }

    /// What the terminal says of a failure.
    fn describe(site: Site, e: FsError) -> (text: String)
        ensures
            text@ == failure_text(site, e),
    {
        match e {
            FsError::NotFound => match site {
                Site::Enter => String::from_str("Directory not found"),
                Site::Leave => String::from_str("No parent directory"),
                Site::Create => e.message(),
                Site::Read => String::from_str("File not found"),
                Site::Write => String::from_str("File not found"),
                Site::Remove => String::from_str("File or directory not found"),
                Site::Copy => String::from_str("Source file not found"),
            },
            _ => e.message(),
        }
    }

    /// The reply to a failure of the engine.
    fn fail(&mut self, site: Site, e: FsError) -> (reply: Reply)
        requires
            old(self).wf(),
        ensures
            final(self).wf(),
            final(self)@.user == old(self)@.user,
            reply@ == failure(site, e),
    {
        let text = String::from_str("Error: ").concat(Self::describe(site, e).as_str());
        self.stdio.error(text.as_str().as_bytes());
        assert(self@.stdio.error =~= encode_utf8(text@));
        Reply::PrintError(self.stdio.print_error())
    }

    /// The reply to the result of an operation of the engine.
    fn settle(&mut self, site: Site, r: Result<(), FsError>) -> (reply: Reply)
        requires
            old(self).wf(),
        ensures
            final(self).wf(),
            final(self)@.user == old(self)@.user,
            reply@ == outcome(site, r),
    {
        match r {
            Ok(()) => Reply::Silent,
            Err(e) => self.fail(site, e),
        }
    }

    /// The words from `from` up to `to`, with one space between neighbours.
    fn join_words(words: &Vec<String>, from: usize, to: usize) -> (text: String)
        requires
            from <= to <= words@.len(),
        ensures
            text@ == joined(word_views(words@), from as int, to as int),
    {
        let mut text = String::new();
        let mut i: usize = from;
        while i < to
            invariant
                from <= i <= to,
                to <= words@.len(),
                text@ == joined(word_views(words@), from as int, i as int),
            decreases to - i,
        {
            if i > from {
                text = text.concat(" ");
            }
            text = text.concat(words[i].as_str());
            proof {
                assert(word_views(words@)[i as int] == words@[i as int]@);
                if i == from {
                    assert(Seq::<char>::empty() + words@[i as int]@ =~= words@[i as int]@);
                }
            }
            i += 1;
        }
        text
    }

    /// `echo` with its words.
    fn echo(&mut self, fs: &mut FileSystem, container: &mut Container, words: &Vec<String>) -> (reply:
        Reply)
        requires
            old(self).wf(),
            old(fs).wf(),
            words@.len() > 0,
        ensures
            final(self).wf(),
            final(fs).wf(),
            final(self)@.user == old(self)@.user,
            final(container).limit() == old(container).limit(),
            (reply@, final(fs)@, final(container)@) == echo_spec(
                old(fs)@,
                old(container)@,
                old(container).limit(),
                word_views(words@),
            ),
    {
        let ghost views = word_views(words@);
        let n = words.len();
        let mut arrows: usize = 0;
        let mut at: usize = n;
        let mut i: usize = 1;
        while i < n
            invariant
                1 <= i <= n,
                n == words@.len(),
                views == word_views(words@),
                arrows == arrow_count(views, i as int),
                arrows <= i,
                arrows == 0 ==> at == n && first_arrow(views, 1) == first_arrow(views, i as int),
                arrows > 0 ==> at == first_arrow(views, 1) && 1 <= at < i,
            decreases n - i,
        {
            assert(views[i as int] == words@[i as int]@);
            if text_eq(words[i].as_str(), ">") {
                if arrows == 0 {
                    at = i;
                }
                arrows += 1;
            }
            i += 1;
        }
        if arrows == 0 {
            let text = Self::join_words(words, 1, n);
            return self.say(text.as_str());
        }
        if arrows != 1 {
            return self.say("Usage: echo <data> [> <filename>]");
        }
        let target = Self::join_words(words, at + 1, n);
        let content = Self::join_words(words, 1, at);
        if target.as_str().unicode_len() == 0 {
            return Reply::Silent;
        }
        if !fs.is_file_exists(target.as_str()) {
            match fs.touch(target.as_str()) {
                Err(e) => {
                    return self.fail(Site::Create, e);
                },
                Ok(()) => {},
            }
        }
        let r = fs.write_file(target.as_str(), content.as_str().as_bytes(), container);
        self.settle(Site::Write, r)
    }

    /// Carries out one command, given as its words.
    pub fn execute(
        &mut self,
        fs: &mut FileSystem,
        container: &mut Container,
        words: &Vec<String>,
    ) -> (reply: Reply)
        requires
            old(self).wf(),
            old(fs).wf(),
        ensures
            final(self).wf(),
            final(fs).wf(),
            final(self)@.user == old(self)@.user,
            final(container).limit() == old(container).limit(),
            (reply@, final(fs)@, final(container)@) == command_spec(
                old(self)@.user,
                old(fs)@,
                old(container)@,
                old(container).limit(),
                word_views(words@),
            ),
    {
        let ghost views = word_views(words@);
        let n = words.len();
        if n == 0 {
            return Reply::Silent;
        }
        assert(views[0] == words@[0]@);
        assert(n > 1 ==> views[1] == words@[1]@);
        assert(n > 2 ==> views[2] == words@[2]@);
        let command = words[0].as_str();
        if text_eq(command, "cd") {
            if n > 1 {
                proof {
                    reveal_strlit("..");
                    assert(".."@ =~= seq!['.', '.']);
                }
                let site = if text_eq(words[1].as_str(), "..") {
                    Site::Leave
                } else {
                    Site::Enter
                };
                let r = fs.cd(words[1].as_str());
                self.settle(site, r)
            } else {
                self.say("Usage: cd <path>")
            }
        } else if text_eq(command, "ls") {
            Reply::Print(fs.ls())
        } else if text_eq(command, "touch") {
            if n > 1 {
                let r = fs.touch(words[1].as_str());
                self.settle(Site::Create, r)
            } else {
                self.say("Usage: touch <filename>")
            }
        } else if text_eq(command, "cat") {
            if !self.current_user.permissions().can_read {
                self.say("Permission denied")
            } else if n > 1 {
                match self.stdio.read_file(words[1].as_str(), container, fs) {
                    Err(e) => self.fail(Site::Read, e),
                    Ok(()) => Reply::Print(self.stdio.print()),
                }
            } else {
                self.say("Usage: cat <filename>")
            }
        } else if text_eq(command, "mkdir") {
            if n > 1 {
                let r = fs.mkdir(words[1].as_str());
                self.settle(Site::Create, r)
            } else {
                self.say("Usage: mkdir <directory>")
            }
        } else if text_eq(command, "rm") {
            if n > 1 {
                let r = fs.rm(words[1].as_str());
                self.settle(Site::Remove, r)
            } else {
                self.say("Usage: rm <filename>")
            }
        } else if text_eq(command, "mv") {
            if n > 2 {
                let r = fs.mv(words[1].as_str(), words[2].as_str(), container);
                self.settle(Site::Copy, r)
            } else {
                Reply::Silent
            }
        } else if text_eq(command, "cp") {
            if n > 2 {
                let r = fs.cp(words[1].as_str(), words[2].as_str(), container);
                self.settle(Site::Copy, r)
            } else {
                self.say("Usage: cp <source> <destination>")
            }
        } else if text_eq(command, "echo") {
            self.echo(fs, container, words)
        } else if text_eq(command, "exit") {
            Reply::Exit
        } else {
            self.say("Command not found")
        }
    }

    /// Carries out one line typed at the terminal: the line is split into
    /// words at whitespace and the words are carried out.
    pub fn run(&mut self, fs: &mut FileSystem, container: &mut Container, line: &str) -> (reply:
        Reply)
        requires
            old(self).wf(),
            old(fs).wf(),
        ensures
            final(self).wf(),
            final(fs).wf(),
            final(self)@.user == old(self)@.user,
            final(container).limit() == old(container).limit(),
            (reply@, final(fs)@, final(container)@) == command_spec(
                old(self)@.user,
                old(fs)@,
                old(container)@,
                old(container).limit(),
                words_of(line@),
            ),
    {
        let words = split_words(line);
        self.execute(fs, container, &words)
    }

    /// The prompt: the user, the cursor, and `$` for the administrator or
    /// `>` for anyone else, each followed by a space.
    pub fn prompt(&self, fs: &FileSystem) -> (text: String)
        ensures
            text@ == self@.user.name + " "@ + fs@.cwd + " "@ + (if self@.user.name == admin_name() {
                "$"@
            } else {
                ">"@
            }) + " "@,
    {
        let pointer = if self.current_user.is_admin() {
            "$"
        } else {
            ">"
        };
        self.current_user.get_user_name().concat(" ").concat(fs.current_path().as_str()).concat(
            " ",
        ).concat(pointer).concat(" ")
    }
}

} // verus!
