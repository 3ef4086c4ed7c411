//! The working directory, and the stack of directories.

use crate::commands::catalog::same_text;
use crate::commands::links::string_views;
use crate::commands::spelling::{join, joined_by};
use vstd::prelude::*;

verus! {

/// A directory to change to.
pub enum DirectoryArg {
    /// The one before the current one.
    Last(String),
    /// A path, in which a tilde stands for the home directory.
    Path(String),
    /// The home directory.
    Home,
}

/// Reads the directory to change to from the first argument: `-` is the last one, and without an
/// argument it is the home directory.
pub fn parse_first_arg_as_dir(args: &Vec<String>, last: Option<String>) -> (dir: Result<
    DirectoryArg,
    &'static str,
>)
    ensures
        match dir {
            Ok(DirectoryArg::Home) => args@.len() == 0,
            Ok(DirectoryArg::Last(d)) => args@.len() > 0 && args@[0]@ == "-"@ && last == Some(d),
            Ok(DirectoryArg::Path(p)) => args@.len() > 0 && args@[0]@ != "-"@ && p@ == args@[0]@,
            Err(m) => args@.len() > 0 && args@[0]@ == "-"@ && last is None && m@
                == "No previous working directory"@,
        },
{
    if args.len() == 0 {
        return Ok(DirectoryArg::Home);
    }
    if same_text(args[0].as_str(), "-") {
        match last {
            Some(d) => Ok(DirectoryArg::Last(d)),
            None => Err("No previous working directory"),
        }
    } else {
        Ok(DirectoryArg::Path(args[0].clone()))
    }
}

/// What is shown after a change of directory: `failure` is the error, if there was one.
pub fn directory_changed(dir: &str, failure: Option<&str>, current: &str) -> (shown: Result<
    String,
    String,
>)
    ensures
        match (failure, shown) {
            (None, Ok(m)) => m@ == "Current working directory is now "@ + current@,
            (Some(e), Err(m)) => m@ == "Could not change working directory to '"@ + dir@ + "': "@
                + e@,
            _ => false,
        },
{
    match failure {
        None => {
            let mut m = String::from_str("Current working directory is now ");
            m.append(current);
            Ok(m)
        },
        Some(e) => {
            let mut m = String::from_str("Could not change working directory to '");
            m.append(dir);
            m.append("': ");
            m.append(e);
            Err(m)
        },
    }
}

/// What is shown of the current directory; it is an error when it no longer exists.
pub fn show_current_directory(current: &str, exists: bool) -> (shown: Result<String, String>)
    ensures
        match shown {
            Ok(m) => exists && m@ == "Current working directory is "@ + current@,
            Err(m) => !exists && m@ == "Current working directory is "@ + current@ + " (deleted)"@,
        },
{
    let mut m = String::from_str("Current working directory is ");
    m.append(current);
    if exists {
        Ok(m)
    } else {
        m.append(" (deleted)");
        Err(m)
    }
}

/// The directories one has come through, the last one first. It holds no more than `limit`.
pub struct DirectoryStack {
    pub dirs: Vec<String>,
    pub limit: usize,
}

/// The directory that popping a stack enters: the one that becomes its top, or the only one.
pub open spec fn entered(dirs: Seq<String>) -> String {
    if dirs.len() >= 2 {
        dirs[1]
    } else {
        dirs[0]
    }
}

impl DirectoryStack {
    pub open spec fn wf(&self) -> bool {
        self.limit > 0 && self.dirs@.len() <= self.limit
    }

    /// An empty stack.
    pub fn new(limit: usize) -> (stack: DirectoryStack)
        requires
            limit > 0,
        ensures
            stack.wf(),
            stack.dirs@ == Seq::<String>::empty(),
            stack.limit == limit,
    {
        DirectoryStack { dirs: Vec::new(), limit }
    }

    /// Puts a directory on the stack; the oldest one makes room for it when the stack is full.
    pub fn push_directory(&mut self, current: String)
        requires
            old(self).wf(),
        ensures
            final(self).wf(),
            final(self).limit == old(self).limit,
            final(self).dirs@ == seq![current] + (if old(self).dirs@.len() == old(self).limit {
                old(self).dirs@.drop_last()
            } else {
                old(self).dirs@
            }),
    {
        if self.dirs.len() == self.limit {
            self.dirs.pop();
        }
        let ghost before = self.dirs@;
        self.dirs.insert(0, current);
        assert(self.dirs@ =~= seq![current] + before);
    }

    /// Takes the top directory from the stack, and gives the one to enter: the new top. When the
    /// directory that is taken was the only one, there is no new top, and it is entered itself.
    pub fn pop_directory(&mut self) -> (dir: Result<String, &'static str>)
        requires
            old(self).wf(),
        ensures
            final(self).wf(),
            final(self).limit == old(self).limit,
            match dir {
                Ok(d) => old(self).dirs@.len() > 0 && d == entered(old(self).dirs@) && final(self).dirs@
                    == old(self).dirs@.skip(1),
                Err(m) => old(self).dirs@.len() == 0 && final(self).dirs@ == old(self).dirs@ && m@
                    == "Stack is empty"@,
            },
    {
        if self.dirs.len() == 0 {
            return Err("Stack is empty");
        }
        let taken = self.dirs.remove(0);
        assert(self.dirs@ =~= old(self).dirs@.skip(1));
        if self.dirs.len() > 0 {
            Ok(self.dirs[0].clone())
        } else {
            Ok(taken)
        }
    }

    /// What is shown of the stack.
    pub fn show_directory_stack(&self) -> (shown: Result<String, &'static str>)
        ensures
            ({
                let all = joined_by(string_views(self.dirs@), " "@);
                match shown {
                    Ok(m) => all.len() > 0 && m@ == all,
                    Err(m) => all.len() == 0 && m@ == "Stack is empty"@,
                }
            }),
    {
        let all = join(&self.dirs, " ");
        if all.as_str().unicode_len() > 0 {
            Ok(all)
        } else {
            Err("Stack is empty")
        }
    }
}

/// The stack after `current` is pushed.
pub open spec fn pushed(dirs: Seq<String>, limit: int, current: String) -> Seq<String> {
    seq![current] + (if dirs.len() == limit {
        dirs.drop_last()
    } else {
        dirs
    })
}

/// Popping undoes pushing: it leaves what was there before, except for the oldest directory of a
/// full stack, and enters the directory that was on top then, or, where there was none, the one
/// that was pushed.
pub proof fn popping_undoes_pushing(dirs: Seq<String>, limit: int, current: String)
    requires
        0 < limit,
        dirs.len() <= limit,
    ensures
        ({
            let rest = if dirs.len() == limit {
                dirs.drop_last()
            } else {
                dirs
            };
            let stack = pushed(dirs, limit, current);
            &&& stack.len() <= limit
            &&& stack.skip(1) == rest
            &&& entered(stack) == (if rest.len() > 0 {
                rest[0]
            } else {
                current
            })
        }),
{
    assert(pushed(dirs, limit, current).skip(1) =~= (if dirs.len() == limit {
        dirs.drop_last()
    } else {
        dirs
    }));
}

} // verus!
