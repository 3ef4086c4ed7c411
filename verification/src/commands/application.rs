//! Leaving the editor, and small commands.

use crate::commands::files::{write_options, write_with, WriteAllOptions, WriteFlags, WriteOptions};
use crate::commands::links::string_views;
use crate::commands::search::PromptEvent;
use crate::strings::{all_digits, digits_value, parse_usize, to_chars, unsigned};
use vstd::prelude::*;

verus! {

/// A step on the way out of the editor. The way ends with the first step that fails.
#[derive(Clone, Copy, Debug, PartialEq, Eq, Structural)]
pub enum QuitStep {
    /// The current buffer is written.
    Write(WriteOptions),
    /// All buffers are written.
    WriteAll(WriteAllOptions),
    /// All buffers are written; failures are passed over.
    TryWriteAll(WriteAllOptions),
    /// Writes under way are waited for.
    Flush,
    /// Fails while the only view is left and buffers are modified.
    CheckLastView,
    /// Fails while buffers are modified.
    CheckBuffers,
    /// The current view is closed.
    CloseView,
    /// All views are closed.
    CloseAllViews,
    /// The exit code is set.
    ExitCode(i32),
}

/// The commands that leave the editor.
#[derive(Clone, Copy, Debug, PartialEq, Eq, Structural)]
pub enum QuitCommand {
    /// Writes the buffer if it is modified, and quits.
    Exit { force: bool },
    Quit { force: bool },
    WriteQuit { force: bool },
    WriteAllQuit { force: bool },
    QuitAll { force: bool },
    /// Quits with an exit code.
    CQuit { force: bool, code: i32 },
}

/// The steps of closing the current view.
pub open spec fn quit_steps(force: bool) -> Seq<QuitStep> {
    if force {
        seq![QuitStep::Flush, QuitStep::CloseView]
    } else {
        seq![QuitStep::CheckLastView, QuitStep::Flush, QuitStep::CloseView]
    }
}

/// The steps of closing all views.
pub open spec fn quit_all_steps(force: bool) -> Seq<QuitStep> {
    if force {
        seq![QuitStep::Flush, QuitStep::CloseAllViews]
    } else {
        seq![QuitStep::Flush, QuitStep::CheckBuffers, QuitStep::CloseAllViews]
    }
}

/// How all buffers are written on the way out.
pub open spec fn write_all_with(force: bool, flags: WriteFlags) -> WriteAllOptions {
    WriteAllOptions {
        force,
        write_scratch: true,
        auto_format: !flags.no_format,
        code_actions: !flags.no_code_actions,
    }
}

/// The steps of a command that leaves the editor. A buffer that is exited is closed only when
/// nothing unsaved is lost by it, even when its writing was forced.
pub open spec fn leaving_steps(command: QuitCommand, modified: bool, flags: WriteFlags) -> Seq<QuitStep> {
    match command {
        QuitCommand::Exit { force } => (if modified {
            seq![QuitStep::Write(write_with(force, flags))]
        } else {
            Seq::empty()
        }) + seq![QuitStep::Flush] + quit_steps(false),
        QuitCommand::Quit { force } => quit_steps(force),
        QuitCommand::WriteQuit { force } => seq![QuitStep::Write(write_with(force, flags))] + seq![
            QuitStep::Flush,
        ] + quit_steps(force),
        QuitCommand::WriteAllQuit { force } => (if force {
            seq![QuitStep::TryWriteAll(write_all_with(force, flags))]
        } else {
            seq![QuitStep::WriteAll(write_all_with(force, flags))]
        }) + quit_all_steps(force),
        QuitCommand::QuitAll { force } => quit_all_steps(force),
        QuitCommand::CQuit { force, code } => seq![QuitStep::ExitCode(code)] + quit_all_steps(
            force,
        ),
    }
}

fn push_quit(steps: &mut Vec<QuitStep>, force: bool)
    ensures
        final(steps)@ == old(steps)@ + quit_steps(force),
{
    let ghost before = steps@;
    if !force {
        steps.push(QuitStep::CheckLastView);
    }
    steps.push(QuitStep::Flush);
    steps.push(QuitStep::CloseView);
    assert(steps@ =~= before + quit_steps(force));
}

fn push_quit_all(steps: &mut Vec<QuitStep>, force: bool)
    ensures
        final(steps)@ == old(steps)@ + quit_all_steps(force),
{
    let ghost before = steps@;
    steps.push(QuitStep::Flush);
    if !force {
        steps.push(QuitStep::CheckBuffers);
    }
    steps.push(QuitStep::CloseAllViews);
    assert(steps@ =~= before + quit_all_steps(force));
}

/// The steps of a command that leaves the editor; it does nothing before it is entered.
pub fn quit(event: PromptEvent, command: QuitCommand, modified: bool, flags: WriteFlags) -> (steps: Vec<
    QuitStep,
>)
    ensures
        steps@ == (if event == PromptEvent::Validate {
            leaving_steps(command, modified, flags)
        } else {
            Seq::empty()
        }),
{
    let mut steps: Vec<QuitStep> = Vec::new();
    match event {
        PromptEvent::Validate => {},
        _ => {
            return steps;
        },
    }
    match command {
        QuitCommand::Exit { force } => {
            if modified {
                steps.push(QuitStep::Write(write_options(force, flags)));
            }
            steps.push(QuitStep::Flush);
            push_quit(&mut steps, false);
        },
        QuitCommand::Quit { force } => {
            push_quit(&mut steps, force);
        },
        QuitCommand::WriteQuit { force } => {
            steps.push(QuitStep::Write(write_options(force, flags)));
            steps.push(QuitStep::Flush);
            push_quit(&mut steps, force);
        },
        QuitCommand::WriteAllQuit { force } => {
            let options = WriteAllOptions {
                force,
                write_scratch: true,
                auto_format: !flags.no_format,
                code_actions: !flags.no_code_actions,
            };
            if force {
                steps.push(QuitStep::TryWriteAll(options));
            } else {
                steps.push(QuitStep::WriteAll(options));
            }
            push_quit_all(&mut steps, force);
        },
        QuitCommand::QuitAll { force } => {
            push_quit_all(&mut steps, force);
        },
        QuitCommand::CQuit { force, code } => {
            steps.push(QuitStep::ExitCode(code));
            push_quit_all(&mut steps, force);
        },
    }
    assert(steps@ =~= leaving_steps(command, modified, flags));
    steps
}

/// A command that is not forced closes no view before it has made sure that nothing unsaved is
/// lost by it.
pub proof fn closing_is_checked(command: QuitCommand, modified: bool, flags: WriteFlags, k: int)
    requires
        match command {
            QuitCommand::Exit { force } => true,
            QuitCommand::Quit { force } => !force,
            QuitCommand::WriteQuit { force } => !force,
            QuitCommand::WriteAllQuit { force } => !force,
            QuitCommand::QuitAll { force } => !force,
            QuitCommand::CQuit { force, code } => !force,
        },
        0 <= k < leaving_steps(command, modified, flags).len(),
        leaving_steps(command, modified, flags)[k] is CloseView || leaving_steps(
            command,
            modified,
            flags,
        )[k] is CloseAllViews,
    ensures
        exists|j: int|
            0 <= j < k && (#[trigger] leaving_steps(command, modified, flags)[j] is CheckLastView
                || leaving_steps(command, modified, flags)[j] is CheckBuffers),
{
    let steps = leaving_steps(command, modified, flags);
    match command {
        QuitCommand::Exit { force } => {
            let j: int = if modified {
                2
            } else {
                1
            };
            assert(steps[j] is CheckLastView);
        },
        QuitCommand::Quit { force } => {
            assert(steps[0] is CheckLastView);
        },
        QuitCommand::WriteQuit { force } => {
            assert(steps[2] is CheckLastView);
        },
        QuitCommand::WriteAllQuit { force } => {
            assert(steps[2] is CheckBuffers);
        },
        QuitCommand::QuitAll { force } => {
            assert(steps[1] is CheckBuffers);
        },
        QuitCommand::CQuit { force, code } => {
            assert(steps[2] is CheckBuffers);
        },
    }
}

/// The number that `s` writes: digits, with or without a sign before them.
pub open spec fn signed(s: Seq<char>) -> Option<int> {
    if s.len() > 0 && s[0] == '-' {
        let digits = s.skip(1);
        if digits.len() > 0 && all_digits(digits) {
            Some(-(digits_value(digits) as int))
        } else {
            None
        }
    } else {
        match unsigned(s) {
            Some(n) => Some(n as int),
            None => None,
        }
    }
}

/// Reads a number of 32 bits.
pub fn parse_i32(s: &Vec<char>) -> (n: Option<i32>)
    ensures
        (match n {
            Some(n) => Some(n as int),
            None => None,
        }) == (match signed(s@) {
            Some(v) if i32::MIN <= v <= i32::MAX => Some(v),
            _ => None,
        }),
{
    if s.len() > 0 && s[0] == '-' {
        let mut rest: Vec<char> = Vec::new();
        let mut i: usize = 1;
        while i < s.len()
            invariant
                1 <= i <= s@.len(),
                rest@ == s@.subrange(1, i as int),
            decreases s.len() - i,
        {
            rest.push(s[i]);
            i += 1;
        }
        assert(rest@ =~= s@.skip(1));
        if rest.len() > 0 && rest[0] == '+' {
            assert(!crate::strings::is_digit(rest@[0]));
            assert(!all_digits(rest@));
            return None;
        }
        match parse_usize(&rest) {
            Some(v) => if v <= 2147483648 {
                Some((-(v as i64)) as i32)
            } else {
                None
            },
            None => None,
        }
    } else {
        match parse_usize(s) {
            Some(v) => if v <= 2147483647 {
                Some(v as i32)
            } else {
                None
            },
            None => None,
        }
    }
}

/// The exit code that an argument asks for; 1 where there is none, or none that is a number.
pub open spec fn asked_code(args: Seq<String>) -> int {
    if args.len() == 0 {
        1
    } else {
        match signed(args[0]@) {
            Some(v) if i32::MIN <= v <= i32::MAX => v,
            _ => 1,
        }
    }
}

/// The exit code that an argument asks for.
pub fn cquit(args: &Vec<String>) -> (code: i32)
    ensures
        code == asked_code(args@),
{
    if args.len() == 0 {
        return 1;
    }
    match parse_i32(&to_chars(args[0].as_str())) {
        Some(n) => n,
        None => 1,
    }
}

/// Arguments with a space between them; there is none before the first that is not empty.
pub open spec fn echoed(args: Seq<Seq<char>>) -> Seq<char>
    decreases args.len(),
{
    if args.len() == 0 {
        Seq::empty()
    } else {
        let before = echoed(args.drop_last());
        if before.len() > 0 {
            before + " "@ + args.last()
        } else {
            before + args.last()
        }
    }
}

/// Shows the arguments.
pub fn echo(args: &Vec<String>) -> (out: String)
    ensures
        out@ == echoed(string_views(args@)),
{
    let ghost all = string_views(args@);
    let mut out = String::new();
    let mut i: usize = 0;
    assert(all.take(0) =~= Seq::<Seq<char>>::empty());
    while i < args.len()
        invariant
            i <= args@.len(),
            all == string_views(args@),
            out@ == echoed(all.take(i as int)),
        decreases args.len() - i,
    {
        assert(all.take(i + 1).drop_last() =~= all.take(i as int));
        if out.as_str().unicode_len() > 0 {
            out.append(" ");
        }
        out.append(args[i].as_str());
        i += 1;
    }
    assert(all.take(i as int) =~= all);
    out
}

/// Leaving ends with closing: the current view, or all of them where that is asked for. What is
/// written is written first, and writes under way are waited for before anything is closed.
pub proof fn leaving_writes_first_and_closes_last(
    command: QuitCommand,
    modified: bool,
    flags: WriteFlags,
)
    ensures
        ({
            let steps = leaving_steps(command, modified, flags);
            let all = command is WriteAllQuit || command is QuitAll || command is CQuit;
            &&& steps.len() >= 2
            &&& all ==> steps.last() is CloseAllViews
            &&& !all ==> steps.last() is CloseView
            &&& exists|k: int| 0 <= k < steps.len() - 1 && #[trigger] steps[k] is Flush
            &&& command is WriteQuit || (command is Exit && modified) ==> (steps[0] matches
                QuitStep::Write(options) && options.auto_format == !flags.no_format
                && options.code_actions == !flags.no_code_actions)
            &&& command is Exit && !modified || command is Quit || command is QuitAll
                || command is CQuit ==> forall|k: int|
                0 <= k < steps.len() ==> !(#[trigger] steps[k] is Write || steps[k] is WriteAll
                    || steps[k] is TryWriteAll)
            &&& command matches QuitCommand::WriteAllQuit { force } ==> (if force {
                steps[0] matches QuitStep::TryWriteAll(options) && options.force
            } else {
                steps[0] matches QuitStep::WriteAll(options) && !options.force
            })
            &&& command matches QuitCommand::CQuit { force, code } ==> steps[0]
                == QuitStep::ExitCode(code)
        }),
{
    let steps = leaving_steps(command, modified, flags);
    let n = steps.len();
    match command {
        QuitCommand::Exit { force } => {
            assert(steps[n - 2] is Flush);
        },
        QuitCommand::Quit { force } => {
            assert(steps[n - 2] is Flush);
        },
        QuitCommand::WriteQuit { force } => {
            assert(steps[n - 2] is Flush);
        },
        QuitCommand::WriteAllQuit { force } => {
            assert(steps[1] is Flush);
        },
        QuitCommand::QuitAll { force } => {
            assert(steps[0] is Flush);
        },
        QuitCommand::CQuit { force, code } => {
            assert(steps[1] is Flush);
        },
    }
}

/// Reading an integer that was written in decimal gives it back, whatever its sign.
pub proof fn reading_integers_undoes_writing(n: int)
    ensures
        signed(crate::commands::diagnostics::signed_decimal(n)) == Some(n),
{
    let s = crate::commands::diagnostics::signed_decimal(n);
    if n < 0 {
        crate::strings::lemma_decimal_digits((-n) as nat);
        assert(s.skip(1) =~= crate::strings::decimal((-n) as nat));
        assert(s[0] == '-');
    } else {
        crate::strings::reading_undoes_writing(n as nat);
        crate::strings::lemma_decimal_digits(n as nat);
        assert(crate::strings::is_digit(s[0]));
    }
}

/// The exit code is the number that the argument writes; without an argument, or with one that is
/// no number, it is 1.
pub proof fn arguments_ask_for_an_exit_code(args: Seq<String>, n: i32)
    ensures
        args.len() == 0 ==> asked_code(args) == 1,
        args.len() > 0 && args[0]@ == crate::commands::diagnostics::signed_decimal(n as int)
            ==> asked_code(args) == n,
        args.len() > 0 && signed(args[0]@) is None ==> asked_code(args) == 1,
{
    reading_integers_undoes_writing(n as int);
}

/// Arguments are shown one after the other with a space between each two.
pub proof fn arguments_are_shown_apart(args: Seq<Seq<char>>, last: Seq<char>)
    requires
        args.len() > 0,
        args[0].len() > 0,
    ensures
        echoed(seq![last]) == last,
        echoed(args.push(last)) == echoed(args) + seq![' '] + last,
{
    reveal_strlit(" ");
    assert(seq![last].drop_last() =~= Seq::<Seq<char>>::empty());
    reveal_with_fuel(echoed, 2);
    assert(echoed(seq![last]) =~= last);
    assert(args.push(last).drop_last() =~= args);
    lemma_echoed_not_empty(args);
    assert(" "@ =~= seq![' ']);
}

proof fn lemma_echoed_not_empty(args: Seq<Seq<char>>)
    requires
        args.len() > 0,
        args[0].len() > 0,
    ensures
        echoed(args).len() > 0,
    decreases args.len(),
{
    if args.len() > 1 {
        assert(args.drop_last()[0] == args[0]);
        lemma_echoed_not_empty(args.drop_last());
    }
}

} // verus!
