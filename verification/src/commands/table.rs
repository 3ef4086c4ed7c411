//! The commands that can be typed at the prompt.

use crate::commands::catalog::{
    command_views, every_name_finds_its_command, find_last, literal_views, plain, CommandView,
    Completer, TypableCommand,
};
use crate::commands::names::{lemma_listed, lemma_listed_once};
use vstd::prelude::*;

verus! {

fn list(commands: &mut Vec<TypableCommand>, c: TypableCommand)
    ensures
        command_views(final(commands)@) == command_views(old(commands)@).push(c@),
{
    let ghost before = commands@;
    commands.push(c);
    assert(command_views(commands@) =~= command_views(before).push(c@));
}

/// The commands from `exit` to `buffer-close-all`.
pub open spec fn from_exit_on() -> Seq<CommandView> {
    Seq::empty().push(
        plain("exit"@, "Write changes to disk if the buffer is modified and then quit. Accepts an optional path (`:exit some/path.txt`)."@, (0, Some(1))).alias("x"@).alias("xit"@).completes(Completer::Filename).flag("no-format"@, None, "skip auto-formatting"@).flag("no-code-actions"@, None, "skip code actions on save"@),
    ).push(
        plain("exit!"@, "Force write changes to disk, creating necessary subdirectories, if the buffer is modified and then quit. Accepts an optional path (`:exit! some/path.txt`)."@, (0, Some(1))).alias("x!"@).alias("xit!"@).completes(Completer::Filename).flag("no-format"@, None, "skip auto-formatting"@).flag("no-code-actions"@, None, "skip code actions on save"@),
    ).push(
        plain("quit"@, "Close the current view."@, (0, Some(0))).alias("q"@),
    ).push(
        plain("quit!"@, "Force close the current view, ignoring unsaved changes."@, (0, Some(0))).alias("q!"@),
    ).push(
        plain("open"@, "Open a file from disk into the current view."@, (1, None)).alias("o"@).alias("edit"@).alias("e"@).completes_all(Completer::Filename),
    ).push(
        plain("buffer-close"@, "Close the current buffer."@, (0, None)).alias("bc"@).alias("bclose"@).completes_all(Completer::Buffer),
    ).push(
        plain("buffer-close!"@, "Close the current buffer forcefully, ignoring unsaved changes."@, (0, None)).alias("bc!"@).alias("bclose!"@).completes_all(Completer::Buffer),
    ).push(
        plain("buffer-close-others"@, "Close all buffers but the currently focused one."@, (0, Some(0))).alias("bco"@).alias("bcloseother"@).flag("skip-visible"@, Some('s'), "don't close buffers that are visible"@),
    ).push(
        plain("buffer-close-others!"@, "Force close all buffers but the currently focused one."@, (0, Some(0))).alias("bco!"@).alias("bcloseother!"@).flag("skip-visible"@, Some('s'), "don't close buffers that are visible"@),
    ).push(
        plain("buffer-close-all"@, "Close all buffers without quitting."@, (0, Some(0))).alias("bca"@).alias("bcloseall"@),
    )
}

fn list_from_exit(commands: &mut Vec<TypableCommand>)
    ensures
        command_views(final(commands)@) == command_views(old(commands)@) + from_exit_on(),
{
    let ghost before = command_views(commands@);
    list(
        commands,
        TypableCommand::plain("exit", "Write changes to disk if the buffer is modified and then quit. Accepts an optional path (`:exit some/path.txt`).", 0, Some(1)).alias("x").alias("xit").completes(Completer::Filename).flag("no-format", None, "skip auto-formatting").flag("no-code-actions", None, "skip code actions on save"),
    );
    list(
        commands,
        TypableCommand::plain("exit!", "Force write changes to disk, creating necessary subdirectories, if the buffer is modified and then quit. Accepts an optional path (`:exit! some/path.txt`).", 0, Some(1)).alias("x!").alias("xit!").completes(Completer::Filename).flag("no-format", None, "skip auto-formatting").flag("no-code-actions", None, "skip code actions on save"),
    );
    list(
        commands,
        TypableCommand::plain("quit", "Close the current view.", 0, Some(0)).alias("q"),
    );
    list(
        commands,
        TypableCommand::plain("quit!", "Force close the current view, ignoring unsaved changes.", 0, Some(0)).alias("q!"),
    );
    list(
        commands,
        TypableCommand::plain("open", "Open a file from disk into the current view.", 1, None).alias("o").alias("edit").alias("e").completes_all(Completer::Filename),
    );
    list(
        commands,
        TypableCommand::plain("buffer-close", "Close the current buffer.", 0, None).alias("bc").alias("bclose").completes_all(Completer::Buffer),
    );
    list(
        commands,
        TypableCommand::plain("buffer-close!", "Close the current buffer forcefully, ignoring unsaved changes.", 0, None).alias("bc!").alias("bclose!").completes_all(Completer::Buffer),
    );
    list(
        commands,
        TypableCommand::plain("buffer-close-others", "Close all buffers but the currently focused one.", 0, Some(0)).alias("bco").alias("bcloseother").flag("skip-visible", Some('s'), "don't close buffers that are visible"),
    );
    list(
        commands,
        TypableCommand::plain("buffer-close-others!", "Force close all buffers but the currently focused one.", 0, Some(0)).alias("bco!").alias("bcloseother!").flag("skip-visible", Some('s'), "don't close buffers that are visible"),
    );
    list(
        commands,
        TypableCommand::plain("buffer-close-all", "Close all buffers without quitting.", 0, Some(0)).alias("bca").alias("bcloseall"),
    );
    assert(command_views(commands@) =~= before + from_exit_on());
}

/// The commands from `buffer-close-all!` to `indent-style`.
pub open spec fn from_buffer_close_all_forced_on() -> Seq<CommandView> {
    Seq::empty().push(
        plain("buffer-close-all!"@, "Force close all buffers ignoring unsaved changes without quitting."@, (0, Some(0))).alias("bca!"@).alias("bcloseall!"@),
    ).push(
        plain("buffer-next"@, "Goto next buffer."@, (0, Some(0))).alias("bn"@).alias("bnext"@),
    ).push(
        plain("buffer-previous"@, "Goto previous buffer."@, (0, Some(0))).alias("bp"@).alias("bprev"@),
    ).push(
        plain("write"@, "Write changes to disk. Accepts an optional path (`:write some/path.txt`)."@, (0, Some(1))).alias("w"@).completes(Completer::Filename).flag("no-format"@, None, "skip auto-formatting"@).flag("no-code-actions"@, None, "skip code actions on save"@),
    ).push(
        plain("write!"@, "Force write changes to disk creating necessary subdirectories. Accepts an optional path (`:write! some/path.txt`)."@, (0, Some(1))).alias("w!"@).completes(Completer::Filename).flag("no-format"@, None, "skip auto-formatting"@).flag("no-code-actions"@, None, "skip code actions on save"@),
    ).push(
        plain("write-buffer-close"@, "Write changes to disk and closes the buffer. Accepts an optional path (`:write-buffer-close some/path.txt`)."@, (0, Some(1))).alias("wbc"@).completes(Completer::Filename).flag("no-format"@, None, "skip auto-formatting"@).flag("no-code-actions"@, None, "skip code actions on save"@),
    ).push(
        plain("write-buffer-close!"@, "Force write changes to disk creating necessary subdirectories and closes the buffer. Accepts an optional path (`:write-buffer-close! some/path.txt`)."@, (0, Some(1))).alias("wbc!"@).completes(Completer::Filename).flag("no-format"@, None, "skip auto-formatting"@).flag("no-code-actions"@, None, "skip code actions on save"@),
    ).push(
        plain("new"@, "Create a new scratch buffer."@, (0, Some(0))).alias("n"@),
    ).push(
        plain("format"@, "Format the file using an external formatter or language server."@, (0, Some(0))).alias("fmt"@),
    ).push(
        plain("indent-style"@, "Set the indentation style for editing. ('t' for tabs or 1-16 for number of spaces.)"@, (0, Some(1))),
    )
}

fn list_from_buffer_close_all_forced(commands: &mut Vec<TypableCommand>)
    ensures
        command_views(final(commands)@) == command_views(old(commands)@) + from_buffer_close_all_forced_on(),
{
    let ghost before = command_views(commands@);
    list(
        commands,
        TypableCommand::plain("buffer-close-all!", "Force close all buffers ignoring unsaved changes without quitting.", 0, Some(0)).alias("bca!").alias("bcloseall!"),
    );
    list(
        commands,
        TypableCommand::plain("buffer-next", "Goto next buffer.", 0, Some(0)).alias("bn").alias("bnext"),
    );
    list(
        commands,
        TypableCommand::plain("buffer-previous", "Goto previous buffer.", 0, Some(0)).alias("bp").alias("bprev"),
    );
    list(
        commands,
        TypableCommand::plain("write", "Write changes to disk. Accepts an optional path (`:write some/path.txt`).", 0, Some(1)).alias("w").completes(Completer::Filename).flag("no-format", None, "skip auto-formatting").flag("no-code-actions", None, "skip code actions on save"),
    );
    list(
        commands,
        TypableCommand::plain("write!", "Force write changes to disk creating necessary subdirectories. Accepts an optional path (`:write! some/path.txt`).", 0, Some(1)).alias("w!").completes(Completer::Filename).flag("no-format", None, "skip auto-formatting").flag("no-code-actions", None, "skip code actions on save"),
    );
    list(
        commands,
        TypableCommand::plain("write-buffer-close", "Write changes to disk and closes the buffer. Accepts an optional path (`:write-buffer-close some/path.txt`).", 0, Some(1)).alias("wbc").completes(Completer::Filename).flag("no-format", None, "skip auto-formatting").flag("no-code-actions", None, "skip code actions on save"),
    );
    list(
        commands,
        TypableCommand::plain("write-buffer-close!", "Force write changes to disk creating necessary subdirectories and closes the buffer. Accepts an optional path (`:write-buffer-close! some/path.txt`).", 0, Some(1)).alias("wbc!").completes(Completer::Filename).flag("no-format", None, "skip auto-formatting").flag("no-code-actions", None, "skip code actions on save"),
    );
    list(
        commands,
        TypableCommand::plain("new", "Create a new scratch buffer.", 0, Some(0)).alias("n"),
    );
    list(
        commands,
        TypableCommand::plain("format", "Format the file using an external formatter or language server.", 0, Some(0)).alias("fmt"),
    );
    list(
        commands,
        TypableCommand::plain("indent-style", "Set the indentation style for editing. ('t' for tabs or 1-16 for number of spaces.)", 0, Some(1)),
    );
    assert(command_views(commands@) =~= before + from_buffer_close_all_forced_on());
}

/// The commands from `line-ending` to `quit-all`.
pub open spec fn from_line_ending_on() -> Seq<CommandView> {
    Seq::empty().push(
        plain("line-ending"@, "Set the document's default line ending. Options: crlf, lf."@, (0, Some(1))),
    ).push(
        plain("earlier"@, "Jump back to an earlier point in edit history. Accepts a number of steps or a time span."@, (0, Some(1))).alias("ear"@),
    ).push(
        plain("later"@, "Jump to a later point in edit history. Accepts a number of steps or a time span."@, (0, Some(1))).alias("lat"@),
    ).push(
        plain("write-quit"@, "Write changes to disk and close the current view. Accepts an optional path (`:wq some/path.txt`)."@, (0, Some(1))).alias("wq"@).completes(Completer::Filename).flag("no-format"@, None, "skip auto-formatting"@).flag("no-code-actions"@, None, "skip code actions on save"@),
    ).push(
        plain("write-quit!"@, "Write changes to disk and close the current view forcefully. Accepts an optional path (`:wq! some/path.txt`)."@, (0, Some(1))).alias("wq!"@).completes(Completer::Filename).flag("no-format"@, None, "skip auto-formatting"@).flag("no-code-actions"@, None, "skip code actions on save"@),
    ).push(
        plain("write-all"@, "Write changes from all buffers to disk."@, (0, Some(0))).alias("wa"@).flag("no-format"@, None, "skip auto-formatting"@).flag("no-code-actions"@, None, "skip code actions on save"@),
    ).push(
        plain("write-all!"@, "Forcefully write changes from all buffers to disk creating necessary subdirectories."@, (0, Some(0))).alias("wa!"@).flag("no-format"@, None, "skip auto-formatting"@).flag("no-code-actions"@, None, "skip code actions on save"@),
    ).push(
        plain("write-quit-all"@, "Write changes from all buffers to disk and close all views."@, (0, Some(0))).alias("wqa"@).alias("xa"@).flag("no-format"@, None, "skip auto-formatting"@).flag("no-code-actions"@, None, "skip code actions on save"@),
    ).push(
        plain("write-quit-all!"@, "Forcefully write changes from all buffers to disk, creating necessary subdirectories, and close all views (ignoring unsaved changes)."@, (0, Some(0))).alias("wqa!"@).alias("xa!"@).flag("no-format"@, None, "skip auto-formatting"@).flag("no-code-actions"@, None, "skip code actions on save"@),
    ).push(
        plain("quit-all"@, "Close all views."@, (0, Some(0))).alias("qa"@),
    )
}

fn list_from_line_ending(commands: &mut Vec<TypableCommand>)
    ensures
        command_views(final(commands)@) == command_views(old(commands)@) + from_line_ending_on(),
{
    let ghost before = command_views(commands@);
    list(
        commands,
        TypableCommand::plain("line-ending", "Set the document's default line ending. Options: crlf, lf.", 0, Some(1)),
    );
    list(
        commands,
        TypableCommand::plain("earlier", "Jump back to an earlier point in edit history. Accepts a number of steps or a time span.", 0, Some(1)).alias("ear"),
    );
    list(
        commands,
        TypableCommand::plain("later", "Jump to a later point in edit history. Accepts a number of steps or a time span.", 0, Some(1)).alias("lat"),
    );
    list(
        commands,
        TypableCommand::plain("write-quit", "Write changes to disk and close the current view. Accepts an optional path (`:wq some/path.txt`).", 0, Some(1)).alias("wq").completes(Completer::Filename).flag("no-format", None, "skip auto-formatting").flag("no-code-actions", None, "skip code actions on save"),
    );
    list(
        commands,
        TypableCommand::plain("write-quit!", "Write changes to disk and close the current view forcefully. Accepts an optional path (`:wq! some/path.txt`).", 0, Some(1)).alias("wq!").completes(Completer::Filename).flag("no-format", None, "skip auto-formatting").flag("no-code-actions", None, "skip code actions on save"),
    );
    list(
        commands,
        TypableCommand::plain("write-all", "Write changes from all buffers to disk.", 0, Some(0)).alias("wa").flag("no-format", None, "skip auto-formatting").flag("no-code-actions", None, "skip code actions on save"),
    );
    list(
        commands,
        TypableCommand::plain("write-all!", "Forcefully write changes from all buffers to disk creating necessary subdirectories.", 0, Some(0)).alias("wa!").flag("no-format", None, "skip auto-formatting").flag("no-code-actions", None, "skip code actions on save"),
    );
    list(
        commands,
        TypableCommand::plain("write-quit-all", "Write changes from all buffers to disk and close all views.", 0, Some(0)).alias("wqa").alias("xa").flag("no-format", None, "skip auto-formatting").flag("no-code-actions", None, "skip code actions on save"),
    );
    list(
        commands,
        TypableCommand::plain("write-quit-all!", "Forcefully write changes from all buffers to disk, creating necessary subdirectories, and close all views (ignoring unsaved changes).", 0, Some(0)).alias("wqa!").alias("xa!").flag("no-format", None, "skip auto-formatting").flag("no-code-actions", None, "skip code actions on save"),
    );
    list(
        commands,
        TypableCommand::plain("quit-all", "Close all views.", 0, Some(0)).alias("qa"),
    );
    assert(command_views(commands@) =~= before + from_line_ending_on());
}

/// The commands from `quit-all!` to `clipboard-paste-after`.
pub open spec fn from_quit_all_forced_on() -> Seq<CommandView> {
    Seq::empty().push(
        plain("quit-all!"@, "Force close all views ignoring unsaved changes."@, (0, Some(0))).alias("qa!"@),
    ).push(
        plain("cquit"@, "Quit with exit code (default 1). Accepts an optional integer exit code (`:cq 2`)."@, (0, Some(1))).alias("cq"@),
    ).push(
        plain("cquit!"@, "Force quit with exit code (default 1) ignoring unsaved changes. Accepts an optional integer exit code (`:cq! 2`)."@, (0, Some(1))).alias("cq!"@),
    ).push(
        plain("theme"@, "Change the editor theme (show current theme if no name specified)."@, (0, Some(1))).completes(Completer::Theme),
    ).push(
        plain("yank-join"@, "Yank joined selections. A separator can be provided as first argument. Default value is newline."@, (0, Some(1))),
    ).push(
        plain("clipboard-yank"@, "Yank main selection into system clipboard."@, (0, Some(0))),
    ).push(
        plain("clipboard-yank-join"@, "Yank joined selections into system clipboard. A separator can be provided as first argument. Default value is newline."@, (0, Some(1))),
    ).push(
        plain("primary-clipboard-yank"@, "Yank main selection into system primary clipboard."@, (0, Some(0))),
    ).push(
        plain("primary-clipboard-yank-join"@, "Yank joined selections into system primary clipboard. A separator can be provided as first argument. Default value is newline."@, (0, Some(1))),
    ).push(
        plain("clipboard-paste-after"@, "Paste system clipboard after selections."@, (0, Some(0))),
    )
}

fn list_from_quit_all_forced(commands: &mut Vec<TypableCommand>)
    ensures
        command_views(final(commands)@) == command_views(old(commands)@) + from_quit_all_forced_on(),
{
    let ghost before = command_views(commands@);
    list(
        commands,
        TypableCommand::plain("quit-all!", "Force close all views ignoring unsaved changes.", 0, Some(0)).alias("qa!"),
    );
    list(
        commands,
        TypableCommand::plain("cquit", "Quit with exit code (default 1). Accepts an optional integer exit code (`:cq 2`).", 0, Some(1)).alias("cq"),
    );
    list(
        commands,
        TypableCommand::plain("cquit!", "Force quit with exit code (default 1) ignoring unsaved changes. Accepts an optional integer exit code (`:cq! 2`).", 0, Some(1)).alias("cq!"),
    );
    list(
        commands,
        TypableCommand::plain("theme", "Change the editor theme (show current theme if no name specified).", 0, Some(1)).completes(Completer::Theme),
    );
    list(
        commands,
        TypableCommand::plain("yank-join", "Yank joined selections. A separator can be provided as first argument. Default value is newline.", 0, Some(1)),
    );
    list(
        commands,
        TypableCommand::plain("clipboard-yank", "Yank main selection into system clipboard.", 0, Some(0)),
    );
    list(
        commands,
        TypableCommand::plain("clipboard-yank-join", "Yank joined selections into system clipboard. A separator can be provided as first argument. Default value is newline.", 0, Some(1)),
    );
    list(
        commands,
        TypableCommand::plain("primary-clipboard-yank", "Yank main selection into system primary clipboard.", 0, Some(0)),
    );
    list(
        commands,
        TypableCommand::plain("primary-clipboard-yank-join", "Yank joined selections into system primary clipboard. A separator can be provided as first argument. Default value is newline.", 0, Some(1)),
    );
    list(
        commands,
        TypableCommand::plain("clipboard-paste-after", "Paste system clipboard after selections.", 0, Some(0)),
    );
    assert(command_views(commands@) =~= before + from_quit_all_forced_on());
}

/// The commands from `clipboard-paste-before` to `pop-directory`.
pub open spec fn from_clipboard_paste_before_on() -> Seq<CommandView> {
    Seq::empty().push(
        plain("clipboard-paste-before"@, "Paste system clipboard before selections."@, (0, Some(0))),
    ).push(
        plain("clipboard-paste-replace"@, "Replace selections with content of system clipboard."@, (0, Some(0))),
    ).push(
        plain("primary-clipboard-paste-after"@, "Paste primary clipboard after selections."@, (0, Some(0))),
    ).push(
        plain("primary-clipboard-paste-before"@, "Paste primary clipboard before selections."@, (0, Some(0))),
    ).push(
        plain("primary-clipboard-paste-replace"@, "Replace selections with content of system primary clipboard."@, (0, Some(0))),
    ).push(
        plain("show-clipboard-provider"@, "Show clipboard provider name in status bar."@, (0, Some(0))),
    ).push(
        plain("change-current-directory"@, "Change the current working directory."@, (1, Some(1))).alias("cd"@).completes(Completer::Directory),
    ).push(
        plain("show-directory-stack"@, "Show the directory stack as a space-delimited string."@, (0, Some(0))),
    ).push(
        plain("push-directory"@, "Save and then change the current directory."@, (1, Some(1))).alias("pushd"@).completes(Completer::Directory),
    ).push(
        plain("pop-directory"@, "Remove the top entry from the directory stack, and cd to the new top directory.."@, (0, Some(0))).alias("popd"@),
    )
}

fn list_from_clipboard_paste_before(commands: &mut Vec<TypableCommand>)
    ensures
        command_views(final(commands)@) == command_views(old(commands)@) + from_clipboard_paste_before_on(),
{
    let ghost before = command_views(commands@);
    list(
        commands,
        TypableCommand::plain("clipboard-paste-before", "Paste system clipboard before selections.", 0, Some(0)),
    );
    list(
        commands,
        TypableCommand::plain("clipboard-paste-replace", "Replace selections with content of system clipboard.", 0, Some(0)),
    );
    list(
        commands,
        TypableCommand::plain("primary-clipboard-paste-after", "Paste primary clipboard after selections.", 0, Some(0)),
    );
    list(
        commands,
        TypableCommand::plain("primary-clipboard-paste-before", "Paste primary clipboard before selections.", 0, Some(0)),
    );
    list(
        commands,
        TypableCommand::plain("primary-clipboard-paste-replace", "Replace selections with content of system primary clipboard.", 0, Some(0)),
    );
    list(
        commands,
        TypableCommand::plain("show-clipboard-provider", "Show clipboard provider name in status bar.", 0, Some(0)),
    );
    list(
        commands,
        TypableCommand::plain("change-current-directory", "Change the current working directory.", 1, Some(1)).alias("cd").completes(Completer::Directory),
    );
    list(
        commands,
        TypableCommand::plain("show-directory-stack", "Show the directory stack as a space-delimited string.", 0, Some(0)),
    );
    list(
        commands,
        TypableCommand::plain("push-directory", "Save and then change the current directory.", 1, Some(1)).alias("pushd").completes(Completer::Directory),
    );
    list(
        commands,
        TypableCommand::plain("pop-directory", "Remove the top entry from the directory stack, and cd to the new top directory..", 0, Some(0)).alias("popd"),
    );
    assert(command_views(commands@) =~= before + from_clipboard_paste_before_on());
}

/// The commands from `show-directory` to `tree-sitter-scopes`.
pub open spec fn from_show_directory_on() -> Seq<CommandView> {
    Seq::empty().push(
        plain("show-directory"@, "Show the current working directory."@, (0, Some(0))).alias("pwd"@),
    ).push(
        plain("encoding"@, "Set encoding. Based on `https://encoding.spec.whatwg.org`."@, (0, Some(1))),
    ).push(
        plain("character-info"@, "Get info about the character under the primary cursor."@, (0, Some(0))).alias("char"@),
    ).push(
        plain("reload"@, "Discard changes and reload from the source file."@, (0, Some(0))).alias("rl"@),
    ).push(
        plain("reload-all"@, "Discard changes and reload all documents from the source files."@, (0, Some(0))).alias("rla"@),
    ).push(
        plain("update"@, "Write changes only if the file has been modified."@, (0, Some(0))).alias("u"@).flag("no-format"@, None, "skip auto-formatting"@),
    ).push(
        plain("lsp-workspace-command"@, "Open workspace command picker"@, (0, None)).completes(Completer::LspWorkspaceCommand).raw_from(1),
    ).push(
        plain("lsp-restart"@, "Restarts the given language servers, or all language servers that are used by the current file if no arguments are supplied"@, (0, None)).completes_all(Completer::ConfiguredLanguageServers),
    ).push(
        plain("lsp-stop"@, "Stops the given language servers, or all language servers that are used by the current file if no arguments are supplied"@, (0, None)).completes_all(Completer::ActiveLanguageServers),
    ).push(
        plain("tree-sitter-scopes"@, "Display tree sitter scopes, primarily for theming and development."@, (0, Some(0))),
    )
}

fn list_from_show_directory(commands: &mut Vec<TypableCommand>)
    ensures
        command_views(final(commands)@) == command_views(old(commands)@) + from_show_directory_on(),
{
    let ghost before = command_views(commands@);
    list(
        commands,
        TypableCommand::plain("show-directory", "Show the current working directory.", 0, Some(0)).alias("pwd"),
    );
    list(
        commands,
        TypableCommand::plain("encoding", "Set encoding. Based on `https://encoding.spec.whatwg.org`.", 0, Some(1)),
    );
    list(
        commands,
        TypableCommand::plain("character-info", "Get info about the character under the primary cursor.", 0, Some(0)).alias("char"),
    );
    list(
        commands,
        TypableCommand::plain("reload", "Discard changes and reload from the source file.", 0, Some(0)).alias("rl"),
    );
    list(
        commands,
        TypableCommand::plain("reload-all", "Discard changes and reload all documents from the source files.", 0, Some(0)).alias("rla"),
    );
    list(
        commands,
        TypableCommand::plain("update", "Write changes only if the file has been modified.", 0, Some(0)).alias("u").flag("no-format", None, "skip auto-formatting"),
    );
    list(
        commands,
        TypableCommand::plain("lsp-workspace-command", "Open workspace command picker", 0, None).completes(Completer::LspWorkspaceCommand).raw_from(1),
    );
    list(
        commands,
        TypableCommand::plain("lsp-restart", "Restarts the given language servers, or all language servers that are used by the current file if no arguments are supplied", 0, None).completes_all(Completer::ConfiguredLanguageServers),
    );
    list(
        commands,
        TypableCommand::plain("lsp-stop", "Stops the given language servers, or all language servers that are used by the current file if no arguments are supplied", 0, None).completes_all(Completer::ActiveLanguageServers),
    );
    list(
        commands,
        TypableCommand::plain("tree-sitter-scopes", "Display tree sitter scopes, primarily for theming and development.", 0, Some(0)),
    );
    assert(command_views(commands@) =~= before + from_show_directory_on());
}

/// The commands from `tree-sitter-highlight-name` to `tutor`.
pub open spec fn from_tree_sitter_highlight_name_on() -> Seq<CommandView> {
    Seq::empty().push(
        plain("tree-sitter-highlight-name"@, "Display name of tree-sitter highlight scope under the cursor."@, (0, Some(0))),
    ).push(
        plain("tree-sitter-layers"@, "Display language names of tree-sitter injection layers under the cursor."@, (0, Some(0))),
    ).push(
        plain("debug-start"@, "Start a debug session from a given template with given parameters."@, (0, None)).alias("dbg"@),
    ).push(
        plain("debug-remote"@, "Connect to a debug adapter by TCP address and start a debugging session from a given template with given parameters."@, (0, None)).alias("dbg-tcp"@),
    ).push(
        plain("debug-eval"@, "Evaluate expression in current debug context."@, (1, Some(1))),
    ).push(
        plain("vsplit"@, "Open the file in a vertical split."@, (0, None)).alias("vs"@).completes_all(Completer::Filename),
    ).push(
        plain("vsplit-new"@, "Open a scratch buffer in a vertical split."@, (0, Some(0))).alias("vnew"@),
    ).push(
        plain("hsplit"@, "Open the file in a horizontal split."@, (0, None)).alias("hs"@).alias("sp"@).completes_all(Completer::Filename),
    ).push(
        plain("hsplit-new"@, "Open a scratch buffer in a horizontal split."@, (0, Some(0))).alias("hnew"@),
    ).push(
        plain("tutor"@, "Open the tutorial."@, (0, Some(0))),
    )
}

fn list_from_tree_sitter_highlight_name(commands: &mut Vec<TypableCommand>)
    ensures
        command_views(final(commands)@) == command_views(old(commands)@) + from_tree_sitter_highlight_name_on(),
{
    let ghost before = command_views(commands@);
    list(
        commands,
        TypableCommand::plain("tree-sitter-highlight-name", "Display name of tree-sitter highlight scope under the cursor.", 0, Some(0)),
    );
    list(
        commands,
        TypableCommand::plain("tree-sitter-layers", "Display language names of tree-sitter injection layers under the cursor.", 0, Some(0)),
    );
    list(
        commands,
        TypableCommand::plain("debug-start", "Start a debug session from a given template with given parameters.", 0, None).alias("dbg"),
    );
    list(
        commands,
        TypableCommand::plain("debug-remote", "Connect to a debug adapter by TCP address and start a debugging session from a given template with given parameters.", 0, None).alias("dbg-tcp"),
    );
    list(
        commands,
        TypableCommand::plain("debug-eval", "Evaluate expression in current debug context.", 1, Some(1)),
    );
    list(
        commands,
        TypableCommand::plain("vsplit", "Open the file in a vertical split.", 0, None).alias("vs").completes_all(Completer::Filename),
    );
    list(
        commands,
        TypableCommand::plain("vsplit-new", "Open a scratch buffer in a vertical split.", 0, Some(0)).alias("vnew"),
    );
    list(
        commands,
        TypableCommand::plain("hsplit", "Open the file in a horizontal split.", 0, None).alias("hs").alias("sp").completes_all(Completer::Filename),
    );
    list(
        commands,
        TypableCommand::plain("hsplit-new", "Open a scratch buffer in a horizontal split.", 0, Some(0)).alias("hnew"),
    );
    list(
        commands,
        TypableCommand::plain("tutor", "Open the tutorial.", 0, Some(0)),
    );
    assert(command_views(commands@) =~= before + from_tree_sitter_highlight_name_on());
}

/// The commands from `goto` to `config-reload`.
pub open spec fn from_goto_on() -> Seq<CommandView> {
    Seq::empty().push(
        plain("goto"@, "Goto line number."@, (1, Some(1))).alias("g"@),
    ).push(
        plain("set-language"@, "Set the language of current buffer (show current language if no value specified)."@, (0, Some(1))).alias("lang"@).completes(Completer::Language),
    ).push(
        plain("set-spelling-language"@, "Set the spell-checking languages for the current buffer (e.g. `en_US`); a word is flagged only when every language rejects it. Pass `off` to disable, or no value to show the current languages."@, (0, None)).alias("spelling"@).completes_all(Completer::SpellingLanguage),
    ).push(
        plain("set-option"@, "Set a config option at runtime.\nFor example to disable smart case search, use `:set search.smart-case false`."@, (2, Some(2))).alias("set"@).completes(Completer::Setting).raw_from(1),
    ).push(
        plain("toggle-option"@, "Toggle a config option at runtime.\nFor example to toggle smart case search, use `:toggle search.smart-case`."@, (1, None)).alias("toggle"@).completes(Completer::Setting).raw_from(1),
    ).push(
        plain("get-option"@, "Get the current value of a config option."@, (1, Some(1))).alias("get"@).completes(Completer::Setting),
    ).push(
        plain("sort"@, "Sort ranges in selection."@, (0, Some(0))).flag("insensitive"@, Some('i'), "sort the ranges case-insensitively"@).flag("reverse"@, Some('r'), "sort ranges in reverse order"@),
    ).push(
        plain("reflow"@, "Hard-wrap the current selection of lines to a given width."@, (0, Some(1))),
    ).push(
        plain("tree-sitter-subtree"@, "Display the smallest tree-sitter subtree that spans the primary selection, primarily for debugging queries."@, (0, Some(0))).alias("ts-subtree"@),
    ).push(
        plain("config-reload"@, "Refresh user config."@, (0, Some(0))),
    )
}

fn list_from_goto(commands: &mut Vec<TypableCommand>)
    ensures
        command_views(final(commands)@) == command_views(old(commands)@) + from_goto_on(),
{
    let ghost before = command_views(commands@);
    list(
        commands,
        TypableCommand::plain("goto", "Goto line number.", 1, Some(1)).alias("g"),
    );
    list(
        commands,
        TypableCommand::plain("set-language", "Set the language of current buffer (show current language if no value specified).", 0, Some(1)).alias("lang").completes(Completer::Language),
    );
    list(
        commands,
        TypableCommand::plain("set-spelling-language", "Set the spell-checking languages for the current buffer (e.g. `en_US`); a word is flagged only when every language rejects it. Pass `off` to disable, or no value to show the current languages.", 0, None).alias("spelling").completes_all(Completer::SpellingLanguage),
    );
    list(
        commands,
        TypableCommand::plain("set-option", "Set a config option at runtime.\nFor example to disable smart case search, use `:set search.smart-case false`.", 2, Some(2)).alias("set").completes(Completer::Setting).raw_from(1),
    );
    list(
        commands,
        TypableCommand::plain("toggle-option", "Toggle a config option at runtime.\nFor example to toggle smart case search, use `:toggle search.smart-case`.", 1, None).alias("toggle").completes(Completer::Setting).raw_from(1),
    );
    list(
        commands,
        TypableCommand::plain("get-option", "Get the current value of a config option.", 1, Some(1)).alias("get").completes(Completer::Setting),
    );
    list(
        commands,
        TypableCommand::plain("sort", "Sort ranges in selection.", 0, Some(0)).flag("insensitive", Some('i'), "sort the ranges case-insensitively").flag("reverse", Some('r'), "sort ranges in reverse order"),
    );
    list(
        commands,
        TypableCommand::plain("reflow", "Hard-wrap the current selection of lines to a given width.", 0, Some(1)),
    );
    list(
        commands,
        TypableCommand::plain("tree-sitter-subtree", "Display the smallest tree-sitter subtree that spans the primary selection, primarily for debugging queries.", 0, Some(0)).alias("ts-subtree"),
    );
    list(
        commands,
        TypableCommand::plain("config-reload", "Refresh user config.", 0, Some(0)),
    );
    assert(command_views(commands@) =~= before + from_goto_on());
}

/// The commands from `config-open` to `clear-register`.
pub open spec fn from_config_open_on() -> Seq<CommandView> {
    Seq::empty().push(
        plain("config-open"@, "Open the user config.toml file."@, (0, Some(0))),
    ).push(
        plain("config-open-workspace"@, "Open the workspace config.toml file."@, (0, Some(0))),
    ).push(
        plain("log-open"@, "Open the mitos log file."@, (0, Some(0))),
    ).push(
        plain("insert-output"@, "Run shell command, inserting output before each selection."@, (1, Some(2))).completes(Completer::Program).completes(Completer::RepeatingFilenames).raw_from(1),
    ).push(
        plain("append-output"@, "Run shell command, appending output after each selection."@, (1, Some(2))).completes(Completer::Program).completes(Completer::RepeatingFilenames).raw_from(1),
    ).push(
        plain("pipe"@, "Pipe each selection to the shell command."@, (1, Some(2))).alias("|"@).completes(Completer::Program).completes(Completer::RepeatingFilenames).raw_from(1),
    ).push(
        plain("pipe-to"@, "Pipe each selection to the shell command, ignoring output."@, (1, Some(2))).completes(Completer::Program).completes(Completer::RepeatingFilenames).raw_from(1),
    ).push(
        plain("run-shell-command"@, "Run a shell command"@, (1, Some(2))).alias("sh"@).alias("!"@).completes(Completer::Program).completes(Completer::RepeatingFilenames).raw_from(1),
    ).push(
        plain("reset-diff-change"@, "Reset the diff change at the cursor position."@, (0, Some(0))).alias("diffget"@).alias("diffg"@),
    ).push(
        plain("clear-register"@, "Clear given register. If no argument is provided, clear all registers."@, (0, Some(1))).completes_all(Completer::Register),
    )
}

fn list_from_config_open(commands: &mut Vec<TypableCommand>)
    ensures
        command_views(final(commands)@) == command_views(old(commands)@) + from_config_open_on(),
{
    let ghost before = command_views(commands@);
    list(
        commands,
        TypableCommand::plain("config-open", "Open the user config.toml file.", 0, Some(0)),
    );
    list(
        commands,
        TypableCommand::plain("config-open-workspace", "Open the workspace config.toml file.", 0, Some(0)),
    );
    list(
        commands,
        TypableCommand::plain("log-open", "Open the mitos log file.", 0, Some(0)),
    );
    list(
        commands,
        TypableCommand::plain("insert-output", "Run shell command, inserting output before each selection.", 1, Some(2)).completes(Completer::Program).completes(Completer::RepeatingFilenames).raw_from(1),
    );
    list(
        commands,
        TypableCommand::plain("append-output", "Run shell command, appending output after each selection.", 1, Some(2)).completes(Completer::Program).completes(Completer::RepeatingFilenames).raw_from(1),
    );
    list(
        commands,
        TypableCommand::plain("pipe", "Pipe each selection to the shell command.", 1, Some(2)).alias("|").completes(Completer::Program).completes(Completer::RepeatingFilenames).raw_from(1),
    );
    list(
        commands,
        TypableCommand::plain("pipe-to", "Pipe each selection to the shell command, ignoring output.", 1, Some(2)).completes(Completer::Program).completes(Completer::RepeatingFilenames).raw_from(1),
    );
    list(
        commands,
        TypableCommand::plain("run-shell-command", "Run a shell command", 1, Some(2)).alias("sh").alias("!").completes(Completer::Program).completes(Completer::RepeatingFilenames).raw_from(1),
    );
    list(
        commands,
        TypableCommand::plain("reset-diff-change", "Reset the diff change at the cursor position.", 0, Some(0)).alias("diffget").alias("diffg"),
    );
    list(
        commands,
        TypableCommand::plain("clear-register", "Clear given register. If no argument is provided, clear all registers.", 0, Some(1)).completes_all(Completer::Register),
    );
    assert(command_views(commands@) =~= before + from_config_open_on());
}

/// The commands from `set-register` to `workspace-untrust`.
pub open spec fn from_set_register_on() -> Seq<CommandView> {
    Seq::empty().push(
        plain("set-register"@, "Set contents of the given register."@, (2, Some(2))).completes(Completer::Register).completes(Completer::Nothing).raw_from(1),
    ).push(
        plain("redraw"@, "Clear and re-render the whole UI"@, (0, Some(0))),
    ).push(
        plain("move"@, "Move the current buffer and its corresponding file to a different path"@, (1, Some(1))).alias("mv"@).completes(Completer::Filename),
    ).push(
        plain("move!"@, "Move the current buffer and its corresponding file to a different path creating necessary subdirectories"@, (1, Some(1))).alias("mv!"@).completes(Completer::Filename),
    ).push(
        plain("yank-diagnostic"@, "Yank diagnostic(s) under primary cursor to register, or clipboard by default"@, (0, Some(1))).completes_all(Completer::Register),
    ).push(
        plain("read"@, "Load a file into buffer"@, (1, Some(1))).alias("r"@).completes(Completer::Filename),
    ).push(
        plain("echo"@, "Prints the given arguments to the statusline."@, (1, None)),
    ).push(
        plain("noop"@, "Does nothing."@, (0, None)),
    ).push(
        plain("workspace-trust"@, "Allow language servers and local config for the current workspace."@, (0, None)),
    ).push(
        plain("workspace-untrust"@, "Revoke the current workspace's trust grant or exclusion."@, (0, None)),
    )
}

fn list_from_set_register(commands: &mut Vec<TypableCommand>)
    ensures
        command_views(final(commands)@) == command_views(old(commands)@) + from_set_register_on(),
{
    let ghost before = command_views(commands@);
    list(
        commands,
        TypableCommand::plain("set-register", "Set contents of the given register.", 2, Some(2)).completes(Completer::Register).completes(Completer::Nothing).raw_from(1),
    );
    list(
        commands,
        TypableCommand::plain("redraw", "Clear and re-render the whole UI", 0, Some(0)),
    );
    list(
        commands,
        TypableCommand::plain("move", "Move the current buffer and its corresponding file to a different path", 1, Some(1)).alias("mv").completes(Completer::Filename),
    );
    list(
        commands,
        TypableCommand::plain("move!", "Move the current buffer and its corresponding file to a different path creating necessary subdirectories", 1, Some(1)).alias("mv!").completes(Completer::Filename),
    );
    list(
        commands,
        TypableCommand::plain("yank-diagnostic", "Yank diagnostic(s) under primary cursor to register, or clipboard by default", 0, Some(1)).completes_all(Completer::Register),
    );
    list(
        commands,
        TypableCommand::plain("read", "Load a file into buffer", 1, Some(1)).alias("r").completes(Completer::Filename),
    );
    list(
        commands,
        TypableCommand::plain("echo", "Prints the given arguments to the statusline.", 1, None),
    );
    list(
        commands,
        TypableCommand::plain("noop", "Does nothing.", 0, None),
    );
    list(
        commands,
        TypableCommand::plain("workspace-trust", "Allow language servers and local config for the current workspace.", 0, None),
    );
    list(
        commands,
        TypableCommand::plain("workspace-untrust", "Revoke the current workspace's trust grant or exclusion.", 0, None),
    );
    assert(command_views(commands@) =~= before + from_set_register_on());
}

/// The commands from `workspace-exclude` to `workspace-exclude`.
pub open spec fn from_workspace_exclude_on() -> Seq<CommandView> {
    Seq::empty().push(
        plain("workspace-exclude"@, "Mark the current workspace as never-prompt. Never prompts for trust again."@, (0, None)),
    )
}

fn list_from_workspace_exclude(commands: &mut Vec<TypableCommand>)
    ensures
        command_views(final(commands)@) == command_views(old(commands)@) + from_workspace_exclude_on(),
{
    let ghost before = command_views(commands@);
    list(
        commands,
        TypableCommand::plain("workspace-exclude", "Mark the current workspace as never-prompt. Never prompts for trust again.", 0, None),
    );
    assert(command_views(commands@) =~= before + from_workspace_exclude_on());
}

/// All commands that can be typed at the prompt.
pub open spec fn all_commands() -> Seq<CommandView> {
    from_exit_on() + from_buffer_close_all_forced_on() + from_line_ending_on() + from_quit_all_forced_on() + from_clipboard_paste_before_on() + from_show_directory_on() + from_tree_sitter_highlight_name_on() + from_goto_on() + from_config_open_on() + from_set_register_on() + from_workspace_exclude_on()
}

/// All commands that can be typed at the prompt.
pub fn typable_command_list() -> (commands: Vec<TypableCommand>)
    ensures
        command_views(commands@) == all_commands(),
{
    let mut commands: Vec<TypableCommand> = Vec::new();
    assert(command_views(commands@) =~= Seq::<CommandView>::empty());
    list_from_exit(&mut commands);
    list_from_buffer_close_all_forced(&mut commands);
    list_from_line_ending(&mut commands);
    list_from_quit_all_forced(&mut commands);
    list_from_clipboard_paste_before(&mut commands);
    list_from_show_directory(&mut commands);
    list_from_tree_sitter_highlight_name(&mut commands);
    list_from_goto(&mut commands);
    list_from_config_open(&mut commands);
    list_from_set_register(&mut commands);
    list_from_workspace_exclude(&mut commands);
    assert(command_views(commands@) =~= all_commands());
    commands
}

/// No two commands share a name or an alias.
pub proof fn names_are_distinct(i: int, j: int, name: Seq<char>)
    requires
        0 <= i < all_commands().len(),
        0 <= j < all_commands().len(),
        all_commands()[i].answers(name),
        all_commands()[j].answers(name),
    ensures
        i == j,
{
    lemma_listed(i, name);
    lemma_listed(j, name);
    lemma_listed_once(i, j, name);
}

/// A command says by its view what it answers to.
pub proof fn lemma_answers(c: TypableCommand, name: Seq<char>)
    ensures
        c.answers_to(name) <==> c@.answers(name),
{
    let views = literal_views(c.aliases@);
    if c.answers_to(name) && c.name@ != name {
        let k = choose|k: int|
            0 <= k < c.aliases@.len() && (#[trigger] c.aliases@[k])@ == name;
        assert(views[k] == name);
    }
    if views.contains(name) {
        let k = choose|k: int| 0 <= k < views.len() && views[k] == name;
        assert(c.aliases@[k]@ == name);
    }
}

/// Each command of the list is found by its name and by every alias.
pub proof fn listed_commands_are_found(commands: Seq<TypableCommand>, i: int, name: Seq<char>)
    requires
        command_views(commands) == all_commands(),
        0 <= i < commands.len(),
        commands[i].answers_to(name),
    ensures
        find_last(commands, name, commands.len()) == Some(i),
{
    assert forall|j: int| 0 <= j < commands.len() && j != i implies !(
    #[trigger] commands[j]).answers_to(name) by {
        if commands[j].answers_to(name) {
            lemma_answers(commands[i], name);
            lemma_answers(commands[j], name);
            assert(command_views(commands)[i] == commands[i]@);
            assert(command_views(commands)[j] == commands[j]@);
            names_are_distinct(i, j, name);
        }
    }
    every_name_finds_its_command(commands, i, name);
}

} // verus!
