//! The names and aliases of the commands that can be typed at the prompt, in order.

use crate::commands::command_line::separates;
use crate::commands::table::{
    all_commands, from_buffer_close_all_forced_on, from_clipboard_paste_before_on,
    from_config_open_on, from_exit_on, from_goto_on, from_line_ending_on, from_quit_all_forced_on,
    from_set_register_on, from_show_directory_on, from_tree_sitter_highlight_name_on,
    from_workspace_exclude_on,
};
use crate::custom_commands::ESCAPE;
use crate::strings::{comes_before, lemma_comes_before_total, lemma_comes_before_transitive};
use vstd::prelude::*;

verus! {

/// Names that stand in order, each once.
pub open spec fn rising(names: Seq<(Seq<char>, int)>) -> bool {
    forall|i: int, j: int|
        0 <= i < j < names.len() ==> comes_before((#[trigger] names[i]).0, (#[trigger] names[j]).0)
}

/// A word without spaces and tabs, and without a mark before it.
pub open spec fn is_word(s: Seq<char>) -> bool {
    &&& s.len() > 0
    &&& s[0] != ESCAPE
    &&& forall|k: int| 0 <= k < s.len() ==> !separates(#[trigger] s[k])
}

/// Names that are words.
pub open spec fn words(names: Seq<(Seq<char>, int)>) -> bool {
    forall|i: int| 0 <= i < names.len() ==> is_word((#[trigger] names[i]).0)
}

/// Each name comes before the next.
pub open spec fn stepping(names: Seq<(Seq<char>, int)>) -> bool {
    forall|i: int| #![trigger names[i]]
        0 <= i < names.len() - 1 ==> comes_before(names[i].0, names[i + 1].0)
}

proof fn lemma_stepping(names: Seq<(Seq<char>, int)>, i: int, j: int)
    requires
        stepping(names),
        0 <= i < j < names.len(),
    ensures
        comes_before(names[i].0, names[j].0),
    decreases j,
{
    assert(comes_before(names[j - 1].0, names[j].0));
    if i < j - 1 {
        lemma_stepping(names, i, j - 1);
        lemma_comes_before_transitive(names[i].0, names[j - 1].0, names[j].0);
    }
}

/// Two texts that agree up to `k`, where the first ends or has the smaller character.
proof fn lemma_first_difference(a: Seq<char>, b: Seq<char>, k: int)
    requires
        0 <= k <= a.len(),
        k < b.len(),
        forall|i: int| 0 <= i < k ==> #[trigger] a[i] == b[i],
        k < a.len() ==> (a[k] as int) < (b[k] as int),
    ensures
        comes_before(a, b),
    decreases k,
{
    if k > 0 {
        assert(a[0] == b[0]);
        assert forall|i: int| 0 <= i < k - 1 implies #[trigger] a.skip(1)[i] == b.skip(1)[i] by {
            assert(a[i + 1] == b[i + 1]);
        }
        lemma_first_difference(a.skip(1), b.skip(1), k - 1);
    }
}

/// The names from `!` to `bnext`, each with the number of its command.
pub open spec fn names_from_bang() -> Seq<(Seq<char>, int)> {
    seq![
        ("!"@, 87int),
        ("append-output"@, 84int),
        ("bc"@, 5int),
        ("bc!"@, 6int),
        ("bca"@, 9int),
        ("bca!"@, 10int),
        ("bclose"@, 5int),
        ("bclose!"@, 6int),
        ("bcloseall"@, 9int),
        ("bcloseall!"@, 10int),
        ("bcloseother"@, 7int),
        ("bcloseother!"@, 8int),
        ("bco"@, 7int),
        ("bco!"@, 8int),
        ("bn"@, 11int),
        ("bnext"@, 11int),
    ]
}

proof fn lemma_names_from_bang()
    ensures
        stepping(names_from_bang()),
        words(names_from_bang()),
        names_from_bang().len() == 16,
        names_from_bang()[0] == ("!"@, 87int),
        names_from_bang()[15] == ("bnext"@, 11int),
{
    reveal_strlit("!");
    reveal_strlit("append-output");
    reveal_strlit("bc");
    reveal_strlit("bc!");
    reveal_strlit("bca");
    reveal_strlit("bca!");
    reveal_strlit("bclose");
    reveal_strlit("bclose!");
    reveal_strlit("bcloseall");
    reveal_strlit("bcloseall!");
    reveal_strlit("bcloseother");
    reveal_strlit("bcloseother!");
    reveal_strlit("bco");
    reveal_strlit("bco!");
    reveal_strlit("bn");
    reveal_strlit("bnext");
    lemma_first_difference("!"@, "append-output"@, 0);
    lemma_first_difference("append-output"@, "bc"@, 0);
    lemma_first_difference("bc"@, "bc!"@, 2);
    lemma_first_difference("bc!"@, "bca"@, 2);
    lemma_first_difference("bca"@, "bca!"@, 3);
    lemma_first_difference("bca!"@, "bclose"@, 2);
    lemma_first_difference("bclose"@, "bclose!"@, 6);
    lemma_first_difference("bclose!"@, "bcloseall"@, 6);
    lemma_first_difference("bcloseall"@, "bcloseall!"@, 9);
    lemma_first_difference("bcloseall!"@, "bcloseother"@, 6);
    lemma_first_difference("bcloseother"@, "bcloseother!"@, 11);
    lemma_first_difference("bcloseother!"@, "bco"@, 2);
    lemma_first_difference("bco"@, "bco!"@, 3);
    lemma_first_difference("bco!"@, "bn"@, 1);
    lemma_first_difference("bn"@, "bnext"@, 2);
    assert(is_word("!"@));
    assert(is_word("append-output"@));
    assert(is_word("bc"@));
    assert(is_word("bc!"@));
    assert(is_word("bca"@));
    assert(is_word("bca!"@));
    assert(is_word("bclose"@));
    assert(is_word("bclose!"@));
    assert(is_word("bcloseall"@));
    assert(is_word("bcloseall!"@));
    assert(is_word("bcloseother"@));
    assert(is_word("bcloseother!"@));
    assert(is_word("bco"@));
    assert(is_word("bco!"@));
    assert(is_word("bn"@));
    assert(is_word("bnext"@));
}

/// The names from `bp` to `clipboard-paste-after`, each with the number of its command.
pub open spec fn names_from_bp() -> Seq<(Seq<char>, int)> {
    seq![
        ("bp"@, 12int),
        ("bprev"@, 12int),
        ("buffer-close"@, 5int),
        ("buffer-close!"@, 6int),
        ("buffer-close-all"@, 9int),
        ("buffer-close-all!"@, 10int),
        ("buffer-close-others"@, 7int),
        ("buffer-close-others!"@, 8int),
        ("buffer-next"@, 11int),
        ("buffer-previous"@, 12int),
        ("cd"@, 46int),
        ("change-current-directory"@, 46int),
        ("char"@, 52int),
        ("character-info"@, 52int),
        ("clear-register"@, 89int),
        ("clipboard-paste-after"@, 39int),
    ]
}

proof fn lemma_names_from_bp()
    ensures
        stepping(names_from_bp()),
        words(names_from_bp()),
        names_from_bp().len() == 16,
        names_from_bp()[0] == ("bp"@, 12int),
        names_from_bp()[15] == ("clipboard-paste-after"@, 39int),
{
    reveal_strlit("bp");
    reveal_strlit("bprev");
    reveal_strlit("buffer-close");
    reveal_strlit("buffer-close!");
    reveal_strlit("buffer-close-all");
    reveal_strlit("buffer-close-all!");
    reveal_strlit("buffer-close-others");
    reveal_strlit("buffer-close-others!");
    reveal_strlit("buffer-next");
    reveal_strlit("buffer-previous");
    reveal_strlit("cd");
    reveal_strlit("change-current-directory");
    reveal_strlit("char");
    reveal_strlit("character-info");
    reveal_strlit("clear-register");
    reveal_strlit("clipboard-paste-after");
    lemma_first_difference("bp"@, "bprev"@, 2);
    lemma_first_difference("bprev"@, "buffer-close"@, 1);
    lemma_first_difference("buffer-close"@, "buffer-close!"@, 12);
    lemma_first_difference("buffer-close!"@, "buffer-close-all"@, 12);
    lemma_first_difference("buffer-close-all"@, "buffer-close-all!"@, 16);
    lemma_first_difference("buffer-close-all!"@, "buffer-close-others"@, 13);
    lemma_first_difference("buffer-close-others"@, "buffer-close-others!"@, 19);
    lemma_first_difference("buffer-close-others!"@, "buffer-next"@, 7);
    lemma_first_difference("buffer-next"@, "buffer-previous"@, 7);
    lemma_first_difference("buffer-previous"@, "cd"@, 0);
    lemma_first_difference("cd"@, "change-current-directory"@, 1);
    lemma_first_difference("change-current-directory"@, "char"@, 3);
    lemma_first_difference("char"@, "character-info"@, 4);
    lemma_first_difference("character-info"@, "clear-register"@, 1);
    lemma_first_difference("clear-register"@, "clipboard-paste-after"@, 2);
    assert(is_word("bp"@));
    assert(is_word("bprev"@));
    assert(is_word("buffer-close"@));
    assert(is_word("buffer-close!"@));
    assert(is_word("buffer-close-all"@));
    assert(is_word("buffer-close-all!"@));
    assert(is_word("buffer-close-others"@));
    assert(is_word("buffer-close-others!"@));
    assert(is_word("buffer-next"@));
    assert(is_word("buffer-previous"@));
    assert(is_word("cd"@));
    assert(is_word("change-current-directory"@));
    assert(is_word("char"@));
    assert(is_word("character-info"@));
    assert(is_word("clear-register"@));
    assert(is_word("clipboard-paste-after"@));
}

/// The names from `clipboard-paste-before` to `debug-start`, each with the number of its command.
pub open spec fn names_from_clipboard_paste_before() -> Seq<(Seq<char>, int)> {
    seq![
        ("clipboard-paste-before"@, 40int),
        ("clipboard-paste-replace"@, 41int),
        ("clipboard-yank"@, 35int),
        ("clipboard-yank-join"@, 36int),
        ("config-open"@, 80int),
        ("config-open-workspace"@, 81int),
        ("config-reload"@, 79int),
        ("cq"@, 31int),
        ("cq!"@, 32int),
        ("cquit"@, 31int),
        ("cquit!"@, 32int),
        ("dbg"@, 62int),
        ("dbg-tcp"@, 63int),
        ("debug-eval"@, 64int),
        ("debug-remote"@, 63int),
        ("debug-start"@, 62int),
    ]
}

proof fn lemma_names_from_clipboard_paste_before()
    ensures
        stepping(names_from_clipboard_paste_before()),
        words(names_from_clipboard_paste_before()),
        names_from_clipboard_paste_before().len() == 16,
        names_from_clipboard_paste_before()[0] == ("clipboard-paste-before"@, 40int),
        names_from_clipboard_paste_before()[15] == ("debug-start"@, 62int),
{
    reveal_strlit("clipboard-paste-before");
    reveal_strlit("clipboard-paste-replace");
    reveal_strlit("clipboard-yank");
    reveal_strlit("clipboard-yank-join");
    reveal_strlit("config-open");
    reveal_strlit("config-open-workspace");
    reveal_strlit("config-reload");
    reveal_strlit("cq");
    reveal_strlit("cq!");
    reveal_strlit("cquit");
    reveal_strlit("cquit!");
    reveal_strlit("dbg");
    reveal_strlit("dbg-tcp");
    reveal_strlit("debug-eval");
    reveal_strlit("debug-remote");
    reveal_strlit("debug-start");
    lemma_first_difference("clipboard-paste-before"@, "clipboard-paste-replace"@, 16);
    lemma_first_difference("clipboard-paste-replace"@, "clipboard-yank"@, 10);
    lemma_first_difference("clipboard-yank"@, "clipboard-yank-join"@, 14);
    lemma_first_difference("clipboard-yank-join"@, "config-open"@, 1);
    lemma_first_difference("config-open"@, "config-open-workspace"@, 11);
    lemma_first_difference("config-open-workspace"@, "config-reload"@, 7);
    lemma_first_difference("config-reload"@, "cq"@, 1);
    lemma_first_difference("cq"@, "cq!"@, 2);
    lemma_first_difference("cq!"@, "cquit"@, 2);
    lemma_first_difference("cquit"@, "cquit!"@, 5);
    lemma_first_difference("cquit!"@, "dbg"@, 0);
    lemma_first_difference("dbg"@, "dbg-tcp"@, 3);
    lemma_first_difference("dbg-tcp"@, "debug-eval"@, 1);
    lemma_first_difference("debug-eval"@, "debug-remote"@, 6);
    lemma_first_difference("debug-remote"@, "debug-start"@, 6);
    assert(is_word("clipboard-paste-before"@));
    assert(is_word("clipboard-paste-replace"@));
    assert(is_word("clipboard-yank"@));
    assert(is_word("clipboard-yank-join"@));
    assert(is_word("config-open"@));
    assert(is_word("config-open-workspace"@));
    assert(is_word("config-reload"@));
    assert(is_word("cq"@));
    assert(is_word("cq!"@));
    assert(is_word("cquit"@));
    assert(is_word("cquit!"@));
    assert(is_word("dbg"@));
    assert(is_word("dbg-tcp"@));
    assert(is_word("debug-eval"@));
    assert(is_word("debug-remote"@));
    assert(is_word("debug-start"@));
}

/// The names from `diffg` to `goto`, each with the number of its command.
pub open spec fn names_from_diffg() -> Seq<(Seq<char>, int)> {
    seq![
        ("diffg"@, 88int),
        ("diffget"@, 88int),
        ("e"@, 4int),
        ("ear"@, 21int),
        ("earlier"@, 21int),
        ("echo"@, 96int),
        ("edit"@, 4int),
        ("encoding"@, 51int),
        ("exit"@, 0int),
        ("exit!"@, 1int),
        ("fmt"@, 18int),
        ("format"@, 18int),
        ("g"@, 70int),
        ("get"@, 75int),
        ("get-option"@, 75int),
        ("goto"@, 70int),
    ]
}

proof fn lemma_names_from_diffg()
    ensures
        stepping(names_from_diffg()),
        words(names_from_diffg()),
        names_from_diffg().len() == 16,
        names_from_diffg()[0] == ("diffg"@, 88int),
        names_from_diffg()[15] == ("goto"@, 70int),
{
    reveal_strlit("diffg");
    reveal_strlit("diffget");
    reveal_strlit("e");
    reveal_strlit("ear");
    reveal_strlit("earlier");
    reveal_strlit("echo");
    reveal_strlit("edit");
    reveal_strlit("encoding");
    reveal_strlit("exit");
    reveal_strlit("exit!");
    reveal_strlit("fmt");
    reveal_strlit("format");
    reveal_strlit("g");
    reveal_strlit("get");
    reveal_strlit("get-option");
    reveal_strlit("goto");
    lemma_first_difference("diffg"@, "diffget"@, 5);
    lemma_first_difference("diffget"@, "e"@, 0);
    lemma_first_difference("e"@, "ear"@, 1);
    lemma_first_difference("ear"@, "earlier"@, 3);
    lemma_first_difference("earlier"@, "echo"@, 1);
    lemma_first_difference("echo"@, "edit"@, 1);
    lemma_first_difference("edit"@, "encoding"@, 1);
    lemma_first_difference("encoding"@, "exit"@, 1);
    lemma_first_difference("exit"@, "exit!"@, 4);
    lemma_first_difference("exit!"@, "fmt"@, 0);
    lemma_first_difference("fmt"@, "format"@, 1);
    lemma_first_difference("format"@, "g"@, 0);
    lemma_first_difference("g"@, "get"@, 1);
    lemma_first_difference("get"@, "get-option"@, 3);
    lemma_first_difference("get-option"@, "goto"@, 1);
    assert(is_word("diffg"@));
    assert(is_word("diffget"@));
    assert(is_word("e"@));
    assert(is_word("ear"@));
    assert(is_word("earlier"@));
    assert(is_word("echo"@));
    assert(is_word("edit"@));
    assert(is_word("encoding"@));
    assert(is_word("exit"@));
    assert(is_word("exit!"@));
    assert(is_word("fmt"@));
    assert(is_word("format"@));
    assert(is_word("g"@));
    assert(is_word("get"@));
    assert(is_word("get-option"@));
    assert(is_word("goto"@));
}

/// The names from `hnew` to `move!`, each with the number of its command.
pub open spec fn names_from_hnew() -> Seq<(Seq<char>, int)> {
    seq![
        ("hnew"@, 68int),
        ("hs"@, 67int),
        ("hsplit"@, 67int),
        ("hsplit-new"@, 68int),
        ("indent-style"@, 19int),
        ("insert-output"@, 83int),
        ("lang"@, 71int),
        ("lat"@, 22int),
        ("later"@, 22int),
        ("line-ending"@, 20int),
        ("log-open"@, 82int),
        ("lsp-restart"@, 57int),
        ("lsp-stop"@, 58int),
        ("lsp-workspace-command"@, 56int),
        ("move"@, 92int),
        ("move!"@, 93int),
    ]
}

proof fn lemma_names_from_hnew()
    ensures
        stepping(names_from_hnew()),
        words(names_from_hnew()),
        names_from_hnew().len() == 16,
        names_from_hnew()[0] == ("hnew"@, 68int),
        names_from_hnew()[15] == ("move!"@, 93int),
{
    reveal_strlit("hnew");
    reveal_strlit("hs");
    reveal_strlit("hsplit");
    reveal_strlit("hsplit-new");
    reveal_strlit("indent-style");
    reveal_strlit("insert-output");
    reveal_strlit("lang");
    reveal_strlit("lat");
    reveal_strlit("later");
    reveal_strlit("line-ending");
    reveal_strlit("log-open");
    reveal_strlit("lsp-restart");
    reveal_strlit("lsp-stop");
    reveal_strlit("lsp-workspace-command");
    reveal_strlit("move");
    reveal_strlit("move!");
    lemma_first_difference("hnew"@, "hs"@, 1);
    lemma_first_difference("hs"@, "hsplit"@, 2);
    lemma_first_difference("hsplit"@, "hsplit-new"@, 6);
    lemma_first_difference("hsplit-new"@, "indent-style"@, 0);
    lemma_first_difference("indent-style"@, "insert-output"@, 2);
    lemma_first_difference("insert-output"@, "lang"@, 0);
    lemma_first_difference("lang"@, "lat"@, 2);
    lemma_first_difference("lat"@, "later"@, 3);
    lemma_first_difference("later"@, "line-ending"@, 1);
    lemma_first_difference("line-ending"@, "log-open"@, 1);
    lemma_first_difference("log-open"@, "lsp-restart"@, 1);
    lemma_first_difference("lsp-restart"@, "lsp-stop"@, 4);
    lemma_first_difference("lsp-stop"@, "lsp-workspace-command"@, 4);
    lemma_first_difference("lsp-workspace-command"@, "move"@, 0);
    lemma_first_difference("move"@, "move!"@, 4);
    assert(is_word("hnew"@));
    assert(is_word("hs"@));
    assert(is_word("hsplit"@));
    assert(is_word("hsplit-new"@));
    assert(is_word("indent-style"@));
    assert(is_word("insert-output"@));
    assert(is_word("lang"@));
    assert(is_word("lat"@));
    assert(is_word("later"@));
    assert(is_word("line-ending"@));
    assert(is_word("log-open"@));
    assert(is_word("lsp-restart"@));
    assert(is_word("lsp-stop"@));
    assert(is_word("lsp-workspace-command"@));
    assert(is_word("move"@));
    assert(is_word("move!"@));
}

/// The names from `mv` to `primary-clipboard-yank-join`, each with the number of its command.
pub open spec fn names_from_mv() -> Seq<(Seq<char>, int)> {
    seq![
        ("mv"@, 92int),
        ("mv!"@, 93int),
        ("n"@, 17int),
        ("new"@, 17int),
        ("noop"@, 97int),
        ("o"@, 4int),
        ("open"@, 4int),
        ("pipe"@, 85int),
        ("pipe-to"@, 86int),
        ("pop-directory"@, 49int),
        ("popd"@, 49int),
        ("primary-clipboard-paste-after"@, 42int),
        ("primary-clipboard-paste-before"@, 43int),
        ("primary-clipboard-paste-replace"@, 44int),
        ("primary-clipboard-yank"@, 37int),
        ("primary-clipboard-yank-join"@, 38int),
    ]
}

proof fn lemma_names_from_mv()
    ensures
        stepping(names_from_mv()),
        words(names_from_mv()),
        names_from_mv().len() == 16,
        names_from_mv()[0] == ("mv"@, 92int),
        names_from_mv()[15] == ("primary-clipboard-yank-join"@, 38int),
{
    reveal_strlit("mv");
    reveal_strlit("mv!");
    reveal_strlit("n");
    reveal_strlit("new");
    reveal_strlit("noop");
    reveal_strlit("o");
    reveal_strlit("open");
    reveal_strlit("pipe");
    reveal_strlit("pipe-to");
    reveal_strlit("pop-directory");
    reveal_strlit("popd");
    reveal_strlit("primary-clipboard-paste-after");
    reveal_strlit("primary-clipboard-paste-before");
    reveal_strlit("primary-clipboard-paste-replace");
    reveal_strlit("primary-clipboard-yank");
    reveal_strlit("primary-clipboard-yank-join");
    lemma_first_difference("mv"@, "mv!"@, 2);
    lemma_first_difference("mv!"@, "n"@, 0);
    lemma_first_difference("n"@, "new"@, 1);
    lemma_first_difference("new"@, "noop"@, 1);
    lemma_first_difference("noop"@, "o"@, 0);
    lemma_first_difference("o"@, "open"@, 1);
    lemma_first_difference("open"@, "pipe"@, 0);
    lemma_first_difference("pipe"@, "pipe-to"@, 4);
    lemma_first_difference("pipe-to"@, "pop-directory"@, 1);
    lemma_first_difference("pop-directory"@, "popd"@, 3);
    lemma_first_difference("popd"@, "primary-clipboard-paste-after"@, 1);
    lemma_first_difference("primary-clipboard-paste-after"@, "primary-clipboard-paste-before"@, 24);
    lemma_first_difference("primary-clipboard-paste-before"@, "primary-clipboard-paste-replace"@, 24);
    lemma_first_difference("primary-clipboard-paste-replace"@, "primary-clipboard-yank"@, 18);
    lemma_first_difference("primary-clipboard-yank"@, "primary-clipboard-yank-join"@, 22);
    assert(is_word("mv"@));
    assert(is_word("mv!"@));
    assert(is_word("n"@));
    assert(is_word("new"@));
    assert(is_word("noop"@));
    assert(is_word("o"@));
    assert(is_word("open"@));
    assert(is_word("pipe"@));
    assert(is_word("pipe-to"@));
    assert(is_word("pop-directory"@));
    assert(is_word("popd"@));
    assert(is_word("primary-clipboard-paste-after"@));
    assert(is_word("primary-clipboard-paste-before"@));
    assert(is_word("primary-clipboard-paste-replace"@));
    assert(is_word("primary-clipboard-yank"@));
    assert(is_word("primary-clipboard-yank-join"@));
}

/// The names from `push-directory` to `reload`, each with the number of its command.
pub open spec fn names_from_push_directory() -> Seq<(Seq<char>, int)> {
    seq![
        ("push-directory"@, 48int),
        ("pushd"@, 48int),
        ("pwd"@, 50int),
        ("q"@, 2int),
        ("q!"@, 3int),
        ("qa"@, 29int),
        ("qa!"@, 30int),
        ("quit"@, 2int),
        ("quit!"@, 3int),
        ("quit-all"@, 29int),
        ("quit-all!"@, 30int),
        ("r"@, 95int),
        ("read"@, 95int),
        ("redraw"@, 91int),
        ("reflow"@, 77int),
        ("reload"@, 53int),
    ]
}

proof fn lemma_names_from_push_directory()
    ensures
        stepping(names_from_push_directory()),
        words(names_from_push_directory()),
        names_from_push_directory().len() == 16,
        names_from_push_directory()[0] == ("push-directory"@, 48int),
        names_from_push_directory()[15] == ("reload"@, 53int),
{
    reveal_strlit("push-directory");
    reveal_strlit("pushd");
    reveal_strlit("pwd");
    reveal_strlit("q");
    reveal_strlit("q!");
    reveal_strlit("qa");
    reveal_strlit("qa!");
    reveal_strlit("quit");
    reveal_strlit("quit!");
    reveal_strlit("quit-all");
    reveal_strlit("quit-all!");
    reveal_strlit("r");
    reveal_strlit("read");
    reveal_strlit("redraw");
    reveal_strlit("reflow");
    reveal_strlit("reload");
    lemma_first_difference("push-directory"@, "pushd"@, 4);
    lemma_first_difference("pushd"@, "pwd"@, 1);
    lemma_first_difference("pwd"@, "q"@, 0);
    lemma_first_difference("q"@, "q!"@, 1);
    lemma_first_difference("q!"@, "qa"@, 1);
    lemma_first_difference("qa"@, "qa!"@, 2);
    lemma_first_difference("qa!"@, "quit"@, 1);
    lemma_first_difference("quit"@, "quit!"@, 4);
    lemma_first_difference("quit!"@, "quit-all"@, 4);
    lemma_first_difference("quit-all"@, "quit-all!"@, 8);
    lemma_first_difference("quit-all!"@, "r"@, 0);
    lemma_first_difference("r"@, "read"@, 1);
    lemma_first_difference("read"@, "redraw"@, 2);
    lemma_first_difference("redraw"@, "reflow"@, 2);
    lemma_first_difference("reflow"@, "reload"@, 2);
    assert(is_word("push-directory"@));
    assert(is_word("pushd"@));
    assert(is_word("pwd"@));
    assert(is_word("q"@));
    assert(is_word("q!"@));
    assert(is_word("qa"@));
    assert(is_word("qa!"@));
    assert(is_word("quit"@));
    assert(is_word("quit!"@));
    assert(is_word("quit-all"@));
    assert(is_word("quit-all!"@));
    assert(is_word("r"@));
    assert(is_word("read"@));
    assert(is_word("redraw"@));
    assert(is_word("reflow"@));
    assert(is_word("reload"@));
}

/// The names from `reload-all` to `sp`, each with the number of its command.
pub open spec fn names_from_reload_all() -> Seq<(Seq<char>, int)> {
    seq![
        ("reload-all"@, 54int),
        ("reset-diff-change"@, 88int),
        ("rl"@, 53int),
        ("rla"@, 54int),
        ("run-shell-command"@, 87int),
        ("set"@, 73int),
        ("set-language"@, 71int),
        ("set-option"@, 73int),
        ("set-register"@, 90int),
        ("set-spelling-language"@, 72int),
        ("sh"@, 87int),
        ("show-clipboard-provider"@, 45int),
        ("show-directory"@, 50int),
        ("show-directory-stack"@, 47int),
        ("sort"@, 76int),
        ("sp"@, 67int),
    ]
}

proof fn lemma_names_from_reload_all()
    ensures
        stepping(names_from_reload_all()),
        words(names_from_reload_all()),
        names_from_reload_all().len() == 16,
        names_from_reload_all()[0] == ("reload-all"@, 54int),
        names_from_reload_all()[15] == ("sp"@, 67int),
{
    reveal_strlit("reload-all");
    reveal_strlit("reset-diff-change");
    reveal_strlit("rl");
    reveal_strlit("rla");
    reveal_strlit("run-shell-command");
    reveal_strlit("set");
    reveal_strlit("set-language");
    reveal_strlit("set-option");
    reveal_strlit("set-register");
    reveal_strlit("set-spelling-language");
    reveal_strlit("sh");
    reveal_strlit("show-clipboard-provider");
    reveal_strlit("show-directory");
    reveal_strlit("show-directory-stack");
    reveal_strlit("sort");
    reveal_strlit("sp");
    lemma_first_difference("reload-all"@, "reset-diff-change"@, 2);
    lemma_first_difference("reset-diff-change"@, "rl"@, 1);
    lemma_first_difference("rl"@, "rla"@, 2);
    lemma_first_difference("rla"@, "run-shell-command"@, 1);
    lemma_first_difference("run-shell-command"@, "set"@, 0);
    lemma_first_difference("set"@, "set-language"@, 3);
    lemma_first_difference("set-language"@, "set-option"@, 4);
    lemma_first_difference("set-option"@, "set-register"@, 4);
    lemma_first_difference("set-register"@, "set-spelling-language"@, 4);
    lemma_first_difference("set-spelling-language"@, "sh"@, 1);
    lemma_first_difference("sh"@, "show-clipboard-provider"@, 2);
    lemma_first_difference("show-clipboard-provider"@, "show-directory"@, 5);
    lemma_first_difference("show-directory"@, "show-directory-stack"@, 14);
    lemma_first_difference("show-directory-stack"@, "sort"@, 1);
    lemma_first_difference("sort"@, "sp"@, 1);
    assert(is_word("reload-all"@));
    assert(is_word("reset-diff-change"@));
    assert(is_word("rl"@));
    assert(is_word("rla"@));
    assert(is_word("run-shell-command"@));
    assert(is_word("set"@));
    assert(is_word("set-language"@));
    assert(is_word("set-option"@));
    assert(is_word("set-register"@));
    assert(is_word("set-spelling-language"@));
    assert(is_word("sh"@));
    assert(is_word("show-clipboard-provider"@));
    assert(is_word("show-directory"@));
    assert(is_word("show-directory-stack"@));
    assert(is_word("sort"@));
    assert(is_word("sp"@));
}

/// The names from `spelling` to `vsplit-new`, each with the number of its command.
pub open spec fn names_from_spelling() -> Seq<(Seq<char>, int)> {
    seq![
        ("spelling"@, 72int),
        ("theme"@, 33int),
        ("toggle"@, 74int),
        ("toggle-option"@, 74int),
        ("tree-sitter-highlight-name"@, 60int),
        ("tree-sitter-layers"@, 61int),
        ("tree-sitter-scopes"@, 59int),
        ("tree-sitter-subtree"@, 78int),
        ("ts-subtree"@, 78int),
        ("tutor"@, 69int),
        ("u"@, 55int),
        ("update"@, 55int),
        ("vnew"@, 66int),
        ("vs"@, 65int),
        ("vsplit"@, 65int),
        ("vsplit-new"@, 66int),
    ]
}

proof fn lemma_names_from_spelling()
    ensures
        stepping(names_from_spelling()),
        words(names_from_spelling()),
        names_from_spelling().len() == 16,
        names_from_spelling()[0] == ("spelling"@, 72int),
        names_from_spelling()[15] == ("vsplit-new"@, 66int),
{
    reveal_strlit("spelling");
    reveal_strlit("theme");
    reveal_strlit("toggle");
    reveal_strlit("toggle-option");
    reveal_strlit("tree-sitter-highlight-name");
    reveal_strlit("tree-sitter-layers");
    reveal_strlit("tree-sitter-scopes");
    reveal_strlit("tree-sitter-subtree");
    reveal_strlit("ts-subtree");
    reveal_strlit("tutor");
    reveal_strlit("u");
    reveal_strlit("update");
    reveal_strlit("vnew");
    reveal_strlit("vs");
    reveal_strlit("vsplit");
    reveal_strlit("vsplit-new");
    lemma_first_difference("spelling"@, "theme"@, 0);
    lemma_first_difference("theme"@, "toggle"@, 1);
    lemma_first_difference("toggle"@, "toggle-option"@, 6);
    lemma_first_difference("toggle-option"@, "tree-sitter-highlight-name"@, 1);
    lemma_first_difference("tree-sitter-highlight-name"@, "tree-sitter-layers"@, 12);
    lemma_first_difference("tree-sitter-layers"@, "tree-sitter-scopes"@, 12);
    lemma_first_difference("tree-sitter-scopes"@, "tree-sitter-subtree"@, 13);
    lemma_first_difference("tree-sitter-subtree"@, "ts-subtree"@, 1);
    lemma_first_difference("ts-subtree"@, "tutor"@, 1);
    lemma_first_difference("tutor"@, "u"@, 0);
    lemma_first_difference("u"@, "update"@, 1);
    lemma_first_difference("update"@, "vnew"@, 0);
    lemma_first_difference("vnew"@, "vs"@, 1);
    lemma_first_difference("vs"@, "vsplit"@, 2);
    lemma_first_difference("vsplit"@, "vsplit-new"@, 6);
    assert(is_word("spelling"@));
    assert(is_word("theme"@));
    assert(is_word("toggle"@));
    assert(is_word("toggle-option"@));
    assert(is_word("tree-sitter-highlight-name"@));
    assert(is_word("tree-sitter-layers"@));
    assert(is_word("tree-sitter-scopes"@));
    assert(is_word("tree-sitter-subtree"@));
    assert(is_word("ts-subtree"@));
    assert(is_word("tutor"@));
    assert(is_word("u"@));
    assert(is_word("update"@));
    assert(is_word("vnew"@));
    assert(is_word("vs"@));
    assert(is_word("vsplit"@));
    assert(is_word("vsplit-new"@));
}

/// The names from `w` to `write-all`, each with the number of its command.
pub open spec fn names_from_w() -> Seq<(Seq<char>, int)> {
    seq![
        ("w"@, 13int),
        ("w!"@, 14int),
        ("wa"@, 25int),
        ("wa!"@, 26int),
        ("wbc"@, 15int),
        ("wbc!"@, 16int),
        ("workspace-exclude"@, 100int),
        ("workspace-trust"@, 98int),
        ("workspace-untrust"@, 99int),
        ("wq"@, 23int),
        ("wq!"@, 24int),
        ("wqa"@, 27int),
        ("wqa!"@, 28int),
        ("write"@, 13int),
        ("write!"@, 14int),
        ("write-all"@, 25int),
    ]
}

proof fn lemma_names_from_w()
    ensures
        stepping(names_from_w()),
        words(names_from_w()),
        names_from_w().len() == 16,
        names_from_w()[0] == ("w"@, 13int),
        names_from_w()[15] == ("write-all"@, 25int),
{
    reveal_strlit("w");
    reveal_strlit("w!");
    reveal_strlit("wa");
    reveal_strlit("wa!");
    reveal_strlit("wbc");
    reveal_strlit("wbc!");
    reveal_strlit("workspace-exclude");
    reveal_strlit("workspace-trust");
    reveal_strlit("workspace-untrust");
    reveal_strlit("wq");
    reveal_strlit("wq!");
    reveal_strlit("wqa");
    reveal_strlit("wqa!");
    reveal_strlit("write");
    reveal_strlit("write!");
    reveal_strlit("write-all");
    lemma_first_difference("w"@, "w!"@, 1);
    lemma_first_difference("w!"@, "wa"@, 1);
    lemma_first_difference("wa"@, "wa!"@, 2);
    lemma_first_difference("wa!"@, "wbc"@, 1);
    lemma_first_difference("wbc"@, "wbc!"@, 3);
    lemma_first_difference("wbc!"@, "workspace-exclude"@, 1);
    lemma_first_difference("workspace-exclude"@, "workspace-trust"@, 10);
    lemma_first_difference("workspace-trust"@, "workspace-untrust"@, 10);
    lemma_first_difference("workspace-untrust"@, "wq"@, 1);
    lemma_first_difference("wq"@, "wq!"@, 2);
    lemma_first_difference("wq!"@, "wqa"@, 2);
    lemma_first_difference("wqa"@, "wqa!"@, 3);
    lemma_first_difference("wqa!"@, "write"@, 1);
    lemma_first_difference("write"@, "write!"@, 5);
    lemma_first_difference("write!"@, "write-all"@, 5);
    assert(is_word("w"@));
    assert(is_word("w!"@));
    assert(is_word("wa"@));
    assert(is_word("wa!"@));
    assert(is_word("wbc"@));
    assert(is_word("wbc!"@));
    assert(is_word("workspace-exclude"@));
    assert(is_word("workspace-trust"@));
    assert(is_word("workspace-untrust"@));
    assert(is_word("wq"@));
    assert(is_word("wq!"@));
    assert(is_word("wqa"@));
    assert(is_word("wqa!"@));
    assert(is_word("write"@));
    assert(is_word("write!"@));
    assert(is_word("write-all"@));
}

/// The names from `write-all!` to `|`, each with the number of its command.
pub open spec fn names_from_write_all_forced() -> Seq<(Seq<char>, int)> {
    seq![
        ("write-all!"@, 26int),
        ("write-buffer-close"@, 15int),
        ("write-buffer-close!"@, 16int),
        ("write-quit"@, 23int),
        ("write-quit!"@, 24int),
        ("write-quit-all"@, 27int),
        ("write-quit-all!"@, 28int),
        ("x"@, 0int),
        ("x!"@, 1int),
        ("xa"@, 27int),
        ("xa!"@, 28int),
        ("xit"@, 0int),
        ("xit!"@, 1int),
        ("yank-diagnostic"@, 94int),
        ("yank-join"@, 34int),
        ("|"@, 85int),
    ]
}

proof fn lemma_names_from_write_all_forced()
    ensures
        stepping(names_from_write_all_forced()),
        words(names_from_write_all_forced()),
        names_from_write_all_forced().len() == 16,
        names_from_write_all_forced()[0] == ("write-all!"@, 26int),
        names_from_write_all_forced()[15] == ("|"@, 85int),
{
    reveal_strlit("write-all!");
    reveal_strlit("write-buffer-close");
    reveal_strlit("write-buffer-close!");
    reveal_strlit("write-quit");
    reveal_strlit("write-quit!");
    reveal_strlit("write-quit-all");
    reveal_strlit("write-quit-all!");
    reveal_strlit("x");
    reveal_strlit("x!");
    reveal_strlit("xa");
    reveal_strlit("xa!");
    reveal_strlit("xit");
    reveal_strlit("xit!");
    reveal_strlit("yank-diagnostic");
    reveal_strlit("yank-join");
    reveal_strlit("|");
    lemma_first_difference("write-all!"@, "write-buffer-close"@, 6);
    lemma_first_difference("write-buffer-close"@, "write-buffer-close!"@, 18);
    lemma_first_difference("write-buffer-close!"@, "write-quit"@, 6);
    lemma_first_difference("write-quit"@, "write-quit!"@, 10);
    lemma_first_difference("write-quit!"@, "write-quit-all"@, 10);
    lemma_first_difference("write-quit-all"@, "write-quit-all!"@, 14);
    lemma_first_difference("write-quit-all!"@, "x"@, 0);
    lemma_first_difference("x"@, "x!"@, 1);
    lemma_first_difference("x!"@, "xa"@, 1);
    lemma_first_difference("xa"@, "xa!"@, 2);
    lemma_first_difference("xa!"@, "xit"@, 1);
    lemma_first_difference("xit"@, "xit!"@, 3);
    lemma_first_difference("xit!"@, "yank-diagnostic"@, 0);
    lemma_first_difference("yank-diagnostic"@, "yank-join"@, 5);
    lemma_first_difference("yank-join"@, "|"@, 0);
    assert(is_word("write-all!"@));
    assert(is_word("write-buffer-close"@));
    assert(is_word("write-buffer-close!"@));
    assert(is_word("write-quit"@));
    assert(is_word("write-quit!"@));
    assert(is_word("write-quit-all"@));
    assert(is_word("write-quit-all!"@));
    assert(is_word("x"@));
    assert(is_word("x!"@));
    assert(is_word("xa"@));
    assert(is_word("xa!"@));
    assert(is_word("xit"@));
    assert(is_word("xit!"@));
    assert(is_word("yank-diagnostic"@));
    assert(is_word("yank-join"@));
    assert(is_word("|"@));
}

/// All names and aliases in order, each with the number of its command.
pub open spec fn all_names() -> Seq<(Seq<char>, int)> {
    names_from_bang()
        + names_from_bp()
        + names_from_clipboard_paste_before()
        + names_from_diffg()
        + names_from_hnew()
        + names_from_mv()
        + names_from_push_directory()
        + names_from_reload_all()
        + names_from_spelling()
        + names_from_w()
        + names_from_write_all_forced()
}

proof fn lemma_joined(a: Seq<(Seq<char>, int)>, b: Seq<(Seq<char>, int)>)
    requires
        stepping(a),
        stepping(b),
        words(a),
        words(b),
        a.len() > 0,
        b.len() > 0,
        comes_before(a.last().0, b[0].0),
    ensures
        stepping(a + b),
        words(a + b),
        (a + b).last() == b.last(),
{
    let all = a + b;
    assert forall|i: int| 0 <= i < all.len() implies is_word((#[trigger] all[i]).0) by {
        if i < a.len() {
            assert(is_word(a[i].0));
        } else {
            assert(is_word(b[i - a.len()].0));
        }
    }
    assert forall|i: int| #![trigger all[i]] 0 <= i < all.len() - 1 implies comes_before(
        all[i].0,
        all[i + 1].0,
    ) by {
        if i + 1 < a.len() {
            assert(comes_before(a[i].0, a[i + 1].0));
        } else if i >= a.len() {
            let k = i - a.len();
            assert(comes_before(b[k].0, b[k + 1].0));
        }
    }
}

proof fn lemma_all_names()
    ensures
        rising(all_names()),
        words(all_names()),
{
    lemma_names_from_bang();
    lemma_names_from_bp();
    lemma_names_from_clipboard_paste_before();
    lemma_names_from_diffg();
    lemma_names_from_hnew();
    lemma_names_from_mv();
    lemma_names_from_push_directory();
    lemma_names_from_reload_all();
    lemma_names_from_spelling();
    lemma_names_from_w();
    lemma_names_from_write_all_forced();
    let all = names_from_bang();
    reveal_strlit("bnext");
    reveal_strlit("bp");
    lemma_first_difference("bnext"@, "bp"@, 1);
    lemma_joined(all, names_from_bp());
    let all = all + names_from_bp();
    reveal_strlit("clipboard-paste-after");
    reveal_strlit("clipboard-paste-before");
    lemma_first_difference("clipboard-paste-after"@, "clipboard-paste-before"@, 16);
    lemma_joined(all, names_from_clipboard_paste_before());
    let all = all + names_from_clipboard_paste_before();
    reveal_strlit("debug-start");
    reveal_strlit("diffg");
    lemma_first_difference("debug-start"@, "diffg"@, 1);
    lemma_joined(all, names_from_diffg());
    let all = all + names_from_diffg();
    reveal_strlit("goto");
    reveal_strlit("hnew");
    lemma_first_difference("goto"@, "hnew"@, 0);
    lemma_joined(all, names_from_hnew());
    let all = all + names_from_hnew();
    reveal_strlit("move!");
    reveal_strlit("mv");
    lemma_first_difference("move!"@, "mv"@, 1);
    lemma_joined(all, names_from_mv());
    let all = all + names_from_mv();
    reveal_strlit("primary-clipboard-yank-join");
    reveal_strlit("push-directory");
    lemma_first_difference("primary-clipboard-yank-join"@, "push-directory"@, 1);
    lemma_joined(all, names_from_push_directory());
    let all = all + names_from_push_directory();
    reveal_strlit("reload");
    reveal_strlit("reload-all");
    lemma_first_difference("reload"@, "reload-all"@, 6);
    lemma_joined(all, names_from_reload_all());
    let all = all + names_from_reload_all();
    reveal_strlit("sp");
    reveal_strlit("spelling");
    lemma_first_difference("sp"@, "spelling"@, 2);
    lemma_joined(all, names_from_spelling());
    let all = all + names_from_spelling();
    reveal_strlit("vsplit-new");
    reveal_strlit("w");
    lemma_first_difference("vsplit-new"@, "w"@, 0);
    lemma_joined(all, names_from_w());
    let all = all + names_from_w();
    reveal_strlit("write-all");
    reveal_strlit("write-all!");
    lemma_first_difference("write-all"@, "write-all!"@, 9);
    lemma_joined(all, names_from_write_all_forced());
    let all = all + names_from_write_all_forced();
    assert(all == all_names());
    assert forall|i: int, j: int| 0 <= i < j < all_names().len() implies comes_before(
        (#[trigger] all_names()[i]).0,
        (#[trigger] all_names()[j]).0,
    ) by {
        lemma_stepping(all_names(), i, j);
    }
}

proof fn lemma_among_all(
    part: Seq<(Seq<char>, int)>,
    before: Seq<(Seq<char>, int)>,
    behind: Seq<(Seq<char>, int)>,
    k: int,
)
    requires
        0 <= k < part.len(),
    ensures
        (before + part + behind).contains(part[k]),
{
    assert((before + part + behind)[before.len() + k] == part[k]);
}

proof fn lemma_names_of_exit_on(i: int, name: Seq<char>)
    requires
        0 <= i < from_exit_on().len(),
        from_exit_on()[i].answers(name),
    ensures
        all_names().contains((name, i)),
{
    let c = from_exit_on()[i];
    if i == 0 {
        assert(c.aliases =~= seq!["x"@, "xit"@]);
        assert(names_from_diffg()[8] == ("exit"@, 0int));
        lemma_in_names_from_diffg(8);
        assert(names_from_write_all_forced()[7] == ("x"@, 0int));
        lemma_in_names_from_write_all_forced(7);
        assert(names_from_write_all_forced()[11] == ("xit"@, 0int));
        lemma_in_names_from_write_all_forced(11);
    } else if i == 1 {
        assert(c.aliases =~= seq!["x!"@, "xit!"@]);
        assert(names_from_diffg()[9] == ("exit!"@, 1int));
        lemma_in_names_from_diffg(9);
        assert(names_from_write_all_forced()[8] == ("x!"@, 1int));
        lemma_in_names_from_write_all_forced(8);
        assert(names_from_write_all_forced()[12] == ("xit!"@, 1int));
        lemma_in_names_from_write_all_forced(12);
    } else if i == 2 {
        assert(c.aliases =~= seq!["q"@]);
        assert(names_from_push_directory()[7] == ("quit"@, 2int));
        lemma_in_names_from_push_directory(7);
        assert(names_from_push_directory()[3] == ("q"@, 2int));
        lemma_in_names_from_push_directory(3);
    } else if i == 3 {
        assert(c.aliases =~= seq!["q!"@]);
        assert(names_from_push_directory()[8] == ("quit!"@, 3int));
        lemma_in_names_from_push_directory(8);
        assert(names_from_push_directory()[4] == ("q!"@, 3int));
        lemma_in_names_from_push_directory(4);
    } else if i == 4 {
        assert(c.aliases =~= seq!["o"@, "edit"@, "e"@]);
        assert(names_from_mv()[6] == ("open"@, 4int));
        lemma_in_names_from_mv(6);
        assert(names_from_mv()[5] == ("o"@, 4int));
        lemma_in_names_from_mv(5);
        assert(names_from_diffg()[6] == ("edit"@, 4int));
        lemma_in_names_from_diffg(6);
        assert(names_from_diffg()[2] == ("e"@, 4int));
        lemma_in_names_from_diffg(2);
    } else if i == 5 {
        assert(c.aliases =~= seq!["bc"@, "bclose"@]);
        assert(names_from_bp()[2] == ("buffer-close"@, 5int));
        lemma_in_names_from_bp(2);
        assert(names_from_bang()[2] == ("bc"@, 5int));
        lemma_in_names_from_bang(2);
        assert(names_from_bang()[6] == ("bclose"@, 5int));
        lemma_in_names_from_bang(6);
    } else if i == 6 {
        assert(c.aliases =~= seq!["bc!"@, "bclose!"@]);
        assert(names_from_bp()[3] == ("buffer-close!"@, 6int));
        lemma_in_names_from_bp(3);
        assert(names_from_bang()[3] == ("bc!"@, 6int));
        lemma_in_names_from_bang(3);
        assert(names_from_bang()[7] == ("bclose!"@, 6int));
        lemma_in_names_from_bang(7);
    } else if i == 7 {
        assert(c.aliases =~= seq!["bco"@, "bcloseother"@]);
        assert(names_from_bp()[6] == ("buffer-close-others"@, 7int));
        lemma_in_names_from_bp(6);
        assert(names_from_bang()[12] == ("bco"@, 7int));
        lemma_in_names_from_bang(12);
        assert(names_from_bang()[10] == ("bcloseother"@, 7int));
        lemma_in_names_from_bang(10);
    } else if i == 8 {
        assert(c.aliases =~= seq!["bco!"@, "bcloseother!"@]);
        assert(names_from_bp()[7] == ("buffer-close-others!"@, 8int));
        lemma_in_names_from_bp(7);
        assert(names_from_bang()[13] == ("bco!"@, 8int));
        lemma_in_names_from_bang(13);
        assert(names_from_bang()[11] == ("bcloseother!"@, 8int));
        lemma_in_names_from_bang(11);
    } else if i == 9 {
        assert(c.aliases =~= seq!["bca"@, "bcloseall"@]);
        assert(names_from_bp()[4] == ("buffer-close-all"@, 9int));
        lemma_in_names_from_bp(4);
        assert(names_from_bang()[4] == ("bca"@, 9int));
        lemma_in_names_from_bang(4);
        assert(names_from_bang()[8] == ("bcloseall"@, 9int));
        lemma_in_names_from_bang(8);
    }
}

proof fn lemma_names_of_buffer_close_all_forced_on(i: int, name: Seq<char>)
    requires
        0 <= i < from_buffer_close_all_forced_on().len(),
        from_buffer_close_all_forced_on()[i].answers(name),
    ensures
        all_names().contains((name, 10 + i)),
{
    let c = from_buffer_close_all_forced_on()[i];
    if i == 0 {
        assert(c.aliases =~= seq!["bca!"@, "bcloseall!"@]);
        assert(names_from_bp()[5] == ("buffer-close-all!"@, 10int));
        lemma_in_names_from_bp(5);
        assert(names_from_bang()[5] == ("bca!"@, 10int));
        lemma_in_names_from_bang(5);
        assert(names_from_bang()[9] == ("bcloseall!"@, 10int));
        lemma_in_names_from_bang(9);
    } else if i == 1 {
        assert(c.aliases =~= seq!["bn"@, "bnext"@]);
        assert(names_from_bp()[8] == ("buffer-next"@, 11int));
        lemma_in_names_from_bp(8);
        assert(names_from_bang()[14] == ("bn"@, 11int));
        lemma_in_names_from_bang(14);
        assert(names_from_bang()[15] == ("bnext"@, 11int));
        lemma_in_names_from_bang(15);
    } else if i == 2 {
        assert(c.aliases =~= seq!["bp"@, "bprev"@]);
        assert(names_from_bp()[9] == ("buffer-previous"@, 12int));
        lemma_in_names_from_bp(9);
        assert(names_from_bp()[0] == ("bp"@, 12int));
        lemma_in_names_from_bp(0);
        assert(names_from_bp()[1] == ("bprev"@, 12int));
        lemma_in_names_from_bp(1);
    } else if i == 3 {
        assert(c.aliases =~= seq!["w"@]);
        assert(names_from_w()[13] == ("write"@, 13int));
        lemma_in_names_from_w(13);
        assert(names_from_w()[0] == ("w"@, 13int));
        lemma_in_names_from_w(0);
    } else if i == 4 {
        assert(c.aliases =~= seq!["w!"@]);
        assert(names_from_w()[14] == ("write!"@, 14int));
        lemma_in_names_from_w(14);
        assert(names_from_w()[1] == ("w!"@, 14int));
        lemma_in_names_from_w(1);
    } else if i == 5 {
        assert(c.aliases =~= seq!["wbc"@]);
        assert(names_from_write_all_forced()[1] == ("write-buffer-close"@, 15int));
        lemma_in_names_from_write_all_forced(1);
        assert(names_from_w()[4] == ("wbc"@, 15int));
        lemma_in_names_from_w(4);
    } else if i == 6 {
        assert(c.aliases =~= seq!["wbc!"@]);
        assert(names_from_write_all_forced()[2] == ("write-buffer-close!"@, 16int));
        lemma_in_names_from_write_all_forced(2);
        assert(names_from_w()[5] == ("wbc!"@, 16int));
        lemma_in_names_from_w(5);
    } else if i == 7 {
        assert(c.aliases =~= seq!["n"@]);
        assert(names_from_mv()[3] == ("new"@, 17int));
        lemma_in_names_from_mv(3);
        assert(names_from_mv()[2] == ("n"@, 17int));
        lemma_in_names_from_mv(2);
    } else if i == 8 {
        assert(c.aliases =~= seq!["fmt"@]);
        assert(names_from_diffg()[11] == ("format"@, 18int));
        lemma_in_names_from_diffg(11);
        assert(names_from_diffg()[10] == ("fmt"@, 18int));
        lemma_in_names_from_diffg(10);
    } else if i == 9 {
        assert(c.aliases =~= Seq::<Seq<char>>::empty());
        assert(names_from_hnew()[4] == ("indent-style"@, 19int));
        lemma_in_names_from_hnew(4);
    }
}

proof fn lemma_names_of_line_ending_on(i: int, name: Seq<char>)
    requires
        0 <= i < from_line_ending_on().len(),
        from_line_ending_on()[i].answers(name),
    ensures
        all_names().contains((name, 20 + i)),
{
    let c = from_line_ending_on()[i];
    if i == 0 {
        assert(c.aliases =~= Seq::<Seq<char>>::empty());
        assert(names_from_hnew()[9] == ("line-ending"@, 20int));
        lemma_in_names_from_hnew(9);
    } else if i == 1 {
        assert(c.aliases =~= seq!["ear"@]);
        assert(names_from_diffg()[4] == ("earlier"@, 21int));
        lemma_in_names_from_diffg(4);
        assert(names_from_diffg()[3] == ("ear"@, 21int));
        lemma_in_names_from_diffg(3);
    } else if i == 2 {
        assert(c.aliases =~= seq!["lat"@]);
        assert(names_from_hnew()[8] == ("later"@, 22int));
        lemma_in_names_from_hnew(8);
        assert(names_from_hnew()[7] == ("lat"@, 22int));
        lemma_in_names_from_hnew(7);
    } else if i == 3 {
        assert(c.aliases =~= seq!["wq"@]);
        assert(names_from_write_all_forced()[3] == ("write-quit"@, 23int));
        lemma_in_names_from_write_all_forced(3);
        assert(names_from_w()[9] == ("wq"@, 23int));
        lemma_in_names_from_w(9);
    } else if i == 4 {
        assert(c.aliases =~= seq!["wq!"@]);
        assert(names_from_write_all_forced()[4] == ("write-quit!"@, 24int));
        lemma_in_names_from_write_all_forced(4);
        assert(names_from_w()[10] == ("wq!"@, 24int));
        lemma_in_names_from_w(10);
    } else if i == 5 {
        assert(c.aliases =~= seq!["wa"@]);
        assert(names_from_w()[15] == ("write-all"@, 25int));
        lemma_in_names_from_w(15);
        assert(names_from_w()[2] == ("wa"@, 25int));
        lemma_in_names_from_w(2);
    } else if i == 6 {
        assert(c.aliases =~= seq!["wa!"@]);
        assert(names_from_write_all_forced()[0] == ("write-all!"@, 26int));
        lemma_in_names_from_write_all_forced(0);
        assert(names_from_w()[3] == ("wa!"@, 26int));
        lemma_in_names_from_w(3);
    } else if i == 7 {
        assert(c.aliases =~= seq!["wqa"@, "xa"@]);
        assert(names_from_write_all_forced()[5] == ("write-quit-all"@, 27int));
        lemma_in_names_from_write_all_forced(5);
        assert(names_from_w()[11] == ("wqa"@, 27int));
        lemma_in_names_from_w(11);
        assert(names_from_write_all_forced()[9] == ("xa"@, 27int));
        lemma_in_names_from_write_all_forced(9);
    } else if i == 8 {
        assert(c.aliases =~= seq!["wqa!"@, "xa!"@]);
        assert(names_from_write_all_forced()[6] == ("write-quit-all!"@, 28int));
        lemma_in_names_from_write_all_forced(6);
        assert(names_from_w()[12] == ("wqa!"@, 28int));
        lemma_in_names_from_w(12);
        assert(names_from_write_all_forced()[10] == ("xa!"@, 28int));
        lemma_in_names_from_write_all_forced(10);
    } else if i == 9 {
        assert(c.aliases =~= seq!["qa"@]);
        assert(names_from_push_directory()[9] == ("quit-all"@, 29int));
        lemma_in_names_from_push_directory(9);
        assert(names_from_push_directory()[5] == ("qa"@, 29int));
        lemma_in_names_from_push_directory(5);
    }
}

proof fn lemma_names_of_quit_all_forced_on(i: int, name: Seq<char>)
    requires
        0 <= i < from_quit_all_forced_on().len(),
        from_quit_all_forced_on()[i].answers(name),
    ensures
        all_names().contains((name, 30 + i)),
{
    let c = from_quit_all_forced_on()[i];
    if i == 0 {
        assert(c.aliases =~= seq!["qa!"@]);
        assert(names_from_push_directory()[10] == ("quit-all!"@, 30int));
        lemma_in_names_from_push_directory(10);
        assert(names_from_push_directory()[6] == ("qa!"@, 30int));
        lemma_in_names_from_push_directory(6);
    } else if i == 1 {
        assert(c.aliases =~= seq!["cq"@]);
        assert(names_from_clipboard_paste_before()[9] == ("cquit"@, 31int));
        lemma_in_names_from_clipboard_paste_before(9);
        assert(names_from_clipboard_paste_before()[7] == ("cq"@, 31int));
        lemma_in_names_from_clipboard_paste_before(7);
    } else if i == 2 {
        assert(c.aliases =~= seq!["cq!"@]);
        assert(names_from_clipboard_paste_before()[10] == ("cquit!"@, 32int));
        lemma_in_names_from_clipboard_paste_before(10);
        assert(names_from_clipboard_paste_before()[8] == ("cq!"@, 32int));
        lemma_in_names_from_clipboard_paste_before(8);
    } else if i == 3 {
        assert(c.aliases =~= Seq::<Seq<char>>::empty());
        assert(names_from_spelling()[1] == ("theme"@, 33int));
        lemma_in_names_from_spelling(1);
    } else if i == 4 {
        assert(c.aliases =~= Seq::<Seq<char>>::empty());
        assert(names_from_write_all_forced()[14] == ("yank-join"@, 34int));
        lemma_in_names_from_write_all_forced(14);
    } else if i == 5 {
        assert(c.aliases =~= Seq::<Seq<char>>::empty());
        assert(names_from_clipboard_paste_before()[2] == ("clipboard-yank"@, 35int));
        lemma_in_names_from_clipboard_paste_before(2);
    } else if i == 6 {
        assert(c.aliases =~= Seq::<Seq<char>>::empty());
        assert(names_from_clipboard_paste_before()[3] == ("clipboard-yank-join"@, 36int));
        lemma_in_names_from_clipboard_paste_before(3);
    } else if i == 7 {
        assert(c.aliases =~= Seq::<Seq<char>>::empty());
        assert(names_from_mv()[14] == ("primary-clipboard-yank"@, 37int));
        lemma_in_names_from_mv(14);
    } else if i == 8 {
        assert(c.aliases =~= Seq::<Seq<char>>::empty());
        assert(names_from_mv()[15] == ("primary-clipboard-yank-join"@, 38int));
        lemma_in_names_from_mv(15);
    } else if i == 9 {
        assert(c.aliases =~= Seq::<Seq<char>>::empty());
        assert(names_from_bp()[15] == ("clipboard-paste-after"@, 39int));
        lemma_in_names_from_bp(15);
    }
}

proof fn lemma_names_of_clipboard_paste_before_on(i: int, name: Seq<char>)
    requires
        0 <= i < from_clipboard_paste_before_on().len(),
        from_clipboard_paste_before_on()[i].answers(name),
    ensures
        all_names().contains((name, 40 + i)),
{
    let c = from_clipboard_paste_before_on()[i];
    if i == 0 {
        assert(c.aliases =~= Seq::<Seq<char>>::empty());
        assert(names_from_clipboard_paste_before()[0] == ("clipboard-paste-before"@, 40int));
        lemma_in_names_from_clipboard_paste_before(0);
    } else if i == 1 {
        assert(c.aliases =~= Seq::<Seq<char>>::empty());
        assert(names_from_clipboard_paste_before()[1] == ("clipboard-paste-replace"@, 41int));
        lemma_in_names_from_clipboard_paste_before(1);
    } else if i == 2 {
        assert(c.aliases =~= Seq::<Seq<char>>::empty());
        assert(names_from_mv()[11] == ("primary-clipboard-paste-after"@, 42int));
        lemma_in_names_from_mv(11);
    } else if i == 3 {
        assert(c.aliases =~= Seq::<Seq<char>>::empty());
        assert(names_from_mv()[12] == ("primary-clipboard-paste-before"@, 43int));
        lemma_in_names_from_mv(12);
    } else if i == 4 {
        assert(c.aliases =~= Seq::<Seq<char>>::empty());
        assert(names_from_mv()[13] == ("primary-clipboard-paste-replace"@, 44int));
        lemma_in_names_from_mv(13);
    } else if i == 5 {
        assert(c.aliases =~= Seq::<Seq<char>>::empty());
        assert(names_from_reload_all()[11] == ("show-clipboard-provider"@, 45int));
        lemma_in_names_from_reload_all(11);
    } else if i == 6 {
        assert(c.aliases =~= seq!["cd"@]);
        assert(names_from_bp()[11] == ("change-current-directory"@, 46int));
        lemma_in_names_from_bp(11);
        assert(names_from_bp()[10] == ("cd"@, 46int));
        lemma_in_names_from_bp(10);
    } else if i == 7 {
        assert(c.aliases =~= Seq::<Seq<char>>::empty());
        assert(names_from_reload_all()[13] == ("show-directory-stack"@, 47int));
        lemma_in_names_from_reload_all(13);
    } else if i == 8 {
        assert(c.aliases =~= seq!["pushd"@]);
        assert(names_from_push_directory()[0] == ("push-directory"@, 48int));
        lemma_in_names_from_push_directory(0);
        assert(names_from_push_directory()[1] == ("pushd"@, 48int));
        lemma_in_names_from_push_directory(1);
    } else if i == 9 {
        assert(c.aliases =~= seq!["popd"@]);
        assert(names_from_mv()[9] == ("pop-directory"@, 49int));
        lemma_in_names_from_mv(9);
        assert(names_from_mv()[10] == ("popd"@, 49int));
        lemma_in_names_from_mv(10);
    }
}

proof fn lemma_names_of_show_directory_on(i: int, name: Seq<char>)
    requires
        0 <= i < from_show_directory_on().len(),
        from_show_directory_on()[i].answers(name),
    ensures
        all_names().contains((name, 50 + i)),
{
    let c = from_show_directory_on()[i];
    if i == 0 {
        assert(c.aliases =~= seq!["pwd"@]);
        assert(names_from_reload_all()[12] == ("show-directory"@, 50int));
        lemma_in_names_from_reload_all(12);
        assert(names_from_push_directory()[2] == ("pwd"@, 50int));
        lemma_in_names_from_push_directory(2);
    } else if i == 1 {
        assert(c.aliases =~= Seq::<Seq<char>>::empty());
        assert(names_from_diffg()[7] == ("encoding"@, 51int));
        lemma_in_names_from_diffg(7);
    } else if i == 2 {
        assert(c.aliases =~= seq!["char"@]);
        assert(names_from_bp()[13] == ("character-info"@, 52int));
        lemma_in_names_from_bp(13);
        assert(names_from_bp()[12] == ("char"@, 52int));
        lemma_in_names_from_bp(12);
    } else if i == 3 {
        assert(c.aliases =~= seq!["rl"@]);
        assert(names_from_push_directory()[15] == ("reload"@, 53int));
        lemma_in_names_from_push_directory(15);
        assert(names_from_reload_all()[2] == ("rl"@, 53int));
        lemma_in_names_from_reload_all(2);
    } else if i == 4 {
        assert(c.aliases =~= seq!["rla"@]);
        assert(names_from_reload_all()[0] == ("reload-all"@, 54int));
        lemma_in_names_from_reload_all(0);
        assert(names_from_reload_all()[3] == ("rla"@, 54int));
        lemma_in_names_from_reload_all(3);
    } else if i == 5 {
        assert(c.aliases =~= seq!["u"@]);
        assert(names_from_spelling()[11] == ("update"@, 55int));
        lemma_in_names_from_spelling(11);
        assert(names_from_spelling()[10] == ("u"@, 55int));
        lemma_in_names_from_spelling(10);
    } else if i == 6 {
        assert(c.aliases =~= Seq::<Seq<char>>::empty());
        assert(names_from_hnew()[13] == ("lsp-workspace-command"@, 56int));
        lemma_in_names_from_hnew(13);
    } else if i == 7 {
        assert(c.aliases =~= Seq::<Seq<char>>::empty());
        assert(names_from_hnew()[11] == ("lsp-restart"@, 57int));
        lemma_in_names_from_hnew(11);
    } else if i == 8 {
        assert(c.aliases =~= Seq::<Seq<char>>::empty());
        assert(names_from_hnew()[12] == ("lsp-stop"@, 58int));
        lemma_in_names_from_hnew(12);
    } else if i == 9 {
        assert(c.aliases =~= Seq::<Seq<char>>::empty());
        assert(names_from_spelling()[6] == ("tree-sitter-scopes"@, 59int));
        lemma_in_names_from_spelling(6);
    }
}

proof fn lemma_names_of_tree_sitter_highlight_name_on(i: int, name: Seq<char>)
    requires
        0 <= i < from_tree_sitter_highlight_name_on().len(),
        from_tree_sitter_highlight_name_on()[i].answers(name),
    ensures
        all_names().contains((name, 60 + i)),
{
    let c = from_tree_sitter_highlight_name_on()[i];
    if i == 0 {
        assert(c.aliases =~= Seq::<Seq<char>>::empty());
        assert(names_from_spelling()[4] == ("tree-sitter-highlight-name"@, 60int));
        lemma_in_names_from_spelling(4);
    } else if i == 1 {
        assert(c.aliases =~= Seq::<Seq<char>>::empty());
        assert(names_from_spelling()[5] == ("tree-sitter-layers"@, 61int));
        lemma_in_names_from_spelling(5);
    } else if i == 2 {
        assert(c.aliases =~= seq!["dbg"@]);
        assert(names_from_clipboard_paste_before()[15] == ("debug-start"@, 62int));
        lemma_in_names_from_clipboard_paste_before(15);
        assert(names_from_clipboard_paste_before()[11] == ("dbg"@, 62int));
        lemma_in_names_from_clipboard_paste_before(11);
    } else if i == 3 {
        assert(c.aliases =~= seq!["dbg-tcp"@]);
        assert(names_from_clipboard_paste_before()[14] == ("debug-remote"@, 63int));
        lemma_in_names_from_clipboard_paste_before(14);
        assert(names_from_clipboard_paste_before()[12] == ("dbg-tcp"@, 63int));
        lemma_in_names_from_clipboard_paste_before(12);
    } else if i == 4 {
        assert(c.aliases =~= Seq::<Seq<char>>::empty());
        assert(names_from_clipboard_paste_before()[13] == ("debug-eval"@, 64int));
        lemma_in_names_from_clipboard_paste_before(13);
    } else if i == 5 {
        assert(c.aliases =~= seq!["vs"@]);
        assert(names_from_spelling()[14] == ("vsplit"@, 65int));
        lemma_in_names_from_spelling(14);
        assert(names_from_spelling()[13] == ("vs"@, 65int));
        lemma_in_names_from_spelling(13);
    } else if i == 6 {
        assert(c.aliases =~= seq!["vnew"@]);
        assert(names_from_spelling()[15] == ("vsplit-new"@, 66int));
        lemma_in_names_from_spelling(15);
        assert(names_from_spelling()[12] == ("vnew"@, 66int));
        lemma_in_names_from_spelling(12);
    } else if i == 7 {
        assert(c.aliases =~= seq!["hs"@, "sp"@]);
        assert(names_from_hnew()[2] == ("hsplit"@, 67int));
        lemma_in_names_from_hnew(2);
        assert(names_from_hnew()[1] == ("hs"@, 67int));
        lemma_in_names_from_hnew(1);
        assert(names_from_reload_all()[15] == ("sp"@, 67int));
        lemma_in_names_from_reload_all(15);
    } else if i == 8 {
        assert(c.aliases =~= seq!["hnew"@]);
        assert(names_from_hnew()[3] == ("hsplit-new"@, 68int));
        lemma_in_names_from_hnew(3);
        assert(names_from_hnew()[0] == ("hnew"@, 68int));
        lemma_in_names_from_hnew(0);
    } else if i == 9 {
        assert(c.aliases =~= Seq::<Seq<char>>::empty());
        assert(names_from_spelling()[9] == ("tutor"@, 69int));
        lemma_in_names_from_spelling(9);
    }
}

proof fn lemma_names_of_goto_on(i: int, name: Seq<char>)
    requires
        0 <= i < from_goto_on().len(),
        from_goto_on()[i].answers(name),
    ensures
        all_names().contains((name, 70 + i)),
{
    let c = from_goto_on()[i];
    if i == 0 {
        assert(c.aliases =~= seq!["g"@]);
        assert(names_from_diffg()[15] == ("goto"@, 70int));
        lemma_in_names_from_diffg(15);
        assert(names_from_diffg()[12] == ("g"@, 70int));
        lemma_in_names_from_diffg(12);
    } else if i == 1 {
        assert(c.aliases =~= seq!["lang"@]);
        assert(names_from_reload_all()[6] == ("set-language"@, 71int));
        lemma_in_names_from_reload_all(6);
        assert(names_from_hnew()[6] == ("lang"@, 71int));
        lemma_in_names_from_hnew(6);
    } else if i == 2 {
        assert(c.aliases =~= seq!["spelling"@]);
        assert(names_from_reload_all()[9] == ("set-spelling-language"@, 72int));
        lemma_in_names_from_reload_all(9);
        assert(names_from_spelling()[0] == ("spelling"@, 72int));
        lemma_in_names_from_spelling(0);
    } else if i == 3 {
        assert(c.aliases =~= seq!["set"@]);
        assert(names_from_reload_all()[7] == ("set-option"@, 73int));
        lemma_in_names_from_reload_all(7);
        assert(names_from_reload_all()[5] == ("set"@, 73int));
        lemma_in_names_from_reload_all(5);
    } else if i == 4 {
        assert(c.aliases =~= seq!["toggle"@]);
        assert(names_from_spelling()[3] == ("toggle-option"@, 74int));
        lemma_in_names_from_spelling(3);
        assert(names_from_spelling()[2] == ("toggle"@, 74int));
        lemma_in_names_from_spelling(2);
    } else if i == 5 {
        assert(c.aliases =~= seq!["get"@]);
        assert(names_from_diffg()[14] == ("get-option"@, 75int));
        lemma_in_names_from_diffg(14);
        assert(names_from_diffg()[13] == ("get"@, 75int));
        lemma_in_names_from_diffg(13);
    } else if i == 6 {
        assert(c.aliases =~= Seq::<Seq<char>>::empty());
        assert(names_from_reload_all()[14] == ("sort"@, 76int));
        lemma_in_names_from_reload_all(14);
    } else if i == 7 {
        assert(c.aliases =~= Seq::<Seq<char>>::empty());
        assert(names_from_push_directory()[14] == ("reflow"@, 77int));
        lemma_in_names_from_push_directory(14);
    } else if i == 8 {
        assert(c.aliases =~= seq!["ts-subtree"@]);
        assert(names_from_spelling()[7] == ("tree-sitter-subtree"@, 78int));
        lemma_in_names_from_spelling(7);
        assert(names_from_spelling()[8] == ("ts-subtree"@, 78int));
        lemma_in_names_from_spelling(8);
    } else if i == 9 {
        assert(c.aliases =~= Seq::<Seq<char>>::empty());
        assert(names_from_clipboard_paste_before()[6] == ("config-reload"@, 79int));
        lemma_in_names_from_clipboard_paste_before(6);
    }
}

proof fn lemma_names_of_config_open_on(i: int, name: Seq<char>)
    requires
        0 <= i < from_config_open_on().len(),
        from_config_open_on()[i].answers(name),
    ensures
        all_names().contains((name, 80 + i)),
{
    let c = from_config_open_on()[i];
    if i == 0 {
        assert(c.aliases =~= Seq::<Seq<char>>::empty());
        assert(names_from_clipboard_paste_before()[4] == ("config-open"@, 80int));
        lemma_in_names_from_clipboard_paste_before(4);
    } else if i == 1 {
        assert(c.aliases =~= Seq::<Seq<char>>::empty());
        assert(names_from_clipboard_paste_before()[5] == ("config-open-workspace"@, 81int));
        lemma_in_names_from_clipboard_paste_before(5);
    } else if i == 2 {
        assert(c.aliases =~= Seq::<Seq<char>>::empty());
        assert(names_from_hnew()[10] == ("log-open"@, 82int));
        lemma_in_names_from_hnew(10);
    } else if i == 3 {
        assert(c.aliases =~= Seq::<Seq<char>>::empty());
        assert(names_from_hnew()[5] == ("insert-output"@, 83int));
        lemma_in_names_from_hnew(5);
    } else if i == 4 {
        assert(c.aliases =~= Seq::<Seq<char>>::empty());
        assert(names_from_bang()[1] == ("append-output"@, 84int));
        lemma_in_names_from_bang(1);
    } else if i == 5 {
        assert(c.aliases =~= seq!["|"@]);
        assert(names_from_mv()[7] == ("pipe"@, 85int));
        lemma_in_names_from_mv(7);
        assert(names_from_write_all_forced()[15] == ("|"@, 85int));
        lemma_in_names_from_write_all_forced(15);
    } else if i == 6 {
        assert(c.aliases =~= Seq::<Seq<char>>::empty());
        assert(names_from_mv()[8] == ("pipe-to"@, 86int));
        lemma_in_names_from_mv(8);
    } else if i == 7 {
        assert(c.aliases =~= seq!["sh"@, "!"@]);
        assert(names_from_reload_all()[4] == ("run-shell-command"@, 87int));
        lemma_in_names_from_reload_all(4);
        assert(names_from_reload_all()[10] == ("sh"@, 87int));
        lemma_in_names_from_reload_all(10);
        assert(names_from_bang()[0] == ("!"@, 87int));
        lemma_in_names_from_bang(0);
    } else if i == 8 {
        assert(c.aliases =~= seq!["diffget"@, "diffg"@]);
        assert(names_from_reload_all()[1] == ("reset-diff-change"@, 88int));
        lemma_in_names_from_reload_all(1);
        assert(names_from_diffg()[1] == ("diffget"@, 88int));
        lemma_in_names_from_diffg(1);
        assert(names_from_diffg()[0] == ("diffg"@, 88int));
        lemma_in_names_from_diffg(0);
    } else if i == 9 {
        assert(c.aliases =~= Seq::<Seq<char>>::empty());
        assert(names_from_bp()[14] == ("clear-register"@, 89int));
        lemma_in_names_from_bp(14);
    }
}

proof fn lemma_names_of_set_register_on(i: int, name: Seq<char>)
    requires
        0 <= i < from_set_register_on().len(),
        from_set_register_on()[i].answers(name),
    ensures
        all_names().contains((name, 90 + i)),
{
    let c = from_set_register_on()[i];
    if i == 0 {
        assert(c.aliases =~= Seq::<Seq<char>>::empty());
        assert(names_from_reload_all()[8] == ("set-register"@, 90int));
        lemma_in_names_from_reload_all(8);
    } else if i == 1 {
        assert(c.aliases =~= Seq::<Seq<char>>::empty());
        assert(names_from_push_directory()[13] == ("redraw"@, 91int));
        lemma_in_names_from_push_directory(13);
    } else if i == 2 {
        assert(c.aliases =~= seq!["mv"@]);
        assert(names_from_hnew()[14] == ("move"@, 92int));
        lemma_in_names_from_hnew(14);
        assert(names_from_mv()[0] == ("mv"@, 92int));
        lemma_in_names_from_mv(0);
    } else if i == 3 {
        assert(c.aliases =~= seq!["mv!"@]);
        assert(names_from_hnew()[15] == ("move!"@, 93int));
        lemma_in_names_from_hnew(15);
        assert(names_from_mv()[1] == ("mv!"@, 93int));
        lemma_in_names_from_mv(1);
    } else if i == 4 {
        assert(c.aliases =~= Seq::<Seq<char>>::empty());
        assert(names_from_write_all_forced()[13] == ("yank-diagnostic"@, 94int));
        lemma_in_names_from_write_all_forced(13);
    } else if i == 5 {
        assert(c.aliases =~= seq!["r"@]);
        assert(names_from_push_directory()[12] == ("read"@, 95int));
        lemma_in_names_from_push_directory(12);
        assert(names_from_push_directory()[11] == ("r"@, 95int));
        lemma_in_names_from_push_directory(11);
    } else if i == 6 {
        assert(c.aliases =~= Seq::<Seq<char>>::empty());
        assert(names_from_diffg()[5] == ("echo"@, 96int));
        lemma_in_names_from_diffg(5);
    } else if i == 7 {
        assert(c.aliases =~= Seq::<Seq<char>>::empty());
        assert(names_from_mv()[4] == ("noop"@, 97int));
        lemma_in_names_from_mv(4);
    } else if i == 8 {
        assert(c.aliases =~= Seq::<Seq<char>>::empty());
        assert(names_from_w()[7] == ("workspace-trust"@, 98int));
        lemma_in_names_from_w(7);
    } else if i == 9 {
        assert(c.aliases =~= Seq::<Seq<char>>::empty());
        assert(names_from_w()[8] == ("workspace-untrust"@, 99int));
        lemma_in_names_from_w(8);
    }
}

proof fn lemma_names_of_workspace_exclude_on(i: int, name: Seq<char>)
    requires
        0 <= i < from_workspace_exclude_on().len(),
        from_workspace_exclude_on()[i].answers(name),
    ensures
        all_names().contains((name, 100 + i)),
{
    let c = from_workspace_exclude_on()[i];
    {
        assert(c.aliases =~= Seq::<Seq<char>>::empty());
        assert(names_from_w()[6] == ("workspace-exclude"@, 100int));
        lemma_in_names_from_w(6);
    }
}

proof fn lemma_in_names_from_bang(k: int)
    requires
        0 <= k < names_from_bang().len(),
    ensures
        all_names().contains(names_from_bang()[k]),
{
    let before = Seq::<(Seq<char>, int)>::empty();
    let behind = names_from_bp()
        + names_from_clipboard_paste_before()
        + names_from_diffg()
        + names_from_hnew()
        + names_from_mv()
        + names_from_push_directory()
        + names_from_reload_all()
        + names_from_spelling()
        + names_from_w()
        + names_from_write_all_forced();
    lemma_among_all(names_from_bang(), before, behind, k);
    assert(before + names_from_bang() + behind =~= all_names());
}

proof fn lemma_in_names_from_bp(k: int)
    requires
        0 <= k < names_from_bp().len(),
    ensures
        all_names().contains(names_from_bp()[k]),
{
    let before = names_from_bang();
    let behind = names_from_clipboard_paste_before()
        + names_from_diffg()
        + names_from_hnew()
        + names_from_mv()
        + names_from_push_directory()
        + names_from_reload_all()
        + names_from_spelling()
        + names_from_w()
        + names_from_write_all_forced();
    lemma_among_all(names_from_bp(), before, behind, k);
    assert(before + names_from_bp() + behind =~= all_names());
}

proof fn lemma_in_names_from_clipboard_paste_before(k: int)
    requires
        0 <= k < names_from_clipboard_paste_before().len(),
    ensures
        all_names().contains(names_from_clipboard_paste_before()[k]),
{
    let before = names_from_bang()
        + names_from_bp();
    let behind = names_from_diffg()
        + names_from_hnew()
        + names_from_mv()
        + names_from_push_directory()
        + names_from_reload_all()
        + names_from_spelling()
        + names_from_w()
        + names_from_write_all_forced();
    lemma_among_all(names_from_clipboard_paste_before(), before, behind, k);
    assert(before + names_from_clipboard_paste_before() + behind =~= all_names());
}

proof fn lemma_in_names_from_diffg(k: int)
    requires
        0 <= k < names_from_diffg().len(),
    ensures
        all_names().contains(names_from_diffg()[k]),
{
    let before = names_from_bang()
        + names_from_bp()
        + names_from_clipboard_paste_before();
    let behind = names_from_hnew()
        + names_from_mv()
        + names_from_push_directory()
        + names_from_reload_all()
        + names_from_spelling()
        + names_from_w()
        + names_from_write_all_forced();
    lemma_among_all(names_from_diffg(), before, behind, k);
    assert(before + names_from_diffg() + behind =~= all_names());
}

proof fn lemma_in_names_from_hnew(k: int)
    requires
        0 <= k < names_from_hnew().len(),
    ensures
        all_names().contains(names_from_hnew()[k]),
{
    let before = names_from_bang()
        + names_from_bp()
        + names_from_clipboard_paste_before()
        + names_from_diffg();
    let behind = names_from_mv()
        + names_from_push_directory()
        + names_from_reload_all()
        + names_from_spelling()
        + names_from_w()
        + names_from_write_all_forced();
    lemma_among_all(names_from_hnew(), before, behind, k);
    assert(before + names_from_hnew() + behind =~= all_names());
}

proof fn lemma_in_names_from_mv(k: int)
    requires
        0 <= k < names_from_mv().len(),
    ensures
        all_names().contains(names_from_mv()[k]),
{
    let before = names_from_bang()
        + names_from_bp()
        + names_from_clipboard_paste_before()
        + names_from_diffg()
        + names_from_hnew();
    let behind = names_from_push_directory()
        + names_from_reload_all()
        + names_from_spelling()
        + names_from_w()
        + names_from_write_all_forced();
    lemma_among_all(names_from_mv(), before, behind, k);
    assert(before + names_from_mv() + behind =~= all_names());
}

proof fn lemma_in_names_from_push_directory(k: int)
    requires
        0 <= k < names_from_push_directory().len(),
    ensures
        all_names().contains(names_from_push_directory()[k]),
{
    let before = names_from_bang()
        + names_from_bp()
        + names_from_clipboard_paste_before()
        + names_from_diffg()
        + names_from_hnew()
        + names_from_mv();
    let behind = names_from_reload_all()
        + names_from_spelling()
        + names_from_w()
        + names_from_write_all_forced();
    lemma_among_all(names_from_push_directory(), before, behind, k);
    assert(before + names_from_push_directory() + behind =~= all_names());
}

proof fn lemma_in_names_from_reload_all(k: int)
    requires
        0 <= k < names_from_reload_all().len(),
    ensures
        all_names().contains(names_from_reload_all()[k]),
{
    let before = names_from_bang()
        + names_from_bp()
        + names_from_clipboard_paste_before()
        + names_from_diffg()
        + names_from_hnew()
        + names_from_mv()
        + names_from_push_directory();
    let behind = names_from_spelling()
        + names_from_w()
        + names_from_write_all_forced();
    lemma_among_all(names_from_reload_all(), before, behind, k);
    assert(before + names_from_reload_all() + behind =~= all_names());
}

proof fn lemma_in_names_from_spelling(k: int)
    requires
        0 <= k < names_from_spelling().len(),
    ensures
        all_names().contains(names_from_spelling()[k]),
{
    let before = names_from_bang()
        + names_from_bp()
        + names_from_clipboard_paste_before()
        + names_from_diffg()
        + names_from_hnew()
        + names_from_mv()
        + names_from_push_directory()
        + names_from_reload_all();
    let behind = names_from_w()
        + names_from_write_all_forced();
    lemma_among_all(names_from_spelling(), before, behind, k);
    assert(before + names_from_spelling() + behind =~= all_names());
}

proof fn lemma_in_names_from_w(k: int)
    requires
        0 <= k < names_from_w().len(),
    ensures
        all_names().contains(names_from_w()[k]),
{
    let before = names_from_bang()
        + names_from_bp()
        + names_from_clipboard_paste_before()
        + names_from_diffg()
        + names_from_hnew()
        + names_from_mv()
        + names_from_push_directory()
        + names_from_reload_all()
        + names_from_spelling();
    let behind = names_from_write_all_forced();
    lemma_among_all(names_from_w(), before, behind, k);
    assert(before + names_from_w() + behind =~= all_names());
}

proof fn lemma_in_names_from_write_all_forced(k: int)
    requires
        0 <= k < names_from_write_all_forced().len(),
    ensures
        all_names().contains(names_from_write_all_forced()[k]),
{
    let before = names_from_bang()
        + names_from_bp()
        + names_from_clipboard_paste_before()
        + names_from_diffg()
        + names_from_hnew()
        + names_from_mv()
        + names_from_push_directory()
        + names_from_reload_all()
        + names_from_spelling()
        + names_from_w();
    let behind = Seq::<(Seq<char>, int)>::empty();
    lemma_among_all(names_from_write_all_forced(), before, behind, k);
    assert(before + names_from_write_all_forced() + behind =~= all_names());
}

/// Every name of a command is among all names.
pub proof fn lemma_listed(i: int, name: Seq<char>)
    requires
        0 <= i < all_commands().len(),
        all_commands()[i].answers(name),
    ensures
        all_names().contains((name, i)),
{
    assert(from_exit_on().len() == 10);
    assert(from_buffer_close_all_forced_on().len() == 10);
    assert(from_line_ending_on().len() == 10);
    assert(from_quit_all_forced_on().len() == 10);
    assert(from_clipboard_paste_before_on().len() == 10);
    assert(from_show_directory_on().len() == 10);
    assert(from_tree_sitter_highlight_name_on().len() == 10);
    assert(from_goto_on().len() == 10);
    assert(from_config_open_on().len() == 10);
    assert(from_set_register_on().len() == 10);
    assert(from_workspace_exclude_on().len() == 1);
    if i < 10 {
        assert(all_commands()[i] == from_exit_on()[i - 0]);
        lemma_names_of_exit_on(i - 0, name);
    } else if i < 20 {
        assert(all_commands()[i] == from_buffer_close_all_forced_on()[i - 10]);
        lemma_names_of_buffer_close_all_forced_on(i - 10, name);
    } else if i < 30 {
        assert(all_commands()[i] == from_line_ending_on()[i - 20]);
        lemma_names_of_line_ending_on(i - 20, name);
    } else if i < 40 {
        assert(all_commands()[i] == from_quit_all_forced_on()[i - 30]);
        lemma_names_of_quit_all_forced_on(i - 30, name);
    } else if i < 50 {
        assert(all_commands()[i] == from_clipboard_paste_before_on()[i - 40]);
        lemma_names_of_clipboard_paste_before_on(i - 40, name);
    } else if i < 60 {
        assert(all_commands()[i] == from_show_directory_on()[i - 50]);
        lemma_names_of_show_directory_on(i - 50, name);
    } else if i < 70 {
        assert(all_commands()[i] == from_tree_sitter_highlight_name_on()[i - 60]);
        lemma_names_of_tree_sitter_highlight_name_on(i - 60, name);
    } else if i < 80 {
        assert(all_commands()[i] == from_goto_on()[i - 70]);
        lemma_names_of_goto_on(i - 70, name);
    } else if i < 90 {
        assert(all_commands()[i] == from_config_open_on()[i - 80]);
        lemma_names_of_config_open_on(i - 80, name);
    } else if i < 100 {
        assert(all_commands()[i] == from_set_register_on()[i - 90]);
        lemma_names_of_set_register_on(i - 90, name);
    } else if i < 101 {
        assert(all_commands()[i] == from_workspace_exclude_on()[i - 100]);
        lemma_names_of_workspace_exclude_on(i - 100, name);
    }
}

/// A listed name is a word.
pub proof fn lemma_listed_word(i: int, name: Seq<char>)
    requires
        all_names().contains((name, i)),
    ensures
        is_word(name),
{
    lemma_all_names();
    let all = all_names();
    let p = choose|p: int| 0 <= p < all.len() && all[p] == (name, i);
    assert(is_word(all[p].0));
}

/// A name stands among all names once.
pub proof fn lemma_listed_once(i: int, j: int, name: Seq<char>)
    requires
        all_names().contains((name, i)),
        all_names().contains((name, j)),
    ensures
        i == j,
{
    lemma_all_names();
    let all = all_names();
    let p = choose|p: int| 0 <= p < all.len() && all[p] == (name, i);
    let q = choose|q: int| 0 <= q < all.len() && all[q] == (name, j);
    lemma_comes_before_total(name, name);
    if p < q {
        assert(comes_before(all[p].0, all[q].0));
    } else if q < p {
        assert(comes_before(all[q].0, all[p].0));
    }
}

} // verus!
