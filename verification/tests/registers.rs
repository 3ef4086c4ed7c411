use mitos::commands::editing::{delete_selection_impl, Operation, YankAction};
use mitos::commands::registers::{
    bracketed_paste, clear_register, cleared_message, copy_between_registers, parse_register,
    paste_impl, replace_selections_with_register, yank_impl, yank_joined_impl,
    yank_main_selection_to_register, yank_register, ClearRegister, CopyStep, Paste, RegisterCopy,
    YankTarget,
};
use mitos::mode::Mode;
use mitos::range::Range;
use mitos::selection::Selection;
use mitos::text::{LineEnding, Text};
use mitos::transaction::{apply, Transaction};

fn chars(s: &str) -> Vec<char> {
    s.chars().collect()
}

fn text(s: &str) -> Text {
    Text::from_chars(chars(s))
}

fn done(text: &Text, t: &Transaction) -> String {
    apply(&text.chars, &t.changes).into_iter().collect()
}

fn two() -> Selection {
    Selection::new(vec![Range::new(0, 1), Range::new(2, 4)], 1)
}

#[test]
fn selections_are_yanked() {
    let text = text("a bb");
    let (values, message) = yank_impl(&text, &two(), '"');
    assert_eq!(values, [chars("a"), chars("bb")]);
    assert_eq!(message, "yanked 2 selections to register \"");
    let (value, message) = yank_joined_impl(&text, &two(), &chars(", "), '+');
    assert_eq!(value, chars("a, bb"));
    assert_eq!(message, "joined and yanked 2 selections to register +");
    let (value, message) = yank_main_selection_to_register(&text, &two(), '*');
    assert_eq!(value, chars("bb"));
    assert_eq!(message, "yanked primary selection to register *");
    let (_, message) = yank_impl(&text, &Selection::point(0), 'x');
    assert_eq!(message, "yanked 1 selection to register x");
}

#[test]
fn values_are_pasted_at_their_ranges() {
    let text = text("a bb\n");
    let values = vec![chars("1"), chars("22")];
    let paste = |action, count| {
        paste_impl(&text, &two(), &values, LineEnding::LF, action, count, Mode::Normal).unwrap()
    };
    let t = paste(Paste::After, 1);
    assert_eq!(done(&text, &t), "a1 bb22\n");
    assert_eq!(t.selection.unwrap().ranges, [Range::new(1, 2), Range::new(5, 7)]);
    assert_eq!(done(&text, &paste(Paste::Before, 2)), "11a 2222bb\n");
    let one = vec![chars("x")];
    let t = paste_impl(&text, &two(), &one, LineEnding::LF, Paste::Before, 1, Mode::Insert);
    let t = t.unwrap();
    assert_eq!(done(&text, &t), "xa xbb\n");
    assert!(t.selection.is_none());
    assert!(paste_impl(&text, &two(), &vec![], LineEnding::LF, Paste::After, 1, Mode::Normal)
        .is_none());
}

#[test]
fn lines_are_pasted_beside_lines() {
    let text = text("ab\ncd\n");
    let line = vec![chars("x\r\n")];
    let at = Selection::point(1);
    let paste = |action| {
        let t = paste_impl(&text, &at, &line, LineEnding::LF, action, 1, Mode::Normal).unwrap();
        done(&text, &t)
    };
    assert_eq!(paste(Paste::After), "ab\nx\ncd\n");
    assert_eq!(paste(Paste::Before), "x\nab\ncd\n");
    assert_eq!(bracketed_paste(Mode::Insert), Paste::Cursor);
    assert_eq!(bracketed_paste(Mode::Normal), Paste::Before);
}

#[test]
fn selections_are_replaced_by_values() {
    let text = text("a bb\n");
    let values = vec![chars("1")];
    let t = replace_selections_with_register(&text, &two(), &values, LineEnding::LF, 2).unwrap();
    assert_eq!(done(&text, &t), "11 11\n");
    assert!(
        replace_selections_with_register(&text, &two(), &vec![], LineEnding::LF, 1).is_none()
    );
}

#[test]
fn registers_are_copied() {
    match copy_between_registers(RegisterCopy::Source, Some('a'), None) {
        CopyStep::Empty(m) => assert_eq!(m, "register a is empty"),
        _ => panic!("there is nothing to copy"),
    }
    let held = Some(vec![chars("x"), chars("y")]);
    let state = match copy_between_registers(RegisterCopy::Source, Some('a'), held) {
        CopyStep::Ask(state) => state,
        _ => panic!("the other register is asked for"),
    };
    match copy_between_registers(state, Some('b'), None) {
        CopyStep::Write(register, values, message) => {
            assert_eq!(register, 'b');
            assert_eq!(values, [chars("x"), chars("y")]);
            assert_eq!(message, "yanked 2 values from register a to b");
        }
        _ => panic!("the values are written"),
    }
    assert!(matches!(
        copy_between_registers(RegisterCopy::Source, None, None),
        CopyStep::Stop
    ));
}

#[test]
fn registers_are_cleared() {
    let args = |a: &[&str]| a.iter().map(|s| s.to_string()).collect::<Vec<_>>();
    let all = clear_register(&args(&[])).ok().unwrap();
    assert_eq!(cleared_message(&all, true), "All registers cleared");
    let one = clear_register(&args(&["x"])).ok().unwrap();
    assert!(matches!(one, ClearRegister::One('x')));
    assert_eq!(cleared_message(&one, true), "Register x cleared");
    assert_eq!(cleared_message(&one, false), "Register x not found");
    assert_eq!(clear_register(&args(&["xy"])).err().unwrap(), "Invalid register xy");
    assert_eq!(parse_register("é"), Ok('é'));
    assert_eq!(parse_register(""), Err("Invalid register ".to_string()));
}

#[test]
fn pasting_undoes_deleting() {
    for (before, ranges) in [
        ("one two six", vec![Range::new(0, 3), Range::new(4, 7)]),
        ("a\nb\nc\n", vec![Range::new(2, 4)]),
    ] {
        let text = text(before);
        let selection = Selection::new(ranges.clone(), 0);
        let d = delete_selection_impl(
            &text,
            &selection,
            Operation::Delete,
            YankAction::Yank,
            None,
            '"',
        );
        let after: String = apply(&text.chars, &d.changes).into_iter().collect();
        let mut gone = 0;
        let mut points = Vec::new();
        for r in &ranges {
            points.push(Range::point(r.from() - gone));
            gone += r.len();
        }
        let after = self::text(&after);
        let t = paste_impl(
            &after,
            &Selection::new(points, 0),
            &d.yank.unwrap().1,
            LineEnding::LF,
            Paste::Before,
            1,
            Mode::Normal,
        );
        assert_eq!(done(&after, &t.unwrap()), before);
    }
}

#[test]
fn the_usual_registers_are_used() {
    assert_eq!(yank_register(YankTarget::Register(None), '"'), '"');
    assert_eq!(yank_register(YankTarget::Register(Some('a')), '"'), 'a');
    assert_eq!(yank_register(YankTarget::Clipboard, '"'), '+');
    assert_eq!(yank_register(YankTarget::PrimaryClipboard, '"'), '*');
}
