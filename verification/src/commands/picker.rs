//! How paths are shown in lists.

use crate::strings::{decimal, to_decimal};
use vstd::prelude::*;

verus! {

/// How a part of a line is styled.
#[derive(Clone, Copy, Debug, PartialEq, Eq, Structural)]
pub enum SpanStyle {
    Icon,
    Directory,
    Plain,
    Colon,
    Number,
}

/// A part of a line in one style.
pub struct Span {
    pub text: String,
    pub style: SpanStyle,
}

/// A part of a line in one style.
#[verifier::ext_equal]
pub struct SpanView {
    pub text: Seq<char>,
    pub style: SpanStyle,
}

impl View for Span {
    type V = SpanView;

    open spec fn view(&self) -> SpanView {
        SpanView { text: self.text@, style: self.style }
    }
}

/// The parts of a line.
pub open spec fn span_views(spans: Seq<Span>) -> Seq<SpanView> {
    spans.map_values(|s: Span| s@)
}

/// A path in its parts: the directories above it, and its file name.
pub struct PathParts {
    pub parent: Option<String>,
    pub file_name: String,
}

/// The directories of a path, with a separator behind them; nothing where it has none.
pub open spec fn directories(path: PathParts, separator: char) -> Seq<char> {
    match path.parent {
        Some(p) if p@.len() > 0 => p@ + seq![separator],
        _ => Seq::empty(),
    }
}

/// How a path and a line are shown: an icon, the directories and the name of the file, then a colon
/// and the number of the line, counted from 1. A buffer without a path goes by `scratch`.
pub open spec fn stylized(
    path: Option<PathParts>,
    icon: Option<String>,
    separator: char,
    scratch: Seq<char>,
    line: Option<usize>,
) -> Seq<SpanView> {
    let before = match path {
        Some(p) => (match icon {
            Some(i) => Seq::empty().push(SpanView { text: i@, style: SpanStyle::Icon }),
            None => Seq::empty(),
        }).push(SpanView { text: directories(p, separator), style: SpanStyle::Directory }),
        None => Seq::empty(),
    };
    let named = before.push(
        SpanView {
            text: match path {
                Some(p) => p.file_name@,
                None => scratch,
            },
            style: SpanStyle::Plain,
        },
    );
    match line {
        Some(n) => named.push(SpanView { text: ":"@, style: SpanStyle::Colon }).push(
            SpanView { text: decimal((n + 1) as nat), style: SpanStyle::Number },
        ),
        None => named,
    }
}

fn push_span(spans: &mut Vec<Span>, text: String, style: SpanStyle)
    ensures
        span_views(final(spans)@) == span_views(old(spans)@).push(SpanView { text: text@, style }),
{
    let ghost before = spans@;
    let span = Span { text, style };
    spans.push(span);
    assert(span_views(spans@) =~= span_views(before).push(SpanView { text: text@, style }));
}

/// Shows a path and a line.
pub fn stylize(
    path: &Option<PathParts>,
    icon: &Option<String>,
    separator: char,
    scratch: &str,
    line: Option<usize>,
) -> (spans: Vec<Span>)
    requires
        line matches Some(n) ==> n < usize::MAX,
    ensures
        span_views(spans@) == stylized(*path, *icon, separator, scratch@, line),
{
    let mut spans: Vec<Span> = Vec::new();
    assert(span_views(spans@) =~= Seq::<SpanView>::empty());
    match path {
        Some(p) => {
            match icon {
                Some(i) => {
                    push_span(&mut spans, i.clone(), SpanStyle::Icon);
                },
                None => {},
            }
            let mut dirs = String::new();
            match &p.parent {
                Some(parent) => {
                    if parent.as_str().unicode_len() > 0 {
                        dirs.append(parent.as_str());
                        dirs.push(separator);
                        assert(dirs@ =~= parent@ + seq![separator]);
                    }
                },
                None => {},
            }
            assert(dirs@ =~= directories(*p, separator));
            push_span(&mut spans, dirs, SpanStyle::Directory);
            push_span(&mut spans, p.file_name.clone(), SpanStyle::Plain);
        },
        None => {
            push_span(&mut spans, String::from_str(scratch), SpanStyle::Plain);
        },
    }
    match line {
        Some(n) => {
            push_span(&mut spans, String::from_str(":"), SpanStyle::Colon);
            push_span(&mut spans, to_decimal(n + 1), SpanStyle::Number);
        },
        None => {},
    }
    spans
}

/// The directories of a path end with one separator, and the number of a line is counted from 1 and
/// stands last.
pub proof fn paths_end_with_the_line_number(
    path: Option<PathParts>,
    icon: Option<String>,
    separator: char,
    scratch: Seq<char>,
    line: Option<usize>,
)
    ensures
        ({
            let spans = stylized(path, icon, separator, scratch, line);
            let name = match path {
                Some(p) => p.file_name@,
                None => scratch,
            };
            &&& line matches Some(n) ==> crate::strings::unsigned(spans.last().text) == Some(
                (n + 1) as nat,
            ) && spans[spans.len() - 3].text == name
            &&& line is None ==> spans.last().text == name
            &&& path matches Some(p) ==> (directories(p, separator).len() > 0 ==> directories(
                p,
                separator,
            ).last() == separator && directories(p, separator).drop_last() == p.parent->0@)
        }),
{
    if let Some(n) = line {
        crate::strings::reading_undoes_writing((n + 1) as nat);
    }
    if let Some(p) = path {
        if directories(p, separator).len() > 0 {
            assert(directories(p, separator).drop_last() =~= p.parent->0@);
        }
    }
}

} // verus!
