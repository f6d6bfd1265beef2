//! Styled text as a terminal takes it.

use crate::render::{Span, SpanView, Style, render_advisor_report, rendered, span_views};
use crate::report::AdvisorReport;
use colored::Colorize;
use vstd::prelude::*;

verus! {

/// The sequence that switches all styles off.
pub open spec fn reset() -> Seq<char> {
    seq!['\x1b', '[', '0', 'm']
}

/// `text` with `code` behind each reset in it.
pub open spec fn renewed(text: Seq<char>, code: Seq<char>) -> Seq<char>
    decreases text.len(),
{
    if text.len() < reset().len() {
        text
    } else if text.take(4) == reset() {
        reset() + code + renewed(text.skip(4), code)
    } else {
        text.take(1) + renewed(text.skip(1), code)
    }
}

/// `s` is `text` as it is where colours are off. Where they are on, `code` stands before it and
/// behind each reset in it, and a reset behind it all. The two places of `code` are written one
/// after the other, so that either lacks it where colours are switched off for that moment.
pub open spec fn is_painted(s: Seq<char>, code: Seq<char>, text: Seq<char>) -> bool {
    ||| s == text
    ||| s == code + renewed(text, code) + reset()
    ||| s == code + text + reset()
    ||| s == renewed(text, code) + reset()
    ||| s == text + reset()
}

/// Nothing is renewed in text without a reset.
pub proof fn lemma_nothing_to_renew(text: Seq<char>, code: Seq<char>)
    requires
        forall|i: int|
            0 <= i <= text.len() - reset().len() ==> #[trigger] text.subrange(
                i,
                i + reset().len(),
            ) != reset(),
    ensures
        renewed(text, code) == text,
    decreases text.len(),
{
    if text.len() >= reset().len() {
        let rest = text.skip(1);
        assert(text.subrange(0, 4) =~= text.take(4));
        let first = 0int;
        assert(text.subrange(first, first + reset().len()) != reset());
        assert forall|i: int| 0 <= i <= rest.len() - reset().len() implies #[trigger] rest.subrange(
            i,
            i + reset().len(),
        ) != reset() by {
            assert(rest.subrange(i, i + reset().len()) =~= text.subrange(
                i + 1,
                i + 1 + reset().len(),
            ));
        }
        lemma_nothing_to_renew(rest, code);
        assert(text.take(1) + rest =~= text);
    }
}

/// `colored::Colorize::bold`: the text, painted by the code for bold. Whether colours are on is for
/// the environment to say.
#[verifier::external_body]
fn bold(text: &str) -> (s: String)
    ensures
        is_painted(s@, "\x1b[1m"@, text@),
{
    text.bold().to_string()
}

/// `colored::Colorize::underline` of bold text: the text, painted by the code for both.
#[verifier::external_body]
fn bold_underline(text: &str) -> (s: String)
    ensures
        is_painted(s@, "\x1b[1;4m"@, text@),
{
    text.bold().underline().to_string()
}

/// `colored::Colorize::yellow`: the text, painted by the code for yellow.
#[verifier::external_body]
fn yellow(text: &str) -> (s: String)
    ensures
        is_painted(s@, "\x1b[33m"@, text@),
{
    text.yellow().to_string()
}

/// `colored::Colorize::cyan`: the text, painted by the code for cyan.
#[verifier::external_body]
fn cyan(text: &str) -> (s: String)
    ensures
        is_painted(s@, "\x1b[36m"@, text@),
{
    text.cyan().to_string()
}

/// `colored::Colorize::red`: the text, painted by the code for red.
#[verifier::external_body]
fn red(text: &str) -> (s: String)
    ensures
        is_painted(s@, "\x1b[31m"@, text@),
{
    text.red().to_string()
}

/// `colored::Colorize::green`: the text, painted by the code for green.
#[verifier::external_body]
fn green(text: &str) -> (s: String)
    ensures
        is_painted(s@, "\x1b[32m"@, text@),
{
    text.green().to_string()
}

/// `colored::Colorize::dimmed`: the text, painted by the code for dimmed text.
#[verifier::external_body]
fn dimmed(text: &str) -> (s: String)
    ensures
        is_painted(s@, "\x1b[2m"@, text@),
{
    text.dimmed().to_string()
}

/// `colored::Colorize::bold` of red text: the text, painted by the code for both.
#[verifier::external_body]
fn red_bold(text: &str) -> (s: String)
    ensures
        is_painted(s@, "\x1b[1;31m"@, text@),
{
    text.red().bold().to_string()
}

/// `colored::Colorize::bold` of yellow text: the text, painted by the code for both.
#[verifier::external_body]
fn yellow_bold(text: &str) -> (s: String)
    ensures
        is_painted(s@, "\x1b[1;33m"@, text@),
{
    text.yellow().bold().to_string()
}

/// `colored::Colorize::bold` of dimmed text: the text, painted by the code for both.
#[verifier::external_body]
fn dimmed_bold(text: &str) -> (s: String)
    ensures
        is_painted(s@, "\x1b[1;2m"@, text@),
{
    text.dimmed().bold().to_string()
}

/// The code that switches a style on.
pub open spec fn style_code(style: Style) -> Seq<char> {
    match style {
        Style::Plain => ""@,
        Style::Bold => "\x1b[1m"@,
        Style::BoldUnderline => "\x1b[1;4m"@,
        Style::Yellow => "\x1b[33m"@,
        Style::Cyan => "\x1b[36m"@,
        Style::Red => "\x1b[31m"@,
        Style::Green => "\x1b[32m"@,
        Style::Dimmed => "\x1b[2m"@,
        Style::RedBold => "\x1b[1;31m"@,
        Style::YellowBold => "\x1b[1;33m"@,
        Style::DimmedBold => "\x1b[1;2m"@,
    }
}

/// `s` shows a piece of text: as it is if it is plain, else painted in its style.
pub open spec fn shows(s: Seq<char>, piece: SpanView) -> bool {
    if piece.style == Style::Plain {
        s == piece.text
    } else {
        is_painted(s, style_code(piece.style), piece.text)
    }
}

/// Paints a piece of text.
pub fn paint(piece: &Span) -> (s: String)
    ensures
        shows(s@, piece@),
{
    let text = piece.text.as_str();
    match piece.style {
        Style::Plain => piece.text.clone(),
        Style::Bold => bold(text),
        Style::BoldUnderline => bold_underline(text),
        Style::Yellow => yellow(text),
        Style::Cyan => cyan(text),
        Style::Red => red(text),
        Style::Green => green(text),
        Style::Dimmed => dimmed(text),
        Style::RedBold => red_bold(text),
        Style::YellowBold => yellow_bold(text),
        Style::DimmedBold => dimmed_bold(text),
    }
}

/// Texts one after the other.
pub open spec fn strung(parts: Seq<Seq<char>>) -> Seq<char>
    decreases parts.len(),
{
    if parts.len() == 0 {
        Seq::empty()
    } else {
        strung(parts.drop_last()) + parts.last()
    }
}

/// Each of `parts` shows a piece of a document.
pub open spec fn all_show(parts: Seq<Seq<char>>, doc: Seq<SpanView>) -> bool {
    &&& parts.len() == doc.len()
    &&& forall|i: int| 0 <= i < doc.len() ==> shows(#[trigger] parts[i], doc[i])
}

/// Paints a document.
pub fn paint_all(doc: &Vec<Span>) -> (s: String)
    ensures
        exists|parts: Seq<Seq<char>>|
            #[trigger] all_show(parts, span_views(doc@)) && s@ == strung(parts),
{
    let mut s = "".to_owned();
    let mut i: usize = 0;
    let ghost mut parts: Seq<Seq<char>> = Seq::empty();
    proof {
        reveal_strlit("");
        assert(s@ =~= strung(parts));
    }
    while i < doc.len()
        invariant
            i <= doc@.len(),
            parts.len() == i,
            forall|j: int| 0 <= j < i ==> shows(#[trigger] parts[j], doc@[j]@),
            s@ == strung(parts),
        decreases doc@.len() - i,
    {
        let own = paint(&doc[i]);
        proof {
            assert(parts.push(own@).drop_last() =~= parts);
            parts = parts.push(own@);
        }
        s = s.concat(own.as_str());
        i = i + 1;
    }
    assert(all_show(parts, span_views(doc@)));
    s
}

/// A report as a terminal takes it.
pub fn advisor_text(report: &AdvisorReport) -> (s: String)
    ensures
        exists|parts: Seq<Seq<char>>|
            #[trigger] all_show(parts, rendered(report@)) && s@ == strung(parts),
{
    paint_all(&render_advisor_report(report))
}

} // verus!
