//! Choosing a document title for a committed file: which pages of a PDF to
//! ask an extraction helper about, which answers to reject, and how to clean
//! up an accepted one.

use vstd::prelude::*;
use vstd::utf8::encode_utf8;

verus! {

/// The extension of files whose title is extracted.
pub const PDF_EXTENSION: &'static str = "pdf";

/// How many leading pages are tried for a title.
pub const TITLE_PAGES: usize = 3;

/// Filler text that is never a title.
pub const BLANK_PAGE: &'static str = "This page intentionally left blank";

/// The same filler text, with a full stop.
pub const BLANK_PAGE_DOT: &'static str = "This page intentionally left blank.";

/// The `fi` ligature.
pub const FI_LIGATURE: &'static str = "\u{FB01}";

/// The `fl` ligature.
pub const FL_LIGATURE: &'static str = "\u{FB02}";

/// A black square that extraction leaves behind.
pub const BLACK_SQUARE: &'static str = "\u{25A0}";

/// A diaeresis written before the `o` it belongs to.
pub const SPLIT_O_UMLAUT: &'static str = "\u{A8}o";

/// The letters `fi`.
pub const FI: &'static str = "fi";

/// The letters `fl`.
pub const FL: &'static str = "fl";

/// Nothing.
pub const NOTHING: &'static str = "";

/// The letter `o` with a diaeresis.
pub const O_UMLAUT: &'static str = "\u{F6}";

/// `s` with every match of `from` replaced by `to`, matches taken from the
/// left without overlapping.
pub open spec fn replaced(s: Seq<char>, from: Seq<char>, to: Seq<char>) -> Seq<char>
    decreases s.len(),
{
    if s.len() == 0 {
        s
    } else if from.len() > 0 && from.is_prefix_of(s) {
        to + replaced(s.skip(from.len() as int), from, to)
    } else {
        seq![s[0]] + replaced(s.skip(1), from, to)
    }
}

/// The text with leading and trailing whitespace removed, as `str::trim` does.
pub uninterp spec fn trimmed_of(s: Seq<char>) -> Seq<char>;

/// Relies on `str::replace`: every non-overlapping match of `from`, from the
/// left, replaced by `to`.
#[verifier::external_body]
fn replace_all(s: &str, from: &str, to: &str) -> (r: String)
    requires
        from@.len() > 0,
    ensures
        r@ == replaced(s@, from@, to@),
{
    s.replace(from, to)
}

/// Relies on `str::trim`: leading and trailing whitespace removed.
#[verifier::external_body]
fn trim(s: &str) -> (r: String)
    ensures
        r@ == trimmed_of(s@),
{
    s.trim().to_string()
}

/// The length of a text in UTF-8 bytes.
pub open spec fn byte_len(s: Seq<char>) -> int {
    encode_utf8(s).len() as int
}

/// An extracted title is unusable when it is missing, filler text, at most
/// 4 bytes long, or at least 120 bytes long.
pub open spec fn title_unusable(title: Option<Seq<char>>) -> bool {
    match title {
        None => true,
        Some(t) => t == BLANK_PAGE@ || t == BLANK_PAGE_DOT@ || byte_len(t) <= 4 || byte_len(t)
            >= 120,
    }
}

/// Whether an extracted title is unusable.
pub fn is_pdf_title_bad(title: Option<&str>) -> (r: bool)
    ensures
        r == title_unusable(match title {
            Some(t) => Some(t@),
            None => None,
        }),
{
    match title {
        None => true,
        Some(t) => {
            let owned = t.to_owned();
            let n = t.as_bytes().len();
            owned == BLANK_PAGE.to_owned() || owned == BLANK_PAGE_DOT.to_owned() || n <= 4 || n
                >= 120
        },
    }
}

/// The clean-up applied to an extracted title: ligatures spelled out, stray
/// squares removed, a split umlaut joined, then whitespace trimmed.
pub open spec fn fixed_title(t: Seq<char>) -> Seq<char> {
    let a = replaced(t, FI_LIGATURE@, FI@);
    let b = replaced(a, FL_LIGATURE@, FL@);
    let c = replaced(b, BLACK_SQUARE@, NOTHING@);
    let d = replaced(c, SPLIT_O_UMLAUT@, O_UMLAUT@);
    trimmed_of(d)
}

/// Cleans up an extracted title.
pub fn fixup_pdf_title(title: String) -> (r: String)
    ensures
        r@ == fixed_title(title@),
{
    proof {
        reveal_strlit("\u{FB01}");
        reveal_strlit("\u{FB02}");
        reveal_strlit("\u{25A0}");
        reveal_strlit("\u{A8}o");
    }
    let a = replace_all(title.as_str(), FI_LIGATURE, FI);
    let b = replace_all(a.as_str(), FL_LIGATURE, FL);
    let c = replace_all(b.as_str(), BLACK_SQUARE, NOTHING);
    let d = replace_all(c.as_str(), SPLIT_O_UMLAUT, O_UMLAUT);
    trim(d.as_str())
}

/// The next move of title extraction.
#[derive(Debug, Clone, PartialEq, Eq)]
pub enum TitleStep {
    /// Ask the helper for the title on this page (counted from 1).
    ReadPage(usize),
    /// Extraction is over, with this title if one was accepted.
    Done(Option<String>),
}

/// How title extraction starts for a file with extension `extension`: PDF
/// files are read from page 1; other files get no title.
pub fn first_title_step(extension: &str) -> (r: TitleStep)
    ensures
        extension@ == PDF_EXTENSION@ ==> r == TitleStep::ReadPage(1),
        extension@ != PDF_EXTENSION@ ==> r == TitleStep::Done(None),
{
    if extension.to_owned() == PDF_EXTENSION.to_owned() {
        TitleStep::ReadPage(1)
    } else {
        TitleStep::Done(None)
    }
}

/// How title extraction goes on after page `page` gave `title`: an
/// acceptable title is cleaned up and taken; otherwise the next page is
/// tried, until the first `TITLE_PAGES` pages are exhausted.
pub fn next_title_step(page: usize, title: Option<String>) -> (r: TitleStep)
    requires
        1 <= page <= TITLE_PAGES,
    ensures
        ({
            let bad = title_unusable(
                match title {
                    Some(t) => Some(t@),
                    None => None,
                },
            );
            &&& !bad ==> (r matches TitleStep::Done(Some(t)) && t@ == fixed_title(title->0@))
            &&& bad && page < TITLE_PAGES ==> r == TitleStep::ReadPage((page + 1) as usize)
            &&& bad && page == TITLE_PAGES ==> r == TitleStep::Done(None)
        }),
{
    let bad = match &title {
        None => is_pdf_title_bad(None),
        Some(t) => is_pdf_title_bad(Some(t.as_str())),
    };
    if !bad {
        match title {
            Some(t) => TitleStep::Done(Some(fixup_pdf_title(t))),
            None => TitleStep::Done(None),
        }
    } else if page < TITLE_PAGES {
        TitleStep::ReadPage(page + 1)
    } else {
        TitleStep::Done(None)
    }
}

} // verus!
