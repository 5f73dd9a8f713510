//! Access to PDF documents through `pdf_oxide`, and the embedded-text check.
use vstd::prelude::*;
use pdf_oxide::PdfDocument;
use crate::error::SigocrError;
use crate::text::{chars_of, has_non_whitespace, trim};

verus! {

#[verifier::external_type_specification]
#[verifier::external_body]
pub struct ExPdfDocument(pdf_oxide::PdfDocument);

/// `PdfDocument::from_bytes`: parses a PDF held in memory. Whether it
/// succeeds depends on the bytes and on the environment (a decompression
/// limit that `pdf_oxide` reads from it), so nothing is stated of the
/// outcome; a failure is handed on as the reader's message.
#[verifier::external_body]
fn pdf_from_bytes(data: &[u8]) -> (r: Result<PdfDocument, String>) {
    match PdfDocument::from_bytes(data.to_vec()) {
        Ok(doc) => Ok(doc),
        Err(e) => Err(e.to_string()),
    }
}

/// `PdfDocument::page_count`: the page count read from the document's
/// page tree, or the reader's message. Nothing is stated of it (the
/// document is opaque here).
#[verifier::external_body]
fn pdf_page_count(doc: &PdfDocument) -> (r: Result<usize, String>) {
    match doc.page_count() {
        Ok(n) => Ok(n),
        Err(e) => Err(e.to_string()),
    }
}

/// `PdfDocument::extract_text`: the plain text of one page, or the
/// reader's message. Nothing is stated of it (the document is opaque
/// here).
#[verifier::external_body]
fn pdf_extract_text(doc: &PdfDocument, page_index: usize) -> (r: Result<String, String>) {
    match doc.extract_text(page_index) {
        Ok(t) => Ok(t),
        Err(e) => Err(e.to_string()),
    }
}

/// Opens a PDF from its bytes; a reader failure becomes `SigocrError::Pdf`
/// with the reader's message.
pub fn open_doc(data: &[u8]) -> (r: Result<PdfDocument, SigocrError>)
    ensures
        r matches Err(e) ==> e is Pdf,
{
    match pdf_from_bytes(data) {
        Ok(doc) => Ok(doc),
        Err(m) => Err(SigocrError::Pdf(m)),
    }
}

/// The page count of a PDF given by its bytes; a reader failure (to open
/// it or to count its pages) becomes `SigocrError::Pdf` with the reader's
/// message.
pub fn page_count(data: &[u8]) -> (r: Result<usize, SigocrError>)
    ensures
        r matches Err(e) ==> e is Pdf,
{
    let doc = open_doc(data)?;
    match pdf_page_count(&doc) {
        Ok(n) => Ok(n),
        Err(m) => Err(SigocrError::Pdf(m)),
    }
}

/// Number of leading pages looked at by the embedded-text check.
pub const PAGES_TO_CHECK: usize = 3;

/// How many pages the embedded-text check reads: the first three at most.
pub fn pages_to_check(page_count: usize) -> (n: usize)
    ensures
        n == (if page_count < PAGES_TO_CHECK {
            page_count
        } else {
            PAGES_TO_CHECK
        }),
{
    if page_count < PAGES_TO_CHECK {
        page_count
    } else {
        PAGES_TO_CHECK
    }
}

/// A page's extracted text counts as text when it is not blank
/// (`!text.trim().is_empty()`).
pub fn has_visible_text(text: &String) -> (b: bool)
    ensures
        b == (trim(text@).len() > 0),
{
    let cs = chars_of(text.as_str());
    has_non_whitespace(&cs)
}

/// What a page's extracted text decides: a reader failure ends the check
/// with that failure, non-blank text ends it with `true`, blank text
/// leaves it to the next page.
pub open spec fn page_decision(t: Result<Seq<char>, Seq<char>>) -> Option<Result<bool, Seq<char>>> {
    match t {
        Err(m) => Some(Err(m)),
        Ok(s) => if trim(s).len() > 0 {
            Some(Ok(true))
        } else {
            None
        },
    }
}

/// A page's extraction outcome as values.
pub open spec fn outcome_view(t: Result<String, String>) -> Result<Seq<char>, Seq<char>> {
    match t {
        Ok(s) => Ok(s@),
        Err(m) => Err(m@),
    }
}

/// One step of the embedded-text check on a page's extraction outcome
/// (see `page_decision`); a reader failure becomes `SigocrError::Pdf`
/// with the reader's message.
pub fn text_check_step(text: &Result<String, String>) -> (s: Option<Result<bool, SigocrError>>)
    ensures
        match s {
            None => page_decision(outcome_view(*text)) is None,
            Some(Ok(b)) => page_decision(outcome_view(*text)) == Some(Ok::<bool, Seq<char>>(b)),
            Some(Err(e)) => e matches SigocrError::Pdf(m) && page_decision(outcome_view(*text))
                == Some(Err::<bool, Seq<char>>(m@)),
        },
{
    match text {
        Ok(t) => if has_visible_text(t) {
            Some(Ok(true))
        } else {
            None
        },
        Err(m) => Some(Err(SigocrError::Pdf(m.clone()))),
    }
}

/// The outcomes of reading pages, as values.
pub open spec fn outcomes_view(v: Seq<Result<String, String>>) -> Seq<Result<Seq<char>, Seq<char>>> {
    v.map_values(|t: Result<String, String>| outcome_view(t))
}

/// The embedded-text check over the outcomes of reading pages `0, 1, ...`
/// in order: the first page that decides (`page_decision`) gives the
/// result, and `false` when none does.
pub open spec fn pages_decision(outcomes: Seq<Result<Seq<char>, Seq<char>>>) -> Result<bool, Seq<char>>
    decreases outcomes.len(),
{
    if outcomes.len() == 0 {
        Ok(false)
    } else {
        match page_decision(outcomes[0]) {
            Some(d) => d,
            None => pages_decision(outcomes.drop_first()),
        }
    }
}

/// Decides the embedded-text check from the outcomes of reading pages in
/// order (see `pages_decision`); a reader failure becomes
/// `SigocrError::Pdf` with the reader's message.
pub fn decide_pages(outcomes: &Vec<Result<String, String>>) -> (r: Result<bool, SigocrError>)
    ensures
        match r {
            Ok(b) => pages_decision(outcomes_view(outcomes@)) == Ok::<bool, Seq<char>>(b),
            Err(e) => e matches SigocrError::Pdf(m) && pages_decision(outcomes_view(outcomes@))
                == Err::<bool, Seq<char>>(m@),
        },
{
    let ghost all = outcomes_view(outcomes@);
    assert(all.skip(0) =~= all);
    let mut i: usize = 0;
    while i < outcomes.len()
        invariant
            0 <= i <= outcomes@.len(),
            all == outcomes_view(outcomes@),
            pages_decision(all) == pages_decision(all.skip(i as int)),
        decreases outcomes@.len() - i,
    {
        proof {
            assert(all.skip(i as int)[0] == outcome_view(outcomes@[i as int]));
            assert(all.skip(i as int).drop_first() =~= all.skip(i + 1));
        }
        match text_check_step(&outcomes[i]) {
            Some(res) => {
                return res;
            },
            None => {},
        }
        i = i + 1;
    }
    proof {
        assert(all.skip(i as int).len() == 0);
    }
    Ok(false)
}

/// The number of pages the check reads for a document of `count` pages:
/// the first three at most.
pub open spec fn check_count(count: usize) -> int {
    if count < PAGES_TO_CHECK {
        count as int
    } else {
        PAGES_TO_CHECK as int
    }
}

/// `outs` are what `read` gave for pages `0, 1, ...`, in order, in the
/// check over a document of `count` pages: at most `min(count, 3)` of
/// them, every one but the last left the check undecided, and fewer than
/// `min(count, 3)` were read only when the last one decided.
pub open spec fn pages_read<F: Fn(usize) -> Result<String, String>>(
    read: F,
    count: usize,
    outs: Seq<Result<String, String>>,
) -> bool {
    &&& outs.len() <= check_count(count)
    &&& forall|t: int| 0 <= t < outs.len() ==> read.ensures((t as usize,), #[trigger] outs[t])
    &&& forall|t: int|
        0 <= t < outs.len() - 1 ==> page_decision(outcome_view(#[trigger] outs[t])) is None
    &&& outs.len() < check_count(count) ==> outs.len() > 0 && page_decision(
        outcome_view(outs.last()),
    ) is Some
}

/// `r` is the check's answer over the outcomes `outs` (`pages_decision`),
/// a reader failure given as `SigocrError::Pdf` with its message.
pub open spec fn answers(r: Result<bool, SigocrError>, outs: Seq<Result<String, String>>) -> bool {
    match r {
        Ok(b) => pages_decision(outcomes_view(outs)) == Ok::<bool, Seq<char>>(b),
        Err(e) => e matches SigocrError::Pdf(m) && pages_decision(outcomes_view(outs)) == Err::<
            bool,
            Seq<char>,
        >(m@),
    }
}

/// The embedded-text check over a page reader: reads pages `0, 1, ...` in
/// order, at most `min(count, 3)` of them (pages after the third are never
/// read), stops at the first page that decides, and answers the check over
/// what it read.
pub fn check_first_pages<F: Fn(usize) -> Result<String, String>>(count: usize, read: F) -> (r: Result<
    bool,
    SigocrError,
>)
    requires
        forall|i: usize| #[trigger] read.requires((i,)),
    ensures
        exists|outs: Seq<Result<String, String>>| #[trigger] pages_read(read, count, outs) && answers(r, outs),
{
    let n = pages_to_check(count);
    let mut outcomes: Vec<Result<String, String>> = Vec::new();
    let mut i: usize = 0;
    while i < n
        invariant
            0 <= i <= n,
            n == check_count(count),
            forall|j: usize| #[trigger] read.requires((j,)),
            outcomes@.len() == i,
            forall|t: int| 0 <= t < outcomes@.len() ==> read.ensures((t as usize,), #[trigger] outcomes@[t]),
            forall|t: int|
                0 <= t < outcomes@.len() ==> page_decision(outcome_view(#[trigger] outcomes@[t])) is None,
        decreases n - i,
    {
        let text = read(i);
        let decided = text_check_step(&text).is_some();
        let ghost before = outcomes@;
        outcomes.push(text);
        proof {
            assert forall|t: int| 0 <= t < outcomes@.len() implies read.ensures(
                (t as usize,),
                #[trigger] outcomes@[t],
            ) by {
                if t < before.len() {
                    assert(outcomes@[t] == before[t]);
                }
            }
        }
        if decided {
            let r = decide_pages(&outcomes);
            proof {
                assert forall|t: int| 0 <= t < outcomes@.len() - 1 implies page_decision(
                    outcome_view(#[trigger] outcomes@[t]),
                ) is None by {
                    assert(outcomes@[t] == before[t]);
                }
                assert(outcomes@.last() == text);
                assert(pages_read(read, count, outcomes@));
                assert(answers(r, outcomes@));
            }
            return r;
        }
        i = i + 1;
    }
    let r = decide_pages(&outcomes);
    proof {
        assert(pages_read(read, count, outcomes@));
        assert(answers(r, outcomes@));
    }
    r
}

proof fn lemma_undecided_pages(outs: Seq<Result<String, String>>)
    requires
        forall|t: int| 0 <= t < outs.len() ==> page_decision(outcome_view(#[trigger] outs[t])) is None,
    ensures
        pages_decision(outcomes_view(outs)) == Ok::<bool, Seq<char>>(false),
    decreases outs.len(),
{
    if outs.len() > 0 {
        let v = outcomes_view(outs);
        assert(v[0] == outcome_view(outs[0]));
        assert(v.drop_first() =~= outcomes_view(outs.drop_first()));
        assert forall|t: int| 0 <= t < outs.drop_first().len() implies page_decision(
            outcome_view(#[trigger] outs.drop_first()[t]),
        ) is None by {
            assert(outs.drop_first()[t] == outs[t + 1]);
        }
        lemma_undecided_pages(outs.drop_first());
    }
}

/// When the document has pages and the reader's first page always has
/// non-blank text, the check answers `true`; when every page the reader
/// gives is read without error and blank, the check answers `false`.
pub proof fn lemma_check_first_pages_answers<F: Fn(usize) -> Result<String, String>>(
    read: F,
    count: usize,
    r: Result<bool, SigocrError>,
)
    requires
        exists|outs: Seq<Result<String, String>>| #[trigger] pages_read(read, count, outs) && answers(r, outs),
    ensures
        (count >= 1 && forall|o: Result<String, String>| #[trigger] read.ensures((0usize,), o) ==> (o matches Ok(
            t,
        ) && trim(t@).len() > 0)) ==> r == Ok::<bool, SigocrError>(true),
        (forall|i: usize, o: Result<String, String>| #[trigger] read.ensures((i,), o) ==> (o matches Ok(t)
            && trim(t@).len() == 0)) ==> r == Ok::<bool, SigocrError>(false),
{
    let outs = choose|outs: Seq<Result<String, String>>| #[trigger] pages_read(read, count, outs) && answers(r, outs);
    let v = outcomes_view(outs);
    if count >= 1 && forall|o: Result<String, String>| #[trigger] read.ensures((0usize,), o) ==> (o matches Ok(
        t,
    ) && trim(t@).len() > 0) {
        assert(outs.len() > 0);
        assert(read.ensures((0usize,), outs[0]));
        assert(v[0] == outcome_view(outs[0]));
    }
    if forall|i: usize, o: Result<String, String>| #[trigger] read.ensures((i,), o) ==> (o matches Ok(t)
        && trim(t@).len() == 0) {
        assert forall|t: int| 0 <= t < outs.len() implies page_decision(outcome_view(#[trigger] outs[t])) is None by {
            assert(read.ensures((t as usize,), outs[t]));
        }
        lemma_undecided_pages(outs);
    }
}

/// Fast check: does this PDF have embedded text? It counts the pages and
/// runs `check_first_pages` with the document's page reader. What the
/// reader returns depends on the environment, so of the call itself the
/// contract states what holds whatever it returns: every error is a
/// `SigocrError::Pdf`.
pub fn has_embedded_text_bytes(data: &[u8]) -> (r: Result<bool, SigocrError>)
    ensures
        r matches Err(e) ==> e is Pdf,
{
    let doc = open_doc(data)?;
    let count = match pdf_page_count(&doc) {
        Ok(n) => n,
        Err(m) => return Err(SigocrError::Pdf(m)),
    };
    let read = |i: usize| -> (t: Result<String, String>) { pdf_extract_text(&doc, i) };
    check_first_pages(count, read)
}

} // verus!
