//! Page-range expressions.
//!
//! An expression is a list of terms separated by commas. A term is a page
//! number, or two page numbers with a hyphen between them, which stands for
//! every page from the first to the second. White space around a term and
//! around each number is ignored. The result lists the pages in the order in
//! which the expression names them; a page named twice is listed twice.

use crate::text::{
    is_numeral, lemma_split_concat, lemma_split_single_piece, lemma_split_without_separator,
    numeral_value, parse_numeral, split, split_bounds, to_chars, trim, trim_bounds,
};
use vstd::prelude::*;
use vstd::string::StrSliceExecFns;

verus! {

/// The largest page number that [`parse_page_range`] accepts. A page is an
/// indirect object of its file, and PDF allows a file no more indirect
/// objects than this.
pub const MAX_PAGE_NUMBER: usize = 8_388_607;

/// Why a page-range expression was rejected.
#[derive(Debug, Clone, PartialEq, Eq)]
pub enum ParseError {
    /// A term with a hyphen does not consist of two non-empty parts with one
    /// hyphen between them.
    MalformedRange,
    /// The given text stands where a page number is expected and is not one.
    InvalidNumber(String),
    /// A range whose first page, given first, is greater than its last.
    DescendingRange(usize, usize),
    /// A term is empty or holds white space only.
    EmptyOrInvalidTerm,
}

/// What a [`ParseError`] says, with the rejected text as a sequence of
/// characters.
pub enum ParseFailure {
    MalformedRange,
    InvalidNumber(Seq<char>),
    DescendingRange(usize, usize),
    EmptyOrInvalidTerm,
}

impl View for ParseError {
    type V = ParseFailure;

    open spec fn view(&self) -> ParseFailure {
        match self {
            ParseError::MalformedRange => ParseFailure::MalformedRange,
            ParseError::InvalidNumber(token) => ParseFailure::InvalidNumber(token@),
            ParseError::DescendingRange(start, end) => ParseFailure::DescendingRange(*start, *end),
            ParseError::EmptyOrInvalidTerm => ParseFailure::EmptyOrInvalidTerm,
        }
    }
}

/// The page number that `token` denotes: `token` is a numeral whose value is
/// at least 1 and at most `max`.
pub open spec fn page_number(token: Seq<char>, max: usize) -> Option<usize> {
    if is_numeral(token) && 1 <= numeral_value(token) <= max {
        Some(numeral_value(token) as usize)
    } else {
        None
    }
}

/// The pages from `start` to `end`, both included, in ascending order.
pub open spec fn expand(start: usize, end: usize) -> Seq<usize>
    recommends
        start <= end,
{
    Seq::new((end - start + 1) as nat, |i: int| (start + i) as usize)
}

/// What the range term `term` stands for; `term` is trimmed and holds a
/// hyphen.
pub open spec fn parse_range_term(term: Seq<char>, max: usize) -> Result<Seq<usize>, ParseFailure> {
    let parts = split(term, '-');
    if parts.len() != 2 || parts[0].len() == 0 || parts[1].len() == 0 {
        Err(ParseFailure::MalformedRange)
    } else {
        match page_number(trim(parts[0]), max) {
            None => Err(ParseFailure::InvalidNumber(parts[0])),
            Some(start) => match page_number(trim(parts[1]), max) {
                None => Err(ParseFailure::InvalidNumber(parts[1])),
                Some(end) => if start > end {
                    Err(ParseFailure::DescendingRange(start, end))
                } else {
                    Ok(expand(start, end))
                },
            },
        }
    }
}

/// What the term `term` of an expression stands for: the pages it names, or
/// why it is rejected.
pub open spec fn parse_term(term: Seq<char>, max: usize) -> Result<Seq<usize>, ParseFailure> {
    let trimmed = trim(term);
    if trimmed.len() == 0 {
        Err(ParseFailure::EmptyOrInvalidTerm)
    } else if trimmed.contains('-') {
        parse_range_term(trimmed, max)
    } else {
        match page_number(trimmed, max) {
            None => Err(ParseFailure::InvalidNumber(trimmed)),
            Some(page) => Ok(seq![page]),
        }
    }
}

/// One result followed by another: the pages of both, or the failure of the
/// first of the two that is one.
pub open spec fn followed_by(
    first: Result<Seq<usize>, ParseFailure>,
    second: Result<Seq<usize>, ParseFailure>,
) -> Result<Seq<usize>, ParseFailure> {
    match first {
        Err(failure) => Err(failure),
        Ok(pages) => match second {
            Err(failure) => Err(failure),
            Ok(more) => Ok(pages + more),
        },
    }
}

/// What the terms `terms` stand for, taken in order: the pages of all of
/// them one after another, or the failure of the first term that is rejected.
pub open spec fn parse_terms(terms: Seq<Seq<char>>, max: usize) -> Result<Seq<usize>, ParseFailure>
    decreases terms.len(),
{
    if terms.len() == 0 {
        Ok(Seq::empty())
    } else {
        followed_by(parse_terms(terms.drop_last(), max), parse_term(terms.last(), max))
    }
}

/// Whether `pages` is a list of one page number or more, each between 1 and
/// `max`.
pub open spec fn are_page_numbers(pages: Seq<usize>, max: usize) -> bool {
    pages.len() > 0 && forall|i: int| 0 <= i < pages.len() ==> 1 <= #[trigger] pages[i] <= max
}

/// What the expression `expression` stands for, where no page number may
/// exceed `max`.
pub open spec fn parse_expression(expression: Seq<char>, max: usize) -> Result<
    Seq<usize>,
    ParseFailure,
> {
    parse_terms(split(expression, ','), max)
}

/// The text of `range` from character `from` up to character `to`.
fn token(range: &str, from: usize, to: usize) -> (text: String)
    requires
        from <= to <= range@.len(),
    ensures
        text@ == range@.subrange(from as int, to as int),
{
    range.substring_char(from, to).to_owned()
}

/// Reads the slice `from..to` of `chars` as a page number of at most `max`.
fn parse_page_number(chars: &Vec<char>, from: usize, to: usize, max: usize) -> (page: Option<
    usize,
>)
    requires
        from <= to <= chars@.len(),
    ensures
        page == page_number(chars@.subrange(from as int, to as int), max),
{
    match parse_numeral(chars, from, to, max) {
        Some(value) => if value >= 1 {
            Some(value)
        } else {
            None
        },
        None => None,
    }
}

/// Appends to `pages` the pages from `start` to `end`, both included.
fn push_range(pages: &mut Vec<usize>, start: usize, end: usize)
    requires
        start <= end,
    ensures
        final(pages)@ == old(pages)@ + expand(start, end),
{
    let mut page: usize = start;
    while page < end
        invariant
            start <= page <= end,
            pages@ == old(pages)@ + Seq::new((page - start) as nat, |i: int| (start + i) as usize),
        decreases end - page,
    {
        pages.push(page);
        page = page + 1;
    }
    pages.push(end);
}

/// Reads the slice `from..to` of `chars`, the characters of `range`, as one
/// term and appends the pages it names to `pages`. Where the term is
/// rejected, `pages` stays as it is.
fn parse_term_into(
    range: &str,
    chars: &Vec<char>,
    from: usize,
    to: usize,
    max: usize,
    pages: &mut Vec<usize>,
) -> (result: Result<(), ParseError>)
    requires
        chars@ == range@,
        from <= to <= chars@.len(),
    ensures
        match result {
            Ok(()) => match parse_term(chars@.subrange(from as int, to as int), max) {
                Ok(more) => final(pages)@ == old(pages)@ + more,
                Err(_) => false,
            },
            Err(error) => final(pages)@ == old(pages)@ && parse_term(
                chars@.subrange(from as int, to as int),
                max,
            ) == Err::<Seq<usize>, ParseFailure>(error@),
        },
{
    let (a, b) = trim_bounds(chars, from, to);
    let ghost trimmed = chars@.subrange(a as int, b as int);
    if a == b {
        return Err(ParseError::EmptyOrInvalidTerm);
    }
    let parts = split_bounds(chars, a, b, '-');
    proof {
        lemma_split_single_piece(trimmed, '-');
    }
    if parts.len() == 1 {
        return match parse_page_number(chars, a, b, max) {
            Some(page) => {
                pages.push(page);
                Ok(())
            },
            None => Err(ParseError::InvalidNumber(token(range, a, b))),
        };
    }
    if parts.len() != 2 {
        return Err(ParseError::MalformedRange);
    }
    let (a0, b0) = parts[0];
    let (a1, b1) = parts[1];
    if a0 == b0 || a1 == b1 {
        return Err(ParseError::MalformedRange);
    }
    let (s0, e0) = trim_bounds(chars, a0, b0);
    let start = match parse_page_number(chars, s0, e0, max) {
        Some(page) => page,
        None => {
            return Err(ParseError::InvalidNumber(token(range, a0, b0)));
        },
    };
    let (s1, e1) = trim_bounds(chars, a1, b1);
    let end = match parse_page_number(chars, s1, e1, max) {
        Some(page) => page,
        None => {
            return Err(ParseError::InvalidNumber(token(range, a1, b1)));
        },
    };
    if start > end {
        return Err(ParseError::DescendingRange(start, end));
    }
    push_range(pages, start, end);
    Ok(())
}

/// Parses the page-range expression `range`, in which no page number may
/// exceed `max_page`.
///
/// Returns the pages that the expression names, in the order in which it
/// names them, or the failure of its first term that is rejected. A range
/// term contributes at most `max_page` pages.
pub fn parse_page_range_bounded(range: &str, max_page: usize) -> (result: Result<
    Vec<usize>,
    ParseError,
>)
    ensures
        match result {
            Ok(pages) => parse_expression(range@, max_page) == Ok::<Seq<usize>, ParseFailure>(
                pages@,
            ),
            Err(error) => parse_expression(range@, max_page) == Err::<Seq<usize>, ParseFailure>(
                error@,
            ),
        },
        result matches Ok(pages) ==> are_page_numbers(pages@, max_page),
{
    proof {
        lemma_parsed_pages(range@, max_page);
    }
    let chars = to_chars(range);
    let terms = split_bounds(&chars, 0, chars.len(), ',');
    let ghost pieces = split(range@, ',');
    assert(chars@.subrange(0, chars@.len() as int) =~= range@);
    let mut pages: Vec<usize> = Vec::new();
    let mut i: usize = 0;
    while i < terms.len()
        invariant
            0 <= i <= terms@.len(),
            chars@ == range@,
            pieces == split(range@, ','),
            terms@.len() == pieces.len(),
            forall|k: int|
                0 <= k < terms@.len() ==> 0 <= (#[trigger] terms@[k]).0 <= terms@[k].1
                    <= chars@.len(),
            forall|k: int|
                0 <= k < terms@.len() ==> chars@.subrange(
                    (#[trigger] terms@[k]).0 as int,
                    terms@[k].1 as int,
                ) == pieces[k],
            parse_terms(pieces.take(i as int), max_page) == Ok::<Seq<usize>, ParseFailure>(
                pages@,
            ),
        decreases terms@.len() - i,
    {
        let (from, to) = terms[i];
        proof {
            assert(pieces.take(i + 1).drop_last() =~= pieces.take(i as int));
            assert(pieces.take(i + 1).last() == pieces[i as int]);
            lemma_parse_terms_failure(pieces, i + 1, max_page);
        }
        match parse_term_into(range, &chars, from, to, max_page, &mut pages) {
            Ok(()) => {},
            Err(error) => {
                return Err(error);
            },
        }
        i = i + 1;
    }
    assert(pieces.take(i as int) =~= pieces);
    Ok(pages)
}

/// Parses the page-range expression `range`.
///
/// Returns the pages that the expression names, in the order in which it
/// names them, or the failure of its first term that is rejected. No page
/// number may exceed [`MAX_PAGE_NUMBER`].
pub fn parse_page_range(range: &str) -> (result: Result<Vec<usize>, ParseError>)
    ensures
        match result {
            Ok(pages) => parse_expression(range@, MAX_PAGE_NUMBER) == Ok::<
                Seq<usize>,
                ParseFailure,
            >(pages@),
            Err(error) => parse_expression(range@, MAX_PAGE_NUMBER) == Err::<
                Seq<usize>,
                ParseFailure,
            >(error@),
        },
        result matches Ok(pages) ==> are_page_numbers(pages@, MAX_PAGE_NUMBER),
{
    parse_page_range_bounded(range, MAX_PAGE_NUMBER)
}

/// Once the first `k` terms are rejected, so is the whole list, for the
/// same reason.
pub proof fn lemma_parse_terms_failure(terms: Seq<Seq<char>>, k: int, max: usize)
    requires
        0 <= k <= terms.len(),
    ensures
        parse_terms(terms.take(k), max) is Err ==> parse_terms(terms, max) == parse_terms(
            terms.take(k),
            max,
        ),
    decreases terms.len(),
{
    if k == terms.len() {
        assert(terms.take(k) =~= terms);
    } else {
        lemma_parse_terms_failure(terms.drop_last(), k, max);
        assert(terms.drop_last().take(k) =~= terms.take(k));
    }
}

/// The terms of two lists, one after the other, stand for the result of the
/// first list followed by the result of the second.
pub proof fn lemma_parse_terms_concat(a: Seq<Seq<char>>, b: Seq<Seq<char>>, max: usize)
    ensures
        parse_terms(a + b, max) == followed_by(parse_terms(a, max), parse_terms(b, max)),
    decreases b.len(),
{
    if b.len() == 0 {
        assert(a + b =~= a);
        if parse_terms(a, max) is Ok {
            assert(parse_terms(a, max)->Ok_0 + Seq::<usize>::empty() =~= parse_terms(a, max)->Ok_0);
        }
    } else {
        lemma_parse_terms_concat(a, b.drop_last(), max);
        assert((a + b).drop_last() =~= a + b.drop_last());
        assert((a + b).last() == b.last());
        let first = parse_terms(a, max);
        let middle = parse_terms(b.drop_last(), max);
        let last = parse_term(b.last(), max);
        if first is Ok && middle is Ok && last is Ok {
            assert((first->Ok_0 + middle->Ok_0) + last->Ok_0 =~= first->Ok_0 + (middle->Ok_0
                + last->Ok_0));
        }
    }
}

/// Two expressions with a comma between them stand for the result of the
/// first followed by the result of the second.
pub proof fn lemma_parse_expression_concat(a: Seq<char>, b: Seq<char>, max: usize)
    ensures
        parse_expression(a.push(',') + b, max) == followed_by(
            parse_expression(a, max),
            parse_expression(b, max),
        ),
{
    lemma_split_concat(a, b, ',');
    lemma_parse_terms_concat(split(a, ','), split(b, ','), max);
}

/// An expression without a comma is a single term.
pub proof fn lemma_parse_single_term(term: Seq<char>, max: usize)
    requires
        !term.contains(','),
    ensures
        parse_expression(term, max) == parse_term(term, max),
{
    lemma_split_without_separator(term, ',');
    let terms = split(term, ',');
    assert(terms.last() == term);
    assert(terms.drop_last() =~= Seq::<Seq<char>>::empty());
    assert(parse_terms(terms.drop_last(), max) == Ok::<Seq<usize>, ParseFailure>(Seq::empty()));
    if parse_term(term, max) is Ok {
        assert(Seq::<usize>::empty() + parse_term(term, max)->Ok_0 =~= parse_term(
            term,
            max,
        )->Ok_0);
    }
}

/// A term that is accepted names one page or more, each between 1 and
/// `max`.
pub proof fn lemma_term_pages(term: Seq<char>, max: usize)
    ensures
        parse_term(term, max) matches Ok(pages) ==> are_page_numbers(pages, max),
{
}

/// The terms of a list that is not empty and is accepted name one page or
/// more, each between 1 and `max`.
pub proof fn lemma_terms_pages(terms: Seq<Seq<char>>, max: usize)
    requires
        terms.len() > 0,
    ensures
        parse_terms(terms, max) matches Ok(pages) ==> are_page_numbers(pages, max),
    decreases terms.len(),
{
    lemma_term_pages(terms.last(), max);
    let front = parse_terms(terms.drop_last(), max);
    if terms.len() > 1 {
        lemma_terms_pages(terms.drop_last(), max);
    } else {
        assert(front == Ok::<Seq<usize>, ParseFailure>(Seq::empty()));
    }
    if let Ok(pages) = parse_terms(terms, max) {
        let more = parse_term(terms.last(), max)->Ok_0;
        assert(pages == front->Ok_0 + more);
        assert forall|i: int| 0 <= i < pages.len() implies 1 <= #[trigger] pages[i] <= max by {
            if i < front->Ok_0.len() {
                assert(pages[i] == front->Ok_0[i]);
            } else {
                assert(pages[i] == more[i - front->Ok_0.len()]);
            }
        }
    }
}

/// An expression that is accepted names one page or more, each between 1
/// and `max`.
pub proof fn lemma_parsed_pages(expression: Seq<char>, max: usize)
    ensures
        parse_expression(expression, max) matches Ok(pages) ==> are_page_numbers(pages, max),
{
    lemma_split_single_piece(expression, ',');
    lemma_terms_pages(split(expression, ','), max);
}

} // verus!
