use pdf_page_extractor::range::{
    parse_page_range, parse_page_range_bounded, ParseError, MAX_PAGE_NUMBER,
};

fn invalid(token: &str) -> Result<Vec<usize>, ParseError> {
    Err(ParseError::InvalidNumber(token.to_string()))
}

#[test]
fn parses_ranges_and_single_pages() {
    assert_eq!(parse_page_range("1-3,5,7-9"), Ok(vec![1, 2, 3, 5, 7, 8, 9]));
}

#[test]
fn empty_expression_is_rejected() {
    assert_eq!(parse_page_range(""), Err(ParseError::EmptyOrInvalidTerm));
}

#[test]
fn descending_range_is_rejected() {
    assert_eq!(parse_page_range("3-1"), Err(ParseError::DescendingRange(3, 1)));
}

#[test]
fn text_in_place_of_a_number_is_rejected() {
    assert_eq!(parse_page_range("a-3"), invalid("a"));
    assert_eq!(parse_page_range("x"), invalid("x"));
    assert_eq!(parse_page_range("3-b"), invalid("b"));
}

#[test]
fn single_page() {
    assert_eq!(parse_page_range("5"), Ok(vec![5]));
}

#[test]
fn range_of_one_page() {
    assert_eq!(parse_page_range("4-4"), Ok(vec![4]));
}

#[test]
fn order_and_repeats_are_kept() {
    assert_eq!(parse_page_range("3,1,3,2-3,1"), Ok(vec![3, 1, 3, 2, 3, 1]));
}

#[test]
fn white_space_around_terms_and_numbers_is_ignored() {
    assert_eq!(parse_page_range(" 1 - 3 , 5 ,\t7-9\n"), Ok(vec![1, 2, 3, 5, 7, 8, 9]));
    assert_eq!(parse_page_range("\u{a0}2\u{3000}"), Ok(vec![2]));
    assert_eq!(parse_page_range("\u{2003}6 -\u{85}7"), Ok(vec![6, 7]));
}

#[test]
fn white_space_inside_a_number_is_rejected() {
    assert_eq!(parse_page_range("1 2"), invalid("1 2"));
    assert_eq!(parse_page_range("1-2 3"), invalid("2 3"));
}

#[test]
fn plus_sign_and_leading_zeros_are_accepted() {
    assert_eq!(parse_page_range("+3"), Ok(vec![3]));
    assert_eq!(parse_page_range("007"), Ok(vec![7]));
    assert_eq!(parse_page_range("+1-+02"), Ok(vec![1, 2]));
}

#[test]
fn sign_without_digits_is_rejected() {
    assert_eq!(parse_page_range("+"), invalid("+"));
    assert_eq!(parse_page_range("++1"), invalid("++1"));
}

#[test]
fn page_zero_is_no_page_number() {
    assert_eq!(parse_page_range("0"), invalid("0"));
    assert_eq!(parse_page_range("0-3"), invalid("0"));
    assert_eq!(parse_page_range("000"), invalid("000"));
}

#[test]
fn other_digits_are_rejected() {
    assert_eq!(parse_page_range("\u{663}"), invalid("\u{663}"));
    assert_eq!(parse_page_range("1.5"), invalid("1.5"));
    assert_eq!(parse_page_range("1_0"), invalid("1_0"));
}

#[test]
fn empty_term_is_rejected() {
    assert_eq!(parse_page_range("1,,2"), Err(ParseError::EmptyOrInvalidTerm));
    assert_eq!(parse_page_range("1, ,2"), Err(ParseError::EmptyOrInvalidTerm));
    assert_eq!(parse_page_range("1,"), Err(ParseError::EmptyOrInvalidTerm));
    assert_eq!(parse_page_range(",1"), Err(ParseError::EmptyOrInvalidTerm));
    assert_eq!(parse_page_range("   "), Err(ParseError::EmptyOrInvalidTerm));
}

#[test]
fn range_without_two_parts_is_malformed() {
    assert_eq!(parse_page_range("1-2-3"), Err(ParseError::MalformedRange));
    assert_eq!(parse_page_range("-3"), Err(ParseError::MalformedRange));
    assert_eq!(parse_page_range("3-"), Err(ParseError::MalformedRange));
    assert_eq!(parse_page_range("-"), Err(ParseError::MalformedRange));
    assert_eq!(parse_page_range("1--3"), Err(ParseError::MalformedRange));
    assert_eq!(parse_page_range(" - 3"), Err(ParseError::MalformedRange));
}

#[test]
fn rejected_part_of_a_range_is_reported_as_written() {
    assert_eq!(parse_page_range("a - 3"), invalid("a "));
    assert_eq!(parse_page_range("1 - b"), invalid(" b"));
    assert_eq!(parse_page_range("  x  "), invalid("x"));
}

#[test]
fn first_rejected_term_decides() {
    assert_eq!(parse_page_range("1,x,3-1"), invalid("x"));
    assert_eq!(parse_page_range("3-1,x"), Err(ParseError::DescendingRange(3, 1)));
    assert_eq!(parse_page_range("1-2-3,"), Err(ParseError::MalformedRange));
    assert_eq!(parse_page_range("a-b"), invalid("a"));
}

#[test]
fn largest_page_number() {
    assert_eq!(MAX_PAGE_NUMBER, 8_388_607);
    assert_eq!(parse_page_range("8388607"), Ok(vec![8_388_607]));
    assert_eq!(parse_page_range("8388608"), invalid("8388608"));
    assert_eq!(parse_page_range("8388606-8388608"), invalid("8388608"));
}

#[test]
fn huge_numbers_are_rejected_at_once() {
    assert_eq!(parse_page_range("1-999999999"), invalid("999999999"));
    assert_eq!(
        parse_page_range("99999999999999999999999999999999999999999"),
        invalid("99999999999999999999999999999999999999999")
    );
    assert_eq!(parse_page_range("18446744073709551616"), invalid("18446744073709551616"));
}

#[test]
fn whole_range_up_to_the_largest_page_number() {
    let pages = parse_page_range("1-8388607").unwrap();
    assert_eq!(pages.len(), 8_388_607);
    assert_eq!(pages[0], 1);
    assert_eq!(pages[8_388_606], 8_388_607);
}

#[test]
fn bound_is_configurable() {
    assert_eq!(parse_page_range_bounded("1-3,5", 5), Ok(vec![1, 2, 3, 5]));
    assert_eq!(parse_page_range_bounded("1-3,6", 5), invalid("6"));
    assert_eq!(parse_page_range_bounded("1", 0), invalid("1"));
    assert_eq!(
        parse_page_range_bounded("18446744073709551615", usize::MAX),
        Ok(vec![usize::MAX])
    );
    assert_eq!(
        parse_page_range_bounded("18446744073709551616", usize::MAX),
        invalid("18446744073709551616")
    );
    assert_eq!(
        parse_page_range_bounded("18446744073709551615-18446744073709551615", usize::MAX),
        Ok(vec![usize::MAX])
    );
}

#[test]
fn same_expression_same_result() {
    assert_eq!(parse_page_range("2-4,1"), parse_page_range("2-4,1"));
}

#[test]
fn joined_expressions_name_the_pages_of_both() {
    let mut both = parse_page_range("1-3,9").unwrap();
    both.extend(parse_page_range("4,2-3").unwrap());
    assert_eq!(parse_page_range("1-3,9,4,2-3"), Ok(both));
}
