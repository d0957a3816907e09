use graphcalc::scanner::{
    match_found, scan, scan_classified, scan_letters, scan_number, scan_word, LexError, TokenType,
};

fn chars(text: &str) -> Vec<char> {
    text.chars().collect()
}

fn number(text: &str) -> TokenType {
    TokenType::NumLiteral(String::from(text))
}

fn variable() -> TokenType {
    TokenType::Variable(String::from("x"))
}

fn function(name: &str) -> TokenType {
    TokenType::FunctionName(String::from(name))
}

fn constant(name: &str) -> TokenType {
    TokenType::Constant(String::from(name))
}

#[test]
fn test_scan_num() {
    let result = scan_number(&"123.45abc".chars().collect(), 0).unwrap().0;
    let expected = TokenType::NumLiteral(String::from("123.45"));
    assert_eq!(result, expected);
    match result {
        TokenType::NumLiteral(spelling) => assert_eq!(spelling.parse::<f64>().unwrap(), 123.45),
        _ => panic!("not a number"),
    }
}

#[test]
fn test_scan_letters() {
    let result = scan_letters(&"sin2x".chars().collect(), 0).unwrap().0;
    let expected = TokenType::FunctionName(String::from("sin"));
    assert_eq!(result, expected);
}

#[test]
fn test_scan() {
    let result = scan(&String::from("x * sin(x) / e")).unwrap();
    let x = TokenType::Variable(String::from("x"));
    let x2 = TokenType::Variable(String::from("x"));
    let mul = TokenType::Mul;
    let sin = TokenType::FunctionName(String::from("sin"));
    let lp = TokenType::LeftParen;
    let rp = TokenType::RightParen;
    let div = TokenType::Div;
    let e = TokenType::Constant(String::from("e"));
    let expected = vec![x, mul, sin, lp, x2, rp, div, e];
    assert_eq!(result, expected);
}

#[test]
fn scan_of_empty_text_is_empty() {
    assert_eq!(scan(&String::new()), Ok(vec![]));
    assert_eq!(scan(&String::from(" \t\n ")), Ok(vec![]));
}

#[test]
fn scan_reads_every_symbol() {
    let result = scan(&String::from("()*/^-+")).unwrap();
    let expected = vec![
        TokenType::LeftParen,
        TokenType::RightParen,
        TokenType::Mul,
        TokenType::Div,
        TokenType::Exp,
        TokenType::Sub,
        TokenType::Add,
    ];
    assert_eq!(result, expected);
}

#[test]
fn scan_keeps_the_order_of_the_text() {
    let result = scan(&String::from("2*sin(x)/e")).unwrap();
    let expected = vec![
        number("2"),
        TokenType::Mul,
        function("sin"),
        TokenType::LeftParen,
        variable(),
        TokenType::RightParen,
        TokenType::Div,
        constant("e"),
    ];
    assert_eq!(result, expected);
}

#[test]
fn scan_needs_no_whitespace_between_tokens() {
    let result = scan(&String::from("2x")).unwrap();
    assert_eq!(result, vec![number("2"), variable()]);
    let result = scan(&String::from("pix")).unwrap();
    assert_eq!(result, vec![constant("pi"), variable()]);
    let result = scan(&String::from("xe")).unwrap();
    assert_eq!(result, vec![variable(), constant("e")]);
}

#[test]
fn scan_recognizes_every_word() {
    for name in ["sin", "cos", "tan", "log", "ln", "sqrt", "abs"] {
        assert_eq!(scan(&String::from(name)), Ok(vec![function(name)]));
    }
    for name in ["e", "pi"] {
        assert_eq!(scan(&String::from(name)), Ok(vec![constant(name)]));
    }
    assert_eq!(scan(&String::from("x")), Ok(vec![variable()]));
}

#[test]
fn scan_rejects_a_character_that_starts_no_token() {
    assert_eq!(scan(&String::from("2 $ 3")), Err(LexError::InvalidCharacter));
    assert_eq!(scan(&String::from("x = 1")), Err(LexError::InvalidCharacter));
    assert_eq!(scan(&String::from(".5")), Err(LexError::InvalidCharacter));
}

#[test]
fn scan_rejects_two_decimal_points() {
    assert_eq!(scan(&String::from("1.2.3")), Err(LexError::InvalidNumberLiteral));
    assert_eq!(scan(&String::from("1..2")), Err(LexError::InvalidNumberLiteral));
    assert_eq!(scan(&String::from("x + 3.1.")), Err(LexError::InvalidNumberLiteral));
}

#[test]
fn scan_rejects_letters_that_spell_no_word() {
    assert_eq!(scan(&String::from("foo")), Err(LexError::UnrecognizedWord));
    assert_eq!(scan(&String::from("y")), Err(LexError::UnrecognizedWord));
}

#[test]
fn scan_rejects_a_word_that_is_cut_short() {
    assert_eq!(scan(&String::from("s")), Err(LexError::UnrecognizedWord));
    assert_eq!(scan(&String::from("si(x)")), Err(LexError::UnrecognizedWord));
    assert_eq!(scan(&String::from("sq")), Err(LexError::UnrecognizedWord));
    assert_eq!(scan(&String::from("p")), Err(LexError::UnrecognizedWord));
}

#[test]
fn scan_reports_the_first_error() {
    assert_eq!(scan(&String::from("foo $")), Err(LexError::UnrecognizedWord));
    assert_eq!(scan(&String::from("$ foo")), Err(LexError::InvalidCharacter));
    assert_eq!(scan(&String::from("1.2.3 $")), Err(LexError::InvalidNumberLiteral));
}

#[test]
fn scan_number_stops_at_the_first_other_character() {
    let (token, resume) = scan_number(&chars("123.45abc"), 0).unwrap();
    assert_eq!(token, number("123.45"));
    assert_eq!(resume, 6);
    let (token, resume) = scan_number(&chars("7+8"), 2).unwrap();
    assert_eq!(token, number("8"));
    assert_eq!(resume, 3);
    let (token, resume) = scan_number(&chars("5."), 0).unwrap();
    assert_eq!(token, number("5."));
    assert_eq!(resume, 2);
}

#[test]
fn scan_number_allows_one_decimal_point() {
    assert_eq!(scan_number(&chars("0.5"), 0), Ok((number("0.5"), 3)));
    assert_eq!(scan_number(&chars("0.5.5"), 0), Err(LexError::InvalidNumberLiteral));
    assert_eq!(scan_number(&chars("0.5 .5"), 0), Ok((number("0.5"), 3)));
}

#[test]
fn scan_letters_stops_at_the_first_word() {
    assert_eq!(scan_letters(&chars("sin2x"), 0), Ok((function("sin"), 3)));
    assert_eq!(scan_letters(&chars("sinx"), 0), Ok((function("sin"), 3)));
    assert_eq!(scan_letters(&chars("ex"), 0), Ok((constant("e"), 1)));
    assert_eq!(scan_letters(&chars("2*sqrt"), 2), Ok((function("sqrt"), 6)));
    assert_eq!(scan_letters(&chars("lnx"), 0), Ok((function("ln"), 2)));
    assert_eq!(scan_letters(&chars("logx"), 0), Ok((function("log"), 3)));
}

#[test]
fn scan_letters_gives_up_when_no_word_fits() {
    assert_eq!(scan_letters(&chars("sun"), 0), Err(LexError::UnrecognizedWord));
    assert_eq!(scan_letters(&chars("si"), 0), Err(LexError::UnrecognizedWord));
    assert_eq!(scan_letters(&chars("si n"), 0), Err(LexError::UnrecognizedWord));
    assert_eq!(scan_letters(&chars("abc"), 0), Err(LexError::UnrecognizedWord));
    assert_eq!(scan_letters(&chars("x"), 1), Err(LexError::UnrecognizedWord));
    assert_eq!(scan_letters(&chars("x"), 7), Err(LexError::UnrecognizedWord));
}

#[test]
fn scan_treats_letters_of_other_scripts_as_letters() {
    assert_eq!(scan(&String::from("\u{3c0}")), Err(LexError::UnrecognizedWord));
    assert_eq!(scan(&String::from("x\u{a0}+\u{2003}x")), Ok(vec![variable(), TokenType::Add, variable()]));
}

#[test]
fn match_found_looks_in_every_list() {
    let candidates = vec![vec!["e", "pi"], vec!["sin", "sqrt"], vec!["x"]];
    assert!(match_found(&candidates, &String::from("pi")));
    assert!(match_found(&candidates, &String::from("sqrt")));
    assert!(match_found(&candidates, &String::from("x")));
    assert!(!match_found(&candidates, &String::from("s")));
    assert!(!match_found(&candidates, &String::from("sinx")));
    assert!(!match_found(&candidates, &String::from("")));
    assert!(!match_found(&vec![], &String::from("x")));
    assert!(!match_found(&vec![vec![], vec![]], &String::from("x")));
}

#[test]
fn duplicate_gives_an_equal_token() {
    for token in [number("1.5"), variable(), function("tan"), constant("pi"), TokenType::Exp] {
        assert_eq!(token.duplicate(), token);
    }
}

#[test]
fn to_text_spells_a_token() {
    assert_eq!(number("123.45").to_text(), "123.45");
    assert_eq!(variable().to_text(), "x");
    assert_eq!(function("sqrt").to_text(), "sqrt");
    assert_eq!(constant("pi").to_text(), "pi");
    assert_eq!(TokenType::LeftParen.to_text(), "(");
    assert_eq!(TokenType::RightParen.to_text(), ")");
    assert_eq!(TokenType::Mul.to_text(), "*");
    assert_eq!(TokenType::Div.to_text(), "/");
    assert_eq!(TokenType::Exp.to_text(), "^");
    assert_eq!(TokenType::Sub.to_text(), "-");
    assert_eq!(TokenType::Add.to_text(), "+");
}

#[test]
fn to_text_of_the_tokens_gives_the_text_back() {
    let text = "2*sin(x)/e-3.5^(x+pi)";
    let tokens = scan(&String::from(text)).unwrap();
    let spelled: String = tokens.iter().map(|t| t.to_text()).collect();
    assert_eq!(spelled, text);
}

#[test]
fn scan_takes_only_the_ten_digits_for_digits() {
    assert_eq!(scan(&String::from("\u{663}")), Err(LexError::InvalidCharacter));
    assert_eq!(scan(&String::from("1\u{663}")), Err(LexError::InvalidCharacter));
    assert_eq!(scan(&String::from("\u{b2}")), Err(LexError::InvalidCharacter));
    assert_eq!(scan(&String::from("0123456789")), Ok(vec![number("0123456789")]));
}

fn ascii_blanks(text: &str) -> Vec<bool> {
    text.chars().map(|c| c == ' ').collect()
}

fn ascii_letters(text: &str) -> Vec<bool> {
    text.chars().map(|c| c.is_ascii_lowercase()).collect()
}

#[test]
fn scan_classified_goes_by_the_flags_it_is_given() {
    let text = "2 * sin(x)";
    let expected = vec![
        number("2"),
        TokenType::Mul,
        function("sin"),
        TokenType::LeftParen,
        variable(),
        TokenType::RightParen,
    ];
    assert_eq!(
        scan_classified(&chars(text), &ascii_blanks(text), &ascii_letters(text)),
        Ok(expected)
    );
    assert_eq!(
        scan_classified(&chars("("), &vec![false], &vec![false]),
        Ok(vec![TokenType::LeftParen])
    );
    assert_eq!(scan_classified(&chars(""), &vec![], &vec![]), Ok(vec![]));
}

#[test]
fn scan_classified_takes_a_flagged_character_for_white_space() {
    assert_eq!(
        scan_classified(&chars("x_x"), &vec![false, true, false], &vec![true, false, true]),
        Ok(vec![variable(), variable()])
    );
    assert_eq!(
        scan_classified(&chars("x x"), &vec![false, false, false], &vec![true, false, true]),
        Err(LexError::InvalidCharacter)
    );
    assert_eq!(
        scan_classified(&chars("(x)"), &vec![true, false, true], &vec![false, true, false]),
        Ok(vec![variable()])
    );
}

#[test]
fn scan_classified_takes_an_unflagged_character_for_no_letter() {
    assert_eq!(
        scan_classified(&chars("x"), &vec![false], &vec![false]),
        Err(LexError::InvalidCharacter)
    );
    assert_eq!(
        scan_classified(&chars("x"), &vec![], &vec![]),
        Err(LexError::InvalidCharacter)
    );
    assert_eq!(
        scan_classified(&chars("sin"), &vec![false; 3], &vec![true, true, false]),
        Err(LexError::UnrecognizedWord)
    );
    assert_eq!(
        scan_classified(&chars("2+3"), &vec![], &vec![]),
        Ok(vec![number("2"), TokenType::Add, number("3")])
    );
}

#[test]
fn scan_word_stops_where_the_letters_stop() {
    assert_eq!(
        scan_word(&chars("sin2x"), &ascii_letters("sin2x"), 0),
        Ok((function("sin"), 3))
    );
    assert_eq!(
        scan_word(&chars("sin"), &vec![true, true], 0),
        Err(LexError::UnrecognizedWord)
    );
    assert_eq!(
        scan_word(&chars("ln"), &vec![false, true], 0),
        Err(LexError::UnrecognizedWord)
    );
    assert_eq!(scan_word(&chars("pi"), &vec![true, true], 0), Ok((constant("pi"), 2)));
    assert_eq!(scan_word(&chars("x"), &vec![true], 1), Err(LexError::UnrecognizedWord));
}

#[test]
fn scan_agrees_with_scan_classified_on_plain_text() {
    for text in ["x * sin(x) / e", "2*sqrt(abs(x))-ln(pi)", "1.5 ^ x", "foo", "1.2.3", "2 $"] {
        assert_eq!(
            scan(&String::from(text)),
            scan_classified(&chars(text), &ascii_blanks(text), &ascii_letters(text))
        );
    }
}
