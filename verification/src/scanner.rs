//! The lexer: from text to tokens.
//!
//! A token is one of the symbols `( ) * / ^ - +`, a number, or a word of a
//! fixed vocabulary. `tokens_of` says what the tokens of a text are, given
//! which of its characters are white space and which are letters, and
//! `scan_classified` computes them. `scan` asks the standard library about
//! each character and goes on from there; the library's answers go by the
//! names `whitespace` and `alphabetic`.
use vstd::prelude::*;

verus! {

/// One lexical unit of a formula. Words and numerals keep their spelling.
#[derive(Debug, PartialEq, Clone)]
pub enum TokenType {
    Variable(String),
    FunctionName(String),
    NumLiteral(String),
    Constant(String),
    LeftParen,
    RightParen,
    Mul,
    Div,
    Exp,
    Sub,
    Add,
}

/// What a token is, as mathematics: the same variants over character sequences.
pub enum Token {
    Variable(Seq<char>),
    FunctionName(Seq<char>),
    NumLiteral(Seq<char>),
    Constant(Seq<char>),
    LeftParen,
    RightParen,
    Mul,
    Div,
    Exp,
    Sub,
    Add,
}

impl View for TokenType {
    type V = Token;

    open spec fn view(&self) -> Token {
        match self {
            TokenType::Variable(s) => Token::Variable(s@),
            TokenType::FunctionName(s) => Token::FunctionName(s@),
            TokenType::NumLiteral(s) => Token::NumLiteral(s@),
            TokenType::Constant(s) => Token::Constant(s@),
            TokenType::LeftParen => Token::LeftParen,
            TokenType::RightParen => Token::RightParen,
            TokenType::Mul => Token::Mul,
            TokenType::Div => Token::Div,
            TokenType::Exp => Token::Exp,
            TokenType::Sub => Token::Sub,
            TokenType::Add => Token::Add,
        }
    }
}

/// The tokens of a vector, as mathematics.
pub open spec fn tokens_view(tokens: Seq<TokenType>) -> Seq<Token> {
    tokens.map_values(|t: TokenType| t@)
}

/// How a token is written.
pub open spec fn spelling(token: Token) -> Seq<char> {
    match token {
        Token::Variable(s) => s,
        Token::FunctionName(s) => s,
        Token::NumLiteral(s) => s,
        Token::Constant(s) => s,
        Token::LeftParen => seq!['('],
        Token::RightParen => seq![')'],
        Token::Mul => seq!['*'],
        Token::Div => seq!['/'],
        Token::Exp => seq!['^'],
        Token::Sub => seq!['-'],
        Token::Add => seq!['+'],
    }
}

impl TokenType {
    /// The token as text: a word or a number as it is spelled, a symbol as its
    /// character.
    pub fn to_text(&self) -> (text: String)
        ensures
            text@ == spelling(self@),
    {
        proof {
            reveal_strlit("(");
            reveal_strlit(")");
            reveal_strlit("*");
            reveal_strlit("/");
            reveal_strlit("^");
            reveal_strlit("-");
            reveal_strlit("+");
            assert("("@ =~= seq!['(']);
            assert(")"@ =~= seq![')']);
            assert("*"@ =~= seq!['*']);
            assert("/"@ =~= seq!['/']);
            assert("^"@ =~= seq!['^']);
            assert("-"@ =~= seq!['-']);
            assert("+"@ =~= seq!['+']);
        }
        match self {
            TokenType::Variable(s) => s.clone(),
            TokenType::FunctionName(s) => s.clone(),
            TokenType::NumLiteral(s) => s.clone(),
            TokenType::Constant(s) => s.clone(),
            TokenType::LeftParen => "(".to_owned(),
            TokenType::RightParen => ")".to_owned(),
            TokenType::Mul => "*".to_owned(),
            TokenType::Div => "/".to_owned(),
            TokenType::Exp => "^".to_owned(),
            TokenType::Sub => "-".to_owned(),
            TokenType::Add => "+".to_owned(),
        }
    }

    /// A copy that denotes the same token.
    pub fn duplicate(&self) -> (r: TokenType)
        ensures
            r@ == self@,
    {
        match self {
            TokenType::Variable(s) => TokenType::Variable(s.clone()),
            TokenType::FunctionName(s) => TokenType::FunctionName(s.clone()),
            TokenType::NumLiteral(s) => TokenType::NumLiteral(s.clone()),
            TokenType::Constant(s) => TokenType::Constant(s.clone()),
            TokenType::LeftParen => TokenType::LeftParen,
            TokenType::RightParen => TokenType::RightParen,
            TokenType::Mul => TokenType::Mul,
            TokenType::Div => TokenType::Div,
            TokenType::Exp => TokenType::Exp,
            TokenType::Sub => TokenType::Sub,
            TokenType::Add => TokenType::Add,
        }
    }
}

/// Why a text is not a sequence of tokens.
#[derive(Debug, PartialEq, Eq, Clone, Copy, Structural)]
pub enum LexError {
    /// A character that starts no token.
    InvalidCharacter,
    /// A number with more than one decimal point.
    InvalidNumberLiteral,
    /// Letters that spell no constant, function or variable.
    UnrecognizedWord,
}

/// What `char::is_whitespace` answers for a character.
pub uninterp spec fn whitespace(c: char) -> bool;

/// What `char::is_alphabetic` answers for a character.
pub uninterp spec fn alphabetic(c: char) -> bool;

/// Taken on trust, not proved: `char::is_whitespace`, which tells whether
/// Unicode lists the character as white space, answers by the character
/// alone. Its answer is what `whitespace` names.
pub assume_specification[ char::is_whitespace ](c: char) -> (r: bool)
    ensures
        r == whitespace(c),
;

/// Taken on trust, not proved: `char::is_alphabetic`, which tells whether
/// Unicode lists the character as alphabetic, answers by the character
/// alone. Its answer is what `alphabetic` names.
pub assume_specification[ char::is_alphabetic ](c: char) -> (r: bool)
    ensures
        r == alphabetic(c),
;

/// Taken on trust, not proved: `String::push` appends the character to the
/// end of the string and changes nothing else of it.
pub assume_specification[ String::push ](s: &mut String, c: char)
    ensures
        final(s)@ == old(s)@.push(c),
;

/// Asks `str::starts_with` whether `word` begins with `prefix`. Taken on
/// trust, not proved: the answer is true exactly when the characters of
/// `prefix` are the first characters of `word`, in the same order.
#[verifier::external_body]
fn has_prefix(word: &str, prefix: &str) -> (r: bool)
    ensures
        r == prefix@.is_prefix_of(word@),
{
    word.starts_with(prefix)
}

/// The named constants.
pub open spec fn constants() -> Seq<Seq<char>> {
    seq![seq!['e'], seq!['p', 'i']]
}

/// The named functions.
pub open spec fn functions() -> Seq<Seq<char>> {
    seq![
        seq!['s', 'i', 'n'],
        seq!['c', 'o', 's'],
        seq!['t', 'a', 'n'],
        seq!['l', 'o', 'g'],
        seq!['l', 'n'],
        seq!['s', 'q', 'r', 't'],
        seq!['a', 'b', 's'],
    ]
}

/// The variables.
pub open spec fn variables() -> Seq<Seq<char>> {
    seq![seq!['x']]
}

/// Whether `word` is spelled like a constant, a function or a variable.
pub open spec fn recognized(word: Seq<char>) -> bool {
    constants().contains(word) || functions().contains(word) || variables().contains(word)
}

/// The vocabulary that the scanner knows, list by list: constants, functions,
/// variables.
pub open spec fn vocabulary(k: int) -> Seq<Seq<char>> {
    if k == 0 {
        constants()
    } else if k == 1 {
        functions()
    } else {
        variables()
    }
}

/// The words of a list, as character sequences.
pub open spec fn words(list: Seq<&str>) -> Seq<Seq<char>> {
    list.map_values(|s: &str| s@)
}

/// Whether `c` is one of the ten digits `0` to `9`.
pub open spec fn digit(c: char) -> bool {
    '0' <= c <= '9'
}

/// The numeral that starts at `i`: the longest run of digits and decimal
/// points from there on.
pub open spec fn numeral(input: Seq<char>, i: int) -> Seq<char>
    decreases input.len() - i,
{
    if 0 <= i < input.len() && (digit(input[i]) || input[i] == '.') {
        seq![input[i]] + numeral(input, i + 1)
    } else {
        Seq::empty()
    }
}

/// The number of decimal points in `s`.
pub open spec fn points(s: Seq<char>) -> nat
    decreases s.len(),
{
    if s.len() == 0 {
        0
    } else {
        points(s.drop_last()) + if s.last() == '.' {
            1nat
        } else {
            0nat
        }
    }
}

/// The number token that starts at `i`, and where it ends. A numeral with two
/// decimal points or more is no number.
pub open spec fn numeral_at(input: Seq<char>, i: int) -> Result<(Token, int), LexError> {
    let spelling = numeral(input, i);
    if points(spelling) > 1 {
        Err(LexError::InvalidNumberLiteral)
    } else {
        Ok((Token::NumLiteral(spelling), i + spelling.len()))
    }
}

/// Whether the flag of place `i` is set. A place without a flag has none set.
pub open spec fn marked(flags: Seq<bool>, i: int) -> bool {
    0 <= i < flags.len() && flags[i]
}

/// Where the word that starts at `start` ends, looking at ends from `end` on:
/// at the first end that makes a recognized word, as long as only letters
/// were passed on the way there. `letters` tells which characters are
/// letters.
pub open spec fn word_end(input: Seq<char>, letters: Seq<bool>, start: int, end: int) -> Option<int>
    decreases input.len() + 1 - end,
{
    if !(0 <= start < end <= input.len()) || !marked(letters, end - 1) {
        None
    } else if recognized(input.subrange(start, end)) {
        Some(end)
    } else {
        word_end(input, letters, start, end + 1)
    }
}

/// The token of a recognized word.
pub open spec fn word_token(word: Seq<char>) -> Token {
    if constants().contains(word) {
        Token::Constant(word)
    } else if functions().contains(word) {
        Token::FunctionName(word)
    } else {
        Token::Variable(word)
    }
}

/// The word token that starts at `i`, and where it ends: the shortest
/// recognized word there, even where a longer one would fit as well.
pub open spec fn word_at(input: Seq<char>, letters: Seq<bool>, i: int) -> Result<(Token, int), LexError> {
    match word_end(input, letters, i, i + 1) {
        Some(end) => Ok((word_token(input.subrange(i, end)), end)),
        None => Err(LexError::UnrecognizedWord),
    }
}

/// The token that is a single character, if `c` is one.
pub open spec fn symbol(c: char) -> Option<Token> {
    if c == '(' {
        Some(Token::LeftParen)
    } else if c == ')' {
        Some(Token::RightParen)
    } else if c == '*' {
        Some(Token::Mul)
    } else if c == '/' {
        Some(Token::Div)
    } else if c == '^' {
        Some(Token::Exp)
    } else if c == '-' {
        Some(Token::Sub)
    } else if c == '+' {
        Some(Token::Add)
    } else {
        None
    }
}

/// The token that starts at `i`, a position that holds no white space, and
/// where it ends: a symbol, a number where a digit stands, a word where a
/// letter stands.
pub open spec fn token_at(input: Seq<char>, letters: Seq<bool>, i: int) -> Result<(Token, int), LexError> {
    let c = input[i];
    if symbol(c) is Some {
        Ok((symbol(c)->0, i + 1))
    } else if digit(c) {
        numeral_at(input, i)
    } else if marked(letters, i) {
        word_at(input, letters, i)
    } else {
        Err(LexError::InvalidCharacter)
    }
}

/// A word ends behind the end that the search started from, or later.
pub proof fn lemma_word_end_bounds(input: Seq<char>, letters: Seq<bool>, start: int, end: int)
    ensures
        word_end(input, letters, start, end) is Some ==> end <= word_end(input, letters, start, end)->0
            <= input.len() && start < end,
    decreases input.len() + 1 - end,
{
    if 0 <= start < end <= input.len() && marked(letters, end - 1) && !recognized(
        input.subrange(start, end),
    ) {
        lemma_word_end_bounds(input, letters, start, end + 1);
    }
}

/// A numeral ends within the text.
pub proof fn lemma_numeral_within(input: Seq<char>, i: int)
    requires
        0 <= i <= input.len(),
    ensures
        i + numeral(input, i).len() <= input.len(),
        numeral(input, i) == input.subrange(i, i + numeral(input, i).len()),
    decreases input.len() - i,
{
    if i < input.len() && (digit(input[i]) || input[i] == '.') {
        lemma_numeral_within(input, i + 1);
        assert(numeral(input, i) =~= input.subrange(i, i + numeral(input, i).len()));
    } else {
        assert(numeral(input, i) =~= input.subrange(i, i));
    }
}

/// A token is at least one character long and ends within the text.
pub proof fn lemma_token_at_advances(input: Seq<char>, letters: Seq<bool>, i: int)
    requires
        0 <= i < input.len(),
    ensures
        token_at(input, letters, i) is Ok ==> i < token_at(input, letters, i)->Ok_0.1 <= input.len(),
{
    lemma_word_end_bounds(input, letters, i, i + 1);
    lemma_numeral_within(input, i);
}

/// The tokens of the text from `i` on, or the first error met. `blanks` tells
/// which characters are white space, `letters` which are letters.
pub open spec fn tokens_from(
    input: Seq<char>,
    blanks: Seq<bool>,
    letters: Seq<bool>,
    i: int,
) -> Result<Seq<Token>, LexError>
    decreases input.len() - i,
{
    if i < 0 || i >= input.len() {
        Ok(Seq::empty())
    } else if marked(blanks, i) {
        tokens_from(input, blanks, letters, i + 1)
    } else {
        match token_at(input, letters, i) {
            Err(e) => Err(e),
            Ok((token, end)) => {
                proof {
                    lemma_token_at_advances(input, letters, i);
                }
                match tokens_from(input, blanks, letters, end) {
                    Err(e) => Err(e),
                    Ok(rest) => Ok(seq![token] + rest),
                }
            },
        }
    }
}

/// The tokens of a text, in the order of the text, given which of its
/// characters are white space and which are letters. An empty text has none.
pub open spec fn tokens_of(input: Seq<char>, blanks: Seq<bool>, letters: Seq<bool>) -> Result<
    Seq<Token>,
    LexError,
> {
    tokens_from(input, blanks, letters, 0)
}

/// For each character of a text, whether it is white space.
pub open spec fn blanks_of(input: Seq<char>) -> Seq<bool> {
    input.map_values(|c: char| whitespace(c))
}

/// For each character of a text, whether it is a letter.
pub open spec fn letters_of(input: Seq<char>) -> Seq<bool> {
    input.map_values(|c: char| alphabetic(c))
}

/// The tokens of a text, with white space and letters as the standard
/// library tells them.
pub open spec fn tokenize(input: Seq<char>) -> Result<Seq<Token>, LexError> {
    tokens_of(input, blanks_of(input), letters_of(input))
}

/// The vocabulary, word by word.
pub proof fn lemma_vocabulary(word: Seq<char>)
    ensures
        constants().contains(word) <==> (word == seq!['e'] || word == seq!['p', 'i']),
        functions().contains(word) <==> (word == seq!['s', 'i', 'n'] || word == seq!['c', 'o', 's']
            || word == seq!['t', 'a', 'n'] || word == seq!['l', 'o', 'g'] || word == seq!['l', 'n']
            || word == seq!['s', 'q', 'r', 't'] || word == seq!['a', 'b', 's']),
        variables().contains(word) <==> word == seq!['x'],
{
    let functions = functions();
    let constants = constants();
    let variables = variables();
    assert(functions[0] == seq!['s', 'i', 'n']);
    assert(functions[1] == seq!['c', 'o', 's']);
    assert(functions[2] == seq!['t', 'a', 'n']);
    assert(functions[3] == seq!['l', 'o', 'g']);
    assert(functions[4] == seq!['l', 'n']);
    assert(functions[5] == seq!['s', 'q', 'r', 't']);
    assert(functions[6] == seq!['a', 'b', 's']);
    assert(constants[0] == seq!['e']);
    assert(constants[1] == seq!['p', 'i']);
    assert(variables[0] == seq!['x']);
}

/// No recognized word begins another: a recognized word that is a prefix of
/// a recognized word is that word.
pub proof fn lemma_vocabulary_is_prefix_free(a: Seq<char>, b: Seq<char>)
    requires
        recognized(a),
        recognized(b),
        a.is_prefix_of(b),
    ensures
        a == b,
{
    lemma_vocabulary(a);
    lemma_vocabulary(b);
    assert(a =~= b.subrange(0, a.len() as int));
    assert(a.len() > 0 && a[0] == b[0]);
    if a.len() > 1 {
        assert(a[1] == b[1]);
    }
    if a.len() > 2 {
        assert(a[2] == b[2]);
    }
    if a.len() == b.len() {
        assert(a =~= b);
    }
}

/// The word that a search finds is a recognized one.
pub proof fn lemma_word_end_recognized(input: Seq<char>, letters: Seq<bool>, start: int, end: int)
    ensures
        word_end(input, letters, start, end) is Some ==> recognized(
            input.subrange(start, word_end(input, letters, start, end)->0),
        ),
    decreases input.len() + 1 - end,
{
    if 0 <= start < end <= input.len() && marked(letters, end - 1) && !recognized(
        input.subrange(start, end),
    ) {
        lemma_word_end_recognized(input, letters, start, end + 1);
    }
}

/// Shortest match: the word that the scanner reads is recognized, and no
/// shorter run of the same letters is.
pub proof fn lemma_word_is_shortest(
    input: Seq<char>,
    letters: Seq<bool>,
    start: int,
    from: int,
    shorter: int,
)
    requires
        word_end(input, letters, start, from) is Some,
        from <= shorter < word_end(input, letters, start, from)->0,
    ensures
        recognized(input.subrange(start, word_end(input, letters, start, from)->0)),
        !recognized(input.subrange(start, shorter)),
    decreases input.len() + 1 - from,
{
    lemma_word_end_recognized(input, letters, start, from);
    if from < shorter {
        lemma_word_is_shortest(input, letters, start, from + 1, shorter);
    }
}

/// Every word is found: where letters spell a recognized word, the scanner
/// reads a word there, and by then at the latest.
pub proof fn lemma_word_is_found(
    input: Seq<char>,
    letters: Seq<bool>,
    start: int,
    from: int,
    end: int,
)
    requires
        0 <= start < from <= end <= input.len(),
        recognized(input.subrange(start, end)),
        forall|k: int| start <= k < end ==> marked(letters, k),
    ensures
        word_end(input, letters, start, from) is Some,
        word_end(input, letters, start, from)->0 <= end,
    decreases end - from,
{
    if from < end && !recognized(input.subrange(start, from)) {
        lemma_word_is_found(input, letters, start, from + 1, end);
    }
}

/// The word at a place is the only one: where letters spell a recognized
/// word, that word is what the scanner reads there, whether it looks for the
/// shortest or the longest.
pub proof fn lemma_word_is_unique(input: Seq<char>, letters: Seq<bool>, start: int, end: int)
    requires
        0 <= start < end <= input.len(),
        recognized(input.subrange(start, end)),
        forall|k: int| start <= k < end ==> marked(letters, k),
    ensures
        word_end(input, letters, start, start + 1) == Some(end),
{
    lemma_word_is_found(input, letters, start, start + 1, end);
    lemma_word_end_recognized(input, letters, start, start + 1);
    lemma_word_end_bounds(input, letters, start, start + 1);
    let found = word_end(input, letters, start, start + 1)->0;
    let short = input.subrange(start, found);
    let long = input.subrange(start, end);
    assert(short =~= long.subrange(0, found - start));
    lemma_vocabulary_is_prefix_free(short, long);
}

/// Whether `spelling` is a decimal numeral: digits and at most one decimal
/// point, with a digit in front.
pub open spec fn decimal(spelling: Seq<char>) -> bool {
    &&& spelling.len() > 0
    &&& digit(spelling[0])
    &&& forall|k: int| 0 <= k < spelling.len() ==> digit(#[trigger] spelling[k]) || spelling[k] == '.'
    &&& points(spelling) <= 1
}

/// Whether a token is one that the scanner makes: a word spells a word of
/// its own list, and a number is a decimal numeral.
pub open spec fn lexical(token: Token) -> bool {
    match token {
        Token::Constant(word) => constants().contains(word),
        Token::FunctionName(word) => functions().contains(word),
        Token::Variable(word) => variables().contains(word),
        Token::NumLiteral(spelling) => decimal(spelling),
        _ => true,
    }
}

/// Whether every token of a sequence is one that the scanner makes.
pub open spec fn all_lexical(tokens: Seq<Token>) -> bool {
    forall|k: int| 0 <= k < tokens.len() ==> lexical(#[trigger] tokens[k])
}

/// A numeral holds digits and decimal points only.
proof fn lemma_numeral_characters(input: Seq<char>, i: int)
    ensures
        forall|k: int|
            0 <= k < numeral(input, i).len() ==> digit(#[trigger] numeral(input, i)[k]) || numeral(
                input,
                i,
            )[k] == '.',
    decreases input.len() - i,
{
    if 0 <= i < input.len() && (digit(input[i]) || input[i] == '.') {
        lemma_numeral_characters(input, i + 1);
        let whole = numeral(input, i);
        let rest = numeral(input, i + 1);
        assert forall|k: int| 0 <= k < whole.len() implies digit(#[trigger] whole[k]) || whole[k]
            == '.' by {
            if k > 0 {
                assert(whole[k] == rest[k - 1]);
            }
        }
    }
}

/// The scanner makes lexical tokens only: whatever `tokenize` gives holds no
/// word outside the vocabulary and no number that is not a decimal numeral.
pub proof fn lemma_tokens_are_lexical(
    input: Seq<char>,
    blanks: Seq<bool>,
    letters: Seq<bool>,
    i: int,
)
    ensures
        tokens_from(input, blanks, letters, i) is Ok ==> all_lexical(
            tokens_from(input, blanks, letters, i)->Ok_0,
        ),
    decreases input.len() - i,
{
    if 0 <= i < input.len() {
        if marked(blanks, i) {
            lemma_tokens_are_lexical(input, blanks, letters, i + 1);
        } else {
            match token_at(input, letters, i) {
                Ok((token, end)) => {
                    lemma_token_at_advances(input, letters, i);
                    lemma_tokens_are_lexical(input, blanks, letters, end);
                    lemma_word_end_recognized(input, letters, i, i + 1);
                    lemma_numeral_characters(input, i);
                    assert(lexical(token));
                    match tokens_from(input, blanks, letters, end) {
                        Ok(rest) => {
                            let all = seq![token] + rest;
                            assert forall|k: int| 0 <= k < all.len() implies lexical(
                                #[trigger] all[k],
                            ) by {
                                if k > 0 {
                                    assert(all[k] == rest[k - 1]);
                                }
                            }
                        },
                        Err(_) => {},
                    }
                },
                Err(_) => {},
            }
        }
    }
}

/// The constants that the scanner recognizes.
fn recognized_constants() -> (list: Vec<&'static str>)
    ensures
        words(list@) == constants(),
{
    let list = vec!["e", "pi"];
    proof {
        reveal_strlit("e");
        reveal_strlit("pi");
        assert("e"@ =~= seq!['e']);
        assert("pi"@ =~= seq!['p', 'i']);
        assert(words(list@) =~= constants());
    }
    list
}

/// The functions that the scanner recognizes.
fn recognized_functions() -> (list: Vec<&'static str>)
    ensures
        words(list@) == functions(),
{
    let list = vec!["sin", "cos", "tan", "log", "ln", "sqrt", "abs"];
    proof {
        reveal_strlit("sin");
        reveal_strlit("cos");
        reveal_strlit("tan");
        reveal_strlit("log");
        reveal_strlit("ln");
        reveal_strlit("sqrt");
        reveal_strlit("abs");
        assert("sin"@ =~= seq!['s', 'i', 'n']);
        assert("cos"@ =~= seq!['c', 'o', 's']);
        assert("tan"@ =~= seq!['t', 'a', 'n']);
        assert("log"@ =~= seq!['l', 'o', 'g']);
        assert("ln"@ =~= seq!['l', 'n']);
        assert("sqrt"@ =~= seq!['s', 'q', 'r', 't']);
        assert("abs"@ =~= seq!['a', 'b', 's']);
        assert(words(list@) =~= functions());
    }
    list
}

/// The variables that the scanner recognizes.
fn recognized_variables() -> (list: Vec<&'static str>)
    ensures
        words(list@) == variables(),
{
    let list = vec!["x"];
    proof {
        reveal_strlit("x");
        assert("x"@ =~= seq!['x']);
        assert(words(list@) =~= variables());
    }
    list
}

/// Tells whether `text` spells `word`.
pub(crate) fn same_text(text: &String, word: &str) -> (r: bool)
    ensures
        r == (text@ == word@),
{
    *text == word.to_owned()
}

/// Whether `word` stands in `list`.
fn contains_word(list: &Vec<&str>, word: &String) -> (found: bool)
    ensures
        found == words(list@).contains(word@),
{
    let mut j: usize = 0;
    while j < list.len()
        invariant
            j <= list.len(),
            forall|m: int| 0 <= m < j ==> words(list@)[m] != word@,
        decreases list.len() - j,
    {
        if same_text(word, list[j]) {
            assert(words(list@)[j as int] == word@);
            return true;
        }
        j = j + 1;
    }
    false
}

/// Whether `search_string` stands in one of the lists of `candidates`.
pub fn match_found<'a>(candidates: &'a Vec<Vec<&'a str>>, search_string: &'a String) -> (found:
    bool)
    ensures
        found == exists|k: int|
            0 <= k < candidates.len() && #[trigger] words(candidates[k]@).contains(search_string@),
{
    let mut k: usize = 0;
    while k < candidates.len()
        invariant
            k <= candidates.len(),
            forall|m: int|
                0 <= m < k ==> !#[trigger] words(candidates[m]@).contains(search_string@),
        decreases candidates.len() - k,
    {
        if contains_word(&candidates[k], search_string) {
            return true;
        }
        k = k + 1;
    }
    false
}

/// The characters of a string, in order.
fn characters(text: &String) -> (chars: Vec<char>)
    ensures
        chars@ == text@,
{
    let mut chars: Vec<char> = Vec::new();
    for c in it: text.as_str().chars()
        invariant
            chars@ == it.seq().take(it.index() as int),
            it.seq() == text@,
    {
        chars.push(c);
    }
    chars
}

/// Tells whether `c` is a digit.
fn is_digit(c: char) -> (r: bool)
    ensures
        r == digit(c),
{
    '0' <= c && c <= '9'
}

/// The decimal points of a text are those of its parts.
proof fn lemma_points_concat(a: Seq<char>, b: Seq<char>)
    ensures
        points(a + b) == points(a) + points(b),
    decreases b.len(),
{
    if b.len() == 0 {
        assert(a + b =~= a);
    } else {
        assert((a + b).drop_last() =~= a + b.drop_last());
        lemma_points_concat(a, b.drop_last());
    }
}

/// Scans the number that starts at `start_idx`. Returns its token and the
/// index behind it, or `InvalidNumberLiteral` where the digits and decimal
/// points that follow each other there hold a second decimal point.
pub fn scan_number(chars: &Vec<char>, start_idx: usize) -> (r: Result<(TokenType, usize), LexError>)
    ensures
        match r {
            Ok((token, resume)) => numeral_at(chars@, start_idx as int) == Ok::<
                (Token, int),
                LexError,
            >((token@, resume as int)),
            Err(e) => numeral_at(chars@, start_idx as int) == Err::<(Token, int), LexError>(e),
        },
{
    let mut curr = String::new();
    let mut i: usize = start_idx;
    let mut decimal_found = false;
    let ghost whole = numeral(chars@, start_idx as int);
    assert(curr@ + whole =~= whole);
    while i < chars.len()
        invariant
            start_idx <= i,
            i == start_idx + curr@.len(),
            whole == numeral(chars@, start_idx as int),
            whole == curr@ + numeral(chars@, i as int),
            points(curr@) == if decimal_found {
                1nat
            } else {
                0nat
            },
        decreases chars.len() - i,
    {
        let c = chars[i];
        if is_digit(c) || c == '.' {
            proof {
                let rest = numeral(chars@, i as int + 1);
                assert(curr@ + (seq![c] + rest) =~= curr@.push(c) + rest);
                assert(curr@.push(c).drop_last() =~= curr@);
                lemma_points_concat(curr@.push(c), rest);
            }
            if c == '.' && decimal_found {
                return Err(LexError::InvalidNumberLiteral);
            }
            if c == '.' {
                decimal_found = true;
            }
            curr.push(c);
            i = i + 1;
        } else {
            assert(curr@ + Seq::<char>::empty() =~= curr@);
            return Ok((TokenType::NumLiteral(curr), i));
        }
    }
    assert(curr@ + Seq::<char>::empty() =~= curr@);
    Ok((TokenType::NumLiteral(curr), i))
}

/// `candidates` holds, list by list, the words of the vocabulary that begin
/// with `prefix`.
pub open spec fn pruned_to(candidates: Seq<Vec<&str>>, prefix: Seq<char>) -> bool {
    &&& candidates.len() == 3
    &&& forall|k: int, w: Seq<char>|
        0 <= k < 3 ==> (#[trigger] words(candidates[k]@).contains(w) <==> vocabulary(k).contains(w)
            && prefix.is_prefix_of(w))
}

/// The words of `list` that begin with `prefix`.
fn retain_prefixed<'a>(list: &Vec<&'a str>, prefix: &String) -> (kept: Vec<&'a str>)
    ensures
        forall|w: Seq<char>| #[trigger]
            words(kept@).contains(w) <==> words(list@).contains(w) && prefix@.is_prefix_of(w),
{
    let mut kept: Vec<&'a str> = Vec::new();
    let mut j: usize = 0;
    while j < list.len()
        invariant
            j <= list.len(),
            forall|m: int|
                0 <= m < kept.len() ==> words(list@).contains(#[trigger] words(kept@)[m])
                    && prefix@.is_prefix_of(words(kept@)[m]),
            forall|m: int|
                0 <= m < j && prefix@.is_prefix_of(words(list@)[m]) ==> words(kept@).contains(
                    #[trigger] words(list@)[m],
                ),
        decreases list.len() - j,
    {
        let ghost before = kept@;
        if has_prefix(list[j], prefix.as_str()) {
            kept.push(list[j]);
            proof {
                assert(words(kept@) =~= words(before).push(list[j as int]@));
                assert(words(list@)[j as int] == list[j as int]@);
                assert(words(kept@)[kept.len() - 1] == list[j as int]@);
                assert forall|m: int|
                    0 <= m < j && prefix@.is_prefix_of(
                        words(list@)[m],
                    ) implies words(kept@).contains(#[trigger] words(list@)[m]) by {
                    let at = choose|at: int|
                        0 <= at < words(before).len() && words(before)[at] == words(list@)[m];
                    assert(words(kept@)[at] == words(list@)[m]);
                }
            }
        }
        j = j + 1;
    }
    kept
}

/// Whether every list of `candidates` is empty.
fn all_empty(candidates: &Vec<Vec<&str>>) -> (r: bool)
    ensures
        r == forall|k: int| 0 <= k < candidates.len() ==> (#[trigger] candidates[k]).len() == 0,
{
    let mut k: usize = 0;
    while k < candidates.len()
        invariant
            k <= candidates.len(),
            forall|m: int| 0 <= m < k ==> (#[trigger] candidates[m]).len() == 0,
        decreases candidates.len() - k,
    {
        if candidates[k].len() != 0 {
            return false;
        }
        k = k + 1;
    }
    true
}

/// Once no word of the vocabulary begins with the letters read so far, no
/// longer run of letters is a word either.
proof fn lemma_no_word_beyond(
    input: Seq<char>,
    letters: Seq<bool>,
    start: int,
    read: int,
    end: int,
)
    requires
        0 <= start <= read < end,
        read <= input.len(),
        forall|w: Seq<char>| recognized(w) ==> !input.subrange(start, read).is_prefix_of(w),
    ensures
        word_end(input, letters, start, end) is None,
    decreases input.len() + 1 - end,
{
    if end <= input.len() {
        let word = input.subrange(start, end);
        assert(input.subrange(start, read) =~= word.subrange(0, read - start));
        assert(input.subrange(start, read).is_prefix_of(word));
        lemma_no_word_beyond(input, letters, start, read, end + 1);
    }
}

/// Tells whether the flag of place `i` is set.
fn is_marked(flags: &Vec<bool>, i: usize) -> (r: bool)
    ensures
        r == marked(flags@, i as int),
{
    i < flags.len() && flags[i]
}

/// Scans the word that starts at `start_idx`, one letter at a time, and stops
/// at the first letter that completes a recognized word. Which characters
/// are letters is given: `letters` holds a flag for each. Returns the word's
/// token and the index behind it, or `UnrecognizedWord` where the letters run
/// out, or stop fitting any word, before that.
pub fn scan_word(chars: &Vec<char>, letters: &Vec<bool>, start_idx: usize) -> (r: Result<
    (TokenType, usize),
    LexError,
>)
    ensures
        match r {
            Ok((token, resume)) => word_at(chars@, letters@, start_idx as int) == Ok::<
                (Token, int),
                LexError,
            >((token@, resume as int)),
            Err(e) => word_at(chars@, letters@, start_idx as int) == Err::<(Token, int), LexError>(
                e,
            ),
        },
{
    let mut curr = String::new();
    let mut i: usize = start_idx;
    let mut candidates = vec![recognized_constants(), recognized_functions(), recognized_variables()];
    let mut candidates_left = true;
    if start_idx >= chars.len() {
        return Err(LexError::UnrecognizedWord);
    }
    proof {
        assert(curr@ =~= chars@.subrange(start_idx as int, i as int));
        assert forall|w: Seq<char>| #[trigger] curr@.is_prefix_of(w) by {
            assert(curr@ =~= w.subrange(0, 0));
        }
    }
    while i < chars.len() && candidates_left && is_marked(letters, i)
        invariant
            start_idx <= i <= chars.len(),
            start_idx < chars.len(),
            curr@ == chars@.subrange(start_idx as int, i as int),
            pruned_to(candidates@, curr@),
            word_end(chars@, letters@, start_idx as int, start_idx + 1) == word_end(
                chars@,
                letters@,
                start_idx as int,
                i + 1,
            ),
            !candidates_left ==> forall|k: int|
                0 <= k < candidates.len() ==> (#[trigger] candidates[k]).len() == 0,
        decreases chars.len() - i,
    {
        let ghost before = curr@;
        let ghost old_candidates = candidates@;
        curr.push(chars[i]);
        i = i + 1;
        let constant_candidates = retain_prefixed(&candidates[0], &curr);
        let function_candidates = retain_prefixed(&candidates[1], &curr);
        let variable_candidates = retain_prefixed(&candidates[2], &curr);
        candidates = vec![constant_candidates, function_candidates, variable_candidates];
        proof {
            assert(curr@ =~= chars@.subrange(start_idx as int, i as int));
            assert(before =~= curr@.subrange(0, before.len() as int));
            assert forall|k: int, w: Seq<char>| 0 <= k < 3 implies (#[trigger] words(
                candidates[k]@,
            ).contains(w) <==> vocabulary(k).contains(w) && curr@.is_prefix_of(w)) by {
                assert(words(old_candidates[k]@).contains(w) <==> vocabulary(k).contains(w)
                    && before.is_prefix_of(w));
                if curr@.is_prefix_of(w) {
                    assert(before =~= w.subrange(0, before.len() as int));
                }
            }
            assert(curr@.is_prefix_of(curr@)) by {
                assert(curr@ =~= curr@.subrange(0, curr@.len() as int));
            }
        }
        if match_found(&candidates, &curr) {
            proof {
                let k = choose|k: int|
                    0 <= k < candidates.len() && #[trigger] words(candidates[k]@).contains(curr@);
                assert(vocabulary(k).contains(curr@));
                assert(recognized(curr@));
            }
            let token = if contains_word(&candidates[0], &curr) {
                TokenType::Constant(curr)
            } else if contains_word(&candidates[1], &curr) {
                TokenType::FunctionName(curr)
            } else {
                TokenType::Variable(curr)
            };
            return Ok((token, i));
        }
        proof {
            if recognized(curr@) {
                let k: int = if constants().contains(curr@) {
                    0
                } else if functions().contains(curr@) {
                    1
                } else {
                    2
                };
                assert(vocabulary(k).contains(curr@));
                assert(words(candidates[k]@).contains(curr@));
            }
        }
        candidates_left = !all_empty(&candidates);
    }
    proof {
        if i < chars.len() && !candidates_left {
            assert forall|w: Seq<char>| recognized(w) implies !curr@.is_prefix_of(w) by {
                let k: int = if constants().contains(w) {
                    0
                } else if functions().contains(w) {
                    1
                } else {
                    2
                };
                assert(vocabulary(k).contains(w));
                if curr@.is_prefix_of(w) {
                    assert(words(candidates[k]@).contains(w));
                    assert(candidates[k].len() == 0);
                }
            }
            lemma_no_word_beyond(chars@, letters@, start_idx as int, i as int, i + 1);
        }
    }
    Err(LexError::UnrecognizedWord)
}

/// For each character, what `char::is_whitespace` answers.
fn blanks(chars: &Vec<char>) -> (flags: Vec<bool>)
    ensures
        flags@ == blanks_of(chars@),
{
    let mut flags: Vec<bool> = Vec::new();
    let mut i: usize = 0;
    while i < chars.len()
        invariant
            i <= chars.len(),
            flags@ == blanks_of(chars@.take(i as int)),
        decreases chars.len() - i,
    {
        flags.push(chars[i].is_whitespace());
        assert(flags@ =~= blanks_of(chars@.take(i + 1)));
        i = i + 1;
    }
    assert(chars@.take(i as int) =~= chars@);
    flags
}

/// For each character, what `char::is_alphabetic` answers.
fn letters(chars: &Vec<char>) -> (flags: Vec<bool>)
    ensures
        flags@ == letters_of(chars@),
{
    let mut flags: Vec<bool> = Vec::new();
    let mut i: usize = 0;
    while i < chars.len()
        invariant
            i <= chars.len(),
            flags@ == letters_of(chars@.take(i as int)),
        decreases chars.len() - i,
    {
        flags.push(chars[i].is_alphabetic());
        assert(flags@ =~= letters_of(chars@.take(i + 1)));
        i = i + 1;
    }
    assert(chars@.take(i as int) =~= chars@);
    flags
}

/// Scans the word that starts at `start_idx`, with letters as the standard
/// library tells them.
pub fn scan_letters(chars: &Vec<char>, start_idx: usize) -> (r: Result<(TokenType, usize), LexError>)
    ensures
        match r {
            Ok((token, resume)) => word_at(chars@, letters_of(chars@), start_idx as int) == Ok::<
                (Token, int),
                LexError,
            >((token@, resume as int)),
            Err(e) => word_at(chars@, letters_of(chars@), start_idx as int) == Err::<
                (Token, int),
                LexError,
            >(e),
        },
{
    let letters = letters(chars);
    scan_word(chars, &letters, start_idx)
}

/// Turns characters into tokens, given which of them are white space and
/// which are letters: `blanks` and `letters` hold a flag for each character,
/// and a character without a flag is neither.
///
/// White space separates tokens and is dropped. The result is `tokens_of`:
/// the tokens in the order of the characters, or the first error.
pub fn scan_classified(chars: &Vec<char>, blanks: &Vec<bool>, letters: &Vec<bool>) -> (r: Result<
    Vec<TokenType>,
    LexError,
>)
    ensures
        match r {
            Ok(tokens) => tokens_of(chars@, blanks@, letters@) == Ok::<Seq<Token>, LexError>(
                tokens_view(tokens@),
            ),
            Err(e) => tokens_of(chars@, blanks@, letters@) == Err::<Seq<Token>, LexError>(e),
        },
{
    let mut tokens: Vec<TokenType> = Vec::new();
    let mut i: usize = 0;
    let ghost whole = tokens_of(chars@, blanks@, letters@);
    assert(tokens_view(tokens@) =~= Seq::empty());
    while i < chars.len()
        invariant
            i <= chars.len(),
            whole == tokens_of(chars@, blanks@, letters@),
            match tokens_from(chars@, blanks@, letters@, i as int) {
                Ok(rest) => whole == Ok::<Seq<Token>, LexError>(tokens_view(tokens@) + rest),
                Err(e) => whole == Err::<Seq<Token>, LexError>(e),
            },
        decreases chars.len() - i,
    {
        let c = chars[i];
        //skip whitespace
        if is_marked(blanks, i) {
            i = i + 1;
            continue ;
        }
        proof {
            lemma_token_at_advances(chars@, letters@, i as int);
        }
        let ghost before = tokens_view(tokens@);
        let scanned = if c == '(' {
            Ok((TokenType::LeftParen, i + 1))
        } else if c == ')' {
            Ok((TokenType::RightParen, i + 1))
        } else if c == '*' {
            Ok((TokenType::Mul, i + 1))
        } else if c == '/' {
            Ok((TokenType::Div, i + 1))
        } else if c == '^' {
            Ok((TokenType::Exp, i + 1))
        } else if c == '-' {
            Ok((TokenType::Sub, i + 1))
        } else if c == '+' {
            Ok((TokenType::Add, i + 1))
        } else if is_digit(c) {
            scan_number(chars, i)
        } else if is_marked(letters, i) {
            scan_word(chars, letters, i)
        } else {
            Err(LexError::InvalidCharacter)
        };
        match scanned {
            Ok((token, resume_idx)) => {
                proof {
                    let rest = tokens_from(chars@, blanks@, letters@, resume_idx as int);
                    if rest is Ok {
                        assert(before + (seq![token@] + rest->Ok_0) =~= before.push(token@)
                            + rest->Ok_0);
                    }
                    assert(tokens_view(tokens@.push(token)) =~= before.push(token@));
                }
                tokens.push(token);
                i = resume_idx;
            },
            Err(e) => {
                return Err(e);
            },
        }
    }
    proof {
        assert(tokens_view(tokens@) + Seq::<Token>::empty() =~= tokens_view(tokens@));
    }
    Ok(tokens)
}

/// Turns a text into its tokens, with white space and letters as the
/// standard library tells them.
///
/// The result is `tokenize` of the text: the tokens in the order of the
/// text, or the first error.
pub fn scan(input_string: &String) -> (r: Result<Vec<TokenType>, LexError>)
    ensures
        match r {
            Ok(tokens) => tokenize(input_string@) == Ok::<Seq<Token>, LexError>(
                tokens_view(tokens@),
            ),
            Err(e) => tokenize(input_string@) == Err::<Seq<Token>, LexError>(e),
        },
{
    let chars: Vec<char> = characters(input_string);
    let blanks = blanks(&chars);
    let letters = letters(&chars);
    scan_classified(&chars, &blanks, &letters)
}

} // verus!
