use recap::human::{tokenize, word, ws, Construct, ErrorKind, LexError};
use recap::view::{Located, TextView};
use recap::vm::Token;

fn lex(i: &str) -> Vec<Result<Token<&str>, LexError<&str>>> {
    tokenize(i).collect()
}

fn words(i: &str) -> Vec<Result<Token<&str>, LexError<&str>>> {
    i.split_whitespace().map(|w| Ok(Token::Word(w))).collect()
}

#[test]
fn word_test() {
    assert_eq!(word("hello"), Ok(("", Token::Word("hello"))));
}

#[test]
fn ws_test() {
    assert_eq!(ws("   hello"), Ok(("", Token::Word("hello"))));
    assert_eq!(ws("hello   "), Ok(("", Token::Word("hello"))));
    assert_eq!(ws("   hello   "), Ok(("", Token::Word("hello"))));
}

#[test]
fn eol_comment_test() {
    const HELLO: Token<&str> = Token::Word("hello");
    assert_eq!(ws("hello //test"), Ok(("", HELLO)));
    assert_eq!(ws(" hello //test there"), Ok(("", HELLO)));
    assert_eq!(ws(" //test\nhello"), Ok(("", HELLO)));
    assert_eq!(ws("//test\nhello"), Ok(("", HELLO)));
    assert_eq!(ws("//test\n//test\nhello"), Ok(("", HELLO)));
    assert_eq!(ws("//test\n//test\n hello"), Ok(("", HELLO)));
}

#[test]
fn tokenize_test() {
    assert_eq!(lex("hello //test"), [Ok(Token::Word("hello"))]);
    assert_eq!(
        lex("hello //test\n  world//test"),
        [Ok(Token::Word("hello")), Ok(Token::Word("world"))]
    );
}

#[test]
fn word_stops_at_first_non_letter() {
    assert_eq!(word("abc def"), Ok((" def", Token::Word("abc"))));
    assert_eq!(word("abc1"), Ok(("1", Token::Word("abc"))));
}

#[test]
fn word_rejects_leading_non_letter() {
    let e = word(" abc").unwrap_err();
    assert_eq!(e.kind, ErrorKind::UnexpectedCharacter);
    assert_eq!(e.expected, Construct::Alphabetic);
    assert_eq!(e.input, " abc");
    assert!(e.context.is_empty());
}

#[test]
fn ws_leaves_the_rest_after_trailing_skip() {
    assert_eq!(ws("  ab  cd"), Ok(("cd", Token::Word("ab"))));
    assert_eq!(ws("ab//x\n cd"), Ok(("cd", Token::Word("ab"))));
}

#[test]
fn ws_reports_failure_after_leading_skip() {
    let e = ws("  //c\n  9 x").unwrap_err();
    assert_eq!(e.kind, ErrorKind::UnexpectedCharacter);
    assert_eq!(e.input, "9 x");
    assert_eq!(e.expected, Construct::Alphabetic);
    assert!(e.context.is_empty());
}

#[test]
fn runs_become_one_word_each() {
    assert_eq!(
        lex("alpha  beta\tgamma\r\ndelta"),
        words("alpha beta gamma delta")
    );
    assert_eq!(lex("MiXeD case"), words("MiXeD case"));
}

#[test]
fn whitespace_does_not_matter() {
    assert_eq!(lex("a b"), lex("  a   b  "));
    assert_eq!(lex("a b"), [Ok(Token::Word("a")), Ok(Token::Word("b"))]);
}

#[test]
fn comments_are_transparent() {
    assert_eq!(lex("a//x\nb"), lex("a b"));
}

#[test]
fn chained_comment_lines_are_skipped() {
    assert_eq!(lex("a\n//x\n//y\n//z\nb"), words("a b"));
    assert_eq!(lex("a//x\r//y\nb"), words("a b"));
}

#[test]
fn trailing_comment_is_not_an_error() {
    assert_eq!(lex("hello //test"), [Ok(Token::Word("hello"))]);
}

#[test]
fn concrete_scenarios() {
    assert_eq!(
        lex("hello //test\n  world//test"),
        [Ok(Token::Word("hello")), Ok(Token::Word("world"))]
    );
    assert_eq!(lex("   hello   "), [Ok(Token::Word("hello"))]);
    assert_eq!(lex("//test\n//test\nhello"), [Ok(Token::Word("hello"))]);
    assert_eq!(lex("//test\n//test\n hello"), [Ok(Token::Word("hello"))]);
}

#[test]
fn nothing_but_insignificant_text_yields_nothing() {
    assert!(lex("").is_empty());
    assert!(lex("   \n\t ").is_empty());
    assert!(lex("// only a comment").is_empty());
    assert!(lex("//").is_empty());
    assert!(lex("  //\n//x").is_empty());
}

#[test]
fn unexpected_character_ends_the_sequence() {
    let items = lex("hello 1 world");
    assert_eq!(items.len(), 2);
    assert_eq!(items[0], Ok(Token::Word("hello")));
    let e = items[1].clone().unwrap_err();
    assert_eq!(e.kind, ErrorKind::UnexpectedCharacter);
    assert_eq!(e.input, "1 world");
    assert_eq!(e.expected, Construct::Alphabetic);
    assert!(e.context.is_empty());
}

#[test]
fn bare_digit_is_reported_at_its_offset() {
    let items: Vec<_> = tokenize(Located::new("  7")).collect();
    assert_eq!(items.len(), 1);
    let e = items[0].clone().unwrap_err();
    assert_eq!(e.kind, ErrorKind::UnexpectedCharacter);
    assert_eq!(e.start(), 2);
    assert_eq!(e.end(), 3);
}

#[test]
fn non_ascii_letter_is_no_word() {
    let items = lex("abc\u{e9}t");
    assert_eq!(items.len(), 2);
    assert_eq!(items[0], Ok(Token::Word("abc")));
    assert_eq!(items[1].clone().unwrap_err().input, "\u{e9}t");
    let e = lex("// caf\u{e9}\n\u{e9}").pop().unwrap().unwrap_err();
    assert_eq!(e.input, "\u{e9}");
}

#[test]
fn nothing_follows_the_end() {
    let mut t = tokenize("one");
    assert_eq!(t.next(), Some(Ok(Token::Word("one"))));
    assert_eq!(t.next(), None);
    assert_eq!(t.next(), None);
    let mut t = tokenize("9 one");
    assert!(matches!(t.next(), Some(Err(_))));
    assert_eq!(t.next(), None);
}

#[test]
fn located_tokens_carry_offset_and_line() {
    let items: Vec<_> = tokenize(Located::new("hello //c\n  world\n\nagain")).collect();
    let spans: Vec<(usize, usize, &str)> = items
        .into_iter()
        .map(|item| match item {
            Ok(Token::Word(w)) => (w.location_offset(), w.location_line(), w.fragment()),
            Err(e) => panic!("unexpected error {:?}", e),
        })
        .collect();
    assert_eq!(spans, vec![(0, 1, "hello"), (12, 2, "world"), (19, 4, "again")]);
}

#[test]
fn located_and_plain_views_agree() {
    let text = "  alpha//c\nbeta gamma 4x";
    let plain: Vec<String> = lex(text)
        .into_iter()
        .map(|i| match i {
            Ok(Token::Word(w)) => w.to_string(),
            Err(e) => format!("error at {}", e.input),
        })
        .collect();
    let located: Vec<String> = tokenize(Located::new(text))
        .collect()
        .into_iter()
        .map(|i| match i {
            Ok(Token::Word(w)) => w.fragment().to_string(),
            Err(e) => format!("error at {}", e.input.fragment()),
        })
        .collect();
    assert_eq!(plain, located);
    assert_eq!(plain, vec!["alpha", "beta", "gamma", "error at 4x"]);
}

#[test]
fn located_slice_counts_lines() {
    let v = Located::new("a\nb\r\nc");
    let tail = v.slice(5, 6);
    assert_eq!(tail.fragment(), "c");
    assert_eq!(tail.location_offset(), 5);
    assert_eq!(tail.location_line(), 3);
}

#[test]
fn error_context_grows_outward() {
    let e = LexError::new(ErrorKind::EndOfInput, "", Construct::Alphabetic);
    assert_eq!(e.kind, ErrorKind::EndOfInput);
    let e = e.append(Construct::Token).append(Construct::Alphabetic);
    assert_eq!(e.context, vec![Construct::Token, Construct::Alphabetic]);
    assert_eq!(e.expected, Construct::Alphabetic);
}

#[test]
fn constructs_describe_themselves() {
    assert_eq!(Construct::Alphabetic.description(), "alphabetic character");
    assert_eq!(Construct::Token.description(), "token");
}

#[test]
fn token_fails_as_word_does() {
    assert_eq!(recap::human::token("1"), word("1"));
    assert_eq!(recap::human::token("ab c"), word("ab c"));
}

#[test]
fn mixed_blank_text_between_words_is_skipped() {
    assert_eq!(lex("a \n//x\n\t//y\r b"), words("a b"));
    assert_eq!(recap::human::ws_or_eol(" //x\n\n//y\nrest"), "rest");
}

#[test]
fn separators_are_interchangeable() {
    assert_eq!(lex("a b c"), lex("a//1\nb\n//2\n c//end"));
    assert_eq!(lex("a b c"), words("a b c"));
}
