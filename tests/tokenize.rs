use markdown_lexer::scanner::tokenize;
use markdown_lexer::token::{HeadingLevel, Token};

fn text(s: &str) -> Token {
    Token::Text(s.to_string())
}

fn bold(s: &str) -> Token {
    Token::Bold(s.to_string())
}

fn heading(level: HeadingLevel, s: &str) -> Token {
    Token::Heading(level, s.to_string())
}

#[test]
fn test_tokenize() {
    assert_eq!(tokenize("# hello"), vec![Token::Heading(HeadingLevel::H1, "hello".to_string())]);
    assert_eq!(tokenize("## hello world"), vec![Token::Heading(HeadingLevel::H2, "hello world".to_string())]);
    assert_eq!(tokenize("### hello world"), vec![Token::Heading(HeadingLevel::H3, "hello world".to_string())]);
    assert_eq!(tokenize("#### hello world"), vec![Token::Heading(HeadingLevel::H4, "hello world".to_string())]);
    assert_eq!(tokenize("##### hello world"), vec![Token::Heading(HeadingLevel::H5, "hello world".to_string())]);
    assert_eq!(tokenize("###### hello world"), vec![Token::Heading(HeadingLevel::H6, "hello world".to_string())]);

    assert_eq!(tokenize("**hello world**"), vec![Token::Bold(("hello world").to_string())]);
    assert_eq!(tokenize("my **Rust** blog"), vec![Token::Text("my ".to_string()), Token::Bold(("Rust").to_string()), Token::Text(" blog".to_string())]);
    assert_eq!(tokenize("**hello world"), vec![Token::Text("**hello world".to_string())]);

    assert_eq!(tokenize("hello world"), vec![Token::Text("hello world".to_string())]);
}

#[test]
fn heading_levels_one_to_six() {
    let levels = [
        HeadingLevel::H1,
        HeadingLevel::H2,
        HeadingLevel::H3,
        HeadingLevel::H4,
        HeadingLevel::H5,
        HeadingLevel::H6,
    ];
    for n in 1..=6usize {
        let input = format!("{} x", "#".repeat(n));
        assert_eq!(tokenize(&input), vec![heading(levels[n - 1], "x")]);
    }
}

#[test]
fn heading_runs_longer_than_six_give_h6() {
    assert_eq!(tokenize("####### deep"), vec![heading(HeadingLevel::H6, "deep")]);
    assert_eq!(tokenize("##########x"), vec![heading(HeadingLevel::H6, "x")]);
}

#[test]
fn heading_skips_spaces_only() {
    assert_eq!(tokenize("#   title "), vec![heading(HeadingLevel::H1, "title ")]);
    assert_eq!(tokenize("#\ttitle"), vec![heading(HeadingLevel::H1, "\ttitle")]);
    assert_eq!(tokenize("#"), vec![heading(HeadingLevel::H1, "")]);
}

#[test]
fn heading_keeps_markers_in_its_text() {
    assert_eq!(
        tokenize("## a **b** # c"),
        vec![heading(HeadingLevel::H2, "a **b** # c")]
    );
}

#[test]
fn hash_after_line_start_is_text() {
    assert_eq!(tokenize("a # b"), vec![text("a # b")]);
    assert_eq!(tokenize(" # b"), vec![text(" # b")]);
}

#[test]
fn bold_whole_line() {
    assert_eq!(tokenize("**hello world**"), vec![bold("hello world")]);
}

#[test]
fn bold_between_text() {
    assert_eq!(
        tokenize("my **word** blog"),
        vec![text("my "), bold("word"), text(" blog")]
    );
}

#[test]
fn unterminated_bold_is_text() {
    assert_eq!(tokenize("**hello world"), vec![text("**hello world")]);
    assert_eq!(tokenize("**"), vec![text("**")]);
    assert_eq!(tokenize("a **b"), vec![text("a "), text("**b")]);
    assert_eq!(tokenize("***"), vec![text("***")]);
}

#[test]
fn empty_bold_span() {
    assert_eq!(tokenize("****"), vec![bold("")]);
}

#[test]
fn single_star_is_text() {
    assert_eq!(tokenize("a * b"), vec![text("a * b")]);
    assert_eq!(tokenize("**a*b**"), vec![bold("a*b")]);
}

#[test]
fn plain_text() {
    assert_eq!(tokenize("hello world"), vec![text("hello world")]);
}

#[test]
fn empty_input() {
    assert_eq!(tokenize(""), Vec::<Token>::new());
}

#[test]
fn hash_inside_bold_is_text() {
    assert_eq!(tokenize("**# not heading**"), vec![bold("# not heading")]);
}

#[test]
fn two_lines_get_one_break_between() {
    let first = "my **word** blog";
    let second = "# x";
    let mut expected = tokenize(first);
    expected.push(text("\n"));
    expected.extend(tokenize(second));
    assert_eq!(tokenize(&format!("{}\n{}", first, second)), expected);
    assert_eq!(
        expected,
        vec![
            text("my "),
            bold("word"),
            text(" blog"),
            text("\n"),
            heading(HeadingLevel::H1, "x"),
        ]
    );
}

#[test]
fn final_line_ending_gives_no_break() {
    assert_eq!(tokenize("a\n"), vec![text("a")]);
    assert_eq!(tokenize("a\nb\n"), vec![text("a"), text("\n"), text("b")]);
}

#[test]
fn empty_lines_give_breaks_only() {
    assert_eq!(
        tokenize("a\n\nb"),
        vec![text("a"), text("\n"), text("\n"), text("b")]
    );
    assert_eq!(tokenize("\n"), Vec::<Token>::new());
    assert_eq!(tokenize("\n\n"), vec![text("\n")]);
}

#[test]
fn carriage_return_goes_with_line_feed() {
    assert_eq!(tokenize("a\r\nb"), vec![text("a"), text("\n"), text("b")]);
    assert_eq!(tokenize("a\r"), vec![text("a\r")]);
}

#[test]
fn bold_state_ends_with_the_line() {
    assert_eq!(
        tokenize("**open\nclose**"),
        vec![text("**open"), text("\n"), text("close"), text("**")]
    );
}

#[test]
fn heading_on_a_later_line() {
    assert_eq!(
        tokenize("## hello world \n learning Rust."),
        vec![
            heading(HeadingLevel::H2, "hello world "),
            text("\n"),
            text(" learning Rust."),
        ]
    );
}

#[test]
fn non_ascii_text() {
    assert_eq!(
        tokenize("é **ü** ñ"),
        vec![text("é "), bold("ü"), text(" ñ")]
    );
}

#[test]
fn level_from_count() {
    assert_eq!(HeadingLevel::from_count(1), HeadingLevel::H1);
    assert_eq!(HeadingLevel::from_count(4), HeadingLevel::H4);
    assert_eq!(HeadingLevel::from_count(6), HeadingLevel::H6);
    assert_eq!(HeadingLevel::from_count(9), HeadingLevel::H6);
}
