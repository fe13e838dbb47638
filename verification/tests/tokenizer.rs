use anon_lexer::delimiter::Delimiter;
use anon_lexer::error::{TokenizeError, TokenizeErrorKind};
use anon_lexer::indent_stack::{IndentChange, IndentStack};
use anon_lexer::interner::{Interner, Symbol};
use anon_lexer::keyword::Keyword;
use anon_lexer::lexer::{tokenize, Lexer, LexerState};
use anon_lexer::line_tokenizer::{
    classify_atom, has_atom, measure_indent, tokenize_units, unit_token, LineTokenizer,
};
use anon_lexer::operator::Operator;
use anon_lexer::span::Span;
use anon_lexer::token::{Literal, Token};
use anon_lexer::unit::{AtomKind, Line, Unit, UnitKind};

type Piece = (UnitKind, &'static str);

fn ws(text: &'static str) -> Piece {
    (UnitKind::WhitespaceRun, text)
}

fn nl() -> Piece {
    (UnitKind::Newline, "\n")
}

fn comment(text: &'static str) -> Piece {
    (UnitKind::Comment, text)
}

fn atom(kind: AtomKind, text: &'static str) -> Piece {
    (UnitKind::Atom(kind), text)
}

fn ident(text: &'static str) -> Piece {
    atom(AtomKind::Identifier, text)
}

fn integer(text: &'static str) -> Piece {
    atom(AtomKind::Integer, text)
}

fn eq() -> Piece {
    atom(AtomKind::Operator(Operator::Eq), "=")
}

fn kw(keyword: Keyword, text: &'static str) -> Piece {
    atom(AtomKind::Keyword(keyword), text)
}

/// The lines of `source`, given as the units of each line. The units must
/// spell the source; their spans follow from their texts.
fn lines_of(source: &str, lines: &[&[Piece]]) -> Vec<Line> {
    let mut offset = 0u32;
    let mut spelled = String::new();
    let mut out = Vec::new();
    for line in lines {
        let mut units = Vec::new();
        for (kind, text) in line.iter() {
            let end = offset + text.len() as u32;
            let span = Span::new(offset, end).unwrap();
            units.push(Unit::new(*kind, text.to_string(), span).unwrap());
            spelled.push_str(text);
            offset = end;
        }
        out.push(Line::new(units).unwrap());
    }
    assert_eq!(spelled, source);
    out
}

/// The one line of `source`.
fn line_of(source: &str, units: &[Piece]) -> Line {
    lines_of(source, &[units]).pop().unwrap()
}

/// All tokens that `tokenizer` still has.
fn drain(tokenizer: &mut LineTokenizer, interner: &mut Interner) -> Vec<Token> {
    let mut tokens = Vec::new();
    while let Some(token) = tokenizer.next(interner).unwrap() {
        tokens.push(token);
    }
    tokens
}

fn span(start: u32, end: u32) -> Span {
    Span::new(start, end).unwrap()
}

#[test]
fn test_indent() {
    let test_str = "x=1\n    y=2\nz=3\n";
    let file = lines_of(
        test_str,
        &[
            &[ident("x"), eq(), integer("1"), nl()],
            &[ws("    "), ident("y"), eq(), integer("2"), nl()],
            &[ident("z"), eq(), integer("3"), nl()],
        ],
    );

    let mut interner = Interner::new();
    let mut tokenizer = Lexer::new(file, 4);

    let mut tokens: Vec<_> = tokenizer.collect(&mut interner).unwrap();
    // The stream ends in the end-of-input token; the 14 tokens of the three
    // lines stand before it.
    assert_eq!(tokens.pop(), Some(Token::EndOfInput));

    assert_eq!(tokens.len(), 14);
    assert_eq!(tokens.first(), Some(&Token::Identifier(interner.intern_or_get("x"))));
    assert_eq!(tokens.get(1), Some(&Token::Operator(Operator::Eq)));
    assert_eq!(tokens.get(2), Some(&Token::Literal(Literal::Integer(1))));
    assert_eq!(tokens.get(3), Some(&Token::Newline));
    // y=2
    assert_eq!(tokens.get(4), Some(&Token::Indent));
    assert_eq!(tokens.get(5), Some(&Token::Identifier(interner.intern_or_get("y"))));
    assert_eq!(tokens.get(6), Some(&Token::Operator(Operator::Eq)));
    assert_eq!(tokens.get(7), Some(&Token::Literal(Literal::Integer(2))));
    assert_eq!(tokens.get(8), Some(&Token::Newline));
    // z=3
    assert_eq!(tokens.get(9), Some(&Token::Dedent));
    assert_eq!(tokens.get(10), Some(&Token::Identifier(interner.intern_or_get("z"))));
    assert_eq!(tokens.get(11), Some(&Token::Operator(Operator::Eq)));
    assert_eq!(tokens.get(12), Some(&Token::Literal(Literal::Integer(3))));
    assert_eq!(tokens.get(13), Some(&Token::Newline));
}

#[test]
fn test_single_line() {
    let test_str = "x = 1 \n";
    let file = lines_of(
        test_str,
        &[&[ident("x"), ws(" "), eq(), ws(" "), integer("1"), ws(" "), nl()]],
    );

    let mut interner = Interner::new();
    let mut lexer = Lexer::new(file, 4);

    let tokens: Vec<_> = lexer.collect(&mut interner).unwrap();

    let expected = vec![
        Token::Identifier(interner.intern_or_get("x")),
        Token::Operator(Operator::Eq),
        Token::Literal(Literal::Integer(1)),
        Token::Newline,
        Token::EndOfInput,
    ];

    assert_eq!(expected, tokens);
}

#[test]
fn test_two_lines() {
    let test_str = "x=1\ny=2\n";
    let file = lines_of(
        test_str,
        &[&[ident("x"), eq(), integer("1"), nl()], &[ident("y"), eq(), integer("2"), nl()]],
    );

    let mut interner = Interner::new();
    let mut lexer = Lexer::new(file, 4);

    let tokens: Vec<_> = lexer.collect(&mut interner).unwrap();

    let x_sym = interner.intern_or_get("x");
    let y_sym = interner.intern_or_get("y");

    let expected = vec![
        Token::Identifier(x_sym),
        Token::Operator(Operator::Eq),
        Token::Literal(Literal::Integer(1)),
        Token::Newline,
        Token::Identifier(y_sym),
        Token::Operator(Operator::Eq),
        Token::Literal(Literal::Integer(2)),
        Token::Newline,
        Token::EndOfInput,
    ];

    assert_eq!(expected, tokens);
}

#[test]
fn test_two_line_indent() {
    let test_str = "x=1\n    y=2\n";
    let file = lines_of(
        test_str,
        &[
            &[ident("x"), eq(), integer("1"), nl()],
            &[ws("    "), ident("y"), eq(), integer("2"), nl()],
        ],
    );

    let mut interner = Interner::new();
    let mut lexer = Lexer::new(file, 4);

    let tokens: Vec<_> = lexer.collect(&mut interner).unwrap();

    let x_sym = interner.intern_or_get("x");
    let y_sym = interner.intern_or_get("y");

    let expected = vec![
        Token::Identifier(x_sym),
        Token::Operator(Operator::Eq),
        Token::Literal(Literal::Integer(1)),
        Token::Newline,
        Token::Indent,
        Token::Identifier(y_sym),
        Token::Operator(Operator::Eq),
        Token::Literal(Literal::Integer(2)),
        Token::Newline,
        Token::Dedent,
        Token::EndOfInput,
    ];

    assert_eq!(expected, tokens);
}

#[test]
fn test_multiple_line_indent() {
    let test_str = "x=1\n    y=2\n    z = 3 \nphi = 4 \n";
    let file = lines_of(
        test_str,
        &[
            &[ident("x"), eq(), integer("1"), nl()],
            &[ws("    "), ident("y"), eq(), integer("2"), nl()],
            &[ws("    "), ident("z"), ws(" "), eq(), ws(" "), integer("3"), ws(" "), nl()],
            &[ident("phi"), ws(" "), eq(), ws(" "), integer("4"), ws(" "), nl()],
        ],
    );

    let mut interner = Interner::new();
    let mut lexer = Lexer::new(file, 4);

    let tokens: Vec<_> = lexer.collect(&mut interner).unwrap();

    let x_sym = interner.intern_or_get("x");
    let y_sym = interner.intern_or_get("y");
    let z_sym = interner.intern_or_get("z");
    let phi_sym = interner.intern_or_get("phi");

    let expected = vec![
        Token::Identifier(x_sym),
        Token::Operator(Operator::Eq),
        Token::Literal(Literal::Integer(1)),
        Token::Newline,
        Token::Indent,
        Token::Identifier(y_sym),
        Token::Operator(Operator::Eq),
        Token::Literal(Literal::Integer(2)),
        Token::Newline,
        Token::Identifier(z_sym),
        Token::Operator(Operator::Eq),
        Token::Literal(Literal::Integer(3)),
        Token::Newline,
        Token::Dedent,
        Token::Identifier(phi_sym),
        Token::Operator(Operator::Eq),
        Token::Literal(Literal::Integer(4)),
        Token::Newline,
        Token::EndOfInput,
    ];

    assert_eq!(expected, tokens);
}

#[test]
fn test_if() {
    let test_str = "if x\n  then\n    y\n  else\n    z\n";
    let file = lines_of(
        test_str,
        &[
            &[kw(Keyword::If, "if"), ws(" "), ident("x"), nl()],
            &[ws("  "), kw(Keyword::Then, "then"), nl()],
            &[ws("    "), ident("y"), nl()],
            &[ws("  "), kw(Keyword::Else, "else"), nl()],
            &[ws("    "), ident("z"), nl()],
        ],
    );

    let mut interner = Interner::new();
    let mut lexer = Lexer::new(file, 4);

    let tokens: Vec<_> = lexer.collect(&mut interner).unwrap();

    let x_sym = interner.intern_or_get("x");
    let y_sym = interner.intern_or_get("y");
    let z_sym = interner.intern_or_get("z");

    let expected = vec![
        Token::Keyword(Keyword::If),
        Token::Identifier(x_sym),
        Token::Newline,
        Token::Indent,
        Token::Keyword(Keyword::Then),
        Token::Newline,
        Token::Indent,
        Token::Identifier(y_sym),
        Token::Newline,
        Token::Dedent,
        Token::Keyword(Keyword::Else),
        Token::Newline,
        Token::Indent,
        Token::Identifier(z_sym),
        Token::Newline,
        Token::Dedent,
        Token::Dedent,
        Token::EndOfInput,
    ];

    assert_eq!(expected, tokens);
}

#[test]
fn test_empty() {
    let test_str = "\n";
    let line = line_of(test_str, &[nl()]);

    let mut interner = Interner::new();
    let mut line_tokenizer = LineTokenizer::new(line);

    let tokens: Vec<Token> = drain(&mut line_tokenizer, &mut interner);
    let expected: Vec<Token> = vec![Token::Newline];

    assert_eq!(expected, tokens);
}

#[test]
fn test_int_assign() {
    let test_str = "foo =1 \n";
    let line = line_of(test_str, &[ident("foo"), ws(" "), eq(), integer("1"), ws(" "), nl()]);

    let mut interner = Interner::new();
    let mut line_tokenizer = LineTokenizer::new(line);

    let tokens: Vec<_> = drain(&mut line_tokenizer, &mut interner);
    let expected: Vec<_> = vec![
        Token::Identifier(interner.intern_or_get("foo")),
        Token::Operator(Operator::Eq),
        Token::Literal(Literal::Integer(1)),
        Token::Newline,
    ];

    assert_eq!(expected, tokens);
}

#[test]
fn test_negative_float_assign() {
    let test_str = "bar = -1.1 \n";
    let line = line_of(
        test_str,
        &[
            ident("bar"),
            ws(" "),
            eq(),
            ws(" "),
            atom(AtomKind::Operator(Operator::Negate), "-"),
            atom(AtomKind::Float, "1.1"),
            ws(" "),
            nl(),
        ],
    );

    let mut interner = Interner::new();
    let mut line_tokenizer = LineTokenizer::new(line);

    let tokens: Vec<_> = drain(&mut line_tokenizer, &mut interner);
    // A float token holds the place of its text in the source.
    let expected: Vec<_> = vec![
        Token::Identifier(interner.intern_or_get("bar")),
        Token::Operator(Operator::Eq),
        Token::Operator(Operator::Negate),
        Token::Literal(Literal::Float(span(7, 10))),
        Token::Newline,
    ];

    assert_eq!(expected, tokens);
    assert_eq!(test_str[7..10].parse::<f64>(), Ok(1.1));
    // The float did not reach the interner.
    assert_eq!(interner.count(), 1);
}

#[test]
fn test_line_comment() {
    let test_str = "--345\n";
    let line = line_of(test_str, &[comment("--345"), nl()]);

    let mut interner = Interner::new();
    let mut line_tokenizer = LineTokenizer::new(line);

    let tokens: Vec<_> = drain(&mut line_tokenizer, &mut interner);
    let expected: Vec<_> = vec![Token::Newline];

    assert_eq!(expected, tokens);
}

#[test]
fn test_character_assign() {
    let test_str = "c = 'c' \n";
    let line = line_of(
        test_str,
        &[ident("c"), ws(" "), eq(), ws(" "), atom(AtomKind::Character, "'c'"), ws(" "), nl()],
    );

    let mut interner = Interner::new();
    let mut line_tokenizer = LineTokenizer::new(line);

    let tokens: Vec<_> = drain(&mut line_tokenizer, &mut interner);
    let expected: Vec<_> = vec![
        Token::Identifier(interner.intern_or_get("c")),
        Token::Operator(Operator::Eq),
        Token::Literal(Literal::Char('c')),
        Token::Newline,
    ];

    assert_eq!(expected, tokens);
}

#[test]
fn test_string_assign() {
    let test_str = "s = \"I love the way you lie.\" \n";
    let line = line_of(
        test_str,
        &[
            ident("s"),
            ws(" "),
            eq(),
            ws(" "),
            atom(AtomKind::String, "\"I love the way you lie.\""),
            ws(" "),
            nl(),
        ],
    );

    let mut interner = Interner::new();
    let mut line_tokenizer = LineTokenizer::new(line);

    let tokens: Vec<Token> = drain(&mut line_tokenizer, &mut interner);
    let s_sym = interner.intern_or_get("s");
    let lit_sym = interner.intern_or_get("I love the way you lie.");

    let expected = vec![
        Token::Identifier(s_sym),
        Token::Operator(Operator::Eq),
        Token::Literal(Literal::String(lit_sym)),
        Token::Newline,
    ];

    assert_eq!(expected, tokens);
    assert_eq!(interner.count(), 2);
}

#[test]
fn test_parse_line_space() {
    let test_str = "    x = 1 \n";
    let line = line_of(
        test_str,
        &[ws("    "), ident("x"), ws(" "), eq(), ws(" "), integer("1"), ws(" "), nl()],
    );

    let mut interner = Interner::new();
    let line_tokenizer = LineTokenizer::new(line);

    let (indent_count, tokens) = line_tokenizer.parse_line(4, &mut interner).unwrap();

    assert_eq!(4, indent_count);

    let s_sym = interner.intern_or_get("x");

    let expected = vec![
        Token::Identifier(s_sym),
        Token::Operator(Operator::Eq),
        Token::Literal(Literal::Integer(1)),
        Token::Newline,
    ];

    assert_eq!(expected, tokens);
}

#[test]
fn test_parse_line_tab() {
    let test_str = "\ts = \"I love the way you lie.\"\n";
    let line = line_of(
        test_str,
        &[
            ws("\t"),
            ident("s"),
            ws(" "),
            eq(),
            ws(" "),
            atom(AtomKind::String, "\"I love the way you lie.\""),
            nl(),
        ],
    );

    let mut interner = Interner::new();
    let line_tokenizer = LineTokenizer::new(line);

    let (indent_count, tokens) = line_tokenizer.parse_line(4, &mut interner).unwrap();

    assert_eq!(4, indent_count);

    let s_sym = interner.intern_or_get("s");
    let lit_sym = interner.intern_or_get("I love the way you lie.");

    let expected = vec![
        Token::Identifier(s_sym),
        Token::Operator(Operator::Eq),
        Token::Literal(Literal::String(lit_sym)),
        Token::Newline,
    ];

    assert_eq!(expected, tokens);
}

#[test]
fn test_parse_line_hybrid() {
    let test_str = "  \t      s = \"I love the way you lie.\"\n";
    let line = line_of(
        test_str,
        &[
            ws("  \t      "),
            ident("s"),
            ws(" "),
            eq(),
            ws(" "),
            atom(AtomKind::String, "\"I love the way you lie.\""),
            nl(),
        ],
    );

    let mut interner = Interner::new();
    let line_tokenizer = LineTokenizer::new(line);

    let (indent_count, tokens) = line_tokenizer.parse_line(4, &mut interner).unwrap();

    assert_eq!(12, indent_count);

    let s_sym = interner.intern_or_get("s");
    let lit_sym = interner.intern_or_get("I love the way you lie.");

    let expected = vec![
        Token::Identifier(s_sym),
        Token::Operator(Operator::Eq),
        Token::Literal(Literal::String(lit_sym)),
        Token::Newline,
    ];

    assert_eq!(expected, tokens);
}

#[test]
fn indentation_is_the_sum_of_the_leading_runs() {
    // Runs of spaces and runs of tabs, one after the other: 2 + 2 * 8 + 1.
    let line = line_of(" \u{20}\t\t x\n", &[ws("  "), ws("\t\t"), ws(" "), ident("x"), nl()]);
    let mut interner = Interner::new();
    assert_eq!(LineTokenizer::new(line).parse_line(8, &mut interner).unwrap().0, 19);

    // Whitespace behind the first atom does not count.
    let line = line_of(" x  \t\n", &[ws(" "), ident("x"), ws("  \t"), nl()]);
    assert_eq!(LineTokenizer::new(line).parse_line(4, &mut interner).unwrap().0, 1);

    // A tab width of 0 makes tabs count nothing; the largest makes no overflow.
    let line = line_of("\t\t x\n", &[ws("\t\t "), ident("x"), nl()]);
    assert_eq!(LineTokenizer::new(line).parse_line(0, &mut interner).unwrap().0, 1);
    let line = line_of("\t\t x\n", &[ws("\t\t "), ident("x"), nl()]);
    assert_eq!(
        LineTokenizer::new(line).parse_line(u32::MAX, &mut interner).unwrap().0,
        2 * (u32::MAX as u64) + 1
    );
}

#[test]
fn a_dedent_to_no_enclosing_level_is_an_error() {
    // The stack is [0, 4, 8] when the line of width 6 comes.
    let source = "a\n    b\n        c\n      d\ne\n";
    let lines = || {
        lines_of(
            source,
            &[
                &[ident("a"), nl()],
                &[ws("    "), ident("b"), nl()],
                &[ws("        "), ident("c"), nl()],
                &[ws("      "), ident("d"), nl()],
                &[ident("e"), nl()],
            ],
        )
    };
    let failure = TokenizeError { kind: TokenizeErrorKind::IndentationError, span: span(18, 24) };

    let mut interner = Interner::new();
    assert_eq!(tokenize(lines(), 4, &mut interner), Err(failure));
    // The refused line was not read any further: `d` was never interned.
    assert_eq!(interner.count(), 3);

    let mut interner = Interner::new();
    let mut lexer = Lexer::new(lines(), 4);
    let mut tokens = Vec::new();
    let result = loop {
        match lexer.next(&mut interner) {
            Ok(Some(token)) => tokens.push(token),
            other => break other,
        }
    };
    assert_eq!(result, Err(failure));
    // Every token of the lines before came out; of the refused line none,
    // not even the `Dedent` to the nearest level.
    assert_eq!(
        tokens,
        vec![
            Token::Identifier(Symbol(0)),
            Token::Newline,
            Token::Indent,
            Token::Identifier(Symbol(1)),
            Token::Newline,
            Token::Indent,
            Token::Identifier(Symbol(2)),
            Token::Newline,
        ]
    );
    assert_eq!(lexer.state(), LexerState::Failed);
    // The failure is final.
    assert_eq!(lexer.next(&mut interner), Err(failure));
    assert_eq!(lexer.next(&mut interner), Err(failure));
    assert_eq!(lexer.collect(&mut interner), Err(failure));
}

#[test]
fn the_indent_stack_matches_levels_exactly() {
    let mut stack = IndentStack::new();
    assert_eq!(stack.top(), 0);
    assert_eq!(stack.depth(), 1);
    assert_eq!(stack.adjust(0), Some(IndentChange::Unchanged));
    assert_eq!(stack.adjust(4), Some(IndentChange::Indent));
    assert_eq!(stack.adjust(8), Some(IndentChange::Indent));
    assert_eq!(stack.adjust(8), Some(IndentChange::Unchanged));
    assert_eq!(stack.depth(), 3);
    assert_eq!(stack.adjust(6), None);
    assert_eq!(stack.adjust(2), None);
    assert_eq!(stack.adjust(7), None);
    assert_eq!(stack.depth(), 3);
    assert_eq!(stack.top(), 8);
    assert_eq!(stack.adjust(4), Some(IndentChange::Dedent(1)));
    assert_eq!(stack.top(), 4);
    assert_eq!(stack.adjust(9), Some(IndentChange::Indent));
    assert_eq!(stack.adjust(12), Some(IndentChange::Indent));
    assert_eq!(stack.adjust(0), Some(IndentChange::Dedent(3)));
    assert_eq!(stack.depth(), 1);
    assert_eq!(stack.adjust(3), Some(IndentChange::Indent));
    assert_eq!(stack.adjust(5), Some(IndentChange::Indent));
    assert_eq!(stack.close_all(), 2);
    assert_eq!(stack.depth(), 1);
    assert_eq!(stack.top(), 0);
    assert_eq!(stack.close_all(), 0);
}

#[test]
fn blank_lines_and_comment_lines_give_a_newline_and_leave_the_stack() {
    let source = "a\n  b\n\n      -- note\n   \n  c\n";
    let lines = lines_of(
        source,
        &[
            &[ident("a"), nl()],
            &[ws("  "), ident("b"), nl()],
            &[nl()],
            &[ws("      "), comment("-- note"), nl()],
            &[ws("   "), nl()],
            &[ws("  "), ident("c"), nl()],
        ],
    );
    let mut interner = Interner::new();
    let tokens = tokenize(lines, 4, &mut interner).unwrap();
    assert_eq!(
        tokens,
        vec![
            Token::Identifier(Symbol(0)),
            Token::Newline,
            Token::Indent,
            Token::Identifier(Symbol(1)),
            Token::Newline,
            Token::Newline,
            Token::Newline,
            Token::Newline,
            Token::Identifier(Symbol(2)),
            Token::Newline,
            Token::Dedent,
            Token::EndOfInput,
        ]
    );
}

#[test]
fn an_empty_source_gives_the_end_of_input_token() {
    let mut interner = Interner::new();
    assert_eq!(tokenize(Vec::new(), 4, &mut interner), Ok(vec![Token::EndOfInput]));

    let mut lexer = Lexer::new(Vec::new(), 4);
    assert_eq!(lexer.state(), LexerState::BetweenLines);
    assert_eq!(lexer.next(&mut interner), Ok(Some(Token::EndOfInput)));
    assert_eq!(lexer.state(), LexerState::Done);
    assert_eq!(lexer.next(&mut interner), Ok(None));
    assert_eq!(lexer.next(&mut interner), Ok(None));
    assert_eq!(lexer.state(), LexerState::Done);
    assert_eq!(interner.count(), 0);
}

#[test]
fn the_lexer_walks_through_its_states() {
    let source = "a\n  b\n";
    let lines = lines_of(source, &[&[ident("a"), nl()], &[ws("  "), ident("b"), nl()]]);
    let mut interner = Interner::new();
    let mut lexer = Lexer::new(lines, 4);

    assert_eq!(lexer.state(), LexerState::BetweenLines);
    assert_eq!(lexer.next(&mut interner), Ok(Some(Token::Identifier(Symbol(0)))));
    assert_eq!(lexer.state(), LexerState::WithinLine);
    // Only the line read so far has reached the interner.
    assert_eq!(interner.count(), 1);
    assert_eq!(lexer.next(&mut interner), Ok(Some(Token::Newline)));
    assert_eq!(lexer.state(), LexerState::BetweenLines);
    assert_eq!(lexer.next(&mut interner), Ok(Some(Token::Indent)));
    assert_eq!(lexer.state(), LexerState::WithinLine);
    assert_eq!(interner.count(), 2);
    assert_eq!(lexer.next(&mut interner), Ok(Some(Token::Identifier(Symbol(1)))));
    assert_eq!(lexer.next(&mut interner), Ok(Some(Token::Newline)));
    assert_eq!(lexer.state(), LexerState::BetweenLines);
    assert_eq!(lexer.next(&mut interner), Ok(Some(Token::Dedent)));
    assert_eq!(lexer.state(), LexerState::AtEndOfInput);
    assert_eq!(lexer.next(&mut interner), Ok(Some(Token::EndOfInput)));
    assert_eq!(lexer.state(), LexerState::Done);
    assert_eq!(lexer.next(&mut interner), Ok(None));
}

#[test]
fn several_dedents_wait_in_the_buffer() {
    let source = "a\n b\n  c\na\n";
    let lines = lines_of(
        source,
        &[
            &[ident("a"), nl()],
            &[ws(" "), ident("b"), nl()],
            &[ws("  "), ident("c"), nl()],
            &[ident("a"), nl()],
        ],
    );
    let mut interner = Interner::new();
    let mut lexer = Lexer::new(lines, 4);
    for _ in 0..8 {
        lexer.next(&mut interner).unwrap().unwrap();
    }
    assert_eq!(lexer.state(), LexerState::BetweenLines);
    assert_eq!(lexer.next(&mut interner), Ok(Some(Token::Dedent)));
    assert_eq!(lexer.state(), LexerState::DrainingBuffer);
    assert_eq!(lexer.next(&mut interner), Ok(Some(Token::Dedent)));
    assert_eq!(lexer.state(), LexerState::WithinLine);
    assert_eq!(
        lexer.collect(&mut interner),
        Ok(vec![Token::Identifier(Symbol(0)), Token::Newline, Token::EndOfInput])
    );
    assert_eq!(lexer.state(), LexerState::Done);
}

#[test]
fn indents_and_dedents_balance() {
    let source = "a\n b\n    c\n  d\n";
    let lines = lines_of(
        source,
        &[
            &[ident("a"), nl()],
            &[ws(" "), ident("b"), nl()],
            &[ws("    "), ident("c"), nl()],
            &[ws("  "), ident("d"), nl()],
        ],
    );
    let mut interner = Interner::new();
    // Width 2 is no open level of [0, 1, 4].
    assert_eq!(
        tokenize(lines, 4, &mut interner),
        Err(TokenizeError { kind: TokenizeErrorKind::IndentationError, span: span(11, 13) })
    );

    let source = "a\n b\n    c\n d\n   e\n";
    let lines = lines_of(
        source,
        &[
            &[ident("a"), nl()],
            &[ws(" "), ident("b"), nl()],
            &[ws("    "), ident("c"), nl()],
            &[ws(" "), ident("d"), nl()],
            &[ws("   "), ident("e"), nl()],
        ],
    );
    let tokens = tokenize(lines, 4, &mut interner).unwrap();
    let indents = tokens.iter().filter(|t| **t == Token::Indent).count();
    let dedents = tokens.iter().filter(|t| **t == Token::Dedent).count();
    assert_eq!(indents, 3);
    assert_eq!(dedents, 3);
    assert_eq!(tokens.last(), Some(&Token::EndOfInput));
    assert_eq!(tokens.iter().filter(|t| **t == Token::EndOfInput).count(), 1);
    assert_eq!(&tokens[tokens.len() - 3..], &[Token::Dedent, Token::Dedent, Token::EndOfInput]);
}

#[test]
fn the_tab_width_decides_the_level() {
    let source = "a\n\tb\n    c\n";
    let lines = || {
        lines_of(
            source,
            &[&[ident("a"), nl()], &[ws("\t"), ident("b"), nl()], &[ws("    "), ident("c"), nl()]],
        )
    };
    let mut interner = Interner::new();
    let with_4 = tokenize(lines(), 4, &mut interner).unwrap();
    assert_eq!(with_4.iter().filter(|t| **t == Token::Indent).count(), 1);
    let with_2 = tokenize(lines(), 2, &mut interner).unwrap();
    assert_eq!(with_2.iter().filter(|t| **t == Token::Indent).count(), 2);
    let with_8 = tokenize(lines(), 8, &mut interner);
    assert_eq!(
        with_8,
        Err(TokenizeError { kind: TokenizeErrorKind::IndentationError, span: span(5, 9) })
    );
}

#[test]
fn every_atom_class_has_its_token() {
    let mut interner = Interner::new();
    let pairs = [
        (AtomKind::Keyword(Keyword::Let), "let", Token::Keyword(Keyword::Let)),
        (AtomKind::Keyword(Keyword::In), "in", Token::Keyword(Keyword::In)),
        (AtomKind::Keyword(Keyword::Match), "match", Token::Keyword(Keyword::Match)),
        (AtomKind::Keyword(Keyword::Case), "case", Token::Keyword(Keyword::Case)),
        (AtomKind::Keyword(Keyword::Import), "import", Token::Keyword(Keyword::Import)),
        (AtomKind::Keyword(Keyword::Export), "export", Token::Keyword(Keyword::Export)),
        (AtomKind::Keyword(Keyword::Class), "class", Token::Keyword(Keyword::Class)),
        (AtomKind::Keyword(Keyword::Instance), "instance", Token::Keyword(Keyword::Instance)),
        (AtomKind::Keyword(Keyword::Data), "data", Token::Keyword(Keyword::Data)),
        (AtomKind::Keyword(Keyword::Type), "type", Token::Keyword(Keyword::Type)),
        (AtomKind::Operator(Operator::Arrow), "->", Token::Operator(Operator::Arrow)),
        (AtomKind::Operator(Operator::Add), "+", Token::Operator(Operator::Add)),
        (AtomKind::Operator(Operator::Div), "/", Token::Operator(Operator::Div)),
        (AtomKind::Operator(Operator::Mul), "*", Token::Operator(Operator::Mul)),
        (AtomKind::Delimiter(Delimiter::LParen), "(", Token::Delimiter(Delimiter::LParen)),
        (AtomKind::Delimiter(Delimiter::RParen), ")", Token::Delimiter(Delimiter::RParen)),
        (AtomKind::Delimiter(Delimiter::Comma), ",", Token::Delimiter(Delimiter::Comma)),
        (AtomKind::Delimiter(Delimiter::Annotate), "::", Token::Delimiter(Delimiter::Annotate)),
        (AtomKind::Delimiter(Delimiter::UnderScore), "_", Token::Delimiter(Delimiter::UnderScore)),
        (AtomKind::Integer, "-42", Token::Literal(Literal::Integer(-42))),
        (AtomKind::Character, "'λ'", Token::Literal(Literal::Char('λ'))),
    ];
    let at = span(10, 20);
    for (kind, text, token) in pairs {
        assert_eq!(classify_atom(kind, text, at, &mut interner), Ok(token));
    }
    // The class decides, not the text: a name that reads like a reserved word
    // is a name, and none of the atoms above was interned.
    assert_eq!(interner.count(), 0);
    assert_eq!(
        classify_atom(AtomKind::Identifier, "let", at, &mut interner),
        Ok(Token::Identifier(Symbol(0)))
    );
    assert_eq!(
        classify_atom(AtomKind::String, "\"a \\n b\"", at, &mut interner),
        Ok(Token::Literal(Literal::String(Symbol(1))))
    );
    // No escape is processed: the backslash and the `n` stay two characters.
    assert_eq!(interner.resolve(Symbol(1)), Some("a \\n b"));
    assert_eq!(
        classify_atom(AtomKind::String, "\"\"", at, &mut interner),
        Ok(Token::Literal(Literal::String(Symbol(2))))
    );
    assert_eq!(interner.resolve(Symbol(2)), Some(""));
    // A float keeps its span and leaves the interner alone.
    assert_eq!(
        classify_atom(AtomKind::Float, "2.5e-3", span(4, 10), &mut interner),
        Ok(Token::Literal(Literal::Float(span(4, 10))))
    );
    assert_eq!(interner.count(), 3);
}

#[test]
fn malformed_literals_are_errors() {
    let mut interner = Interner::new();
    let failure = Err(TokenizeErrorKind::LiteralParseError);
    let at = span(0, 0);
    for text in ["", "12a", "9223372036854775808", "--1", "1.0", " 1"] {
        assert_eq!(classify_atom(AtomKind::Integer, text, at, &mut interner), failure);
    }
    for text in ["", "''", "'ab'", "'", "a"] {
        assert_eq!(classify_atom(AtomKind::Character, text, at, &mut interner), failure);
    }
    for text in ["", "\""] {
        assert_eq!(classify_atom(AtomKind::String, text, at, &mut interner), failure);
    }
    for text in ["", ".", "1.2.3", "e5", "1e", "1e+", "abc", "1,5", "nan", "inf", "1e5e5"] {
        assert_eq!(classify_atom(AtomKind::Float, text, at, &mut interner), failure);
    }
    assert_eq!(interner.count(), 0);
}

#[test]
fn a_malformed_literal_stops_the_lexer_at_its_line() {
    let source = "a = 1\nb = 99999999999999999999\nc = 3\n";
    let lines = lines_of(
        source,
        &[
            &[ident("a"), ws(" "), eq(), ws(" "), integer("1"), nl()],
            &[ident("b"), ws(" "), eq(), ws(" "), integer("99999999999999999999"), nl()],
            &[ident("c"), ws(" "), eq(), ws(" "), integer("3"), nl()],
        ],
    );
    let failure = TokenizeError { kind: TokenizeErrorKind::LiteralParseError, span: span(10, 30) };
    let mut interner = Interner::new();
    let mut lexer = Lexer::new(lines, 4);
    let mut tokens = Vec::new();
    let result = loop {
        match lexer.next(&mut interner) {
            Ok(Some(token)) => tokens.push(token),
            other => break other,
        }
    };
    assert_eq!(result, Err(failure));
    assert_eq!(
        tokens,
        vec![
            Token::Identifier(Symbol(0)),
            Token::Operator(Operator::Eq),
            Token::Literal(Literal::Integer(1)),
            Token::Newline,
        ]
    );
    // The atoms before the malformed one were read: `b` is interned, `c` is not.
    assert_eq!(interner.count(), 2);
    assert_eq!(interner.resolve(Symbol(1)), Some("b"));
    assert_eq!(lexer.state(), LexerState::Failed);
    assert_eq!(lexer.next(&mut interner), Err(failure));
}

#[test]
fn a_line_needs_its_terminator_and_its_units_in_order() {
    let unit = |kind, text: &str, start: u32| {
        Unit::new(kind, text.to_string(), span(start, start + text.len() as u32)).unwrap()
    };
    let name = UnitKind::Atom(AtomKind::Identifier);
    assert!(Line::new(vec![]).is_none());
    assert!(Line::new(vec![unit(name, "a", 0)]).is_none());
    assert!(Line::new(vec![unit(UnitKind::Newline, "\n", 0)]).is_some());
    assert!(Line::new(vec![unit(name, "a", 0), unit(UnitKind::Newline, "\n", 1)]).is_some());
    // Units may leave gaps, but may not overlap or go back.
    assert!(Line::new(vec![unit(name, "a", 0), unit(UnitKind::Newline, "\n", 5)]).is_some());
    assert!(Line::new(vec![unit(name, "ab", 0), unit(UnitKind::Newline, "\n", 1)]).is_none());
    assert!(Line::new(vec![unit(name, "a", 3), unit(UnitKind::Newline, "\n", 0)]).is_none());
    // One terminator, at the end.
    assert!(Line::new(vec![unit(UnitKind::Newline, "\n", 0), unit(name, "a", 1)]).is_none());
    assert!(Line::new(vec![
        unit(UnitKind::Newline, "\n", 0),
        unit(UnitKind::Newline, "\n", 1)
    ])
    .is_none());
    // The span of a unit has the length of its text in bytes.
    assert!(Unit::new(name, "é".to_string(), span(0, 1)).is_none());
    assert!(Unit::new(name, "é".to_string(), span(0, 2)).is_some());
    assert!(Unit::new(name, "".to_string(), span(7, 7)).is_some());
    assert!(LineTokenizer::new_line_pairs(vec![unit(name, "a", 0)]).is_none());
    let mut interner = Interner::new();
    let mut tokenizer =
        LineTokenizer::new_line_pairs(vec![unit(name, "a", 0), unit(UnitKind::Newline, "\n", 1)])
            .unwrap();
    assert_eq!(tokenizer.next(&mut interner), Ok(Some(Token::Identifier(Symbol(0)))));
    assert_eq!(tokenizer.next(&mut interner), Ok(Some(Token::Newline)));
    assert_eq!(tokenizer.next(&mut interner), Ok(None));
    assert_eq!(tokenizer.next(&mut interner), Ok(None));
}

#[test]
fn a_full_interner_stops_the_lexer_at_a_new_name() {
    let source = "a = a\nb\n";
    let lines = lines_of(
        source,
        &[&[ident("a"), ws(" "), eq(), ws(" "), ident("a"), nl()], &[ident("b"), nl()]],
    );
    let mut interner = Interner::with_symbol_limit(2);
    interner.intern_or_get("z");
    let failure =
        TokenizeError { kind: TokenizeErrorKind::InternerCapacityError, span: span(6, 7) };
    let mut lexer = Lexer::new(lines, 4);
    // The first `a` takes the last symbol. The second `a` is held, so it
    // gets its symbol though the interner is full.
    assert_eq!(lexer.next(&mut interner), Ok(Some(Token::Identifier(Symbol(1)))));
    assert_eq!(lexer.next(&mut interner), Ok(Some(Token::Operator(Operator::Eq))));
    assert_eq!(lexer.next(&mut interner), Ok(Some(Token::Identifier(Symbol(1)))));
    assert_eq!(lexer.next(&mut interner), Ok(Some(Token::Newline)));
    // The new name `b` finds no room.
    assert_eq!(lexer.next(&mut interner), Err(failure));
    assert_eq!(lexer.state(), LexerState::Failed);
    assert_eq!(interner.count(), 2);
    assert_eq!(interner.resolve(Symbol(1)), Some("a"));
    assert_eq!(lexer.next(&mut interner), Err(failure));

    // Atoms that are not interned need no room, floats among them.
    let lines = lines_of("1 = 'c' 1.5\n", &[&[
        integer("1"),
        ws(" "),
        eq(),
        ws(" "),
        atom(AtomKind::Character, "'c'"),
        ws(" "),
        atom(AtomKind::Float, "1.5"),
        nl(),
    ]]);
    assert_eq!(
        tokenize(lines, 4, &mut interner),
        Ok(vec![
            Token::Literal(Literal::Integer(1)),
            Token::Operator(Operator::Eq),
            Token::Literal(Literal::Char('c')),
            Token::Literal(Literal::Float(span(8, 11))),
            Token::Newline,
            Token::EndOfInput,
        ])
    );
    let at = span(0, 3);
    assert_eq!(
        classify_atom(AtomKind::String, "\"s\"", at, &mut interner),
        Err(TokenizeErrorKind::InternerCapacityError)
    );
    assert_eq!(
        classify_atom(AtomKind::String, "\"z\"", at, &mut interner),
        Ok(Token::Literal(Literal::String(Symbol(0))))
    );
    assert_eq!(
        classify_atom(AtomKind::Identifier, "c", at, &mut interner),
        Err(TokenizeErrorKind::InternerCapacityError)
    );
    assert_eq!(
        classify_atom(AtomKind::Float, "1.5.", at, &mut interner),
        Err(TokenizeErrorKind::LiteralParseError)
    );
}

#[test]
fn a_line_tokenizer_holds_its_failure() {
    let source = "x = 9223372036854775808\n";
    let units: &[Piece] =
        &[ident("x"), ws(" "), eq(), ws(" "), integer("9223372036854775808"), nl()];
    let failure = TokenizeError { kind: TokenizeErrorKind::LiteralParseError, span: span(4, 23) };
    let mut interner = Interner::new();
    let mut tokenizer = LineTokenizer::new(line_of(source, units));
    assert_eq!(tokenizer.next(&mut interner), Ok(Some(Token::Identifier(Symbol(0)))));
    assert_eq!(tokenizer.next(&mut interner), Ok(Some(Token::Operator(Operator::Eq))));
    // The literal is one more than the largest 64-bit integer.
    assert_eq!(tokenizer.next(&mut interner), Err(failure));
    // No further token comes: not the `Newline` behind the literal either.
    assert_eq!(tokenizer.next(&mut interner), Err(failure));
    assert_eq!(tokenizer.next(&mut interner), Err(failure));
    assert_eq!(tokenizer.parse_line(4, &mut interner), Err(failure));
    assert_eq!(interner.count(), 1);

    // The same line read in one go, and as the line of a source.
    let tokenizer = LineTokenizer::new(line_of(source, units));
    assert_eq!(tokenizer.parse_line(4, &mut interner), Err(failure));
    assert_eq!(tokenize(lines_of(source, &[units]), 4, &mut interner), Err(failure));
}

#[test]
fn the_parts_of_a_line_can_be_read_one_by_one() {
    let line = line_of(
        "  f x -- call\n",
        &[ws("  "), ident("f"), ws(" "), ident("x"), ws(" "), comment("-- call"), nl()],
    );
    assert_eq!(line.len(), 7);
    assert_eq!(line.unit(0).kind(), UnitKind::WhitespaceRun);
    assert_eq!(line.unit(1).kind(), UnitKind::Atom(AtomKind::Identifier));
    assert_eq!(line.unit(1).text(), "f");
    assert_eq!(line.unit(1).span(), span(2, 3));
    assert_eq!(line.unit(5).kind(), UnitKind::Comment);
    assert_eq!(line.unit(5).text(), "-- call");
    assert_eq!(line.unit(5).span(), span(6, 13));
    assert_eq!(line.unit(6).kind(), UnitKind::Newline);

    assert!(has_atom(&line));
    assert_eq!(measure_indent(&line, 0, 4), 2);
    // From the first atom on there is no indentation; from a run on, that run.
    assert_eq!(measure_indent(&line, 1, 4), 0);
    assert_eq!(measure_indent(&line, 2, 4), 1);
    assert_eq!(measure_indent(&line, 7, 4), 0);

    let mut interner = Interner::new();
    assert_eq!(unit_token(line.unit(0), &mut interner), Ok(None));
    assert_eq!(unit_token(line.unit(5), &mut interner), Ok(None));
    assert_eq!(unit_token(line.unit(6), &mut interner), Ok(Some(Token::Newline)));
    assert_eq!(interner.count(), 0);
    assert_eq!(unit_token(line.unit(3), &mut interner), Ok(Some(Token::Identifier(Symbol(0)))));
    assert_eq!(
        tokenize_units(&line, 0, &mut interner),
        Ok(vec![Token::Identifier(Symbol(1)), Token::Identifier(Symbol(0)), Token::Newline])
    );
    assert_eq!(
        tokenize_units(&line, 2, &mut interner),
        Ok(vec![Token::Identifier(Symbol(0)), Token::Newline])
    );
    assert_eq!(tokenize_units(&line, 7, &mut interner), Ok(vec![]));

    let blank = line_of("   -- nothing\n", &[ws("   "), comment("-- nothing"), nl()]);
    assert!(!has_atom(&blank));
    assert_eq!(measure_indent(&blank, 0, 4), 3);

    // A tokenizer that has handed out some tokens reads on from where it stands.
    let mut tokenizer = LineTokenizer::new(line);
    assert_eq!(tokenizer.next(&mut interner), Ok(Some(Token::Identifier(Symbol(1)))));
    assert_eq!(
        tokenizer.parse_line(4, &mut interner),
        Ok((1, vec![Token::Identifier(Symbol(0)), Token::Newline]))
    );
}
