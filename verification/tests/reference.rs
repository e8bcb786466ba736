use complgen::grammar::{expr as read_expr, parse as read_grammar, Expr, Statement};
use nom::branch::alt;
use nom::bytes::complete::{escaped, is_not, tag, take_while1};
use nom::character::complete::{char, multispace0, multispace1, one_of};
use nom::combinator::fail;
use nom::error::context;
use nom::multi::many0;
use nom::IResult;
use std::rc::Rc;

// The grammar once more, written with parser combinators, to hold the
// library's readers against.

fn terminal(input: &str) -> IResult<&str, &str> {
    fn is_terminal_char(c: char) -> bool {
        c.is_ascii() && (c.is_ascii_alphanumeric() || c == '-' || c == '+' || c == '_')
    }
    let (input, term) = escaped(take_while1(is_terminal_char), '\\', one_of(r#"()[]<>.|;"#))(input)?;
    if term.len() == 0 {
        return fail(input);
    }
    Ok((input, term))
}

fn terminal_expr(input: &str) -> IResult<&str, Expr> {
    let (input, literal) = context("terminal", terminal)(input)?;
    Ok((input, Expr::Literal(literal.to_string())))
}

fn symbol(input: &str) -> IResult<&str, &str> {
    let (input, _) = char('<')(input)?;
    let (input, name) = is_not(">")(input)?;
    let (input, _) = char('>')(input)?;
    Ok((input, name))
}

fn symbol_expr(input: &str) -> IResult<&str, Expr> {
    let (input, nonterm) = context("symbol", symbol)(input)?;
    Ok((input, Expr::Variable(nonterm.to_string())))
}

fn optional_expr(input: &str) -> IResult<&str, Expr> {
    let (input, _) = char('[')(input)?;
    let (input, _) = multispace0(input)?;
    let (input, e) = expr(input)?;
    let (input, _) = multispace0(input)?;
    let (input, _) = char(']')(input)?;
    Ok((input, Expr::Optional(Rc::new(e))))
}

fn parenthesized_expr(input: &str) -> IResult<&str, Expr> {
    let (input, _) = char('(')(input)?;
    let (input, _) = multispace0(input)?;
    let (input, e) = expr(input)?;
    let (input, _) = multispace0(input)?;
    let (input, _) = char(')')(input)?;
    Ok((input, e))
}

fn one_or_more_tag(input: &str) -> IResult<&str, ()> {
    let (input, _) = multispace0(input)?;
    let (input, _) = tag("...")(input)?;
    Ok((input, ()))
}

fn atom(input: &str) -> IResult<&str, Expr> {
    let (input, e) = alt((symbol_expr, optional_expr, parenthesized_expr, terminal_expr))(input)?;
    if let Ok((input, ())) = one_or_more_tag(input) {
        return Ok((input, Expr::Many1(Rc::new(e))));
    }
    Ok((input, e))
}

fn sequence_expr(input: &str) -> IResult<&str, Expr> {
    fn more(input: &str) -> IResult<&str, Expr> {
        let (input, _) = multispace0(input)?;
        atom(input)
    }
    let (mut input, left) = atom(input)?;
    let mut factors: Vec<Expr> = vec![left];
    loop {
        let Ok((pos, right)) = more(input) else { break };
        factors.push(right);
        input = pos;
    }
    let result = if factors.len() == 1 {
        factors.drain(..).next().unwrap()
    } else {
        Expr::Sequence(factors.into_iter().map(Rc::new).collect())
    };
    Ok((input, result))
}

fn alternative_expr(input: &str) -> IResult<&str, Expr> {
    fn more(input: &str) -> IResult<&str, Expr> {
        let (input, _) = multispace0(input)?;
        let (input, _) = char('|')(input)?;
        let (input, _) = multispace0(input)?;
        sequence_expr(input)
    }
    let (mut input, left) = sequence_expr(input)?;
    let mut elems: Vec<Expr> = vec![left];
    loop {
        let Ok((pos, right)) = more(input) else { break };
        elems.push(right);
        input = pos;
    }
    let result = if elems.len() == 1 {
        elems.drain(..).next().unwrap()
    } else {
        Expr::Alternative(elems.into_iter().map(Rc::new).collect())
    };
    Ok((input, result))
}

fn expr(input: &str) -> IResult<&str, Expr> {
    alternative_expr(input)
}

fn call_variant(input: &str) -> IResult<&str, Statement> {
    let (input, name) = terminal(input)?;
    let (input, _) = multispace1(input)?;
    let (input, e) = expr(input)?;
    let (input, _) = multispace0(input)?;
    let (input, _) = char(';')(input)?;
    Ok((input, Statement::CallVariant { lhs: name.to_string(), rhs: Rc::new(e) }))
}

fn variable_definition(input: &str) -> IResult<&str, Statement> {
    let (input, name) = symbol(input)?;
    let (input, _) = multispace0(input)?;
    let (input, _) = tag("::=")(input)?;
    let (input, _) = multispace0(input)?;
    let (input, e) = expr(input)?;
    let (input, _) = multispace0(input)?;
    let (input, _) = char(';')(input)?;
    Ok((input, Statement::VariableDefinition { symbol: name.to_string(), rhs: Rc::new(e) }))
}

fn statement(input: &str) -> IResult<&str, Statement> {
    let (input, stmt) = alt((call_variant, variable_definition))(input)?;
    let (input, _) = multispace0(input)?;
    Ok((input, stmt))
}

fn grammar(input: &str) -> IResult<&str, Vec<Statement>> {
    let (input, _) = multispace0(input)?;
    let (input, statements) = many0(statement)(input)?;
    let (input, _) = multispace0(input)?;
    Ok((input, statements))
}

/// All texts of up to `length` pieces out of `pieces`.
fn texts(pieces: &[&str], length: usize) -> Vec<String> {
    let mut all = vec![String::new()];
    let mut last = vec![String::new()];
    for _ in 0..length {
        let mut next = Vec::new();
        for text in &last {
            for piece in pieces {
                next.push(format!("{}{}", text, piece));
            }
        }
        all.extend(next.iter().cloned());
        last = next;
    }
    all
}

#[test]
fn expressions_are_read_as_the_combinators_read_them() {
    let pieces = ["a", "-b", " ", "<x y>", "<", ">", "[", "]", "(", ")", "...", ".", "|", r"\;", r"\", ";"];
    let mut count = 0;
    let mut all = texts(&pieces, 4);
    for text in [
        "a b c d e f",
        "a (b (c (d (e))))...",
        "[[[[a]...]...]...]...",
        "a | b c | [d | e f]... | (g)",
        r"--long\(opt\) <some symbol>... | x",
        "a|b|c|d|e|f",
        "(a b) (c d) (e f) ...",
        "a ... ... b",
        "<a><b><c>[d](e)f",
        "a (b | c",
        "a [b | c) d",
    ] {
        all.push(text.to_string());
    }
    for text in all {
        match (expr(&text), read_expr(&text)) {
            (Ok((rest, e)), Ok((ours_rest, ours))) => {
                assert_eq!(rest, ours_rest, "{:?}", text);
                assert_eq!(e, ours, "{:?}", text);
                count += 1;
            },
            (Err(_), Err(_)) => {},
            (theirs, ours) => panic!("{:?}: {:?} against {:?}", text, theirs, ours),
        }
    }
    assert!(count > 1000);
}

#[test]
fn grammars_are_read_as_the_combinators_read_them() {
    let pieces = ["cmd", " ", "\n", "<v>", "::=", ";", "a", "[b]", "(c | d)", "...", "|", "<", "::"];
    let mut read = 0;
    let mut all = texts(&pieces, 4);
    for text in [
        "cmd a; cmd b;\n<v> ::= c | d;\n",
        "cmd a; <v>::=[b]...;cmd (c | d) ;  ",
        "cmd a; cmd (b; cmd c;",
        "cmd a <v> ::= b;",
        "<v> ::= a; <w> ::= <v> | <w>; cmd <w>",
        "cmd\ta\r\n;\n\ncmd2 a;;",
    ] {
        all.push(text.to_string());
    }
    for text in all {
        let (rest, statements) = grammar(&text).unwrap();
        match read_grammar(&text) {
            Ok(g) => {
                assert_eq!(rest, "", "{:?}", text);
                assert_eq!(g.statements, statements, "{:?}", text);
                if !statements.is_empty() {
                    read += 1;
                }
            },
            Err(complgen::error::Error::TrailingInput(ours_rest)) => {
                assert_eq!(rest, ours_rest, "{:?}", text);
                assert!(!rest.is_empty());
            },
            Err(other) => panic!("{:?}: {:?}", text, other),
        }
    }
    assert!(read > 10);
}
