use complgen::grammar::Expr::{Alternative, Command, Described, Literal, Many1, Optional, Sequence, Variable};
use complgen::grammar::{expr, Expr};
use complgen::roundtrip::format_expr;
use std::rc::Rc;

fn s(text: &str) -> String {
    text.to_string()
}

fn lit(text: &str) -> Rc<Expr> {
    Rc::new(Literal(s(text)))
}

fn reread(e: &Expr) -> Expr {
    let text = format_expr(e);
    let (rest, read) = expr(&text).unwrap();
    assert_eq!(rest, "", "{}", text);
    read
}

#[test]
fn writes_expressions_as_grammar_text() {
    let e = Alternative(vec![
        Rc::new(Sequence(vec![
            lit("a"),
            Rc::new(Many1(Rc::new(Variable(s("FILE"))))),
            Rc::new(Optional(Rc::new(Alternative(vec![lit("b"), lit(r"c\;")])))),
        ])),
        Rc::new(Many1(Rc::new(Many1(lit("d"))))),
        Rc::new(Described(s("--e"), s("the fifth"))),
        Rc::new(Command(s("ls | wc"))),
        Rc::new(Alternative(vec![lit("f"), lit("g")])),
    ]);
    assert_eq!(
        format_expr(&e),
        r#"(a <FILE>... [b | c\;]) | (d...)... | --e "the fifth" | {ls | wc} | (f | g)"#
    );
}

#[test]
fn what_is_written_is_read_back() {
    let leaves = vec![
        Literal(s("--help")),
        Literal(s(r"semi\;colon")),
        Variable(s("second symbol")),
        Described(s("-v"), s("say more")),
        Command(s("git tag | sort")),
    ];
    for leaf in &leaves {
        assert_eq!(&reread(leaf), leaf);
        for wrap in [
            Optional(Rc::new(leaf.clone())),
            Many1(Rc::new(leaf.clone())),
            Many1(Rc::new(Many1(Rc::new(leaf.clone())))),
            Optional(Rc::new(Many1(Rc::new(Optional(Rc::new(leaf.clone())))))),
        ] {
            assert_eq!(reread(&wrap), wrap);
            for other in &leaves {
                let pair = vec![Rc::new(wrap.clone()), Rc::new(other.clone())];
                let seq = Sequence(pair.clone());
                let alt = Alternative(pair.clone());
                assert_eq!(reread(&seq), seq);
                assert_eq!(reread(&alt), alt);
                let nested = Alternative(vec![
                    Rc::new(seq.clone()),
                    Rc::new(Many1(Rc::new(alt.clone()))),
                    Rc::new(Alternative(vec![Rc::new(alt.clone()), Rc::new(seq.clone())])),
                ]);
                assert_eq!(reread(&nested), nested);
                let pairs = Sequence(vec![Rc::new(seq.clone()), Rc::new(alt.clone())]);
                assert_eq!(reread(&pairs), pairs);
            }
        }
    }
}

#[test]
fn long_sequences_and_alternatives_are_read_back() {
    let e = Sequence(vec![lit("a"), lit("b"), lit("c"), lit("d")]);
    assert_eq!(format_expr(&e), "a b c d");
    assert_eq!(reread(&e), e);
    let grouped = Sequence(vec![
        lit("a"),
        Rc::new(Sequence(vec![lit("b"), Rc::new(Sequence(vec![lit("c"), lit("d")]))])),
        Rc::new(Alternative(vec![lit("e"), lit("f"), Rc::new(Alternative(vec![lit("g"), lit("h")]))])),
    ]);
    assert_eq!(format_expr(&grouped), "a (b (c d)) (e | f | (g | h))");
    assert_eq!(reread(&grouped), grouped);
}
