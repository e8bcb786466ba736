use complgen::augment::AugmentedRegex;
use complgen::bash::write_completion_script;
use complgen::compile::compile;
use complgen::dfa::DFA;
use complgen::error::Error;
use complgen::grammar::Expr::{Alternative, Command, Described, Literal, Many1, Optional, Sequence, Variable};
use complgen::grammar::Statement::{CallVariant as Call, VariableDefinition as Definition};
use complgen::grammar::{expr as read_expr, parse as read, terminal_expr as read_terminal, Expr, Grammar as G};
use complgen::regex::{Input, MatchAnythingInput, Regex};
use complgen::resolve::resolve_variables;
use std::rc::Rc;

fn s(text: &str) -> String {
    text.to_string()
}

fn lit(text: &str) -> Rc<Expr> {
    Rc::new(Literal(s(text)))
}

fn var(text: &str) -> Rc<Expr> {
    Rc::new(Variable(s(text)))
}

fn compiled(grammar: &str) -> (DFA, DFA) {
    let validated = read(grammar).unwrap().validate().unwrap();
    let regex = AugmentedRegex::from_expr(&validated.expr);
    let dfa = DFA::from_regex(&regex);
    let small = dfa.minimize();
    (dfa, small)
}

fn accepts(dfa: &DFA, words: &[&str]) -> bool {
    fn go(dfa: &DFA, state: usize, words: &[&str]) -> bool {
        match words.split_first() {
            None => dfa.is_accepting(state),
            Some((word, rest)) => dfa.get_transitions_from(state).into_iter().any(|(label, to)| {
                let taken = match dfa.label(label) {
                    Input::Literal(token, _) => token == word,
                    Input::Any(_) => true,
                };
                taken && go(dfa, to, rest)
            }),
        }
    }
    go(dfa, dfa.starting_state(), words)
}

#[test]
fn parse_reports_trailing_input() {
    assert_eq!(read("foo bar; baz"), Err(Error::TrailingInput(s("baz"))));
    assert_eq!(read("foo (bar;"), Err(Error::TrailingInput(s("foo (bar;"))));
    assert_eq!(read("  \n"), Ok(G { statements: vec![] }));
}

#[test]
fn parse_keeps_escapes_in_terminals() {
    let (rest, e) = read_terminal(r"a\;b c").unwrap();
    assert_eq!(rest, " c");
    assert_eq!(e, Literal(s(r"a\;b")));
    assert_eq!(read_terminal(r"a\x"), Err(Error::ParsingError(s("terminal"))));
    assert_eq!(read_terminal(""), Err(Error::ParsingError(s("terminal"))));
    assert_eq!(read_expr("<>"), Err(Error::ParsingError(s("expression"))));
}

#[test]
fn parse_reads_commands_and_descriptions() {
    let (rest, e) = read_expr(r#"--all "every one" { ls -1 | sort }..."#).unwrap();
    assert_eq!(rest, "");
    assert_eq!(
        e,
        Sequence(vec![
            Rc::new(Described(s("--all"), s("every one"))),
            Rc::new(Many1(Rc::new(Command(s("ls -1 | sort"))))),
        ])
    );
}

#[test]
fn validate_rejects_empty_grammar() {
    let g = read("<A> ::= b;").unwrap();
    assert_eq!(g.validate(), Err(Error::EmptyGrammar));
}

#[test]
fn validate_rejects_varying_commands() {
    let g = read("zip a; tar b; zip c; ar d;").unwrap();
    assert_eq!(
        g.validate(),
        Err(Error::VaryingCommandNames(vec![s("ar"), s("tar"), s("zip")]))
    );
}

#[test]
fn validate_rejects_cycles() {
    let g = read("cmd <A>; <A> ::= x <B>; <B> ::= [<C>]; <C> ::= <A> | y; <D> ::= z;").unwrap();
    match g.validate() {
        Err(Error::CyclicVariables(cycle)) => {
            assert_eq!(cycle.len(), 3);
            let mut sorted = cycle.clone();
            sorted.sort();
            assert_eq!(sorted, vec![s("A"), s("B"), s("C")]);
            let at = cycle.iter().position(|n| n == "A").unwrap();
            assert_eq!(cycle[(at + 1) % 3], "B");
            assert_eq!(cycle[(at + 2) % 3], "C");
        },
        other => panic!("{:?}", other),
    }
    let g = read("cmd x; <A> ::= <A>;").unwrap();
    assert_eq!(g.validate(), Err(Error::CyclicVariables(vec![s("A")])));
}

#[test]
fn validate_resolves_definitions_in_depth() {
    let g = read("cmd <A> <FILE>; cmd stop; <C> ::= deep; <A> ::= <B> | <C>; <B> ::= [<C>];").unwrap();
    let v = g.validate().unwrap();
    assert_eq!(v.command, "cmd");
    assert_eq!(
        *v.expr,
        Alternative(vec![
            Rc::new(Sequence(vec![
                Rc::new(Alternative(vec![Rc::new(Optional(lit("deep"))), lit("deep")])),
                var("FILE"),
            ])),
            lit("stop"),
        ])
    );
}

#[test]
fn validate_takes_the_last_definition() {
    let g = read("cmd <A>; <A> ::= first; <A> ::= second;").unwrap();
    assert_eq!(*g.validate().unwrap().expr, Literal(s("second")));
}

#[test]
fn resolution_is_idempotent() {
    let vars = vec![(s("A"), lit("a")), (s("B"), Rc::new(Optional(lit("b"))))];
    let body = Rc::new(Sequence(vec![var("A"), Rc::new(Many1(var("B"))), var("FREE")]));
    let once = resolve_variables(Rc::clone(&body), &vars);
    assert_eq!(
        *once,
        Sequence(vec![lit("a"), Rc::new(Many1(Rc::new(Optional(lit("b"))))), var("FREE")])
    );
    let twice = resolve_variables(Rc::clone(&once), &vars);
    assert_eq!(once, twice);
}

#[test]
fn resolution_replaces_one_level() {
    let vars = vec![(s("A"), var("B")), (s("B"), lit("b"))];
    assert_eq!(*resolve_variables(var("A"), &vars), Variable(s("B")));
}

#[test]
fn leaves_are_numbered_from_left_to_right() {
    let e = Sequence(vec![
        lit("a"),
        Rc::new(Alternative(vec![var("X"), Rc::new(Described(s("b"), s("bee")))])),
        Rc::new(Command(s("ls"))),
    ]);
    let regex = AugmentedRegex::from_expr(&e);
    assert_eq!(regex.endmarker(), 4);
    assert_eq!(
        *regex.inputs(),
        vec![
            Input::Literal(s("a"), None),
            Input::Any(MatchAnythingInput::Nonterminal(s("X"))),
            Input::Literal(s("b"), Some(s("bee"))),
            Input::Any(MatchAnythingInput::Command(s("ls"))),
        ]
    );
    assert_eq!(
        *regex.root(),
        Regex::Sequence(vec![
            Regex::Sequence(vec![
                Regex::Leaf(0),
                Regex::Alternative(vec![Regex::Leaf(1), Regex::Leaf(2)]),
                Regex::Leaf(3),
            ]),
            Regex::Leaf(4),
        ])
    );
}

#[test]
fn position_sets_follow_the_rules() {
    // (a | [b]) c... with the end marker behind
    let e = Sequence(vec![
        Rc::new(Alternative(vec![lit("a"), Rc::new(Optional(lit("b")))])),
        Rc::new(Many1(lit("c"))),
    ]);
    let regex = AugmentedRegex::from_expr(&e);
    assert!(!regex.nullable());
    assert_eq!(regex.firstpos().bits, vec![true, true, true, false]);
    assert_eq!(regex.lastpos().bits, vec![false, false, false, true]);
    let follow = regex.followpos();
    assert_eq!(follow[0].bits, vec![false, false, true, false]);
    assert_eq!(follow[1].bits, vec![false, false, true, false]);
    assert_eq!(follow[2].bits, vec![false, false, true, true]);
    assert_eq!(follow[3].bits, vec![false, false, false, false]);

    // the parts: [b] alone, and c... alone
    match regex.root() {
        Regex::Sequence(both) => match &both[0] {
            Regex::Sequence(members) => {
                match &members[0] {
                    Regex::Alternative(choices) => {
                        assert!(!choices[0].nullable());
                        assert!(choices[1].nullable());
                        assert_eq!(choices[1].firstpos(4).bits, vec![false, true, false, false]);
                    },
                    other => panic!("{:?}", other),
                }
                assert!(members[0].nullable());
                assert!(!members[1].nullable());
                assert_eq!(members[1].lastpos(4).bits, vec![false, false, true, false]);
                assert_eq!(members[1].followpos(4)[2].bits, vec![false, false, true, false]);
            },
            other => panic!("{:?}", other),
        },
        other => panic!("{:?}", other),
    }
}

#[test]
fn automaton_is_built_from_position_sets() {
    let (dfa, _) = compiled("cmd (a | [b]) c...;");
    assert_eq!(dfa.states(), 3);
    assert_eq!(dfa.labels(), 3);
    assert_eq!(dfa.positions(0).bits, vec![true, true, true, false]);
    assert_eq!(dfa.get_transitions_from(0), vec![(0, 1), (1, 1), (2, 2)]);
    assert_eq!(dfa.get_transitions_from(1), vec![(2, 2)]);
    assert_eq!(dfa.get_transitions_from(2), vec![(2, 2)]);
    assert!(!dfa.is_accepting(0) && !dfa.is_accepting(1) && dfa.is_accepting(2));
    assert_eq!(dfa.target(0, 2), Some(2));
    assert_eq!(dfa.target(1, 0), None);
}

#[test]
fn labels_ignore_descriptions_and_keep_the_first() {
    let (dfa, _) = compiled(r#"cmd (--x "first" | --x "second" | --x) <F> <F>;"#);
    assert_eq!(dfa.labels(), 2);
    assert_eq!(*dfa.label(0), Input::Literal(s("--x"), Some(s("first"))));
    assert_eq!(dfa.get_transitions_from(0), vec![(0, 1)]);
}

#[test]
fn minimization_merges_states_that_behave_alike() {
    let (dfa, small) = compiled("cmd (a c | b c);");
    assert_eq!(dfa.states(), 4);
    assert_eq!(small.states(), 3);
    assert_eq!(small.starting_state(), 0);
    assert_eq!(small.get_transitions_from(0), vec![(0, 1), (2, 1)]);
    assert_eq!(small.get_transitions_from(1), vec![(1, 2)]);
    assert!(small.is_accepting(2));
    assert_eq!(small.positions(1).bits, vec![false, true, false, true, false]);
}

#[test]
fn minimization_preserves_the_language() {
    let (dfa, small) = compiled("git (add | rm) [--force] <FILE>... | git status [--short | -s];");
    assert!(small.states() <= dfa.states());
    let lines: Vec<Vec<&str>> = vec![
        vec![],
        vec!["git"],
        vec!["git", "add"],
        vec!["git", "add", "x"],
        vec!["git", "rm", "--force", "x", "y", "z"],
        vec!["git", "rm", "--force"],
        vec!["git", "status"],
        vec!["git", "status", "-s"],
        vec!["git", "status", "-s", "--short"],
        vec!["git", "commit"],
        vec!["add", "x"],
    ];
    for line in &lines {
        assert_eq!(accepts(&dfa, line), accepts(&small, line), "{:?}", line);
    }
    assert!(accepts(&small, &["add", "--force"]));
    assert!(accepts(&small, &["rm", "--force", "--force"]));
    assert!(accepts(&small, &["git", "status", "--short"]));
    assert!(!accepts(&small, &["git", "status", "x"]));
}

#[test]
fn transitions_are_deterministic() {
    let (dfa, small) = compiled("cmd (a b | a c | <X> d | <X> e | { run } | { run } f);");
    for automaton in [&dfa, &small] {
        for state in 0..automaton.states() {
            let out = automaton.get_transitions_from(state);
            for (i, (x, _)) in out.iter().enumerate() {
                for (y, _) in &out[i + 1..] {
                    assert!(x < y);
                    assert!(!automaton.label(*x).same_label(automaton.label(*y)));
                }
            }
        }
    }
}

#[test]
fn bash_script_names_the_command() {
    let (dfa, _) = compiled("cmd a;");
    let mut buffer = String::from("# head");
    write_completion_script(&mut buffer, "cmd", &dfa).unwrap();
    assert_eq!(
        buffer,
        "# head\n_cmd_completions () {\n  COMPREPLY+=(\"now\")\n  COMPREPLY+=(\"tomorrow\")\n  COMPREPLY+=(\"never\")\n}\n\ncomplete -F _cmd_completions cmd\n"
    );
}

fn allows(e: &Expr, words: &[&str]) -> bool {
    fn in_row(cs: &[Rc<Expr>], words: &[&str]) -> bool {
        match cs.split_first() {
            None => words.is_empty(),
            Some((c, rest)) => {
                (0..=words.len()).any(|k| allows(c, &words[..k]) && in_row(rest, &words[k..]))
            },
        }
    }
    fn repeated(c: &Expr, words: &[&str]) -> bool {
        allows(c, words)
            || (1..words.len()).any(|k| allows(c, &words[..k]) && repeated(c, &words[k..]))
    }
    match e {
        Literal(t) | Described(t, _) => words.len() == 1 && words[0] == t,
        Variable(_) | Command(_) => words.len() == 1,
        Sequence(cs) => in_row(cs, words),
        Alternative(cs) => cs.iter().any(|c| allows(c, words)),
        Optional(c) => words.is_empty() || allows(c, words),
        Many1(c) => repeated(c, words),
    }
}

fn lines(vocabulary: &[&'static str], length: usize) -> Vec<Vec<&'static str>> {
    let mut all: Vec<Vec<&'static str>> = vec![vec![]];
    let mut last: Vec<Vec<&'static str>> = vec![vec![]];
    for _ in 0..length {
        let mut next = Vec::new();
        for line in &last {
            for word in vocabulary {
                let mut longer = line.clone();
                longer.push(*word);
                next.push(longer);
            }
        }
        all.extend(next.iter().cloned());
        last = next;
    }
    all
}

#[test]
fn automaton_accepts_what_the_expression_allows() {
    let grammars = [
        "c a;",
        "c a b;",
        "c (a | b) a;",
        "c [a] b;",
        "c [a]... b;",
        "c (a b)... [x];",
        "c a... a;",
        "c [a | b]... [<X>] b;",
        "c <X> a | a <X> | { run };",
        "c ([a] [b])...;",
        "c (a | a b | [b] x)... ; c x x;",
        "c <V> <W>; <V> ::= a | [<W>]; <W> ::= b...;",
    ];
    let vocabulary = ["a", "b", "x"];
    for grammar in grammars {
        let validated = read(grammar).unwrap().validate().unwrap();
        let dfa = compile(&validated.expr).unwrap();
        let full = DFA::from_regex(&AugmentedRegex::from_expr(&validated.expr));
        for line in lines(&vocabulary, 5) {
            let expected = allows(&validated.expr, &line);
            assert_eq!(accepts(&dfa, &line), expected, "{} {:?}", grammar, line);
            assert_eq!(accepts(&full, &line), expected, "{} {:?}", grammar, line);
        }
    }
}
