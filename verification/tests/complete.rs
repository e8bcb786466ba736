use complgen::augment::AugmentedRegex;
use complgen::complete::{
    completions_at, get_completions, get_completions_for_input, get_match_final_state, requests_at,
    zsh_capture_script, Shell, ShellRequest,
};
use complgen::regex::{Input, MatchAnythingInput};
use complgen::dfa::DFA;
use complgen::grammar::parse;
use std::collections::HashSet;

fn compile(grammar: &str) -> DFA {
    let g = parse(grammar).unwrap();
    let validated = g.validate().unwrap();
    let regex = AugmentedRegex::from_expr(&validated.expr);
    let dfa = DFA::from_regex(&regex);
    dfa.minimize()
}

fn get_grammar_completions(
    grammar: &str,
    words_before_cursor: &[&str],
    completed_word_index: usize,
) -> Vec<(String, String)> {
    let dfa = compile(grammar);
    get_completions(&dfa, words_before_cursor, completed_word_index, &Vec::new())
}

fn names(completions: Vec<(String, String)>) -> HashSet<String> {
    HashSet::from_iter(completions.into_iter().map(|(completion, _)| completion))
}

fn set_of<const N: usize>(words: [&str; N]) -> HashSet<String> {
    HashSet::from_iter(words.map(|s| s.to_string()))
}

#[test]
fn completes_darcs_add() {
    const GRAMMAR: &str = r#"darcs add ( --boring | ( --case-ok | --reserved-ok ) | ( ( -r | --recursive ) | --not-recursive ) | ( --date-trick | --no-date-trick ) | --repodir <DIRECTORY> | --dry-run | --umask <UMASK> | ( --debug | --debug-verbose | --debug-http | ( -v | --verbose ) | ( -q | --quiet ) | --standard-verbosity ) | --timings | ( --posthook <COMMAND> | --no-posthook ) | ( --prompt-posthook | --run-posthook ) | ( --prehook <COMMAND> | --no-prehook ) | ( --prompt-prehook | --run-prehook ) ) ... ( <FILE> | <DIRECTORY> )...;"#;
    assert_eq!(get_grammar_completions(GRAMMAR, &[], 0), vec![("add".to_string(), "".to_string())]);

    let input = vec!["add"];
    let generated: HashSet<_> = names(get_grammar_completions(GRAMMAR, &input, 1));
    let expected = set_of(["--boring", "--debug", "--dry-run", "--no-prehook", "--prehook", "--quiet", "--reserved-ok", "--standard-verbosity", "--verbose", "-v", "--case-ok", "--debug-http", "--no-date-trick", "--not-recursive", "--prompt-posthook", "--recursive", "--run-posthook", "--timings", "-q", "--date-trick", "--debug-verbose", "--no-posthook", "--posthook", "--prompt-prehook", "--repodir", "--run-prehook", "--umask", "-r"]);
    assert_eq!(generated, expected);
}

#[test]
fn does_not_hang_on_many1_of_optional() {
    const GRAMMAR: &str = r#"grep [--help]...;"#;
    let input = vec!["--version"];
    let generated: HashSet<_> = HashSet::from_iter(get_grammar_completions(GRAMMAR, &input, 1));
    assert!(generated.is_empty());
}

#[test]
fn falls_through_optionals() {
    const GRAMMAR: &str = r#"
grep [<OPTION>]...;
<OPTION> ::= (--color [<WHEN>]) | --extended-regexp;
<WHEN> ::= always | never | auto;
"#;
    let input = vec!["--color"];
    let generated: HashSet<_> = names(get_grammar_completions(GRAMMAR, &input, 1));
    let expected = set_of(["always", "auto", "never", "--extended-regexp", "--color"]);
    assert_eq!(generated, expected);
}

#[test]
fn completes_after_command() {
    const GRAMMAR: &str = r#"
cargo [<toolchain>] (--version | --help);
<toolchain> ::= { rustup toolchain list | cut -d' ' -f1 | sed 's/^/+/' };
"#;
    let input = vec!["foo"];
    let generated: HashSet<_> = names(get_grammar_completions(GRAMMAR, &input, 1));
    let expected = set_of(["--version", "--help"]);
    assert_eq!(generated, expected);
}

#[test]
fn completes_after_variable() {
    const GRAMMAR: &str = r#"
grep (--context "print NUM lines of output context" <NUM> | --version | --help)...;
"#;
    let input = vec!["--context", "123"];
    let generated: HashSet<_> = names(get_grammar_completions(GRAMMAR, &input, 2));
    let expected = set_of(["--version", "--help", "--context"]);
    assert_eq!(generated, expected);
}

#[test]
fn completes_word_prefix() {
    const GRAMMAR: &str = r#"
grep (--help | --version);
"#;
    let input = vec!["--h"];
    let generated: HashSet<_> = names(get_grammar_completions(GRAMMAR, &input, 0));
    let expected = set_of(["--help"]);
    assert_eq!(generated, expected);
}

#[test]
fn completes_first_word_of_empty_line() {
    const GRAMMAR: &str = "grep (--help | --version);";
    let generated = get_grammar_completions(GRAMMAR, &[], 0);
    assert_eq!(
        generated,
        vec![("--help".to_string(), "".to_string()), ("--version".to_string(), "".to_string())]
    );
}

#[test]
fn completions_are_sorted_and_carry_descriptions() {
    const GRAMMAR: &str = r#"tool (zeta | alpha "first letter" | midway | alpha);"#;
    let generated = get_grammar_completions(GRAMMAR, &[], 0);
    assert_eq!(
        generated,
        vec![
            ("alpha".to_string(), "first letter".to_string()),
            ("midway".to_string(), "".to_string()),
            ("zeta".to_string(), "".to_string()),
        ]
    );
}

#[test]
fn cursor_state_is_none_where_words_lead_nowhere() {
    let dfa = compile("grep [--help]...;");
    assert_eq!(get_match_final_state(&dfa, &["--version"], 1), None);
    assert_eq!(get_match_final_state(&dfa, &["--version"], 0), Some(0));
    assert!(get_match_final_state(&dfa, &["--help", "--help"], 2).is_some());
    assert!(get_match_final_state(&dfa, &["--help", "--help"], 7).is_some());
}

#[test]
fn any_word_is_taken_by_a_nonterminal() {
    let dfa = compile("cp <SOURCE> (--force | <TARGET>);");
    let after = get_match_final_state(&dfa, &["anything at all"], 1).unwrap();
    let generated = completions_at(&dfa, after, "", &Vec::new());
    assert_eq!(generated, vec![("--force".to_string(), "".to_string())]);
}

#[test]
fn shell_is_asked_for_paths_directories_and_commands() {
    let dfa = compile("tool (<PATH> | <DIRECTORY> | { list things } | <OTHER> | plain);");
    let requests = requests_at(&dfa, 0, "pre", Shell::Bash);
    assert_eq!(
        requests,
        vec![
            ShellRequest::Run { shell: Shell::Bash, command: "compgen -A file pre".to_string() },
            ShellRequest::Run { shell: Shell::Bash, command: "compgen -A directory pre".to_string() },
            ShellRequest::Run { shell: Shell::Bash, command: "list things".to_string() },
        ]
    );
    let requests = requests_at(&dfa, 0, "pre", Shell::Zsh);
    assert_eq!(
        requests,
        vec![
            ShellRequest::CaptureZsh {
                completion_code: "_path_files".to_string(),
                user_input: "dummy pre".to_string()
            },
            ShellRequest::Run { shell: Shell::Zsh, command: "printf \"%s\\n\" pre*(/)".to_string() },
            ShellRequest::Run { shell: Shell::Zsh, command: "list things".to_string() },
        ]
    );
    let requests = requests_at(&dfa, 0, "pre", Shell::Fish);
    assert_eq!(
        requests,
        vec![
            ShellRequest::Run { shell: Shell::Fish, command: "__fish_complete_path pre".to_string() },
            ShellRequest::Run {
                shell: Shell::Fish,
                command: "__fish_complete_directories pre".to_string()
            },
            ShellRequest::Run { shell: Shell::Fish, command: "list things".to_string() },
        ]
    );
}

#[test]
fn shell_answers_become_completions() {
    let dfa = compile("tool (<PATH> | <DIRECTORY> | { list things } | <OTHER> | plain | other);");
    let replies = vec![
        Some("pfile\nother file\r\n".to_string()),
        None,
        Some("pear\tA fruit\nplum\napple\tNot offered\n\n".to_string()),
    ];
    let generated = completions_at(&dfa, 0, "p", &replies);
    assert_eq!(
        generated,
        vec![
            ("other file".to_string(), "".to_string()),
            ("pear".to_string(), "A fruit".to_string()),
            ("pfile".to_string(), "".to_string()),
            ("plain".to_string(), "".to_string()),
            ("plum".to_string(), "".to_string()),
        ]
    );
    let generated = completions_at(&dfa, 0, "", &vec![None, None]);
    assert_eq!(
        generated,
        vec![("other".to_string(), "".to_string()), ("plain".to_string(), "".to_string())]
    );
}

#[test]
fn shell_requests_are_built_from_the_prefix() {
    assert_eq!(
        Shell::Bash.complete_paths("src/"),
        ShellRequest::Run { shell: Shell::Bash, command: "compgen -A file src/".to_string() }
    );
    assert_eq!(
        Shell::Zsh.complete_directories(""),
        ShellRequest::Run { shell: Shell::Zsh, command: "printf \"%s\\n\" *(/)".to_string() }
    );
}

#[test]
fn literal_offers_its_token_where_the_prefix_fits() {
    let plain = Input::Literal("--help".to_string(), None);
    let described = Input::Literal("--help".to_string(), Some("say how".to_string()));
    assert_eq!(
        get_completions_for_input(&plain, "--h", None),
        vec![("--help".to_string(), "".to_string())]
    );
    assert_eq!(
        get_completions_for_input(&described, "", Some(&"ignored".to_string())),
        vec![("--help".to_string(), "say how".to_string())]
    );
    assert_eq!(get_completions_for_input(&plain, "--helpful", None), vec![]);
    assert_eq!(get_completions_for_input(&plain, "-x", None), vec![]);
}

#[test]
fn answers_are_split_into_lines_and_at_the_first_tab() {
    let command = Input::Any(MatchAnythingInput::Command("list".to_string()));
    let answer = "b\tsecond\tletter\r\na\n\nab\t\nb\tsecond\tletter".to_string();
    assert_eq!(
        get_completions_for_input(&command, "", Some(&answer)),
        vec![
            ("b".to_string(), "second\tletter".to_string()),
            ("a".to_string(), "".to_string()),
            ("".to_string(), "".to_string()),
            ("ab".to_string(), "".to_string()),
            ("b".to_string(), "second\tletter".to_string()),
        ]
    );
    assert_eq!(
        get_completions_for_input(&command, "a", Some(&answer)),
        vec![("a".to_string(), "".to_string()), ("ab".to_string(), "".to_string())]
    );
    assert_eq!(get_completions_for_input(&command, "a", None), vec![]);

    let path = Input::Any(MatchAnythingInput::Nonterminal("PATH".to_string()));
    let directory = Input::Any(MatchAnythingInput::Nonterminal("DIRECTORY".to_string()));
    let other = Input::Any(MatchAnythingInput::Nonterminal("FILE".to_string()));
    let listing = "src/\ta tab stays\nnot filtered\r".to_string();
    let expected = vec![
        ("src/\ta tab stays".to_string(), "".to_string()),
        ("not filtered\r".to_string(), "".to_string()),
    ];
    assert_eq!(get_completions_for_input(&path, "s", Some(&listing)), expected);
    assert_eq!(get_completions_for_input(&directory, "s", Some(&listing)), expected);
    assert_eq!(get_completions_for_input(&other, "", Some(&listing)), vec![]);
}

#[test]
fn zsh_capture_script_doubles_single_quotes() {
    assert_eq!(
        zsh_capture_script("pre\n", "_files -g '*.rs'", "post\n"),
        "pre\n_dummy () {\n_files -g ''*.rs''\n}\n\ncompdef _dummy dummy\npost\n"
    );
}

#[test]
fn dead_ends_are_not_tried_again() {
    let optional: Vec<String> = (0..40).map(|k| format!("[<V{}>]", k)).collect();
    let dfa = compile(&format!("cmd {} end;", optional.join(" ")));
    let mut words = vec!["w"; 40];
    assert!(get_match_final_state(&dfa, &words, 40).is_some());
    assert_eq!(
        get_completions(&dfa, &words, 40, &Vec::new()),
        vec![("end".to_string(), "".to_string())]
    );
    words.push("w");
    assert_eq!(get_match_final_state(&dfa, &words, 41), None);
    assert_eq!(get_completions(&dfa, &words, 41, &Vec::new()), vec![]);
}
