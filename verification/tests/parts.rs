use complgen::augment::leaf_count;
use complgen::bash::{write_decimal, write_dfa_state};
use complgen::dfa::DFA;
use complgen::grammar::{parse, Expr};
use complgen::posset::PositionSet;
use complgen::regex::AugmentedRegex;
use complgen::text::{
    chars_less, chars_of, chars_start_with, insert_sorted, split_at_tab, split_lines, str_equal, string_of,
};
use std::rc::Rc;

fn v(text: &str) -> Vec<char> {
    text.chars().collect()
}

#[test]
fn strings_are_ordered_by_code_point() {
    let ordered = ["", "-", "--", "-a", "A", "Ab", "B", "a", "ab", "b", "é", "日本", "🦀"];
    for (i, a) in ordered.iter().enumerate() {
        for (j, b) in ordered.iter().enumerate() {
            assert_eq!(chars_less(&v(a), &v(b)), i < j, "{:?} {:?}", a, b);
            assert_eq!(chars_less(&v(a), &v(b)), a < b);
            assert_eq!(str_equal(a, b), i == j);
        }
    }
}

#[test]
fn text_helpers_agree_with_std() {
    assert_eq!(chars_of("aé🦀"), vec!['a', 'é', '🦀']);
    assert_eq!(string_of(&v("aé🦀z"), 1, 3), "é🦀");
    assert!(chars_start_with(&v("--help"), &v("--h")));
    assert!(chars_start_with(&v("--help"), &v("")));
    assert!(!chars_start_with(&v("--h"), &v("--help")));
    for text in ["", "\n", "a", "a\n", "a\nb", "a\r\nb\r", "\r\n\r\n", "a\n\nb\n\n", "\ra\r\n"] {
        let ours: Vec<String> = split_lines(&v(text)).into_iter().map(|l| l.into_iter().collect()).collect();
        let theirs: Vec<String> = text.lines().map(|l| l.to_string()).collect();
        assert_eq!(ours, theirs, "{:?}", text);
    }
    for line in ["", "\t", "a", "a\tb", "a\tb\tc", "\ta"] {
        let (first, second) = split_at_tab(&v(line));
        let theirs = line.split_once('\t').unwrap_or((line, ""));
        assert_eq!((first, second), (v(theirs.0), v(theirs.1)), "{:?}", line);
    }
}

#[test]
fn sorted_insertion_keeps_order_and_drops_repetitions() {
    let mut sorted: Vec<(Vec<char>, Vec<char>)> = Vec::new();
    for (a, b) in [("m", ""), ("a", "z"), ("m", ""), ("z", ""), ("a", ""), ("a", "z"), ("ma", "")] {
        insert_sorted(&mut sorted, (v(a), v(b)));
    }
    assert_eq!(
        sorted,
        vec![(v("a"), v("")), (v("a"), v("z")), (v("m"), v("")), (v("ma"), v("")), (v("z"), v(""))]
    );
}

#[test]
fn position_sets_are_sets() {
    let mut a = PositionSet::empty(5);
    assert!(a.is_empty());
    a.insert(3);
    a.insert(0);
    a.insert(3);
    assert_eq!(a.bits, vec![true, false, false, true, false]);
    assert!(a.contains(3) && !a.contains(1) && !a.contains(17));
    let mut b = PositionSet::empty(5);
    b.insert(1);
    assert!(!a.same_as(&b));
    b.union_with(&a);
    assert_eq!(b.bits, vec![true, true, false, true, false]);
    let c = b.duplicate();
    assert!(c.same_as(&b) && !c.is_empty());
}

#[test]
fn leaves_are_counted() {
    let g = parse("cmd a [<B> | c]... (d e f);").unwrap();
    let e: Rc<Expr> = g.validate().unwrap().expr;
    assert_eq!(leaf_count(&e), Some(6));
    assert_eq!(AugmentedRegex::from_expr(&e).endmarker(), 6);
}

#[test]
fn numbers_are_written_in_decimal() {
    for n in [0usize, 7, 10, 42, 99, 100, 1234567890, usize::MAX] {
        let mut buffer = String::from("n=");
        write_decimal(&mut buffer, n);
        assert_eq!(buffer, format!("n={}", n));
    }
}

#[test]
fn bash_state_function_has_a_branch_for_each_transition() {
    let validated = parse("cmd (add <FILE> | rm);").unwrap().validate().unwrap();
    let dfa = DFA::from_regex(&AugmentedRegex::from_expr(&validated.expr)).minimize();
    let mut buffer = String::new();
    write_dfa_state(&mut buffer, &dfa, 0).unwrap();
    assert_eq!(
        buffer,
        "\n_state_0 () {\n    case ${COMP_WORDS[$current_dfa_word]}\n\n        add)\n            current_dfa_word=$((current_dfa_word+1))\n            _state_1;;\n\n        rm)\n            current_dfa_word=$((current_dfa_word+1))\n            _state_2;;\n\n    esac\n}\n"
    );
    let mut buffer = String::new();
    write_dfa_state(&mut buffer, &dfa, 1).unwrap();
    assert_eq!(
        buffer,
        "\n_state_1 () {\n    case ${COMP_WORDS[$current_dfa_word]}\n\n        *)\n            current_dfa_word=$((current_dfa_word+1))\n            _state_2;;\n\n    esac\n}\n"
    );
}
