//! The Bash completion script.

use crate::dfa::{DfaView, DFA};
use crate::error::Error;
use crate::regex::{Input, InputView};
use crate::text::push_char;
use crate::StateId;
use vstd::prelude::*;
use vstd::string::StringExecFns;

verus! {

/// The digit for a number below ten.
pub open spec fn digit(n: nat) -> char {
    if n == 0 {
        '0'
    } else if n == 1 {
        '1'
    } else if n == 2 {
        '2'
    } else if n == 3 {
        '3'
    } else if n == 4 {
        '4'
    } else if n == 5 {
        '5'
    } else if n == 6 {
        '6'
    } else if n == 7 {
        '7'
    } else if n == 8 {
        '8'
    } else {
        '9'
    }
}

/// A number written in decimal digits.
pub open spec fn decimal(n: nat) -> Seq<char>
    decreases n,
{
    if n < 10 {
        seq![digit(n)]
    } else {
        decimal(n / 10).push(digit(n % 10))
    }
}

/// Appends `n`, in decimal digits, to `buffer`.
pub fn write_decimal(buffer: &mut String, n: usize)
    ensures
        final(buffer)@ == old(buffer)@ + decimal(n as nat),
    decreases n,
{
    if n >= 10 {
        write_decimal(buffer, n / 10);
    }
    let d = n % 10;
    let c = if d == 0 {
        '0'
    } else if d == 1 {
        '1'
    } else if d == 2 {
        '2'
    } else if d == 3 {
        '3'
    } else if d == 4 {
        '4'
    } else if d == 5 {
        '5'
    } else if d == 6 {
        '6'
    } else if d == 7 {
        '7'
    } else if d == 8 {
        '8'
    } else {
        '9'
    };
    push_char(buffer, c);
    proof {
        if n >= 10 {
            assert(buffer@ =~= old(buffer)@ + decimal((n / 10) as nat).push(digit((n % 10) as nat)));
        } else {
            assert(buffer@ =~= old(buffer)@ + seq![digit(n as nat)]);
        }
    }
}

/// The pattern that stands for a label in a `case` of Bash: the token of a
/// literal, `*` for what any word takes.
pub open spec fn pattern(label: InputView) -> Seq<char> {
    match label {
        InputView::Literal(token, _) => token,
        InputView::Any(_) => "*"@,
    }
}

/// The text of the branch of the Bash function for a state that goes on to
/// the state `to` on the label `label`.
pub open spec fn branch(label: InputView, to: StateId) -> Seq<char> {
    "\n        "@ + pattern(label)
        + ")\n            current_dfa_word=$((current_dfa_word+1))\n            _state_"@ + decimal(
        to as nat,
    ) + ";;\n"@
}

/// The branches for the transitions from `s` under the labels before the
/// `a`th, by ascending labels.
pub open spec fn branches(d: DfaView, s: StateId, a: nat) -> Seq<char>
    decreases a,
{
    if a == 0 {
        Seq::empty()
    } else if d.has(s, (a - 1) as usize) {
        branches(d, s, (a - 1) as nat) + branch(d.inputs[a - 1], d.next(s, (a - 1) as usize))
    } else {
        branches(d, s, (a - 1) as nat)
    }
}

/// The text of the Bash function for the state `s`: a `case` over the word
/// at hand with one branch for each transition from the state.
pub open spec fn state_function(d: DfaView, s: StateId) -> Seq<char> {
    "\n_state_"@ + decimal(s as nat) + " () {\n    case ${COMP_WORDS[$current_dfa_word]}\n"@ + branches(
        d,
        s,
        d.inputs.len(),
    ) + "\n    esac\n}\n"@
}

/// Appends the Bash function for the state `state` to `buffer`.
pub fn write_dfa_state(buffer: &mut String, dfa: &DFA, state: StateId) -> (r: Result<(), Error>)
    ensures
        r is Ok,
        final(buffer)@ == old(buffer)@ + state_function(dfa@, state),
{
    let ghost d = dfa@;
    buffer.append("\n_state_");
    write_decimal(buffer, state);
    buffer.append(" () {\n    case ${COMP_WORDS[$current_dfa_word]}\n");
    let ghost head = buffer@;
    let m = dfa.labels();
    let mut a: usize = 0;
    assert(buffer@ =~= head + branches(d, state, 0));
    while a < m
        invariant
            a <= m,
            m == d.inputs.len(),
            d == dfa@,
            buffer@ == head + branches(d, state, a as nat),
        decreases m - a,
    {
        let ghost before = buffer@;
        match dfa.target(state, a) {
            Some(to) => {
                buffer.append("\n        ");
                match dfa.label(a) {
                    Input::Literal(token, _) => {
                        buffer.append(token.as_str());
                    },
                    Input::Any(_) => {
                        buffer.append("*");
                    },
                }
                buffer.append(")\n            current_dfa_word=$((current_dfa_word+1))\n            _state_");
                write_decimal(buffer, to);
                buffer.append(";;\n");
                assert(buffer@ =~= before + branch(d.inputs[a as int], to));
                assert(before + branch(d.inputs[a as int], to) =~= head + (branches(d, state, a as nat)
                    + branch(d.inputs[a as int], to)));
            },
            None => {},
        }
        a += 1;
    }
    buffer.append("\n    esac\n}\n");
    assert(buffer@ =~= old(buffer)@ + state_function(d, state));
    Ok(())
}

/// The text of the Bash completion script for the command `command`.
pub open spec fn completion_script(command: Seq<char>) -> Seq<char> {
    "\n_"@ + command
        + "_completions () {\n  COMPREPLY+=(\"now\")\n  COMPREPLY+=(\"tomorrow\")\n  COMPREPLY+=(\"never\")\n}\n\ncomplete -F _"@
        + command + "_completions "@ + command + "\n"@
}

/// Appends the Bash completion script for `command` to `buffer`.
pub fn write_completion_script(buffer: &mut String, command: &str, _dfa: &DFA) -> (r: Result<
    (),
    Error,
>)
    ensures
        r is Ok,
        final(buffer)@ == old(buffer)@ + completion_script(command@),
{
    buffer.append("\n_");
    buffer.append(command);
    buffer.append(
        "_completions () {\n  COMPREPLY+=(\"now\")\n  COMPREPLY+=(\"tomorrow\")\n  COMPREPLY+=(\"never\")\n}\n\ncomplete -F _",
    );
    buffer.append(command);
    buffer.append("_completions ");
    buffer.append(command);
    buffer.append("\n");
    assert(buffer@ =~= old(buffer)@ + completion_script(command@));
    Ok(())
}

} // verus!
