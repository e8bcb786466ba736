//! Completions: the state before the word at the cursor, and the words
//! that the transitions from it offer.

use crate::dfa::{follow, DfaView, DFA};
use crate::regex::{takes, Input, InputView, MatchAnythingInput, MatchAnythingView};
use crate::text::{
    chars_of, chars_start_with, insert_sorted, line_views, lines, pairs_of, slice_of, split_at_tab,
    split_lines, split_tab, str_equal, strictly_sorted, string_of, string_pairs, texts,
};
use crate::StateId;
use vstd::prelude::*;
use vstd::string::StringExecFns;

verus! {

/// The shell on whose behalf completions are computed.
#[derive(Debug, Clone, Copy, PartialEq, Eq)]
pub enum Shell {
    Bash,
    Fish,
    Zsh,
}

/// What is asked of the shell.
#[derive(Debug, Clone, PartialEq, Eq)]
pub enum ShellRequest {
    /// Run `command` in `shell` and hand back what it prints.
    Run { shell: Shell, command: String },
    /// Run the completion code `completion_code` in a Zsh that captures
    /// completions, for the command line `user_input`, and hand back what
    /// was captured.
    CaptureZsh { completion_code: String, user_input: String },
}

/// The mathematical value of a [`ShellRequest`].
pub enum RequestView {
    Run { shell: Shell, command: Seq<char> },
    CaptureZsh { completion_code: Seq<char>, user_input: Seq<char> },
}

impl View for ShellRequest {
    type V = RequestView;

    open spec fn view(&self) -> RequestView {
        match self {
            ShellRequest::Run { shell, command } => RequestView::Run { shell: *shell, command: command@ },
            ShellRequest::CaptureZsh { completion_code, user_input } => RequestView::CaptureZsh {
                completion_code: completion_code@,
                user_input: user_input@,
            },
        }
    }
}

/// The values of a list of requests.
pub open spec fn request_views(v: Seq<ShellRequest>) -> Seq<RequestView> {
    Seq::new(v.len(), |i: int| v[i]@)
}

/// What asks `shell` for the paths that begin with `prefix`.
pub open spec fn paths_request(shell: Shell, prefix: Seq<char>) -> RequestView {
    match shell {
        Shell::Bash => RequestView::Run { shell, command: "compgen -A file "@ + prefix },
        Shell::Fish => RequestView::Run { shell, command: "__fish_complete_path "@ + prefix },
        Shell::Zsh => RequestView::CaptureZsh {
            completion_code: "_path_files"@,
            user_input: "dummy "@ + prefix,
        },
    }
}

/// What asks `shell` for the directories that begin with `prefix`.
pub open spec fn directories_request(shell: Shell, prefix: Seq<char>) -> RequestView {
    match shell {
        Shell::Bash => RequestView::Run { shell, command: "compgen -A directory "@ + prefix },
        Shell::Fish => RequestView::Run { shell, command: "__fish_complete_directories "@ + prefix },
        Shell::Zsh => RequestView::Run { shell, command: "printf \"%s\\n\" "@ + prefix + "*(/)"@ },
    }
}

/// `head` and `tail`, one behind the other.
fn joined(head: &str, tail: &str) -> (r: String)
    ensures
        r@ == head@ + tail@,
{
    let mut r = String::from_str(head);
    r.append(tail);
    r
}

impl Shell {
    /// What to ask of this shell for the paths that begin with `prefix`.
    pub fn complete_paths(&self, prefix: &str) -> (r: ShellRequest)
        ensures
            r@ == paths_request(*self, prefix@),
    {
        match self {
            Shell::Bash => ShellRequest::Run { shell: Shell::Bash, command: joined("compgen -A file ", prefix) },
            Shell::Fish => ShellRequest::Run {
                shell: Shell::Fish,
                command: joined("__fish_complete_path ", prefix),
            },
            Shell::Zsh => ShellRequest::CaptureZsh {
                completion_code: String::from_str("_path_files"),
                user_input: joined("dummy ", prefix),
            },
        }
    }

    /// What to ask of this shell for the directories that begin with
    /// `prefix`.
    pub fn complete_directories(&self, prefix: &str) -> (r: ShellRequest)
        ensures
            r@ == directories_request(*self, prefix@),
    {
        match self {
            Shell::Bash => ShellRequest::Run {
                shell: Shell::Bash,
                command: joined("compgen -A directory ", prefix),
            },
            Shell::Fish => ShellRequest::Run {
                shell: Shell::Fish,
                command: joined("__fish_complete_directories ", prefix),
            },
            Shell::Zsh => {
                let mut command = joined("printf \"%s\\n\" ", prefix);
                command.append("*(/)");
                ShellRequest::Run { shell: Shell::Zsh, command }
            },
        }
    }
}

/// `s` with each single quote written twice.
pub open spec fn doubled_quotes(s: Seq<char>) -> Seq<char>
    decreases s.len(),
{
    if s.len() == 0 {
        Seq::empty()
    } else if s.last() == '\'' {
        doubled_quotes(s.drop_last()).push('\'').push('\'')
    } else {
        doubled_quotes(s.drop_last()).push(s.last())
    }
}

/// The text of the script that captures what the Zsh completion code
/// `completion_code` offers: the code, its single quotes doubled, as the
/// body of a completion function for the command `dummy`, between
/// `preamble` and `postamble`.
pub open spec fn capture_script(preamble: Seq<char>, completion_code: Seq<char>, postamble: Seq<char>) -> Seq<
    char,
> {
    preamble + "_dummy () {\n"@ + doubled_quotes(completion_code) + "\n}\n\ncompdef _dummy dummy\n"@
        + postamble
}

/// Writes the script that captures what the Zsh completion code
/// `completion_code` offers.
pub fn zsh_capture_script(preamble: &str, completion_code: &str, postamble: &str) -> (r: String)
    ensures
        r@ == capture_script(preamble@, completion_code@, postamble@),
{
    let code = chars_of(completion_code);
    let mut doubled: Vec<char> = Vec::new();
    let mut i: usize = 0;
    assert(code@.take(0) =~= Seq::<char>::empty());
    while i < code.len()
        invariant
            i <= code@.len(),
            doubled@ == doubled_quotes(code@.take(i as int)),
        decreases code@.len() - i,
    {
        proof {
            assert(code@.take(i + 1).drop_last() =~= code@.take(i as int));
            assert(code@.take(i + 1).last() == code@[i as int]);
        }
        if code[i] == '\'' {
            doubled.push('\'');
        }
        doubled.push(code[i]);
        i += 1;
    }
    assert(code@.take(i as int) =~= code@);
    let body = string_of(&doubled, 0, doubled.len());
    assert(doubled@.subrange(0, doubled@.len() as int) =~= doubled@);
    let mut r = String::from_str(preamble);
    r.append("_dummy () {\n");
    r.append(body.as_str());
    r.append("\n}\n\ncompdef _dummy dummy\n");
    r.append(postamble);
    r
}

/// Whether the shell is asked for the words that an input offers.
pub open spec fn asks(input: InputView) -> bool {
    match input {
        InputView::Any(MatchAnythingView::Command(_)) => true,
        InputView::Any(MatchAnythingView::Nonterminal(name)) => name == "PATH"@ || name == "DIRECTORY"@,
        InputView::Literal(_, _) => false,
    }
}

/// What the shell is asked for the words that an input offers.
pub open spec fn request_for(input: InputView, prefix: Seq<char>, shell: Shell) -> RequestView {
    match input {
        InputView::Any(MatchAnythingView::Command(command)) => RequestView::Run { shell, command },
        InputView::Any(MatchAnythingView::Nonterminal(name)) => if name == "PATH"@ {
            paths_request(shell, prefix)
        } else {
            directories_request(shell, prefix)
        },
        InputView::Literal(_, _) => arbitrary(),
    }
}

/// The completion and its description that a line of the shell's answer
/// stands for.
pub open spec fn entry(input: InputView, line: Seq<char>) -> (Seq<char>, Seq<char>) {
    match input {
        InputView::Any(MatchAnythingView::Command(_)) => split_tab(line),
        _ => (line, Seq::empty()),
    }
}

/// Whether a completion that the shell answered is kept. What a command
/// printed must begin with the prefix, if there is one.
pub open spec fn kept(input: InputView, prefix: Seq<char>, completion: Seq<char>) -> bool {
    match input {
        InputView::Any(MatchAnythingView::Command(_)) => prefix.len() == 0 || prefix.is_prefix_of(completion),
        _ => true,
    }
}

/// The description of a literal, empty where it has none.
pub open spec fn described(description: Option<Seq<char>>) -> Seq<char> {
    match description {
        Some(d) => d,
        None => Seq::empty(),
    }
}

/// The completions that the first `n` of the lines `ls` stand for and that
/// are kept, in the order of the lines.
pub open spec fn kept_entries(input: InputView, prefix: Seq<char>, ls: Seq<Seq<char>>, n: nat) -> Seq<
    (Seq<char>, Seq<char>),
>
    decreases n,
{
    if n == 0 || n > ls.len() {
        Seq::empty()
    } else if kept(input, prefix, entry(input, ls[n - 1]).0) {
        kept_entries(input, prefix, ls, (n - 1) as nat).push(entry(input, ls[n - 1]))
    } else {
        kept_entries(input, prefix, ls, (n - 1) as nat)
    }
}

/// The completions that a transition with the label `input` offers for a
/// word that begins with `prefix`, `reply` being the shell's answer if it
/// was asked and did answer: a literal offers its token where that begins
/// with the prefix; what the shell knows offers what the lines of the answer
/// stand for; anything else offers nothing.
pub open spec fn candidates(input: InputView, prefix: Seq<char>, reply: Option<Seq<char>>) -> Seq<
    (Seq<char>, Seq<char>),
> {
    match input {
        InputView::Literal(token, description) => if prefix.is_prefix_of(token) {
            seq![(token, described(description))]
        } else {
            Seq::empty()
        },
        InputView::Any(_) => if asks(input) && reply is Some {
            kept_entries(input, prefix, lines(reply->Some_0), lines(reply->Some_0).len())
        } else {
            Seq::empty()
        },
    }
}

/// Whether a transition with the label `input` offers the completion `c`.
pub open spec fn offers(
    input: InputView,
    prefix: Seq<char>,
    reply: Option<Seq<char>>,
    c: (Seq<char>, Seq<char>),
) -> bool {
    candidates(input, prefix, reply).contains(c)
}

/// The number of transitions from `s`, under the labels before the `a`th,
/// for which the shell is asked.
pub open spec fn asked_before(d: DfaView, s: StateId, a: nat) -> nat
    decreases a,
{
    if a == 0 {
        0
    } else if d.has(s, (a - 1) as usize) && asks(d.inputs[a - 1]) {
        asked_before(d, s, (a - 1) as nat) + 1
    } else {
        asked_before(d, s, (a - 1) as nat)
    }
}

/// What the shell is asked for the transitions from `s` under the labels
/// before the `a`th, by ascending labels.
pub open spec fn requests_before(d: DfaView, s: StateId, prefix: Seq<char>, shell: Shell, a: nat) -> Seq<
    RequestView,
>
    decreases a,
{
    if a == 0 {
        Seq::empty()
    } else if d.has(s, (a - 1) as usize) && asks(d.inputs[a - 1]) {
        requests_before(d, s, prefix, shell, (a - 1) as nat).push(request_for(d.inputs[a - 1], prefix, shell))
    } else {
        requests_before(d, s, prefix, shell, (a - 1) as nat)
    }
}

/// There is one request for each transition for which the shell is asked.
pub proof fn lemma_requests_count(d: DfaView, s: StateId, prefix: Seq<char>, shell: Shell, a: nat)
    ensures
        requests_before(d, s, prefix, shell, a).len() == asked_before(d, s, a),
    decreases a,
{
    if a > 0 {
        lemma_requests_count(d, s, prefix, shell, (a - 1) as nat);
    }
}

/// The shell's answer for the transition from `s` under the label numbered
/// `a`: the answers come in the order of the requests, and one that is
/// missing, or `None`, is a request that failed.
pub open spec fn reply_at(d: DfaView, s: StateId, a: usize, replies: Seq<Option<Seq<char>>>) -> Option<
    Seq<char>,
> {
    let k = asked_before(d, s, a as nat);
    if k < replies.len() {
        replies[k as int]
    } else {
        None
    }
}

/// The completions that the transitions from `s` offer.
pub open spec fn offered(d: DfaView, s: StateId, prefix: Seq<char>, replies: Seq<Option<Seq<char>>>) -> Set<
    (Seq<char>, Seq<char>),
> {
    Set::new(
        |c: (Seq<char>, Seq<char>)|
            exists|a: usize| #[trigger]
                d.has(s, a) && offers(d.inputs[a as int], prefix, reply_at(d, s, a, replies), c),
    )
}

/// The values of a list of answers.
pub open spec fn reply_views(v: Seq<Option<String>>) -> Seq<Option<Seq<char>>> {
    Seq::new(
        v.len(),
        |i: int|
            match v[i] {
                Some(s) => Some(s@),
                None => None,
            },
    )
}

/// The words of a command line.
pub open spec fn word_views(v: Seq<&str>) -> Seq<Seq<char>> {
    Seq::new(v.len(), |i: int| v[i]@)
}

/// Whether the words `words`, taken one by one, lead from `from` to `to`.
pub open spec fn runs(d: DfaView, from: StateId, words: Seq<Seq<char>>, to: StateId) -> bool {
    exists|path: Seq<usize>| d.spells(path, words) && follow(d.transitions, from, path) == Some(to)
}

/// The words before the one that is completed.
pub open spec fn words_before(words: Seq<Seq<char>>, index: usize) -> Seq<Seq<char>> {
    if index < words.len() {
        words.take(index as int)
    } else {
        words
    }
}

/// The word that is completed, as far as it is typed.
pub open spec fn prefix_of(words: Seq<Seq<char>>, index: usize) -> Seq<char> {
    if index < words.len() {
        words[index as int]
    } else {
        Seq::empty()
    }
}

/// No words lead from a state to itself.
pub proof fn lemma_runs_none(d: DfaView, s: StateId)
    ensures
        runs(d, s, Seq::empty(), s),
{
    let path = Seq::<usize>::empty();
    assert(d.spells(path, Seq::empty()) && follow(d.transitions, s, path) == Some(s));
}

/// A transition that the first word takes, and the other words from where it
/// leads, lead on.
pub proof fn lemma_runs_step(d: DfaView, s: StateId, a: usize, words: Seq<Seq<char>>, to: StateId)
    requires
        words.len() > 0,
        a < d.inputs.len(),
        d.has(s, a),
        takes(d.inputs[a as int], words[0]),
        runs(d, d.next(s, a), words.drop_first(), to),
    ensures
        runs(d, s, words, to),
{
    let rest = choose|path: Seq<usize>|
        d.spells(path, words.drop_first()) && follow(d.transitions, d.next(s, a), path) == Some(to);
    let path = seq![a] + rest;
    assert(path.drop_first() =~= rest);
    assert forall|i: int| 0 <= i < path.len() implies (#[trigger] path[i]) < d.inputs.len() && takes(
        d.inputs[path[i] as int],
        words[i],
    ) by {
        if i > 0 {
            assert(rest[i - 1] < d.inputs.len());
            assert(words.drop_first()[i - 1] == words[i]);
        }
    }
    assert(d.spells(path, words) && follow(d.transitions, s, path) == Some(to));
}

/// Words that lead on begin with a word that takes a transition, and the
/// other words lead on from where it leads.
pub proof fn lemma_runs_first(d: DfaView, s: StateId, words: Seq<Seq<char>>, to: StateId) -> (a: usize)
    requires
        words.len() > 0,
        runs(d, s, words, to),
    ensures
        a < d.inputs.len(),
        d.has(s, a),
        takes(d.inputs[a as int], words[0]),
        runs(d, d.next(s, a), words.drop_first(), to),
{
    let path = choose|path: Seq<usize>| d.spells(path, words) && follow(d.transitions, s, path) == Some(to);
    let a = path[0];
    let rest = path.drop_first();
    assert forall|i: int| 0 <= i < rest.len() implies (#[trigger] rest[i]) < d.inputs.len() && takes(
        d.inputs[rest[i] as int],
        words.drop_first()[i],
    ) by {
        assert(path[i + 1] < d.inputs.len());
    }
    assert(d.spells(rest, words.drop_first()) && follow(d.transitions, d.next(s, a), rest) == Some(to));
    a
}

/// Whether no words lead on from `from`.
pub open spec fn stuck(d: DfaView, from: StateId, words: Seq<Seq<char>>) -> bool {
    forall|to: StateId| !runs(d, from, words, to)
}

/// Whether `dead` remembers states from which words lead nowhere: where it
/// holds `true` for the place `i` and the state `s`, the words
/// `words[i..limit]` lead nowhere from `s`.
pub open spec fn remembers(dead: Seq<Vec<bool>>, d: DfaView, words: Seq<Seq<char>>, limit: int) -> bool {
    &&& dead.len() == limit + 1
    &&& forall|i: int| 0 <= i <= limit ==> (#[trigger] dead[i])@.len() == d.states()
    &&& forall|i: int, s: int|
        0 <= i <= limit && 0 <= s < d.states() && #[trigger] dead[i]@[s] ==> stuck(
            d,
            s as StateId,
            words.subrange(i, limit),
        )
}

/// A copy of `row` with `true` at `s`.
fn marked(row: &Vec<bool>, s: usize) -> (r: Vec<bool>)
    requires
        s < row@.len(),
    ensures
        r@ == row@.update(s as int, true),
{
    let mut out: Vec<bool> = Vec::new();
    let mut k: usize = 0;
    while k < row.len()
        invariant
            k <= row@.len(),
            s < row@.len(),
            out@.len() == k,
            forall|t: int| 0 <= t < k ==> out@[t] == (t == s || row@[t]),
        decreases row@.len() - k,
    {
        out.push(k == s || row[k]);
        k += 1;
    }
    assert(out@ =~= row@.update(s as int, true));
    out
}

/// A state to which the words `words[i..limit]` lead from `s`, if there is
/// one. What takes any word is tried before a literal that is the word; a
/// state from which the words were found to lead nowhere is not tried again.
fn search(dfa: &DFA, words: &Vec<String>, limit: usize, i: usize, s: StateId, dead: &mut Vec<Vec<bool>>) -> (r:
    Option<StateId>)
    requires
        i <= limit <= words@.len(),
        s < dfa@.states(),
        remembers(old(dead)@, dfa@, texts(words@), limit as int),
    ensures
        remembers(final(dead)@, dfa@, texts(words@), limit as int),
        r matches Some(t) ==> t < dfa@.states() && runs(
            dfa@,
            s,
            texts(words@).subrange(i as int, limit as int),
            t,
        ),
        r is None ==> stuck(dfa@, s, texts(words@).subrange(i as int, limit as int)),
    decreases limit - i,
{
    let ghost d = dfa@;
    let ghost all = texts(words@);
    let ghost now = all.subrange(i as int, limit as int);
    if i == limit {
        proof {
            assert(now =~= Seq::<Seq<char>>::empty());
            lemma_runs_none(d, s);
        }
        return Some(s);
    }
    assert(dead@[i as int]@.len() == d.states());
    if dead[i][s] {
        return None;
    }
    let ghost rest = all.subrange(i + 1, limit as int);
    assert(now.drop_first() =~= rest);
    assert(now[0] == words@[i as int]@);
    let m = dfa.labels();
    let mut a: usize = 0;
    while a < m
        invariant
            a <= m,
            m == d.inputs.len(),
            d == dfa@,
            all == texts(words@),
            i < limit <= words@.len(),
            s < d.states(),
            now == all.subrange(i as int, limit as int),
            rest == all.subrange(i + 1, limit as int),
            now.len() > 0,
            now.drop_first() == rest,
            remembers(dead@, d, all, limit as int),
            forall|b: usize|
                b < a && d.inputs[b as int] is Any && #[trigger] d.has(s, b) ==> stuck(d, d.next(s, b), rest),
        decreases m - a,
    {
        if dfa.label(a).matches_anything() {
            match dfa.target(s, a) {
                Some(t) => {
                    match search(dfa, words, limit, i + 1, t, dead) {
                        Some(r) => {
                            proof {
                                lemma_runs_step(d, s, a, now, r);
                            }
                            return Some(r);
                        },
                        None => {},
                    }
                },
                None => {},
            }
        }
        a += 1;
    }
    let mut a: usize = 0;
    while a < m
        invariant
            a <= m,
            m == d.inputs.len(),
            d == dfa@,
            all == texts(words@),
            i < limit <= words@.len(),
            s < d.states(),
            now == all.subrange(i as int, limit as int),
            rest == all.subrange(i + 1, limit as int),
            now.len() > 0,
            now.drop_first() == rest,
            now[0] == words@[i as int]@,
            remembers(dead@, d, all, limit as int),
            forall|b: usize|
                b < m && d.inputs[b as int] is Any && #[trigger] d.has(s, b) ==> stuck(d, d.next(s, b), rest),
            forall|b: usize|
                b < a && d.inputs[b as int] is Literal && takes(d.inputs[b as int], now[0]) && #[trigger] d.has(
                    s,
                    b,
                ) ==> stuck(d, d.next(s, b), rest),
        decreases m - a,
    {
        match dfa.label(a) {
            Input::Literal(token, _) => {
                if *token == words[i] {
                    match dfa.target(s, a) {
                        Some(t) => {
                            match search(dfa, words, limit, i + 1, t, dead) {
                                Some(r) => {
                                    proof {
                                        lemma_runs_step(d, s, a, now, r);
                                    }
                                    return Some(r);
                                },
                                None => {},
                            }
                        },
                        None => {},
                    }
                }
            },
            Input::Any(_) => {},
        }
        a += 1;
    }
    proof {
        assert forall|to: StateId| !runs(d, s, now, to) by {
            if runs(d, s, now, to) {
                let b = lemma_runs_first(d, s, now, to);
                assert(d.has(s, b));
                assert(stuck(d, d.next(s, b), rest));
            }
        }
    }
    let ghost before = dead@;
    assert(before[i as int]@.len() == d.states());
    let row = marked(&dead[i], s);
    dead.set(i, row);
    proof {
        assert forall|k: int| 0 <= k <= limit implies (#[trigger] dead@[k])@.len() == d.states() by {
            if k != i {
                assert(dead@[k] == before[k]);
            }
        }
        assert forall|k: int, t: int|
            0 <= k <= limit && 0 <= t < d.states() && #[trigger] dead@[k]@[t] implies stuck(
            d,
            t as StateId,
            all.subrange(k, limit as int),
        ) by {
            if k != i {
                assert(dead@[k] == before[k]);
                assert(before[k]@[t]);
            } else if t != s {
                assert(before[k]@[t]);
            }
        }
    }
    None
}

/// The state in which the automaton is before the word that is completed: a
/// state to which the words before that word lead from the start state.
/// `None` where those words lead nowhere.
pub fn get_match_final_state(dfa: &DFA, inputs: &[&str], completed_word_index: usize) -> (r: Option<
    StateId,
>)
    ensures
        r matches Some(t) ==> t < dfa@.states() && runs(
            dfa@,
            dfa@.starting_state,
            words_before(word_views(inputs@), completed_word_index),
            t,
        ),
        r is None ==> stuck(
            dfa@,
            dfa@.starting_state,
            words_before(word_views(inputs@), completed_word_index),
        ),
{
    let limit = if completed_word_index < inputs.len() {
        completed_word_index
    } else {
        inputs.len()
    };
    let n = dfa.states();
    let mut words: Vec<String> = Vec::new();
    let mut dead: Vec<Vec<bool>> = Vec::new();
    let mut i: usize = 0;
    while i < limit
        invariant
            i <= limit <= inputs@.len(),
            words@.len() == i,
            dead@.len() == i,
            forall|k: int| 0 <= k < i ==> (#[trigger] words@[k])@ == inputs@[k]@,
            forall|k: int| 0 <= k < i ==> (#[trigger] dead@[k])@.len() == n,
            forall|k: int, t: int| 0 <= k < i && 0 <= t < n ==> !(#[trigger] dead@[k]@[t]),
        decreases limit - i,
    {
        words.push(String::from_str(inputs[i]));
        dead.push(unmarked(n));
        i += 1;
    }
    dead.push(unmarked(n));
    let start = dfa.starting_state();
    assert(texts(words@).subrange(0, limit as int) =~= words_before(
        word_views(inputs@),
        completed_word_index,
    ));
    search(dfa, &words, limit, 0, start, &mut dead)
}

/// A row without any mark.
fn unmarked(n: usize) -> (r: Vec<bool>)
    ensures
        r@.len() == n,
        forall|t: int| 0 <= t < n ==> !(#[trigger] r@[t]),
{
    let mut out: Vec<bool> = Vec::new();
    let mut k: usize = 0;
    while k < n
        invariant
            k <= n,
            out@.len() == k,
            forall|t: int| 0 <= t < k ==> !(#[trigger] out@[t]),
        decreases n - k,
    {
        out.push(false);
        k += 1;
    }
    out
}

/// Whether the shell is asked for the words that `label` offers.
pub fn asking(label: &Input) -> (r: bool)
    ensures
        r == asks(label@),
{
    match label {
        Input::Literal(_, _) => false,
        Input::Any(MatchAnythingInput::Command(_)) => true,
        Input::Any(MatchAnythingInput::Nonterminal(name)) => str_equal(name.as_str(), "PATH") || str_equal(
            name.as_str(),
            "DIRECTORY",
        ),
    }
}

/// What the shell is asked for the words that `label` offers.
pub fn request_of(label: &Input, prefix: &str, shell: Shell) -> (r: ShellRequest)
    requires
        asks(label@),
    ensures
        r@ == request_for(label@, prefix@, shell),
{
    match label {
        Input::Any(MatchAnythingInput::Command(command)) => ShellRequest::Run {
            shell,
            command: command.clone(),
        },
        Input::Any(MatchAnythingInput::Nonterminal(name)) => {
            if str_equal(name.as_str(), "PATH") {
                shell.complete_paths(prefix)
            } else {
                shell.complete_directories(prefix)
            }
        },
        Input::Literal(_, _) => shell.complete_paths(prefix),
    }
}

/// What the shell is to be asked for the completions in the state `state`:
/// one request for each transition whose words the shell knows, by ascending
/// labels.
pub fn requests_at(dfa: &DFA, state: StateId, prefix: &str, shell: Shell) -> (r: Vec<ShellRequest>)
    ensures
        request_views(r@) == requests_before(dfa@, state, prefix@, shell, dfa@.inputs.len()),
{
    let m = dfa.labels();
    let ghost d = dfa@;
    let mut out: Vec<ShellRequest> = Vec::new();
    let mut a: usize = 0;
    assert(request_views(out@) =~= requests_before(d, state, prefix@, shell, 0));
    while a < m
        invariant
            a <= m,
            m == d.inputs.len(),
            d == dfa@,
            request_views(out@) == requests_before(d, state, prefix@, shell, a as nat),
        decreases m - a,
    {
        let ghost before = request_views(out@);
        if dfa.target(state, a).is_some() && asking(dfa.label(a)) {
            let request = request_of(dfa.label(a), prefix, shell);
            out.push(request);
            assert(request_views(out@) =~= before.push(request_for(d.inputs[a as int], prefix@, shell)));
        }
        a += 1;
    }
    out
}

/// The text of an answer, if there is one.
pub open spec fn answer_text(reply: Option<&String>) -> Option<Seq<char>> {
    match reply {
        Some(s) => Some(s@),
        None => None,
    }
}

/// The completions that a transition with the label `label` offers.
fn candidates_of(label: &Input, prefix: &Vec<char>, reply: Option<&String>) -> (r: Vec<(Vec<char>, Vec<char>)>)
    ensures
        pairs_of(r@) == candidates(label@, prefix@, answer_text(reply)),
{
    let mut out: Vec<(Vec<char>, Vec<char>)> = Vec::new();
    match label {
        Input::Literal(token, description) => {
            let word = chars_of(token.as_str());
            if chars_start_with(&word, prefix) {
                let text = match description {
                    Some(text) => chars_of(text.as_str()),
                    None => Vec::new(),
                };
                out.push((word, text));
                assert(pairs_of(out@) =~= candidates(label@, prefix@, answer_text(reply)));
            } else {
                assert(pairs_of(out@) =~= candidates(label@, prefix@, answer_text(reply)));
            }
        },
        Input::Any(what) => {
            if !asking(label) {
                assert(pairs_of(out@) =~= candidates(label@, prefix@, answer_text(reply)));
                return out;
            }
            let answer = match reply {
                Some(answer) => answer,
                None => {
                    assert(pairs_of(out@) =~= candidates(label@, prefix@, answer_text(reply)));
                    return out;
                },
            };
            let is_command = match what {
                MatchAnythingInput::Command(_) => true,
                MatchAnythingInput::Nonterminal(_) => false,
            };
            let text = chars_of(answer.as_str());
            let all = split_lines(&text);
            let ghost ls = lines(answer@);
            let mut j: usize = 0;
            assert(pairs_of(out@) =~= kept_entries(label@, prefix@, ls, 0));
            while j < all.len()
                invariant
                    j <= all@.len(),
                    ls == lines(answer@),
                    line_views(all@) == ls,
                    is_command == (label@ matches InputView::Any(MatchAnythingView::Command(_))),
                    pairs_of(out@) == kept_entries(label@, prefix@, ls, j as nat),
                decreases all@.len() - j,
            {
                let ghost before = pairs_of(out@);
                assert(ls[j as int] == all@[j as int]@);
                let c = if is_command {
                    split_at_tab(&all[j])
                } else {
                    let whole = slice_of(&all[j], 0, all[j].len());
                    assert(whole@ =~= all@[j as int]@);
                    (whole, Vec::new())
                };
                let ghost cv = (c.0@, c.1@);
                assert(cv == entry(label@, ls[j as int]));
                let keep = !is_command || prefix.len() == 0 || chars_start_with(&c.0, prefix);
                assert(keep == kept(label@, prefix@, cv.0));
                if keep {
                    out.push(c);
                    assert(pairs_of(out@) =~= before.push(cv));
                }
                j += 1;
            }
        },
    }
    out
}

/// The strings of a list of pairs of character vectors.
fn strings_of(pairs: &Vec<(Vec<char>, Vec<char>)>) -> (r: Vec<(String, String)>)
    ensures
        string_pairs(r@) == pairs_of(pairs@),
{
    let mut out: Vec<(String, String)> = Vec::new();
    let mut k: usize = 0;
    while k < pairs.len()
        invariant
            k <= pairs@.len(),
            out@.len() == k,
            forall|t: int|
                0 <= t < k ==> (#[trigger] out@[t]).0@ == pairs@[t].0@ && out@[t].1@ == pairs@[t].1@,
        decreases pairs@.len() - k,
    {
        let first = string_of(&pairs[k].0, 0, pairs[k].0.len());
        let second = string_of(&pairs[k].1, 0, pairs[k].1.len());
        assert(pairs@[k as int].0@.subrange(0, pairs@[k as int].0@.len() as int) =~= pairs@[k as int].0@);
        assert(pairs@[k as int].1@.subrange(0, pairs@[k as int].1@.len() as int) =~= pairs@[k as int].1@);
        out.push((first, second));
        k += 1;
    }
    assert(string_pairs(out@) =~= pairs_of(pairs@));
    out
}

/// The completions, each with its description, that a transition with the
/// label `input` offers for a word that begins with `prefix`, in the order
/// in which they come. `reply` is what the shell printed when it was asked
/// for them, or `None` where it was not asked or failed.
pub fn get_completions_for_input(input: &Input, prefix: &str, reply: Option<&String>) -> (r: Vec<
    (String, String),
>)
    ensures
        string_pairs(r@) == candidates(input@, prefix@, answer_text(reply)),
{
    let start = chars_of(prefix);
    let found = candidates_of(input, &start, reply);
    strings_of(&found)
}

/// The completions that the transitions from `s` under the labels before
/// the `a`th offer.
pub open spec fn offered_before(
    d: DfaView,
    s: StateId,
    prefix: Seq<char>,
    replies: Seq<Option<Seq<char>>>,
    a: nat,
) -> Set<(Seq<char>, Seq<char>)> {
    Set::new(
        |c: (Seq<char>, Seq<char>)|
            exists|b: usize|
                b < a && #[trigger] d.has(s, b) && offers(
                    d.inputs[b as int],
                    prefix,
                    reply_at(d, s, b, replies),
                    c,
                ),
    )
}

/// The completions in the state `state` for a word that begins with
/// `prefix`, ascending and each once. `replies` holds the shell's answers to
/// the requests of [`requests_at`], in their order; an answer that is missing
/// or `None` stands for a request that failed, and offers nothing.
pub fn completions_at(dfa: &DFA, state: StateId, prefix: &str, replies: &Vec<Option<String>>) -> (r: Vec<
    (String, String),
>)
    ensures
        strictly_sorted(string_pairs(r@)),
        string_pairs(r@).to_set() == offered(dfa@, state, prefix@, reply_views(replies@)),
{
    let m = dfa.labels();
    let n = dfa.states();
    let ghost d = dfa@;
    let ghost rs = reply_views(replies@);
    let start = chars_of(prefix);
    let mut acc: Vec<(Vec<char>, Vec<char>)> = Vec::new();
    let mut asked: usize = 0;
    let mut a: usize = 0;
    assert(pairs_of(acc@).to_set() =~= offered_before(d, state, prefix@, rs, 0));
    while a < m
        invariant
            a <= m,
            m == d.inputs.len(),
            d == dfa@,
            d.well_formed(),
            rs == reply_views(replies@),
            start@ == prefix@,
            asked == asked_before(d, state, a as nat),
            asked <= a,
            strictly_sorted(pairs_of(acc@)),
            pairs_of(acc@).to_set() == offered_before(d, state, prefix@, rs, a as nat),
        decreases m - a,
    {
        let ghost before = pairs_of(acc@).to_set();
        let ghost label = d.inputs[a as int];
        let ghost reply = reply_at(d, state, a, rs);
        let ghost mut found = Seq::<(Seq<char>, Seq<char>)>::empty();
        if dfa.target(state, a).is_some() {
            let answer: Option<&String> = if asking(dfa.label(a)) && asked < replies.len() {
                replies[asked].as_ref()
            } else {
                None
            };
            assert(answer_text(answer) == reply || !asks(label)) by {
                if asks(label) && asked < replies@.len() {
                    assert(rs[asked as int] == answer_text(answer));
                }
            }
            let cands = candidates_of(dfa.label(a), &start, answer);
            proof {
                found = pairs_of(cands@);
                assert(found == candidates(label, prefix@, reply));
            }
            let mut k: usize = 0;
            while k < cands.len()
                invariant
                    k <= cands@.len(),
                    found == pairs_of(cands@),
                    strictly_sorted(pairs_of(acc@)),
                    forall|c: (Seq<char>, Seq<char>)| #[trigger]
                        pairs_of(acc@).to_set().contains(c) <==> before.contains(c) || exists|t: int|
                            0 <= t < k && #[trigger] found[t] == c,
                decreases cands@.len() - k,
            {
                let ghost earlier = pairs_of(acc@).to_set();
                let item = (
                    slice_of(&cands[k].0, 0, cands[k].0.len()),
                    slice_of(&cands[k].1, 0, cands[k].1.len()),
                );
                proof {
                    assert(cands@[k as int].0@.subrange(0, cands@[k as int].0@.len() as int)
                        =~= cands@[k as int].0@);
                    assert(cands@[k as int].1@.subrange(0, cands@[k as int].1@.len() as int)
                        =~= cands@[k as int].1@);
                    assert((item.0@, item.1@) == found[k as int]);
                }
                insert_sorted(&mut acc, item);
                proof {
                    assert forall|c: (Seq<char>, Seq<char>)| #[trigger]
                        pairs_of(acc@).to_set().contains(c) <==> before.contains(c) || exists|t: int|
                            0 <= t < k + 1 && #[trigger] found[t] == c by {
                        if exists|t: int| 0 <= t < k && #[trigger] found[t] == c {
                            let t = choose|t: int| 0 <= t < k && #[trigger] found[t] == c;
                            assert(0 <= t < k + 1 && found[t] == c);
                        }
                        if c == found[k as int] {
                            assert(0 <= k < k + 1 && found[k as int] == c);
                        }
                        if exists|t: int| 0 <= t < k + 1 && #[trigger] found[t] == c {
                            let t = choose|t: int| 0 <= t < k + 1 && #[trigger] found[t] == c;
                            if t < k {
                                assert(0 <= t < k && found[t] == c);
                            }
                        }
                        assert(earlier.contains(c) <==> before.contains(c) || exists|t: int|
                            0 <= t < k && #[trigger] found[t] == c);
                    }
                }
                k += 1;
            }
            if asking(dfa.label(a)) {
                asked += 1;
            }
        }
        proof {
            let now = pairs_of(acc@).to_set();
            assert forall|c: (Seq<char>, Seq<char>)| now.contains(c) <==> before.contains(c) || (d.has(state, a)
                && offers(label, prefix@, reply, c)) by {
                if d.has(state, a) {
                    if offers(label, prefix@, reply, c) {
                        let t = choose|t: int| 0 <= t < found.len() && found[t] == c;
                        assert(0 <= t < found.len() && found[t] == c);
                    }
                    if exists|t: int| 0 <= t < found.len() && #[trigger] found[t] == c {
                        let t = choose|t: int| 0 <= t < found.len() && #[trigger] found[t] == c;
                        assert(found.contains(c));
                    }
                }
            }
            assert forall|c: (Seq<char>, Seq<char>)| #[trigger]
                now.contains(c) <==> offered_before(d, state, prefix@, rs, (a + 1) as nat).contains(c) by {
                if before.contains(c) {
                    let b = choose|b: usize|
                        b < a && #[trigger] d.has(state, b) && offers(
                            d.inputs[b as int],
                            prefix@,
                            reply_at(d, state, b, rs),
                            c,
                        );
                    assert(b < a + 1 && d.has(state, b));
                }
                if d.has(state, a) && offers(label, prefix@, reply, c) {
                    assert(a < a + 1 && d.has(state, a));
                }
                if offered_before(d, state, prefix@, rs, (a + 1) as nat).contains(c) {
                    let b = choose|b: usize|
                        b < a + 1 && #[trigger] d.has(state, b) && offers(
                            d.inputs[b as int],
                            prefix@,
                            reply_at(d, state, b, rs),
                            c,
                        );
                    if b < a {
                        assert(offered_before(d, state, prefix@, rs, a as nat).contains(c));
                    }
                }
            }
            assert(now =~= offered_before(d, state, prefix@, rs, (a + 1) as nat));
        }
        a += 1;
    }
    proof {
        assert forall|c: (Seq<char>, Seq<char>)| #[trigger]
            offered(d, state, prefix@, rs).contains(c) <==> offered_before(d, state, prefix@, rs, m as nat).contains(
                c,
            ) by {
            if offered(d, state, prefix@, rs).contains(c) {
                let b = choose|b: usize| #[trigger]
                    d.has(state, b) && offers(d.inputs[b as int], prefix@, reply_at(d, state, b, rs), c);
                assert(b < m);
            }
        }
        assert(offered(d, state, prefix@, rs) =~= offered_before(d, state, prefix@, rs, m as nat));
    }
    strings_of(&acc)
}

/// Whether `r` holds the completions for the word numbered `index` of the
/// command line `words`: those of a state to which the words before it lead,
/// ascending and each once; nothing where those words lead nowhere.
pub open spec fn completes(
    r: Seq<(Seq<char>, Seq<char>)>,
    d: DfaView,
    words: Seq<Seq<char>>,
    index: usize,
    replies: Seq<Option<Seq<char>>>,
) -> bool {
    let before = words_before(words, index);
    if stuck(d, d.starting_state, before) {
        r.len() == 0
    } else {
        exists|s: StateId| #[trigger]
            runs(d, d.starting_state, before, s) && strictly_sorted(r) && r.to_set() == offered(
                d,
                s,
                prefix_of(words, index),
                replies,
            )
    }
}

/// The completions for the word numbered `completed_word_index` of the
/// command line `words_before_cursor`, ascending by completion and then by
/// description, each once. `replies` holds the shell's answers as for
/// [`completions_at`].
pub fn get_completions(
    dfa: &DFA,
    words_before_cursor: &[&str],
    completed_word_index: usize,
    replies: &Vec<Option<String>>,
) -> (r: Vec<(String, String)>)
    ensures
        strictly_sorted(string_pairs(r@)),
        completes(
            string_pairs(r@),
            dfa@,
            word_views(words_before_cursor@),
            completed_word_index,
            reply_views(replies@),
        ),
{
    let prefix = if completed_word_index < words_before_cursor.len() {
        words_before_cursor[completed_word_index]
    } else {
        ""
    };
    proof {
        reveal_strlit("");
        assert(""@ =~= Seq::<char>::empty());
    }
    match get_match_final_state(dfa, words_before_cursor, completed_word_index) {
        Some(state) => completions_at(dfa, state, prefix, replies),
        None => Vec::new(),
    }
}

/// Whether `input` is a literal that begins with `prefix`, and `c` is its
/// token and its description.
pub open spec fn is_literal_for(input: InputView, prefix: Seq<char>, c: (Seq<char>, Seq<char>)) -> bool {
    match input {
        InputView::Literal(token, description) => prefix.is_prefix_of(token) && c == (
            token,
            described(description),
        ),
        InputView::Any(_) => false,
    }
}

/// Where the transitions from a state are all under literals, every
/// completion that is offered there is the token of one of them.
pub proof fn lemma_offered_literals(
    d: DfaView,
    s: StateId,
    prefix: Seq<char>,
    replies: Seq<Option<Seq<char>>>,
    c: (Seq<char>, Seq<char>),
)
    requires
        forall|a: usize| #[trigger] d.has(s, a) ==> d.inputs[a as int] is Literal,
        offered(d, s, prefix, replies).contains(c),
    ensures
        exists|a: usize| #[trigger] d.has(s, a) && is_literal_for(d.inputs[a as int], prefix, c),
{
    let a = choose|a: usize| #[trigger]
        d.has(s, a) && offers(d.inputs[a as int], prefix, reply_at(d, s, a, replies), c);
    assert(d.has(s, a));
    assert(d.inputs[a as int] is Literal);
    let found = candidates(d.inputs[a as int], prefix, reply_at(d, s, a, replies));
    let t = choose|t: int| 0 <= t < found.len() && found[t] == c;
    assert(found[t] == c);
}

} // verus!
