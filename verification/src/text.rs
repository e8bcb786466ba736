//! Strings as sequences of characters: their order, their lines.

use vstd::prelude::*;

verus! {

/// Calls `String::push`, which appends one character to the string.
#[verifier::external_body]
pub(crate) fn push_char(s: &mut String, c: char)
    ensures
        final(s)@ == old(s)@.push(c),
{
    s.push(c)
}

/// The characters of a string slice, one by one.
pub fn chars_of(s: &str) -> (v: Vec<char>)
    ensures
        v@ == s@,
{
    let mut v: Vec<char> = Vec::new();
    for c in it: s.chars()
        invariant
            v@ == it.seq().take(it.index() as int),
            it.seq() == s@,
    {
        v.push(c);
    }
    v
}

/// The string made of `chars[from..to]`.
pub fn string_of(chars: &Vec<char>, from: usize, to: usize) -> (s: String)
    requires
        from <= to <= chars.len(),
    ensures
        s@ == chars@.subrange(from as int, to as int),
{
    let mut s = String::new();
    let mut i: usize = from;
    while i < to
        invariant
            from <= i <= to <= chars.len(),
            s@ == chars@.subrange(from as int, i as int),
        decreases to - i,
    {
        push_char(&mut s, chars[i]);
        i += 1;
        assert(chars@.subrange(from as int, i as int) == chars@.subrange(from as int, i - 1).push(
            chars@[i - 1],
        ));
    }
    s
}

/// Whether two character vectors hold the same characters.
pub fn chars_equal(a: &Vec<char>, b: &Vec<char>) -> (r: bool)
    ensures
        r == (a@ == b@),
{
    if a.len() != b.len() {
        return false;
    }
    let mut i: usize = 0;
    while i < a.len()
        invariant
            i <= a.len(),
            a.len() == b.len(),
            forall|k: int| 0 <= k < i ==> a@[k] == b@[k],
        decreases a.len() - i,
    {
        if a[i] != b[i] {
            return false;
        }
        i += 1;
    }
    assert(a@ =~= b@);
    true
}

/// Whether two string slices hold the same characters.
pub fn str_equal(a: &str, b: &str) -> (r: bool)
    ensures
        r == (a@ == b@),
{
    let x = chars_of(a);
    let y = chars_of(b);
    chars_equal(&x, &y)
}

/// Whether `s` begins with `prefix`.
pub fn chars_start_with(s: &Vec<char>, prefix: &Vec<char>) -> (r: bool)
    ensures
        r == prefix@.is_prefix_of(s@),
{
    if prefix.len() > s.len() {
        return false;
    }
    let mut i: usize = 0;
    while i < prefix.len()
        invariant
            i <= prefix.len() <= s.len(),
            forall|k: int| 0 <= k < i ==> s@[k] == prefix@[k],
        decreases prefix.len() - i,
    {
        if s[i] != prefix[i] {
            assert(s@.subrange(0, prefix@.len() as int)[i as int] != prefix@[i as int]);
            return false;
        }
        i += 1;
    }
    assert(s@.subrange(0, prefix@.len() as int) =~= prefix@);
    true
}

/// The order of strings: character by character, by code point, a proper
/// prefix before what it is a prefix of.
pub open spec fn lex_lt(a: Seq<char>, b: Seq<char>) -> bool
    decreases a.len(),
{
    if b.len() == 0 {
        false
    } else if a.len() == 0 {
        true
    } else if a[0] != b[0] {
        (a[0] as u32) < (b[0] as u32)
    } else {
        lex_lt(a.drop_first(), b.drop_first())
    }
}

/// No string is before itself.
pub proof fn lemma_lex_irreflexive(a: Seq<char>)
    ensures
        !lex_lt(a, a),
    decreases a.len(),
{
    if a.len() > 0 {
        lemma_lex_irreflexive(a.drop_first());
    }
}

/// Of two different strings one is before the other.
pub proof fn lemma_lex_total(a: Seq<char>, b: Seq<char>)
    ensures
        lex_lt(a, b) || lex_lt(b, a) || a == b,
    decreases a.len(),
{
    if a.len() == 0 || b.len() == 0 {
        assert(a.len() == 0 && b.len() == 0 ==> a =~= b);
    } else if a[0] == b[0] {
        lemma_lex_total(a.drop_first(), b.drop_first());
        if a.drop_first() == b.drop_first() {
            assert(a =~= seq![a[0]] + a.drop_first());
            assert(b =~= seq![b[0]] + b.drop_first());
            assert(a =~= b);
        }
    } else {
        vstd::utf8::char_u32_cast(a[0], a[0] as u32);
        vstd::utf8::char_u32_cast(b[0], b[0] as u32);
    }
}

/// The order is transitive.
pub proof fn lemma_lex_transitive(a: Seq<char>, b: Seq<char>, c: Seq<char>)
    requires
        lex_lt(a, b),
        lex_lt(b, c),
    ensures
        lex_lt(a, c),
    decreases a.len(),
{
    if a.len() > 0 && a[0] == b[0] && b[0] == c[0] {
        lemma_lex_transitive(a.drop_first(), b.drop_first(), c.drop_first());
    }
}

/// Whether `a` comes before `b` in the order of strings.
pub fn chars_less(a: &Vec<char>, b: &Vec<char>) -> (r: bool)
    ensures
        r == lex_lt(a@, b@),
{
    let mut i: usize = 0;
    assert(a@.skip(0) =~= a@ && b@.skip(0) =~= b@);
    while i < a.len() && i < b.len()
        invariant
            i <= a.len(),
            i <= b.len(),
            lex_lt(a@, b@) == lex_lt(a@.skip(i as int), b@.skip(i as int)),
        decreases a.len() - i,
    {
        let x: u32 = a[i] as u32;
        let y: u32 = b[i] as u32;
        proof {
            vstd::utf8::char_u32_cast(a@[i as int], x);
            vstd::utf8::char_u32_cast(b@[i as int], y);
            assert(a@.skip(i as int)[0] == a@[i as int]);
            assert(b@.skip(i as int)[0] == b@[i as int]);
            assert(a@.skip(i as int).drop_first() =~= a@.skip(i + 1));
            assert(b@.skip(i as int).drop_first() =~= b@.skip(i + 1));
        }
        if x != y {
            return x < y;
        }
        i += 1;
    }
    i < b.len()
}

/// The order of pairs of strings: by the first, then by the second.
pub open spec fn pair_lt(a: (Seq<char>, Seq<char>), b: (Seq<char>, Seq<char>)) -> bool {
    lex_lt(a.0, b.0) || (a.0 == b.0 && lex_lt(a.1, b.1))
}

/// Ascending without repetition.
pub open spec fn strictly_sorted(s: Seq<(Seq<char>, Seq<char>)>) -> bool {
    forall|i: int, j: int| 0 <= i < j < s.len() ==> pair_lt(#[trigger] s[i], #[trigger] s[j])
}

/// The texts of a list of strings.
pub open spec fn texts(v: Seq<String>) -> Seq<Seq<char>> {
    Seq::new(v.len(), |i: int| v[i]@)
}

/// What a vector of pairs of character vectors stands for.
pub open spec fn pairs_of(v: Seq<(Vec<char>, Vec<char>)>) -> Seq<(Seq<char>, Seq<char>)> {
    Seq::new(v.len(), |i: int| (v[i].0@, v[i].1@))
}

/// What a vector of pairs of strings stands for.
pub open spec fn string_pairs(v: Seq<(String, String)>) -> Seq<(Seq<char>, Seq<char>)> {
    Seq::new(v.len(), |i: int| (v[i].0@, v[i].1@))
}

/// Of two different pairs one is before the other.
pub proof fn lemma_pair_total(a: (Seq<char>, Seq<char>), b: (Seq<char>, Seq<char>))
    ensures
        pair_lt(a, b) || pair_lt(b, a) || a == b,
{
    lemma_lex_total(a.0, b.0);
    lemma_lex_total(a.1, b.1);
}

/// The order of pairs is transitive.
pub proof fn lemma_pair_transitive(
    a: (Seq<char>, Seq<char>),
    b: (Seq<char>, Seq<char>),
    c: (Seq<char>, Seq<char>),
)
    requires
        pair_lt(a, b),
        pair_lt(b, c),
    ensures
        pair_lt(a, c),
{
    if lex_lt(a.0, b.0) && lex_lt(b.0, c.0) {
        lemma_lex_transitive(a.0, b.0, c.0);
    } else if a.0 == b.0 && b.0 == c.0 {
        lemma_lex_transitive(a.1, b.1, c.1);
    }
}

/// Whether the pair `a` comes before the pair `b`.
pub fn pair_less(a: &(Vec<char>, Vec<char>), b: &(Vec<char>, Vec<char>)) -> (r: bool)
    ensures
        r == pair_lt((a.0@, a.1@), (b.0@, b.1@)),
{
    if chars_less(&a.0, &b.0) {
        true
    } else if chars_equal(&a.0, &b.0) {
        chars_less(&a.1, &b.1)
    } else {
        false
    }
}

/// Puts `item` into an ascending vector at its place, unless it is there
/// already.
pub fn insert_sorted(v: &mut Vec<(Vec<char>, Vec<char>)>, item: (Vec<char>, Vec<char>))
    requires
        strictly_sorted(pairs_of(old(v)@)),
    ensures
        strictly_sorted(pairs_of(final(v)@)),
        pairs_of(final(v)@).to_set() == pairs_of(old(v)@).to_set().insert((item.0@, item.1@)),
{
    let ghost key = (item.0@, item.1@);
    let ghost before = pairs_of(v@);
    let mut i: usize = 0;
    while i < v.len() && pair_less(&v[i], &item)
        invariant
            i <= v.len(),
            v@ == old(v)@,
            before == pairs_of(v@),
            key == (item.0@, item.1@),
            forall|k: int| 0 <= k < i ==> pair_lt(#[trigger] before[k], key),
        decreases v.len() - i,
    {
        i += 1;
    }
    if i < v.len() && chars_equal(&v[i].0, &item.0) && chars_equal(&v[i].1, &item.1) {
        proof {
            assert(before[i as int] == key);
            assert(before.to_set().insert(key) =~= before.to_set());
        }
        return ;
    }
    proof {
        if i < v.len() {
            lemma_pair_total(before[i as int], key);
            assert forall|k: int| i <= k < before.len() implies pair_lt(key, #[trigger] before[k]) by {
                if k > i {
                    lemma_pair_transitive(key, before[i as int], before[k]);
                }
            }
        }
    }
    v.insert(i, item);
    proof {
        let after = pairs_of(v@);
        assert(after =~= before.insert(i as int, key));
        assert forall|a: int, b: int| 0 <= a < b < after.len() implies pair_lt(
            #[trigger] after[a],
            #[trigger] after[b],
        ) by {
            if a < i && b > i {
                assert(after[a] == before[a]);
                assert(after[b] == before[b - 1]);
                if a < b - 1 {
                } else {
                }
                lemma_pair_transitive(before[a], key, before[b - 1]);
            } else if a < i && b < i {
                assert(after[a] == before[a]);
                assert(after[b] == before[b]);
            } else if a > i {
                assert(after[a] == before[a - 1]);
                assert(after[b] == before[b - 1]);
            } else if a < i {
                assert(after[a] == before[a]);
            } else {
                assert(after[b] == before[b - 1]);
            }
        }
        assert(after.to_set() =~= before.to_set().insert(key)) by {
            assert forall|x: (Seq<char>, Seq<char>)| after.to_set().contains(x) implies before.to_set().insert(
                key,
            ).contains(x) by {
                let k = choose|k: int| 0 <= k < after.len() && after[k] == x;
                if k < i {
                    assert(before[k] == x);
                } else if k > i {
                    assert(before[k - 1] == x);
                }
            }
            assert forall|x: (Seq<char>, Seq<char>)| before.to_set().insert(key).contains(
                x,
            ) implies after.to_set().contains(x) by {
                if x == key {
                    assert(after[i as int] == x);
                } else {
                    let k = choose|k: int| 0 <= k < before.len() && before[k] == x;
                    if k < i {
                        assert(after[k] == x);
                    } else {
                        assert(after[k + 1] == x);
                    }
                }
            }
        }
    }
}

/// The first place from `i` on that holds `stop`, or the end of the text.
pub open spec fn next_stop(s: Seq<char>, i: int, stop: char) -> int
    decreases s.len() - i,
{
    if 0 <= i < s.len() && s[i] != stop {
        next_stop(s, i + 1, stop)
    } else {
        i
    }
}

/// The lines of a text from `i` on. A line ends before a line feed, or
/// before a carriage return and a line feed, or at the end of the text;
/// behind the last line feed there is no further line.
pub open spec fn lines_from(s: Seq<char>, i: int) -> Seq<Seq<char>>
    decreases s.len() - i,
{
    if i < 0 || i >= s.len() {
        Seq::empty()
    } else {
        let e = next_stop(s, i, '\n');
        if i <= e < s.len() {
            let end = if i < e && s[e - 1] == '\r' {
                e - 1
            } else {
                e
            };
            seq![s.subrange(i, end)] + lines_from(s, e + 1)
        } else {
            seq![s.subrange(i, s.len() as int)]
        }
    }
}

/// The lines of a text.
pub open spec fn lines(s: Seq<char>) -> Seq<Seq<char>> {
    lines_from(s, 0)
}

/// A line split at its first tab into what stands before it and what
/// stands behind it; without a tab, the line and nothing.
pub open spec fn split_tab(line: Seq<char>) -> (Seq<char>, Seq<char>) {
    let t = next_stop(line, 0, '\t');
    if 0 <= t < line.len() {
        (line.subrange(0, t), line.subrange(t + 1, line.len() as int))
    } else {
        (line, Seq::empty())
    }
}

/// The characters `chars[from..to]`.
pub fn slice_of(chars: &Vec<char>, from: usize, to: usize) -> (r: Vec<char>)
    requires
        from <= to <= chars.len(),
    ensures
        r@ == chars@.subrange(from as int, to as int),
{
    let mut r: Vec<char> = Vec::new();
    let mut i: usize = from;
    while i < to
        invariant
            from <= i <= to <= chars.len(),
            r@ == chars@.subrange(from as int, i as int),
        decreases to - i,
    {
        r.push(chars[i]);
        i += 1;
        assert(chars@.subrange(from as int, i as int) == chars@.subrange(from as int, i - 1).push(
            chars@[i - 1],
        ));
    }
    r
}

/// The first place from `i` on that holds `stop`, or the end of the text.
pub fn find_stop(chars: &Vec<char>, i: usize, stop: char) -> (j: usize)
    requires
        i <= chars.len(),
    ensures
        j == next_stop(chars@, i as int, stop),
        i <= j <= chars.len(),
{
    let mut j: usize = i;
    while j < chars.len() && chars[j] != stop
        invariant
            i <= j <= chars.len(),
            next_stop(chars@, i as int, stop) == next_stop(chars@, j as int, stop),
        decreases chars.len() - j,
    {
        j += 1;
    }
    j
}

/// The values of a list of character vectors.
pub open spec fn line_views(v: Seq<Vec<char>>) -> Seq<Seq<char>> {
    Seq::new(v.len(), |i: int| v[i]@)
}

/// The lines of a text.
pub fn split_lines(chars: &Vec<char>) -> (r: Vec<Vec<char>>)
    ensures
        line_views(r@) == lines(chars@),
{
    let mut out: Vec<Vec<char>> = Vec::new();
    let mut i: usize = 0;
    assert(line_views(out@) + lines_from(chars@, 0) =~= lines(chars@));
    while i < chars.len()
        invariant
            i <= chars.len(),
            lines(chars@) == line_views(out@) + lines_from(chars@, i as int),
        decreases chars.len() - i,
    {
        let e = find_stop(chars, i, '\n');
        let ghost before = line_views(out@);
        if e < chars.len() {
            let end = if i < e && chars[e - 1] == '\r' {
                e - 1
            } else {
                e
            };
            let line = slice_of(chars, i, end);
            proof {
                let rest = lines_from(chars@, e + 1);
                assert(lines_from(chars@, i as int) == seq![line@] + rest);
                assert(line_views(out@.push(line)) =~= before + seq![line@]);
                assert(before + (seq![line@] + rest) =~= (before + seq![line@]) + rest);
            }
            out.push(line);
            i = e + 1;
        } else {
            let line = slice_of(chars, i, chars.len());
            proof {
                assert(lines_from(chars@, i as int) == seq![line@]);
                assert(line_views(out@.push(line)) =~= before + seq![line@]);
                assert(lines_from(chars@, chars@.len() as int) =~= Seq::<Seq<char>>::empty());
                assert((before + seq![line@]) + Seq::<Seq<char>>::empty() =~= before + seq![line@]);
            }
            out.push(line);
            i = chars.len();
        }
    }
    assert(line_views(out@) + Seq::<Seq<char>>::empty() =~= line_views(out@));
    out
}

/// A line split at its first tab.
pub fn split_at_tab(line: &Vec<char>) -> (r: (Vec<char>, Vec<char>))
    ensures
        (r.0@, r.1@) == split_tab(line@),
{
    let t = find_stop(line, 0, '\t');
    if t < line.len() {
        (slice_of(line, 0, t), slice_of(line, t + 1, line.len()))
    } else {
        let whole = slice_of(line, 0, line.len());
        assert(whole@ =~= line@);
        (whole, Vec::new())
    }
}

} // verus!
