//! Characters, lines and words: what the map and the occupancy-grid readers
//! do to text before a number is parsed.
use vstd::prelude::*;
use vstd::slice::slice_subrange;

verus! {

/// `String::push` puts the character behind the others.
pub assume_specification[ String::push ](s: &mut String, c: char)
    ensures
        final(s)@ == old(s)@.push(c),
;

/// Unicode white space.
pub open spec fn is_white(c: char) -> bool {
    let v = c as int;
    ||| 0x09 <= v <= 0x0D
    ||| v == 0x20
    ||| v == 0x85
    ||| v == 0xA0
    ||| v == 0x1680
    ||| 0x2000 <= v <= 0x200A
    ||| v == 0x2028
    ||| v == 0x2029
    ||| v == 0x202F
    ||| v == 0x205F
    ||| v == 0x3000
}

/// Where `c` stands first in `s`; the length of `s` where it does not.
pub open spec fn first_at(s: Seq<char>, c: char) -> nat
    decreases s.len(),
{
    if s.len() == 0 {
        0
    } else if s[0] == c {
        0
    } else {
        1 + first_at(s.skip(1), c)
    }
}

/// What stands before the first `c`: all of `s` where there is none.
pub open spec fn before(s: Seq<char>, c: char) -> Seq<char> {
    s.take(first_at(s, c) as int)
}

pub open spec fn trim_start(s: Seq<char>) -> Seq<char>
    decreases s.len(),
{
    if s.len() > 0 && is_white(s[0]) {
        trim_start(s.skip(1))
    } else {
        s
    }
}

pub open spec fn trim_end(s: Seq<char>) -> Seq<char>
    decreases s.len(),
{
    if s.len() > 0 && is_white(s.last()) {
        trim_end(s.drop_last())
    } else {
        s
    }
}

pub open spec fn trim(s: Seq<char>) -> Seq<char> {
    trim_end(trim_start(s))
}

/// `s` without the `c` at its end, however many.
pub open spec fn trim_end_matches(s: Seq<char>, c: char) -> Seq<char>
    decreases s.len(),
{
    if s.len() > 0 && s.last() == c {
        trim_end_matches(s.drop_last(), c)
    } else {
        s
    }
}

/// A line without the carriage return at its end.
pub open spec fn chomped(line: Seq<char>) -> Seq<char> {
    if line.len() > 0 && line.last() == '\r' {
        line.drop_last()
    } else {
        line
    }
}

/// The lines of a text, without `\n` or `\r\n`. What follows the last line
/// feed is a line of its own unless it is empty.
pub open spec fn lines(text: Seq<char>) -> Seq<Seq<char>>
    decreases text.len(),
{
    if text.len() == 0 {
        seq![]
    } else {
        let n = first_at(text, '\n');
        if n >= text.len() {
            seq![text]
        } else {
            seq![chomped(text.take(n as int))] + lines(text.skip(n as int + 1))
        }
    }
}

/// The pieces between the `c` of `s`: one more than there are `c`.
pub open spec fn split(s: Seq<char>, c: char) -> Seq<Seq<char>>
    decreases s.len(),
{
    let n = first_at(s, c);
    if n >= s.len() {
        seq![s]
    } else {
        seq![s.take(n as int)] + split(s.skip(n as int + 1), c)
    }
}

/// How many characters stand before the first white one.
pub open spec fn word_len(s: Seq<char>) -> nat
    decreases s.len(),
{
    if s.len() == 0 || is_white(s[0]) {
        0
    } else {
        1 + word_len(s.skip(1))
    }
}

/// The words of `s`: what stands between white space.
pub open spec fn words(s: Seq<char>) -> Seq<Seq<char>>
    decreases s.len(),
{
    if s.len() == 0 {
        seq![]
    } else if is_white(s[0]) {
        words(s.skip(1))
    } else {
        let n = word_len(s);
        proof {
            lemma_word_len(s);
        }
        seq![s.take(n as int)] + words(s.skip(n as int))
    }
}

pub open spec fn digit(d: nat) -> char {
    (48 + d) as char
}

/// A number in decimal.
pub open spec fn decimal(n: nat) -> Seq<char>
    decreases n,
{
    if n < 10 {
        seq![digit(n)]
    } else {
        decimal(n / 10).push(digit(n % 10))
    }
}

pub proof fn lemma_first_at(s: Seq<char>, c: char)
    ensures
        first_at(s, c) <= s.len(),
        first_at(s, c) < s.len() ==> s[first_at(s, c) as int] == c,
        forall|i: int| 0 <= i < first_at(s, c) ==> s[i] != c,
    decreases s.len(),
{
    if s.len() > 0 && s[0] != c {
        let t = s.skip(1);
        lemma_first_at(t, c);
        assert forall|i: int| 0 <= i < first_at(s, c) implies s[i] != c by {
            if i > 0 {
                assert(t[i - 1] == s[i]);
            }
        }
    }
}

/// Where a scan that saw no `c` and then one, or the end, stopped.
pub proof fn lemma_first_at_is(s: Seq<char>, c: char, n: int)
    requires
        0 <= n <= s.len(),
        forall|i: int| 0 <= i < n ==> s[i] != c,
        n < s.len() ==> s[n] == c,
    ensures
        first_at(s, c) == n,
{
    lemma_first_at(s, c);
}

pub proof fn lemma_word_len(s: Seq<char>)
    ensures
        word_len(s) <= s.len(),
        word_len(s) < s.len() ==> is_white(s[word_len(s) as int]),
        forall|i: int| 0 <= i < word_len(s) ==> !is_white(s[i]),
    decreases s.len(),
{
    if s.len() > 0 && !is_white(s[0]) {
        let t = s.skip(1);
        lemma_word_len(t);
        assert forall|i: int| 0 <= i < word_len(s) implies !is_white(s[i]) by {
            if i > 0 {
                assert(t[i - 1] == s[i]);
            }
        }
    }
}

pub(crate) fn white(c: char) -> (r: bool)
    ensures
        r == is_white(c),
{
    let v: u32 = c as u32;
    (0x09 <= v && v <= 0x0D) || v == 0x20 || v == 0x85 || v == 0xA0 || v == 0x1680 || (0x2000 <= v
        && v <= 0x200A) || v == 0x2028 || v == 0x2029 || v == 0x202F || v == 0x205F || v == 0x3000
}

/// The characters of `text`.
pub(crate) fn chars_of(text: &str) -> (r: Vec<char>)
    ensures
        r@ == text@,
{
    let mut out: Vec<char> = Vec::new();
    for c in it: text.chars()
        invariant
            out@ == it.seq().take(it.index()),
            it.seq() == text@,
    {
        out.push(c);
    }
    out
}

/// The string made of `cs`.
pub(crate) fn string_of(cs: &[char]) -> (r: String)
    ensures
        r@ == cs@,
{
    let mut out: String = String::new();
    for i in 0..cs.len()
        invariant
            out@ == cs@.take(i as int),
    {
        out.push(cs[i]);
        assert(cs@.take(i + 1) == cs@.take(i as int).push(cs@[i as int]));
    }
    assert(cs@.take(cs@.len() as int) == cs@);
    out
}

pub(crate) fn find(cs: &[char], c: char) -> (r: usize)
    ensures
        r == first_at(cs@, c),
        r <= cs@.len(),
{
    let mut n: usize = 0;
    while n < cs.len() && cs[n] != c
        invariant
            n <= cs@.len(),
            forall|i: int| 0 <= i < n ==> cs@[i] != c,
        decreases cs@.len() - n,
    {
        n = n + 1;
    }
    proof {
        lemma_first_at_is(cs@, c, n as int);
    }
    n
}

pub(crate) fn part_before<'a>(cs: &'a [char], c: char) -> (r: &'a [char])
    ensures
        r@ == before(cs@, c),
{
    let n = find(cs, c);
    let r = slice_subrange(cs, 0, n);
    assert(r@ == before(cs@, c));
    r
}

pub(crate) fn trimmed_start<'a>(cs: &'a [char]) -> (r: &'a [char])
    ensures
        r@ == trim_start(cs@),
{
    let mut n: usize = 0;
    assert(cs@.skip(0) == cs@);
    while n < cs.len() && white(cs[n])
        invariant
            n <= cs@.len(),
            trim_start(cs@) == trim_start(cs@.skip(n as int)),
        decreases cs@.len() - n,
    {
        assert(cs@.skip(n as int).skip(1) == cs@.skip(n + 1));
        n = n + 1;
    }
    let r = slice_subrange(cs, n, cs.len());
    assert(r@ == cs@.skip(n as int));
    r
}

pub(crate) fn trimmed_end<'a>(cs: &'a [char]) -> (r: &'a [char])
    ensures
        r@ == trim_end(cs@),
{
    let mut n: usize = cs.len();
    assert(cs@.take(n as int) == cs@);
    while n > 0 && white(cs[n - 1])
        invariant
            n <= cs@.len(),
            trim_end(cs@) == trim_end(cs@.take(n as int)),
        decreases n,
    {
        assert(cs@.take(n as int).drop_last() == cs@.take(n - 1));
        n = n - 1;
    }
    let r = slice_subrange(cs, 0, n);
    assert(r@ == cs@.take(n as int));
    r
}

pub(crate) fn trimmed<'a>(cs: &'a [char]) -> (r: &'a [char])
    ensures
        r@ == trim(cs@),
{
    trimmed_end(trimmed_start(cs))
}

pub(crate) fn trimmed_end_matches<'a>(cs: &'a [char], c: char) -> (r: &'a [char])
    ensures
        r@ == trim_end_matches(cs@, c),
{
    let mut n: usize = cs.len();
    assert(cs@.take(n as int) == cs@);
    while n > 0 && cs[n - 1] == c
        invariant
            n <= cs@.len(),
            trim_end_matches(cs@, c) == trim_end_matches(cs@.take(n as int), c),
        decreases n,
    {
        assert(cs@.take(n as int).drop_last() == cs@.take(n - 1));
        n = n - 1;
    }
    let r = slice_subrange(cs, 0, n);
    assert(r@ == cs@.take(n as int));
    r
}

pub(crate) fn starts_with(cs: &[char], prefix: &[char]) -> (r: bool)
    ensures
        r == prefix@.is_prefix_of(cs@),
{
    if cs.len() < prefix.len() {
        return false;
    }
    for i in 0..prefix.len()
        invariant
            prefix@.len() <= cs@.len(),
            forall|j: int| 0 <= j < i ==> prefix@[j] == cs@[j],
    {
        if cs[i] != prefix[i] {
            assert(cs@.subrange(0, prefix@.len() as int)[i as int] == cs@[i as int]);
            return false;
        }
    }
    assert(prefix@ == cs@.subrange(0, prefix@.len() as int));
    true
}

/// The views of some slices.
pub open spec fn views(parts: Seq<&[char]>) -> Seq<Seq<char>> {
    parts.map_values(|p: &[char]| p@)
}

pub(crate) fn split_lines<'a>(cs: &'a [char]) -> (r: Vec<&'a [char]>)
    ensures
        views(r@) == lines(cs@),
{
    let mut out: Vec<&'a [char]> = Vec::new();
    let mut rest: &'a [char] = cs;
    assert(views(out@) + lines(rest@) == lines(cs@));
    while rest.len() > 0
        invariant
            views(out@) + lines(rest@) == lines(cs@),
        decreases rest@.len(),
    {
        let n = find(rest, '\n');
        let ghost done = out@;
        if n >= rest.len() {
            out.push(rest);
            assert(views(out@) == views(done).push(rest@));
            proof {
                lemma_first_at(rest@, '\n');
            }
            assert(views(out@) == lines(cs@));
            return out;
        }
        let mut line = slice_subrange(rest, 0, n);
        if n > 0 && rest[n - 1] == '\r' {
            line = slice_subrange(rest, 0, n - 1);
        }
        assert(line@ == chomped(rest@.take(n as int)));
        out.push(line);
        assert(views(out@) == views(done).push(line@));
        let next = slice_subrange(rest, n + 1, rest.len());
        assert(next@ == rest@.skip(n + 1));
        assert(views(out@) + lines(next@) == views(done) + lines(rest@));
        rest = next;
    }
    assert(views(out@) == lines(cs@));
    out
}

pub(crate) fn split_at_each<'a>(cs: &'a [char], c: char) -> (r: Vec<&'a [char]>)
    ensures
        views(r@) == split(cs@, c),
{
    let mut out: Vec<&'a [char]> = Vec::new();
    let mut rest: &'a [char] = cs;
    assert(views(out@) + split(rest@, c) == split(cs@, c));
    loop
        invariant
            views(out@) + split(rest@, c) == split(cs@, c),
        decreases rest@.len(),
    {
        let n = find(rest, c);
        let ghost done = out@;
        if n >= rest.len() {
            out.push(rest);
            assert(views(out@) == views(done).push(rest@));
            assert(views(out@) == split(cs@, c));
            return out;
        }
        let piece = slice_subrange(rest, 0, n);
        assert(piece@ == rest@.take(n as int));
        out.push(piece);
        assert(views(out@) == views(done).push(piece@));
        let next = slice_subrange(rest, n + 1, rest.len());
        assert(next@ == rest@.skip(n + 1));
        assert(views(out@) + split(next@, c) == views(done) + split(rest@, c));
        rest = next;
    }
}

/// The views of some strings.
pub open spec fn string_views(parts: Seq<String>) -> Seq<Seq<char>> {
    parts.map_values(|p: String| p@)
}

pub(crate) fn words_of(cs: &[char]) -> (r: Vec<String>)
    ensures
        string_views(r@) == words(cs@),
{
    let mut out: Vec<String> = Vec::new();
    let mut i: usize = 0;
    assert(cs@.skip(0) == cs@);
    assert(string_views(out@) + words(cs@.skip(0)) == words(cs@));
    while i < cs.len()
        invariant
            i <= cs@.len(),
            string_views(out@) + words(cs@.skip(i as int)) == words(cs@),
        decreases cs@.len() - i,
    {
        let ghost rest = cs@.skip(i as int);
        if white(cs[i]) {
            assert(rest.skip(1) == cs@.skip(i + 1));
            i = i + 1;
        } else {
            let mut j: usize = i;
            while j < cs.len() && !white(cs[j])
                invariant
                    i <= j <= cs@.len(),
                    forall|k: int| i <= k < j ==> !is_white(cs@[k]),
                decreases cs@.len() - j,
            {
                j = j + 1;
            }
            proof {
                lemma_word_len(rest);
                assert(forall|k: int| 0 <= k < j - i ==> !is_white(rest[k]));
                if word_len(rest) < j - i {
                    assert(is_white(rest[word_len(rest) as int]));
                }
                if word_len(rest) > j - i {
                    assert(!is_white(rest[j - i]));
                }
            }
            let piece = slice_subrange(cs, i, j);
            assert(piece@ == rest.take(j - i));
            assert(rest.skip(j - i) == cs@.skip(j as int));
            let ghost done = out@;
            let word = string_of(piece);
            out.push(word);
            assert(string_views(out@) == string_views(done).push(rest.take(j - i)));
            assert(string_views(out@) + words(cs@.skip(j as int)) == string_views(done) + words(
                rest,
            ));
            i = j;
        }
    }
    assert(cs@.skip(i as int) == Seq::<char>::empty());
    assert(string_views(out@) == words(cs@));
    out
}

/// `n` in decimal.
pub(crate) fn decimal_string(n: u128) -> (r: String)
    ensures
        r@ == decimal(n as nat),
    decreases n,
{
    let d: u8 = (n % 10) as u8;
    let c: char = (48u8 + d) as char;
    assert(c == digit((n % 10) as nat));
    if n < 10 {
        let mut out: String = String::new();
        out.push(c);
        assert(out@ == decimal(n as nat));
        out
    } else {
        let mut out: String = decimal_string(n / 10);
        out.push(c);
        out
    }
}

/// A text that is empty or ends with a line feed can be followed by another:
/// the lines are those of the one, then those of the other.
pub proof fn law_lines_join(a: Seq<char>, b: Seq<char>)
    requires
        a.len() == 0 || a.last() == '\n',
    ensures
        lines(a + b) == lines(a) + lines(b),
    decreases a.len(),
{
    if a.len() == 0 {
        assert(a + b =~= b);
        assert(lines(a) + lines(b) =~= lines(b));
    } else {
        let n = first_at(a, '\n') as int;
        lemma_first_at(a, '\n');
        if n >= a.len() {
            assert(a[a.len() - 1] != '\n');
        }
        let ab = a + b;
        assert forall|i: int| 0 <= i < n implies ab[i] != '\n' by {
            assert(ab[i] == a[i]);
        }
        assert(ab[n] == a[n]);
        lemma_first_at_is(ab, '\n', n);
        let rest = a.skip(n + 1);
        assert(ab.take(n) =~= a.take(n));
        assert(ab.skip(n + 1) =~= rest + b);
        if rest.len() > 0 {
            assert(rest.last() == a.last());
        }
        law_lines_join(rest, b);
        assert(lines(ab) =~= lines(a) + lines(b));
    }
}

} // verus!
