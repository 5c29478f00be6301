//! Laws of landmark map texts: what makes a difference in one and what does
//! not, where equal words parse alike.
use vstd::prelude::*;

use crate::landmark_map::{
    are_entries, are_parsed, is_entry, is_landmark, is_loaded, landmark_count, line_words,
    separated, with_entries, Entry,
};
use crate::num::Num;
use crate::numerics::Numerics;
use crate::repeat::{same_parse, scalars_repeat};
use crate::text::{
    before, chomped, first_at, is_white, law_lines_join, lemma_first_at, lemma_first_at_is,
    lemma_word_len, lines, trim, trim_end, trim_start, word_len, words,
};
use crate::types::Vector3;

verus! {

/// The words of a line; `None` where it is blank up to its comment.
pub open spec fn said(line: Seq<char>) -> Option<Seq<Seq<char>>> {
    if trim(before(line, '#')).len() == 0 {
        None
    } else {
        Some(line_words(line))
    }
}

/// What one line adds to the content of a text.
pub open spec fn line_content(line: Seq<char>) -> Seq<Seq<Seq<char>>> {
    match said(line) {
        None => seq![],
        Some(w) => seq![w],
    }
}

/// The words of the lines that are not blank, in their order.
pub open spec fn content(ls: Seq<Seq<char>>) -> Seq<Seq<Seq<char>>>
    decreases ls.len(),
{
    if ls.len() == 0 {
        seq![]
    } else {
        content(ls.drop_last()) + line_content(ls.last())
    }
}

proof fn lemma_content_joins(a: Seq<Seq<char>>, b: Seq<Seq<char>>)
    ensures
        content(a + b) == content(a) + content(b),
    decreases b.len(),
{
    if b.len() == 0 {
        assert(a + b =~= a);
        assert(content(a) + content(b) =~= content(a));
    } else {
        assert((a + b).drop_last() =~= a + b.drop_last());
        lemma_content_joins(a, b.drop_last());
        assert(content(a + b) =~= content(a) + content(b));
    }
}

proof fn lemma_content_of_one(line: Seq<char>)
    ensures
        content(seq![line]) == line_content(line),
{
    let one = seq![line];
    assert(one.drop_last() =~= Seq::<Seq<char>>::empty());
    assert(content(one.drop_last()) =~= seq![]);
    assert(content(one) =~= line_content(line));
}

/// White space at the end of a line is trimmed away.
proof fn lemma_trim_push(s: Seq<char>, w: char)
    requires
        is_white(w),
    ensures
        trim(s.push(w)) == trim(s),
    decreases s.len(),
{
    let t = s.push(w);
    if s.len() == 0 {
        assert(t.skip(1) =~= Seq::<char>::empty());
        assert(trim_start(t) == trim_start(t.skip(1)));
        assert(trim_start(s) =~= s);
        assert(trim_start(t.skip(1)) =~= s);
    } else if is_white(s[0]) {
        assert(t.skip(1) =~= s.skip(1).push(w));
        lemma_trim_push(s.skip(1), w);
    } else {
        assert(t.drop_last() =~= s);
    }
}

/// A carriage return at the end of a line makes no difference.
proof fn lemma_chomped_says(line: Seq<char>)
    ensures
        said(chomped(line)) == said(line),
{
    if line.len() > 0 && line.last() == '\r' {
        let short = line.drop_last();
        let n = first_at(line, '#') as int;
        lemma_first_at(line, '#');
        assert(short.push('\r') =~= line);
        if n < line.len() {
            assert(n < short.len());
            lemma_first_at_is(short, '#', n);
            assert(before(short, '#') =~= before(line, '#'));
        } else {
            lemma_first_at_is(short, '#', n - 1);
            assert(before(short, '#') =~= short);
            assert(before(line, '#') =~= line);
            lemma_trim_push(short, '\r');
        }
    }
}

proof fn lemma_blank_empty()
    ensures
        said(seq![]) is None,
{
    let none: Seq<char> = seq![];
    assert(before(none, '#') =~= none);
}

/// A line feed at the end of a text makes no difference.
proof fn lemma_line_feed(a: Seq<char>)
    ensures
        content(lines(a.push('\n'))) == content(lines(a)),
    decreases a.len(),
{
    let t = a.push('\n');
    let n = first_at(a, '\n') as int;
    lemma_first_at(a, '\n');
    if n < a.len() {
        assert(t[n] == a[n]);
        assert forall|i: int| 0 <= i < n implies t[i] != '\n' by {
            assert(t[i] == a[i]);
        }
        lemma_first_at_is(t, '\n', n);
        assert(t.take(n) =~= a.take(n));
        assert(t.skip(n + 1) =~= a.skip(n + 1).push('\n'));
        lemma_line_feed(a.skip(n + 1));
        let one = seq![chomped(a.take(n))];
        lemma_content_joins(one, lines(a.skip(n + 1)));
        lemma_content_joins(one, lines(t.skip(n + 1)));
    } else {
        lemma_fed_line(a);
        if a.len() == 0 {
            lemma_blank_empty();
            assert(a =~= seq![]);
            lemma_content_of_one(chomped(a));
        } else {
            lemma_chomped_says(a);
            lemma_content_of_one(a);
            lemma_content_of_one(chomped(a));
        }
    }
}

/// The one line of a text whose only line feed is its last character.
proof fn lemma_fed_line(line: Seq<char>)
    requires
        first_at(line, '\n') >= line.len(),
    ensures
        lines(line.push('\n')) == seq![chomped(line)],
{
    let t = line.push('\n');
    lemma_first_at(line, '\n');
    assert forall|i: int| 0 <= i < line.len() implies t[i] != '\n' by {
        assert(t[i] == line[i]);
    }
    lemma_first_at_is(t, '\n', line.len() as int);
    assert(t.take(line.len() as int) =~= line);
    assert(t.skip(line.len() as int + 1) =~= Seq::<char>::empty());
    assert(lines(t.skip(line.len() as int + 1)) =~= seq![]);
    assert(lines(t) =~= seq![chomped(line)]);
}

/// Two texts with a line feed between them have the content of the one, then
/// that of the other.
pub proof fn law_content_joins(a: Seq<char>, b: Seq<char>)
    ensures
        content(lines(a.push('\n') + b)) == content(lines(a)) + content(lines(b)),
{
    law_lines_join(a.push('\n'), b);
    lemma_content_joins(lines(a.push('\n')), lines(b));
    lemma_line_feed(a);
}

/// What a line between two texts adds to their content is its own: nothing
/// where it is blank.
pub proof fn law_content_of_a_line(a: Seq<char>, line: Seq<char>, b: Seq<char>)
    requires
        !line.contains('\n'),
    ensures
        content(lines(a.push('\n') + line.push('\n') + b)) == content(lines(a)) + line_content(line)
            + content(lines(b)),
{
    lemma_first_at(line, '\n');
    if first_at(line, '\n') < line.len() {
        assert(line.contains('\n'));
    }
    let head = a.push('\n') + line;
    assert(head.push('\n') =~= a.push('\n') + line.push('\n'));
    law_content_joins(head, b);
    law_content_joins(a, line);
    lemma_line_feed(line);
    lemma_fed_line(line);
    lemma_chomped_says(line);
    lemma_content_of_one(chomped(line));
}

/// A line of white space says nothing.
pub proof fn law_blank_says_nothing(line: Seq<char>)
    requires
        forall|i: int| 0 <= i < line.len() ==> is_white(#[trigger] line[i]),
    ensures
        said(line) is None,
    decreases line.len(),
{
    lemma_first_at(line, '#');
    if first_at(line, '#') < line.len() {
        assert(is_white(line[first_at(line, '#') as int]));
    }
    assert(before(line, '#') =~= line);
    if line.len() > 0 {
        let short = line.drop_last();
        assert forall|i: int| 0 <= i < short.len() implies is_white(#[trigger] short[i]) by {
            assert(short[i] == line[i]);
        }
        law_blank_says_nothing(short);
        lemma_first_at(short, '#');
        if first_at(short, '#') < short.len() {
            assert(is_white(short[first_at(short, '#') as int]));
        }
        assert(before(short, '#') =~= short);
        assert(short.push(line.last()) =~= line);
        assert(is_white(line[line.len() - 1]));
        lemma_trim_push(short, line.last());
    }
}

/// A comment changes nothing of what a line says.
pub proof fn law_comment_says_nothing(line: Seq<char>, comment: Seq<char>)
    ensures
        said(line.push('#') + comment) == said(line),
{
    let t = line.push('#') + comment;
    let n = first_at(line, '#') as int;
    lemma_first_at(line, '#');
    assert forall|i: int| 0 <= i < n implies t[i] != '#' by {
        assert(t[i] == line[i]);
    }
    if n < line.len() {
        assert(t[n] == line[n]);
    } else {
        assert(t[n] == '#');
    }
    lemma_first_at_is(t, '#', n);
    assert(before(t, '#') =~= before(line, '#'));
}

/// A word that holds nothing that ends one.
pub open spec fn is_plain(w: Seq<char>) -> bool {
    &&& w.len() > 0
    &&& forall|i: int|
        0 <= i < w.len() ==> {
            let c = #[trigger] w[i];
            !is_white(c) && c != '[' && c != ']' && c != ':' && c != ',' && c != '#'
        }
}

/// `id: [x, y, z]`.
pub open spec fn bracketed(id: Seq<char>, x: Seq<char>, y: Seq<char>, z: Seq<char>) -> Seq<char> {
    id + seq![':', ' ', '['] + (x + seq![',', ' '] + (y + seq![',', ' '] + (z + seq![']'])))
}

/// `id x y z`.
pub open spec fn spaced(id: Seq<char>, x: Seq<char>, y: Seq<char>, z: Seq<char>) -> Seq<char> {
    id + seq![' '] + (x + seq![' '] + (y + seq![' '] + z))
}

proof fn lemma_separated_joins(a: Seq<char>, b: Seq<char>)
    ensures
        separated(a + b) == separated(a) + separated(b),
{
    assert(separated(a + b) =~= separated(a) + separated(b));
}

proof fn lemma_white_gap(gap: Seq<char>, rest: Seq<char>)
    requires
        forall|i: int| 0 <= i < gap.len() ==> is_white(#[trigger] gap[i]),
    ensures
        words(gap + rest) == words(rest),
    decreases gap.len(),
{
    if gap.len() == 0 {
        assert(gap + rest =~= rest);
    } else {
        let tail = gap.skip(1);
        assert forall|i: int| 0 <= i < tail.len() implies is_white(#[trigger] tail[i]) by {
            assert(tail[i] == gap[i + 1]);
        }
        assert((gap + rest).skip(1) =~= tail + rest);
        assert(is_white(gap[0]));
        lemma_white_gap(tail, rest);
    }
}

/// A plain word, white space and more.
proof fn lemma_word_then(w: Seq<char>, gap: Seq<char>, rest: Seq<char>)
    requires
        is_plain(w),
        gap.len() > 0 || rest.len() == 0,
        forall|i: int| 0 <= i < gap.len() ==> is_white(#[trigger] gap[i]),
    ensures
        words(w + gap + rest) == seq![w] + words(rest),
{
    let s = w + gap + rest;
    lemma_word_len(s);
    let n = word_len(s) as int;
    assert forall|i: int| 0 <= i < w.len() implies s[i] == #[trigger] w[i] && !is_white(s[i]) by {}
    if n < w.len() {
        assert(s[n] == w[n]);
    }
    if n > w.len() {
        assert(s[w.len() as int] == gap[0]);
        assert(is_white(gap[0]));
    }
    assert(s.take(n) =~= w);
    assert(s.skip(n) =~= gap + rest);
    assert(s[0] == w[0]);
    lemma_white_gap(gap, rest);
}

proof fn lemma_separated_plain(w: Seq<char>)
    requires
        is_plain(w),
    ensures
        separated(w) == w,
{
    assert forall|i: int| 0 <= i < w.len() implies separated(w)[i] == w[i] by {
        assert(w[i] == w[i]);
    }
    assert(separated(w) =~= w);
}

/// A line with no comment that is not white at either end is said as it is.
proof fn lemma_said(line: Seq<char>)
    requires
        line.len() > 0,
        !is_white(line[0]),
        !is_white(line.last()),
        forall|i: int| 0 <= i < line.len() ==> #[trigger] line[i] != '#',
    ensures
        said(line) == Some(words(separated(line))),
{
    lemma_first_at_is(line, '#', line.len() as int);
    assert(before(line, '#') =~= line);
    assert(trim_start(line) == line);
    assert(trim_end(line) == line);
}

proof fn lemma_no_comment(a: Seq<char>, b: Seq<char>)
    requires
        forall|i: int| 0 <= i < a.len() ==> #[trigger] a[i] != '#',
        forall|i: int| 0 <= i < b.len() ==> #[trigger] b[i] != '#',
    ensures
        forall|i: int| 0 <= i < (a + b).len() ==> #[trigger] (a + b)[i] != '#',
{
}

/// One item of a line: its word, then what separates it from the rest.
proof fn lemma_item(w: Seq<char>, gap: Seq<char>, rest: Seq<char>)
    requires
        is_plain(w),
        gap.len() > 0 || rest.len() == 0,
        forall|i: int| 0 <= i < separated(gap).len() ==> is_white(#[trigger] separated(gap)[i]),
    ensures
        words(separated(w + gap + rest)) == seq![w] + words(separated(rest)),
{
    lemma_separated_joins(w + gap, rest);
    lemma_separated_joins(w, gap);
    lemma_separated_plain(w);
    lemma_word_then(w, separated(gap), separated(rest));
}

/// `id: [x, y, z]` and `id x y z` say the same: the four words.
pub proof fn law_brackets_say_nothing(
    id: Seq<char>,
    x: Seq<char>,
    y: Seq<char>,
    z: Seq<char>,
)
    requires
        is_plain(id),
        is_plain(x),
        is_plain(y),
        is_plain(z),
    ensures
        said(bracketed(id, x, y, z)) == Some(seq![id, x, y, z]),
        said(spaced(id, x, y, z)) == Some(seq![id, x, y, z]),
{
    let none: Seq<char> = seq![];
    assert(separated(none) =~= none);
    assert(words(none) =~= seq![]);
    let all = seq![id, x, y, z];
    assert(forall|w: Seq<char>, i: int|
        is_plain(w) && 0 <= i < w.len() ==> #[trigger] w[i] != '#' && !is_white(w[i]));

    let b3 = z + seq![']'];
    let b2 = y + seq![',', ' '] + b3;
    let b1 = x + seq![',', ' '] + b2;
    let b0 = id + seq![':', ' ', '['] + b1;
    assert(b3 =~= z + seq![']'] + none);
    lemma_item(z, seq![']'], none);
    lemma_item(y, seq![',', ' '], b3);
    lemma_item(x, seq![',', ' '], b2);
    lemma_item(id, seq![':', ' ', '['], b1);
    assert(words(separated(b0)) =~= all);
    lemma_no_comment(y + seq![',', ' '], b3);
    lemma_no_comment(x + seq![',', ' '], b2);
    lemma_no_comment(id + seq![':', ' ', '['], b1);
    assert(b0[0] == id[0] && b0.last() == ']');
    lemma_said(b0);

    let s2 = y + seq![' '] + z;
    let s1 = x + seq![' '] + s2;
    let s0 = id + seq![' '] + s1;
    assert(z =~= z + none + none);
    lemma_item(z, none, none);
    lemma_item(y, seq![' '], z);
    lemma_item(x, seq![' '], s2);
    lemma_item(id, seq![' '], s1);
    assert(words(separated(s0)) =~= all);
    lemma_no_comment(y + seq![' '], z);
    lemma_no_comment(x + seq![' '], s2);
    lemma_no_comment(id + seq![' '], s1);
    assert(s0[0] == id[0] && s0.last() == z.last());
    assert(z.last() == z[z.len() - 1]);
    lemma_said(s0);
}

/// `es` is what the lines say, each wherever it stands, and none is refused.
spec fn are_read<K: Numerics>(ls: Seq<Seq<char>>, es: Seq<Entry>) -> bool {
    &&& es.len() == ls.len()
    &&& forall|i: int| 0 <= i < es.len() ==> is_read::<K>(ls[i], #[trigger] es[i])
}

spec fn is_read<K: Numerics>(line: Seq<char>, e: Entry) -> bool {
    !(e is Refused) && exists|n: nat| #[trigger] is_entry::<K>(line, n, e)
}

/// Two lines that say the same are read alike, wherever they stand, unless the
/// first one is refused.
proof fn lemma_read_alike<K: Numerics>(a: Seq<char>, e: Entry, b: Seq<char>, n: nat, f: Entry)
    requires
        scalars_repeat::<K>(),
        said(a) == said(b),
        is_read::<K>(a, e),
        is_entry::<K>(b, n, f),
    ensures
        e == f,
{
    let m = choose|m: nat| #[trigger] is_entry::<K>(a, m, e);
    let w = line_words(a);
    if said(a) is Some {
        assert(w == line_words(b));
        assert(w.len() == 4);
        let (id, x, y, z) = choose|
            id: Result<Num, String>,
            x: Result<Num, String>,
            y: Result<Num, String>,
            z: Result<Num, String>,
        | #[trigger]
            is_landmark::<K>(m, id, x, y, z, e) && are_parsed::<K>(w, id, x, y, z);
        let (id2, x2, y2, z2) = choose|
            id: Result<Num, String>,
            x: Result<Num, String>,
            y: Result<Num, String>,
            z: Result<Num, String>,
        | #[trigger]
            is_landmark::<K>(n, id, x, y, z, f) && are_parsed::<K>(w, id, x, y, z);
        assert(id is Ok && x is Ok && y is Ok && z is Ok);
        assert(same_parse(id, id2));
        assert(same_parse(x, x2));
        assert(same_parse(y, y2));
        assert(same_parse(z, z2));
    }
}

/// What a line says is in the content, and what is in the content some line
/// says.
proof fn lemma_content_is_said(ls: Seq<Seq<char>>)
    ensures
        forall|i: int|
            0 <= i < ls.len() && said(#[trigger] ls[i]) is Some ==> content(ls).contains(
                said(ls[i])->0,
            ),
        forall|w: Seq<Seq<char>>| #[trigger]
            content(ls).contains(w) ==> exists|i: int|
                0 <= i < ls.len() && said(#[trigger] ls[i]) == Some(w),
    decreases ls.len(),
{
    if ls.len() > 0 {
        let rest = ls.drop_last();
        let head = content(rest);
        let tail = line_content(ls.last());
        lemma_content_is_said(rest);
        assert forall|i: int| 0 <= i < ls.len() && said(#[trigger] ls[i]) is Some implies content(
            ls,
        ).contains(said(ls[i])->0) by {
            let w = said(ls[i])->0;
            if i < rest.len() {
                assert(rest[i] == ls[i]);
                assert(head.contains(w));
                let c = choose|c: int| 0 <= c < head.len() && head[c] == w;
                assert(content(ls)[c] == w);
            } else {
                assert(content(ls)[head.len() as int] == w);
            }
        }
        assert forall|w: Seq<Seq<char>>| #[trigger] content(ls).contains(w) implies exists|i: int|
            0 <= i < ls.len() && said(#[trigger] ls[i]) == Some(w) by {
            let c = choose|c: int| 0 <= c < content(ls).len() && content(ls)[c] == w;
            if c < head.len() {
                assert(head[c] == w);
                assert(head.contains(w));
                let i = choose|i: int| 0 <= i < rest.len() && said(#[trigger] rest[i]) == Some(w);
                assert(ls[i] == rest[i]);
            } else {
                assert(tail[c - head.len()] == w);
                assert(said(ls[ls.len() - 1]) == Some(w));
            }
        }
    }
}

/// Readings of lines with the same content define the same landmarks.
proof fn lemma_same_readings<K: Numerics>(
    m: Map<int, Vector3>,
    a: Seq<Seq<char>>,
    ea: Seq<Entry>,
    b: Seq<Seq<char>>,
    eb: Seq<Entry>,
)
    requires
        scalars_repeat::<K>(),
        content(a) == content(b),
        are_read::<K>(a, ea),
        are_read::<K>(b, eb),
    ensures
        with_entries(m, ea) == with_entries(m, eb),
        landmark_count(ea) == landmark_count(eb),
    decreases a.len() + b.len(),
{
    assert forall|ls: Seq<Seq<char>>, es: Seq<Entry>| #[trigger]
        are_read::<K>(ls, es) && ls.len() > 0 implies are_read::<K>(ls.drop_last(), es.drop_last())
        by {
        let (l, e) = (ls.drop_last(), es.drop_last());
        assert forall|i: int| 0 <= i < e.len() implies is_read::<K>(l[i], #[trigger] e[i]) by {
            assert(is_read::<K>(ls[i], es[i]));
        }
    }
    if a.len() > 0 && said(a.last()) is None {
        assert(is_read::<K>(a[a.len() - 1], ea[a.len() - 1]));
        assert(content(a) =~= content(a.drop_last()));
        lemma_same_readings::<K>(m, a.drop_last(), ea.drop_last(), b, eb);
    } else if b.len() > 0 && said(b.last()) is None {
        assert(is_read::<K>(b[b.len() - 1], eb[b.len() - 1]));
        assert(content(b) =~= content(b.drop_last()));
        lemma_same_readings::<K>(m, a, ea, b.drop_last(), eb.drop_last());
    } else if a.len() > 0 && b.len() > 0 {
        assert(content(a).last() == said(a.last())->0);
        assert(content(b).last() == said(b.last())->0);
        assert(content(a).drop_last() =~= content(a.drop_last()));
        assert(content(b).drop_last() =~= content(b.drop_last()));
        assert(is_read::<K>(a[a.len() - 1], ea[a.len() - 1]));
        assert(is_read::<K>(b[b.len() - 1], eb[b.len() - 1]));
        let n = choose|n: nat| #[trigger] is_entry::<K>(b.last(), n, eb.last());
        lemma_read_alike::<K>(a.last(), ea.last(), b.last(), n, eb.last());
        lemma_same_readings::<K>(m, a.drop_last(), ea.drop_last(), b.drop_last(), eb.drop_last());
    } else if a.len() > 0 {
        assert(content(a).len() > 0);
    } else if b.len() > 0 {
        assert(content(b).len() > 0);
    }
}

/// Where lines are read with none refused, so are the lines of a text with the
/// same content, and they define the same landmarks.
proof fn lemma_loads_alike<K: Numerics>(
    m: Map<int, Vector3>,
    ls: Seq<Seq<char>>,
    es: Seq<Entry>,
    text: Seq<char>,
    q: Map<int, Vector3>,
    r: Result<usize, String>,
)
    requires
        scalars_repeat::<K>(),
        content(ls) == content(lines(text)),
        are_read::<K>(ls, es),
        is_loaded::<K>(m, text, q, r),
    ensures
        r matches Ok(count) && count == landmark_count(es),
        q == with_entries(m, es),
{
    let other = lines(text);
    let fs = choose|fs: Seq<Entry>|
        {
            &&& #[trigger] are_entries::<K>(other, fs)
            &&& q == with_entries(m, fs)
            &&& match r {
                Ok(count) => count == landmark_count(fs) && fs.len() == other.len() && forall|i: int|
                    0 <= i < fs.len() ==> !(#[trigger] fs[i] is Refused),
                Err(message) => fs.len() > 0 && fs.last() == (Entry::Refused {
                    message: message@,
                }) && forall|i: int| 0 <= i < fs.len() - 1 ==> !(#[trigger] fs[i] is Refused),
            }
        };
    assert forall|i: int| 0 <= i < fs.len() implies is_read::<K>(other[i], #[trigger] fs[i]) by {
        assert(is_entry::<K>(other[i], (i + 1) as nat, fs[i]));
        if said(other[i]) is Some {
            lemma_content_is_said(other);
            lemma_content_is_said(ls);
            let w = said(other[i])->0;
            assert(content(ls).contains(w));
            let k = choose|k: int| 0 <= k < ls.len() && said(#[trigger] ls[k]) == Some(w);
            assert(is_read::<K>(ls[k], es[k]));
            lemma_read_alike::<K>(ls[k], es[k], other[i], (i + 1) as nat, fs[i]);
        }
    }
    if r is Err {
        assert(is_read::<K>(other[fs.len() - 1], fs[fs.len() - 1]));
    }
    lemma_same_readings::<K>(m, ls, es, other, fs);
}

/// The entries of a text that loaded.
proof fn lemma_reading<K: Numerics>(
    m: Map<int, Vector3>,
    text: Seq<char>,
    p: Map<int, Vector3>,
    i: usize,
) -> (es: Seq<Entry>)
    requires
        is_loaded::<K>(m, text, p, Ok(i)),
    ensures
        are_read::<K>(lines(text), es),
        p == with_entries(m, es),
        i == landmark_count(es),
{
    let es = choose|es: Seq<Entry>|
        {
            &&& #[trigger] are_entries::<K>(lines(text), es)
            &&& p == with_entries(m, es)
            &&& i == landmark_count(es) && es.len() == lines(text).len() && forall|k: int|
                0 <= k < es.len() ==> !(#[trigger] es[k] is Refused)
        };
    assert forall|k: int| 0 <= k < es.len() implies is_read::<K>(lines(text)[k], #[trigger] es[k])
        by {
        assert(is_entry::<K>(lines(text)[k], (k + 1) as nat, es[k]));
    }
    es
}

/// Only the content of a text counts: where one loads, so does every other of
/// the same content, with the same landmarks and as many of them. Comments,
/// blank lines and the way in which a line is written make no difference.
pub proof fn law_only_content_counts<K: Numerics>(
    m: Map<int, Vector3>,
    a: Seq<char>,
    p: Map<int, Vector3>,
    i: usize,
    b: Seq<char>,
    q: Map<int, Vector3>,
    r: Result<usize, String>,
)
    requires
        scalars_repeat::<K>(),
        content(lines(a)) == content(lines(b)),
        is_loaded::<K>(m, a, p, Ok(i)),
        is_loaded::<K>(m, b, q, r),
    ensures
        r == Ok::<usize, String>(i),
        q == p,
{
    let es = lemma_reading::<K>(m, a, p, i);
    lemma_loads_alike::<K>(m, lines(a), es, b, q, r);
}

proof fn lemma_entries_join(m: Map<int, Vector3>, a: Seq<Entry>, b: Seq<Entry>)
    ensures
        with_entries(m, a + b) == with_entries(with_entries(m, a), b),
        landmark_count(a + b) == landmark_count(a) + landmark_count(b),
    decreases b.len(),
{
    if b.len() == 0 {
        assert(a + b =~= a);
    } else {
        assert((a + b).drop_last() =~= a + b.drop_last());
        assert((a + b).last() == b.last());
        lemma_entries_join(m, a, b.drop_last());
    }
}

/// Loading two map texts in turn is loading them joined by a line feed: the
/// same landmarks, and as many of them.
pub proof fn law_texts_join<K: Numerics>(
    m: Map<int, Vector3>,
    a: Seq<char>,
    b: Seq<char>,
    p: Map<int, Vector3>,
    i: usize,
    q: Map<int, Vector3>,
    j: usize,
    both: Map<int, Vector3>,
    r: Result<usize, String>,
)
    requires
        scalars_repeat::<K>(),
        is_loaded::<K>(m, a, p, Ok(i)),
        is_loaded::<K>(p, b, q, Ok(j)),
        is_loaded::<K>(m, a.push('\n') + b, both, r),
    ensures
        r matches Ok(count) && count == i + j,
        both == q,
{
    let ea = lemma_reading::<K>(m, a, p, i);
    let eb = lemma_reading::<K>(p, b, q, j);
    let (la, lb) = (lines(a), lines(b));
    law_content_joins(a, b);
    lemma_content_joins(la, lb);
    assert forall|k: int| 0 <= k < (ea + eb).len() implies is_read::<K>(
        (la + lb)[k],
        #[trigger] (ea + eb)[k],
    ) by {
        if k < ea.len() {
            assert(is_read::<K>(la[k], ea[k]));
        } else {
            assert(is_read::<K>(lb[k - ea.len()], eb[k - ea.len()]));
        }
    }
    lemma_loads_alike::<K>(m, la + lb, ea + eb, a.push('\n') + b, both, r);
    lemma_entries_join(m, ea, eb);
}

} // verus!
