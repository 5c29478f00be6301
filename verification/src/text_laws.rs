//! What map texts, pictures and their descriptions say.
use vstd::prelude::*;

use crate::exact::{scalars_are_exact, Reading};
use crate::grid::{at, is_cell, is_description, is_grid, threshold_or_default, OccGrid};
use crate::grid_laws::law_dark_pixels_are_occupied;
use crate::landmark_map::{
    are_entries, are_parsed, is_entry, is_landmark, landmark_count, line_words, with_entries, Entry,
    LandmarkMap,
};
use crate::map_laws::{bracketed, is_plain, law_brackets_say_nothing, said, spaced};
use crate::map_yaml::{
    self, coordinate, is_list, is_origin_line, last_value, line_value, numbers, origin_text,
};
use crate::num::{is_nan, num, Num, N255, P65};
use crate::numerics::{is_parse_of, is_to_id, Numerics};
use crate::pgm::{
    comment_end, content_start, digits_value, image, is_blank, is_digit, read_image, sized_image, token,
    token_end, token_value, unsigned, Image,
};
use crate::text::{
    before, decimal, first_at, is_white, lemma_first_at, lemma_first_at_is, lines, split, trim,
    trim_end, trim_end_matches, trim_start,
};
use crate::types::Vector3;

verus! {

/// What a landmark map was given it holds: a landmark that was added, in the
/// place of one with the same id, and the others as before.
pub proof fn law_landmarks_are_held(
    m: &mut LandmarkMap,
    id: i32,
    position: Vector3,
    seen: &LandmarkMap,
    other: i32,
    there: bool,
    place: Vector3,
    count: usize,
)
    ensures
        call_ensures(LandmarkMap::add, (m, id, position), ()) ==> {
            &&& final(m)@.contains_key(id as int) && final(m)@[id as int] == position
            &&& forall|k: int|
                k != id ==> #[trigger] final(m)@.contains_key(k) == old(m)@.contains_key(k)
            &&& forall|k: int|
                k != id && #[trigger] old(m)@.contains_key(k) ==> final(m)@[k] == old(m)@[k]
        },
        call_ensures(LandmarkMap::has, (seen, other), there) ==> there == seen@.contains_key(
            other as int,
        ),
        call_ensures(LandmarkMap::at, (seen, other), place) ==> place == seen@[other as int],
        call_ensures(LandmarkMap::len_defined, (seen,), count) ==> count == seen@.dom().len(),
{
}

/// `text` spells the number `v` and no other.
pub open spec fn spells<K: Numerics>(text: Seq<char>, v: Num) -> bool {
    forall|p: Result<Num, String>| #[trigger]
        is_parse_of::<K>(text, p) ==> p == Ok::<Num, String>(v)
}

/// Whatever is read from a line whose four words spell numbers.
proof fn lemma_four_words<K: Numerics>(
    line: Seq<char>,
    n: nat,
    v: Num,
    key: i32,
    at: Vector3,
    e: Entry,
)
    requires
        said(line) is Some,
        line_words(line).len() == 4,
        spells::<K>(line_words(line)[0], v),
        spells::<K>(line_words(line)[1], at.x),
        spells::<K>(line_words(line)[2], at.y),
        spells::<K>(line_words(line)[3], at.z),
        forall|k: i32| #[trigger] is_to_id::<K>(v, k) ==> k == key,
        is_entry::<K>(line, n, e),
    ensures
        if key >= 0 {
            e == (Entry::Landmark { id: key, at })
        } else {
            e is Refused
        },
{
    let w = line_words(line);
    let (id, x, y, z) = choose|
        id: Result<Num, String>,
        x: Result<Num, String>,
        y: Result<Num, String>,
        z: Result<Num, String>,
    | #[trigger]
        is_landmark::<K>(n, id, x, y, z, e) && are_parsed::<K>(w, id, x, y, z);
}

/// A line `id: [x, y, z]` or `id x y z` whose words spell numbers defines the
/// landmark with that id there, and no other; one with a negative id is
/// refused and defines none.
pub proof fn law_line_defines_a_landmark<K: Numerics>(
    m: &mut LandmarkMap,
    text: &str,
    r: Result<usize, String>,
    id: Seq<char>,
    x: Seq<char>,
    y: Seq<char>,
    z: Seq<char>,
    v: Num,
    key: i32,
    at: Vector3,
)
    requires
        is_plain(id) && is_plain(x) && is_plain(y) && is_plain(z),
        text@ == bracketed(id, x, y, z) || text@ == spaced(id, x, y, z),
        spells::<K>(id, v),
        spells::<K>(x, at.x),
        spells::<K>(y, at.y),
        spells::<K>(z, at.z),
        forall|k: i32| #[trigger] is_to_id::<K>(v, k) ==> k == key,
        call_ensures(LandmarkMap::load_from_str::<K>, (m, text), r),
    ensures
        key >= 0 ==> r == Ok::<usize, String>(1) && final(m)@ == old(m)@.insert(key as int, at),
        key < 0 ==> r is Err && final(m)@ == old(m)@,
{
    let t = text@;
    law_brackets_say_nothing(id, x, y, z);
    lemma_no_line_feed(id, x, y, z);
    lemma_first_at(t, '\n');
    assert(lines(t) =~= seq![t]);
    let es = choose|es: Seq<Entry>|
        {
            &&& #[trigger] are_entries::<K>(lines(t), es)
            &&& final(m)@ == with_entries(old(m)@, es)
            &&& match r {
                Ok(count) => count == landmark_count(es) && es.len() == lines(t).len()
                    && forall|i: int| 0 <= i < es.len() ==> !(#[trigger] es[i] is Refused),
                Err(message) => es.len() > 0 && es.last() == (Entry::Refused {
                    message: message@,
                }) && forall|i: int| 0 <= i < es.len() - 1 ==> !(#[trigger] es[i] is Refused),
            }
        };
    assert(es.len() == 1);
    assert(is_entry::<K>(t, 1, es[0]));
    lemma_four_words::<K>(t, 1, v, key, at, es[0]);
    reveal_with_fuel(with_entries, 2);
    reveal_with_fuel(landmark_count, 2);
    assert(es.drop_last() =~= seq![]);
    assert(es.last() == es[0]);
}

proof fn lemma_no_line_feed(id: Seq<char>, x: Seq<char>, y: Seq<char>, z: Seq<char>)
    requires
        is_plain(id) && is_plain(x) && is_plain(y) && is_plain(z),
    ensures
        first_at(bracketed(id, x, y, z), '\n') == bracketed(id, x, y, z).len(),
        first_at(spaced(id, x, y, z), '\n') == spaced(id, x, y, z).len(),
        bracketed(id, x, y, z).len() > 0 && spaced(id, x, y, z).len() > 0,
{
    assert(forall|w: Seq<char>, i: int|
        is_plain(w) && 0 <= i < w.len() ==> #[trigger] w[i] != '\n');
    let b = bracketed(id, x, y, z);
    let s = spaced(id, x, y, z);
    assert forall|i: int| 0 <= i < b.len() implies b[i] != '\n' by {}
    assert forall|i: int| 0 <= i < s.len() implies s[i] != '\n' by {}
    lemma_first_at_is(b, '\n', b.len() as int);
    lemma_first_at_is(s, '\n', s.len() as int);
}

/// The last line about an id counts, and an id that no line is about stays as
/// it was.
pub proof fn law_last_line_counts(m: Map<int, Vector3>, es: Seq<Entry>, id: i32, k: int)
    requires
        -1 <= k < es.len(),
        forall|i: int|
            k < i < es.len() ==> !(#[trigger] es[i] matches Entry::Landmark { id: o, .. } && o
                == id),
        k >= 0 ==> (es[k] matches Entry::Landmark { id: o, .. } && o == id),
    ensures
        k >= 0 ==> with_entries(m, es).contains_key(id as int) && with_entries(m, es)[id as int]
            == es[k]->at,
        k < 0 ==> with_entries(m, es).contains_key(id as int) == m.contains_key(id as int),
        k < 0 && m.contains_key(id as int) ==> with_entries(m, es)[id as int] == m[id as int],
    decreases es.len(),
{
    if es.len() > 0 && k < es.len() - 1 {
        let front = es.drop_last();
        assert(forall|i: int| 0 <= i < front.len() ==> #[trigger] front[i] == es[i]);
        assert(es.last() == es[es.len() - 1]);
        law_last_line_counts(m, front, id, k);
    }
}

/// A number in decimal, as bytes.
pub open spec fn spelled(n: nat) -> Seq<u8> {
    decimal(n).map_values(|c: char| c as u8)
}

proof fn lemma_spelled(n: nat)
    ensures
        spelled(n).len() > 0,
        forall|i: int| 0 <= i < spelled(n).len() ==> is_digit(#[trigger] spelled(n)[i]),
        digits_value(spelled(n)) == n,
    decreases n,
{
    let s = spelled(n);
    let low = (48 + n % 10) as char;
    assert(low as u8 == 48 + n % 10);
    if n < 10 {
        assert(s =~= seq![low as u8]);
        assert(s.drop_last() =~= seq![]);
        assert(digits_value(s.drop_last()) == 0);
        assert(s.last() == low as u8);
    } else {
        lemma_spelled(n / 10);
        let front = spelled(n / 10);
        assert(s =~= front.push(low as u8));
        assert(s.drop_last() =~= front);
        assert(s.last() == low as u8);
        assert forall|i: int| 0 <= i < s.len() implies is_digit(#[trigger] s[i]) by {
            if i < front.len() {
                assert(s[i] == front[i]);
            }
        }
    }
}

proof fn lemma_value(n: nat)
    requires
        n <= usize::MAX,
    ensures
        token_value(spelled(n)) == Some(n),
{
    lemma_spelled(n);
    assert(is_digit(spelled(n)[0]));
    assert(unsigned(spelled(n)) == spelled(n));
}

/// White space and comments, each comment from a `#` to the end of its line.
pub open spec fn is_skipped(s: Seq<u8>) -> bool
    decreases s.len(),
{
    if s.len() == 0 {
        true
    } else if is_blank(s[0]) {
        is_skipped(s.skip(1))
    } else {
        s[0] == 35 && exists|n: int| #[trigger] ends_line(s, n) && is_skipped(s.skip(n))
    }
}

/// The first line feed of `s` stands at `n`, and `n` is not 0.
pub open spec fn ends_line(s: Seq<u8>, n: int) -> bool {
    0 < n < s.len() && s[n] == 10 && forall|i: int| 0 <= i < n ==> #[trigger] s[i] != 10
}

/// White space, and what else is skipped behind it.
pub open spec fn is_gap(s: Seq<u8>) -> bool {
    s.len() > 0 && is_blank(s[0]) && is_skipped(s)
}

proof fn lemma_content_start(b: Seq<u8>, i: int, start: int)
    requires
        0 <= i <= start < b.len(),
        is_skipped(b.subrange(i, start)),
        !is_blank(b[start]),
        b[start] != 35,
    ensures
        content_start(b, i) == start,
    decreases start - i,
{
    let s = b.subrange(i, start);
    if i < start {
        assert(s[0] == b[i]);
        if is_blank(b[i]) {
            assert(s.skip(1) =~= b.subrange(i + 1, start));
            lemma_content_start(b, i + 1, start);
        } else {
            let n = choose|n: int| #[trigger] ends_line(s, n) && is_skipped(s.skip(n));
            assert forall|j: int| i <= j < i + n implies #[trigger] b[j] != 10 by {
                assert(b[j] == s[j - i]);
            }
            assert(b[i + n] == s[n]);
            lemma_comment_ends(b, i + 1, i + n);
            assert(s.skip(n) =~= b.subrange(i + n, start));
            lemma_content_start(b, i + n, start);
        }
    }
}

proof fn lemma_comment_ends(b: Seq<u8>, i: int, end: int)
    requires
        0 <= i <= end < b.len(),
        b[end] == 10,
        forall|j: int| i <= j < end ==> #[trigger] b[j] != 10,
    ensures
        comment_end(b, i) == end,
    decreases end - i,
{
    if i < end {
        lemma_comment_ends(b, i + 1, end);
    }
}

proof fn lemma_token_end(b: Seq<u8>, i: int, end: int)
    requires
        0 <= i <= end < b.len(),
        forall|j: int| i <= j < end ==> !is_blank(#[trigger] b[j]),
        is_blank(b[end]),
    ensures
        token_end(b, i) == end,
    decreases end - i,
{
    if i < end {
        lemma_token_end(b, i + 1, end);
    }
}

/// The next token of bytes is a word behind a gap.
proof fn lemma_token(b: Seq<u8>, i: int, gap: Seq<u8>, word: Seq<u8>)
    requires
        0 <= i,
        i + gap.len() + word.len() < b.len(),
        is_skipped(gap),
        word.len() > 0,
        word[0] != 35,
        forall|j: int| 0 <= j < word.len() ==> !is_blank(#[trigger] word[j]),
        b.subrange(i, i + gap.len()) == gap,
        b.subrange(i + gap.len(), i + gap.len() + word.len()) == word,
        is_blank(b[i + gap.len() + word.len()]),
    ensures
        token(b, i) == Some((i + gap.len(), i + gap.len() + word.len())),
{
    let start = i + gap.len();
    let end = start + word.len();
    assert forall|j: int| start <= j < end implies !is_blank(#[trigger] b[j]) by {
        assert(b[j] == b.subrange(start, end)[j - start]);
    }
    assert(b[start] == b.subrange(start, end)[0]);
    lemma_content_start(b, i, start);
    lemma_token_end(b, start, end);
}

/// A binary picture: `P5`, the width, the height and the largest value in
/// decimal with white space or comments between them, one white byte, and the
/// pixels.
pub open spec fn written(
    w: nat,
    h: nat,
    top: nat,
    g0: Seq<u8>,
    g1: Seq<u8>,
    g2: Seq<u8>,
    c: u8,
    px: Seq<u8>,
) -> Seq<u8> {
    seq![80u8, 53u8] + g0 + spelled(w) + g1 + spelled(h) + g2 + spelled(top) + seq![c] + px
}

/// A picture is read as it was written: its width, its height and, by rows, as
/// many pixels as those ask for; it is refused where there are fewer.
pub proof fn law_picture_is_read(
    w: nat,
    h: nat,
    top: nat,
    g0: Seq<u8>,
    g1: Seq<u8>,
    g2: Seq<u8>,
    c: u8,
    px: Seq<u8>,
    b: &[u8],
    r: Result<Image, String>,
)
    requires
        w <= usize::MAX && h <= usize::MAX && top <= usize::MAX,
        is_gap(g0) && is_gap(g1) && is_gap(g2) && is_blank(c),
        b@ == written(w, h, top, g0, g1, g2, c, px),
        call_ensures(read_image, (b,), r),
    ensures
        r is Ok <==> w * h <= px.len(),
        r matches Ok(img) ==> img.w == w && img.h == h && img.px@ == px.take((w * h) as int),
{
    let b = b@;
    lemma_spelled(w);
    lemma_spelled(h);
    lemma_spelled(top);
    let magic = seq![80u8, 53u8];
    let none: Seq<u8> = seq![];
    let (sw, sh, st) = (spelled(w), spelled(h), spelled(top));
    let e0: int = 2;
    let s1 = e0 + g0.len();
    let e1 = s1 + sw.len();
    let s2 = e1 + g1.len();
    let e2 = s2 + sh.len();
    let s3 = e2 + g2.len();
    let e3 = s3 + st.len();
    assert(b.len() == e3 + 1 + px.len());
    assert(b.subrange(0, 0) =~= none);
    assert(b.subrange(0, 2) =~= magic);
    assert(b.subrange(e0, s1) =~= g0);
    assert(b.subrange(s1, e1) =~= sw);
    assert(b.subrange(e1, s2) =~= g1);
    assert(b.subrange(s2, e2) =~= sh);
    assert(b.subrange(e2, s3) =~= g2);
    assert(b.subrange(s3, e3) =~= st);
    assert(b[e0] == g0[0] && is_blank(g0[0]));
    assert(b[e1] == g1[0] && is_blank(g1[0]));
    assert(b[e2] == g2[0] && is_blank(g2[0]));
    assert(b[e3] == c);
    assert(is_digit(sw[0]) && is_digit(sh[0]) && is_digit(st[0]));
    assert forall|j: int| 0 <= j < sw.len() implies !is_blank(#[trigger] sw[j]) by {
        assert(is_digit(sw[j]));
    }
    assert forall|j: int| 0 <= j < sh.len() implies !is_blank(#[trigger] sh[j]) by {
        assert(is_digit(sh[j]));
    }
    assert forall|j: int| 0 <= j < st.len() implies !is_blank(#[trigger] st[j]) by {
        assert(is_digit(st[j]));
    }
    lemma_token(b, 0, none, magic);
    lemma_token(b, e0, g0, sw);
    lemma_token(b, e1, g1, sh);
    lemma_token(b, e2, g2, st);
    lemma_value(w);
    lemma_value(h);
    lemma_value(top);
    assert(image(b) == sized_image(b, e0));
    if w * h <= px.len() {
        assert(b.subrange(e3 + 1, e3 + 1 + w * h) =~= px.take((w * h) as int));
    }
}

/// A grid holds the picture it was read from, the top row of the picture at
/// the largest `y`: a cell is occupied where its pixel is darker than the
/// threshold. The resolution, the threshold and the first two numbers of the
/// origin are those of the description; without a threshold it is 0.65.
pub proof fn law_grid_is_the_picture<K: Numerics>(
    val: Reading,
    pgm: &[u8],
    yaml: &str,
    r: Result<OccGrid, String>,
)
    requires
        scalars_are_exact::<K>(val),
        val(num(N255)) == 255real,
        call_ensures(OccGrid::from_pgm_yaml::<K>, (pgm, yaml), r),
        r is Ok,
    ensures
        exists|
            px: Seq<u8>,
            res: Option<Num>,
            ps: Seq<Result<Num, String>>,
            threshold: Option<Num>,
            t: Num,
        |
            {
                let g = r->Ok_0;
                &&& #[trigger] is_description::<K>(lines(yaml@), res, ps, threshold)
                &&& res == Some(g.res)
                &&& g.origin.x == coordinate(ps, 0) && g.origin.y == coordinate(ps, 1)
                &&& image(pgm@) == Ok::<(nat, nat, Seq<u8>), Seq<char>>(
                    (g.w as nat, g.h as nat, px),
                )
                &&& #[trigger] is_shown_in(val, px, t, r->Ok_0)
                &&& t == match threshold {
                    Some(v) => v,
                    None => num(P65),
                }
            },
{
    let (res, ps, threshold) = choose|
        res: Option<Num>,
        ps: Seq<Result<Num, String>>,
        threshold: Option<Num>,
    |
        is_description::<K>(lines(yaml@), res, ps, threshold) && #[trigger] is_grid::<K>(
            pgm@,
            lines(yaml@),
            res,
            ps,
            threshold,
            r,
        );
    let g = r->Ok_0;
    let px = image(pgm@)->Ok_0.2;
    let t = threshold_or_default(threshold);
    let (w, h) = (g.w as int, g.h as int);
    if !is_nan(t) {
        assert forall|y: int, x: int| 0 <= y < h && 0 <= x < w implies #[trigger] g.cells@[y * w
            + x] == (if val(t) < (255 - px[(h - 1 - y) * w + x]) as real / 255real {
            1u8
        } else {
            0u8
        }) by {
            assert(at(w, y, x) == y * w + x);
            assert(at(w, h - 1 - y, x) == (h - 1 - y) * w + x);
            assert(is_cell::<K>(px[at(w, h - 1 - y, x)], t, g.cells@[at(w, y, x)]));
            law_dark_pixels_are_occupied::<K>(
                val,
                px[at(w, h - 1 - y, x)],
                t,
                g.cells@[at(w, y, x)],
            );
        }
    }
    assert(is_shown_in(val, px, t, g));
}

/// `g` shows `px` upside down, darker pixels than the threshold as 1.
pub open spec fn is_shown_in(val: Reading, px: Seq<u8>, t: Num, g: OccGrid) -> bool {
    &&& px.len() == g.w * g.h && g.cells@.len() == g.w * g.h
    &&& !is_nan(t) ==> forall|y: int, x: int|
        0 <= y < g.h && 0 <= x < g.w ==> #[trigger] g.cells@[y * g.w + x] == (if val(t) < (255
            - px[(g.h - 1 - y) * g.w + x]) as real / 255real {
            1u8
        } else {
            0u8
        })
}

/// Text that starts and ends with something to see, and holds no comment.
pub open spec fn is_bare(s: Seq<char>) -> bool {
    &&& s.len() > 0
    &&& !is_white(s[0]) && !is_white(s.last())
    &&& forall|i: int| 0 <= i < s.len() ==> #[trigger] s[i] != '#'
}

proof fn lemma_bare(s: Seq<char>)
    requires
        is_bare(s),
    ensures
        before(s, '#') == s,
        trim_start(s) == s,
        trim_end(s) == s,
        trim(s) == s,
{
    lemma_first_at_is(s, '#', s.len() as int);
    assert(s.take(s.len() as int) =~= s);
}

/// A line `key: value` gives the key that value, and the last line that gives
/// it one counts.
pub proof fn law_key_has_its_value(
    ls: Seq<Seq<char>>,
    key: Seq<char>,
    v: Seq<char>,
    line: Seq<char>,
)
    requires
        is_bare(key),
        is_bare(v),
    ensures
        line_value(key + seq![':', ' '] + v, key) == Some(v),
        last_value(ls.push(key + seq![':', ' '] + v), key) == Some(v),
        line_value(line, key) is None ==> last_value(ls.push(line), key) == last_value(ls, key),
{
    let t = key + seq![':', ' '] + v;
    assert(t.last() == v.last());
    assert forall|i: int| 0 <= i < t.len() implies #[trigger] t[i] != '#' by {
        if i < key.len() {
            assert(key[i] != '#');
        } else if i >= key.len() + 2 {
            assert(v[i - key.len() - 2] != '#');
        }
    }
    lemma_bare(t);
    lemma_bare(v);
    let rest = t.skip(key.len() as int);
    assert(key.is_prefix_of(t)) by {
        assert(t.subrange(0, key.len() as int) =~= key);
    }
    assert(rest[0] == ':');
    assert(trim_start(rest) == rest);
    let tail = rest.skip(1);
    assert(tail[0] == ' ');
    assert(tail.skip(1) =~= v);
    assert(trim_start(tail) == v);
    assert(ls.push(t).last() == t);
    assert(ls.push(line).drop_last() =~= ls);
    assert(ls.push(line).last() == line);
}

/// Where all parts of a list are numbers, they are its coordinates in order.
pub proof fn law_coordinates_in_order(ps: Seq<Result<Num, String>>, i: int)
    requires
        forall|k: int| 0 <= k < ps.len() ==> #[trigger] ps[k] is Ok,
        0 <= i < ps.len(),
    ensures
        coordinate(ps, i) == ps[i]->Ok_0,
{
    lemma_all_numbers(ps);
}

proof fn lemma_all_numbers(ps: Seq<Result<Num, String>>)
    requires
        forall|k: int| 0 <= k < ps.len() ==> #[trigger] ps[k] is Ok,
    ensures
        numbers(ps).len() == ps.len(),
        forall|k: int| 0 <= k < ps.len() ==> #[trigger] numbers(ps)[k] == ps[k]->Ok_0,
    decreases ps.len(),
{
    if ps.len() > 0 {
        let front = ps.drop_last();
        assert(forall|k: int| 0 <= k < front.len() ==> #[trigger] front[k] == ps[k]);
        lemma_all_numbers(front);
        assert(ps[ps.len() - 1] is Ok);
        assert forall|k: int| 0 <= k < ps.len() implies #[trigger] numbers(ps)[k]
            == ps[k]->Ok_0 by {
            if k < front.len() {
                assert(numbers(front)[k] == front[k]->Ok_0);
            }
        }
    }
}

/// The line `origin: [x, y, z]`.
pub open spec fn origin_line(x: Seq<char>, y: Seq<char>, z: Seq<char>) -> Seq<char> {
    "origin"@ + seq![':', ' ', '['] + listed(x, y, z) + seq![']']
}

/// `x, y, z`.
pub open spec fn listed(x: Seq<char>, y: Seq<char>, z: Seq<char>) -> Seq<char> {
    x + seq![',', ' '] + (y + seq![',', ' '] + z)
}

/// The first line that starts with `origin` gives it: of `origin: [x, y, z]`,
/// x and y are what the first two words spell.
pub proof fn law_origin_is_read<K: Numerics>(
    ls: Seq<Seq<char>>,
    k: int,
    x: Seq<char>,
    y: Seq<char>,
    z: Seq<char>,
    vx: Num,
    vy: Num,
    vz: Num,
    ps: Seq<Result<Num, String>>,
)
    requires
        is_plain(x) && is_plain(y) && is_plain(z),
        0 <= k < ls.len(),
        ls[k] == origin_line(x, y, z),
        forall|i: int| 0 <= i < k ==> !("origin"@.is_prefix_of(trim_start(#[trigger] ls[i]))),
        spells::<K>(x, vx),
        spells::<K>(y, vy),
        spells::<K>(z, vz),
        is_list::<K>(listed(x, y, z), ps),
    ensures
        origin_text(ls) == Some(listed(x, y, z)),
        coordinate(ps, 0) == vx,
        coordinate(ps, 1) == vy,
{
    lemma_origin_text(x, y, z);
    lemma_origin_first(ls, k);
    lemma_listed(x, y, z);
    assert(is_parse_of::<K>(x, ps[0]));
    assert(is_parse_of::<K>(y, ps[1]));
    assert(is_parse_of::<K>(z, ps[2]));
    law_coordinates_in_order(ps, 0);
    law_coordinates_in_order(ps, 1);
}

proof fn lemma_origin_first(ls: Seq<Seq<char>>, k: int)
    requires
        0 <= k < ls.len(),
        is_origin_line(ls[k]),
        forall|i: int| 0 <= i < k ==> !("origin"@.is_prefix_of(trim_start(#[trigger] ls[i]))),
    ensures
        origin_text(ls) == map_yaml::bracketed(ls[k]),
    decreases k,
{
    if k > 0 {
        let rest = ls.skip(1);
        assert(forall|i: int| 0 <= i < rest.len() ==> #[trigger] rest[i] == ls[i + 1]);
        assert(!is_origin_line(ls[0]));
        lemma_origin_first(rest, k - 1);
    }
}

proof fn lemma_origin_text(x: Seq<char>, y: Seq<char>, z: Seq<char>)
    requires
        is_plain(x) && is_plain(y) && is_plain(z),
    ensures
        is_origin_line(origin_line(x, y, z)),
        map_yaml::bracketed(origin_line(x, y, z)) == Some(listed(x, y, z)),
{
    reveal_strlit("origin");
    let key = "origin"@;
    let text = listed(x, y, z);
    let line = origin_line(x, y, z);
    assert(line =~= key + (seq![':', ' ', '['] + text + seq![']']));
    assert(line[0] == key[0] && key[0] == 'o');
    assert(trim_start(line) == line);
    assert(line.subrange(0, key.len() as int) =~= key);
    let head = key + seq![':', ' '];
    assert(line =~= head + seq!['['] + text.push(']'));
    assert forall|i: int| 0 <= i < 8 implies line[i] != '[' by {
        assert(line[i] == head[i]);
    }
    assert(line[8] == '[');
    lemma_first_at_is(line, '[', 8);
    let tail = line.skip(9);
    assert(tail =~= text.push(']'));
    lemma_no_bracket(x, y, z);
    assert forall|i: int| 0 <= i < tail.len() implies tail[i] != '[' by {
        if i < text.len() {
            assert(tail[i] == text[i]);
        }
    }
    lemma_first_at_is(tail, '[', tail.len() as int);
    assert(tail.take(tail.len() as int) =~= tail);
    assert(tail.drop_last() =~= text);
    assert(tail.last() == ']');
    assert(trim_end_matches(text, ']') == text);
}

proof fn lemma_no_bracket(x: Seq<char>, y: Seq<char>, z: Seq<char>)
    requires
        is_plain(x) && is_plain(y) && is_plain(z),
    ensures
        forall|i: int| 0 <= i < listed(x, y, z).len() ==> #[trigger] listed(x, y, z)[i] != '[',
        listed(x, y, z).len() > 0,
        listed(x, y, z).last() != ']',
{
    let rest = y + seq![',', ' '] + z;
    assert forall|i: int| 0 <= i < rest.len() implies #[trigger] rest[i] != '[' by {
        if i < y.len() {
            assert(rest[i] == y[i]);
        } else if i >= y.len() + 2 {
            assert(rest[i] == z[i - y.len() - 2]);
        }
    }
    let text = listed(x, y, z);
    assert forall|i: int| 0 <= i < text.len() implies #[trigger] text[i] != '[' by {
        if i < x.len() {
            assert(text[i] == x[i]);
        } else if i >= x.len() + 2 {
            assert(text[i] == rest[i - x.len() - 2]);
        }
    }
    assert(text.last() == rest.last() && rest.last() == z[z.len() - 1]);
}

proof fn lemma_listed(x: Seq<char>, y: Seq<char>, z: Seq<char>)
    requires
        is_plain(x) && is_plain(y) && is_plain(z),
    ensures
        split(listed(x, y, z), ',').len() == 3,
        trim(split(listed(x, y, z), ',')[0]) == x,
        trim(split(listed(x, y, z), ',')[1]) == y,
        trim(split(listed(x, y, z), ',')[2]) == z,
{
    let text = listed(x, y, z);
    let (py, pz) = (seq![' '] + y, seq![' '] + z);
    let more = py + seq![','] + pz;
    assert(text =~= x + seq![','] + more);
    lemma_piece(x, more, text);
    assert forall|i: int| 0 <= i < py.len() implies #[trigger] py[i] != ',' by {
        if i > 0 {
            assert(py[i] == y[i - 1]);
        }
    }
    lemma_piece(py, pz, more);
    assert forall|i: int| 0 <= i < pz.len() implies pz[i] != ',' by {
        if i > 0 {
            assert(pz[i] == z[i - 1]);
        }
    }
    lemma_first_at_is(pz, ',', pz.len() as int);
    assert(split(pz, ',') =~= seq![pz]);
    lemma_padded(y);
    lemma_padded(z);
    lemma_plain_is_trim(x);
}

/// What stands before a comma is a piece, and what follows is split on.
proof fn lemma_piece(a: Seq<char>, b: Seq<char>, s: Seq<char>)
    requires
        forall|i: int| 0 <= i < a.len() ==> #[trigger] a[i] != ',',
        s == a + seq![','] + b,
    ensures
        split(s, ',') == seq![a] + split(b, ','),
{
    assert(s[a.len() as int] == ',');
    assert forall|i: int| 0 <= i < a.len() implies s[i] != ',' by {
        assert(s[i] == a[i]);
    }
    lemma_first_at_is(s, ',', a.len() as int);
    assert(s.take(a.len() as int) =~= a);
    assert(s.skip(a.len() as int + 1) =~= b);
}

proof fn lemma_plain_is_trim(w: Seq<char>)
    requires
        is_plain(w),
    ensures
        trim(w) == w,
{
    assert(!is_white(w[0]) && !is_white(w[w.len() - 1]));
}

proof fn lemma_padded(w: Seq<char>)
    requires
        is_plain(w),
    ensures
        trim(seq![' '] + w) == w,
{
    lemma_plain_is_trim(w);
    let p = seq![' '] + w;
    assert(p.skip(1) =~= w);
    assert(p[0] == ' ');
    assert(!is_white(w[0]));
}

/// Flipping a grid puts each row as far from the end as it was from the start,
/// and changes nothing else.
pub proof fn law_flip(g: &mut OccGrid, x: int, y: int)
    requires
        call_ensures(OccGrid::flip_rows, (g,), ()),
        0 <= x < old(g).w,
        0 <= y < old(g).h,
    ensures
        final(g).w == old(g).w && final(g).h == old(g).h,
        final(g).res == old(g).res && final(g).origin == old(g).origin,
        final(g).cells@.len() == old(g).cells@.len(),
        final(g).cells@[y * old(g).w + x] == old(g).cells@[(old(g).h - 1 - y) * old(g).w + x],
{
    let (w, h) = (old(g).w as int, old(g).h as int);
    assert(at(w, y, x) == y * w + x);
    assert(at(w, h - 1 - y, x) == (h - 1 - y) * w + x);
}

} // verus!
