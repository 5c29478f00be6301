//! The few keys of a `map_server` description that a grid needs.
use vstd::prelude::*;
use vstd::slice::slice_subrange;

use crate::num::{num, Num, ZERO};
use crate::numerics::{is_parse_of, parse_chars, Numerics};
use crate::text::{
    before, find, first_at, part_before, split, split_at_each, starts_with, trim, trim_end_matches,
    trim_start, trimmed, trimmed_end_matches, trimmed_start, views,
};

verus! {

/// What a line gives to `key`: the text behind `key:`, comments and outer
/// white space left out.
pub open spec fn line_value(line: Seq<char>, key: Seq<char>) -> Option<Seq<char>> {
    let body = trim(before(line, '#'));
    if key.is_prefix_of(body) {
        let rest = trim_start(body.skip(key.len() as int));
        if rest.len() > 0 && rest[0] == ':' {
            Some(trim(rest.skip(1)))
        } else {
            None
        }
    } else {
        None
    }
}

/// What the last line that gives `key` a value gives it.
pub open spec fn last_value(lines: Seq<Seq<char>>, key: Seq<char>) -> Option<Seq<char>>
    decreases lines.len(),
{
    if lines.len() == 0 {
        None
    } else {
        match line_value(lines.last(), key) {
            Some(v) => Some(v),
            None => last_value(lines.drop_last(), key),
        }
    }
}

/// A parsed number, the reason of a failure left out.
pub open spec fn parsed(p: Result<Num, String>) -> Option<Num> {
    match p {
        Ok(v) => Some(v),
        Err(_) => None,
    }
}

/// `v` is the number that `key` has: none where the key is absent or its last
/// value is no number.
pub open spec fn has_number<K: Numerics>(
    lines: Seq<Seq<char>>,
    key: Seq<char>,
    v: Option<Num>,
) -> bool {
    match last_value(lines, key) {
        None => v is None,
        Some(text) => exists|p: Result<Num, String>| #[trigger]
            is_parse_of::<K>(text, p) && v == parsed(p),
    }
}

pub open spec fn is_origin_line(line: Seq<char>) -> bool {
    "origin"@.is_prefix_of(trim_start(line))
}

/// What a line has behind its first `[`, up to the next one, and without `]`
/// at the end.
pub open spec fn bracketed(line: Seq<char>) -> Option<Seq<char>> {
    let n = first_at(line, '[');
    if n >= line.len() {
        None
    } else {
        Some(trim_end_matches(before(line.skip(n as int + 1), '['), ']'))
    }
}

/// The bracketed part of the first line that starts with `origin`.
pub open spec fn origin_text(lines: Seq<Seq<char>>) -> Option<Seq<char>>
    decreases lines.len(),
{
    if lines.len() == 0 {
        None
    } else if is_origin_line(lines[0]) {
        bracketed(lines[0])
    } else {
        origin_text(lines.skip(1))
    }
}

/// `ps` are results of parsing the pieces between the commas of `text`.
pub open spec fn is_list<K: Numerics>(text: Seq<char>, ps: Seq<Result<Num, String>>) -> bool {
    let pieces = split(text, ',');
    &&& ps.len() == pieces.len()
    &&& forall|i: int|
        0 <= i < ps.len() ==> is_parse_of::<K>(trim(pieces[i]), #[trigger] ps[i])
}

/// The pieces that are numbers.
pub open spec fn numbers(ps: Seq<Result<Num, String>>) -> Seq<Num>
    decreases ps.len(),
{
    if ps.len() == 0 {
        seq![]
    } else {
        match ps.last() {
            Ok(v) => numbers(ps.drop_last()).push(v),
            Err(_) => numbers(ps.drop_last()),
        }
    }
}

/// The `i`th number, 0.0 where there are fewer.
pub open spec fn coordinate(ps: Seq<Result<Num, String>>, i: int) -> Num {
    if i < numbers(ps).len() {
        numbers(ps)[i]
    } else {
        num(ZERO)
    }
}

fn value_in<'a>(line: &'a [char], key: &[char]) -> (r: Option<&'a [char]>)
    ensures
        match r {
            None => line_value(line@, key@) is None,
            Some(v) => line_value(line@, key@) == Some(v@),
        },
{
    let body = trimmed(part_before(line, '#'));
    if starts_with(body, key) {
        let tail = slice_subrange(body, key.len(), body.len());
        assert(tail@ == body@.skip(key@.len() as int));
        let rest = trimmed_start(tail);
        if rest.len() > 0 && rest[0] == ':' {
            let value = slice_subrange(rest, 1, rest.len());
            assert(value@ == rest@.skip(1));
            return Some(trimmed(value));
        }
    }
    None
}

/// The number that `key` has in `lines`.
pub(crate) fn number_of<K: Numerics>(lines: &Vec<&[char]>, key: &[char]) -> (v: Option<Num>)
    ensures
        has_number::<K>(views(lines@), key@, v),
{
    let ghost all = views(lines@);
    let mut n: usize = lines.len();
    assert(all.take(n as int) == all);
    while n > 0
        invariant
            all == views(lines@),
            n <= lines@.len(),
            last_value(all, key@) == last_value(all.take(n as int), key@),
        decreases n,
    {
        let line = lines[n - 1];
        assert(all.take(n as int).last() == line@);
        assert(all.take(n as int).drop_last() == all.take(n - 1));
        match value_in(line, key) {
            Some(text) => {
                let p = parse_chars::<K>(text);
                return match p {
                    Ok(v) => Some(v),
                    Err(_) => None,
                };
            },
            None => {},
        }
        n = n - 1;
    }
    None
}

fn bracketed_part<'a>(line: &'a [char]) -> (r: Option<&'a [char]>)
    ensures
        match r {
            None => bracketed(line@) is None,
            Some(v) => bracketed(line@) == Some(v@),
        },
{
    let n = find(line, '[');
    if n >= line.len() {
        return None;
    }
    let tail = slice_subrange(line, n + 1, line.len());
    assert(tail@ == line@.skip(n + 1));
    Some(trimmed_end_matches(part_before(tail, '['), ']'))
}

/// The bracketed part of the origin line.
pub(crate) fn origin_of<'a>(lines: &Vec<&'a [char]>, key: &[char]) -> (r: Option<&'a [char]>)
    requires
        key@ == "origin"@,
    ensures
        match r {
            None => origin_text(views(lines@)) is None,
            Some(v) => origin_text(views(lines@)) == Some(v@),
        },
{
    let ghost all = views(lines@);
    assert(all.skip(0) == all);
    for i in 0..lines.len()
        invariant
            key@ == "origin"@,
            all == views(lines@),
            origin_text(all) == origin_text(all.skip(i as int)),
    {
        let line: &'a [char] = lines[i];
        assert(all.skip(i as int)[0] == line@);
        assert(all.skip(i as int).skip(1) == all.skip(i + 1));
        if starts_with(trimmed_start(line), key) {
            return bracketed_part(line);
        }
    }
    assert(all.skip(lines@.len() as int).len() == 0);
    None
}

/// The first two numbers of a list, 0.0 for what is missing.
pub(crate) fn coordinates<K: Numerics>(text: &[char]) -> (r: (Num, Num))
    ensures
        exists|ps: Seq<Result<Num, String>>| #[trigger]
            is_list::<K>(text@, ps) && r == (coordinate(ps, 0), coordinate(ps, 1)),
{
    let pieces = split_at_each(text, ',');
    let mut out: Vec<Num> = Vec::new();
    let ghost mut ps: Seq<Result<Num, String>> = seq![];
    for i in 0..pieces.len()
        invariant
            views(pieces@) == split(text@, ','),
            ps.len() == i,
            forall|j: int|
                0 <= j < i ==> is_parse_of::<K>(trim(split(text@, ',')[j]), #[trigger] ps[j]),
            out@ == numbers(ps),
    {
        assert(views(pieces@)[i as int] == pieces@[i as int]@);
        let p = parse_chars::<K>(trimmed(pieces[i]));
        proof {
            let next = ps.push(p);
            assert(next.drop_last() == ps);
            ps = next;
        }
        match p {
            Ok(v) => {
                out.push(v);
            },
            Err(_) => {},
        }
    }
    assert(is_list::<K>(text@, ps));
    let x = if out.len() > 0 {
        out[0]
    } else {
        num(ZERO)
    };
    let y = if out.len() > 1 {
        out[1]
    } else {
        num(ZERO)
    };
    (x, y)
}

} // verus!
