//! Landmark map: dense id-indexed 3D positions.
use vstd::prelude::*;

use crate::num::Num;
use crate::numerics::{is_parse_of, is_to_id, parse, to_id, Numerics};
use crate::text::{
    before, chars_of, decimal, decimal_string, lines, part_before, split_lines, string_views, trim,
    trimmed, views, words, words_of,
};
use crate::types::Vector3;

verus! {

/// id -> 3D position. Ids are dense non-negative integers.
#[derive(Debug, Clone)]
pub struct LandmarkMap {
    positions: Vec<Option<Vector3>>,
}

/// What a line of a map text says.
pub enum Entry {
    Blank,
    Landmark { id: i32, at: Vector3 },
    /// The line is refused, with this message.
    Refused { message: Seq<char> },
}

/// The ids that `positions` defines, with their positions.
pub closed spec fn defined(positions: Seq<Option<Vector3>>) -> Map<int, Vector3> {
    Map::new(
        |id: int| 0 <= id < positions.len() && positions[id] is Some,
        |id: int| positions[id]->0,
    )
}

/// `[`, `]`, `:` and `,` separate like white space.
pub open spec fn separated(s: Seq<char>) -> Seq<char> {
    s.map_values(
        |c: char|
            if c == '[' || c == ']' || c == ':' || c == ',' {
                ' '
            } else {
                c
            },
    )
}

/// The message about line `n`, counted from 1.
pub open spec fn line_message(n: nat, text: Seq<char>) -> Seq<char> {
    "line "@ + decimal(n) + ": "@ + text
}

/// The landmark that four parsed words make, or the first refusal.
pub open spec fn is_landmark<K: Numerics>(
    n: nat,
    id: Result<Num, String>,
    x: Result<Num, String>,
    y: Result<Num, String>,
    z: Result<Num, String>,
    e: Entry,
) -> bool {
    match (id, x, y, z) {
        (Err(m), _, _, _) => e == (Entry::Refused { message: line_message(n, m@) }),
        (_, Err(m), _, _) => e == (Entry::Refused { message: line_message(n, m@) }),
        (_, _, Err(m), _) => e == (Entry::Refused { message: line_message(n, m@) }),
        (_, _, _, Err(m)) => e == (Entry::Refused { message: line_message(n, m@) }),
        (Ok(v), Ok(x), Ok(y), Ok(z)) => exists|id: i32|
            #[trigger] is_to_id::<K>(v, id) && e == (if id >= 0 {
                Entry::Landmark { id, at: Vector3 { x, y, z } }
            } else {
                Entry::Refused {
                    message: line_message(n, "landmark ids must be non-negative"@),
                }
            }),
    }
}

/// The words of a line, `#` starting a comment.
pub open spec fn line_words(line: Seq<char>) -> Seq<Seq<char>> {
    words(separated(trim(before(line, '#'))))
}

/// `e` is what line `n`, counted from 1, says: `id: [x, y, z]` or `id x y z`.
/// The words are parsed from the left, up to the first that is no number.
pub open spec fn is_entry<K: Numerics>(line: Seq<char>, n: nat, e: Entry) -> bool {
    let w = line_words(line);
    if trim(before(line, '#')).len() == 0 {
        e is Blank
    } else if w.len() != 4 {
        e == (Entry::Refused { message: line_message(n, "expected 'id: [x, y, z]'"@) })
    } else {
        exists|
            id: Result<Num, String>,
            x: Result<Num, String>,
            y: Result<Num, String>,
            z: Result<Num, String>,
        | #[trigger]
            is_landmark::<K>(n, id, x, y, z, e) && are_parsed::<K>(w, id, x, y, z)
    }
}

/// The results of parsing four words, as far as a refusal lets the reader go.
pub open spec fn are_parsed<K: Numerics>(
    w: Seq<Seq<char>>,
    id: Result<Num, String>,
    x: Result<Num, String>,
    y: Result<Num, String>,
    z: Result<Num, String>,
) -> bool {
    &&& is_parse_of::<K>(w[0], id)
    &&& id is Ok ==> is_parse_of::<K>(w[1], x)
    &&& id is Ok && x is Ok ==> is_parse_of::<K>(w[2], y)
    &&& id is Ok && x is Ok && y is Ok ==> is_parse_of::<K>(w[3], z)
}

/// The map after some entries.
pub open spec fn with_entries(m: Map<int, Vector3>, es: Seq<Entry>) -> Map<int, Vector3>
    decreases es.len(),
{
    if es.len() == 0 {
        m
    } else {
        let before = with_entries(m, es.drop_last());
        match es.last() {
            Entry::Landmark { id, at } => before.insert(id as int, at),
            _ => before,
        }
    }
}

/// How many landmarks some entries name.
pub open spec fn landmark_count(es: Seq<Entry>) -> nat
    decreases es.len(),
{
    if es.len() == 0 {
        0
    } else {
        landmark_count(es.drop_last()) + (if es.last() is Landmark {
            1nat
        } else {
            0
        })
    }
}

/// `es` is what the first lines of a text say.
pub open spec fn are_entries<K: Numerics>(ls: Seq<Seq<char>>, es: Seq<Entry>) -> bool {
    &&& es.len() <= ls.len()
    &&& forall|i: int|
        0 <= i < es.len() ==> is_entry::<K>(ls[i], (i + 1) as nat, #[trigger] es[i])
}

/// Loading `text` takes the map `m` to `post`, with the result `r`: the number
/// of landmarks read, or the message of the first refused line.
pub open spec fn is_loaded<K: Numerics>(
    m: Map<int, Vector3>,
    text: Seq<char>,
    post: Map<int, Vector3>,
    r: Result<usize, String>,
) -> bool {
    exists|es: Seq<Entry>|
        {
            &&& #[trigger] are_entries::<K>(lines(text), es)
            &&& post == with_entries(m, es)
            &&& match r {
                Ok(count) => count == landmark_count(es) && es.len() == lines(text).len()
                    && forall|i: int| 0 <= i < es.len() ==> !(#[trigger] es[i] is Refused),
                Err(message) => es.len() > 0 && es.last() == (Entry::Refused {
                    message: message@,
                }) && forall|i: int| 0 <= i < es.len() - 1 ==> !(#[trigger] es[i] is Refused),
            }
        }
}

impl View for LandmarkMap {
    type V = Map<int, Vector3>;

    closed spec fn view(&self) -> Map<int, Vector3> {
        defined(self.positions@)
    }
}

impl LandmarkMap {
    /// The table ends with a defined landmark and is no longer than ids reach.
    pub closed spec fn wf(&self) -> bool {
        &&& self.positions@.len() <= 0x8000_0000
        &&& self.positions@.len() > 0 ==> self.positions@.last() is Some
    }

    pub fn new() -> (r: Self)
        ensures
            r.wf(),
            r@ == Map::<int, Vector3>::empty(),
    {
        let r = LandmarkMap { positions: Vec::new() };
        assert(r@ =~= Map::<int, Vector3>::empty());
        r
    }

    /// Insert or replace a landmark.
    pub fn add(&mut self, id: i32, position: Vector3)
        requires
            old(self).wf(),
            id >= 0,
        ensures
            final(self).wf(),
            final(self)@ == old(self)@.insert(id as int, position),
    {
        let ghost first = self.positions@;
        let slot: usize = id as usize;
        while self.positions.len() <= slot
            invariant
                slot == id,
                slot < 0x8000_0000,
                self.positions@.len() <= slot + 1 || self.positions@ == first,
                first.len() <= self.positions@.len() <= 0x8000_0000,
                first.len() <= slot || self.positions@ == first,
                forall|i: int| 0 <= i < first.len() ==> self.positions@[i] == first[i],
                forall|i: int| first.len() <= i < self.positions@.len() ==> self.positions@[i] is None,
            decreases slot + 1 - self.positions@.len(),
        {
            self.positions.push(None);
        }
        self.positions.set(slot, Some(position));
        assert(self@ =~= old(self)@.insert(id as int, position));
    }

    /// Whether `id` is defined.
    pub fn has(&self, id: i32) -> (r: bool)
        ensures
            r == self@.contains_key(id as int),
    {
        id >= 0 && (id as usize) < self.positions.len() && self.positions[id as usize].is_some()
    }

    /// The position of a defined landmark; check [`has`](Self::has) first.
    pub fn at(&self, id: i32) -> (r: Vector3)
        requires
            self@.contains_key(id as int),
        ensures
            r == self@[id as int],
    {
        self.positions[id as usize].unwrap()
    }

    /// Highest id + 1 (the table size a device needs).
    pub fn capacity(&self) -> (r: usize)
        requires
            self.wf(),
        ensures
            forall|id: int| #[trigger] self@.contains_key(id) ==> 0 <= id < r,
            r > 0 ==> self@.contains_key(r - 1),
            r <= 0x8000_0000,
    {
        self.positions.len()
    }

    /// Number of defined landmarks.
    pub fn len_defined(&self) -> (r: usize)
        ensures
            self@.dom().finite(),
            r == self@.dom().len(),
    {
        let mut count: usize = 0;
        let n = self.positions.len();
        assert(defined(self.positions@.take(0)).dom() =~= Set::<int>::empty());
        for i in 0..n
            invariant
                n == self.positions@.len(),
                count <= i,
                defined(self.positions@.take(i as int)).dom().finite(),
                count == defined(self.positions@.take(i as int)).dom().len(),
        {
            let ghost now = defined(self.positions@.take(i as int)).dom();
            let ghost next = defined(self.positions@.take(i + 1)).dom();
            if self.positions[i].is_some() {
                assert(next =~= now.insert(i as int));
                count = count + 1;
            } else {
                assert(next =~= now);
            }
        }
        assert(self.positions@.take(n as int) =~= self.positions@);
        count
    }

    pub fn is_empty(&self) -> (r: bool)
        ensures
            r == (self@ == Map::<int, Vector3>::empty()),
    {
        let n = self.len_defined();
        proof {
            if n == 0 {
                assert(self@.dom() =~= Set::<int>::empty());
                assert(self@ =~= Map::<int, Vector3>::empty());
            }
        }
        n == 0
    }

    /// The (id, position) pairs, by ascending id.
    pub fn iter(&self) -> (r: Vec<(i32, Vector3)>)
        requires
            self.wf(),
        ensures
            forall|i: int, j: int|
                0 <= i < j < r@.len() ==> (#[trigger] r@[i]).0 < (#[trigger] r@[j]).0,
            forall|i: int|
                0 <= i < r@.len() ==> self@.contains_pair(
                    (#[trigger] r@[i]).0 as int,
                    r@[i].1,
                ),
            forall|id: int| #[trigger]
                self@.contains_key(id) ==> r@.contains((id as i32, self@[id])),
    {
        let mut out: Vec<(i32, Vector3)> = Vec::new();
        let n = self.positions.len();
        for i in 0..n
            invariant
                self.wf(),
                n == self.positions@.len(),
                forall|k: int| 0 <= k < out@.len() ==> (#[trigger] out@[k]).0 < i,
                forall|k: int, l: int|
                    0 <= k < l < out@.len() ==> (#[trigger] out@[k]).0 < (#[trigger] out@[l]).0,
                forall|k: int|
                    0 <= k < out@.len() ==> self@.contains_pair(
                        (#[trigger] out@[k]).0 as int,
                        out@[k].1,
                    ),
                forall|id: int|
                    id < i && #[trigger] self@.contains_key(id) ==> out@.contains(
                        (id as i32, self@[id]),
                    ),
        {
            let ghost before = out@;
            match self.positions[i] {
                Some(p) => {
                    out.push((i as i32, p));
                    assert(out@[before.len() as int] == (i as i32, p));
                },
                None => {},
            }
            assert forall|id: int| id < i + 1 && #[trigger] self@.contains_key(id) implies out@.contains(
                (id as i32, self@[id]),
            ) by {
                if id < i {
                    assert(before.contains((id as i32, self@[id])));
                    let k = choose|k: int|
                        0 <= k < before.len() && before[k] == (id as i32, self@[id]);
                    assert(out@[k] == (id as i32, self@[id]));
                }
            }
        }
        out
    }

    /// Loads from a YAML-ish text: lines of `id: [x, y, z]` (also accepts
    /// `id x y z`). `#` starts a comment. Gives the number of landmarks read;
    /// what stands before a refused line is kept.
    pub fn load_from_str<K: Numerics>(&mut self, text: &str) -> (r: Result<usize, String>)
        requires
            old(self).wf(),
        ensures
            final(self).wf(),
            is_loaded::<K>(old(self)@, text@, final(self)@, r),
    {
        let chars = chars_of(text);
        let rows = split_lines(chars.as_slice());
        let ghost ls = lines(text@);
        let ghost mut es: Seq<Entry> = seq![];
        let mut count: usize = 0;
        for i in 0..rows.len()
            invariant
                views(rows@) == ls,
                ls == lines(text@),
                self.wf(),
                es.len() == i,
                are_entries::<K>(ls, es),
                self@ == with_entries(old(self)@, es),
                count <= i,
                count == landmark_count(es),
                forall|j: int| 0 <= j < es.len() ==> !(#[trigger] es[j] is Refused),
        {
            assert(views(rows@)[i as int] == rows@[i as int]@);
            let line = read_line::<K>(rows[i], i);
            let ghost next = es.push(entry_of(line));
            assert(next.drop_last() == es);
            assert(are_entries::<K>(ls, next));
            match line {
                Ok(None) => {},
                Ok(Some((id, at))) => {
                    self.add(id, at);
                    count = count + 1;
                },
                Err(message) => {
                    assert(next.last() == (Entry::Refused { message: message@ }));
                    return Err(message);
                },
            }
            proof {
                es = next;
            }
        }
        assert(are_entries::<K>(lines(text@), es));
        Ok(count)
    }
}

impl Default for LandmarkMap {
    fn default() -> (r: Self)
        ensures
            r.wf(),
            r@ == Map::<int, Vector3>::empty(),
    {
        LandmarkMap::new()
    }
}

fn message_at(n: u128, text: &str) -> (r: String)
    ensures
        r@ == line_message(n as nat, text@),
{
    let mut out: String = "line ".to_owned();
    let number = decimal_string(n);
    out.append(number.as_str());
    out.append(": ");
    out.append(text);
    out
}

fn separated_chars(cs: &[char]) -> (r: Vec<char>)
    ensures
        r@ == separated(cs@),
{
    let mut out: Vec<char> = Vec::new();
    for i in 0..cs.len()
        invariant
            out@ == separated(cs@).take(i as int),
    {
        let c = cs[i];
        out.push(
            if c == '[' || c == ']' || c == ':' || c == ',' {
                ' '
            } else {
                c
            },
        );
    }
    out
}

/// The entry that a line's outcome stands for.
spec fn entry_of(r: Result<Option<(i32, Vector3)>, String>) -> Entry {
    match r {
        Ok(None) => Entry::Blank,
        Ok(Some((id, at))) => Entry::Landmark { id, at },
        Err(message) => Entry::Refused { message: message@ },
    }
}

/// What a line says: nothing, a landmark, or why it is refused.
fn read_line<K: Numerics>(line: &[char], i: usize) -> (r: Result<Option<(i32, Vector3)>, String>)
    ensures
        is_entry::<K>(
            line@,
            (i + 1) as nat,
            entry_of(r),
        ),
        r matches Ok(Some((id, _))) ==> id >= 0,
{
    let n: u128 = i as u128 + 1;
    let body = trimmed(part_before(line, '#'));
    if body.len() == 0 {
        return Ok(None);
    }
    let clean = separated_chars(body);
    let w = words_of(clean.as_slice());
    let ghost ws = line_words(line@);
    assert(string_views(w@) == ws);
    if w.len() != 4 {
        return Err(message_at(n, "expected 'id: [x, y, z]'"));
    }
    assert(forall|k: int| 0 <= k < 4 ==> ws[k] == #[trigger] w@[k]@);
    let id = parse::<K>(w[0].as_str());
    assert(is_parse_of::<K>(ws[0], id));
    let ghost none: Result<Num, String> = arbitrary();
    let v = match id {
        Err(m) => {
            let message = message_at(n, m.as_str());
            proof {
                let e = Entry::Refused { message: message@ };
                assert(is_landmark::<K>(n as nat, id, none, none, none, e));
                assert(are_parsed::<K>(ws, id, none, none, none));
            }
            return Err(message);
        },
        Ok(v) => v,
    };
    let px = parse::<K>(w[1].as_str());
    assert(is_parse_of::<K>(ws[1], px));
    let x = match px {
        Err(m) => {
            let message = message_at(n, m.as_str());
            proof {
                let e = Entry::Refused { message: message@ };
                assert(is_landmark::<K>(n as nat, id, px, none, none, e));
                assert(are_parsed::<K>(ws, id, px, none, none));
            }
            return Err(message);
        },
        Ok(x) => x,
    };
    let py = parse::<K>(w[2].as_str());
    assert(is_parse_of::<K>(ws[2], py));
    let y = match py {
        Err(m) => {
            let message = message_at(n, m.as_str());
            proof {
                let e = Entry::Refused { message: message@ };
                assert(is_landmark::<K>(n as nat, id, px, py, none, e));
                assert(are_parsed::<K>(ws, id, px, py, none));
            }
            return Err(message);
        },
        Ok(y) => y,
    };
    let pz = parse::<K>(w[3].as_str());
    assert(is_parse_of::<K>(ws[3], pz));
    let z = match pz {
        Err(m) => {
            let message = message_at(n, m.as_str());
            proof {
                let e = Entry::Refused { message: message@ };
                assert(is_landmark::<K>(n as nat, id, px, py, pz, e));
                assert(are_parsed::<K>(ws, id, px, py, pz));
            }
            return Err(message);
        },
        Ok(z) => z,
    };
    assert(are_parsed::<K>(ws, id, px, py, pz));
    let key = to_id::<K>(v);
    if key < 0 {
        let message = message_at(n, "landmark ids must be non-negative");
        proof {
            let e = Entry::Refused { message: message@ };
            assert(is_to_id::<K>(v, key));
            assert(is_landmark::<K>(n as nat, id, px, py, pz, e));
        }
        return Err(message);
    }
    proof {
        let e = Entry::Landmark { id: key, at: Vector3 { x, y, z } };
        assert(is_to_id::<K>(v, key));
        assert(is_landmark::<K>(n as nat, id, px, py, pz, e));
    }
    Ok(Some((key, Vector3 { x, y, z })))
}

/// Adding a landmark defines it and leaves the others as they were.
pub proof fn law_add_then_look(m: Map<int, Vector3>, id: int, at: Vector3, other: int)
    ensures
        m.insert(id, at).contains_key(id),
        m.insert(id, at)[id] == at,
        other != id ==> m.insert(id, at).contains_key(other) == m.contains_key(other),
        other != id && m.contains_key(other) ==> m.insert(id, at)[other] == m[other],
{
}

} // verus!
