//! Binary PGM images: a `P5` header of four tokens, then one byte per pixel.
use vstd::prelude::*;
use vstd::slice::slice_subrange;

use crate::text::{decimal, decimal_string};

verus! {

/// The text that `String::from_utf8_lossy` makes of some bytes.
pub uninterp spec fn lossy_text(bytes: Seq<u8>) -> Seq<char>;

/// Calls `String::from_utf8_lossy`, whose result is named `lossy_text`.
#[verifier::external_body]
fn lossy_string(bytes: &[u8]) -> (r: String)
    ensures
        r@ == lossy_text(bytes@),
{
    String::from_utf8_lossy(bytes).into_owned()
}

/// ASCII white space: tab, line feed, form feed, carriage return, space.
pub open spec fn is_blank(c: u8) -> bool {
    c == 9 || c == 10 || c == 12 || c == 13 || c == 32
}

/// Where the comment that runs at `i` ends: at its line feed, or with the bytes.
pub open spec fn comment_end(b: Seq<u8>, i: int) -> int
    decreases b.len() - i,
{
    if i >= b.len() || b[i] == 10 {
        i
    } else {
        comment_end(b, i + 1)
    }
}

/// The first place from `i` on that is neither blank nor in a comment. `#`
/// starts a comment.
pub open spec fn content_start(b: Seq<u8>, i: int) -> int
    decreases b.len() - i,
{
    if i >= b.len() {
        i
    } else if is_blank(b[i]) {
        content_start(b, i + 1)
    } else if b[i] == 35 {
        proof {
            lemma_comment_end(b, i + 1);
        }
        content_start(b, comment_end(b, i + 1))
    } else {
        i
    }
}

/// The first blank from `i` on, or the end of the bytes.
pub open spec fn token_end(b: Seq<u8>, i: int) -> int
    decreases b.len() - i,
{
    if i >= b.len() || is_blank(b[i]) {
        i
    } else {
        token_end(b, i + 1)
    }
}

/// The next token from `i` on, by its bounds.
pub open spec fn token(b: Seq<u8>, i: int) -> Option<(int, int)> {
    let start = content_start(b, i);
    let end = token_end(b, start);
    if start == end {
        None
    } else {
        Some((start, end))
    }
}

pub open spec fn is_digit(c: u8) -> bool {
    48 <= c <= 57
}

/// The number that some digits spell.
pub open spec fn digits_value(s: Seq<u8>) -> nat
    decreases s.len(),
{
    if s.len() == 0 {
        0
    } else {
        10 * digits_value(s.drop_last()) + (s.last() - 48) as nat
    }
}

/// The digits of a number, whose `+` may stand before them.
pub open spec fn unsigned(s: Seq<u8>) -> Seq<u8> {
    if s.len() > 0 && s[0] == 43 {
        s.skip(1)
    } else {
        s
    }
}

/// The number that a token spells: one or more digits, with or without a `+`,
/// for a number that an index can hold.
pub open spec fn token_value(s: Seq<u8>) -> Option<nat> {
    let d = unsigned(s);
    if d.len() > 0 && (forall|i: int| 0 <= i < d.len() ==> is_digit(#[trigger] d[i]))
        && digits_value(d) <= usize::MAX {
        Some(digits_value(d))
    } else {
        None
    }
}

/// An image: its width, its height, and its pixels by rows from the top.
pub struct Image {
    pub w: usize,
    pub h: usize,
    pub px: Vec<u8>,
}

/// What the bytes hold: width, height and pixels, or what is wrong with them.
/// One byte separates the header from the pixels.
pub open spec fn image(b: Seq<u8>) -> Result<(nat, nat, Seq<u8>), Seq<char>> {
    match token(b, 0) {
        None => Err("pgm: truncated"@),
        Some((s0, e0)) => if b.subrange(s0, e0) != seq![80u8, 53u8] {
            Err("pgm: expected P5, got "@ + lossy_text(b.subrange(s0, e0)))
        } else {
            sized_image(b, e0)
        },
    }
}

/// The image whose width is the next token from `i` on.
pub open spec fn sized_image(b: Seq<u8>, i: int) -> Result<(nat, nat, Seq<u8>), Seq<char>> {
    match token(b, i) {
        None => Err("pgm: truncated"@),
        Some((s1, e1)) => match token_value(b.subrange(s1, e1)) {
            None => Err("pgm: bad width"@),
            Some(w) => match token(b, e1) {
                None => Err("pgm: truncated"@),
                Some((s2, e2)) => match token_value(b.subrange(s2, e2)) {
                    None => Err("pgm: bad height"@),
                    Some(h) => match token(b, e2) {
                        None => Err("pgm: truncated"@),
                        Some((s3, e3)) => match token_value(b.subrange(s3, e3)) {
                            None => Err("pgm: bad maxval"@),
                            Some(_) => pixels(b, w, h, e3 + 1),
                        },
                    },
                },
            },
        },
    }
}

/// `w * h` pixels from `start` on, which must not lie behind the last byte.
pub open spec fn pixels(b: Seq<u8>, w: nat, h: nat, start: int) -> Result<
    (nat, nat, Seq<u8>),
    Seq<char>,
> {
    let have: nat = if start < b.len() {
        (b.len() - start) as nat
    } else {
        0
    };
    if start > b.len() || have < w * h {
        Err("pgm: need "@ + decimal(w * h) + " px, have "@ + decimal(have))
    } else {
        Ok((w, h, b.subrange(start, start + w * h)))
    }
}

pub proof fn lemma_comment_end(b: Seq<u8>, i: int)
    ensures
        i <= comment_end(b, i),
        i <= b.len() ==> comment_end(b, i) <= b.len(),
    decreases b.len() - i,
{
    if !(i >= b.len() || b[i] == 10) {
        lemma_comment_end(b, i + 1);
    }
}

fn blank(c: u8) -> (r: bool)
    ensures
        r == is_blank(c),
{
    c == 9 || c == 10 || c == 12 || c == 13 || c == 32
}

fn next_token(b: &[u8], from: usize) -> (r: Option<(usize, usize)>)
    requires
        from <= b@.len(),
    ensures
        match r {
            None => token(b@, from as int) is None,
            Some((s, e)) => token(b@, from as int) == Some((s as int, e as int)) && s < e
                <= b@.len(),
        },
{
    let mut i: usize = from;
    while i < b.len() && (blank(b[i]) || b[i] == 35)
        invariant
            i <= b@.len(),
            content_start(b@, from as int) == content_start(b@, i as int),
        decreases b@.len() - i,
    {
        if b[i] == 35 {
            let ghost start = i + 1;
            i = i + 1;
            while i < b.len() && b[i] != 10
                invariant
                    i <= b@.len(),
                    comment_end(b@, start) == comment_end(b@, i as int),
                    start <= i,
                decreases b@.len() - i,
            {
                i = i + 1;
            }
        } else {
            i = i + 1;
        }
    }
    let start = i;
    while i < b.len() && !blank(b[i])
        invariant
            start <= i <= b@.len(),
            token_end(b@, start as int) == token_end(b@, i as int),
        decreases b@.len() - i,
    {
        i = i + 1;
    }
    if start == i {
        None
    } else {
        Some((start, i))
    }
}

/// More digits spell a number at least as large.
proof fn lemma_digits_grow(s: Seq<u8>, n: int)
    requires
        0 <= n <= s.len(),
    ensures
        digits_value(s.take(n)) <= digits_value(s),
    decreases s.len() - n,
{
    if n == s.len() {
        assert(s.take(n) == s);
    } else {
        lemma_digits_grow(s, n + 1);
        assert(s.take(n + 1).drop_last() == s.take(n));
    }
}

fn parse_index(s: &[u8]) -> (r: Option<usize>)
    ensures
        match r {
            None => token_value(s@) is None,
            Some(v) => token_value(s@) == Some(v as nat),
        },
{
    let mut d = s;
    if s.len() > 0 && s[0] == 43 {
        d = slice_subrange(s, 1, s.len());
        assert(d@ == s@.skip(1));
    }
    assert(d@ == unsigned(s@));
    if d.len() == 0 {
        return None;
    }
    let mut v: usize = 0;
    for i in 0..d.len()
        invariant
            d@ == unsigned(s@),
            v == digits_value(d@.take(i as int)),
            forall|j: int| 0 <= j < i ==> is_digit(#[trigger] d@[j]),
    {
        if d[i] < 48 || d[i] > 57 {
            assert(!is_digit(d@[i as int]));
            return None;
        }
        assert(d@.take(i + 1).drop_last() == d@.take(i as int));
        let low: usize = (d[i] - 48) as usize;
        proof {
            lemma_digits_grow(d@, i + 1);
        }
        match v.checked_mul(10) {
            None => {
                return None;
            },
            Some(ten) => match ten.checked_add(low) {
                None => {
                    return None;
                },
                Some(sum) => {
                    v = sum;
                },
            },
        }
    }
    assert(d@.take(d@.len() as int) == d@);
    Some(v)
}

/// Reads a binary PGM image.
pub fn read_image(b: &[u8]) -> (r: Result<Image, String>)
    ensures
        match r {
            Ok(img) => image(b@) == Ok::<(nat, nat, Seq<u8>), Seq<char>>(
                (img.w as nat, img.h as nat, img.px@),
            ) && img.px@.len() == img.w * img.h,
            Err(e) => image(b@) == Err::<(nat, nat, Seq<u8>), Seq<char>>(e@),
        },
{
    let (s0, e0) = match next_token(b, 0) {
        None => {
            return Err("pgm: truncated".to_owned());
        },
        Some(t) => t,
    };
    let magic = slice_subrange(b, s0, e0);
    let p5 = magic.len() == 2 && magic[0] == 80 && magic[1] == 53;
    proof {
        if p5 {
            assert(magic@ == seq![80u8, 53u8]);
        }
    }
    if !p5 {
        let mut msg: String = "pgm: expected P5, got ".to_owned();
        let got = lossy_string(magic);
        msg.append(got.as_str());
        return Err(msg);
    }
    let (s1, e1) = match next_token(b, e0) {
        None => {
            return Err("pgm: truncated".to_owned());
        },
        Some(t) => t,
    };
    let w = match parse_index(slice_subrange(b, s1, e1)) {
        None => {
            return Err("pgm: bad width".to_owned());
        },
        Some(v) => v,
    };
    let (s2, e2) = match next_token(b, e1) {
        None => {
            return Err("pgm: truncated".to_owned());
        },
        Some(t) => t,
    };
    let h = match parse_index(slice_subrange(b, s2, e2)) {
        None => {
            return Err("pgm: bad height".to_owned());
        },
        Some(v) => v,
    };
    let (s3, e3) = match next_token(b, e2) {
        None => {
            return Err("pgm: truncated".to_owned());
        },
        Some(t) => t,
    };
    if parse_index(slice_subrange(b, s3, e3)).is_none() {
        return Err("pgm: bad maxval".to_owned());
    }
    read_pixels(b, w, h, e3)
}

/// The pixels behind the byte at `end`.
fn read_pixels(b: &[u8], w: usize, h: usize, end: usize) -> (r: Result<Image, String>)
    requires
        end <= b@.len(),
    ensures
        match r {
            Ok(img) => pixels(b@, w as nat, h as nat, end + 1) == Ok::<
                (nat, nat, Seq<u8>),
                Seq<char>,
            >((img.w as nat, img.h as nat, img.px@)) && img.px@.len() == img.w * img.h && img.w == w
                && img.h == h,
            Err(e) => pixels(b@, w as nat, h as nat, end + 1) == Err::<
                (nat, nat, Seq<u8>),
                Seq<char>,
            >(e@),
        },
{
    let have: usize = if end < b.len() {
        b.len() - end - 1
    } else {
        0
    };
    assert(w * h <= usize::MAX * usize::MAX) by (nonlinear_arith)
        requires
            0 <= w <= usize::MAX,
            0 <= h <= usize::MAX,
    ;
    assert(usize::MAX * usize::MAX <= u128::MAX) by (nonlinear_arith)
        requires
            usize::MAX <= 0xFFFF_FFFF_FFFF_FFFF,
    ;
    assert(0 <= w * h) by (nonlinear_arith)
        requires
            0 <= w,
            0 <= h,
    ;
    let need: u128 = (w as u128) * (h as u128);
    if end >= b.len() || (have as u128) < need {
        let mut msg: String = "pgm: need ".to_owned();
        let a = decimal_string(need);
        msg.append(a.as_str());
        msg.append(" px, have ");
        let z = decimal_string(have as u128);
        msg.append(z.as_str());
        return Err(msg);
    }
    let n = need as usize;
    let mut px: Vec<u8> = Vec::new();
    let total = b.len();
    for i in 0..n
        invariant
            total == b@.len(),
            end + 1 + n <= total,
            px@.len() == i,
            forall|j: int| 0 <= j < i ==> px@[j] == b@[end + 1 + j],
    {
        px.push(b[end + 1 + i]);
    }
    assert(px@ == b@.subrange(end + 1, end + 1 + n));
    Ok(Image { w, h, px })
}

} // verus!
