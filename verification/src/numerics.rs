//! The arithmetic that rounds, behind one interface.
//!
//! The filter is written over [`Numerics`]. Nothing is assumed of what an
//! implementation returns: the contracts of this library say which operation
//! was applied to which values, in the words `is_sum`, `is_product` and so on,
//! and hold for every implementation.
use rand::rngs::SmallRng;
use vstd::prelude::*;

use crate::num::{is_finite, less, Num};
use crate::text::string_of;
use crate::types::{Matrix4, Quaternion, UnitQuaternion, Vector3};

verus! {

/// Binary64 arithmetic, its linear algebra and its random draws.
pub trait Numerics: Send + Sync {
    /// `a + b`.
    fn plus(a: Num, b: Num) -> Num;

    /// `a - b`.
    fn minus(a: Num, b: Num) -> Num;

    /// `a * b`.
    fn times(a: Num, b: Num) -> Num;

    /// `a / b`.
    fn over(a: Num, b: Num) -> Num;

    /// `e` to the power `a`.
    fn exp(a: Num) -> Num;

    /// The arc cosine of `a`.
    fn acos(a: Num) -> Num;

    /// The sine and the cosine of `a`.
    fn sin_cos(a: Num) -> (Num, Num);

    /// The angle of the point `(x, y)`.
    fn atan2(y: Num, x: Num) -> Num;

    /// The number nearest to `n`.
    fn from_u64(n: u64) -> Num;

    /// `a` cut to an index: 0 below 0 and for a NaN, the largest index above all.
    fn to_index(a: Num) -> usize;

    /// `a` cut to a landmark id, held to the range of `i32`; 0 for a NaN.
    fn to_id(a: Num) -> i32;

    /// The bits of the single-precision number nearest to `a`.
    fn to_single(a: Num) -> u32;

    /// The number that single-precision bits stand for.
    fn from_single(bits: u32) -> Num;

    /// The number that `text` spells, or why it spells none.
    fn parse(text: &str) -> Result<Num, String>;

    /// `a + b`.
    fn v_plus(a: Vector3, b: Vector3) -> Vector3;

    /// `a - b`.
    fn v_minus(a: Vector3, b: Vector3) -> Vector3;

    /// `a * s`.
    fn v_times(a: Vector3, s: Num) -> Vector3;

    /// `a / s`.
    fn v_over(a: Vector3, s: Num) -> Vector3;

    /// The dot product.
    fn v_dot(a: Vector3, b: Vector3) -> Num;

    /// The length of `a`.
    fn v_norm(a: Vector3) -> Num;

    /// The squared length of `a`.
    fn v_norm_squared(a: Vector3) -> Num;

    /// `a` scaled to length one.
    fn v_unit(a: Vector3) -> Vector3;

    /// `v` turned by `q`.
    fn q_rotate(q: UnitQuaternion, v: Vector3) -> Vector3;

    /// `v` turned by the inverse of `q`.
    fn q_unrotate(q: UnitQuaternion, v: Vector3) -> Vector3;

    /// `p * q`: first `q`, then `p`.
    fn q_times(p: UnitQuaternion, q: UnitQuaternion) -> UnitQuaternion;

    /// The inverse rotation.
    fn q_inverse(q: UnitQuaternion) -> UnitQuaternion;

    /// The rotation by `angle` about the direction of `axis`.
    fn q_about(axis: Vector3, angle: Num) -> UnitQuaternion;

    /// `q` scaled to length one.
    fn q_unit(q: Quaternion) -> UnitQuaternion;

    /// The eigenvalues of a symmetric `m`, and the eigenvectors as columns.
    fn eigen(m: Matrix4) -> ([Num; 4], Matrix4);

    /// A standard normal draw, and the generator after it.
    fn draw_normal(rng: SmallRng) -> (Num, SmallRng);

    /// A uniform draw in [0, 1), and the generator after it.
    fn draw_uniform(rng: SmallRng) -> (Num, SmallRng);

    /// A uniform draw in [lo, hi), and the generator after it.
    fn draw_between(rng: SmallRng, lo: Num, hi: Num) -> (Num, SmallRng)
        requires
            less(lo, hi),
            is_finite(lo),
            is_finite(hi),
    ;
}

/// `r` is a result of [`Numerics::plus`] on these arguments.
pub open spec fn is_sum<K: Numerics>(a: Num, b: Num, r: Num) -> bool {
    call_ensures(K::plus, (a, b), r)
}

/// `a + b`.
pub(crate) fn sum<K: Numerics>(a: Num, b: Num) -> (r: Num)
    ensures
        is_sum::<K>(a, b, r),
{
    K::plus(a, b)
}

/// `r` is a result of [`Numerics::minus`] on these arguments.
pub open spec fn is_difference<K: Numerics>(a: Num, b: Num, r: Num) -> bool {
    call_ensures(K::minus, (a, b), r)
}

/// `a - b`.
pub(crate) fn difference<K: Numerics>(a: Num, b: Num) -> (r: Num)
    ensures
        is_difference::<K>(a, b, r),
{
    K::minus(a, b)
}

/// `r` is a result of [`Numerics::times`] on these arguments.
pub open spec fn is_product<K: Numerics>(a: Num, b: Num, r: Num) -> bool {
    call_ensures(K::times, (a, b), r)
}

/// `a * b`.
pub(crate) fn product<K: Numerics>(a: Num, b: Num) -> (r: Num)
    ensures
        is_product::<K>(a, b, r),
{
    K::times(a, b)
}

/// `r` is a result of [`Numerics::over`] on these arguments.
pub open spec fn is_quotient<K: Numerics>(a: Num, b: Num, r: Num) -> bool {
    call_ensures(K::over, (a, b), r)
}

/// `a / b`.
pub(crate) fn quotient<K: Numerics>(a: Num, b: Num) -> (r: Num)
    ensures
        is_quotient::<K>(a, b, r),
{
    K::over(a, b)
}

/// `r` is a result of [`Numerics::exp`] on these arguments.
pub open spec fn is_exp<K: Numerics>(a: Num, r: Num) -> bool {
    call_ensures(K::exp, (a,), r)
}

/// `e` to the power `a`.
pub(crate) fn exp<K: Numerics>(a: Num) -> (r: Num)
    ensures
        is_exp::<K>(a, r),
{
    K::exp(a)
}

/// `r` is a result of [`Numerics::acos`] on these arguments.
pub open spec fn is_acos<K: Numerics>(a: Num, r: Num) -> bool {
    call_ensures(K::acos, (a,), r)
}

/// The arc cosine of `a`.
pub(crate) fn acos<K: Numerics>(a: Num) -> (r: Num)
    ensures
        is_acos::<K>(a, r),
{
    K::acos(a)
}

/// `r` is a result of [`Numerics::sin_cos`] on these arguments.
pub open spec fn is_sin_cos<K: Numerics>(a: Num, r: (Num, Num)) -> bool {
    call_ensures(K::sin_cos, (a,), r)
}

/// The sine and the cosine of `a`.
pub(crate) fn sin_cos<K: Numerics>(a: Num) -> (r: (Num, Num))
    ensures
        is_sin_cos::<K>(a, r),
{
    K::sin_cos(a)
}

/// `r` is a result of [`Numerics::atan2`] on these arguments.
pub open spec fn is_atan2<K: Numerics>(y: Num, x: Num, r: Num) -> bool {
    call_ensures(K::atan2, (y, x), r)
}

/// The angle of the point `(x, y)`.
pub(crate) fn atan2<K: Numerics>(y: Num, x: Num) -> (r: Num)
    ensures
        is_atan2::<K>(y, x, r),
{
    K::atan2(y, x)
}

/// `r` is a result of [`Numerics::from_u64`] on these arguments.
pub open spec fn is_from_u64<K: Numerics>(n: u64, r: Num) -> bool {
    call_ensures(K::from_u64, (n,), r)
}

/// The number nearest to `n`.
pub(crate) fn from_u64<K: Numerics>(n: u64) -> (r: Num)
    ensures
        is_from_u64::<K>(n, r),
{
    K::from_u64(n)
}

/// `r` is a result of [`Numerics::to_index`] on these arguments.
pub open spec fn is_to_index<K: Numerics>(a: Num, r: usize) -> bool {
    call_ensures(K::to_index, (a,), r)
}

/// `a` cut to an index: 0 below 0 and for a NaN, the largest index above all.
pub(crate) fn to_index<K: Numerics>(a: Num) -> (r: usize)
    ensures
        is_to_index::<K>(a, r),
{
    K::to_index(a)
}

/// `r` is a result of [`Numerics::to_id`] on these arguments.
pub open spec fn is_to_id<K: Numerics>(a: Num, r: i32) -> bool {
    call_ensures(K::to_id, (a,), r)
}

/// `a` cut to a landmark id, held to the range of `i32`; 0 for a NaN.
pub(crate) fn to_id<K: Numerics>(a: Num) -> (r: i32)
    ensures
        is_to_id::<K>(a, r),
{
    K::to_id(a)
}

/// `r` is a result of [`Numerics::to_single`] on these arguments.
pub open spec fn is_to_single<K: Numerics>(a: Num, r: u32) -> bool {
    call_ensures(K::to_single, (a,), r)
}

/// The bits of the single-precision number nearest to `a`.
pub(crate) fn to_single<K: Numerics>(a: Num) -> (r: u32)
    ensures
        is_to_single::<K>(a, r),
{
    K::to_single(a)
}

/// `r` is a result of [`Numerics::from_single`] on these arguments.
pub open spec fn is_from_single<K: Numerics>(bits: u32, r: Num) -> bool {
    call_ensures(K::from_single, (bits,), r)
}

/// The number that single-precision bits stand for.
pub(crate) fn from_single<K: Numerics>(bits: u32) -> (r: Num)
    ensures
        is_from_single::<K>(bits, r),
{
    K::from_single(bits)
}

/// `r` is a result of [`Numerics::parse`] on these arguments.
pub open spec fn is_parse<K: Numerics>(text: &str, r: Result<Num, String>) -> bool {
    call_ensures(K::parse, (text,), r)
}

/// The number that `text` spells, or why it spells none.
pub(crate) fn parse<K: Numerics>(text: &str) -> (r: Result<Num, String>)
    ensures
        is_parse::<K>(text, r),
{
    K::parse(text)
}

/// `r` is a result of [`Numerics::v_plus`] on these arguments.
pub open spec fn is_v_sum<K: Numerics>(a: Vector3, b: Vector3, r: Vector3) -> bool {
    call_ensures(K::v_plus, (a, b), r)
}

/// `a + b`.
pub(crate) fn v_sum<K: Numerics>(a: Vector3, b: Vector3) -> (r: Vector3)
    ensures
        is_v_sum::<K>(a, b, r),
{
    K::v_plus(a, b)
}

/// `r` is a result of [`Numerics::v_minus`] on these arguments.
pub open spec fn is_v_difference<K: Numerics>(a: Vector3, b: Vector3, r: Vector3) -> bool {
    call_ensures(K::v_minus, (a, b), r)
}

/// `a - b`.
pub(crate) fn v_difference<K: Numerics>(a: Vector3, b: Vector3) -> (r: Vector3)
    ensures
        is_v_difference::<K>(a, b, r),
{
    K::v_minus(a, b)
}

/// `r` is a result of [`Numerics::v_times`] on these arguments.
pub open spec fn is_v_product<K: Numerics>(a: Vector3, s: Num, r: Vector3) -> bool {
    call_ensures(K::v_times, (a, s), r)
}

/// `a * s`.
pub(crate) fn v_product<K: Numerics>(a: Vector3, s: Num) -> (r: Vector3)
    ensures
        is_v_product::<K>(a, s, r),
{
    K::v_times(a, s)
}

/// `r` is a result of [`Numerics::v_over`] on these arguments.
pub open spec fn is_v_quotient<K: Numerics>(a: Vector3, s: Num, r: Vector3) -> bool {
    call_ensures(K::v_over, (a, s), r)
}

/// `a / s`.
pub(crate) fn v_quotient<K: Numerics>(a: Vector3, s: Num) -> (r: Vector3)
    ensures
        is_v_quotient::<K>(a, s, r),
{
    K::v_over(a, s)
}

/// `r` is a result of [`Numerics::v_dot`] on these arguments.
pub open spec fn is_v_dot<K: Numerics>(a: Vector3, b: Vector3, r: Num) -> bool {
    call_ensures(K::v_dot, (a, b), r)
}

/// The dot product.
pub(crate) fn v_dot<K: Numerics>(a: Vector3, b: Vector3) -> (r: Num)
    ensures
        is_v_dot::<K>(a, b, r),
{
    K::v_dot(a, b)
}

/// `r` is a result of [`Numerics::v_norm`] on these arguments.
pub open spec fn is_v_norm<K: Numerics>(a: Vector3, r: Num) -> bool {
    call_ensures(K::v_norm, (a,), r)
}

/// The length of `a`.
pub(crate) fn v_norm<K: Numerics>(a: Vector3) -> (r: Num)
    ensures
        is_v_norm::<K>(a, r),
{
    K::v_norm(a)
}

/// `r` is a result of [`Numerics::v_norm_squared`] on these arguments.
pub open spec fn is_v_norm_squared<K: Numerics>(a: Vector3, r: Num) -> bool {
    call_ensures(K::v_norm_squared, (a,), r)
}

/// The squared length of `a`.
pub(crate) fn v_norm_squared<K: Numerics>(a: Vector3) -> (r: Num)
    ensures
        is_v_norm_squared::<K>(a, r),
{
    K::v_norm_squared(a)
}

/// `r` is a result of [`Numerics::v_unit`] on these arguments.
pub open spec fn is_v_unit<K: Numerics>(a: Vector3, r: Vector3) -> bool {
    call_ensures(K::v_unit, (a,), r)
}

/// `a` scaled to length one.
pub(crate) fn v_unit<K: Numerics>(a: Vector3) -> (r: Vector3)
    ensures
        is_v_unit::<K>(a, r),
{
    K::v_unit(a)
}

/// `r` is a result of [`Numerics::q_rotate`] on these arguments.
pub open spec fn is_rotated<K: Numerics>(q: UnitQuaternion, v: Vector3, r: Vector3) -> bool {
    call_ensures(K::q_rotate, (q, v), r)
}

/// `v` turned by `q`.
pub(crate) fn rotate<K: Numerics>(q: UnitQuaternion, v: Vector3) -> (r: Vector3)
    ensures
        is_rotated::<K>(q, v, r),
{
    K::q_rotate(q, v)
}

/// `r` is a result of [`Numerics::q_unrotate`] on these arguments.
pub open spec fn is_unrotated<K: Numerics>(q: UnitQuaternion, v: Vector3, r: Vector3) -> bool {
    call_ensures(K::q_unrotate, (q, v), r)
}

/// `v` turned by the inverse of `q`.
pub(crate) fn unrotate<K: Numerics>(q: UnitQuaternion, v: Vector3) -> (r: Vector3)
    ensures
        is_unrotated::<K>(q, v, r),
{
    K::q_unrotate(q, v)
}

/// `r` is a result of [`Numerics::q_times`] on these arguments.
pub open spec fn is_composed<K: Numerics>(p: UnitQuaternion, q: UnitQuaternion, r: UnitQuaternion) -> bool {
    call_ensures(K::q_times, (p, q), r)
}

/// `p * q`: first `q`, then `p`.
pub(crate) fn compose<K: Numerics>(p: UnitQuaternion, q: UnitQuaternion) -> (r: UnitQuaternion)
    ensures
        is_composed::<K>(p, q, r),
{
    K::q_times(p, q)
}

/// `r` is a result of [`Numerics::q_inverse`] on these arguments.
pub open spec fn is_inverse<K: Numerics>(q: UnitQuaternion, r: UnitQuaternion) -> bool {
    call_ensures(K::q_inverse, (q,), r)
}

/// The inverse rotation.
pub(crate) fn inverse<K: Numerics>(q: UnitQuaternion) -> (r: UnitQuaternion)
    ensures
        is_inverse::<K>(q, r),
{
    K::q_inverse(q)
}

/// `r` is a result of [`Numerics::q_about`] on these arguments.
pub open spec fn is_turn<K: Numerics>(axis: Vector3, angle: Num, r: UnitQuaternion) -> bool {
    call_ensures(K::q_about, (axis, angle), r)
}

/// The rotation by `angle` about the direction of `axis`.
pub(crate) fn turn<K: Numerics>(axis: Vector3, angle: Num) -> (r: UnitQuaternion)
    ensures
        is_turn::<K>(axis, angle, r),
{
    K::q_about(axis, angle)
}

/// `r` is a result of [`Numerics::q_unit`] on these arguments.
pub open spec fn is_q_unit<K: Numerics>(q: Quaternion, r: UnitQuaternion) -> bool {
    call_ensures(K::q_unit, (q,), r)
}

/// `q` scaled to length one.
pub(crate) fn q_unit<K: Numerics>(q: Quaternion) -> (r: UnitQuaternion)
    ensures
        is_q_unit::<K>(q, r),
{
    K::q_unit(q)
}

/// `r` is a result of [`Numerics::eigen`] on these arguments.
pub open spec fn is_eigen<K: Numerics>(m: Matrix4, r: ([Num; 4], Matrix4)) -> bool {
    call_ensures(K::eigen, (m,), r)
}

/// The eigenvalues of a symmetric `m`, and the eigenvectors as columns.
pub(crate) fn eigen<K: Numerics>(m: Matrix4) -> (r: ([Num; 4], Matrix4))
    ensures
        is_eigen::<K>(m, r),
{
    K::eigen(m)
}

/// `r` is a result of [`Numerics::draw_normal`] on these arguments.
pub open spec fn is_normal_draw<K: Numerics>(rng: SmallRng, r: (Num, SmallRng)) -> bool {
    call_ensures(K::draw_normal, (rng,), r)
}

/// A standard normal draw, and the generator after it.
pub(crate) fn normal_draw<K: Numerics>(rng: SmallRng) -> (r: (Num, SmallRng))
    ensures
        is_normal_draw::<K>(rng, r),
{
    K::draw_normal(rng)
}

/// `r` is a result of [`Numerics::draw_uniform`] on these arguments.
pub open spec fn is_uniform_draw<K: Numerics>(rng: SmallRng, r: (Num, SmallRng)) -> bool {
    call_ensures(K::draw_uniform, (rng,), r)
}

/// A uniform draw in [0, 1), and the generator after it.
pub(crate) fn uniform_draw<K: Numerics>(rng: SmallRng) -> (r: (Num, SmallRng))
    ensures
        is_uniform_draw::<K>(rng, r),
{
    K::draw_uniform(rng)
}

/// `r` is a result of [`Numerics::draw_between`] on these arguments.
pub open spec fn is_draw_between<K: Numerics>(
    rng: SmallRng,
    lo: Num,
    hi: Num,
    r: (Num, SmallRng),
) -> bool {
    call_ensures(K::draw_between, (rng, lo, hi), r)
}

/// A uniform draw in [lo, hi), and the generator after it.
pub(crate) fn draw_between<K: Numerics>(rng: SmallRng, lo: Num, hi: Num) -> (r: (Num, SmallRng))
    requires
        less(lo, hi),
        is_finite(lo),
        is_finite(hi),
    ensures
        is_draw_between::<K>(rng, lo, hi, r),
{
    K::draw_between(rng, lo, hi)
}

/// `p` is a result of parsing the text made of `chars`.
pub open spec fn is_parse_of<K: Numerics>(chars: Seq<char>, p: Result<Num, String>) -> bool {
    exists|text: &str| text@ == chars && #[trigger] is_parse::<K>(text, p)
}

/// Parses the text made of `cs`.
pub(crate) fn parse_chars<K: Numerics>(cs: &[char]) -> (p: Result<Num, String>)
    ensures
        is_parse_of::<K>(cs@, p),
{
    let text = string_of(cs);
    parse::<K>(text.as_str())
}

/// Each word stands for one operation on numbers, its arguments in order.
pub proof fn law_words_for_numbers<K: Numerics>(a: Num, b: Num, r: Num, pair: (Num, Num))
    ensures
        is_sum::<K>(a, b, r) == call_ensures(K::plus, (a, b), r),
        is_difference::<K>(a, b, r) == call_ensures(K::minus, (a, b), r),
        is_product::<K>(a, b, r) == call_ensures(K::times, (a, b), r),
        is_quotient::<K>(a, b, r) == call_ensures(K::over, (a, b), r),
        is_exp::<K>(a, r) == call_ensures(K::exp, (a,), r),
        is_acos::<K>(a, r) == call_ensures(K::acos, (a,), r),
        is_sin_cos::<K>(a, pair) == call_ensures(K::sin_cos, (a,), pair),
        is_atan2::<K>(a, b, r) == call_ensures(K::atan2, (a, b), r),
{
}

/// Each word stands for one conversion.
pub proof fn law_words_for_conversions<K: Numerics>(
    a: Num,
    n: u64,
    i: usize,
    id: i32,
    bits: u32,
    text: &str,
    p: Result<Num, String>,
)
    ensures
        is_from_u64::<K>(n, a) == call_ensures(K::from_u64, (n,), a),
        is_to_index::<K>(a, i) == call_ensures(K::to_index, (a,), i),
        is_to_id::<K>(a, id) == call_ensures(K::to_id, (a,), id),
        is_to_single::<K>(a, bits) == call_ensures(K::to_single, (a,), bits),
        is_from_single::<K>(bits, a) == call_ensures(K::from_single, (bits,), a),
        is_parse::<K>(text, p) == call_ensures(K::parse, (text,), p),
{
}

/// Each word stands for one operation on vectors, its arguments in order.
pub proof fn law_words_for_vectors<K: Numerics>(
    a: Vector3,
    b: Vector3,
    s: Num,
    n: Num,
    r: Vector3,
)
    ensures
        is_v_sum::<K>(a, b, r) == call_ensures(K::v_plus, (a, b), r),
        is_v_difference::<K>(a, b, r) == call_ensures(K::v_minus, (a, b), r),
        is_v_product::<K>(a, s, r) == call_ensures(K::v_times, (a, s), r),
        is_v_quotient::<K>(a, s, r) == call_ensures(K::v_over, (a, s), r),
        is_v_dot::<K>(a, b, n) == call_ensures(K::v_dot, (a, b), n),
        is_v_norm::<K>(a, n) == call_ensures(K::v_norm, (a,), n),
        is_v_norm_squared::<K>(a, n) == call_ensures(K::v_norm_squared, (a,), n),
        is_v_unit::<K>(a, r) == call_ensures(K::v_unit, (a,), r),
{
}

/// Each word stands for one operation on rotations, its arguments in order.
pub proof fn law_words_for_rotations<K: Numerics>(
    p: UnitQuaternion,
    q: UnitQuaternion,
    r: UnitQuaternion,
    plain: Quaternion,
    v: Vector3,
    w: Vector3,
    angle: Num,
    m: Matrix4,
    es: ([Num; 4], Matrix4),
)
    ensures
        is_rotated::<K>(q, v, w) == call_ensures(K::q_rotate, (q, v), w),
        is_unrotated::<K>(q, v, w) == call_ensures(K::q_unrotate, (q, v), w),
        is_composed::<K>(p, q, r) == call_ensures(K::q_times, (p, q), r),
        is_inverse::<K>(q, r) == call_ensures(K::q_inverse, (q,), r),
        is_turn::<K>(v, angle, r) == call_ensures(K::q_about, (v, angle), r),
        is_q_unit::<K>(plain, r) == call_ensures(K::q_unit, (plain,), r),
        is_eigen::<K>(m, es) == call_ensures(K::eigen, (m,), es),
{
}

/// Each word stands for one kind of draw.
pub proof fn law_words_for_draws<K: Numerics>(
    rng: SmallRng,
    lo: Num,
    hi: Num,
    r: (Num, SmallRng),
)
    ensures
        is_normal_draw::<K>(rng, r) == call_ensures(K::draw_normal, (rng,), r),
        is_uniform_draw::<K>(rng, r) == call_ensures(K::draw_uniform, (rng,), r),
        is_draw_between::<K>(rng, lo, hi, r) == call_ensures(K::draw_between, (rng, lo, hi), r),
{
}

} // verus!
