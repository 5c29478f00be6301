//! What travels between the host and a CUDA device: packed observations and
//! landmark tables on the way in, packed sums, triangles and poses on the way
//! out. Single-precision numbers are carried as their bits.
use vstd::prelude::*;

use crate::landmark_map::LandmarkMap;
use crate::likelihood::{any_known, known, law_known};
use crate::num::{less, num, Num, ONE, ZERO};
use crate::numerics::{
    from_single, from_u64, is_from_single, is_from_u64, is_q_unit, is_quotient, is_to_single, q_unit,
    quotient, to_single, Numerics,
};
use crate::repeat::scalars_repeat;
use crate::types::{
    is_quat_mean, quat_mean, Estimate, Matrix3, Matrix4, ObsMode, Observation,
    Particle, Pose, Quaternion, UnitQuaternion, Vector3,
};

verus! {

/// Observation capacity per weighting.
pub const OBS_CAP: usize = 256;

/// An observation as the device takes it.
#[derive(Clone, Copy, Debug, PartialEq, Eq, Structural)]
pub struct DeviceObs {
    pub id: i32,
    /// 0 cartesian, 1 range-bearing.
    pub mode: i32,
    pub dx: u32,
    pub dy: u32,
    pub dz: u32,
    pub range: u32,
}

/// `d` is the observation `o` for the device.
pub open spec fn is_device_obs<K: Numerics>(o: Observation, d: DeviceObs) -> bool {
    &&& d.id == o.landmark_id
    &&& d.mode == match o.mode {
        ObsMode::Cartesian => 0i32,
        ObsMode::RangeBearing => 1i32,
    }
    &&& is_to_single::<K>(o.vector.x, d.dx)
    &&& is_to_single::<K>(o.vector.y, d.dy)
    &&& is_to_single::<K>(o.vector.z, d.dz)
    &&& is_to_single::<K>(o.range, d.range)
}

fn device_obs<K: Numerics>(o: &Observation) -> (d: DeviceObs)
    ensures
        is_device_obs::<K>(*o, d),
{
    DeviceObs {
        id: o.landmark_id,
        mode: match o.mode {
            ObsMode::Cartesian => 0,
            ObsMode::RangeBearing => 1,
        },
        dx: to_single::<K>(o.vector.x),
        dy: to_single::<K>(o.vector.y),
        dz: to_single::<K>(o.vector.z),
        range: to_single::<K>(o.range),
    }
}

/// `sent` is the first of the known observations, at most as many as the
/// device takes.
pub open spec fn are_sent<K: Numerics>(seen: Seq<Observation>, sent: Seq<DeviceObs>) -> bool {
    &&& sent.len() == if seen.len() < OBS_CAP {
        seen.len()
    } else {
        OBS_CAP as nat
    }
    &&& forall|i: int| 0 <= i < sent.len() ==> is_device_obs::<K>(seen[i], #[trigger] sent[i])
}

fn sent_of<K: Numerics>(obs: &[Observation], map: &LandmarkMap) -> (sent: Vec<DeviceObs>)
    ensures
        are_sent::<K>(known(obs@, map@), sent@),
{
    let mut sent: Vec<DeviceObs> = Vec::new();
    let ghost mut seen: Seq<Observation> = Seq::empty();
    for i in 0..obs.len()
        invariant
            seen == known(obs@.take(i as int), map@),
            are_sent::<K>(seen, sent@),
    {
        let o = &obs[i];
        proof {
            assert(obs@.take(i + 1).drop_last() =~= obs@.take(i as int));
            assert(obs@.take(i + 1).last() == obs@[i as int]);
        }
        if map.has(o.landmark_id) {
            let ghost before = seen;
            proof {
                seen = seen.push(*o);
            }
            if sent.len() < OBS_CAP {
                let ghost old_sent = sent@;
                sent.push(device_obs::<K>(o));
                assert forall|k: int| 0 <= k < sent@.len() implies is_device_obs::<K>(
                    seen[k],
                    #[trigger] sent@[k],
                ) by {
                    if k < old_sent.len() {
                        assert(is_device_obs::<K>(before[k], old_sent[k]));
                    }
                }
            } else {
                assert forall|k: int| 0 <= k < sent@.len() implies is_device_obs::<K>(
                    seen[k],
                    #[trigger] sent@[k],
                ) by {
                    assert(is_device_obs::<K>(before[k], sent@[k]));
                }
            }
        }
    }
    assert(obs@.take(obs@.len() as int) =~= obs@);
    sent
}

/// Entry `id` of a landmark table: three singles, zeros without a landmark.
pub open spec fn is_table_entry<K: Numerics>(
    map: Map<int, Vector3>,
    id: int,
    x: u32,
    y: u32,
    z: u32,
) -> bool {
    if map.contains_key(id) {
        &&& is_to_single::<K>(map[id].x, x)
        &&& is_to_single::<K>(map[id].y, y)
        &&& is_to_single::<K>(map[id].z, z)
    } else {
        x == 0 && y == 0 && z == 0
    }
}

/// `flat` is the table of the ids up to the largest one, or of id 0 alone
/// where the map is empty.
pub open spec fn is_table<K: Numerics>(map: Map<int, Vector3>, flat: Seq<u32>, cap: int) -> bool {
    &&& cap >= 1
    &&& flat.len() == 3 * cap
    &&& forall|id: int| #[trigger] map.contains_key(id) ==> 0 <= id < cap
    &&& cap > 1 ==> map.contains_key(cap - 1)
    &&& forall|id: int|
        0 <= id < cap ==> #[trigger] is_table_entry::<K>(
            map,
            id,
            flat[3 * id],
            flat[3 * id + 1],
            flat[3 * id + 2],
        )
}

/// A landmark table, and the number of its entries.
fn table_of<K: Numerics>(map: &LandmarkMap) -> (r: (Vec<u32>, usize))
    requires
        map.wf(),
    ensures
        is_table::<K>(map@, r.0@, r.1 as int),
{
    let largest: usize = map.capacity();
    let cap: usize = if largest < 1 {
        1
    } else {
        largest
    };
    let mut flat: Vec<u32> = Vec::new();
    for id in 0..cap
        invariant
            cap <= 0x8000_0000,
            flat@.len() == 3 * id,
            forall|k: int|
                0 <= k < id ==> #[trigger] is_table_entry::<K>(
                    map@,
                    k,
                    flat@[3 * k],
                    flat@[3 * k + 1],
                    flat@[3 * k + 2],
                ),
    {
        let ghost before = flat@;
        if map.has(id as i32) {
            let p = map.at(id as i32);
            flat.push(to_single::<K>(p.x));
            flat.push(to_single::<K>(p.y));
            flat.push(to_single::<K>(p.z));
        } else {
            flat.push(0);
            flat.push(0);
            flat.push(0);
        }
        assert forall|k: int| 0 <= k < id + 1 implies #[trigger] is_table_entry::<K>(
            map@,
            k,
            flat@[3 * k],
            flat@[3 * k + 1],
            flat@[3 * k + 2],
        ) by {
            if k < id {
                assert(is_table_entry::<K>(
                    map@,
                    k,
                    before[3 * k],
                    before[3 * k + 1],
                    before[3 * k + 2],
                ));
            }
        }
    }
    (flat, cap)
}

/// The magnitude of single-precision bits.
pub open spec fn single_magnitude(a: u32) -> u32 {
    if a >= 0x8000_0000 {
        (a - 0x8000_0000) as u32
    } else {
        a
    }
}

/// Two single-precision numbers are equal: no NaN is, and both zeros are.
pub open spec fn same_single(a: u32, b: u32) -> bool {
    &&& single_magnitude(a) <= 0x7F80_0000
    &&& single_magnitude(b) <= 0x7F80_0000
    &&& a == b || single_magnitude(a) == 0 && single_magnitude(b) == 0
}

fn singles_match(a: u32, b: u32) -> (r: bool)
    ensures
        r == same_single(a, b),
{
    let ma: u32 = if a >= 0x8000_0000 {
        a - 0x8000_0000
    } else {
        a
    };
    let mb: u32 = if b >= 0x8000_0000 {
        b - 0x8000_0000
    } else {
        b
    };
    ma <= 0x7F80_0000 && mb <= 0x7F80_0000 && (a == b || ma == 0 && mb == 0)
}

/// Two tables hold equal numbers.
pub open spec fn same_table(a: Seq<u32>, b: Seq<u32>) -> bool {
    &&& a.len() == b.len()
    &&& forall|i: int| 0 <= i < a.len() ==> same_single(#[trigger] a[i], b[i])
}

fn tables_match(a: &Vec<u32>, b: &Vec<u32>) -> (r: bool)
    ensures
        r == same_table(a@, b@),
{
    if a.len() != b.len() {
        return false;
    }
    for i in 0..a.len()
        invariant
            a@.len() == b@.len(),
            forall|k: int| 0 <= k < i ==> same_single(#[trigger] a@[k], b@[k]),
    {
        if !singles_match(a[i], b[i]) {
            assert(!same_single(a@[i as int], b@[i as int]));
            return false;
        }
    }
    true
}

/// What to do on the device for one weighting.
pub struct WeightPlan {
    /// The landmark table to upload, with the number of its entries.
    pub upload: Option<(Vec<u32>, usize)>,
    /// The observations to weigh by; none resets the weights to uniform.
    pub obs: Vec<DeviceObs>,
}

/// `plan` weighs by the known observations, and uploads the landmark table
/// only where it differs from `cache`, the last one uploaded.
pub open spec fn is_plan<K: Numerics>(
    obs: Seq<Observation>,
    map: Map<int, Vector3>,
    cache: Seq<u32>,
    plan: WeightPlan,
) -> bool {
    &&& are_sent::<K>(known(obs, map), plan.obs@)
    &&& if known(obs, map).len() == 0 {
        plan.upload is None
    } else {
        exists|flat: Seq<u32>, cap: int| #[trigger]
            is_table::<K>(map, flat, cap) && if same_table(flat, cache) {
                plan.upload is None
            } else {
                plan.upload matches Some(t) && t.0@ == flat && t.1 == cap
            }
    }
}

/// A plan resets the weights exactly where no observation is of a landmark in
/// the map; what it sends are observations of landmarks in the map, at most
/// as many as the device takes.
pub proof fn law_plan<K: Numerics>(
    obs: Seq<Observation>,
    map: Map<int, Vector3>,
    cache: Seq<u32>,
    plan: WeightPlan,
)
    requires
        is_plan::<K>(obs, map, cache, plan),
    ensures
        plan.obs@.len() == 0 <==> !any_known(obs, map),
        plan.obs@.len() <= OBS_CAP,
        forall|i: int| 0 <= i < plan.obs@.len() ==> map.contains_key(
            (#[trigger] plan.obs@[i]).id as int,
        ),
{
    law_known(obs, map);
    assert forall|i: int| 0 <= i < plan.obs@.len() implies map.contains_key(
        (#[trigger] plan.obs@[i]).id as int,
    ) by {
        assert(is_device_obs::<K>(known(obs, map)[i], plan.obs@[i]));
    }
}

/// No number in a table is a NaN.
pub open spec fn has_no_nan(table: Seq<u32>) -> bool {
    forall|i: int| 0 <= i < table.len() ==> single_magnitude(#[trigger] table[i]) <= 0x7F80_0000
}

proof fn lemma_table_repeats<K: Numerics>(
    map: Map<int, Vector3>,
    a: Seq<u32>,
    m: int,
    b: Seq<u32>,
    n: int,
)
    requires
        scalars_repeat::<K>(),
        is_table::<K>(map, a, m),
        is_table::<K>(map, b, n),
    ensures
        a == b && m == n,
{
    if m < n {
        assert(map.contains_key(n - 1));
    } else if n < m {
        assert(map.contains_key(m - 1));
    }
    assert forall|i: int| 0 <= i < a.len() implies a[i] == b[i] by {
        let id = i / 3;
        assert(is_table_entry::<K>(map, id, a[3 * id], a[3 * id + 1], a[3 * id + 2]));
        assert(is_table_entry::<K>(map, id, b[3 * id], b[3 * id + 1], b[3 * id + 2]));
        assert(i == 3 * id || i == 3 * id + 1 || i == 3 * id + 2);
    }
    assert(a =~= b);
}

/// A map whose table has been sent already is not sent again, where equal
/// numbers round alike and the table holds no NaN, which equals nothing.
pub proof fn law_unchanged_map_is_not_sent<K: Numerics>(
    obs: Seq<Observation>,
    map: Map<int, Vector3>,
    sent: Seq<u32>,
    cap: int,
    cache: Seq<u32>,
    plan: WeightPlan,
)
    requires
        scalars_repeat::<K>(),
        is_table::<K>(map, sent, cap),
        has_no_nan(sent),
        cache == sent || same_table(sent, cache),
        is_plan::<K>(obs, map, cache, plan),
    ensures
        plan.upload is None,
{
    if known(obs, map).len() > 0 {
        let (flat, n) = choose|flat: Seq<u32>, n: int| #[trigger]
            is_table::<K>(map, flat, n) && if same_table(flat, cache) {
                plan.upload is None
            } else {
                plan.upload matches Some(t) && t.0@ == flat && t.1 == n
            };
        lemma_table_repeats::<K>(map, sent, cap, flat, n);
        assert(same_table(sent, sent));
    }
}

/// The plan of one weighting.
pub fn plan_weight<K: Numerics>(obs: &[Observation], map: &LandmarkMap, cache: &Vec<u32>) -> (plan:
    WeightPlan)
    requires
        map.wf(),
    ensures
        is_plan::<K>(obs@, map@, cache@, plan),
{
    let sent = sent_of::<K>(obs, map);
    if sent.len() == 0 {
        return WeightPlan { upload: None, obs: sent };
    }
    let (flat, cap) = table_of::<K>(map);
    assert(is_table::<K>(map@, flat@, cap as int));
    if tables_match(&flat, cache) {
        WeightPlan { upload: None, obs: sent }
    } else {
        WeightPlan { upload: Some((flat, cap)), obs: sent }
    }
}

/// Where entry `(r, c)`, `r <= c`, of a symmetric matrix of order `d` stands
/// in its packed upper triangle.
pub open spec fn packed(d: int, r: int, c: int) -> int {
    d * r - r * (r - 1) / 2 + (c - r)
}

/// Where entry `(r, c)` stands, above the diagonal or below it.
pub open spec fn packed_sym(d: int, r: int, c: int) -> int {
    if r <= c {
        packed(d, r, c)
    } else {
        packed(d, c, r)
    }
}

/// A packed triangle holds each entry once and nothing else: the places of
/// the entries are apart, and each of the `d (d + 1) / 2` places has an entry.
/// Stated of the two orders that are in use.
pub proof fn law_packed(d: int)
    requires
        d == 3 || d == 4,
    ensures
        forall|r: int, c: int|
            0 <= r <= c < d ==> 0 <= #[trigger] packed(d, r, c) < d * (d + 1) / 2,
        forall|r: int, c: int, s: int, e: int|
            0 <= r <= c < d && 0 <= s <= e < d && #[trigger] packed(d, r, c)
                == #[trigger] packed(d, s, e) ==> r == s && c == e,
        forall|k: int| 0 <= k < d * (d + 1) / 2 ==> #[trigger] is_packed_place(d, k),
{
    assert forall|r: int, c: int| 0 <= r <= c < d implies 0 <= #[trigger] packed(d, r, c) < d * (d
        + 1) / 2 by {
        lemma_packed(d, r, c);
    }
    assert forall|r: int, c: int, s: int, e: int|
        0 <= r <= c < d && 0 <= s <= e < d && #[trigger] packed(d, r, c) == #[trigger] packed(
            d,
            s,
            e,
        ) implies r == s && c == e by {
        lemma_packed(d, r, c);
        lemma_packed(d, s, e);
    }
    assert forall|k: int| 0 <= k < d * (d + 1) / 2 implies #[trigger] is_packed_place(d, k) by {
        if d == 3 {
            lemma_packed(3, if k < 3 { 0 } else if k < 5 { 1 } else { 2 }, if k < 3 {
                k
            } else if k < 5 {
                k - 2
            } else {
                2
            });
        } else {
            lemma_packed(4, if k < 4 { 0 } else if k < 7 { 1 } else if k < 9 { 2 } else { 3 }, if k
                < 4 {
                k
            } else if k < 7 {
                k - 3
            } else if k < 9 {
                k - 5
            } else {
                3
            });
        }
    }
}

/// Some entry stands at place `k`.
pub open spec fn is_packed_place(d: int, k: int) -> bool {
    exists|r: int, c: int| 0 <= r <= c < d && #[trigger] packed(d, r, c) == k
}

pub(crate) proof fn lemma_packed(d: int, r: int, c: int)
    requires
        d == 3 || d == 4,
        0 <= r <= c < d,
    ensures
        packed(d, r, c) == (if d == 3 {
            if r == 0 {
                c
            } else if r == 1 {
                2 + c
            } else {
                5
            }
        } else {
            if r == 0 {
                c
            } else if r == 1 {
                3 + c
            } else if r == 2 {
                5 + c
            } else {
                9
            }
        }),
{
    assert(r == 0 || r == 1 || r == 2 || r == 3);
    if r == 0 {
        assert(d * 0 - 0 * (0 - 1) / 2 == 0) by (nonlinear_arith);
    } else if r == 1 {
        assert(d * 1 - 1 * (1 - 1) / 2 == d) by (nonlinear_arith);
    } else if r == 2 {
        assert(d * 2 - 2 * (2 - 1) / 2 == 2 * d - 1) by (nonlinear_arith);
    } else {
        assert(d * 3 - 3 * (3 - 1) / 2 == 3 * d - 3) by (nonlinear_arith);
    }
}

/// `m` is the symmetric matrix packed in `v` from place `o` on.
pub open spec fn is_unpacked3<K: Numerics>(v: Seq<u32>, o: int, m: Matrix3) -> bool {
    forall|r: int, c: int|
        0 <= r < 3 && 0 <= c < 3 ==> is_from_single::<K>(
            v[o + packed_sym(3, r, c)],
            #[trigger] m.at(r, c),
        )
}

/// Unpack a symmetric 3x3 matrix from the packed upper triangle at `o`.
fn sym3<K: Numerics>(v: &[u32; 12], o: usize) -> (m: Matrix3)
    requires
        o <= 6,
    ensures
        is_unpacked3::<K>(v@, o as int, m),
{
    let xx = from_single::<K>(v[o]);
    let xy = from_single::<K>(v[o + 1]);
    let xz = from_single::<K>(v[o + 2]);
    let yy = from_single::<K>(v[o + 3]);
    let yz = from_single::<K>(v[o + 4]);
    let zz = from_single::<K>(v[o + 5]);
    let m = Matrix3 { rows: [[xx, xy, xz], [xy, yy, yz], [xz, yz, zz]] };
    assert forall|r: int, c: int| 0 <= r < 3 && 0 <= c < 3 implies is_from_single::<K>(
        v@[o + packed_sym(3, r, c)],
        #[trigger] m.at(r, c),
    ) by {
        if r <= c {
            lemma_packed(3, r, c);
        } else {
            lemma_packed(3, c, r);
        }
        assert(m.at(r, c) == m.rows@[r]@[c]);
    }
    m
}

/// `m` is the symmetric moment matrix packed in the sums from place 3 on.
pub open spec fn is_unpacked4<K: Numerics>(sums: Seq<u32>, m: Matrix4) -> bool {
    forall|r: int, c: int|
        0 <= r < 4 && 0 <= c < 4 ==> is_from_single::<K>(
            sums[3 + packed_sym(4, r, c)],
            #[trigger] m.at(r, c),
        )
}

fn sym4<K: Numerics>(sums: &[u32; 14]) -> (m: Matrix4)
    ensures
        is_unpacked4::<K>(sums@, m),
{
    let ww = from_single::<K>(sums[3]);
    let wi = from_single::<K>(sums[4]);
    let wj = from_single::<K>(sums[5]);
    let wk = from_single::<K>(sums[6]);
    let ii = from_single::<K>(sums[7]);
    let ij = from_single::<K>(sums[8]);
    let ik = from_single::<K>(sums[9]);
    let jj = from_single::<K>(sums[10]);
    let jk = from_single::<K>(sums[11]);
    let kk = from_single::<K>(sums[12]);
    let m = Matrix4 {
        rows: [[ww, wi, wj, wk], [wi, ii, ij, ik], [wj, ij, jj, jk], [wk, ik, jk, kk]],
    };
    assert forall|r: int, c: int| 0 <= r < 4 && 0 <= c < 4 implies is_from_single::<K>(
        sums@[3 + packed_sym(4, r, c)],
        #[trigger] m.at(r, c),
    ) by {
        if r <= c {
            lemma_packed(4, r, c);
        } else {
            lemma_packed(4, c, r);
        }
        assert(m.at(r, c) == m.rows@[r]@[c]);
    }
    m
}

/// `q` is the mean attitude that the device's sums give.
pub open spec fn is_device_mean<K: Numerics>(sums: Seq<u32>, q: UnitQuaternion) -> bool {
    exists|m: Matrix4| #[trigger] is_unpacked4::<K>(sums, m) && is_quat_mean::<K>(m, q)
}

/// The Markley quaternion mean on the host, by the computation that the CPU
/// backend makes too.
pub fn device_mean<K: Numerics>(sums: &[u32; 14]) -> (q: UnitQuaternion)
    ensures
        is_device_mean::<K>(sums@, q),
{
    let m = sym4::<K>(sums);
    quat_mean::<K>(m)
}

/// `ess` is one over the sum of the squared weights, 0 where that is not
/// positive.
pub open spec fn is_device_ess<K: Numerics>(bits: u32, ess: Num) -> bool {
    exists|s: Num| #[trigger]
        is_from_single::<K>(bits, s) && if less(num(ZERO), s) {
            is_quotient::<K>(num(ONE), s, ess)
        } else {
            ess == num(ZERO)
        }
}

/// `e` is the estimate that the device's sums and covariances give, about the
/// mean attitude `mean`.
pub open spec fn is_device_estimate<K: Numerics>(
    sums: Seq<u32>,
    mean: UnitQuaternion,
    covs: Seq<u32>,
    e: Estimate,
) -> bool {
    &&& is_from_single::<K>(sums[0], e.mean.position.x)
    &&& is_from_single::<K>(sums[1], e.mean.position.y)
    &&& is_from_single::<K>(sums[2], e.mean.position.z)
    &&& e.mean.attitude == mean
    &&& is_unpacked3::<K>(covs, 0, e.pos_cov)
    &&& is_unpacked3::<K>(covs, 6, e.att_cov)
    &&& is_device_ess::<K>(sums[13], e.ess)
    &&& e.valid
}

/// The estimate from the device's two passes.
pub fn device_estimate<K: Numerics>(sums: &[u32; 14], mean: UnitQuaternion, covs: &[u32; 12]) -> (e:
    Estimate)
    ensures
        is_device_estimate::<K>(sums@, mean, covs@, e),
{
    let s = from_single::<K>(sums[13]);
    let ess = if num(ZERO).less(s) {
        quotient::<K>(num(ONE), s)
    } else {
        num(ZERO)
    };
    assert(is_from_single::<K>(sums@[13], s));
    assert(is_device_ess::<K>(sums@[13], ess));
    Estimate {
        mean: Pose {
            position: Vector3 {
                x: from_single::<K>(sums[0]),
                y: from_single::<K>(sums[1]),
                z: from_single::<K>(sums[2]),
            },
            attitude: mean,
        },
        pos_cov: sym3::<K>(covs, 0),
        att_cov: sym3::<K>(covs, 6),
        ess,
        valid: true,
    }
}

/// `p` is particle `i` of a device's arrays: three coordinates and four
/// quaternion parts each, with the weight `w`.
pub open spec fn is_device_particle<K: Numerics>(
    pos: Seq<u32>,
    quat: Seq<u32>,
    i: int,
    w: Num,
    p: Particle,
) -> bool {
    &&& is_from_single::<K>(pos[3 * i], p.pose.position.x)
    &&& is_from_single::<K>(pos[3 * i + 1], p.pose.position.y)
    &&& is_from_single::<K>(pos[3 * i + 2], p.pose.position.z)
    &&& exists|q: Quaternion|
        {
            &&& is_from_single::<K>(quat[4 * i], q.w)
            &&& is_from_single::<K>(quat[4 * i + 1], q.i)
            &&& is_from_single::<K>(quat[4 * i + 2], q.j)
            &&& is_from_single::<K>(quat[4 * i + 3], q.k)
            &&& #[trigger] is_q_unit::<K>(q, p.pose.attitude)
        }
    &&& p.weight == w
}

/// How many of `n` particles the arrays hold.
pub open spec fn held(n: nat, pos: nat, quat: nat) -> nat {
    let both = if pos / 3 < quat / 4 {
        pos / 3
    } else {
        quat / 4
    };
    if n < both {
        n
    } else {
        both
    }
}

/// `ps` is the device's particles, each of weight `1 / n`.
pub open spec fn is_device_snapshot<K: Numerics>(
    n: nat,
    pos: Seq<u32>,
    quat: Seq<u32>,
    ps: Seq<Particle>,
) -> bool {
    exists|count: Num, w: Num|
        {
            &&& #[trigger] is_from_u64::<K>(n as u64, count)
            &&& #[trigger] is_quotient::<K>(num(ONE), count, w)
            &&& ps.len() == held(n, pos.len(), quat.len())
            &&& forall|i: int|
                0 <= i < ps.len() ==> is_device_particle::<K>(pos, quat, i, w, #[trigger] ps[i])
        }
}

/// The particles in a device's arrays, as far as the arrays go.
pub fn device_snapshot<K: Numerics>(n: usize, pos: &Vec<u32>, quat: &Vec<u32>) -> (ps: Vec<Particle>)
    ensures
        is_device_snapshot::<K>(n as nat, pos@, quat@, ps@),
{
    let count = from_u64::<K>(n as u64);
    let w = quotient::<K>(num(ONE), count);
    let mut m: usize = n;
    if pos.len() / 3 < m {
        m = pos.len() / 3;
    }
    if quat.len() / 4 < m {
        m = quat.len() / 4;
    }
    let mut ps: Vec<Particle> = Vec::new();
    for i in 0..m
        invariant
            3 * m <= pos@.len(),
            4 * m <= quat@.len(),
            ps@.len() == i,
            forall|k: int|
                0 <= k < i ==> is_device_particle::<K>(pos@, quat@, k, w, #[trigger] ps@[k]),
    {
        assert(pos.len() == pos@.len() && quat.len() == quat@.len());
        let position = Vector3 {
            x: from_single::<K>(pos[3 * i]),
            y: from_single::<K>(pos[3 * i + 1]),
            z: from_single::<K>(pos[3 * i + 2]),
        };
        let q = Quaternion {
            w: from_single::<K>(quat[4 * i]),
            i: from_single::<K>(quat[4 * i + 1]),
            j: from_single::<K>(quat[4 * i + 2]),
            k: from_single::<K>(quat[4 * i + 3]),
        };
        let attitude = q_unit::<K>(q);
        let p = Particle { pose: Pose { position, attitude }, weight: w };
        assert(is_q_unit::<K>(q, p.pose.attitude));
        ps.push(p);
    }
    assert(is_quotient::<K>(num(ONE), count, w));
    ps
}

} // verus!
