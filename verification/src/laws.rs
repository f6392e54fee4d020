//! What holds of the retention rules, the rollback choice and the names of
//! snapshots, whatever the inputs.

use vstd::prelude::*;
use vstd::arithmetic::power::pow;
use vstd::arithmetic::power::lemma_pow_positive;
use vstd::arithmetic::div_mod::lemma_fundamental_div_mod;
use vstd::arithmetic::div_mod::lemma_mod_multiples_basic;

use crate::driver::{
    aligned, chunk, fade_spec, fair_spec, has_below, greatest_below, strictly_desc, min, rollback_target_spec,
    thinned, unaligned, outdated, kept_before_new,
};
use crate::driver::zfs;
use crate::driver::btrfs;
use crate::text::{
    decimal, is_ws, lemma_parse_decimal, starts_with, trim, trim_end, trim_start,
    lemma_decimal_roundtrip, is_digit, after_last, strip_slashes,
};
use crate::{
    algo_name, algo_of_name, cap_of, mode_name, mode_of_name, volume_check, volume_char_ok,
    BtmCfg, SnapAlgo, SnapMode, STEP_CNT,
};

verus! {

/// Fair retention keeps exactly the newest `cap` snapshots: what it deletes
/// is what follows them.
pub proof fn fair_keeps_newest(s: Seq<u64>, cap: nat)
    ensures
        s.take(if cap < s.len() { cap as int } else { s.len() as int }) + fair_spec(s, cap as int) == s,
{
    if cap < s.len() {
        assert(s.take(cap as int) + s.skip(cap as int) =~= s);
    } else {
        assert(s.take(s.len() as int) + Seq::<u64>::empty() =~= s);
    }
}

proof fn lemma_unaligned_empty(c: Seq<u64>, d: int)
    requires
        c.len() == 0,
    ensures
        unaligned(c, d) == Seq::<u64>::empty(),
{
}

proof fn lemma_thinned_no_chunks(s: Seq<u64>, itv: int, k: nat)
    ensures
        thinned(s, itv, 0, k) == Seq::<u64>::empty(),
    decreases k,
{
    if k > 0 {
        lemma_thinned_no_chunks(s, itv, (k - 1) as nat);
        assert((k - 1) * 0 == 0 && k * 0 == 0);
        assert(chunk(s, 0, k - 1).len() == 0);
        lemma_unaligned_empty(chunk(s, 0, k - 1), pow(itv, k));
        assert(Seq::<u64>::empty() + Seq::<u64>::empty() =~= Seq::<u64>::empty());
    }
}

/// With `cap < STEP_CNT` the chunks are empty, and fade retention is the
/// plain cap trim.
pub proof fn fade_below_step_cnt_is_fair(s: Seq<u64>, itv: int, cap: nat)
    requires
        cap < STEP_CNT,
    ensures
        fade_spec(s, itv, cap as int) == fair_spec(s, cap as int),
{
    assert(cap as int / STEP_CNT as int == 0);
    if s.len() > 0 {
        lemma_thinned_no_chunks(s, itv, STEP_CNT as nat);
        assert(Seq::<u64>::empty() + fair_spec(s, cap as int) =~= fair_spec(s, cap as int));
    }
}

proof fn lemma_pow1(k: nat)
    ensures
        pow(1, k) == 1,
    decreases k,
{
    reveal(pow);
    if k > 0 {
        lemma_pow1((k - 1) as nat);
    }
}

proof fn lemma_unaligned_one(c: Seq<u64>)
    ensures
        unaligned(c, 1) == Seq::<u64>::empty(),
    decreases c.len(),
{
    if c.len() > 0 {
        lemma_unaligned_one(c.drop_last());
        assert(aligned(c.last(), 1));
    }
}

proof fn lemma_thinned_itv_one(s: Seq<u64>, cs: int, k: nat)
    ensures
        thinned(s, 1, cs, k) == Seq::<u64>::empty(),
    decreases k,
{
    if k > 0 {
        lemma_thinned_itv_one(s, cs, (k - 1) as nat);
        lemma_pow1(k);
        lemma_unaligned_one(chunk(s, cs, k - 1));
        assert(Seq::<u64>::empty() + Seq::<u64>::empty() =~= Seq::<u64>::empty());
    }
}

/// With `itv == 1` every index is aligned: fade retention keeps every
/// snapshot within `cap` and trims the overflow, as fair retention does.
pub proof fn fade_itv_one_is_fair(s: Seq<u64>, cap: nat)
    ensures
        fade_spec(s, 1, cap as int) == fair_spec(s, cap as int),
{
    let cs = cap as int / STEP_CNT as int;
    if 1 + cs <= s.len() {
        lemma_thinned_itv_one(s, cs, STEP_CNT as nat);
        assert(Seq::<u64>::empty() + fair_spec(s, cap as int) =~= fair_spec(s, cap as int));
    }
}

proof fn lemma_unaligned_subset(c: Seq<u64>, d: int, x: u64)
    requires
        unaligned(c, d).contains(x),
    ensures
        c.contains(x),
    decreases c.len(),
{
    if c.len() > 0 {
        let c1 = c.drop_last();
        let u = unaligned(c1, d);
        if u.contains(x) {
            lemma_unaligned_subset(c1, d, x);
            let k = choose|k: int| 0 <= k < c1.len() && c1[k] == x;
            assert(c[k] == x);
        } else {
            assert(!aligned(c.last(), d));
            assert(unaligned(c, d) == u.push(c.last()));
            let k = choose|k: int| 0 <= k < u.push(c.last()).len() && u.push(c.last())[k] == x;
            if k < u.len() {
                assert(u[k] == x);
            }
            assert(c[c.len() - 1] == x);
        }
    }
}

proof fn lemma_thinned_subset(s: Seq<u64>, itv: int, cs: int, k: nat)
    requires
        cs >= 0,
    ensures
        forall|x: u64| thinned(s, itv, cs, k).contains(x) ==> s.contains(x),
    decreases k,
{
    if k > 0 {
        lemma_thinned_subset(s, itv, cs, (k - 1) as nat);
        let c = chunk(s, cs, k - 1);
        assert(0 <= (k - 1) * cs) by (nonlinear_arith)
            requires
                k >= 1,
                cs >= 0,
        ;
        assert((k - 1) * cs <= k * cs) by (nonlinear_arith)
            requires
                k >= 1,
                cs >= 0,
        ;
        assert forall|x: u64| thinned(s, itv, cs, k).contains(x) implies s.contains(x) by {
            let a = thinned(s, itv, cs, (k - 1) as nat);
            let b = unaligned(c, pow(itv, k));
            let j = choose|j: int| 0 <= j < (a + b).len() && (a + b)[j] == x;
            if j < a.len() {
                assert(a[j] == x);
                assert(a.contains(x));
            } else {
                assert(b[j - a.len()] == x);
                assert(b.contains(x));
                lemma_unaligned_subset(c, pow(itv, k), x);
                let m = choose|m: int| 0 <= m < c.len() && c[m] == x;
                let lo = crate::driver::min((k - 1) * cs, s.len() as int);
                assert(c[m] == s[lo + m]);
            }
        }
    }
}

/// Fade retention only deletes existing snapshots, deletes every snapshot
/// beyond the newest `cap`, and so leaves at most `cap` of them.
pub proof fn fade_deletes_within_bounds(s: Seq<u64>, itv: int, cap: nat)
    ensures
        forall|x: u64| fade_spec(s, itv, cap as int).contains(x) ==> s.contains(x),
        forall|i: int| cap <= i < s.len() ==> fade_spec(s, itv, cap as int).contains(#[trigger] s[i]),
        fade_spec(s, itv, cap as int).len() + cap >= s.len(),
{
    let cs = cap as int / STEP_CNT as int;
    if 1 + cs <= s.len() {
        let t = thinned(s, itv, cs, STEP_CNT as nat);
        let f = fair_spec(s, cap as int);
        lemma_thinned_subset(s, itv, cs, STEP_CNT as nat);
        assert forall|x: u64| (t + f).contains(x) implies s.contains(x) by {
            let j = choose|j: int| 0 <= j < (t + f).len() && (t + f)[j] == x;
            if j < t.len() {
                assert(t[j] == x);
                assert(t.contains(x));
            } else {
                assert(f[j - t.len()] == x);
                assert(s[cap + j - t.len()] == x);
            }
        }
        assert forall|i: int| cap <= i < s.len() implies (t + f).contains(#[trigger] s[i]) by {
            assert(f[i - cap] == s[i]);
            assert((t + f)[t.len() + i - cap] == s[i]);
        }
    } else {
        assert(s.len() <= cs);
        assert(cs <= cap);
    }
}

/// Every element of `t` sits in `s` before position `p`.
pub open spec fn from_prefix(t: Seq<u64>, s: Seq<u64>, p: int) -> bool {
    forall|a: int| 0 <= a < t.len() ==> exists|j: int| 0 <= j < p && #[trigger] s[j] == #[trigger] t[a]
}

proof fn lemma_unaligned_desc(s: Seq<u64>, lo: int, hi: int, d: int)
    requires
        strictly_desc(s),
        0 <= lo <= hi <= s.len(),
    ensures
        strictly_desc(unaligned(s.subrange(lo, hi), d)),
        forall|a: int| 0 <= a < unaligned(s.subrange(lo, hi), d).len() ==>
            exists|j: int| lo <= j < hi && #[trigger] s[j] == #[trigger] unaligned(s.subrange(lo, hi), d)[a],
    decreases hi - lo,
{
    let c = s.subrange(lo, hi);
    let u = unaligned(c, d);
    if hi > lo {
        lemma_unaligned_desc(s, lo, hi - 1, d);
        assert(c.drop_last() =~= s.subrange(lo, hi - 1));
        let u1 = unaligned(s.subrange(lo, hi - 1), d);
        if aligned(c.last(), d) {
            assert(u == u1);
        } else {
            assert(u == u1.push(c.last()));
            assert(c.last() == s[hi - 1]);
            assert forall|a: int, b: int| 0 <= a < b < u.len() implies u[a] > u[b] by {
                if b == u.len() - 1 {
                    let j = choose|j: int| lo <= j < hi - 1 && s[j] == u1[a];
                    assert(s[j] > s[hi - 1]);
                } else {
                    assert(u[a] == u1[a] && u[b] == u1[b]);
                }
            }
            assert forall|a: int| 0 <= a < u.len() implies exists|j: int| lo <= j < hi && #[trigger] s[j] == #[trigger] u[a] by {
                if a == u.len() - 1 {
                    assert(s[hi - 1] == u[a]);
                } else {
                    assert(u[a] == u1[a]);
                    let j = choose|j: int| lo <= j < hi - 1 && s[j] == u1[a];
                    assert(s[j] == u[a]);
                }
            }
        }
    } else {
        assert(c.len() == 0);
        assert(u.len() == 0);
    }
}

proof fn lemma_thinned_desc(s: Seq<u64>, itv: int, cs: int, k: nat)
    requires
        strictly_desc(s),
        cs >= 0,
    ensures
        strictly_desc(thinned(s, itv, cs, k)),
        from_prefix(thinned(s, itv, cs, k), s, min(k * cs, s.len() as int)),
    decreases k,
{
    let t = thinned(s, itv, cs, k);
    if k == 0 {
        assert(t.len() == 0);
    } else {
        lemma_thinned_desc(s, itv, cs, (k - 1) as nat);
        let t1 = thinned(s, itv, cs, (k - 1) as nat);
        assert(0 <= (k - 1) * cs <= k * cs) by (nonlinear_arith)
            requires
                k >= 1,
                cs >= 0,
        ;
        let lo = min((k - 1) * cs, s.len() as int);
        let hi = min(k * cs, s.len() as int);
        assert(chunk(s, cs, k - 1) == s.subrange(lo, hi));
        lemma_unaligned_desc(s, lo, hi, pow(itv, k));
        let u = unaligned(s.subrange(lo, hi), pow(itv, k));
        assert(t == t1 + u);
        assert forall|a: int, b: int| 0 <= a < b < t.len() implies t[a] > t[b] by {
            if b < t1.len() {
                assert(t[a] == t1[a] && t[b] == t1[b]);
            } else if a >= t1.len() {
                assert(t[a] == u[a - t1.len()] && t[b] == u[b - t1.len()]);
            } else {
                assert(t[a] == t1[a]);
                let j1 = choose|j: int| 0 <= j < lo && #[trigger] s[j] == t1[a];
                assert(t[b] == u[b - t1.len()]);
                let j2 = choose|j: int| lo <= j < hi && #[trigger] s[j] == u[b - t1.len()];
                assert(s[j1] > s[j2]);
            }
        }
        assert forall|a: int| 0 <= a < t.len() implies exists|j: int| 0 <= j < hi && #[trigger] s[j] == #[trigger] t[a] by {
            if a < t1.len() {
                assert(t[a] == t1[a]);
                let j = choose|j: int| 0 <= j < lo && #[trigger] s[j] == t1[a];
                assert(s[j] == t[a]);
            } else {
                assert(t[a] == u[a - t1.len()]);
                let j = choose|j: int| lo <= j < hi && #[trigger] s[j] == u[a - t1.len()];
                assert(s[j] == t[a]);
            }
        }
    }
}

/// On a listing read newest first without duplicates, fade retention
/// gives up snapshots newest first, each at most once.
pub proof fn fade_deletes_each_once(s: Seq<u64>, itv: int, cap: nat)
    requires
        strictly_desc(s),
    ensures
        strictly_desc(fade_spec(s, itv, cap as int)),
{
    let cs = cap as int / STEP_CNT as int;
    if 1 + cs <= s.len() {
        lemma_thinned_desc(s, itv, cs, STEP_CNT as nat);
        let t = thinned(s, itv, cs, STEP_CNT as nat);
        let f = fair_spec(s, cap as int);
        let p = min(STEP_CNT as int * cs, s.len() as int);
        assert(p <= cap);
        let r = t + f;
        assert forall|a: int, b: int| 0 <= a < b < r.len() implies r[a] > r[b] by {
            if b < t.len() {
                assert(r[a] == t[a] && r[b] == t[b]);
            } else if a >= t.len() {
                assert(r[a] == s[cap + a - t.len()] && r[b] == s[cap + b - t.len()]);
            } else {
                assert(r[a] == t[a]);
                let j = choose|j: int| 0 <= j < p && #[trigger] s[j] == t[a];
                assert(r[b] == s[cap + b - t.len()]);
                assert(s[j] > s[cap + b - t.len()]);
            }
        }
    }
}

/// A due snapshot never leaves more than `cap_of(cfg)` snapshots: the plan
/// of `gen_snapshot` destroys `outdated(cfg, s)` among the existing `s`,
/// which leaves at most `cap_of(cfg) - 1` of them, and then creates `idx`.
pub proof fn due_snapshot_respects_cap(cfg: BtmCfg, s: Seq<u64>, idx: u64)
    requires
        cfg.cap >= 1,
    ensures
        s.to_set().difference(outdated(cfg, s).to_set()).insert(idx).len() <= cap_of(cfg),
        outdated(cfg, s).len() + cap_of(cfg) >= s.len() + 1,
{
    let keep = kept_before_new(cfg);
    let d = outdated(cfg, s);
    match cfg.algo {
        SnapAlgo::Fair => {
            assert forall|i: int| keep <= i < s.len() implies d.contains(#[trigger] s[i]) by {
                assert(d[i - keep] == s[i]);
            }
        },
        SnapAlgo::Fade => {
            fade_deletes_within_bounds(s, cfg.itv as int, keep as nat);
        },
    }
    let k = if keep < s.len() { keep } else { s.len() as int };
    let front = s.take(k);
    let survivors = s.to_set().difference(d.to_set());
    assert(survivors.subset_of(front.to_set())) by {
        assert forall|x: u64| survivors.contains(x) implies front.to_set().contains(x) by {
            assert(s.contains(x));
            let i = choose|i: int| 0 <= i < s.len() && s[i] == x;
            if i >= keep {
                assert(d.contains(s[i]));
            }
            assert(front[i] == x);
            assert(front.contains(x));
        }
    }
    front.lemma_cardinality_of_set();
    vstd::seq_lib::seq_to_set_is_finite(front);
    vstd::set_lib::lemma_len_subset(survivors, front.to_set());
    vstd::set::axiom_set_insert_len(survivors, idx);
}

/// Snapshot densities nest: an index kept by an older (sparser) chunk is
/// kept by every newer chunk too.
pub proof fn alignment_nests(idx: u64, itv: u64, k: nat)
    requires
        itv >= 1,
    ensures
        aligned(idx, pow(itv as int, k + 1)) ==> aligned(idx, pow(itv as int, k)),
{
    let p = pow(itv as int, k);
    lemma_pow_positive(itv as int, k);
    reveal(pow);
    assert(pow(itv as int, k + 1) == itv * p);
    assert(itv * p > 0) by (nonlinear_arith)
        requires
            itv >= 1,
            p > 0,
    ;
    let n: int = u64::MAX - idx;
    if aligned(idx, itv * p) {
        lemma_fundamental_div_mod(n, itv * p);
        let q = n / (itv * p);
        assert(n == (q * itv) * p) by (nonlinear_arith)
            requires
                n == (itv * p) * q + 0,
        ;
        lemma_mod_multiples_basic(q * itv, p);
    }
}

/// Every index is on the grid of interval 1, and `u64::MAX` is on every
/// grid: the grid is anchored there.
pub proof fn alignment_anchor(idx: u64, itv: u64)
    ensures
        aligned(idx, 1),
        aligned(u64::MAX, itv as int),
{
    if itv > 0 {
        lemma_mod_multiples_basic(0, itv as int);
    }
}

proof fn lemma_greatest_below_exists(s: Seq<u64>, i: u64)
    requires
        has_below(s, i),
    ensures
        exists|t: u64| s.contains(t) && t < i && forall|y: u64| s.contains(y) && y < i ==> y <= t,
    decreases s.len(),
{
    let s1 = s.drop_last();
    let l = s.last();
    let x = choose|x: u64| s.contains(x) && x < i;
    assert(s.contains(l)) by {
        assert(s[s.len() - 1] == l);
    }
    if has_below(s1, i) {
        lemma_greatest_below_exists(s1, i);
        let m = choose|t: u64| s1.contains(t) && t < i && forall|y: u64| s1.contains(y) && y < i ==> y <= t;
        let t = if l < i && l > m { l } else { m };
        assert(s.contains(m)) by {
            let k = choose|k: int| 0 <= k < s1.len() && s1[k] == m;
            assert(s[k] == m);
        }
        assert forall|y: u64| s.contains(y) && y < i implies y <= t by {
            let k = choose|k: int| 0 <= k < s.len() && s[k] == y;
            if k < s.len() - 1 {
                assert(s1[k] == y);
                assert(s1.contains(y));
            }
        }
        assert(s.contains(t) && t < i);
    } else {
        assert forall|y: u64| s.contains(y) && y < i implies y <= l by {
            let k = choose|k: int| 0 <= k < s.len() && s[k] == y;
            if k < s.len() - 1 {
                assert(s1[k] == y);
                assert(s1.contains(y));
            }
        }
        let k = choose|k: int| 0 <= k < s.len() && s[k] == x;
        if k < s.len() - 1 {
            assert(s1[k] == x);
            assert(s1.contains(x));
        }
        assert(l < i);
    }
}

/// A rollback only ever restores an existing snapshot, never one newer
/// than requested, and in strict mode exactly the requested one.
pub proof fn rollback_target_is_existing(s: Seq<u64>, idx: Option<u64>, strict: bool)
    ensures
        rollback_target_spec(s, idx, strict) matches Ok(t) ==> {
            &&& s.contains(t)
            &&& (idx matches Some(i) ==> t <= i)
            &&& (strict ==> (idx matches Some(i) ==> t == i))
            &&& (idx is None ==> t == s.last())
        },
{
    if s.len() > 0 {
        assert(s.contains(s.last())) by {
            assert(s[s.len() - 1] == s.last());
        }
        if let Some(i) = idx {
            if !s.contains(i) && !strict && has_below(s, i) {
                lemma_greatest_below_exists(s, i);
            }
        }
    }
}

/// A lax rollback restores the newest snapshot not newer than requested,
/// and fails only when there is none; a rollback without a target restores
/// the newest of a sorted listing.
pub proof fn rollback_target_is_newest_fit(s: Seq<u64>, idx: Option<u64>, strict: bool)
    requires
        crate::driver::sorted_asc(s),
    ensures
        rollback_target_spec(s, idx, strict) matches Ok(t) ==> (idx matches Some(i) ==> forall|x: u64|
            s.contains(x) && x <= i ==> x <= t),
        rollback_target_spec(s, idx, strict) matches Ok(t) ==> (idx is None ==> forall|x: u64|
            s.contains(x) ==> x <= t),
        idx matches Some(i) ==> ((!strict && exists|x: u64| s.contains(x) && x <= i)
            ==> rollback_target_spec(s, idx, strict) is Ok),
{
    match idx {
        None => {
            if s.len() > 0 {
                assert forall|x: u64| s.contains(x) implies x <= s.last() by {
                    let j = choose|j: int| 0 <= j < s.len() && s[j] == x;
                    assert(s[j] <= s[s.len() - 1]);
                }
            }
        },
        Some(i) => {
            if s.len() == 0 {
                assert(!(exists|x: u64| s.contains(x) && x <= i));
            } else if s.contains(i) {
            } else if strict {
            } else if has_below(s, i) {
                lemma_greatest_below_exists(s, i);
                let g = greatest_below(s, i);
                assert(s.contains(g) && g < i && forall|y: u64| s.contains(y) && y < i ==> y <= g);
                assert forall|x: u64| s.contains(x) && x <= i implies x <= g by {
                    assert(x != i);
                }
            } else {
                assert forall|x: u64| !(s.contains(x) && x <= i) by {
                    if s.contains(x) && x <= i {
                        assert(x != i);
                        assert(has_below(s, i));
                    }
                }
            }
        },
    }
}

proof fn lemma_trim_noop(s: Seq<char>)
    requires
        s.len() > 0,
        !is_ws(s[0]),
        !is_ws(s.last()),
    ensures
        trim(s) == s,
{
    assert(trim_start(s) == s);
    assert(trim_end(s) == s);
}

/// A volume that passes the check holds no whitespace, so the words of a
/// command built from it stay apart.
pub proof fn valid_volume_has_no_ws(v: Seq<char>)
    requires
        volume_check(v) is Ok,
    ensures
        forall|i: int| 0 <= i < v.len() ==> !is_ws(#[trigger] v[i]),
{
    assert forall|i: int| 0 <= i < v.len() implies !is_ws(#[trigger] v[i]) by {
        assert(volume_char_ok(v[i]));
    }
}

/// The zfs listing reads back the index of every snapshot that
/// `create_snapshot_cmd` names: `<volume>@<idx>` parses as `idx`.
pub proof fn zfs_name_roundtrip(v: Seq<char>, idx: u64)
    requires
        volume_check(v) is Ok,
    ensures
        zfs::parse_line(v, zfs::snap_name(v, idx)) == Some(idx),
{
    reveal_strlit("@");
    let d = decimal(idx as nat);
    lemma_decimal_roundtrip(idx as nat);
    lemma_parse_decimal(idx);
    let n = zfs::snap_name(v, idx);
    assert(n =~= v.push('@') + d);
    valid_volume_has_no_ws(v);
    assert(n[0] == v[0]);
    assert(is_digit(d[d.len() - 1]));
    assert(n.last() == d[d.len() - 1]);
    lemma_trim_noop(n);
    assert(n.take(v.len() as int + 1) =~= v.push('@'));
    assert(starts_with(n, v.push('@')));
    assert(n.skip(v.len() as int + 1) =~= d);
}

proof fn lemma_after_last_concat(a: Seq<char>, b: Seq<char>, c: char)
    requires
        forall|i: int| 0 <= i < b.len() ==> b[i] != c,
    ensures
        after_last(a + b, c) == after_last(a, c) + b,
    decreases b.len(),
{
    if b.len() == 0 {
        assert(a + b =~= a);
        assert(after_last(a, c) + b =~= after_last(a, c));
    } else {
        let b1 = b.drop_last();
        lemma_after_last_concat(a, b1, c);
        assert((a + b).drop_last() =~= a + b1);
        assert((a + b).last() == b.last());
        assert(after_last(a, c) + b =~= (after_last(a, c) + b1).push(b.last()));
    }
}

proof fn lemma_after_last_excludes(s: Seq<char>, c: char)
    ensures
        forall|i: int| 0 <= i < after_last(s, c).len() ==> #[trigger] after_last(s, c)[i] != c,
        forall|i: int| 0 <= i < after_last(s, c).len() ==> s.contains(#[trigger] after_last(s, c)[i]),
    decreases s.len(),
{
    if s.len() > 0 && s.last() != c {
        let s1 = s.drop_last();
        lemma_after_last_excludes(s1, c);
        let a = after_last(s, c);
        assert(a == after_last(s1, c).push(s.last()));
        assert forall|i: int| 0 <= i < a.len() implies s.contains(#[trigger] a[i]) by {
            if i < a.len() - 1 {
                assert(a[i] == after_last(s1, c)[i]);
                assert(s1.contains(a[i]));
                let k = choose|k: int| 0 <= k < s1.len() && s1[k] == a[i];
                assert(s[k] == a[i]);
            } else {
                assert(s[s.len() - 1] == a[i]);
            }
        }
    }
}

proof fn lemma_strip_slashes_prefix(s: Seq<char>)
    ensures
        forall|i: int| 0 <= i < strip_slashes(s).len() ==> s.contains(#[trigger] strip_slashes(s)[i]),
    decreases s.len(),
{
    if s.len() > 0 && s.last() == '/' {
        let s1 = s.drop_last();
        lemma_strip_slashes_prefix(s1);
        assert forall|i: int| 0 <= i < strip_slashes(s).len() implies s.contains(#[trigger] strip_slashes(s)[i]) by {
            assert(s1.contains(strip_slashes(s1)[i]));
            let k = choose|k: int| 0 <= k < s1.len() && s1[k] == strip_slashes(s1)[i];
            assert(s[k] == s1[k]);
        }
    } else {
        assert forall|i: int| 0 <= i < strip_slashes(s).len() implies s.contains(#[trigger] strip_slashes(s)[i]) by {
            assert(s[i] == strip_slashes(s)[i]);
        }
    }
}

proof fn lemma_trim_start_concat(h: Seq<char>, n: Seq<char>)
    requires
        n.len() > 0,
        !is_ws(n[0]),
    ensures
        trim_start(h + n) == trim_start(h) + n,
        trim_start(h).len() > 0 ==> trim_start(h).last() == h.last(),
    decreases h.len(),
{
    if h.len() == 0 {
        assert(h + n =~= n);
        assert(trim_start(h) + n =~= n);
    } else if is_ws(h[0]) {
        lemma_trim_start_concat(h.drop_first(), n);
        assert((h + n).drop_first() =~= h.drop_first() + n);
        assert((h + n)[0] == h[0]);
    } else {
        assert((h + n)[0] == h[0]);
    }
}

/// A btrfs listing line whose path ends in `<basename>@<idx>`, as a line of
/// `btrfs subvolume list` does for the snapshots that
/// `create_snapshot_cmd` makes, reads back as `idx`.
pub proof fn btrfs_name_roundtrip(v: Seq<char>, head: Seq<char>, idx: u64)
    requires
        volume_check(v) is Ok,
        head.len() == 0 || head.last() == ' ' || head.last() == '/',
    ensures
        btrfs::parse_line(v, head + btrfs::base_name(v) + "@"@ + decimal(idx as nat)) == Some(idx),
{
    reveal_strlit("@");
    let base = btrfs::base_name(v);
    let d = decimal(idx as nat);
    lemma_decimal_roundtrip(idx as nat);
    lemma_parse_decimal(idx);
    let name = base.push('@') + d;
    assert(head + base + "@"@ + d =~= head + name);
    valid_volume_has_no_ws(v);
    lemma_strip_slashes_prefix(v);
    lemma_after_last_excludes(strip_slashes(v), '/');
    // no character of the name is a space or a slash, and none is whitespace
    assert forall|i: int| 0 <= i < name.len() implies name[i] != ' ' && name[i] != '/' && !is_ws(
        #[trigger] name[i],
    ) by {
        if i < base.len() {
            assert(name[i] == base[i]);
            assert(strip_slashes(v).contains(base[i]));
            let k = choose|k: int| 0 <= k < strip_slashes(v).len() && strip_slashes(v)[k] == base[i];
            assert(v.contains(strip_slashes(v)[k]));
            let m = choose|m: int| 0 <= m < v.len() && v[m] == strip_slashes(v)[k];
            assert(volume_char_ok(v[m]));
        } else if i == base.len() {
            assert(name[i] == '@');
        } else {
            assert(name[i] == d[i - base.len() - 1]);
            assert(is_digit(d[i - base.len() - 1]));
        }
    }
    let line = head + name;
    lemma_trim_start_concat(head, name);
    let x = trim_start(head);
    assert(x + name == trim_start(line));
    assert(trim(line) == x + name) by {
        assert((x + name).last() == name.last());
        assert(!is_ws(name[name.len() - 1]));
    }
    lemma_after_last_concat(x, name, ' ');
    lemma_after_last_concat(Seq::<char>::empty(), name, '/');
    assert(Seq::<char>::empty() + name =~= name);
    let a = after_last(x, ' ');
    if x.len() == 0 {
        assert(a.len() == 0);
        assert(a + name =~= name);
    } else if x.last() == ' ' {
        assert(a.len() == 0);
        assert(a + name =~= name);
    } else {
        assert(x.last() == '/');
        assert(a == after_last(x.drop_last(), ' ').push('/'));
        lemma_after_last_concat(a, name, '/');
        assert(after_last(a, '/').len() == 0);
        assert(after_last(a, '/') + name =~= name);
    }
    assert(after_last(after_last(trim(line), ' '), '/') == name);
    assert(name.take(base.len() as int + 1) =~= base.push('@'));
    assert(name.skip(base.len() as int + 1) =~= d);
}

proof fn lemma_unaligned_contains(c: Seq<u64>, d: int, m: int)
    requires
        0 <= m < c.len(),
        !aligned(c[m], d),
    ensures
        unaligned(c, d).contains(c[m]),
    decreases c.len(),
{
    let u1 = unaligned(c.drop_last(), d);
    if m == c.len() - 1 {
        assert(unaligned(c, d) == u1.push(c.last()));
        assert(unaligned(c, d)[u1.len() as int] == c[m]);
    } else {
        lemma_unaligned_contains(c.drop_last(), d, m);
        assert(c.drop_last()[m] == c[m]);
        let k = choose|k: int| 0 <= k < u1.len() && u1[k] == c[m];
        if aligned(c.last(), d) {
            assert(unaligned(c, d) == u1);
        } else {
            assert(unaligned(c, d) == u1.push(c.last()));
            assert(unaligned(c, d)[k] == c[m]);
        }
    }
}

proof fn lemma_unaligned_from(c: Seq<u64>, d: int, x: u64)
    requires
        unaligned(c, d).contains(x),
    ensures
        exists|m: int| 0 <= m < c.len() && c[m] == x && !aligned(c[m], d),
    decreases c.len(),
{
    let u1 = unaligned(c.drop_last(), d);
    if c.len() > 0 {
        if u1.contains(x) {
            lemma_unaligned_from(c.drop_last(), d, x);
            let m = choose|m: int| 0 <= m < c.drop_last().len() && c.drop_last()[m] == x && !aligned(
                c.drop_last()[m],
                d,
            );
            assert(c[m] == x);
        } else {
            assert(!aligned(c.last(), d));
            assert(unaligned(c, d) == u1.push(c.last()));
            let k = choose|k: int| 0 <= k < u1.push(c.last()).len() && u1.push(c.last())[k] == x;
            if k < u1.len() {
                assert(u1[k] == x);
            }
            assert(c[c.len() - 1] == x);
        }
    }
}

/// Position `j` of `s` lies in chunk `n` as `chunk` cuts it.
pub open spec fn in_chunk_of(s: Seq<u64>, cs: int, n: int, j: int) -> bool {
    min(n * cs, s.len() as int) <= j < min((n + 1) * cs, s.len() as int)
}

/// Position `i` lies in chunk `n` of chunks `cs` long.
pub open spec fn in_chunk(i: int, n: int, cs: int) -> bool {
    n * cs <= i < (n + 1) * cs
}

proof fn lemma_thinned_contains(s: Seq<u64>, itv: int, cs: int, k: nat, n: nat, i: int)
    requires
        cs >= 0,
        n < k,
        0 <= i < s.len(),
        in_chunk(i, n as int, cs),
        !aligned(s[i], pow(itv, n + 1)),
    ensures
        thinned(s, itv, cs, k).contains(s[i]),
    decreases k,
{
    let t1 = thinned(s, itv, cs, (k - 1) as nat);
    let lo = min((k - 1) * cs, s.len() as int);
    let hi = min(k * cs, s.len() as int);
    assert(0 <= (k - 1) * cs <= k * cs) by (nonlinear_arith)
        requires
            k >= 1,
            cs >= 0,
    ;
    let c = chunk(s, cs, k - 1);
    assert(c == s.subrange(lo, hi));
    let u = unaligned(c, pow(itv, k));
    assert(thinned(s, itv, cs, k) == t1 + u);
    if n == k - 1 {
        assert(lo == n * cs);
        assert(c[i - lo] == s[i]);
        lemma_unaligned_contains(c, pow(itv, k), i - lo);
        let j = choose|j: int| 0 <= j < u.len() && u[j] == s[i];
        assert((t1 + u)[t1.len() + j] == s[i]);
    } else {
        lemma_thinned_contains(s, itv, cs, (k - 1) as nat, n, i);
        let j = choose|j: int| 0 <= j < t1.len() && t1[j] == s[i];
        assert((t1 + u)[j] == s[i]);
    }
}

proof fn lemma_thinned_from(s: Seq<u64>, itv: int, cs: int, k: nat, x: u64)
    requires
        cs >= 0,
        thinned(s, itv, cs, k).contains(x),
    ensures
        exists|n: int, j: int|
            0 <= n < k && 0 <= j < s.len() && #[trigger] in_chunk_of(s, cs, n, j) && s[j] == x
                && !aligned(s[j], pow(itv, (n + 1) as nat)),
    decreases k,
{
    if k == 0 {
        assert(thinned(s, itv, cs, k).len() == 0);
    } else {
        let t1 = thinned(s, itv, cs, (k - 1) as nat);
        let lo = min((k - 1) * cs, s.len() as int);
        let hi = min(k * cs, s.len() as int);
        assert(0 <= (k - 1) * cs <= k * cs) by (nonlinear_arith)
            requires
                k >= 1,
                cs >= 0,
        ;
        let c = chunk(s, cs, k - 1);
        assert(c == s.subrange(lo, hi));
        let u = unaligned(c, pow(itv, k));
        assert(thinned(s, itv, cs, k) == t1 + u);
        let a = choose|a: int| 0 <= a < (t1 + u).len() && (t1 + u)[a] == x;
        if a < t1.len() {
            assert(t1[a] == x);
            lemma_thinned_from(s, itv, cs, (k - 1) as nat, x);
            let (n, j) = choose|n: int, j: int|
                0 <= n < k - 1 && 0 <= j < s.len() && #[trigger] in_chunk_of(s, cs, n, j) && s[j] == x
                    && !aligned(s[j], pow(itv, (n + 1) as nat));
            assert(0 <= n < k);
            assert(in_chunk_of(s, cs, n, j));
        } else {
            assert(u[a - t1.len()] == x);
            lemma_unaligned_from(c, pow(itv, k), x);
            let m = choose|m: int| 0 <= m < c.len() && c[m] == x && !aligned(c[m], pow(itv, k));
            assert(s[lo + m] == x);
            let n = k - 1;
            assert(in_chunk_of(s, cs, n, lo + m));
            assert(!aligned(s[lo + m], pow(itv, (n + 1) as nat)));
        }
    }
}

/// Fade retention thins as soon as the listing holds more than one chunk,
/// whether or not it exceeds `cap`: with `cs = cap / STEP_CNT`, every
/// snapshot in chunk `n < STEP_CNT` (positions `n * cs .. (n + 1) * cs`)
/// that is off the grid of interval `itv^(n + 1)` is deleted.
pub proof fn fade_thins_every_chunk(s: Seq<u64>, itv: u64, cap: nat, n: nat, i: int)
    requires
        itv >= 1,
        s.len() > cap / STEP_CNT as nat,
        n < STEP_CNT,
        0 <= i < s.len(),
        n * (cap / STEP_CNT as nat) <= i < (n + 1) * (cap / STEP_CNT as nat),
        (u64::MAX - s[i]) % pow(itv as int, n + 1) != 0,
    ensures
        fade_spec(s, itv as int, cap as int).contains(s[i]),
{
    let cs = cap as int / STEP_CNT as int;
    lemma_pow_positive(itv as int, n + 1);
    assert(!aligned(s[i], pow(itv as int, n + 1)));
    lemma_thinned_contains(s, itv as int, cs, STEP_CNT as nat, n, i);
    let t = thinned(s, itv as int, cs, STEP_CNT as nat);
    let f = fair_spec(s, cap as int);
    let j = choose|j: int| 0 <= j < t.len() && t[j] == s[i];
    assert((t + f)[j] == s[i]);
}

/// On a listing read newest first without duplicates, fade retention keeps
/// every snapshot of chunk `n < STEP_CNT` that is on the grid of interval
/// `itv^(n + 1)`.
pub proof fn fade_keeps_aligned(s: Seq<u64>, itv: u64, cap: nat, n: nat, i: int)
    requires
        strictly_desc(s),
        itv >= 1,
        n < STEP_CNT,
        0 <= i < s.len(),
        n * (cap / STEP_CNT as nat) <= i < (n + 1) * (cap / STEP_CNT as nat),
        (u64::MAX - s[i]) % pow(itv as int, n + 1) == 0,
    ensures
        !fade_spec(s, itv as int, cap as int).contains(s[i]),
{
    let cs = cap as int / STEP_CNT as int;
    assert((n + 1) * cs <= STEP_CNT as int * cs) by (nonlinear_arith)
        requires
            n < STEP_CNT,
            cs >= 0,
    ;
    assert(STEP_CNT as int * cs <= cap);
    if 1 + cs <= s.len() {
        let t = thinned(s, itv as int, cs, STEP_CNT as nat);
        let f = fair_spec(s, cap as int);
        if (t + f).contains(s[i]) {
            let a = choose|a: int| 0 <= a < (t + f).len() && (t + f)[a] == s[i];
            if a < t.len() {
                assert(t[a] == s[i]);
                lemma_thinned_from(s, itv as int, cs, STEP_CNT as nat, s[i]);
                let (m, j) = choose|m: int, j: int|
                    0 <= m < STEP_CNT && 0 <= j < s.len() && #[trigger] in_chunk_of(s, cs, m, j)
                        && s[j] == s[i] && !aligned(s[j], pow(itv as int, (m + 1) as nat));
                if j < i {
                    assert(s[j] > s[i]);
                } else if j > i {
                    assert(s[i] > s[j]);
                }
                assert(j == i);
                assert(m * cs <= i < (m + 1) * cs);
                assert(m == n) by (nonlinear_arith)
                    requires
                        m * cs <= i < (m + 1) * cs,
                        n * cs <= i < (n + 1) * cs,
                        cs >= 0,
                        m >= 0,
                        n >= 0,
                ;
                lemma_pow_positive(itv as int, n + 1);
            } else {
                let k = cap + a - t.len();
                assert(f[a - t.len()] == s[k]);
                assert(s[k] == s[i]);
                if k > i {
                    assert(s[i] > s[k]);
                }
            }
        }
    }
}

/// A volume name is accepted exactly when it is non-empty, does not start
/// with `-`, and consists of ASCII letters of either case, ASCII digits,
/// `/`, `-`, `_` and `.`.
pub proof fn volume_names_accepted(v: Seq<char>)
    ensures
        volume_check(v) is Ok <==> (v.len() > 0 && v[0] != '-' && forall|i: int|
            0 <= i < v.len() ==> {
                let c = #[trigger] v[i];
                ||| ('a' <= c && c <= 'z')
                ||| ('A' <= c && c <= 'Z')
                ||| ('0' <= c && c <= '9')
                ||| c == '/' || c == '-' || c == '_' || c == '.'
            }),
{
    if v.len() > 0 && v[0] != '-' {
        assert((forall|i: int| 0 <= i < v.len() ==> volume_char_ok(#[trigger] v[i])) <==> (forall|i: int|
            0 <= i < v.len() ==> {
                let c = #[trigger] v[i];
                ||| ('a' <= c && c <= 'z')
                ||| ('A' <= c && c <= 'Z')
                ||| ('0' <= c && c <= '9')
                ||| c == '/' || c == '-' || c == '_' || c == '.'
            }));
    }
}

/// An ASCII letter, of either case.
pub open spec fn is_ascii_letter(c: char) -> bool {
    ('a' <= c && c <= 'z') || ('A' <= c && c <= 'Z')
}

/// The verdict on a volume name does not depend on which ASCII letters it
/// holds, nor on their case: swapping any letter for any other letter,
/// upper or lower case, keeps it.
pub proof fn volume_check_ignores_letters(v: Seq<char>, w: Seq<char>)
    requires
        v.len() == w.len(),
        forall|i: int| 0 <= i < v.len() ==> #[trigger] w[i] == v[i] || (is_ascii_letter(v[i]) && is_ascii_letter(w[i])),
    ensures
        volume_check(v) == volume_check(w),
{
    assert forall|i: int| 0 <= i < v.len() implies volume_char_ok(#[trigger] v[i]) == volume_char_ok(w[i]) by {
        if w[i] != v[i] {
            assert(is_ascii_letter(v[i]) && is_ascii_letter(w[i]));
        }
    }
    if v.len() > 0 {
        assert(v[0] == '-' <==> w[0] == '-') by {
            if w[0] != v[0] {
                assert(is_ascii_letter(v[0]) && is_ascii_letter(w[0]));
            }
        }
        if !(forall|i: int| 0 <= i < v.len() ==> volume_char_ok(#[trigger] v[i])) {
            let i = choose|i: int| 0 <= i < v.len() && !volume_char_ok(v[i]);
            assert(!volume_char_ok(w[i]));
        }
        if !(forall|i: int| 0 <= i < w.len() ==> volume_char_ok(#[trigger] w[i])) {
            let i = choose|i: int| 0 <= i < w.len() && !volume_char_ok(w[i]);
            assert(!volume_char_ok(v[i]));
        }
    }
}

/// Mode names read back as their mode.
pub proof fn mode_name_roundtrip(m: SnapMode)
    ensures
        mode_of_name(mode_name(m)) == Some(m),
{
    reveal_strlit("Zfs");
    reveal_strlit("zfs");
    reveal_strlit("Btrfs");
    reveal_strlit("btrfs");
    reveal_strlit("External");
    reveal_strlit("external");
}

/// Algorithm names read back as their algorithm.
pub proof fn algo_name_roundtrip(a: SnapAlgo)
    ensures
        algo_of_name(algo_name(a)) == Some(a),
{
    reveal_strlit("Fair");
    reveal_strlit("fair");
    reveal_strlit("Fade");
    reveal_strlit("fade");
    assert(!crate::folds_to("Fade"@[2], "fair"@[2]));
}

} // verus!
