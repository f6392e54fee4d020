//! The decisions shared by both drivers: which index gets a snapshot,
//! which snapshots go, and which one a rollback restores.

pub mod btrfs;
pub mod zfs;

use vstd::prelude::*;
use vstd::arithmetic::power::pow;
use vstd::arithmetic::power::lemma_pow_increases;
use vstd::arithmetic::power::lemma_pow0;

use crate::driver::btrfs::Btrfs;
use crate::driver::zfs::Zfs;
use crate::error::BtmError;
use crate::text::chars_of;
use crate::{cap_of, params_check, BtmCfg, SnapAlgo, STEP_CNT};

verus! {

/// `idx` lies on the snapshot grid of interval `itv`, anchored at
/// `u64::MAX` (for `itv == 0`, only `u64::MAX` itself).
pub open spec fn aligned(idx: u64, itv: int) -> bool {
    if itv == 0 {
        idx == u64::MAX
    } else {
        (u64::MAX - idx) % itv == 0
    }
}

/// Return `true` if the index is aligned to the snapshot interval.
///
/// The counter is anchored at `u64::MAX` instead of zero so that
/// larger `itv` values keep firing on the same phase regardless of
/// where the index sequence started.
pub fn idx_aligned(idx: u64, itv: u64) -> (r: bool)
    ensures
        r == aligned(idx, itv as int),
{
    if itv == 0 {
        idx == u64::MAX
    } else {
        (u64::MAX - idx) % itv == 0
    }
}

/// The snapshots beyond the newest `cap` of `s`.
pub open spec fn fair_spec(s: Seq<u64>, cap: int) -> Seq<u64> {
    if cap < s.len() {
        s.skip(cap)
    } else {
        Seq::empty()
    }
}

/// Keep the newest `cap` snapshots, return the rest for deletion.
pub fn fair_to_delete(snaps_desc: &[u64], cap: usize) -> (r: &[u64])
    ensures
        r@ == fair_spec(snaps_desc@, cap as int),
{
    let n = snaps_desc.len();
    if cap < n {
        let (_, rest) = snaps_desc.split_at(cap);
        rest
    } else {
        let (_, rest) = snaps_desc.split_at(n);
        rest
    }
}

pub open spec fn min(a: int, b: int) -> int {
    if a <= b { a } else { b }
}

/// Chunk `n` (counted from the newest) of `s`, chunks being `cs` long.
pub open spec fn chunk(s: Seq<u64>, cs: int, n: int) -> Seq<u64> {
    s.subrange(min(n * cs, s.len() as int), min((n + 1) * cs, s.len() as int))
}

/// The elements of `c` not aligned to `d`, in order.
pub open spec fn unaligned(c: Seq<u64>, d: int) -> Seq<u64>
    decreases c.len(),
{
    if c.len() == 0 {
        Seq::empty()
    } else if aligned(c.last(), d) {
        unaligned(c.drop_last(), d)
    } else {
        unaligned(c.drop_last(), d).push(c.last())
    }
}

/// The snapshots that the first `k` chunks give up: chunk `n` keeps only
/// the indexes aligned to `itv^(n + 1)`.
pub open spec fn thinned(s: Seq<u64>, itv: int, cs: int, k: nat) -> Seq<u64>
    decreases k,
{
    if k == 0 {
        Seq::empty()
    } else {
        thinned(s, itv, cs, (k - 1) as nat) + unaligned(chunk(s, cs, k - 1), pow(itv, k))
    }
}

/// What the `Fade` algorithm deletes from `s` (newest first).
pub open spec fn fade_spec(s: Seq<u64>, itv: int, cap: int) -> Seq<u64> {
    let cs = cap / STEP_CNT as int;
    if 1 + cs > s.len() {
        Seq::empty()
    } else {
        thinned(s, itv, cs, STEP_CNT as nat) + fair_spec(s, cap)
    }
}

/// Fade retention: split the newest snapshots into `STEP_CNT` chunks of
/// `cap / STEP_CNT`; chunk `n` only keeps snapshots aligned to
/// `itv^(1 + n)`, so density decreases exponentially with age.
/// Everything beyond `cap` is deleted unconditionally.
///
/// When `cap < STEP_CNT`, `chunk_size` is zero and fade degenerates to the
/// plain cap trim.
pub fn fade_to_delete(snaps_desc: &[u64], itv: u64, cap: usize) -> (r: Vec<u64>)
    requires
        pow(itv as int, STEP_CNT as nat) <= u64::MAX,
    ensures
        r@ == fade_spec(snaps_desc@, itv as int, cap as int),
{
    let len = snaps_desc.len();
    let cs = cap / STEP_CNT;
    if 1 + cs > len {
        return Vec::new();
    }
    let ghost s = snaps_desc@;
    let mut to_del: Vec<u64> = Vec::new();
    let mut start: usize = 0;
    let mut denom: u64 = 1;
    let mut n: usize = 0;
    proof {
        lemma_pow0(itv as int);
    }
    while n < STEP_CNT
        invariant
            s == snaps_desc@,
            len == s.len(),
            cs == cap / STEP_CNT,
            n <= STEP_CNT,
            start as int == min(n * cs, len as int),
            denom as int == pow(itv as int, n as nat),
            to_del@ == thinned(s, itv as int, cs as int, n as nat),
            pow(itv as int, STEP_CNT as nat) <= u64::MAX,
        decreases STEP_CNT - n,
    {
        proof {
            reveal(pow);
            if itv > 0 {
                lemma_pow_increases(itv as nat, (n + 1) as nat, STEP_CNT as nat);
            }
            assert(pow(itv as int, (n + 1) as nat) == itv * pow(itv as int, n as nat));
            assert((n + 1) * cs == n * cs + cs) by (nonlinear_arith);
            assert(0 <= n * cs) by (nonlinear_arith)
                requires
                    0 <= n,
                    0 <= cs,
            ;
        }
        denom = denom * itv;
        let end = if cs < len - start {
            start + cs
        } else {
            len
        };
        assert(end as int == min((n + 1) * cs, len as int));
        let ghost base = to_del@;
        let mut j: usize = start;
        while j < end
            invariant
                s == snaps_desc@,
                len == s.len(),
                start <= j <= end <= len,
                to_del@ == base + unaligned(s.subrange(start as int, j as int), denom as int),
            decreases end - j,
        {
            let x = snaps_desc[j];
            assert(s.subrange(start as int, j + 1).drop_last() =~= s.subrange(start as int, j as int));
            if !idx_aligned(x, denom) {
                to_del.push(x);
            }
            assert(to_del@ =~= base + unaligned(s.subrange(start as int, j + 1), denom as int));
            j = j + 1;
        }
        assert(to_del@ == thinned(s, itv as int, cs as int, (n + 1) as nat));
        start = end;
        n = n + 1;
    }
    let rest = fair_to_delete(snaps_desc, cap);
    to_del.extend_from_slice(rest);
    to_del
}

pub open spec fn sorted_asc(s: Seq<u64>) -> bool {
    forall|i: int, j: int| 0 <= i <= j < s.len() ==> s[i] <= s[j]
}

/// Some snapshot of `s` is older than `i`.
pub open spec fn has_below(s: Seq<u64>, i: u64) -> bool {
    exists|x: u64| s.contains(x) && x < i
}

/// The newest snapshot of `s` older than `i` (meaningful when `has_below`).
pub open spec fn greatest_below(s: Seq<u64>, i: u64) -> u64 {
    choose|t: u64| s.contains(t) && t < i && forall|x: u64| s.contains(x) && x < i ==> x <= t
}

/// Which snapshot a rollback to `idx` restores:
/// - no snapshots => error
/// - `None` => the latest snapshot
/// - `Some(i)`, exact match => that snapshot
/// - `Some(i)`, no exact match, strict => error
/// - `Some(i)`, no exact match, lax => the newest snapshot older than `i`,
///   or an error when every snapshot is newer
pub open spec fn rollback_target_spec(s: Seq<u64>, idx: Option<u64>, strict: bool) -> Result<
    u64,
    BtmError,
> {
    if s.len() == 0 {
        Err(BtmError::NoSnapshots)
    } else {
        match idx {
            None => Ok(s.last()),
            Some(i) => if s.contains(i) {
                Ok(i)
            } else if strict {
                Err(BtmError::HeightNotFound)
            } else if has_below(s, i) {
                Ok(greatest_below(s, i))
            } else {
                Err(BtmError::AllSnapshotsNewer)
            },
        }
    }
}

/// What the lower bound `lo` of `i` in the sorted `s` tells of `i`.
proof fn lemma_lower_bound(s: Seq<u64>, i: u64, lo: int)
    requires
        sorted_asc(s),
        0 <= lo <= s.len(),
        forall|j: int| 0 <= j < lo ==> s[j] < i,
        forall|j: int| lo <= j < s.len() ==> s[j] >= i,
    ensures
        s.contains(i) <==> (lo < s.len() && s[lo] == i),
        has_below(s, i) <==> lo > 0,
        lo > 0 ==> greatest_below(s, i) == s[lo - 1],
{
    if s.contains(i) {
        let j = choose|j: int| 0 <= j < s.len() && s[j] == i;
        assert(j >= lo);
        assert(s[lo] <= s[j]);
    }
    if lo < s.len() && s[lo] == i {
        assert(s.contains(i));
    }
    if has_below(s, i) {
        let x = choose|x: u64| s.contains(x) && x < i;
        let j = choose|j: int| 0 <= j < s.len() && s[j] == x;
        assert(j < lo);
    }
    if lo > 0 {
        let t = s[lo - 1];
        assert(s.contains(t));
        assert(has_below(s, i));
        assert forall|x: u64| s.contains(x) && x < i implies x <= t by {
            let j = choose|j: int| 0 <= j < s.len() && s[j] == x;
            assert(j < lo);
            assert(s[j] <= s[lo - 1]);
        }
        let g = greatest_below(s, i);
        assert(s.contains(g) && g < i && forall|x: u64| s.contains(x) && x < i ==> x <= g);
        assert(g <= t && t <= g);
    }
}

/// Select the snapshot to roll back to, among snapshots sorted in
/// ascending order (see `rollback_target_spec`).
pub fn rollback_target(snaps_asc: &[u64], idx: Option<u64>, strict: bool) -> (r: Result<u64, BtmError>)
    requires
        sorted_asc(snaps_asc@),
    ensures
        r == rollback_target_spec(snaps_asc@, idx, strict),
{
    let len = snaps_asc.len();
    if len == 0 {
        return Err(BtmError::NoSnapshots);
    }
    let i = match idx {
        Some(i) => i,
        None => return Ok(snaps_asc[len - 1]),
    };
    let ghost s = snaps_asc@;
    // lower bound: the first position whose snapshot is not older than `i`
    let mut lo: usize = 0;
    let mut hi: usize = len;
    while lo < hi
        invariant
            s == snaps_asc@,
            sorted_asc(s),
            len == s.len(),
            lo <= hi <= len,
            forall|j: int| 0 <= j < lo ==> s[j] < i,
            forall|j: int| hi <= j < len ==> s[j] >= i,
        decreases hi - lo,
    {
        let mid = lo + (hi - lo) / 2;
        if snaps_asc[mid] < i {
            lo = mid + 1;
        } else {
            hi = mid;
        }
    }
    proof {
        lemma_lower_bound(s, i, lo as int);
    }
    if lo < len && snaps_asc[lo] == i {
        return Ok(i);
    }
    if strict {
        return Err(BtmError::HeightNotFound);
    }
    if lo == 0 {
        return Err(BtmError::AllSnapshotsNewer);
    }
    Ok(snaps_asc[lo - 1])
}

/// The filesystem whose tooling carries the snapshots.
#[derive(Clone, Copy, Debug, PartialEq, Eq, Structural)]
pub enum Fs {
    Zfs,
    Btrfs,
}

pub open spec fn list_cmd(fs: Fs, volume: Seq<char>) -> Seq<char> {
    match fs {
        Fs::Zfs => zfs::list_cmd(volume),
        Fs::Btrfs => btrfs::list_cmd(volume),
    }
}

pub open spec fn parse_line(fs: Fs, volume: Seq<char>, line: Seq<char>) -> Option<u64> {
    match fs {
        Fs::Zfs => zfs::parse_line(volume, line),
        Fs::Btrfs => btrfs::parse_line(volume, line),
    }
}

pub open spec fn create_cmd(fs: Fs, volume: Seq<char>, idx: u64) -> Seq<char> {
    match fs {
        Fs::Zfs => zfs::create_cmd(volume, idx),
        Fs::Btrfs => btrfs::create_cmd(volume, idx),
    }
}

pub open spec fn rollback_cmd(fs: Fs, volume: Seq<char>, idx: u64) -> Seq<char> {
    match fs {
        Fs::Zfs => zfs::rollback_cmd(volume, idx),
        Fs::Btrfs => btrfs::rollback_cmd(volume, idx),
    }
}

pub open spec fn destroy_cmd(fs: Fs, volume: Seq<char>, idx: u64) -> Seq<char> {
    match fs {
        Fs::Zfs => zfs::destroy_cmd(volume, idx),
        Fs::Btrfs => btrfs::destroy_cmd(volume, idx),
    }
}

pub open spec fn check_cmd(fs: Fs, volume: Seq<char>) -> Seq<char> {
    match fs {
        Fs::Zfs => zfs::check_cmd(volume),
        Fs::Btrfs => btrfs::check_cmd(volume),
    }
}

/// The prefix that `parse_line` looks for.
pub open spec fn line_prefix(fs: Fs, volume: Seq<char>) -> Seq<char> {
    match fs {
        Fs::Zfs => volume.push('@'),
        Fs::Btrfs => btrfs::base_name(volume).push('@'),
    }
}

/// Shell command that lists snapshots of the target volume, one raw entry
/// per line (parsed by `parse_line`).
pub fn list_snapshots_cmd(fs: Fs, cfg: &BtmCfg) -> (r: String)
    ensures
        r@ == list_cmd(fs, cfg.volume@),
{
    match fs {
        Fs::Zfs => Zfs::list_snapshots_cmd(cfg),
        Fs::Btrfs => Btrfs::list_snapshots_cmd(cfg),
    }
}

/// Shell command to create a snapshot at the given index.
pub fn create_snapshot_cmd(fs: Fs, volume: &str, idx: u64) -> (r: String)
    ensures
        r@ == create_cmd(fs, volume@, idx),
{
    match fs {
        Fs::Zfs => Zfs::create_snapshot_cmd(volume, idx),
        Fs::Btrfs => Btrfs::create_snapshot_cmd(volume, idx),
    }
}

/// Shell command to roll back to the given snapshot index.
pub fn snapshot_rollback_cmd(fs: Fs, volume: &str, idx: u64) -> (r: String)
    ensures
        r@ == rollback_cmd(fs, volume@, idx),
{
    match fs {
        Fs::Zfs => Zfs::rollback_cmd(volume, idx),
        Fs::Btrfs => Btrfs::rollback_cmd(volume, idx),
    }
}

/// Shell command to destroy a single snapshot.
pub fn snapshot_destroy_cmd(fs: Fs, volume: &str, idx: u64) -> (r: String)
    ensures
        r@ == destroy_cmd(fs, volume@, idx),
{
    match fs {
        Fs::Zfs => Zfs::destroy_cmd(volume, idx),
        Fs::Btrfs => Btrfs::destroy_cmd(volume, idx),
    }
}

/// Read-only shell command that succeeds iff the volume exists and is
/// managed by this driver.
pub fn check_volume_cmd(fs: Fs, volume: &str) -> (r: String)
    ensures
        r@ == check_cmd(fs, volume@),
{
    match fs {
        Fs::Zfs => Zfs::check_volume_cmd(volume),
        Fs::Btrfs => Btrfs::check_volume_cmd(volume),
    }
}

fn prefix_of(fs: Fs, volume: &str) -> (r: Vec<char>)
    ensures
        r@ == line_prefix(fs, volume@),
{
    match fs {
        Fs::Zfs => Zfs::line_prefix(volume),
        Fs::Btrfs => Btrfs::line_prefix(volume),
    }
}

fn parse_line_at(fs: Fs, volume: Ghost<Seq<char>>, p: &Vec<char>, t: &Vec<char>, from: usize, to: usize) -> (r: Option<u64>)
    requires
        from <= to <= t@.len(),
        p@ == line_prefix(fs, volume@),
    ensures
        r == parse_line(fs, volume@, t@.subrange(from as int, to as int)),
{
    match fs {
        Fs::Zfs => Zfs::parse_line_chars(p, t, from, to),
        Fs::Btrfs => Btrfs::parse_line_chars(p, t, from, to),
    }
}

/// The lines of `s`, split at every `'\n'`.
///
/// Unlike `str::lines`, a final empty piece is kept; an empty line never
/// names a snapshot, so the indexes read from the lines are the same.
pub open spec fn lines(s: Seq<char>) -> Seq<Seq<char>>
    decreases s.len(),
{
    if s.len() == 0 {
        seq![Seq::empty()]
    } else {
        let l = lines(s.drop_last());
        if s.last() == '\n' {
            l.push(Seq::empty())
        } else {
            l.update(l.len() - 1, l.last().push(s.last()))
        }
    }
}

/// The indexes that the lines `ls` name, in order.
pub open spec fn parsed(fs: Fs, volume: Seq<char>, ls: Seq<Seq<char>>) -> Seq<u64>
    decreases ls.len(),
{
    if ls.len() == 0 {
        Seq::empty()
    } else {
        match parse_line(fs, volume, ls.last()) {
            Some(x) => parsed(fs, volume, ls.drop_last()).push(x),
            None => parsed(fs, volume, ls.drop_last()),
        }
    }
}

pub open spec fn strictly_desc(s: Seq<u64>) -> bool {
    forall|i: int, j: int| 0 <= i < j < s.len() ==> s[i] > s[j]
}

pub open spec fn same_elems(a: Seq<u64>, b: Seq<u64>) -> bool {
    forall|x: u64| a.contains(x) <==> b.contains(x)
}

/// The snapshots that a listing names, newest first, each once.
pub open spec fn snapshot_list(fs: Fs, volume: Seq<char>, out: Seq<char>) -> Seq<u64> {
    choose|s: Seq<u64>| strictly_desc(s) && same_elems(s, parsed(fs, volume, lines(out)))
}

/// Two strictly decreasing sequences with the same elements are equal.
pub proof fn lemma_desc_unique(a: Seq<u64>, b: Seq<u64>)
    requires
        strictly_desc(a),
        strictly_desc(b),
        same_elems(a, b),
    ensures
        a == b,
    decreases a.len(),
{
    if a.len() == 0 {
        if b.len() > 0 {
            assert(b.contains(b[0]));
        }
        assert(a =~= b);
    } else if b.len() == 0 {
        assert(a.contains(a[0]));
    } else {
        assert(a.contains(a[0]));
        assert(b.contains(b[0]));
        let i = choose|i: int| 0 <= i < b.len() && b[i] == a[0];
        let j = choose|j: int| 0 <= j < a.len() && a[j] == b[0];
        assert(a[0] == b[0]) by {
            if i > 0 {
                assert(b[0] > b[i]);
            }
            if j > 0 {
                assert(a[0] > a[j]);
            }
        }
        let a1 = a.drop_first();
        let b1 = b.drop_first();
        assert forall|x: u64| a1.contains(x) <==> b1.contains(x) by {
            if a1.contains(x) {
                let k = choose|k: int| 0 <= k < a1.len() && a1[k] == x;
                assert(a[k + 1] == x);
                assert(b.contains(x));
                let m = choose|m: int| 0 <= m < b.len() && b[m] == x;
                assert(x < a[0]);
                assert(m != 0);
                assert(b1[m - 1] == x);
            }
            if b1.contains(x) {
                let k = choose|k: int| 0 <= k < b1.len() && b1[k] == x;
                assert(b[k + 1] == x);
                assert(a.contains(x));
                let m = choose|m: int| 0 <= m < a.len() && a[m] == x;
                assert(x < b[0]);
                assert(m != 0);
                assert(a1[m - 1] == x);
            }
        }
        lemma_desc_unique(a1, b1);
        assert(a =~= b) by {
            assert forall|k: int| 0 <= k < a.len() implies a[k] == b[k] by {
                if k > 0 {
                    assert(a[k] == a1[k - 1]);
                    assert(b[k] == b1[k - 1]);
                }
            }
        }
    }
}

proof fn lemma_push_contains(s: Seq<u64>, x: u64)
    ensures
        forall|y: u64| s.push(x).contains(y) <==> (s.contains(y) || y == x),
{
    assert forall|y: u64| s.push(x).contains(y) <==> (s.contains(y) || y == x) by {
        if s.push(x).contains(y) {
            let k = choose|k: int| 0 <= k < s.push(x).len() && s.push(x)[k] == y;
            if k < s.len() {
                assert(s[k] == y);
            }
        }
        if s.contains(y) {
            let k = choose|k: int| 0 <= k < s.len() && s[k] == y;
            assert(s.push(x)[k] == y);
        }
        if y == x {
            assert(s.push(x)[s.len() as int] == y);
        }
    }
}

proof fn lemma_insert_desc(before: Seq<u64>, j: int, x: u64)
    requires
        strictly_desc(before),
        0 <= j <= before.len(),
        forall|k: int| 0 <= k < j ==> before[k] > x,
        j < before.len() ==> before[j] != x,
        j < before.len() ==> before[j] <= x,
    ensures
        strictly_desc(before.insert(j, x)),
        forall|y: u64| #[trigger] before.insert(j, x).contains(y) <==> (before.contains(y) || y == x),
{
    let after = before.insert(j, x);
    assert forall|k: int| j <= k < before.len() implies before[k] < x by {
        if k > j {
            assert(before[j] > before[k]);
        }
    }
    assert forall|y: u64| after.contains(y) <==> (before.contains(y) || y == x) by {
        if after.contains(y) {
            let k = choose|k: int| 0 <= k < after.len() && after[k] == y;
            if k < j {
                assert(before[k] == y);
            } else if k > j {
                assert(before[k - 1] == y);
            }
        }
        if before.contains(y) {
            let k = choose|k: int| 0 <= k < before.len() && before[k] == y;
            if k < j {
                assert(after[k] == y);
            } else {
                assert(after[k + 1] == y);
            }
        }
        if y == x {
            assert(after[j] == x);
        }
    }
}

/// Inserts `x` into the strictly decreasing `v`, unless it is there.
fn insert_desc(v: &mut Vec<u64>, x: u64)
    requires
        strictly_desc(old(v)@),
    ensures
        strictly_desc(final(v)@),
        forall|y: u64| final(v)@.contains(y) <==> (old(v)@.contains(y) || y == x),
{
    let mut j: usize = 0;
    while j < v.len() && v[j] > x
        invariant
            j <= v@.len(),
            forall|k: int| 0 <= k < j ==> v@[k] > x,
        decreases v@.len() - j,
    {
        j = j + 1;
    }
    if j < v.len() && v[j] == x {
        assert(v@.contains(x));
        return;
    }
    let ghost before = v@;
    proof {
        lemma_insert_desc(before, j as int, x);
    }
    v.insert(j, x);
    assert forall|y: u64| v@.contains(y) <==> (before.contains(y) || y == x) by {
        assert(v@ == before.insert(j as int, x));
        assert(before.insert(j as int, x).contains(y) <==> (before.contains(y) || y == x));
    }
}

/// Read the snapshot list from the output of the listing command:
/// every index that a line names, newest first, each once.
pub fn sorted_snapshots(fs: Fs, cfg: &BtmCfg, output: &str) -> (r: Vec<u64>)
    ensures
        strictly_desc(r@),
        same_elems(r@, parsed(fs, cfg.volume@, lines(output@))),
        r@ == snapshot_list(fs, cfg.volume@, output@),
{
    let ghost vol = cfg.volume@;
    let p = prefix_of(fs, cfg.volume.as_str());
    let t = chars_of(output);
    let n = t.len();
    let mut res: Vec<u64> = Vec::new();
    let mut start: usize = 0;
    let mut k: usize = 0;
    let ghost mut done: Seq<Seq<char>> = Seq::empty();
    assert(t@.take(0) =~= Seq::<char>::empty());
    assert(t@.subrange(0, 0) =~= Seq::<char>::empty());
    assert(done.push(t@.subrange(0, 0)) =~= seq![Seq::<char>::empty()]);
    while k < n
        invariant
            t@ == output@,
            n == t@.len(),
            p@ == line_prefix(fs, vol),
            start <= k <= n,
            lines(t@.take(k as int)) == done.push(t@.subrange(start as int, k as int)),
            strictly_desc(res@),
            same_elems(res@, parsed(fs, vol, done)),
        decreases n - k,
    {
        let c = t[k];
        let ghost pre = t@.take(k as int);
        assert(t@.take(k + 1).drop_last() =~= pre);
        assert(t@.take(k + 1).last() == c);
        if c == '\n' {
            let ghost line = t@.subrange(start as int, k as int);
            let ghost d2 = done.push(line);
            assert(d2.drop_last() =~= done);
            assert(d2.last() == line);
            match parse_line_at(fs, Ghost(vol), &p, &t, start, k) {
                Some(x) => {
                    insert_desc(&mut res, x);
                    proof {
                        lemma_push_contains(parsed(fs, vol, done), x);
                        assert(parsed(fs, vol, d2) == parsed(fs, vol, done).push(x));
                    }
                },
                None => {
                    assert(parsed(fs, vol, d2) == parsed(fs, vol, done));
                },
            }
            proof {
                assert(t@.subrange(k + 1, k + 1) =~= Seq::<char>::empty());
                assert(lines(t@.take(k + 1)) =~= d2.push(t@.subrange(k + 1, k + 1)));
                done = d2;
            }
            start = k + 1;
        } else {
            proof {
                let l = lines(pre);
                assert(l.last() == t@.subrange(start as int, k as int));
                assert(t@.subrange(start as int, k as int).push(c) =~= t@.subrange(start as int, k + 1));
                assert(lines(t@.take(k + 1)) =~= done.push(t@.subrange(start as int, k + 1)));
            }
        }
        k = k + 1;
    }
    let ghost last_line = t@.subrange(start as int, n as int);
    let ghost all = done.push(last_line);
    assert(all.drop_last() =~= done);
    assert(all.last() == last_line);
    match parse_line_at(fs, Ghost(vol), &p, &t, start, n) {
        Some(x) => {
            insert_desc(&mut res, x);
            proof {
                lemma_push_contains(parsed(fs, vol, done), x);
                assert(parsed(fs, vol, all) == parsed(fs, vol, done).push(x));
            }
        },
        None => {
            assert(parsed(fs, vol, all) == parsed(fs, vol, done));
        },
    }
    proof {
        assert(t@.take(n as int) =~= t@);
        assert(lines(output@) == all);
        assert(same_elems(res@, parsed(fs, vol, all)));
        let s = snapshot_list(fs, vol, output@);
        assert(strictly_desc(s) && same_elems(s, parsed(fs, vol, lines(output@))));
        lemma_desc_unique(res@, s);
    }
    res
}

/// How to destroy a set of snapshots: run `batch` when there is one and,
/// should it fail or be absent, the commands of `each`, one per snapshot.
pub struct DestroyPlan {
    /// The snapshots to destroy.
    pub indexes: Vec<u64>,
    /// One command that destroys them all, where the tooling allows it.
    pub batch: Option<String>,
    /// One command per snapshot, in the order of `indexes`.
    pub each: Vec<String>,
}

impl DestroyPlan {
    /// Whether the per-snapshot commands must run, given whether the batch
    /// command (when there is one) succeeded.
    pub fn needs_each(&self, batch_ok: bool) -> (r: bool)
        ensures
            r == (self.batch is None || !batch_ok),
    {
        self.batch.is_none() || !batch_ok
    }
}

/// `plan` destroys the snapshots `idxs` of `volume`: zfs one at a time,
/// btrfs in one batch with a per-item fallback.
pub open spec fn destroy_plan_ok(fs: Fs, volume: Seq<char>, idxs: Seq<u64>, plan: DestroyPlan) -> bool {
    &&& plan.indexes@ == idxs
    &&& plan.each@.len() == idxs.len()
    &&& forall|i: int| 0 <= i < idxs.len() ==> #[trigger] plan.each@[i]@ == destroy_cmd(fs, volume, idxs[i])
    &&& match fs {
        Fs::Zfs => plan.batch is None,
        Fs::Btrfs => plan.batch matches Some(b) && b@ == btrfs::batch_cmd(volume, idxs),
    }
}

/// Destroy multiple snapshots.
pub fn destroy_snapshots(fs: Fs, volume: &str, indexes: &[u64]) -> (r: DestroyPlan)
    ensures
        destroy_plan_ok(fs, volume@, indexes@, r),
{
    let mut each: Vec<String> = Vec::new();
    let mut ids: Vec<u64> = Vec::new();
    let mut k: usize = 0;
    while k < indexes.len()
        invariant
            k <= indexes@.len(),
            each@.len() == k,
            ids@ == indexes@.take(k as int),
            forall|i: int| 0 <= i < k ==> #[trigger] each@[i]@ == destroy_cmd(fs, volume@, indexes@[i]),
        decreases indexes@.len() - k,
    {
        each.push(snapshot_destroy_cmd(fs, volume, indexes[k]));
        ids.push(indexes[k]);
        assert(ids@ =~= indexes@.take(k + 1));
        k = k + 1;
    }
    assert(ids@ =~= indexes@);
    let batch = match fs {
        Fs::Zfs => None,
        Fs::Btrfs => Some(btrfs::batch_destroy_cmd(volume, indexes)),
    };
    DestroyPlan { indexes: ids, batch, each }
}

/// How many existing snapshots a due snapshot keeps: one fewer than the
/// cap, so that with the new one at most `cap_of(cfg)` are stored.
pub open spec fn kept_before_new(cfg: BtmCfg) -> int {
    if cap_of(cfg) == 0 {
        0
    } else {
        cap_of(cfg) - 1
    }
}

/// What the configured algorithm deletes from `snaps_desc` to make room for
/// a new snapshot: retention runs over `kept_before_new(cfg)` places.
pub open spec fn outdated(cfg: BtmCfg, snaps_desc: Seq<u64>) -> Seq<u64> {
    match cfg.algo {
        SnapAlgo::Fair => fair_spec(snaps_desc, kept_before_new(cfg)),
        SnapAlgo::Fade => fade_spec(snaps_desc, cfg.itv as int, kept_before_new(cfg)),
    }
}

/// The snapshots that the configured algorithm gives up before a new one
/// is created, so that at most `cap` remain with it.
pub fn clean_outdated(cfg: &BtmCfg, snaps_desc: &[u64]) -> (r: Vec<u64>)
    requires
        cfg.algo == SnapAlgo::Fade ==> pow(cfg.itv as int, STEP_CNT as nat) <= u64::MAX,
    ensures
        r@ == outdated(*cfg, snaps_desc@),
{
    let cap = cfg.get_cap();
    let cap = if cap == 0 {
        0
    } else {
        (cap - 1) as usize
    };
    match cfg.algo {
        SnapAlgo::Fair => {
            let d = fair_to_delete(snaps_desc, cap);
            let mut v: Vec<u64> = Vec::new();
            v.extend_from_slice(d);
            assert(v@ =~= d@);
            v
        },
        SnapAlgo::Fade => fade_to_delete(snaps_desc, cfg.itv, cap),
    }
}

/// What a due snapshot amounts to: destroy what the algorithm gives up
/// (if anything), then create the new snapshot.
pub struct SnapshotPlan {
    pub destroy: Option<DestroyPlan>,
    pub create: String,
}

/// `plan` deletes what `outdated` names among `snaps` and creates the
/// snapshot of `idx`.
pub open spec fn snapshot_plan_ok(fs: Fs, cfg: BtmCfg, snaps: Seq<u64>, idx: u64, plan: SnapshotPlan) -> bool {
    &&& plan.create@ == create_cmd(fs, cfg.volume@, idx)
    &&& if outdated(cfg, snaps).len() == 0 {
        plan.destroy is None
    } else {
        plan.destroy matches Some(d) && destroy_plan_ok(fs, cfg.volume@, outdated(cfg, snaps), d)
    }
}

/// Decide what a snapshot of `idx` takes, `listing` being the output of
/// `list_snapshots_cmd`:
/// - a degenerate or unsafe configuration is refused before anything runs;
/// - an index off the `itv` grid needs nothing (`Ok(None)`);
/// - an index that already has a snapshot is refused;
/// - otherwise the outdated snapshots go (all but at most `cap - 1` of the
///   existing ones) and the new one is created, so that at most `cap`
///   snapshots are stored.
pub fn gen_snapshot(fs: Fs, cfg: &BtmCfg, idx: u64, listing: &str) -> (r: Result<Option<SnapshotPlan>, BtmError>)
    ensures
        match params_check(*cfg) {
            Err(e) => r == Err::<Option<SnapshotPlan>, BtmError>(e),
            Ok(_) => if !aligned(idx, cfg.itv as int) {
                r == Ok::<Option<SnapshotPlan>, BtmError>(None)
            } else if snapshot_list(fs, cfg.volume@, listing@).contains(idx) {
                r == Err::<Option<SnapshotPlan>, BtmError>(BtmError::SnapshotExists(idx))
            } else {
                r matches Ok(Some(plan)) && snapshot_plan_ok(
                    fs,
                    *cfg,
                    snapshot_list(fs, cfg.volume@, listing@),
                    idx,
                    plan,
                )
            },
        },
{
    if let Err(e) = cfg.validate_params() {
        return Err(e);
    }
    if !idx_aligned(idx, cfg.itv) {
        return Ok(None);
    }
    let snaps = sorted_snapshots(fs, cfg, listing);
    let mut k: usize = 0;
    while k < snaps.len()
        invariant
            k <= snaps@.len(),
            snaps@ == snapshot_list(fs, cfg.volume@, listing@),
            params_check(*cfg) is Ok,
            aligned(idx, cfg.itv as int),
            forall|i: int| 0 <= i < k ==> snaps@[i] != idx,
        decreases snaps@.len() - k,
    {
        if snaps[k] == idx {
            assert(snaps@.contains(idx));
            return Err(BtmError::SnapshotExists(idx));
        }
        k = k + 1;
    }
    let to_del = clean_outdated(cfg, snaps.as_slice());
    let destroy = if to_del.len() == 0 {
        None
    } else {
        Some(destroy_snapshots(fs, cfg.volume.as_str(), to_del.as_slice()))
    };
    let create = create_snapshot_cmd(fs, cfg.volume.as_str(), idx);
    Ok(Some(SnapshotPlan { destroy, create }))
}

/// A rollback index as a `u64`: `None` when negative or too large.
pub open spec fn index_of(i: i128) -> Option<u64> {
    if 0 <= i <= u64::MAX {
        Some(i as u64)
    } else {
        None
    }
}

/// The command that rolls back to the snapshot chosen by
/// `rollback_target_spec` among those of `listing`.
pub open spec fn rollback_spec(fs: Fs, volume: Seq<char>, listing: Seq<char>, idx: Option<i128>, strict: bool) -> Result<Seq<char>, BtmError> {
    let asc = snapshot_list(fs, volume, listing).reverse();
    let target = match idx {
        None => Some(None),
        Some(i) => match index_of(i) {
            Some(u) => Some(Some(u)),
            None => None,
        },
    };
    match target {
        None => Err(BtmError::IndexOutOfRange),
        Some(t) => match rollback_target_spec(asc, t, strict) {
            Ok(s) => Ok(rollback_cmd(fs, volume, s)),
            Err(e) => Err(e),
        },
    }
}

/// Reverses `s`.
fn reversed(s: &Vec<u64>) -> (r: Vec<u64>)
    ensures
        r@ == s@.reverse(),
{
    let mut r: Vec<u64> = Vec::new();
    let mut k = s.len();
    while k > 0
        invariant
            k <= s@.len(),
            r@ == s@.subrange(k as int, s@.len() as int).reverse(),
        decreases k,
    {
        k = k - 1;
        r.push(s[k]);
        assert(r@ =~= s@.subrange(k as int, s@.len() as int).reverse());
    }
    assert(s@.subrange(0, s@.len() as int) =~= s@);
    r
}

/// Rollback to the snapshot chosen by `rollback_target`, `listing` being
/// the output of `list_snapshots_cmd`.
pub fn rollback(fs: Fs, cfg: &BtmCfg, listing: &str, idx: Option<i128>, strict: bool) -> (r: Result<String, BtmError>)
    ensures
        match rollback_spec(fs, cfg.volume@, listing@, idx, strict) {
            Ok(c) => r matches Ok(s) && s@ == c,
            Err(e) => r == Err::<String, BtmError>(e),
        },
{
    let snaps = sorted_snapshots(fs, cfg, listing);
    let asc = reversed(&snaps);
    proof {
        assert forall|i: int, j: int| 0 <= i <= j < asc@.len() implies asc@[i] <= asc@[j] by {
            if i < j {
                assert(snaps@[snaps@.len() - 1 - j] > snaps@[snaps@.len() - 1 - i]);
            }
        }
    }
    let target = match idx {
        None => None,
        Some(i) => {
            if i < 0 || i > u64::MAX as i128 {
                return Err(BtmError::IndexOutOfRange);
            }
            Some(i as u64)
        },
    };
    match rollback_target(asc.as_slice(), target, strict) {
        Ok(t) => Ok(snapshot_rollback_cmd(fs, cfg.volume.as_str(), t)),
        Err(e) => Err(e),
    }
}

/// Destroy all snapshots except the newest `kept` ones; `None` when there
/// is nothing to destroy.
pub fn clean_all(fs: Fs, cfg: &BtmCfg, kept: usize, listing: &str) -> (r: Option<DestroyPlan>)
    ensures
        ({
            let s = snapshot_list(fs, cfg.volume@, listing@);
            if kept < s.len() {
                r matches Some(d) && destroy_plan_ok(fs, cfg.volume@, s.skip(kept as int), d)
            } else {
                r is None
            }
        }),
{
    let snaps = sorted_snapshots(fs, cfg, listing);
    if kept < snaps.len() {
        let (_, rest) = snaps.as_slice().split_at(kept);
        Some(destroy_snapshots(fs, cfg.volume.as_str(), rest))
    } else {
        None
    }
}

} // verus!
