//! The zfs driver: its commands and the parsing of its snapshot listing.

use vstd::prelude::*;
use vstd::string::StringExecFns;
use vstd::string::StrSliceExecFns;

use crate::text::{chars_of, decimal, joined, parse_after, parse_after_at, push_decimal, sub_vec, trim, trim_bounds};
use crate::BtmCfg;

verus! {

/// The name of the snapshot of `volume` at `idx`: `<volume>@<idx>`.
pub open spec fn snap_name(volume: Seq<char>, idx: u64) -> Seq<char> {
    volume + "@"@ + decimal(idx as nat)
}

/// Appends `<volume>@<idx>` to `out`.
pub fn push_snap_name(out: &mut String, volume: &str, idx: u64)
    ensures
        final(out)@ == old(out)@ + snap_name(volume@, idx),
{
    out.append(volume);
    out.append("@");
    push_decimal(out, idx);
    assert(final(out)@ =~= old(out)@ + snap_name(volume@, idx));
}

pub open spec fn list_cmd(volume: Seq<char>) -> Seq<char> {
    "zfs list -H -t snapshot -d 1 -o name "@ + volume
}

pub open spec fn create_cmd(volume: Seq<char>, idx: u64) -> Seq<char> {
    "zfs snapshot "@ + snap_name(volume, idx)
}

pub open spec fn rollback_cmd(volume: Seq<char>, idx: u64) -> Seq<char> {
    "zfs rollback -r "@ + snap_name(volume, idx)
}

pub open spec fn destroy_cmd(volume: Seq<char>, idx: u64) -> Seq<char> {
    "zfs destroy "@ + snap_name(volume, idx)
}

pub open spec fn check_cmd(volume: Seq<char>) -> Seq<char> {
    "zfs list "@ + volume
}

/// One `zfs destroy` of several snapshots: `<volume>@<i1>,<i2>,...`.
pub open spec fn batch_cmd(volume: Seq<char>, indexes: Seq<u64>) -> Seq<char> {
    "zfs destroy "@ + volume + "@"@ + joined(indexes.map_values(|i: u64| decimal(i as nat)), ","@)
}

/// The index that a line of the listing names: `<volume>@<all-digits>`
/// once surrounding whitespace is removed, the digits fitting a `u64`.
pub open spec fn parse_line(volume: Seq<char>, line: Seq<char>) -> Option<u64> {
    parse_after(trim(line), volume.push('@'))
}

pub open spec fn mountpoint_cmd(volume: Seq<char>) -> Seq<char> {
    "zfs get -H -o value mountpoint "@ + volume
}

/// The mountpoint that the output of `mountpoint_cmd` names: the output
/// without surrounding whitespace, when it is an absolute path.
pub open spec fn mountpoint_of(output: Seq<char>) -> Option<Seq<char>> {
    let t = trim(output);
    if t.len() > 0 && t[0] == '/' {
        Some(t)
    } else {
        None
    }
}

/// The zfs snapshot driver.
pub struct Zfs;

impl Zfs {
    /// Lists the snapshots of the volume itself (`-d 1` keeps snapshots of
    /// child datasets out), one name per line.
    pub fn list_snapshots_cmd(cfg: &BtmCfg) -> (r: String)
        ensures
            r@ == list_cmd(cfg.volume@),
    {
        let mut out = String::new();
        out.append("zfs list -H -t snapshot -d 1 -o name ");
        out.append(cfg.volume.as_str());
        out
    }

    /// Accept only `<volume>@<all-digits>`; anything else (manual
    /// snapshots, child datasets) belongs to someone else.
    pub fn parse_snapshot_line(cfg: &BtmCfg, line: &str) -> (r: Option<u64>)
        ensures
            r == parse_line(cfg.volume@, line@),
    {
        let p = Self::line_prefix(cfg.volume.as_str());
        let t = chars_of(line);
        assert(t@.subrange(0, t@.len() as int) =~= line@);
        Self::parse_line_chars(&p, &t, 0, t.len())
    }

    /// The prefix that names of the volume's snapshots start with.
    pub fn line_prefix(volume: &str) -> (r: Vec<char>)
        ensures
            r@ == volume@.push('@'),
    {
        let mut p = chars_of(volume);
        p.push('@');
        p
    }

    /// `parse_line` on `t[from..to]`, given the prefix of `line_prefix`.
    pub fn parse_line_chars(p: &Vec<char>, t: &Vec<char>, from: usize, to: usize) -> (r: Option<u64>)
        requires
            from <= to <= t@.len(),
        ensures
            r == parse_after(trim(t@.subrange(from as int, to as int)), p@),
    {
        let u = sub_vec(t, from, to);
        let (a, b) = trim_bounds(&u);
        parse_after_at(&u, a, b, p)
    }

    pub fn create_snapshot_cmd(volume: &str, idx: u64) -> (r: String)
        ensures
            r@ == create_cmd(volume@, idx),
    {
        let mut out = String::new();
        out.append("zfs snapshot ");
        push_snap_name(&mut out, volume, idx);
        out
    }

    pub fn rollback_cmd(volume: &str, idx: u64) -> (r: String)
        ensures
            r@ == rollback_cmd(volume@, idx),
    {
        let mut out = String::new();
        out.append("zfs rollback -r ");
        push_snap_name(&mut out, volume, idx);
        out
    }

    pub fn destroy_cmd(volume: &str, idx: u64) -> (r: String)
        ensures
            r@ == destroy_cmd(volume@, idx),
    {
        let mut out = String::new();
        out.append("zfs destroy ");
        push_snap_name(&mut out, volume, idx);
        out
    }

    /// Read-only: prints where the dataset is mounted.
    pub fn mountpoint_cmd(volume: &str) -> (r: String)
        ensures
            r@ == mountpoint_cmd(volume@),
    {
        let mut out = String::new();
        out.append("zfs get -H -o value mountpoint ");
        out.append(volume);
        out
    }

    /// The mountpoint read from the output of `mountpoint_cmd`; `None` for
    /// anything but an absolute path (such as `none` or `legacy`).
    pub fn mountpoint(output: &str) -> (r: Option<String>)
        ensures
            match mountpoint_of(output@) {
                Some(m) => r matches Some(p) && p@ == m,
                None => r is None,
            },
    {
        let t = chars_of(output);
        let (a, b) = trim_bounds(&t);
        if a < b && t[a] == '/' {
            Some(output.substring_char(a, b).to_owned())
        } else {
            None
        }
    }

    /// Read-only: succeeds iff the volume exists as a zfs dataset.
    pub fn check_volume_cmd(volume: &str) -> (r: String)
        ensures
            r@ == check_cmd(volume@),
    {
        let mut out = String::new();
        out.append("zfs list ");
        out.append(volume);
        out
    }
}

/// Batch destroy folds every index into one command.
pub fn batch_destroy_cmd(volume: &str, indexes: &[u64]) -> (r: String)
    ensures
        r@ == batch_cmd(volume@, indexes@),
{
    let ghost parts = indexes@.map_values(|i: u64| decimal(i as nat));
    let mut out = String::new();
    out.append("zfs destroy ");
    out.append(volume);
    out.append("@");
    let ghost head = out@;
    let mut k: usize = 0;
    while k < indexes.len()
        invariant
            parts == indexes@.map_values(|i: u64| decimal(i as nat)),
            k <= indexes@.len(),
            out@ == head + joined(parts.take(k as int), ","@),
        decreases indexes@.len() - k,
    {
        let ghost before = out@;
        if k > 0 {
            out.append(",");
        }
        push_decimal(&mut out, indexes[k]);
        proof {
            let t = parts.take(k + 1);
            assert(t.drop_last() =~= parts.take(k as int));
            assert(t.last() == decimal(indexes@[k as int] as nat));
            if k == 0 {
                assert(parts.take(0) =~= Seq::<Seq<char>>::empty());
                assert(joined(t, ","@) == t[0]);
            }
            assert(out@ =~= head + joined(t, ","@));
        }
        k = k + 1;
    }
    assert(parts.take(indexes@.len() as int) =~= parts);
    assert("zfs destroy "@ + volume@ + "@"@ + joined(parts, ","@) =~= head + joined(parts, ","@));
    out
}

} // verus!
