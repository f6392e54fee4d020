//! The btrfs driver: its commands and the parsing of its snapshot listing.

use vstd::prelude::*;
use vstd::string::StringExecFns;
use vstd::string::StrSliceExecFns;

use crate::driver::zfs::{push_snap_name, snap_name};
use crate::text::{
    after_last, after_last_pos, chars_of, joined, parse_after, parse_after_at, strip_slashes,
    strip_slashes_end, sub_vec, trim, trim_bounds,
};
use crate::BtmCfg;

verus! {

/// The last component of the volume path (trailing `/` ignored).
pub open spec fn base_name(volume: Seq<char>) -> Seq<char> {
    after_last(strip_slashes(volume), '/')
}

/// The directory that holds the volume: `.` for a bare relative name,
/// `/` for a volume directly under the root.
pub open spec fn parent_dir(volume: Seq<char>) -> Seq<char> {
    let w = strip_slashes(volume);
    let a = after_last(w, '/');
    if w.len() == 0 {
        "/"@
    } else if a.len() == w.len() {
        "."@
    } else {
        let p = strip_slashes(w.take(w.len() - a.len() - 1));
        if p.len() == 0 {
            "/"@
        } else {
            p
        }
    }
}

pub open spec fn list_cmd(volume: Seq<char>) -> Seq<char> {
    "btrfs subvolume list -so "@ + parent_dir(volume)
}

/// The index that a line of the listing names: the line's path is its
/// last space-separated field; its last component must be
/// `<basename>@<all-digits>`, the digits fitting a `u64`.
pub open spec fn parse_line(volume: Seq<char>, line: Seq<char>) -> Option<u64> {
    parse_after(after_last(after_last(trim(line), ' '), '/'), base_name(volume).push('@'))
}

pub open spec fn create_cmd(volume: Seq<char>, idx: u64) -> Seq<char> {
    "btrfs subvolume snapshot "@ + volume + " "@ + snap_name(volume, idx)
}

pub open spec fn rollback_tmp(volume: Seq<char>) -> Seq<char> {
    volume + ".btm-rollback-tmp"@
}

pub open spec fn rollback_cmd(volume: Seq<char>, idx: u64) -> Seq<char> {
    "[ ! -d "@ + rollback_tmp(volume) + " ] || btrfs subvolume delete "@ + rollback_tmp(volume)
        + " && btrfs subvolume snapshot "@ + snap_name(volume, idx) + " "@ + rollback_tmp(volume)
        + " && btrfs subvolume delete "@ + volume + " && mv "@ + rollback_tmp(volume) + " "@
        + volume
}

pub open spec fn destroy_cmd(volume: Seq<char>, idx: u64) -> Seq<char> {
    "btrfs subvolume delete "@ + snap_name(volume, idx)
}

pub open spec fn check_cmd(volume: Seq<char>) -> Seq<char> {
    "btrfs subvolume show "@ + volume
}

/// One `btrfs subvolume delete` of several snapshot paths.
pub open spec fn batch_cmd(volume: Seq<char>, indexes: Seq<u64>) -> Seq<char> {
    "btrfs subvolume delete "@ + joined(indexes.map_values(|i: u64| snap_name(volume, i)), " "@)
}

/// The btrfs snapshot driver.
pub struct Btrfs;

impl Btrfs {
    /// Lists the snapshots below the directory that holds the volume.
    pub fn list_snapshots_cmd(cfg: &BtmCfg) -> (r: String)
        ensures
            r@ == list_cmd(cfg.volume@),
    {
        let volume = cfg.volume.as_str();
        let v = chars_of(volume);
        let e = strip_slashes_end(&v, 0, v.len());
        assert(v@.subrange(0, v@.len() as int) =~= v@);
        let r = after_last_pos(&v, 0, e, '/');
        let mut out = String::new();
        out.append("btrfs subvolume list -so ");
        if e == 0 {
            out.append("/");
        } else if r == 0 {
            out.append(".");
        } else {
            let e2 = strip_slashes_end(&v, 0, r - 1);
            proof {
                let w = v@.subrange(0, e as int);
                assert(w.take(r - 1) =~= v@.subrange(0, r - 1));
            }
            if e2 == 0 {
                out.append("/");
            } else {
                out.append(volume.substring_char(0, e2));
            }
        }
        out
    }

    /// Lines look like `ID 256 gen 30 top level 5 path nested/data@77`;
    /// accept only paths whose last component is `<basename>@<digits>`.
    /// Snapshots of sibling subvolumes and manual snapshots are ignored.
    pub fn parse_snapshot_line(cfg: &BtmCfg, line: &str) -> (r: Option<u64>)
        ensures
            r == parse_line(cfg.volume@, line@),
    {
        let p = Self::line_prefix(cfg.volume.as_str());
        let t = chars_of(line);
        assert(t@.subrange(0, t@.len() as int) =~= line@);
        Self::parse_line_chars(&p, &t, 0, t.len())
    }

    /// The prefix that the last component of a snapshot path starts with.
    pub fn line_prefix(volume: &str) -> (r: Vec<char>)
        ensures
            r@ == base_name(volume@).push('@'),
    {
        let v = chars_of(volume);
        assert(v@.subrange(0, v@.len() as int) =~= v@);
        let e = strip_slashes_end(&v, 0, v.len());
        let r = after_last_pos(&v, 0, e, '/');
        let mut p = sub_vec(&v, r, e);
        p.push('@');
        p
    }

    /// `parse_line` on `t[from..to]`, given the prefix of `line_prefix`.
    pub fn parse_line_chars(p: &Vec<char>, t: &Vec<char>, from: usize, to: usize) -> (r: Option<
        u64,
    >)
        requires
            from <= to <= t@.len(),
        ensures
            r == parse_after(
                after_last(after_last(trim(t@.subrange(from as int, to as int)), ' '), '/'),
                p@,
            ),
    {
        let u = sub_vec(t, from, to);
        let (a, b) = trim_bounds(&u);
        let r1 = after_last_pos(&u, a, b, ' ');
        let r2 = after_last_pos(&u, r1, b, '/');
        parse_after_at(&u, r2, b, p)
    }

    pub fn create_snapshot_cmd(volume: &str, idx: u64) -> (r: String)
        ensures
            r@ == create_cmd(volume@, idx),
    {
        let mut out = String::new();
        out.append("btrfs subvolume snapshot ");
        out.append(volume);
        out.append(" ");
        push_snap_name(&mut out, volume, idx);
        out
    }

    /// Never destroys the live subvolume before its replacement is
    /// secured: the backup is snapshotted to a temporary name first, and
    /// only then swapped in; a stale temporary from an earlier failed
    /// attempt is removed up front.
    pub fn rollback_cmd(volume: &str, idx: u64) -> (r: String)
        ensures
            r@ == rollback_cmd(volume@, idx),
    {
        let mut out = String::new();
        out.append("[ ! -d ");
        out.append(volume);
        out.append(".btm-rollback-tmp");
        out.append(" ] || btrfs subvolume delete ");
        out.append(volume);
        out.append(".btm-rollback-tmp");
        out.append(" && btrfs subvolume snapshot ");
        push_snap_name(&mut out, volume, idx);
        out.append(" ");
        out.append(volume);
        out.append(".btm-rollback-tmp");
        out.append(" && btrfs subvolume delete ");
        out.append(volume);
        out.append(" && mv ");
        out.append(volume);
        out.append(".btm-rollback-tmp");
        out.append(" ");
        out.append(volume);
        assert(out@ =~= rollback_cmd(volume@, idx));
        out
    }

    pub fn destroy_cmd(volume: &str, idx: u64) -> (r: String)
        ensures
            r@ == destroy_cmd(volume@, idx),
    {
        let mut out = String::new();
        out.append("btrfs subvolume delete ");
        push_snap_name(&mut out, volume, idx);
        out
    }

    /// Read-only: succeeds iff the volume exists as a btrfs subvolume.
    pub fn check_volume_cmd(volume: &str) -> (r: String)
        ensures
            r@ == check_cmd(volume@),
    {
        let mut out = String::new();
        out.append("btrfs subvolume show ");
        out.append(volume);
        out
    }
}

/// One `btrfs subvolume delete` accepts multiple subvolume paths.
pub fn batch_destroy_cmd(volume: &str, indexes: &[u64]) -> (r: String)
    ensures
        r@ == batch_cmd(volume@, indexes@),
{
    let ghost parts = indexes@.map_values(|i: u64| snap_name(volume@, i));
    let mut out = String::new();
    out.append("btrfs subvolume delete ");
    let ghost head = out@;
    let mut k: usize = 0;
    while k < indexes.len()
        invariant
            parts == indexes@.map_values(|i: u64| snap_name(volume@, i)),
            k <= indexes@.len(),
            out@ == head + joined(parts.take(k as int), " "@),
        decreases indexes@.len() - k,
    {
        if k > 0 {
            out.append(" ");
        }
        push_snap_name(&mut out, volume, indexes[k]);
        proof {
            let t = parts.take(k + 1);
            assert(t.drop_last() =~= parts.take(k as int));
            assert(t.last() == snap_name(volume@, indexes@[k as int]));
            if k == 0 {
                assert(parts.take(0) =~= Seq::<Seq<char>>::empty());
                assert(joined(t, " "@) == t[0]);
            }
            assert(out@ =~= head + joined(t, " "@));
        }
        k = k + 1;
    }
    assert(parts.take(indexes@.len() as int) =~= parts);
    out
}

} // verus!
