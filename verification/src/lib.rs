//! Snapshot management for a data volume: the rules that decide which
//! snapshots are created, kept, destroyed or rolled back to, and the exact
//! shell commands that carry those decisions out on zfs or btrfs.
//!
//! The library computes; it never runs a command. A caller runs the
//! commands it hands out and feeds their output back in.

pub mod driver;
pub mod error;
pub mod laws;
pub mod text;

use vstd::prelude::*;
use vstd::arithmetic::power::pow;
use vstd::arithmetic::power::lemma_pow0;
use vstd::arithmetic::power::lemma_pow_increases;
use vstd::string::StringExecFns;

use crate::driver::{
    check_volume_cmd, clean_all, destroy_plan_ok, gen_snapshot, list_cmd, list_snapshots_cmd,
    rollback_spec, snapshot_list, snapshot_plan_ok, sorted_snapshots, aligned, check_cmd,
    DestroyPlan, Fs, SnapshotPlan,
};
use crate::error::BtmError;
use crate::text::chars_of;

verus! {

/// Maximum number of snapshots that can be kept.
pub const CAP_MAX: u64 = 4096;

/// Number of chunks of the `Fade` algorithm; chunk `n` keeps the snapshots
/// aligned to `itv.pow(n + 1)`.
pub const STEP_CNT: usize = 10;

/// Configures of snapshot mgmt
#[derive(Clone, Debug)]
pub struct BtmCfg {
    /// The interval between adjacent snapshots, default to 10 blocks
    pub itv: u64,
    /// The maximum number of snapshots that will be stored, default to 100
    pub cap: u64,
    /// How many snapshots should be kept after a `clean_snapshots`, default to 0
    pub cap_clean_kept: usize,
    /// Zfs or Btrfs or External
    pub mode: SnapMode,
    /// Fair or Fade, default to 'Fair'
    pub algo: SnapAlgo,
    /// A data volume containing all blockchain data
    pub volume: String,
}

/// A character that a volume name may hold.
pub open spec fn volume_char_ok(c: char) -> bool {
    ||| ('a' <= c && c <= 'z')
    ||| ('A' <= c && c <= 'Z')
    ||| ('0' <= c && c <= '9')
    ||| c == '/' || c == '-' || c == '_' || c == '.'
}

/// The verdict on a volume name: non-empty, not starting with `-`, and made
/// of ASCII letters, digits, `/`, `-`, `_` and `.` only.
pub open spec fn volume_check(v: Seq<char>) -> Result<(), BtmError> {
    if v.len() == 0 {
        Err(BtmError::EmptyVolume)
    } else if v[0] == '-' {
        Err(BtmError::VolumeLeadingDash)
    } else if !(forall|i: int| 0 <= i < v.len() ==> volume_char_ok(#[trigger] v[i])) {
        Err(BtmError::VolumeInvalidChar)
    } else {
        Ok(())
    }
}

/// The verdict on a whole configuration.
pub open spec fn params_check(cfg: BtmCfg) -> Result<(), BtmError> {
    match volume_check(cfg.volume@) {
        Err(e) => Err(e),
        Ok(_) => if cfg.itv < 1 {
            Err(BtmError::ItvZero)
        } else if cfg.cap < 1 {
            Err(BtmError::CapZero)
        } else if pow(cfg.itv as int, STEP_CNT as nat) > u64::MAX {
            Err(BtmError::ItvTooLarge)
        } else {
            Ok(())
        },
    }
}

/// `cap`, bounded by `CAP_MAX`.
pub open spec fn cap_of(cfg: BtmCfg) -> u64 {
    if cfg.cap > CAP_MAX {
        CAP_MAX
    } else {
        cfg.cap
    }
}

/// The defaults that a new configuration starts from.
pub open spec fn default_cfg(volume: Seq<char>, mode: SnapMode, cfg: BtmCfg) -> bool {
    &&& cfg.itv == 10
    &&& cfg.cap == 100
    &&& cfg.cap_clean_kept == 0
    &&& cfg.mode == mode
    &&& cfg.algo == SnapAlgo::Fair
    &&& cfg.volume@ == volume
}

impl BtmCfg {
    /// Create a simple instance for a known mode.
    pub fn with_mode(volume: &str, mode: SnapMode) -> (r: Result<Self, BtmError>)
        ensures
            match volume_check(volume@) {
                Err(e) => r == Err::<Self, BtmError>(e),
                Ok(_) => r matches Ok(cfg) && default_cfg(volume@, mode, cfg),
            },
    {
        match Self::validate_volume(volume) {
            Err(e) => Err(e),
            Ok(()) => Ok(
                BtmCfg {
                    itv: 10,
                    cap: 100,
                    cap_clean_kept: 0,
                    mode,
                    algo: SnapAlgo::Fair,
                    volume: volume.to_owned(),
                },
            ),
        }
    }

    /// Create a simple instance, the mode given by its name (see
    /// `SnapMode::parse`); the volume is checked first.
    pub fn new(volume: &str, mode: &str) -> (r: Result<Self, BtmError>)
        ensures
            match volume_check(volume@) {
                Err(e) => r == Err::<Self, BtmError>(e),
                Ok(_) => match mode_of_name(mode@) {
                    Some(m) => r matches Ok(cfg) && default_cfg(volume@, m, cfg),
                    None => r matches Err(BtmError::UnknownName(msg))
                        && msg@ == unknown_mode_msg(mode@),
                },
            },
    {
        if let Err(e) = Self::validate_volume(volume) {
            return Err(e);
        }
        match SnapMode::parse(mode) {
            Ok(m) => Self::with_mode(volume, m),
            Err(msg) => Err(BtmError::UnknownName(msg)),
        }
    }

    /// Validate volume name to prevent shell command injection.
    /// Only allows alphanumeric characters, `/`, `-`, `_`, and `.`;
    /// a leading `-` is rejected so the name can never be parsed as a
    /// command-line flag by the zfs/btrfs tools.
    pub fn validate_volume(volume: &str) -> (r: Result<(), BtmError>)
        ensures
            r == volume_check(volume@),
    {
        let v = chars_of(volume);
        if v.len() == 0 {
            return Err(BtmError::EmptyVolume);
        }
        if v[0] == '-' {
            return Err(BtmError::VolumeLeadingDash);
        }
        let mut i: usize = 0;
        while i < v.len()
            invariant
                v@ == volume@,
                v@.len() > 0 && v@[0] != '-',
                i <= v@.len(),
                forall|j: int| 0 <= j < i ==> volume_char_ok(#[trigger] v@[j]),
            decreases v@.len() - i,
        {
            let c = v[i];
            let ok = ('a' <= c && c <= 'z') || ('A' <= c && c <= 'Z') || ('0' <= c && c <= '9')
                || c == '/' || c == '-' || c == '_' || c == '.';
            if !ok {
                assert(v@.len() > 0 && v@[0] != '-');
                assert(!volume_char_ok(volume@[i as int]));
                return Err(BtmError::VolumeInvalidChar);
            }
            i = i + 1;
        }
        Ok(())
    }

    /// Validate the whole configuration: the volume name (shell-safety)
    /// and the numeric parameters.
    pub fn validate_params(&self) -> (r: Result<(), BtmError>)
        ensures
            r == params_check(*self),
    {
        if let Err(e) = Self::validate_volume(self.volume.as_str()) {
            return Err(e);
        }
        if self.itv < 1 {
            return Err(BtmError::ItvZero);
        }
        if self.cap < 1 {
            return Err(BtmError::CapZero);
        }
        let itv = self.itv;
        let mut acc: u64 = 1;
        let mut k: usize = 0;
        proof {
            lemma_pow0(itv as int);
        }
        while k < STEP_CNT
            invariant
                itv >= 1,
                itv == self.itv,
                self.cap >= 1,
                volume_check(self.volume@) is Ok,
                k <= STEP_CNT,
                acc as int == pow(itv as int, k as nat),
            decreases STEP_CNT - k,
        {
            proof {
                reveal(pow);
                assert(pow(itv as int, (k + 1) as nat) == itv * pow(itv as int, k as nat));
                assert(itv * acc == acc * itv) by (nonlinear_arith);
            }
            match acc.checked_mul(itv) {
                None => {
                    assert(acc * itv > u64::MAX);
                    proof {
                        lemma_pow_increases(itv as nat, (k + 1) as nat, STEP_CNT as nat);
                    }
                    return Err(BtmError::ItvTooLarge);
                },
                Some(x) => {
                    assert(x == acc * itv);
                    acc = x;
                },
            }
            k = k + 1;
        }
        Ok(())
    }

    /// The filesystem driver of the configured mode (none for `External`).
    pub fn fs(&self) -> (r: Option<Fs>)
        ensures
            r == fs_of(self.mode),
    {
        match self.mode {
            SnapMode::Zfs => Some(Fs::Zfs),
            SnapMode::Btrfs => Some(Fs::Btrfs),
            SnapMode::External => None,
        }
    }

    /// The command whose output lists the snapshots; the configuration
    /// must be sound, and the mode not `External`.
    pub fn listing_cmd(&self) -> (r: Result<String, BtmError>)
        ensures
            match params_check(*self) {
                Err(e) => r == Err::<String, BtmError>(e),
                Ok(_) => match fs_of(self.mode) {
                    None => r == Err::<String, BtmError>(BtmError::ExternalMode),
                    Some(fs) => r matches Ok(c) && c@ == list_cmd(fs, self.volume@),
                },
            },
    {
        if let Err(e) = self.validate_params() {
            return Err(e);
        }
        match self.fs() {
            None => Err(BtmError::ExternalMode),
            Some(fs) => Ok(list_snapshots_cmd(fs, self)),
        }
    }

    /// What a snapshot of the latest state at `idx` takes, given the
    /// output of `listing_cmd` (see `driver::gen_snapshot`); the
    /// `External` mode is left to the external process.
    pub fn snapshot(&self, idx: u64, listing: &str) -> (r: Result<Option<SnapshotPlan>, BtmError>)
        ensures
            match params_check(*self) {
                Err(e) => r == Err::<Option<SnapshotPlan>, BtmError>(e),
                Ok(_) => match fs_of(self.mode) {
                    None => r == Err::<Option<SnapshotPlan>, BtmError>(BtmError::ExternalMode),
                    Some(fs) => if !aligned(idx, self.itv as int) {
                        r == Ok::<Option<SnapshotPlan>, BtmError>(None)
                    } else if snapshot_list(fs, self.volume@, listing@).contains(idx) {
                        r == Err::<Option<SnapshotPlan>, BtmError>(BtmError::SnapshotExists(idx))
                    } else {
                        r matches Ok(Some(plan)) && snapshot_plan_ok(
                            fs,
                            *self,
                            snapshot_list(fs, self.volume@, listing@),
                            idx,
                            plan,
                        )
                    },
                },
            },
    {
        if let Err(e) = self.validate_params() {
            return Err(e);
        }
        match self.fs() {
            None => Err(BtmError::ExternalMode),
            Some(fs) => gen_snapshot(fs, self, idx, listing),
        }
    }

    /// The command that rolls the data volume back to the snapshot chosen
    /// for `idx` (see `driver::rollback`), given the output of
    /// `listing_cmd`.
    ///
    /// NOTE: destructive — snapshots newer than the target are destroyed
    /// (`zfs rollback -r` semantics).
    pub fn rollback(&self, listing: &str, idx: Option<i128>, strict: bool) -> (r: Result<String, BtmError>)
        ensures
            match params_check(*self) {
                Err(e) => r == Err::<String, BtmError>(e),
                Ok(_) => match fs_of(self.mode) {
                    None => r == Err::<String, BtmError>(BtmError::ExternalMode),
                    Some(fs) => match rollback_spec(fs, self.volume@, listing@, idx, strict) {
                        Ok(c) => r matches Ok(s) && s@ == c,
                        Err(e) => r == Err::<String, BtmError>(e),
                    },
                },
            },
    {
        if let Err(e) = self.validate_params() {
            return Err(e);
        }
        match self.fs() {
            None => Err(BtmError::ExternalMode),
            Some(fs) => crate::driver::rollback(fs, self, listing, idx, strict),
        }
    }

    /// Get snapshot list in 'DESC' order, given the output of `listing_cmd`.
    pub fn get_sorted_snapshots(&self, listing: &str) -> (r: Result<Vec<u64>, BtmError>)
        ensures
            match params_check(*self) {
                Err(e) => r == Err::<Vec<u64>, BtmError>(e),
                Ok(_) => match fs_of(self.mode) {
                    None => r == Err::<Vec<u64>, BtmError>(BtmError::ExternalMode),
                    Some(fs) => r matches Ok(v) && v@ == snapshot_list(fs, self.volume@, listing@),
                },
            },
    {
        if let Err(e) = self.validate_params() {
            return Err(e);
        }
        match self.fs() {
            None => Err(BtmError::ExternalMode),
            Some(fs) => Ok(sorted_snapshots(fs, self, listing)),
        }
    }

    /// What cleaning all existing snapshots except the newest
    /// `cap_clean_kept` ones takes, given the output of `listing_cmd`;
    /// `Ok(None)` when nothing is to go.
    pub fn clean_snapshots(&self, listing: &str) -> (r: Result<Option<DestroyPlan>, BtmError>)
        ensures
            match params_check(*self) {
                Err(e) => r == Err::<Option<DestroyPlan>, BtmError>(e),
                Ok(_) => match fs_of(self.mode) {
                    None => r == Err::<Option<DestroyPlan>, BtmError>(BtmError::ExternalMode),
                    Some(fs) => {
                        let s = snapshot_list(fs, self.volume@, listing@);
                        if self.cap_clean_kept < s.len() {
                            r matches Ok(Some(d)) && destroy_plan_ok(
                                fs,
                                self.volume@,
                                s.skip(self.cap_clean_kept as int),
                                d,
                            )
                        } else {
                            r matches Ok(None)
                        }
                    },
                },
            },
    {
        if let Err(e) = self.validate_params() {
            return Err(e);
        }
        match self.fs() {
            None => Err(BtmError::ExternalMode),
            Some(fs) => Ok(clean_all(fs, self, self.cap_clean_kept, listing)),
        }
    }

    /// `cap`, bounded by `CAP_MAX`.
    pub fn get_cap(&self) -> (r: u64)
        ensures
            r == cap_of(*self),
            r <= CAP_MAX,
    {
        if self.cap > CAP_MAX {
            CAP_MAX
        } else {
            self.cap
        }
    }
}

/// The filesystem driver of a mode.
pub open spec fn fs_of(mode: SnapMode) -> Option<Fs> {
    match mode {
        SnapMode::Zfs => Some(Fs::Zfs),
        SnapMode::Btrfs => Some(Fs::Btrfs),
        SnapMode::External => None,
    }
}

/// Which filesystem tooling carries the snapshots.
#[derive(Clone, Copy, Debug, PartialEq, Eq, Structural)]
pub enum SnapMode {
    /// Available on some Linux distributions and FreeBSD
    Zfs,
    /// Available on most Linux distributions,
    /// but its user experience is worse than zfs
    Btrfs,
    /// Rely on an external independent process
    External,
}

/// `c` with ASCII upper case turned to lower case.
/// `c` turns into `k` when ASCII upper case is folded to lower case.
pub open spec fn folds_to(c: char, k: char) -> bool {
    if 'A' <= c && c <= 'Z' {
        (c as u32) + 32 == (k as u32)
    } else {
        c == k
    }
}

/// `s` equals the lower-case keyword `kw` once ASCII case is folded.
///
/// For the lower-case ASCII keywords of this crate this is exactly
/// `s.to_lowercase() == kw`: no other character lower-cases to one of
/// their letters.
pub open spec fn eq_folded(s: Seq<char>, kw: Seq<char>) -> bool {
    s.len() == kw.len() && forall|i: int| 0 <= i < s.len() ==> folds_to(#[trigger] s[i], kw[i])
}

pub open spec fn mode_of_name(s: Seq<char>) -> Option<SnapMode> {
    if eq_folded(s, "zfs"@) {
        Some(SnapMode::Zfs)
    } else if eq_folded(s, "btrfs"@) {
        Some(SnapMode::Btrfs)
    } else if eq_folded(s, "external"@) {
        Some(SnapMode::External)
    } else {
        None
    }
}

pub open spec fn unknown_mode_msg(s: Seq<char>) -> Seq<char> {
    "unknown snap mode: '"@ + s + "'"@
}

pub open spec fn mode_name(m: SnapMode) -> Seq<char> {
    match m {
        SnapMode::Zfs => "Zfs"@,
        SnapMode::Btrfs => "Btrfs"@,
        SnapMode::External => "External"@,
    }
}

/// Whether `s` equals the keyword `kw` up to ASCII case.
pub fn eq_ignore_ascii_case(s: &Vec<char>, kw: &str) -> (r: bool)
    ensures
        r == eq_folded(s@, kw@),
{
    let k = chars_of(kw);
    if s.len() != k.len() {
        return false;
    }
    let mut i: usize = 0;
    while i < s.len()
        invariant
            k@ == kw@,
            s@.len() == k@.len(),
            i <= s@.len(),
            forall|j: int| 0 <= j < i ==> folds_to(#[trigger] s@[j], k@[j]),
        decreases s@.len() - i,
    {
        let c = s[i];
        let d = k[i];
        let same = if 'A' <= c && c <= 'Z' {
            (c as u32) + 32 == (d as u32)
        } else {
            c == d
        };
        if !same {
            return false;
        }
        i = i + 1;
    }
    true
}

/// Appends `"'" + s + "'"` framed as an unknown-name message.
fn unknown_name_msg(prefix: &str, s: &str) -> (r: String)
    ensures
        r@ == prefix@ + s@ + "'"@,
{
    let mut m = String::new();
    m.append(prefix);
    m.append(s);
    m.append("'");
    m
}

impl SnapMode {
    /// Parse a mode name, ignoring case: `zfs`, `btrfs` or `external`.
    pub fn parse(s: &str) -> (r: Result<SnapMode, String>)
        ensures
            match mode_of_name(s@) {
                Some(m) => r == Ok::<SnapMode, String>(m),
                None => r matches Err(msg) && msg@ == unknown_mode_msg(s@),
            },
    {
        let v = chars_of(s);
        if eq_ignore_ascii_case(&v, "zfs") {
            Ok(SnapMode::Zfs)
        } else if eq_ignore_ascii_case(&v, "btrfs") {
            Ok(SnapMode::Btrfs)
        } else if eq_ignore_ascii_case(&v, "external") {
            Ok(SnapMode::External)
        } else {
            Err(unknown_name_msg("unknown snap mode: '", s))
        }
    }

    /// The read-only probes that tell which mode manages a volume: first
    /// the zfs one, then the btrfs one. The volume is checked first, so no
    /// unsafe name ever reaches a shell.
    pub fn guess_cmds(volume: &str) -> (r: Result<(String, String), BtmError>)
        ensures
            match volume_check(volume@) {
                Err(e) => r == Err::<(String, String), BtmError>(e),
                Ok(_) => r matches Ok((z, b)) && z@ == check_cmd(Fs::Zfs, volume@) && b@ == check_cmd(
                    Fs::Btrfs,
                    volume@,
                ),
            },
    {
        if let Err(e) = BtmCfg::validate_volume(volume) {
            return Err(e);
        }
        Ok((check_volume_cmd(Fs::Zfs, volume), check_volume_cmd(Fs::Btrfs, volume)))
    }

    /// Try to determine which mode can be used on the target volume, from
    /// the outcome of the probes of `guess_cmds` (`btrfs_ok` only matters
    /// when the zfs probe failed).
    ///
    /// NOTE: not suitable for the `External` mode.
    pub fn guess(volume: &str, zfs_ok: bool, btrfs_ok: bool) -> (r: Result<SnapMode, BtmError>)
        ensures
            match volume_check(volume@) {
                Err(e) => r == Err::<SnapMode, BtmError>(e),
                Ok(_) => if zfs_ok {
                    r == Ok::<SnapMode, BtmError>(SnapMode::Zfs)
                } else if btrfs_ok {
                    r == Ok::<SnapMode, BtmError>(SnapMode::Btrfs)
                } else {
                    r == Err::<SnapMode, BtmError>(BtmError::NoDriver)
                },
            },
    {
        if let Err(e) = BtmCfg::validate_volume(volume) {
            return Err(e);
        }
        if zfs_ok {
            Ok(SnapMode::Zfs)
        } else if btrfs_ok {
            Ok(SnapMode::Btrfs)
        } else {
            Err(BtmError::NoDriver)
        }
    }

    /// The name of the mode.
    pub fn as_str(&self) -> (r: &'static str)
        ensures
            r@ == mode_name(*self),
    {
        match self {
            SnapMode::Zfs => "Zfs",
            SnapMode::Btrfs => "Btrfs",
            SnapMode::External => "External",
        }
    }
}

impl std::str::FromStr for SnapMode {
    type Err = String;

    fn from_str(s: &str) -> (r: Result<Self, String>)
        ensures
            match mode_of_name(s@) {
                Some(m) => r == Ok::<SnapMode, String>(m),
                None => r matches Err(msg) && msg@ == unknown_mode_msg(s@),
            },
    {
        SnapMode::parse(s)
    }
}

/// Snapshot management algorithm
#[derive(Clone, Copy, Debug, PartialEq, Eq, Structural)]
pub enum SnapAlgo {
    /// snapshots are saved at fixed intervals
    Fair,
    /// snapshots are saved in decreasing density
    Fade,
}

impl Default for SnapAlgo {
    fn default() -> (r: Self)
        ensures
            r == SnapAlgo::Fair,
    {
        SnapAlgo::Fair
    }
}

pub open spec fn algo_of_name(s: Seq<char>) -> Option<SnapAlgo> {
    if eq_folded(s, "fair"@) {
        Some(SnapAlgo::Fair)
    } else if eq_folded(s, "fade"@) {
        Some(SnapAlgo::Fade)
    } else {
        None
    }
}

pub open spec fn unknown_algo_msg(s: Seq<char>) -> Seq<char> {
    "unknown snap algo: '"@ + s + "'"@
}

pub open spec fn algo_name(a: SnapAlgo) -> Seq<char> {
    match a {
        SnapAlgo::Fair => "Fair"@,
        SnapAlgo::Fade => "Fade"@,
    }
}

impl SnapAlgo {
    /// Parse an algorithm name, ignoring case: `fair` or `fade`.
    pub fn parse(s: &str) -> (r: Result<SnapAlgo, String>)
        ensures
            match algo_of_name(s@) {
                Some(a) => r == Ok::<SnapAlgo, String>(a),
                None => r matches Err(msg) && msg@ == unknown_algo_msg(s@),
            },
    {
        let v = chars_of(s);
        if eq_ignore_ascii_case(&v, "fair") {
            Ok(SnapAlgo::Fair)
        } else if eq_ignore_ascii_case(&v, "fade") {
            Ok(SnapAlgo::Fade)
        } else {
            Err(unknown_name_msg("unknown snap algo: '", s))
        }
    }

    /// The name of the algorithm.
    pub fn as_str(&self) -> (r: &'static str)
        ensures
            r@ == algo_name(*self),
    {
        match self {
            SnapAlgo::Fair => "Fair",
            SnapAlgo::Fade => "Fade",
        }
    }
}

impl std::str::FromStr for SnapAlgo {
    type Err = String;

    fn from_str(s: &str) -> (r: Result<Self, String>)
        ensures
            match algo_of_name(s@) {
                Some(a) => r == Ok::<SnapAlgo, String>(a),
                None => r matches Err(msg) && msg@ == unknown_algo_msg(s@),
            },
    {
        SnapAlgo::parse(s)
    }
}

} // verus!
