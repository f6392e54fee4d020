use btm::driver::btrfs::Btrfs;
use btm::driver::zfs::Zfs;
use btm::driver::{
    clean_all, fade_to_delete, fair_to_delete, gen_snapshot, idx_aligned, rollback,
    rollback_target, sorted_snapshots, Fs,
};
use btm::error::BtmError;
use btm::{BtmCfg, SnapAlgo, SnapMode};

fn cfg_with_volume(volume: &str, mode: SnapMode) -> BtmCfg {
    BtmCfg {
        itv: 1,
        cap: 100,
        cap_clean_kept: 0,
        mode,
        algo: SnapAlgo::Fair,
        volume: volume.to_owned(),
    }
}

#[test]
fn idx_alignment() {
    assert!(idx_aligned(u64::MAX, 10));
    assert!(idx_aligned(u64::MAX - 10, 10));
    assert!(!idx_aligned(u64::MAX - 5, 10));
    // itv = 1 accepts every index
    (0..100u64).for_each(|i| assert!(idx_aligned(i, 1)));
}

#[test]
fn rollback_target_selection() {
    let snaps = [10u64, 20, 30];

    // empty set
    assert!(rollback_target(&[], None, false).is_err());

    // None => latest
    assert_eq!(30, rollback_target(&snaps, None, true).unwrap());

    // exact match
    assert_eq!(20, rollback_target(&snaps, Some(20), true).unwrap());

    // lax fallback: newest snapshot older than the request
    assert_eq!(20, rollback_target(&snaps, Some(25), false).unwrap());

    // lax fallback: request newer than everything => latest
    assert_eq!(30, rollback_target(&snaps, Some(99), false).unwrap());

    // strict miss
    assert!(rollback_target(&snaps, Some(25), true).is_err());

    // request older than everything: nothing to fall back to
    assert!(rollback_target(&snaps, Some(5), false).is_err());
}

#[test]
fn fair_selection() {
    let snaps = [50u64, 40, 30, 20, 10];
    assert!(fair_to_delete(&snaps, 5).is_empty());
    assert!(fair_to_delete(&snaps, 9).is_empty());
    assert_eq!([20u64, 10].as_slice(), fair_to_delete(&snaps, 3));
    assert_eq!(snaps.as_slice(), fair_to_delete(&snaps, 0));
}

#[test]
fn fade_selection() {
    // itv = 2, cap = 20 => chunk_size = 2, denominators 2, 4, 8, ...
    // u64::MAX is odd, so "aligned to 2" means odd indexes,
    // "aligned to 4" means idx % 4 == 3, and so on.
    let snaps: Vec<u64> = (0..=21u64).rev().collect();
    let mut to_del = fade_to_delete(&snaps, 2, 20);
    to_del.sort_unstable();
    let expected: Vec<u64> = (0..=20u64).filter(|n| ![15, 19].contains(n)).collect();
    assert_eq!(expected, to_del);

    // below one chunk of snapshots: nothing to clean
    assert!(fade_to_delete(&[5, 4], 2, 20).is_empty());

    // itv = 1 keeps every in-cap snapshot and trims the overflow
    let mut to_del = fade_to_delete(&snaps, 1, 20);
    to_del.sort_unstable();
    assert_eq!(vec![0u64, 1], to_del);
}

#[test]
fn zfs_parse_snapshot_line() {
    let cfg = cfg_with_volume("tank/igp24", SnapMode::Zfs);
    let parse = |l| Zfs::parse_snapshot_line(&cfg, l);

    assert_eq!(Some(449), parse("tank/igp24@449"));
    assert_eq!(Some(0), parse("tank/igp24@0"));

    // manual snapshots must not become phantom numeric entries
    assert_eq!(None, parse("tank/igp24@20260706-predeploy"));
    assert_eq!(None, parse("tank/igp24@backup"));

    // child datasets are not ours
    assert_eq!(None, parse("tank/igp24/child@449"));

    // no sign prefixes, no overflow, no empty index
    assert_eq!(None, parse("tank/igp24@+449"));
    assert_eq!(None, parse("tank/igp24@99999999999999999999999999"));
    assert_eq!(None, parse("tank/igp24@"));
    assert_eq!(None, parse(""));
}

#[test]
fn btrfs_parse_snapshot_line() {
    let cfg = cfg_with_volume("/btrfs/data", SnapMode::Btrfs);
    let parse = |l| Btrfs::parse_snapshot_line(&cfg, l);

    assert_eq!(Some(123), parse("ID 256 gen 30 top level 5 path data@123"));
    assert_eq!(
        Some(77),
        parse("ID 256 gen 30 top level 5 path nested/data@77")
    );

    // snapshots of sibling subvolumes must not match
    assert_eq!(None, parse("ID 256 gen 30 top level 5 path other@123"));

    // manual snapshots must not become phantom numeric entries
    assert_eq!(
        None,
        parse("ID 256 gen 30 top level 5 path data@2026-predeploy")
    );

    assert_eq!(None, parse("garbage"));
    assert_eq!(None, parse(""));
}

#[test]
fn command_strings() {
    let cfg = cfg_with_volume("tank/data", SnapMode::Zfs);
    assert_eq!(
        "zfs list -H -t snapshot -d 1 -o name tank/data",
        Zfs::list_snapshots_cmd(&cfg)
    );
    assert_eq!(
        "zfs snapshot tank/data@7",
        Zfs::create_snapshot_cmd("tank/data", 7)
    );
    assert_eq!(
        "zfs rollback -r tank/data@7",
        Zfs::rollback_cmd("tank/data", 7)
    );
    assert_eq!("zfs destroy tank/data@7", Zfs::destroy_cmd("tank/data", 7));
    // the volume check must be read-only: no `create` fallback
    assert!(!Zfs::check_volume_cmd("tank/data").contains("create"));
    // batch destroy folds every index into one command
    assert_eq!(
        "zfs destroy tank/data@3,2,1",
        btm::driver::zfs::batch_destroy_cmd("tank/data", &[3, 2, 1])
    );

    let cfg = cfg_with_volume("/btrfs/data", SnapMode::Btrfs);
    assert_eq!(
        "btrfs subvolume list -so /btrfs",
        Btrfs::list_snapshots_cmd(&cfg)
    );
    assert!(!Btrfs::check_volume_cmd("/btrfs/data").contains("create"));

    // a bare relative volume name must probe the CWD, not "/"
    let cfg = cfg_with_volume("data", SnapMode::Btrfs);
    assert_eq!(
        "btrfs subvolume list -so .",
        Btrfs::list_snapshots_cmd(&cfg)
    );
}

#[test]
fn degenerate_cfg_rejected_before_exec() {
    // these must all fail during validation, BEFORE any shell
    // command runs, so the test is safe on every platform

    // itv = 0 would silently skip every snapshot forever
    let mut cfg = cfg_with_volume("tank/data", SnapMode::Zfs);
    cfg.itv = 0;
    assert!(gen_snapshot(Fs::Zfs, &cfg, 42, "").is_err());

    // cap = 0 would mass-delete all existing snapshots
    let mut cfg = cfg_with_volume("tank/data", SnapMode::Zfs);
    cfg.cap = 0;
    assert!(gen_snapshot(Fs::Zfs, &cfg, 42, "").is_err());

    // a struct-literal config with a hostile volume must be
    // stopped even though BtmCfg::new was bypassed
    let cfg = cfg_with_volume("tank/data; rm -rf /", SnapMode::Zfs);
    assert!(gen_snapshot(Fs::Zfs, &cfg, 42, "").is_err());
    let cfg = cfg_with_volume("-o exec=evil", SnapMode::Btrfs);
    assert!(gen_snapshot(Fs::Btrfs, &cfg, 42, "").is_err());
}

#[test]
fn fade_degenerates_below_step_cnt() {
    // cap < STEP_CNT => chunk_size = 0 => fade cannot thin chunks
    // and degenerates to the plain cap trim
    let snaps: Vec<u64> = (0..10u64).rev().collect();
    let mut to_del = fade_to_delete(&snaps, 2, 4);
    to_del.sort_unstable();
    assert_eq!(vec![0u64, 1, 2, 3, 4, 5], to_del);
}

#[test]
fn fade_keeps_order_of_chunks_then_overflow() {
    // chunk 0 = [21, 20] keeps odd (aligned to 2), chunk 1 = [19, 18]
    // keeps idx % 4 == 3, ...; the overflow beyond cap = 20 comes last
    let snaps: Vec<u64> = (0..=21u64).rev().collect();
    let to_del = fade_to_delete(&snaps, 2, 20);
    assert_eq!(
        vec![20u64, 18, 17, 16, 14, 13, 12, 11, 10, 9, 8, 7, 6, 5, 4, 3, 2, 1, 0],
        to_del
    );
}

#[test]
fn fade_equals_fair_for_itv_one_and_small_cap() {
    let snaps: Vec<u64> = (0..50u64).rev().collect();
    assert_eq!(fair_to_delete(&snaps, 30).to_vec(), fade_to_delete(&snaps, 1, 30));
    assert_eq!(fair_to_delete(&snaps, 7).to_vec(), fade_to_delete(&snaps, 3, 7));
    // everything beyond cap goes, and at most cap remain
    let d = fade_to_delete(&snaps, 3, 30);
    assert!(snaps[30..].iter().all(|x| d.contains(x)));
    assert!(d.len() + 30 >= snaps.len());
    assert!(d.iter().all(|x| snaps.contains(x)));
}

#[test]
fn alignment_nests_and_anchor() {
    for idx in 0..200u64 {
        let x = u64::MAX - idx;
        if idx_aligned(x, 9) {
            assert!(idx_aligned(x, 3));
        }
        assert!(idx_aligned(x, 1));
    }
    assert!(idx_aligned(u64::MAX, 0));
    assert!(!idx_aligned(5, 0));
    assert!(idx_aligned(u64::MAX, 12345));
}

#[test]
fn rollback_target_with_duplicates_and_single() {
    assert_eq!(Ok(7), rollback_target(&[7], None, false));
    assert_eq!(Ok(7), rollback_target(&[7], Some(100), false));
    assert_eq!(Err(BtmError::AllSnapshotsNewer), rollback_target(&[7], Some(6), false));
    assert_eq!(Err(BtmError::HeightNotFound), rollback_target(&[7], Some(8), true));
    assert_eq!(Err(BtmError::NoSnapshots), rollback_target(&[], Some(8), true));
    assert_eq!(Ok(20), rollback_target(&[10, 20, 20, 30], Some(20), true));
    assert_eq!(Ok(20), rollback_target(&[10, 20, 20, 30], Some(29), false));
}

#[test]
fn sorted_snapshots_sorts_and_dedups() {
    let cfg = cfg_with_volume("tank/d", SnapMode::Zfs);
    let out = "tank/d@5\ntank/d@12\r\nbogus\ntank/d@5\ntank/d/child@99\n  tank/d@7  \n";
    assert_eq!(vec![12u64, 7, 5], sorted_snapshots(Fs::Zfs, &cfg, out));
    assert!(sorted_snapshots(Fs::Zfs, &cfg, "").is_empty());
    let cfg = cfg_with_volume("/mnt/pool/data/", SnapMode::Btrfs);
    let out = "ID 1 gen 2 top level 5 path data@3\nID 2 gen 2 top level 5 path x/data@9\nID 3 gen 2 top level 5 path data@x";
    assert_eq!(vec![9u64, 3], sorted_snapshots(Fs::Btrfs, &cfg, out));
}

#[test]
fn btrfs_commands() {
    assert_eq!(
        "btrfs subvolume snapshot /b/d /b/d@12",
        Btrfs::create_snapshot_cmd("/b/d", 12)
    );
    assert_eq!("btrfs subvolume delete /b/d@12", Btrfs::destroy_cmd("/b/d", 12));
    assert_eq!("btrfs subvolume show /b/d", Btrfs::check_volume_cmd("/b/d"));
    assert_eq!(
        "[ ! -d /b/d.btm-rollback-tmp ] || btrfs subvolume delete /b/d.btm-rollback-tmp \
         && btrfs subvolume snapshot /b/d@3 /b/d.btm-rollback-tmp \
         && btrfs subvolume delete /b/d && mv /b/d.btm-rollback-tmp /b/d",
        Btrfs::rollback_cmd("/b/d", 3)
    );
    assert_eq!(
        "btrfs subvolume delete /b/d@3 /b/d@2",
        btm::driver::btrfs::batch_destroy_cmd("/b/d", &[3, 2])
    );
    let parent = |v: &str| Btrfs::list_snapshots_cmd(&cfg_with_volume(v, SnapMode::Btrfs));
    assert_eq!("btrfs subvolume list -so /", parent("/data"));
    assert_eq!("btrfs subvolume list -so /mnt", parent("/mnt/data/"));
    assert_eq!("btrfs subvolume list -so a", parent("a//b"));
    assert_eq!("btrfs subvolume list -so /", parent("/"));
}

#[test]
fn zfs_name_reads_back() {
    let cfg = cfg_with_volume("tank/x_1.y", SnapMode::Zfs);
    for idx in [0u64, 9, 10, 449, u64::MAX] {
        let cmd = Zfs::create_snapshot_cmd("tank/x_1.y", idx);
        let name = cmd.strip_prefix("zfs snapshot ").unwrap();
        assert_eq!(Some(idx), Zfs::parse_snapshot_line(&cfg, name));
    }
}

#[test]
fn snapshot_plans() {
    let mut cfg = cfg_with_volume("tank/d", SnapMode::Zfs);
    cfg.cap = 2;
    let listing = "tank/d@3\ntank/d@1\ntank/d@2\n";
    // already there
    assert_eq!(
        Err(BtmError::SnapshotExists(2)),
        gen_snapshot(Fs::Zfs, &cfg, 2, listing).map(|p| p.is_some())
    );
    // due: all but the newest cap - 1 go, the new one is created
    let plan = gen_snapshot(Fs::Zfs, &cfg, 4, listing).unwrap().unwrap();
    assert_eq!("zfs snapshot tank/d@4", plan.create);
    let d = plan.destroy.unwrap();
    assert_eq!(vec![2u64, 1], d.indexes);
    assert_eq!(
        vec!["zfs destroy tank/d@2".to_string(), "zfs destroy tank/d@1".to_string()],
        d.each
    );
    assert!(d.batch.is_none());
    assert!(d.needs_each(true));
    // not on the grid: nothing to do
    cfg.itv = 10;
    assert!(gen_snapshot(Fs::Zfs, &cfg, 4, listing).unwrap().is_none());
    // itv too large: 90^10 overflows
    cfg.itv = 90;
    assert_eq!(Err(BtmError::ItvTooLarge), gen_snapshot(Fs::Zfs, &cfg, 4, listing).map(|_| ()));

    // btrfs batches its deletions
    let mut cfg = cfg_with_volume("/b/data", SnapMode::Btrfs);
    cfg.cap = 1;
    let listing = "ID 1 gen 1 top level 5 path data@1\nID 2 gen 1 top level 5 path data@2\nID 3 gen 1 top level 5 path data@3\n";
    let plan = gen_snapshot(Fs::Btrfs, &cfg, 4, listing).unwrap().unwrap();
    let d = plan.destroy.unwrap();
    assert_eq!(vec![3u64, 2, 1], d.indexes);
    assert_eq!(
        Some("btrfs subvolume delete /b/data@3 /b/data@2 /b/data@1".to_string()),
        d.batch
    );
    assert_eq!(3, d.each.len());
    assert!(!d.needs_each(true));
    assert!(d.needs_each(false));
}

#[test]
fn due_snapshot_stays_within_cap() {
    // cap = 1: the one existing snapshot goes, so only the new one remains
    let mut cfg = cfg_with_volume("tank/d", SnapMode::Zfs);
    cfg.cap = 1;
    let plan = gen_snapshot(Fs::Zfs, &cfg, 7, "tank/d@5\n").unwrap().unwrap();
    assert_eq!(vec![5u64], plan.destroy.unwrap().indexes);
    assert_eq!("zfs snapshot tank/d@7", plan.create);
    // cap = 3 with room to spare: nothing goes
    cfg.cap = 3;
    let plan = gen_snapshot(Fs::Zfs, &cfg, 7, "tank/d@5\ntank/d@6\n").unwrap().unwrap();
    assert!(plan.destroy.is_none());
    // Fade: 25 existing snapshots, cap 20 => at most 19 kept besides the new one
    let mut cfg = cfg_with_volume("tank/d", SnapMode::Zfs);
    cfg.cap = 20;
    cfg.itv = 2;
    cfg.algo = SnapAlgo::Fade;
    let listing: String = (0..25u64).map(|i| format!("tank/d@{}\n", 2 * i + 1)).collect();
    let plan = gen_snapshot(Fs::Zfs, &cfg, u64::MAX, &listing).unwrap().unwrap();
    let gone = plan.destroy.unwrap().indexes;
    assert!(25 - gone.len() + 1 <= 20);
}

#[test]
fn zfs_mountpoints() {
    assert_eq!("zfs get -H -o value mountpoint tank/d", Zfs::mountpoint_cmd("tank/d"));
    assert_eq!(Some("/mnt/d".to_string()), Zfs::mountpoint("  /mnt/d\n"));
    assert_eq!(None, Zfs::mountpoint("legacy\n"));
    assert_eq!(None, Zfs::mountpoint("none"));
    assert_eq!(None, Zfs::mountpoint(""));
}

#[test]
fn rollback_plans() {
    let cfg = cfg_with_volume("tank/d", SnapMode::Zfs);
    let listing = "tank/d@30\ntank/d@10\ntank/d@20\n";
    assert_eq!(Ok("zfs rollback -r tank/d@30".to_string()), rollback(Fs::Zfs, &cfg, listing, None, false));
    assert_eq!(Ok("zfs rollback -r tank/d@20".to_string()), rollback(Fs::Zfs, &cfg, listing, Some(25), false));
    assert_eq!(Err(BtmError::HeightNotFound), rollback(Fs::Zfs, &cfg, listing, Some(25), true));
    assert_eq!(Err(BtmError::IndexOutOfRange), rollback(Fs::Zfs, &cfg, listing, Some(-1), false));
    assert_eq!(
        Err(BtmError::IndexOutOfRange),
        rollback(Fs::Zfs, &cfg, listing, Some(u64::MAX as i128 + 1), false)
    );
    assert_eq!(Err(BtmError::NoSnapshots), rollback(Fs::Zfs, &cfg, "", None, false));
}

#[test]
fn clean_all_keeps_newest() {
    let cfg = cfg_with_volume("tank/d", SnapMode::Zfs);
    let listing = "tank/d@3\ntank/d@1\ntank/d@2\n";
    let d = clean_all(Fs::Zfs, &cfg, 1, listing).unwrap();
    assert_eq!(vec![2u64, 1], d.indexes);
    assert!(clean_all(Fs::Zfs, &cfg, 3, listing).is_none());
    assert_eq!(vec![3u64, 2, 1], clean_all(Fs::Zfs, &cfg, 0, listing).unwrap().indexes);
}

#[test]
fn btrfs_name_reads_back() {
    let cfg = cfg_with_volume("/mnt/pool/data", SnapMode::Btrfs);
    for idx in [0u64, 7, 123, u64::MAX] {
        let plain = format!("data@{}", idx);
        let nested = format!("ID 256 gen 30 top level 5 path some/dir/data@{}", idx);
        let listed = format!("ID 256 gen 30 top level 5 path data@{}", idx);
        assert_eq!(Some(idx), Btrfs::parse_snapshot_line(&cfg, &plain));
        assert_eq!(Some(idx), Btrfs::parse_snapshot_line(&cfg, &nested));
        assert_eq!(Some(idx), Btrfs::parse_snapshot_line(&cfg, &listed));
    }
}
