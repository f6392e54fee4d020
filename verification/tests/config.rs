use btm::driver::Fs;
use btm::error::BtmError;
use btm::{BtmCfg, SnapAlgo, SnapMode, CAP_MAX};

#[test]
fn volume_validation() {
    assert!(BtmCfg::validate_volume("tank/igp24-v1_data.0").is_ok());
    assert!(BtmCfg::validate_volume("/btrfs/data").is_ok());

    assert!(BtmCfg::validate_volume("").is_err());
    assert!(BtmCfg::validate_volume("-o").is_err());
    assert!(BtmCfg::validate_volume("-tank/data").is_err());
    assert!(BtmCfg::validate_volume("tank/data; rm -rf /").is_err());
    assert!(BtmCfg::validate_volume("tank/data$(reboot)").is_err());
    assert!(BtmCfg::validate_volume("tank/data\u{4e2d}").is_err());
}

#[test]
fn params_validation() {
    let mut cfg = BtmCfg {
        itv: 1,
        cap: 100,
        cap_clean_kept: 0,
        mode: SnapMode::Zfs,
        algo: SnapAlgo::Fade,
        volume: "tank/data".to_owned(),
    };
    assert!(cfg.validate_params().is_ok());

    cfg.itv = 0;
    assert!(cfg.validate_params().is_err());

    // itv^STEP_CNT must not overflow u64
    cfg.itv = 90;
    assert!(cfg.validate_params().is_err());
    cfg.itv = 80;
    assert!(cfg.validate_params().is_ok());

    cfg.cap = 0;
    assert!(cfg.validate_params().is_err());
}

#[test]
fn enums_from_str() {
    assert!(matches!("zfs".parse(), Ok(SnapMode::Zfs)));
    assert!(matches!("BTRFS".parse(), Ok(SnapMode::Btrfs)));
    assert!(matches!("External".parse(), Ok(SnapMode::External)));
    assert!("xfs".parse::<SnapMode>().is_err());

    assert!(matches!("fair".parse(), Ok(SnapAlgo::Fair)));
    assert!(matches!("Fade".parse(), Ok(SnapAlgo::Fade)));
    assert!("fibonacci".parse::<SnapAlgo>().is_err());
}

#[test]
fn volume_errors_are_told_apart() {
    assert_eq!(Err(BtmError::EmptyVolume), BtmCfg::validate_volume(""));
    assert_eq!(Err(BtmError::VolumeLeadingDash), BtmCfg::validate_volume("-x"));
    assert_eq!(Err(BtmError::VolumeInvalidChar), BtmCfg::validate_volume("a b"));
}

#[test]
fn params_errors_are_told_apart() {
    let mut cfg = BtmCfg::with_mode("tank/d", SnapMode::Zfs).unwrap();
    cfg.itv = 0;
    assert_eq!(Err(BtmError::ItvZero), cfg.validate_params());
    cfg.itv = 5;
    cfg.cap = 0;
    assert_eq!(Err(BtmError::CapZero), cfg.validate_params());
    cfg.cap = 1;
    cfg.itv = 90;
    assert_eq!(Err(BtmError::ItvTooLarge), cfg.validate_params());
    // 84^10 < 2^64 <= 85^10
    cfg.itv = 84;
    assert_eq!(Ok(()), cfg.validate_params());
    cfg.itv = 85;
    assert_eq!(Err(BtmError::ItvTooLarge), cfg.validate_params());
    cfg.volume = "x;y".to_owned();
    assert_eq!(Err(BtmError::VolumeInvalidChar), cfg.validate_params());
}

#[test]
fn new_config_defaults() {
    let cfg = BtmCfg::new("tank/d", "ZFS").unwrap();
    assert_eq!(10, cfg.itv);
    assert_eq!(100, cfg.cap);
    assert_eq!(0, cfg.cap_clean_kept);
    assert_eq!(SnapMode::Zfs, cfg.mode);
    assert_eq!(SnapAlgo::Fair, cfg.algo);
    assert_eq!("tank/d", cfg.volume);
    assert_eq!(Err(BtmError::EmptyVolume), BtmCfg::new("", "zfs").map(|_| ()));
    assert_eq!(
        Err(BtmError::UnknownName("unknown snap mode: 'xfs'".to_string())),
        BtmCfg::new("tank/d", "xfs").map(|_| ())
    );
}

#[test]
fn names_read_back() {
    for m in [SnapMode::Zfs, SnapMode::Btrfs, SnapMode::External] {
        assert_eq!(Ok(m), SnapMode::parse(m.as_str()));
    }
    for a in [SnapAlgo::Fair, SnapAlgo::Fade] {
        assert_eq!(Ok(a), SnapAlgo::parse(a.as_str()));
    }
    assert_eq!(Err("unknown snap algo: 'fibonacci'".to_string()), SnapAlgo::parse("fibonacci"));
    assert_eq!(SnapAlgo::Fair, SnapAlgo::default());
}

#[test]
fn guess_modes() {
    let (z, b) = SnapMode::guess_cmds("tank/d").unwrap();
    assert_eq!("zfs list tank/d", z);
    assert_eq!("btrfs subvolume show tank/d", b);
    assert!(SnapMode::guess_cmds("a;b").is_err());
    assert_eq!(Ok(SnapMode::Zfs), SnapMode::guess("tank/d", true, true));
    assert_eq!(Ok(SnapMode::Btrfs), SnapMode::guess("tank/d", false, true));
    assert_eq!(Err(BtmError::NoDriver), SnapMode::guess("tank/d", false, false));
    assert_eq!(Err(BtmError::EmptyVolume), SnapMode::guess("", true, true));
}

#[test]
fn config_operations() {
    let mut cfg = BtmCfg::with_mode("tank/d", SnapMode::Zfs).unwrap();
    assert_eq!(Some(Fs::Zfs), cfg.fs());
    assert_eq!(Ok("zfs list -H -t snapshot -d 1 -o name tank/d".to_string()), cfg.listing_cmd());
    assert_eq!(Ok(vec![2u64, 1]), cfg.get_sorted_snapshots("tank/d@1\ntank/d@2"));
    cfg.cap_clean_kept = 1;
    assert_eq!(vec![1u64], cfg.clean_snapshots("tank/d@1\ntank/d@2").unwrap().unwrap().indexes);
    assert_eq!(Ok("zfs rollback -r tank/d@1".to_string()), cfg.rollback("tank/d@1\ntank/d@2", Some(1), true));
    cfg.cap = CAP_MAX + 1;
    assert_eq!(CAP_MAX, cfg.get_cap());
    cfg.mode = SnapMode::External;
    assert_eq!(None, cfg.fs());
    assert_eq!(Err(BtmError::ExternalMode), cfg.listing_cmd());
    assert_eq!(Err(BtmError::ExternalMode), cfg.get_sorted_snapshots(""));
    assert_eq!(Err(BtmError::ExternalMode), cfg.rollback("", None, false));
    assert!(matches!(cfg.clean_snapshots(""), Err(BtmError::ExternalMode)));
    assert!(matches!(cfg.snapshot(u64::MAX, ""), Err(BtmError::ExternalMode)));
}
