use cgrun::control::{
    apply_dmem_limits, dirs_there, dmem_write_limit, ensure_control_hierarchy, has_controller,
    memory_available, set_cpu_weight, set_cpu_weight_nice, set_memory_high, set_memory_limit,
    set_memory_low, set_memory_max, set_memory_min, CpuError,
};
use cgrun::dmem::{
    expand_dmem_specs, parse_dmem_spec, read_dmem_capacity, Capacity, CapacityError, ExpandError,
    SpecError,
};
use cgrun::message::{expand_message, size_message, spec_message};
use cgrun::size::{format_size, parse_size, SizeError};

const G: u64 = 1024 * 1024 * 1024;

fn two_regions() -> Capacity {
    let mut cap = Capacity::new();
    cap.insert("drm/0000:03:00.0/vram".to_string(), 8 * 1024 * 1024 * 1024);
    cap.insert("drm/0000:03:00.0/gtt".to_string(), 0);
    cap
}

#[test]
fn sizes() {
    assert_eq!(parse_size("7G").unwrap(), Some(7 * 1024 * 1024 * 1024));
    assert_eq!(parse_size("max").unwrap(), None);
    assert_eq!(parse_size("512M").unwrap(), Some(512 * 1024 * 1024));
}

#[test]
fn every_unit_has_its_multiplier() {
    for (unit, bytes) in [
        ("", 1u64),
        ("b", 1),
        ("k", 1 << 10),
        ("kb", 1 << 10),
        ("KiB", 1 << 10),
        ("m", 1 << 20),
        ("MB", 1 << 20),
        ("mib", 1 << 20),
        ("g", 1 << 30),
        ("gb", 1 << 30),
        ("GiB", 1 << 30),
        ("t", 1 << 40),
        ("tb", 1 << 40),
        ("tib", 1 << 40),
    ] {
        assert_eq!(parse_size(&format!("3{unit}")), Ok(Some(3 * bytes)));
        assert_eq!(parse_size(&format!(" 3 {unit} ")), Ok(Some(3 * bytes)));
    }
}

#[test]
fn sizes_ignore_case() {
    assert_eq!(parse_size("MAX"), Ok(None));
    assert_eq!(parse_size("2gIb"), parse_size("2GIB"));
}

#[test]
fn sizes_read_back() {
    for v in [None, Some(0), Some(1), Some(10), Some(4096), Some(u64::MAX)] {
        assert_eq!(parse_size(&format_size(v)), Ok(v));
    }
    assert_eq!(format_size(Some(18446744073709551615)), "18446744073709551615");
    assert_eq!(format_size(None), "max");
}

#[test]
fn what_is_no_size() {
    assert_eq!(parse_size("  "), Err(SizeError::Empty));
    assert_eq!(parse_size("G7"), Err(SizeError::Invalid));
    assert_eq!(parse_size("-1"), Err(SizeError::Invalid));
    assert_eq!(parse_size("18446744073709551616"), Err(SizeError::TooLarge));
    assert_eq!(parse_size("7X"), Err(SizeError::UnknownSuffix));
    assert_eq!(parse_size("7.5G"), Err(SizeError::UnknownSuffix));
    assert_eq!(parse_size("16777216T"), Err(SizeError::Overflow));
    assert_eq!(parse_size("16777215T"), Ok(Some(16777215 << 40)));
}

#[test]
fn size_messages() {
    assert_eq!(size_message(SizeError::Empty, " "), "empty size");
    assert_eq!(size_message(SizeError::Invalid, " x "), "invalid size 'x'");
    assert_eq!(
        size_message(SizeError::TooLarge, "18446744073709551616"),
        "invalid size '18446744073709551616': number too large to fit in target type"
    );
    assert_eq!(size_message(SizeError::UnknownSuffix, "7 zz"), "unknown suffix 'zz' in '7 zz'");
    assert_eq!(size_message(SizeError::Overflow, "9T"), "size overflow in '9T'");
}

#[test]
fn expand_all() {
    let cap = two_regions();
    assert_eq!(expand_dmem_specs(&["4G".into()], &cap).unwrap().len(), 2);
}

#[test]
fn expansion_keeps_order_and_values() {
    let cap = two_regions();
    let got = expand_dmem_specs(
        &["4G".to_string(), "drm/0000:03:00.0/gtt:max".to_string()],
        &cap,
    )
    .unwrap();
    assert_eq!(
        got,
        vec![
            ("drm/0000:03:00.0/vram".to_string(), Some(4 * G)),
            ("drm/0000:03:00.0/gtt".to_string(), Some(4 * G)),
            ("drm/0000:03:00.0/gtt".to_string(), None),
        ]
    );
    assert!(expand_dmem_specs(&[], &cap).unwrap().is_empty());
}

#[test]
fn what_cannot_be_expanded() {
    let cap = two_regions();
    let specs = vec!["1G".to_string(), "drm/none:2G".to_string()];
    let e = expand_dmem_specs(&specs, &cap).unwrap_err();
    assert_eq!(e, ExpandError::UnknownRegion { at: 1 });
    assert_eq!(
        expand_message(e, &specs, &cap),
        "unknown region 'drm/none'; available: drm/0000:03:00.0/vram, drm/0000:03:00.0/gtt"
    );
    let specs = vec!["1G".to_string(), "a b c".to_string()];
    let e = expand_dmem_specs(&specs, &cap).unwrap_err();
    assert_eq!(e, ExpandError::Spec { at: 1, error: SpecError::Malformed });
    assert_eq!(
        expand_message(e, &specs, &cap),
        "invalid spec 'a b c': use '<size>' or '<region>:<size>'"
    );
    let e = expand_dmem_specs(&specs, &Capacity::new()).unwrap_err();
    assert_eq!(e, ExpandError::NoRegions);
    assert_eq!(
        expand_message(e, &specs, &Capacity::new()),
        "no dmem regions (check dmem.capacity / driver)"
    );
}

#[test]
fn region_forms() {
    for raw in [
        "drm/0000:03:00.0/vram:7G",
        "drm/0000:03:00.0/vram=7G",
        "drm/0000:03:00.0/vram 7G",
        "  drm/0000:03:00.0/vram   7G ",
    ] {
        let d = parse_dmem_spec(raw).unwrap();
        assert_eq!(d.region.as_deref(), Some("drm/0000:03:00.0/vram"));
        assert_eq!(d.value, Some(7 * G));
    }
    let d = parse_dmem_spec("drm/card0/vram:4G").unwrap();
    assert_eq!(d.region.as_deref(), Some("drm/card0/vram"));
    assert_eq!(d.value, Some(4 * G));
    let d = parse_dmem_spec("drm/card0/gtt=max").unwrap();
    assert_eq!(d.value, None);
    let copy = d.clone();
    assert_eq!((copy.region, copy.value), (d.region, d.value));
    let d = parse_dmem_spec("512M").unwrap();
    assert!(d.region.is_none());
    assert_eq!(d.value, Some(512 << 20));
    assert!(parse_dmem_spec("max").unwrap().value.is_none());
}

#[test]
fn what_is_no_spec() {
    assert_eq!(parse_dmem_spec(" ").unwrap_err(), SpecError::Empty);
    assert_eq!(parse_dmem_spec("vram:7G").unwrap_err(), SpecError::Malformed);
    assert_eq!(parse_dmem_spec("vram 7G").unwrap_err(), SpecError::Malformed);
    assert_eq!(parse_dmem_spec("drm/a:").unwrap_err(), SpecError::Size(SizeError::Empty));
    assert_eq!(
        parse_dmem_spec("drm/a:7Q").unwrap_err(),
        SpecError::Size(SizeError::UnknownSuffix)
    );
    assert_eq!(spec_message(SpecError::Empty, ""), "empty spec");
    assert_eq!(
        spec_message(SpecError::Size(SizeError::UnknownSuffix), "drm/a:7Q"),
        "unknown suffix 'Q' in '7Q'"
    );
}

#[test]
fn capacities() {
    let cap = read_dmem_capacity(Some("drm/a/vram 100\n\n  drm/a/gtt 7 extra\ndrm/a/vram 5\n")).unwrap();
    assert_eq!(cap.len(), 2);
    assert_eq!(cap.name(0), "drm/a/vram");
    assert_eq!(cap.name(1), "drm/a/gtt");
    assert_eq!((cap.size(0), cap.size(1)), (5, 7));
    assert!(cap.contains("drm/a/gtt"));
    assert!(!cap.contains("drm/a"));
    assert!(read_dmem_capacity(None).unwrap().is_empty());
    assert_eq!(read_dmem_capacity(Some("drm/a\n")).unwrap_err(), CapacityError::MissingSize);
    assert_eq!(read_dmem_capacity(Some("drm/a x\n")).unwrap_err(), CapacityError::BadSize);
}

#[test]
fn dmem_writes() {
    let s = dmem_write_limit("dmem.low", "drm/a", Some(12));
    assert_eq!(s.file, "dmem.low");
    assert_eq!(s.body, "drm/a 12\n");
    let all = apply_dmem_limits("dmem.max", &["max".to_string()], &two_regions()).unwrap();
    assert_eq!(all.len(), 2);
    assert_eq!(all[0].file, "dmem.max");
    assert_eq!(all[0].body, "drm/0000:03:00.0/vram max\n");
    assert_eq!(all[1].body, "drm/0000:03:00.0/gtt max\n");
    assert!(apply_dmem_limits("dmem.max", &["nope/x:1".to_string()], &two_regions()).is_err());
    let back = parse_dmem_spec(&dmem_write_limit("dmem.low", "drm/0:1/vram", Some(7)).body).unwrap();
    assert_eq!(back.region.as_deref(), Some("drm/0:1/vram"));
    assert_eq!(back.value, Some(7));
}

#[test]
fn memory_limit_roundtrip() {
    let body = set_memory_limit("memory.max", "512M").unwrap().body;
    assert_eq!(body.trim(), (512u64 * 1024 * 1024).to_string());
    let body = set_memory_limit("memory.max", "max").unwrap().body;
    assert_eq!(body.trim(), "max");
    assert_eq!(parse_size(&set_memory_max("3k").unwrap().body), parse_size("3k"));
}

#[test]
fn memory_files() {
    assert_eq!(set_memory_max("1k").unwrap().file, "memory.max");
    assert_eq!(set_memory_high("1k").unwrap().file, "memory.high");
    assert_eq!(set_memory_low("1k").unwrap().file, "memory.low");
    assert_eq!(set_memory_min("1k").unwrap().file, "memory.min");
    assert_eq!(set_memory_min("1k").unwrap().body, "1024\n");
    assert_eq!(set_memory_high("x").unwrap_err(), SizeError::Invalid);
    let names = vec!["cpu".to_string(), "memory".to_string()];
    assert!(memory_available(&names));
    assert!(!memory_available(&names[..1]));
    assert!(has_controller(&names, "cpu"));
    assert!(!has_controller(&names, "dmem"));
}

#[test]
fn processor_shares() {
    assert_eq!(set_cpu_weight(1).unwrap().body, "1");
    assert_eq!(set_cpu_weight(10000).unwrap().body, "10000");
    assert_eq!(set_cpu_weight(500).unwrap().file, "cpu.weight");
    assert_eq!(set_cpu_weight(0).unwrap_err(), CpuError::Weight);
    assert_eq!(set_cpu_weight(10001).unwrap_err(), CpuError::Weight);
    assert_eq!(set_cpu_weight_nice(-20).unwrap().body, "-20");
    assert_eq!(set_cpu_weight_nice(19).unwrap().body, "19");
    assert_eq!(set_cpu_weight_nice(0).unwrap().file, "cpu.weight.nice");
    assert_eq!(set_cpu_weight_nice(-21).unwrap_err(), CpuError::Nice);
    assert_eq!(set_cpu_weight_nice(20).unwrap_err(), CpuError::Nice);
}

#[test]
fn hierarchy_from_the_top_down() {
    let h = ensure_control_hierarchy(
        "/sys/fs/cgroup",
        "user.slice/user-1000.slice/cgrun-71217-70fb.scope",
    );
    assert!(h.sound);
    assert_eq!(
        h.dirs,
        vec![
            "/sys/fs/cgroup",
            "/sys/fs/cgroup/user.slice",
            "/sys/fs/cgroup/user.slice/user-1000.slice",
        ]
    );
    assert_eq!(
        dirs_there(&h, &[false, false, true]),
        vec!["/sys/fs/cgroup", "/sys/fs/cgroup/user.slice/user-1000.slice"]
    );
    assert_eq!(dirs_there(&h, &[]), vec!["/sys/fs/cgroup"]);
    let h = ensure_control_hierarchy("/sys/fs/cgroup", "leaf");
    assert!(h.sound);
    assert_eq!(h.dirs, vec!["/sys/fs/cgroup"]);
    let h = ensure_control_hierarchy("/m", "a/../b/c");
    assert!(!h.sound);
    assert_eq!(h.dirs, vec!["/m", "/m/a"]);
}
