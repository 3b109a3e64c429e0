use nixbench::{parse_udev, udev_total_fits, MemoryInfoError, Properties};

fn props(pairs: &[(&str, &str)]) -> Properties {
    let mut p = Properties::new();
    for (k, v) in pairs {
        p.insert(k.to_string(), v.to_string());
    }
    p
}

fn two_modules() -> Vec<(&'static str, &'static str)> {
    vec![
        ("MEMORY_ARRAY_NUM_DEVICES", "2"),
        ("MEMORY_DEVICE_0_SIZE", "34359738368"),
        ("MEMORY_DEVICE_0_TYPE", "DDR5"),
        ("MEMORY_DEVICE_0_SPEED_MTS", "6000"),
        ("MEMORY_DEVICE_0_FORM_FACTOR", "DIMM"),
        ("MEMORY_DEVICE_1_SIZE", "34359738368"),
        ("MEMORY_DEVICE_1_TYPE", "DDR5-X"),
        ("MEMORY_DEVICE_1_SPEED_MTS", "5600"),
        ("MEMORY_DEVICE_1_FORM_FACTOR", "SODIMM"),
    ]
}

#[test]
fn parse_udev_two_modules() {
    let p = props(&two_modules());
    assert!(udev_total_fits(&p));
    let info = parse_udev(&p).ok().unwrap();
    assert_eq!(info.num_modules, 2);
    assert_eq!(info.modules.len(), 2);
    assert_eq!(info.total_size_bytes, 68719476736);
    assert_eq!(info.memory_type, "DDR5-X");
    assert_eq!(info.speed_mts, 5600);
    assert_eq!(info.form_factor, "SODIMM");
    assert_eq!(info.modules[0].memory_type, "DDR5");
    assert_eq!(info.modules[0].size_bytes, 34359738368);
    assert_eq!(info.modules[0].speed_mts, 6000);
    assert_eq!(info.modules[0].form_factor, "DIMM");
}

#[test]
fn parse_udev_reports_first_bad_property() {
    let mut pairs = two_modules();
    pairs.retain(|(k, _)| *k != "MEMORY_DEVICE_1_TYPE");
    let p = props(&pairs);
    match parse_udev(&p) {
        Err(MemoryInfoError::PropertyParseError { property }) => assert_eq!(property, "MEMORY_DEVICE_1_TYPE"),
        _ => panic!("expected a property error"),
    }
}

#[test]
fn parse_udev_malformed_size_and_speed() {
    let mut pairs = two_modules();
    pairs.push(("MEMORY_DEVICE_0_SIZE", "32 GB"));
    match parse_udev(&props(&pairs)) {
        Err(MemoryInfoError::PropertyParseError { property }) => assert_eq!(property, "MEMORY_DEVICE_0_SIZE"),
        _ => panic!("expected a property error"),
    }
    let mut pairs = two_modules();
    pairs.push(("MEMORY_DEVICE_1_SPEED_MTS", "4294967296"));
    match parse_udev(&props(&pairs)) {
        Err(MemoryInfoError::PropertyParseError { property }) => {
            assert_eq!(property, "MEMORY_DEVICE_1_SPEED_MTS")
        }
        _ => panic!("expected a property error"),
    }
    let mut pairs = two_modules();
    pairs.retain(|(k, _)| *k != "MEMORY_DEVICE_0_FORM_FACTOR");
    match parse_udev(&props(&pairs)) {
        Err(MemoryInfoError::PropertyParseError { property }) => {
            assert_eq!(property, "MEMORY_DEVICE_0_FORM_FACTOR")
        }
        _ => panic!("expected a property error"),
    }
}

#[test]
fn parse_udev_without_devices() {
    assert!(matches!(parse_udev(&props(&[])), Err(MemoryInfoError::NoDevicesFound)));
    assert!(matches!(
        parse_udev(&props(&[("MEMORY_ARRAY_NUM_DEVICES", "two")])),
        Err(MemoryInfoError::NoDevicesFound)
    ));
    assert!(matches!(
        parse_udev(&props(&[("MEMORY_ARRAY_NUM_DEVICES", "0")])),
        Err(MemoryInfoError::NoDevicesFound)
    ));
}

#[test]
fn parse_udev_ignores_devices_beyond_count() {
    let mut pairs = two_modules();
    pairs.push(("MEMORY_ARRAY_NUM_DEVICES", "+1"));
    let info = parse_udev(&props(&pairs)).ok().unwrap();
    assert_eq!(info.num_modules, 1);
    assert_eq!(info.total_size_bytes, 34359738368);
    assert_eq!(info.memory_type, "DDR5");
}

#[test]
fn udev_total_fits_detects_overflow() {
    let p = props(&[
        ("MEMORY_ARRAY_NUM_DEVICES", "2"),
        ("MEMORY_DEVICE_0_SIZE", "18446744073709551615"),
        ("MEMORY_DEVICE_0_TYPE", "DDR4"),
        ("MEMORY_DEVICE_0_SPEED_MTS", "3200"),
        ("MEMORY_DEVICE_0_FORM_FACTOR", "DIMM"),
        ("MEMORY_DEVICE_1_SIZE", "1"),
        ("MEMORY_DEVICE_1_TYPE", "DDR4"),
        ("MEMORY_DEVICE_1_SPEED_MTS", "3200"),
        ("MEMORY_DEVICE_1_FORM_FACTOR", "DIMM"),
    ]);
    assert!(!udev_total_fits(&p));
}

#[test]
fn memory_error_messages() {
    assert_eq!(
        MemoryInfoError::EnumerationFailed("no access".to_string()).message(),
        "Failed to enumerate DMI devices: no access"
    );
    assert_eq!(MemoryInfoError::NoDevicesFound.message(), "No memory devices found in DMI data");
    assert_eq!(
        MemoryInfoError::PropertyParseError { property: "MEMORY_DEVICE_0_SIZE".to_string() }.message(),
        "Failed to parse memory property: MEMORY_DEVICE_0_SIZE"
    );
}

#[test]
fn properties_later_insert_replaces() {
    let mut p = Properties::new();
    assert!(p.get("a").is_none());
    p.insert("a".to_string(), "1".to_string());
    p.insert("b".to_string(), "2".to_string());
    p.insert("a".to_string(), "3".to_string());
    assert_eq!(p.get("a").map(|s| s.as_str()), Some("3"));
    assert_eq!(p.get("b").map(|s| s.as_str()), Some("2"));
    assert!(p.get("c").is_none());
}

#[test]
fn parse_udev_ignores_other_keys() {
    let mut pairs = two_modules();
    pairs.push(("MEMORY_DEVICE_2_SIZE", "1"));
    pairs.push(("MEMORY_DEVICE_0_PRESENT", "1"));
    let a = parse_udev(&props(&two_modules())).ok().unwrap();
    let b = parse_udev(&props(&pairs)).ok().unwrap();
    assert_eq!(a.total_size_bytes, b.total_size_bytes);
    assert_eq!(a.num_modules, b.num_modules);
    assert_eq!(a.memory_type, b.memory_type);
}
