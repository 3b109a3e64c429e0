use nixbench::{count_physical_cpus, cpu_core_count, cpu_vendor_id, cpuinfo_properties, parse_cache_sets};

const CPUINFO: &str = "processor\t: 0\nvendor_id\t: AuthenticAMD\ncpu family\t: 25\nmodel name\t: AMD Ryzen 5 7600X 6-Core Processor\ncpu cores\t: 6\nflags\t\t: fpu vme\n\nprocessor\t: 1\nvendor_id\t: Other\ncpu cores\t: 99\n";

#[test]
fn cpuinfo_first_block() {
    let p = cpuinfo_properties(CPUINFO);
    assert_eq!(cpu_vendor_id(&p), "AuthenticAMD");
    assert_eq!(cpu_core_count(&p), 6);
    assert_eq!(p.get("model name").map(|s| s.as_str()), Some("AMD Ryzen 5 7600X 6-Core Processor"));
    assert_eq!(p.get("flags").map(|s| s.as_str()), Some("fpu vme"));
}

#[test]
fn cpuinfo_crlf_and_missing_fields() {
    let p = cpuinfo_properties("vendor_id : GenuineIntel\r\nno colon here\r\ncpu cores: many\r\n");
    assert_eq!(cpu_vendor_id(&p), "GenuineIntel");
    assert_eq!(cpu_core_count(&p), 1);
    let empty = cpuinfo_properties("");
    assert_eq!(cpu_vendor_id(&empty), "");
    assert_eq!(cpu_core_count(&empty), 1);
}

#[test]
fn cpuinfo_later_key_wins_and_empty_line_stops() {
    let p = cpuinfo_properties("cpu cores: 2\ncpu cores: 4\n\ncpu cores: 8");
    assert_eq!(cpu_core_count(&p), 4);
    let q = cpuinfo_properties("\nvendor_id: X");
    assert_eq!(cpu_vendor_id(&q), "");
}

#[test]
fn physical_cpus_from_range() {
    assert_eq!(count_physical_cpus("0-11\n"), Some(12));
    assert_eq!(count_physical_cpus("0-0"), Some(1));
    assert_eq!(count_physical_cpus("0-x\n"), Some(1));
    assert_eq!(count_physical_cpus("0-3,5-7\n"), Some(1));
    assert_eq!(count_physical_cpus("0-18446744073709551615"), None);
}

#[test]
fn physical_cpus_from_list() {
    assert_eq!(count_physical_cpus("0\n"), Some(1));
    assert_eq!(count_physical_cpus("0,2,4\n"), Some(3));
    assert_eq!(count_physical_cpus(""), Some(1));
}

#[test]
fn cache_sets_parse() {
    assert_eq!(parse_cache_sets("16384\n"), Some(16384));
    assert_eq!(parse_cache_sets("  +7 "), Some(7));
    assert_eq!(parse_cache_sets("abc"), None);
    assert_eq!(parse_cache_sets(""), None);
    assert_eq!(parse_cache_sets("18446744073709551616"), None);
}

#[test]
fn cpu_facts_from_files() {
    let facts = nixbench::cpu_facts(CPUINFO, "32768\n", "0-11\n").ok().unwrap();
    assert_eq!(facts.vendor_id, "AuthenticAMD");
    assert_eq!(facts.cpu_cores, 6);
    assert_eq!(facts.physical_cpus, 12);
    assert_eq!(count_physical_cpus("0-11\n"), Some(facts.physical_cpus));
    assert_eq!(facts.l3_cache_kb, 32768);
}

#[test]
fn cpu_facts_errors() {
    assert!(matches!(
        nixbench::cpu_facts(CPUINFO, "n/a", "0-11"),
        Err(nixbench::CpuFactsError::MalformedCacheSets)
    ));
    assert!(matches!(
        nixbench::cpu_facts(CPUINFO, "1", "0-18446744073709551615"),
        Err(nixbench::CpuFactsError::CpuCountOverflow)
    ));
}
