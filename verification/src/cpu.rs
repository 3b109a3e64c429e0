use vstd::prelude::*;

use crate::props::Properties;
use crate::text::{
    count_char, count_char_in, eq_pred, find_char_in, lemma_position_facts, parse_unsigned,
    parse_unsigned_in, parse_unsigned_str, position, split_once, string_from_range, to_chars,
    trim, trim_bounds, lemma_trim_len, decimal, lemma_decimal_denotes,
};

verus! {

/// `l` without the `\r` of a `\r\n` line ending.
pub open spec fn strip_cr(l: Seq<char>) -> Seq<char> {
    if l.len() > 0 && l.last() == '\r' {
        l.drop_last()
    } else {
        l
    }
}

/// The lines of `s` as `str::lines` yields them: split at `\n`, a `\r` before
/// the `\n` dropped, and no empty line after a final `\n`.
pub open spec fn lines(s: Seq<char>) -> Seq<Seq<char>>
    decreases s.len(),
{
    if s.len() == 0 {
        Seq::empty()
    } else {
        match position(s, eq_pred('\n')) {
            Some(i) => {
                proof {
                    lemma_position_facts(s, eq_pred('\n'));
                }
                seq![strip_cr(s.take(i))] + lines(s.skip(i + 1))
            },
            None => seq![s],
        }
    }
}

/// `m` with the `key: value` of line `l` added, both trimmed; `m` where the
/// line has no `:`.
pub open spec fn add_line(m: Map<Seq<char>, Seq<char>>, l: Seq<char>) -> Map<Seq<char>, Seq<char>> {
    match split_once(l, ':') {
        Some((key, value)) => m.insert(trim(key), trim(value)),
        None => m,
    }
}

/// `m` with the properties of the lines `ls` added, up to the first empty line.
pub open spec fn scan_block(ls: Seq<Seq<char>>, m: Map<Seq<char>, Seq<char>>) -> Map<Seq<char>, Seq<char>>
    decreases ls.len(),
{
    if ls.len() == 0 || ls[0].len() == 0 {
        m
    } else {
        scan_block(ls.drop_first(), add_line(m, ls[0]))
    }
}

/// The properties of the first processor that `/proc/cpuinfo` text describes:
/// the `key: value` lines before the first empty line, a later key replacing
/// an earlier one.
pub open spec fn spec_cpuinfo_properties(content: Seq<char>) -> Map<Seq<char>, Seq<char>> {
    scan_block(lines(content), Map::empty())
}

/// The properties of the first processor described by `content`, the text of
/// `/proc/cpuinfo`.
#[verifier::rlimit(40)]
pub fn cpuinfo_properties(content: &str) -> (props: Properties)
    ensures
        props@ == spec_cpuinfo_properties(content@),
{
    let cs = to_chars(content);
    let n = cs.len();
    let mut props = Properties::new();
    let mut pos: usize = 0;
    assert(cs@.skip(0) == cs@);
    if n == 0 {
        assert(lines(cs@) == Seq::<Seq<char>>::empty());
        return props;
    }
    while pos < n
        invariant
            pos <= n == cs.len(),
            cs@ == content@,
            spec_cpuinfo_properties(content@) == scan_block(lines(cs@.skip(pos as int)), props@),
        ensures
            spec_cpuinfo_properties(content@) == props@,
        decreases n - pos,
    {
        let ghost t = cs@.skip(pos as int);
        assert(t == cs@.subrange(pos as int, n as int));
        let (end, found) = match find_char_in(&cs, pos, n, '\n') {
            Some(j) => (j, true),
            None => (n, false),
        };
        let next = if found { end + 1 } else { n };
        let line_end = if found && end > pos && cs[end - 1] == '\r' { end - 1 } else { end };
        let ghost line = cs@.subrange(pos as int, line_end as int);
        proof {
            if found {
                assert(t.take(end - pos) == cs@.subrange(pos as int, end as int));
                assert(t.skip(end - pos + 1) == cs@.skip(next as int));
                assert(strip_cr(t.take(end - pos)) == line);
                assert(lines(t) == seq![line] + lines(cs@.skip(next as int)));
            } else {
                assert(t == line);
                assert(lines(t) == seq![line]);
            }
            assert(lines(t)[0] == line);
            assert(lines(t).drop_first() == if found { lines(cs@.skip(next as int)) } else { Seq::empty() });
        }
        if line_end == pos {
            break;
        }
        match find_char_in(&cs, pos, line_end, ':') {
            Some(c) => {
                let (ka, kb) = trim_bounds(&cs, pos, c);
                let (va, vb) = trim_bounds(&cs, c + 1, line_end);
                let key = string_from_range(&cs, ka, kb);
                let value = string_from_range(&cs, va, vb);
                proof {
                    assert(line.take(c - pos) == cs@.subrange(pos as int, c as int));
                    assert(line.skip(c - pos + 1) == cs@.subrange(c + 1, line_end as int));
                }
                props.insert(key, value);
            },
            None => {},
        }
        if next == n {
            assert(cs@.skip(n as int) == Seq::<char>::empty());
            assert(lines(cs@.skip(n as int)) == Seq::<Seq<char>>::empty());
        }
        pos = next;
    }
    props
}

/// The vendor of the processor (`vendor_id`), or the empty string.
pub open spec fn spec_cpu_vendor_id(props: Map<Seq<char>, Seq<char>>) -> Seq<char> {
    if props.contains_key("vendor_id"@) {
        props["vendor_id"@]
    } else {
        Seq::empty()
    }
}

/// The number of cores of the processor (`cpu cores`), or 1 where it is
/// missing or is no `usize`.
pub open spec fn spec_cpu_core_count(props: Map<Seq<char>, Seq<char>>) -> nat {
    if props.contains_key("cpu cores"@) {
        match parse_unsigned(props["cpu cores"@], usize::MAX as nat) {
            Some(n) => n,
            None => 1,
        }
    } else {
        1
    }
}

/// The vendor of the processor (`vendor_id`), or the empty string.
pub fn cpu_vendor_id(props: &Properties) -> (vendor: String)
    ensures
        vendor@ == spec_cpu_vendor_id(props@),
{
    match props.get("vendor_id") {
        Some(v) => v.clone(),
        None => String::new(),
    }
}

/// The number of cores of the processor (`cpu cores`), or 1 where it is
/// missing or is no `usize`.
pub fn cpu_core_count(props: &Properties) -> (cores: usize)
    ensures
        cores == spec_cpu_core_count(props@),
{
    match props.get("cpu cores") {
        Some(v) => match parse_unsigned_str(v.as_str(), usize::MAX as u64) {
            Some(n) => n as usize,
            None => 1,
        },
        None => 1,
    }
}

/// The core count reads the `cpu cores` property and no other: two property
/// maps that agree on whether `cpu cores` is present, and on its value, give
/// the same count, whatever else (`siblings`, `processor`, ...) they hold.
pub proof fn lemma_cpu_core_count_reads_only_cpu_cores(
    a: Map<Seq<char>, Seq<char>>,
    b: Map<Seq<char>, Seq<char>>,
)
    requires
        a.contains_key("cpu cores"@) == b.contains_key("cpu cores"@),
        a.contains_key("cpu cores"@) ==> a["cpu cores"@] == b["cpu cores"@],
    ensures
        spec_cpu_core_count(a) == spec_cpu_core_count(b),
{
}

/// Setting any property other than `cpu cores` leaves the core count as it was.
pub proof fn lemma_cpu_core_count_other_key(
    props: Map<Seq<char>, Seq<char>>,
    key: Seq<char>,
    value: Seq<char>,
)
    requires
        key != "cpu cores"@,
    ensures
        spec_cpu_core_count(props.insert(key, value)) == spec_cpu_core_count(props),
{
    lemma_cpu_core_count_reads_only_cpu_cores(props.insert(key, value), props);
}

/// Where `cpu cores` holds the decimal notation of a `usize` value `n`, the
/// core count is `n`, whatever the other properties hold; where there is no
/// `cpu cores` property, the count is 1.
pub proof fn lemma_cpu_core_count_value(props: Map<Seq<char>, Seq<char>>, n: nat)
    requires
        n <= usize::MAX,
    ensures
        spec_cpu_core_count(props.insert("cpu cores"@, decimal(n))) == n,
        !props.contains_key("cpu cores"@) ==> spec_cpu_core_count(props) == 1,
{
    lemma_decimal_denotes(n, usize::MAX as nat);
    assert(props.insert("cpu cores"@, decimal(n))["cpu cores"@] == decimal(n));
}

/// The vendor reads the `vendor_id` property and no other: two property maps
/// that agree on `vendor_id` give the same vendor.
pub proof fn lemma_cpu_vendor_id_reads_only_vendor_id(
    a: Map<Seq<char>, Seq<char>>,
    b: Map<Seq<char>, Seq<char>>,
)
    requires
        a.contains_key("vendor_id"@) == b.contains_key("vendor_id"@),
        a.contains_key("vendor_id"@) ==> a["vendor_id"@] == b["vendor_id"@],
    ensures
        spec_cpu_vendor_id(a) == spec_cpu_vendor_id(b),
        a.contains_key("vendor_id"@) ==> spec_cpu_vendor_id(a) == a["vendor_id"@],
{
}

/// The value of a sysfs file that holds one unsigned number, such as
/// `cache/index3/number_of_sets`: the trimmed text parsed as a `u64`.
pub fn parse_cache_sets(content: &str) -> (res: Option<u64>)
    ensures
        match parse_unsigned(trim(content@), u64::MAX as nat) {
            Some(v) => res == Some(v as u64),
            None => res is None,
        },
{
    let cs = to_chars(content);
    assert(cs@.subrange(0, cs.len() as int) == cs@);
    let (a, b) = trim_bounds(&cs, 0, cs.len());
    parse_unsigned_in(&cs, a, b, u64::MAX)
}

/// The number of CPUs that the text of `/sys/devices/system/cpu/online`
/// announces, `None` where the count does not fit in a `usize`: a range `0-N`
/// counts `N + 1` (1 where `N` is no number, or where there are several
/// ranges); a list `a,b,...` counts its entries.
pub open spec fn spec_count_physical_cpus(online: Seq<char>) -> Option<nat> {
    let t = trim(online);
    if count_char(online, '-') > 0 {
        if count_char(t, '-') == 1 {
            match parse_unsigned((split_once(t, '-')->0).1, usize::MAX as nat) {
                Some(end) => if end + 1 <= usize::MAX {
                    Some((end + 1) as nat)
                } else {
                    None
                },
                None => Some(1),
            }
        } else {
            Some(1)
        }
    } else {
        Some(count_char(t, ',') + 1)
    }
}

proof fn lemma_count_char_le(s: Seq<char>, c: char)
    ensures
        count_char(s, c) <= s.len(),
    decreases s.len(),
{
    if s.len() > 0 {
        lemma_count_char_le(s.drop_last(), c);
    }
}

/// The number of CPUs that `online`, the text of
/// `/sys/devices/system/cpu/online`, announces; `None` where it does not fit in
/// a `usize`.
pub fn count_physical_cpus(online: &str) -> (res: Option<usize>)
    requires
        online@.len() < usize::MAX,
    ensures
        match spec_count_physical_cpus(online@) {
            Some(n) => res == Some(n as usize),
            None => res is None,
        },
{
    let cs = to_chars(online);
    let n = cs.len();
    assert(cs@.subrange(0, n as int) == cs@);
    let (a, b) = trim_bounds(&cs, 0, n);
    let ghost t = cs@.subrange(a as int, b as int);
    if count_char_in(&cs, 0, n, '-') > 0 {
        if count_char_in(&cs, a, b, '-') == 1 {
            match find_char_in(&cs, a, b, '-') {
                Some(d) => {
                    assert(t.skip(d - a + 1) == cs@.subrange(d + 1, b as int));
                    match parse_unsigned_in(&cs, d + 1, b, usize::MAX as u64) {
                        Some(end) => {
                            if end == usize::MAX as u64 {
                                None
                            } else {
                                Some(end as usize + 1)
                            }
                        },
                        None => Some(1),
                    }
                },
                None => {
                    proof {
                        lemma_position_facts(t, eq_pred('-'));
                        assert(false) by {
                            lemma_no_char_count_zero(t, '-');
                        }
                    }
                    Some(1)
                },
            }
        } else {
            Some(1)
        }
    } else {
        let commas = count_char_in(&cs, a, b, ',');
        proof {
            lemma_count_char_le(t, ',');
        }
        Some(commas + 1)
    }
}

proof fn lemma_no_char_count_zero(s: Seq<char>, c: char)
    requires
        forall|j: int| 0 <= j < s.len() ==> !eq_pred(c)(#[trigger] s[j]),
    ensures
        count_char(s, c) == 0,
    decreases s.len(),
{
    if s.len() > 0 {
        assert(!eq_pred(c)(s[s.len() - 1]));
        assert forall|j: int| 0 <= j < s.drop_last().len() implies !eq_pred(c)(#[trigger] s.drop_last()[j]) by {
            assert(s.drop_last()[j] == s[j]);
        }
        lemma_no_char_count_zero(s.drop_last(), c);
    }
}

/// The processor facts that the host's files give, but for the maximum
/// frequency.
pub struct CpuFacts {
    pub vendor_id: String,
    pub physical_cpus: usize,
    pub cpu_cores: usize,
    pub l3_cache_kb: u64,
}

/// Why the processor facts could not be read.
pub enum CpuFactsError {
    /// The L3 cache file does not hold a `u64`.
    MalformedCacheSets,
    /// The CPU count does not fit in a `usize`.
    CpuCountOverflow,
}

/// The processor facts from the texts of `/proc/cpuinfo`, of the L3 cache's
/// `number_of_sets` and of `/sys/devices/system/cpu/online`.
pub fn cpu_facts(cpuinfo: &str, cache_sets: &str, online: &str) -> (res: Result<CpuFacts, CpuFactsError>)
    requires
        online@.len() < usize::MAX,
    ensures
        match parse_unsigned(trim(cache_sets@), u64::MAX as nat) {
            None => res matches Err(CpuFactsError::MalformedCacheSets),
            Some(l3) => match spec_count_physical_cpus(online@) {
                None => res matches Err(CpuFactsError::CpuCountOverflow),
                Some(cpus) => res matches Ok(f) && f.vendor_id@ == spec_cpu_vendor_id(
                    spec_cpuinfo_properties(cpuinfo@),
                ) && f.physical_cpus == cpus && f.cpu_cores == spec_cpu_core_count(
                    spec_cpuinfo_properties(cpuinfo@),
                ) && f.l3_cache_kb == l3,
            },
        },
{
    let props = cpuinfo_properties(cpuinfo);
    let vendor_id = cpu_vendor_id(&props);
    let l3_cache_kb = match parse_cache_sets(cache_sets) {
        Some(l3) => l3,
        None => {
            return Err(CpuFactsError::MalformedCacheSets);
        },
    };
    let physical_cpus = match count_physical_cpus(online) {
        Some(n) => n,
        None => {
            return Err(CpuFactsError::CpuCountOverflow);
        },
    };
    let cpu_cores = cpu_core_count(&props);
    proof {
        lemma_count_char_le(trim(online@), ',');
        lemma_trim_len(online@);
    }
    Ok(CpuFacts { vendor_id, physical_cpus, cpu_cores, l3_cache_kb })
}

} // verus!
