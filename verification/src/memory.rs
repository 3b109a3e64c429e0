use vstd::prelude::*;
use vstd::string::StringExecFns;

use crate::props::Properties;
use crate::text::{decimal, parse_unsigned, parse_unsigned_str, push_decimal};

verus! {

/// Why the memory of the host could not be described.
#[derive(Debug, Clone)]
pub enum MemoryInfoError {
    /// The device database could not be read.
    EnumerationFailed(String),
    /// No memory device is described.
    NoDevicesFound,
    /// The property `property` of a memory device is missing or malformed.
    PropertyParseError { property: String },
}

impl MemoryInfoError {
    /// The text that describes the error.
    pub fn message(&self) -> (m: String)
        ensures
            m@ == match self {
                MemoryInfoError::EnumerationFailed(cause) => "Failed to enumerate DMI devices: "@ + cause@,
                MemoryInfoError::NoDevicesFound => "No memory devices found in DMI data"@,
                MemoryInfoError::PropertyParseError { property } => "Failed to parse memory property: "@
                    + property@,
            },
    {
        match self {
            MemoryInfoError::EnumerationFailed(cause) => String::from_str(
                "Failed to enumerate DMI devices: ",
            ).concat(cause.as_str()),
            MemoryInfoError::NoDevicesFound => String::from_str("No memory devices found in DMI data"),
            MemoryInfoError::PropertyParseError { property } => String::from_str(
                "Failed to parse memory property: ",
            ).concat(property.as_str()),
        }
    }
}

/// One installed memory module.
#[derive(Debug, Clone)]
pub struct MemoryModule {
    pub memory_type: String,
    pub form_factor: String,
    pub size_bytes: u64,
    pub speed_mts: u32,
}

/// The memory of the host: the modules, their number and total size, and the
/// type, speed and form factor of the last module.
#[derive(Debug, Clone)]
pub struct MemoryInfo {
    pub memory_type: String,
    pub speed_mts: u32,
    pub num_modules: usize,
    pub total_size_bytes: u64,
    pub form_factor: String,
    pub modules: Vec<MemoryModule>,
}

/// What a `MemoryModule` holds, its strings as character sequences.
pub struct MemoryModuleView {
    pub memory_type: Seq<char>,
    pub form_factor: Seq<char>,
    pub size_bytes: u64,
    pub speed_mts: u32,
}

/// What a `MemoryInfo` holds, its strings as character sequences.
pub struct MemoryInfoView {
    pub memory_type: Seq<char>,
    pub speed_mts: u32,
    pub num_modules: usize,
    pub total_size_bytes: u64,
    pub form_factor: Seq<char>,
    pub modules: Seq<MemoryModuleView>,
}

impl View for MemoryModule {
    type V = MemoryModuleView;

    open spec fn view(&self) -> MemoryModuleView {
        MemoryModuleView {
            memory_type: self.memory_type@,
            form_factor: self.form_factor@,
            size_bytes: self.size_bytes,
            speed_mts: self.speed_mts,
        }
    }
}

/// The view of each module.
pub open spec fn module_views(v: Seq<MemoryModule>) -> Seq<MemoryModuleView> {
    v.map_values(|m: MemoryModule| m@)
}

impl View for MemoryInfo {
    type V = MemoryInfoView;

    open spec fn view(&self) -> MemoryInfoView {
        MemoryInfoView {
            memory_type: self.memory_type@,
            speed_mts: self.speed_mts,
            num_modules: self.num_modules,
            total_size_bytes: self.total_size_bytes,
            form_factor: self.form_factor@,
            modules: module_views(self.modules@),
        }
    }
}

impl Default for MemoryModule {
    fn default() -> (m: MemoryModule)
        ensures
            m.memory_type@ == Seq::<char>::empty(),
            m.form_factor@ == Seq::<char>::empty(),
            m.size_bytes == 0,
            m.speed_mts == 0,
    {
        MemoryModule { memory_type: String::new(), form_factor: String::new(), size_bytes: 0, speed_mts: 0 }
    }
}

impl Default for MemoryInfo {
    fn default() -> (m: MemoryInfo)
        ensures
            m.memory_type@ == Seq::<char>::empty(),
            m.speed_mts == 0,
            m.num_modules == 0,
            m.total_size_bytes == 0,
            m.form_factor@ == Seq::<char>::empty(),
            m.modules@.len() == 0,
    {
        MemoryInfo {
            memory_type: String::new(),
            speed_mts: 0,
            num_modules: 0,
            total_size_bytes: 0,
            form_factor: String::new(),
            modules: Vec::new(),
        }
    }
}

pub open spec fn num_devices_key() -> Seq<char> {
    "MEMORY_ARRAY_NUM_DEVICES"@
}

/// `MEMORY_DEVICE_<i>_`, the prefix of the properties of device `i`.
pub open spec fn device_prefix(i: nat) -> Seq<char> {
    "MEMORY_DEVICE_"@ + decimal(i) + "_"@
}

pub open spec fn size_key(i: nat) -> Seq<char> {
    device_prefix(i) + "SIZE"@
}

pub open spec fn type_key(i: nat) -> Seq<char> {
    device_prefix(i) + "TYPE"@
}

pub open spec fn speed_key(i: nat) -> Seq<char> {
    device_prefix(i) + "SPEED_MTS"@
}

pub open spec fn form_key(i: nat) -> Seq<char> {
    device_prefix(i) + "FORM_FACTOR"@
}

/// The number of memory devices that `props` announce; 0 where the count is
/// missing or is no `usize`.
pub open spec fn spec_num_devices(props: Map<Seq<char>, Seq<char>>) -> nat {
    if props.contains_key(num_devices_key()) {
        match parse_unsigned(props[num_devices_key()], usize::MAX as nat) {
            Some(n) => n,
            None => 0,
        }
    } else {
        0
    }
}

/// Memory device `i` as `props` describe it, or the property that is missing
/// or malformed (size, type, speed and form factor are looked at in that order).
pub open spec fn spec_device(props: Map<Seq<char>, Seq<char>>, i: nat) -> Result<MemoryModuleView, Seq<char>> {
    if !(props.contains_key(size_key(i)) && parse_unsigned(props[size_key(i)], u64::MAX as nat) is Some) {
        Err(size_key(i))
    } else if !props.contains_key(type_key(i)) {
        Err(type_key(i))
    } else if !(props.contains_key(speed_key(i)) && parse_unsigned(props[speed_key(i)], u32::MAX as nat) is Some) {
        Err(speed_key(i))
    } else if !props.contains_key(form_key(i)) {
        Err(form_key(i))
    } else {
        Ok(MemoryModuleView {
            memory_type: props[type_key(i)],
            form_factor: props[form_key(i)],
            size_bytes: parse_unsigned(props[size_key(i)], u64::MAX as nat)->0 as u64,
            speed_mts: parse_unsigned(props[speed_key(i)], u32::MAX as nat)->0 as u32,
        })
    }
}

/// Devices `0 .. n` as `props` describe them, or the first property that is
/// missing or malformed.
pub open spec fn spec_devices(props: Map<Seq<char>, Seq<char>>, n: nat) -> Result<Seq<MemoryModuleView>, Seq<char>>
    decreases n,
{
    if n == 0 {
        Ok(Seq::empty())
    } else {
        match spec_devices(props, (n - 1) as nat) {
            Ok(ms) => match spec_device(props, (n - 1) as nat) {
                Ok(m) => Ok(ms.push(m)),
                Err(key) => Err(key),
            },
            Err(key) => Err(key),
        }
    }
}

pub open spec fn total_size(ms: Seq<MemoryModuleView>) -> nat
    decreases ms.len(),
{
    if ms.len() == 0 {
        0
    } else {
        total_size(ms.drop_last()) + ms.last().size_bytes as nat
    }
}

/// Every run of devices that parses has a total size that fits in a `u64`.
pub open spec fn udev_totals_fit(props: Map<Seq<char>, Seq<char>>) -> bool {
    forall|k: nat| k <= spec_num_devices(props) ==> (#[trigger] spec_devices(props, k) matches Ok(ms) ==> total_size(ms) <= u64::MAX)
}

/// The description of memory made of the modules `ms`.
pub open spec fn memory_info_of(ms: Seq<MemoryModuleView>) -> MemoryInfoView {
    MemoryInfoView {
        memory_type: ms.last().memory_type,
        speed_mts: ms.last().speed_mts,
        num_modules: ms.len() as usize,
        total_size_bytes: total_size(ms) as u64,
        form_factor: ms.last().form_factor,
        modules: ms,
    }
}

proof fn lemma_devices_err_persists(props: Map<Seq<char>, Seq<char>>, i: nat, k: nat)
    requires
        spec_devices(props, i) is Err,
        i <= k,
    ensures
        spec_devices(props, k) == spec_devices(props, i),
    decreases k - i,
{
    if i < k {
        lemma_devices_err_persists(props, i, (k - 1) as nat);
    }
}

/// `a` and `b` agree on key `k`: both lack it, or both map it to the same value.
pub open spec fn agree_on(a: Map<Seq<char>, Seq<char>>, b: Map<Seq<char>, Seq<char>>, k: Seq<char>) -> bool {
    a.contains_key(k) == b.contains_key(k) && (a.contains_key(k) ==> a[k] == b[k])
}

/// `a` and `b` agree on the four properties of device `i`.
pub open spec fn agree_on_device(a: Map<Seq<char>, Seq<char>>, b: Map<Seq<char>, Seq<char>>, i: nat) -> bool {
    &&& agree_on(a, b, size_key(i))
    &&& agree_on(a, b, type_key(i))
    &&& agree_on(a, b, speed_key(i))
    &&& agree_on(a, b, form_key(i))
}

proof fn lemma_devices_local(a: Map<Seq<char>, Seq<char>>, b: Map<Seq<char>, Seq<char>>, n: nat)
    requires
        forall|i: nat| i < n ==> #[trigger] agree_on_device(a, b, i),
    ensures
        spec_devices(a, n) == spec_devices(b, n),
    decreases n,
{
    if n > 0 {
        lemma_devices_local(a, b, (n - 1) as nat);
        assert(agree_on_device(a, b, (n - 1) as nat));
        assert(spec_device(a, (n - 1) as nat) == spec_device(b, (n - 1) as nat));
    }
}

/// What `parse_udev` returns depends on nothing but the device count
/// `MEMORY_ARRAY_NUM_DEVICES` and the four properties of each device below
/// that count: properties that agree on these give the same devices, the same
/// result, and the same answer of `udev_total_fits`.
pub proof fn lemma_parse_udev_reads_only_its_keys(a: Map<Seq<char>, Seq<char>>, b: Map<Seq<char>, Seq<char>>)
    requires
        agree_on(a, b, num_devices_key()),
        forall|i: nat| i < spec_num_devices(a) ==> #[trigger] agree_on_device(a, b, i),
    ensures
        spec_num_devices(a) == spec_num_devices(b),
        spec_devices(a, spec_num_devices(a)) == spec_devices(b, spec_num_devices(b)),
        udev_totals_fit(a) == udev_totals_fit(b),
{
    let n = spec_num_devices(a);
    lemma_devices_local(a, b, n);
    assert forall|k: nat| k <= n implies #[trigger] spec_devices(a, k) == spec_devices(b, k) by {
        assert forall|i: nat| i < k implies #[trigger] agree_on_device(a, b, i) by {
            assert(agree_on_device(a, b, i));
        }
        lemma_devices_local(a, b, k);
    }
    assert(spec_num_devices(a) == spec_num_devices(b));
    if udev_totals_fit(a) {
        assert forall|k: nat| k <= spec_num_devices(b) implies (#[trigger] spec_devices(b, k) matches Ok(ms)
            ==> total_size(ms) <= u64::MAX) by {
            assert(spec_devices(a, k) == spec_devices(b, k));
        }
    }
    if udev_totals_fit(b) {
        assert forall|k: nat| k <= spec_num_devices(a) implies (#[trigger] spec_devices(a, k) matches Ok(ms)
            ==> total_size(ms) <= u64::MAX) by {
            assert(spec_devices(a, k) == spec_devices(b, k));
        }
    }
}

/// The size of each module added up, one module after another.
pub open spec fn sizes_added(ms: Seq<MemoryModuleView>) -> int {
    ms.fold_left(0int, |acc: int, m: MemoryModuleView| acc + m.size_bytes)
}

proof fn lemma_total_size_is_sizes_added(ms: Seq<MemoryModuleView>)
    ensures
        total_size(ms) as int == sizes_added(ms),
    decreases ms.len(),
{
    if ms.len() > 0 {
        lemma_total_size_is_sizes_added(ms.drop_last());
    }
}

/// What `parse_udev` reports of its modules: their number, the sum of their
/// sizes, and the type, speed and form factor of the last of them.
pub proof fn lemma_memory_info_of_modules(ms: Seq<MemoryModuleView>)
    requires
        1 <= ms.len() <= usize::MAX,
        sizes_added(ms) <= u64::MAX,
    ensures
        memory_info_of(ms).modules == ms,
        memory_info_of(ms).num_modules == ms.len(),
        memory_info_of(ms).total_size_bytes == sizes_added(ms),
        memory_info_of(ms).memory_type == ms[ms.len() - 1].memory_type,
        memory_info_of(ms).speed_mts == ms[ms.len() - 1].speed_mts,
        memory_info_of(ms).form_factor == ms[ms.len() - 1].form_factor,
{
    lemma_total_size_is_sizes_added(ms);
}

/// The module sizes add up: any run of devices that parses has a total that is
/// the sum of the totals of its two parts.
pub proof fn lemma_total_size_splits(a: Seq<MemoryModuleView>, b: Seq<MemoryModuleView>)
    ensures
        total_size(a + b) == total_size(a) + total_size(b),
    decreases b.len(),
{
    if b.len() > 0 {
        lemma_total_size_splits(a, b.drop_last());
        assert((a + b).drop_last() == a + b.drop_last());
    } else {
        assert(a + b == a);
    }
}

/// `MEMORY_DEVICE_<i>_`.
fn device_prefix_string(i: usize) -> (s: String)
    ensures
        s@ == device_prefix(i as nat),
{
    let mut s = String::from_str("MEMORY_DEVICE_");
    push_decimal(&mut s, i);
    s.append("_");
    s
}

fn property_key(prefix: &String, field: &str) -> (k: String)
    ensures
        k@ == prefix@ + field@,
{
    prefix.clone().concat(field)
}

/// The number of memory devices that `props` announce.
fn num_devices(props: &Properties) -> (n: usize)
    ensures
        n == spec_num_devices(props@),
{
    match props.get("MEMORY_ARRAY_NUM_DEVICES") {
        Some(v) => match parse_unsigned_str(v.as_str(), usize::MAX as u64) {
            Some(n) => n as usize,
            None => 0,
        },
        None => 0,
    }
}

/// Memory device `i` from `props`, or the error that names its first missing
/// or malformed property.
fn parse_device(props: &Properties, i: usize) -> (res: Result<MemoryModule, MemoryInfoError>)
    ensures
        match spec_device(props@, i as nat) {
            Ok(m) => res matches Ok(module) && module@ == m,
            Err(key) => res matches Err(MemoryInfoError::PropertyParseError { property }) && property@ == key,
        },
{
    let prefix = device_prefix_string(i);
    let size_key = property_key(&prefix, "SIZE");
    let size = match props.get(size_key.as_str()) {
        Some(v) => parse_unsigned_str(v.as_str(), u64::MAX),
        None => None,
    };
    let size = match size {
        Some(size) => size,
        None => {
            return Err(MemoryInfoError::PropertyParseError { property: size_key });
        },
    };
    let type_key = property_key(&prefix, "TYPE");
    let mtype = match props.get(type_key.as_str()) {
        Some(v) => v.clone(),
        None => {
            return Err(MemoryInfoError::PropertyParseError { property: type_key });
        },
    };
    let speed_key = property_key(&prefix, "SPEED_MTS");
    let speed = match props.get(speed_key.as_str()) {
        Some(v) => parse_unsigned_str(v.as_str(), u32::MAX as u64),
        None => None,
    };
    let speed = match speed {
        Some(speed) => speed as u32,
        None => {
            return Err(MemoryInfoError::PropertyParseError { property: speed_key });
        },
    };
    let form_key = property_key(&prefix, "FORM_FACTOR");
    let form = match props.get(form_key.as_str()) {
        Some(v) => v.clone(),
        None => {
            return Err(MemoryInfoError::PropertyParseError { property: form_key });
        },
    };
    Ok(MemoryModule { memory_type: mtype, form_factor: form, size_bytes: size, speed_mts: speed })
}

/// Whether the modules that `props` describe can be added up without
/// overflow; `parse_udev` needs it.
pub fn udev_total_fits(props: &Properties) -> (r: bool)
    ensures
        r == udev_totals_fit(props@),
{
    let n = num_devices(props);
    let mut total: u128 = 0;
    let ghost mut ms: Seq<MemoryModuleView> = Seq::empty();
    let mut i: usize = 0;
    while i < n
        invariant
            i <= n == spec_num_devices(props@),
            spec_devices(props@, i as nat) == Ok::<Seq<MemoryModuleView>, Seq<char>>(ms),
            total == total_size(ms),
            total <= u64::MAX,
            forall|k: nat| k <= i ==> (#[trigger] spec_devices(props@, k) matches Ok(ms) ==> total_size(ms) <= u64::MAX),
        decreases n - i,
    {
        match parse_device(props, i) {
            Ok(m) => {
                proof {
                    assert(ms.push(m@).drop_last() == ms);
                    ms = ms.push(m@);
                }
                total = total + m.size_bytes as u128;
                assert(spec_devices(props@, (i + 1) as nat) == Ok::<Seq<MemoryModuleView>, Seq<char>>(ms));
                assert(total == total_size(ms));
                if total > u64::MAX as u128 {
                    assert(!(spec_devices(props@, (i + 1) as nat) matches Ok(x) ==> total_size(x) <= u64::MAX));
                    return false;
                }
            },
            Err(_) => {
                proof {
                    assert forall|k: nat| k <= spec_num_devices(props@) implies (#[trigger] spec_devices(props@, k) matches Ok(ms) ==> total_size(ms) <= u64::MAX) by {
                        if k > i {
                            lemma_devices_err_persists(props@, (i + 1) as nat, k);
                        }
                    }
                }
                return true;
            },
        }
        i = i + 1;
    }
    true
}

/// The memory that the properties of a DMI device describe: devices
/// `0 .. MEMORY_ARRAY_NUM_DEVICES`, each with its size, type, speed and form
/// factor. An error names the first missing or malformed property, or says that
/// there is no device.
pub fn parse_udev(props: &Properties) -> (res: Result<MemoryInfo, MemoryInfoError>)
    requires
        udev_totals_fit(props@),
    ensures
        match spec_devices(props@, spec_num_devices(props@)) {
            Err(key) => res matches Err(MemoryInfoError::PropertyParseError { property }) && property@ == key,
            Ok(ms) => if ms.len() == 0 {
                res matches Err(MemoryInfoError::NoDevicesFound)
            } else {
                res matches Ok(info) && info@ == memory_info_of(ms)
            },
        },
{
    let n = num_devices(props);
    let mut modules: Vec<MemoryModule> = Vec::new();
    let mut total: u64 = 0;
    let mut memory_type = String::new();
    let mut speed_mts: u32 = 0;
    let mut form_factor = String::new();
    let mut i: usize = 0;
    assert(module_views(modules@) =~= Seq::<MemoryModuleView>::empty());
    while i < n
        invariant
            i <= n == spec_num_devices(props@),
            udev_totals_fit(props@),
            spec_devices(props@, i as nat) == Ok::<Seq<MemoryModuleView>, Seq<char>>(module_views(modules@)),
            total == total_size(module_views(modules@)),
            modules.len() == i,
            i > 0 ==> memory_type@ == modules@.last().memory_type@ && speed_mts == modules@.last().speed_mts
                && form_factor@ == modules@.last().form_factor@,
        decreases n - i,
    {
        let m = match parse_device(props, i) {
            Ok(m) => m,
            Err(e) => {
                proof {
                    lemma_devices_err_persists(props@, (i + 1) as nat, n as nat);
                }
                return Err(e);
            },
        };
        let ghost before = module_views(modules@);
        proof {
            assert(before.push(m@).drop_last() == before);
            assert(spec_devices(props@, (i + 1) as nat) == Ok::<Seq<MemoryModuleView>, Seq<char>>(before.push(m@)));
        }
        memory_type = m.memory_type.clone();
        speed_mts = m.speed_mts;
        form_factor = m.form_factor.clone();
        total = total + m.size_bytes;
        modules.push(m);
        assert(module_views(modules@) =~= before.push(m@));
        i = i + 1;
    }
    if modules.len() == 0 {
        return Err(MemoryInfoError::NoDevicesFound);
    }
    let num_modules = modules.len();
    Ok(MemoryInfo { memory_type, speed_mts, num_modules, total_size_bytes: total, form_factor, modules })
}

} // verus!
