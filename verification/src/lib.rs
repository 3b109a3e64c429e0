//! Library of the nix evaluation benchmark: which nix installations to
//! benchmark and in what order, what version each one reports, how the
//! attribute paths are split into chunks, the summary of the run times, and the
//! description of the host read from `/proc/cpuinfo`, sysfs and udev.

pub mod cpu;
pub mod json;
pub mod memory;
pub mod nix;
pub mod props;
pub mod report;
pub mod stats;
pub mod text;

pub use cpu::{
    count_physical_cpus, cpu_core_count, cpu_facts, cpu_vendor_id, cpuinfo_properties, parse_cache_sets,
    CpuFacts, CpuFactsError,
};
pub use memory::{parse_udev, udev_total_fits, MemoryInfo, MemoryInfoError, MemoryModule};
pub use nix::{
    attrpaths_len, chunk_count, eval_version, load_nix_paths, nix_env_args, nix_env_path,
    order_nix_paths, sort_nix_paths, standardize_version, strip_nix_hash, value_len, JsonInputError,
};
pub use json::{JsonErrorCategory, JsonTop};
pub use props::Properties;
pub use report::MiscInfo;
pub use stats::{EvalResult, MAX_DURATION_NANOS};
