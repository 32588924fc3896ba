//! The engine's resolved parameter block and a few path helpers.
use crate::config::{DBFlags, Mode};
use vstd::prelude::*;

verus! {

/// Default storage path.
pub const DEFAULT_PATH: &'static str = "default.db";

/// This library's major version.
pub const VERSION_MAJOR: u64 = 0;

/// This library's minor version.
pub const VERSION_MINOR: u64 = 1;

/// Every parameter the engine runs with.
#[derive(Debug)]
pub struct Inner {
    /// Page cache budget in bytes.
    pub cache_capacity: usize,
    /// Milliseconds between periodic flushes, if any.
    pub flush_every_ms: Option<u64>,
    /// Segment size in bytes.
    pub segment_size: usize,
    /// Space / throughput trade-off.
    pub mode: Mode,
    /// Storage path.
    pub path: String,
    /// Whether the database is deleted after it closes.
    pub temporary: bool,
    /// Path used for temporary databases; the host supplies it.
    pub tmp_path: String,
    /// Whether opening demands exclusive creation.
    pub create_new: bool,
    /// Operations between metadata snapshots.
    pub snapshot_after_ops: u64,
    /// The library version the parameters were built for.
    pub version: (u64, u64),
    /// Behavior switches.
    pub flags: DBFlags,
}

impl Inner {
    /// The default parameters: one gibibyte of cache, low-space mode, a
    /// 512 KiB segment, a flush every half second.
    pub fn new_default() -> (r: Inner)
        ensures
            r.path@ == DEFAULT_PATH@,
            r.cache_capacity == 0x40000000,
            r.segment_size == 0x80000,
            r.flush_every_ms == Some(500u64),
            r.snapshot_after_ops == 1000000,
            r.temporary == false,
            r.create_new == false,
            r.version == (VERSION_MAJOR, VERSION_MINOR),
            r.mode is LowSpace,
            r.flags.strict_mode == false,
            r.flags.mmap_populate == false,
            r.flags.direct_writes == false,
            r.tmp_path@.len() == 0,
    {
        let r = Inner {
            cache_capacity: 0x40000000,
            flush_every_ms: Some(500),
            segment_size: 0x80000,
            mode: Mode::LowSpace,
            path: String::from_str(DEFAULT_PATH),
            temporary: false,
            tmp_path: String::new(),
            create_new: false,
            snapshot_after_ops: 1000000,
            version: crate_version(),
            flags: DBFlags { strict_mode: false, mmap_populate: false, direct_writes: false },
        };
        r
    }

    /// The effective storage path: the host-supplied temporary path when
    /// the database is temporary and no explicit path was set.
    pub fn get_path(&self) -> (r: String)
        ensures
            r@ == (if self.temporary && self.path@ == DEFAULT_PATH@ {
                self.tmp_path@
            } else {
                self.path@
            }),
    {
        let default_path = String::from_str(DEFAULT_PATH);
        if self.temporary && self.path.eq(&default_path) {
            self.tmp_path.clone()
        } else {
            self.path.clone()
        }
    }

    /// Where the data file lives under the storage path.
    pub fn db_path(&self) -> (r: String)
        ensures
            r@ == (if self.temporary && self.path@ == DEFAULT_PATH@ {
                self.tmp_path@
            } else {
                self.path@
            }) + "/db"@,
    {
        self.get_path().concat("/db")
    }

    /// Where the configuration file lives under the storage path.
    pub fn config_path(&self) -> (r: String)
        ensures
            r@ == (if self.temporary && self.path@ == DEFAULT_PATH@ {
                self.tmp_path@
            } else {
                self.path@
            }) + "/conf"@,
    {
        self.get_path().concat("/conf")
    }

    /// Rounds `value` down to a whole number of segments.
    pub fn normalize(&self, value: u64) -> (r: u64)
        requires
            self.segment_size >= 1,
        ensures
            r == (value as int / self.segment_size as int) * self.segment_size,
            r <= value,
            r as int % (self.segment_size as int) == 0,
    {
        let seg = self.segment_size as u64;
        let q = value / seg;
        proof {
            vstd::arithmetic::div_mod::lemma_fundamental_div_mod(value as int, seg as int);
            assert(q * seg <= value) by (nonlinear_arith)
                requires
                    value as int == seg as int * (q as int) + (value as int % seg as int),
                    value as int % seg as int >= 0,
                    q == value as int / seg as int,
            ;
            vstd::arithmetic::div_mod::lemma_mod_multiples_basic(q as int, seg as int);
        }
        q * seg
    }
}

impl Default for Inner {
    /// The default parameter block.
    fn default() -> (r: Inner)
        ensures
            r.path@ == DEFAULT_PATH@,
            r.cache_capacity == 0x40000000,
            r.segment_size == 0x80000,
            r.flush_every_ms == Some(500u64),
            r.snapshot_after_ops == 1000000,
            r.temporary == false,
            r.create_new == false,
            r.version == (VERSION_MAJOR, VERSION_MINOR),
            r.mode is LowSpace,
            r.flags.strict_mode == false,
            r.flags.mmap_populate == false,
            r.flags.direct_writes == false,
            r.tmp_path@.len() == 0,
    {
        Inner::new_default()
    }
}

/// The version of this library, as a (major, minor) pair.
pub fn crate_version() -> (r: (u64, u64))
    ensures
        r == (VERSION_MAJOR, VERSION_MINOR),
{
    (VERSION_MAJOR, VERSION_MINOR)
}

} // verus!
