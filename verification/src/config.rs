//! The configuration surface: an immutable value built once and passed
//! into the engine, replacing any shared mutable configuration object.
use crate::errors::Error;
use crate::inner::Inner;
use vstd::prelude::*;

verus! {

/// How the engine trades disk space against write throughput.
#[derive(Clone, Copy, Debug)]
pub enum Mode {
    /// Favor using less space over write throughput, rewriting data more
    /// often to reduce fragmentation.
    LowSpace,
    /// Favor write throughput, potentially using more disk space.
    HighThroughput,
}

/// Behavior switches the engine consumes at construction.
#[derive(Clone, Copy, Debug)]
pub struct DBFlags {
    /// Re-check integrity before a transaction finalizes.
    pub strict_mode: bool,
    /// Ask for an eagerly populated mapping.
    pub mmap_populate: bool,
    /// Hint direct writes to the storage layer.
    pub direct_writes: bool,
}

/// The tunable parameters, built once and then immutable.
#[derive(Debug)]
pub struct Config {
    pub inner: Inner,
}

/// The smallest supported segment size.
pub const MIN_SEGMENT_SIZE: usize = 256;

/// The largest supported segment size: 16 MiB.
pub const MAX_SEGMENT_SIZE: usize = 16777216;

/// The segment size is supported: a power of two within the fixed range.
pub open spec fn segment_size_supported(segment_size: usize) -> bool {
    &&& (segment_size & (segment_size - 1) as usize) == 0
    &&& segment_size >= MIN_SEGMENT_SIZE
    &&& segment_size <= MAX_SEGMENT_SIZE
}

impl Config {
    /// A configuration with every parameter at its default.
    pub fn new() -> (r: Config)
        ensures
            r.inner.path@ == crate::inner::DEFAULT_PATH@,
            r.inner.cache_capacity == 0x40000000,
            r.inner.segment_size == 0x80000,
            r.inner.flush_every_ms == Some(500u64),
            r.inner.temporary == false,
            r.inner.create_new == false,
    {
        Config { inner: Inner::new_default() }
    }

    /// Sets the storage path.
    pub fn path(self, path: String) -> (r: Config)
        ensures
            r.inner.path@ == path@,
            r.inner.cache_capacity == self.inner.cache_capacity,
            r.inner.flush_every_ms == self.inner.flush_every_ms,
            r.inner.segment_size == self.inner.segment_size,
            r.inner.mode == self.inner.mode,
            r.inner.temporary == self.inner.temporary,
            r.inner.tmp_path@ == self.inner.tmp_path@,
            r.inner.create_new == self.inner.create_new,
            r.inner.snapshot_after_ops == self.inner.snapshot_after_ops,
            r.inner.version == self.inner.version,
            r.inner.flags == self.inner.flags,
    {
        let mut inner = self.inner;
        inner.path = path;
        Config { inner }
    }

    /// Sets how often the engine flushes, or turns periodic flushing off.
    pub fn flush_every_ms(self, every_ms: Option<u64>) -> (r: Config)
        ensures
            r.inner.flush_every_ms == every_ms,
            r.inner.cache_capacity == self.inner.cache_capacity,
            r.inner.segment_size == self.inner.segment_size,
            r.inner.mode == self.inner.mode,
            r.inner.path@ == self.inner.path@,
            r.inner.temporary == self.inner.temporary,
            r.inner.tmp_path@ == self.inner.tmp_path@,
            r.inner.create_new == self.inner.create_new,
            r.inner.snapshot_after_ops == self.inner.snapshot_after_ops,
            r.inner.version == self.inner.version,
            r.inner.flags == self.inner.flags,
    {
        let mut inner = self.inner;
        inner.flush_every_ms = every_ms;
        Config { inner }
    }

    /// Sets the page cache budget in bytes.
    pub fn cache_capacity(self, to: usize) -> (r: Config)
        ensures
            r.inner.cache_capacity == to,
            r.inner.flush_every_ms == self.inner.flush_every_ms,
            r.inner.segment_size == self.inner.segment_size,
            r.inner.mode == self.inner.mode,
            r.inner.path@ == self.inner.path@,
            r.inner.temporary == self.inner.temporary,
            r.inner.tmp_path@ == self.inner.tmp_path@,
            r.inner.create_new == self.inner.create_new,
            r.inner.snapshot_after_ops == self.inner.snapshot_after_ops,
            r.inner.version == self.inner.version,
            r.inner.flags == self.inner.flags,
    {
        let mut inner = self.inner;
        inner.cache_capacity = to;
        Config { inner }
    }

    /// Sets the space / throughput mode.
    pub fn mode(self, to: Mode) -> (r: Config)
        ensures
            r.inner.mode == to,
            r.inner.cache_capacity == self.inner.cache_capacity,
            r.inner.flush_every_ms == self.inner.flush_every_ms,
            r.inner.segment_size == self.inner.segment_size,
            r.inner.path@ == self.inner.path@,
            r.inner.temporary == self.inner.temporary,
            r.inner.tmp_path@ == self.inner.tmp_path@,
            r.inner.create_new == self.inner.create_new,
            r.inner.snapshot_after_ops == self.inner.snapshot_after_ops,
            r.inner.version == self.inner.version,
            r.inner.flags == self.inner.flags,
    {
        let mut inner = self.inner;
        inner.mode = to;
        Config { inner }
    }

    /// Marks the database as temporary: deleted after it closes.
    pub fn temporary(self, to: bool) -> (r: Config)
        ensures
            r.inner.temporary == to,
            r.inner.cache_capacity == self.inner.cache_capacity,
            r.inner.flush_every_ms == self.inner.flush_every_ms,
            r.inner.segment_size == self.inner.segment_size,
            r.inner.mode == self.inner.mode,
            r.inner.path@ == self.inner.path@,
            r.inner.tmp_path@ == self.inner.tmp_path@,
            r.inner.create_new == self.inner.create_new,
            r.inner.snapshot_after_ops == self.inner.snapshot_after_ops,
            r.inner.version == self.inner.version,
            r.inner.flags == self.inner.flags,
    {
        let mut inner = self.inner;
        inner.temporary = to;
        Config { inner }
    }

    /// Demands exclusive creation: fail if the database already exists.
    pub fn create_new(self, to: bool) -> (r: Config)
        ensures
            r.inner.create_new == to,
            r.inner.cache_capacity == self.inner.cache_capacity,
            r.inner.flush_every_ms == self.inner.flush_every_ms,
            r.inner.segment_size == self.inner.segment_size,
            r.inner.mode == self.inner.mode,
            r.inner.path@ == self.inner.path@,
            r.inner.temporary == self.inner.temporary,
            r.inner.tmp_path@ == self.inner.tmp_path@,
            r.inner.snapshot_after_ops == self.inner.snapshot_after_ops,
            r.inner.version == self.inner.version,
            r.inner.flags == self.inner.flags,
    {
        let mut inner = self.inner;
        inner.create_new = to;
        Config { inner }
    }

    /// Sets how many operations pass between metadata snapshots.
    pub fn snapshot_after_ops(self, to: u64) -> (r: Config)
        ensures
            r.inner.snapshot_after_ops == to,
            r.inner.cache_capacity == self.inner.cache_capacity,
            r.inner.flush_every_ms == self.inner.flush_every_ms,
            r.inner.segment_size == self.inner.segment_size,
            r.inner.mode == self.inner.mode,
            r.inner.path@ == self.inner.path@,
            r.inner.temporary == self.inner.temporary,
            r.inner.tmp_path@ == self.inner.tmp_path@,
            r.inner.create_new == self.inner.create_new,
            r.inner.version == self.inner.version,
            r.inner.flags == self.inner.flags,
    {
        let mut inner = self.inner;
        inner.snapshot_after_ops = to;
        Config { inner }
    }

    /// Caps the cache budget at the machine's memory limit, when one is
    /// known.
    pub fn limit_cache_max_memory(&mut self, limit: Option<usize>)
        ensures
            match limit {
                Some(l) => final(self).inner.cache_capacity == (if old(self).inner.cache_capacity
                    > l {
                    l
                } else {
                    old(self).inner.cache_capacity
                }),
                None => final(self).inner.cache_capacity == old(self).inner.cache_capacity,
            },
            final(self).inner.path@ == old(self).inner.path@,
            final(self).inner.tmp_path@ == old(self).inner.tmp_path@,
            final(self).inner.segment_size == old(self).inner.segment_size,
            final(self).inner.flush_every_ms == old(self).inner.flush_every_ms,
            final(self).inner.mode == old(self).inner.mode,
            final(self).inner.temporary == old(self).inner.temporary,
            final(self).inner.create_new == old(self).inner.create_new,
            final(self).inner.snapshot_after_ops == old(self).inner.snapshot_after_ops,
            final(self).inner.version == old(self).inner.version,
            final(self).inner.flags == old(self).inner.flags,
    {
        match limit {
            Some(l) => {
                if self.inner.cache_capacity > l {
                    self.inner.cache_capacity = l;
                }
            },
            None => {},
        }
    }

    /// Rejects a configuration whose segment size is out of the supported
    /// range: it must be a power of two between the fixed bounds.
    pub fn validate(&self) -> (r: Result<(), Error>)
        ensures
            r is Ok <==> segment_size_supported(self.inner.segment_size),
            r is Err ==> r.unwrap_err() is Unsupported,
    {
        let seg = self.inner.segment_size;
        if seg == 0 || (seg & (seg - 1)) != 0 {
            return Err(
                Error::Unsupported(String::from_str("segment_size should be a power of 2")),
            );
        }
        if seg < MIN_SEGMENT_SIZE {
            return Err(
                Error::Unsupported(String::from_str("segment_size should be at least 256")),
            );
        }
        if seg > MAX_SEGMENT_SIZE {
            return Err(Error::Unsupported(String::from_str("segment_size should be <= 16mb")));
        }
        proof {
            assert(seg & (seg - 1) as usize == 0);
        }
        Ok(())
    }

    /// The full configuration check run before the engine starts.
    pub fn verify_config(&self) -> (r: Result<(), Error>)
        ensures
            r is Ok <==> segment_size_supported(self.inner.segment_size),
            r is Err ==> r.unwrap_err() is Unsupported,
    {
        self.validate()
    }
}

} // verus!
