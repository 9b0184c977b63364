//! Engine-level configuration: worker pool sizing, batch and chunk sizes,
//! and the run-mode flags.

use vstd::prelude::*;
use vstd::string::StringExecFns;

use crate::error::Error;

verus! {

/// Resource bounds for a run: pool sizing plus batch and chunk sizes.
#[derive(Debug, Clone)]
pub struct EngineConfig {
    /// Worker threads of the dedicated pool; the pool default when unset.
    pub num_threads: Option<usize>,
    /// Per-thread stack size in bytes; the pool default when unset.
    pub stack_size: Option<usize>,
    /// Slices dispatched per coordination unit; 1 means no chunking.
    pub chunk_size: usize,
    /// Slices per sequential batch; everything in one batch when unset.
    pub batch_size: Option<usize>,
}

impl Default for EngineConfig {
    fn default() -> (c: Self)
        ensures
            c.num_threads is None,
            c.stack_size is None,
            c.batch_size is None,
            c.chunk_size == 1,
    {
        EngineConfig { num_threads: None, stack_size: None, batch_size: None, chunk_size: 1 }
    }
}

impl EngineConfig {
    pub fn new() -> (c: Self)
        ensures
            c.num_threads is None,
            c.stack_size is None,
            c.batch_size is None,
            c.chunk_size == 1,
    {
        Self::default()
    }

    pub fn num_threads(self, threads: usize) -> (c: Self)
        ensures
            c.num_threads == Some(threads),
            c.stack_size == self.stack_size,
            c.batch_size == self.batch_size,
            c.chunk_size == self.chunk_size,
    {
        EngineConfig { num_threads: Some(threads), ..self }
    }

    pub fn stack_size(self, size: usize) -> (c: Self)
        ensures
            c.stack_size == Some(size),
            c.num_threads == self.num_threads,
            c.batch_size == self.batch_size,
            c.chunk_size == self.chunk_size,
    {
        EngineConfig { stack_size: Some(size), ..self }
    }

    pub fn batch_size(self, size: usize) -> (c: Self)
        ensures
            c.batch_size == Some(size),
            c.num_threads == self.num_threads,
            c.stack_size == self.stack_size,
            c.chunk_size == self.chunk_size,
    {
        EngineConfig { batch_size: Some(size), ..self }
    }

    pub fn chunk_size(self, size: usize) -> (c: Self)
        ensures
            c.chunk_size == (if size > 1 {
                size
            } else {
                1
            }),
            c.num_threads == self.num_threads,
            c.stack_size == self.stack_size,
            c.batch_size == self.batch_size,
    {
        let clamped: usize = if size > 1 {
            size
        } else {
            1
        };
        EngineConfig { chunk_size: clamped, ..self }
    }

    /// Builds the dedicated worker pool from this configuration, or reports
    /// why rayon could not build one.
    pub fn build_thread_pool(&self) -> (r: Result<rayon::ThreadPool, Error>) {
        match pool_build(self.num_threads, self.stack_size) {
            Ok(pool) => Ok(pool),
            Err(msg) => {
                let mut s = "Failed to build thread pool: ".to_owned();
                s.append(msg.as_str());
                Err(Error::ConfigError(s))
            },
        }
    }
}

#[verifier::external_type_specification]
#[verifier::external_body]
pub struct ExThreadPool(rayon::ThreadPool);

/// Relies on rayon's `ThreadPoolBuilder`: `build` hands back a dedicated
/// pool with the requested thread count and stack size, or its build error,
/// which is mapped to its text.
#[verifier::external_body]
fn pool_build(num_threads: Option<usize>, stack_size: Option<usize>) -> (r: Result<
    rayon::ThreadPool,
    String,
>) {
    let mut builder = rayon::ThreadPoolBuilder::new();
    if let Some(threads) = num_threads {
        builder = builder.num_threads(threads);
    }
    if let Some(stack) = stack_size {
        builder = builder.stack_size(stack);
    }
    builder.build().map_err(|e| e.to_string())
}

/// How a run reports: silently or with progress, with or without observer
/// events.
#[derive(Debug, Clone, Copy, PartialEq, Eq, Structural)]
pub struct RunFlags {
    pub silent: bool,
    pub with_observer: bool,
}

impl Default for RunFlags {
    fn default() -> (f: Self)
        ensures
            f.silent == false,
            f.with_observer == true,
    {
        RunFlags { silent: false, with_observer: true }
    }
}

impl RunFlags {
    /// Progress-rendering run with observer events.
    pub fn new() -> (f: Self)
        ensures
            f.silent == false,
            f.with_observer == true,
    {
        Self::default()
    }

    /// No progress rendering; observer events on.
    pub fn silent() -> (f: Self)
        ensures
            f.silent == true,
            f.with_observer == true,
    {
        RunFlags { silent: true, with_observer: true }
    }

    /// No progress rendering and no observer events.
    pub fn silent_no_observer() -> (f: Self)
        ensures
            f.silent == true,
            f.with_observer == false,
    {
        RunFlags { silent: true, with_observer: false }
    }

    /// Progress-rendering run with observer events.
    pub fn progress() -> (f: Self)
        ensures
            f.silent == false,
            f.with_observer == true,
    {
        Self::default()
    }
}

} // verus!
