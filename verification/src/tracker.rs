//! Progress tracking for long runs: completed/failed counters and a
//! rate-limited progress line, with a final summary.
//!
//! Rendering is a pure side channel; nothing here influences results.

use std::io::Write;
use std::time::Instant;

use vstd::prelude::*;

use crate::results::RunResults;

verus! {

/// Counts finished slices and renders progress at most every 50ms or every
/// one percent of the total, and always on completion.
pub struct ProgressTracker {
    total: usize,
    completed: usize,
    failed: usize,
    start_time: Instant,
    last_print: Instant,
    run_time_nanos: u64,
}

impl ProgressTracker {
    pub closed spec fn spec_total(&self) -> usize {
        self.total
    }

    pub closed spec fn spec_completed(&self) -> usize {
        self.completed
    }

    pub closed spec fn spec_failed(&self) -> usize {
        self.failed
    }

    pub closed spec fn spec_run_time(&self) -> u64 {
        self.run_time_nanos
    }

    /// A tracker for a run over `total` slices, with zeroed counters.
    pub fn new(total: usize) -> (t: ProgressTracker)
        ensures
            t.spec_total() == total,
            t.spec_completed() == 0,
            t.spec_failed() == 0,
            t.spec_run_time() == 0,
    {
        ProgressTracker {
            total,
            completed: 0,
            failed: 0,
            start_time: Instant::now(),
            last_print: Instant::now(),
            run_time_nanos: 0,
        }
    }

    /// Records the run's wall-clock duration in nanoseconds.
    pub fn set_run_time(&mut self, nanos: u64)
        ensures
            final(self).spec_run_time() == nanos,
            final(self).spec_total() == old(self).spec_total(),
            final(self).spec_completed() == old(self).spec_completed(),
            final(self).spec_failed() == old(self).spec_failed(),
    {
        self.run_time_nanos = nanos;
    }

    /// Counts one completed slice and may render progress.
    pub fn increment_completed(&mut self)
        requires
            old(self).spec_completed() < usize::MAX,
        ensures
            final(self).spec_completed() == old(self).spec_completed() + 1,
            final(self).spec_failed() == old(self).spec_failed(),
            final(self).spec_total() == old(self).spec_total(),
            final(self).spec_run_time() == old(self).spec_run_time(),
    {
        self.completed += 1;
        self.maybe_print_progress();
    }

    /// Counts one failed slice and may render progress.
    pub fn increment_failed(&mut self)
        requires
            old(self).spec_failed() < usize::MAX,
        ensures
            final(self).spec_failed() == old(self).spec_failed() + 1,
            final(self).spec_completed() == old(self).spec_completed(),
            final(self).spec_total() == old(self).spec_total(),
            final(self).spec_run_time() == old(self).spec_run_time(),
    {
        self.failed += 1;
        self.maybe_print_progress();
    }

    /// Renders progress when every slice has finished, when 50ms have
    /// passed since the last render, or on every further percent done.
    pub fn maybe_print_progress(&mut self)
        ensures
            final(self).spec_total() == old(self).spec_total(),
            final(self).spec_completed() == old(self).spec_completed(),
            final(self).spec_failed() == old(self).spec_failed(),
            final(self).spec_run_time() == old(self).spec_run_time(),
    {
        let done: u128 = self.completed as u128 + self.failed as u128;
        if done == self.total as u128 {
            self.force_print_progress();
            return ;
        }
        let elapsed = crate::clock::elapsed_nanos(&self.last_print);
        let pct_step: u128 = if self.total / 100 > 1 {
            (self.total / 100) as u128
        } else {
            1
        };
        if elapsed >= 50_000_000 || (done > 0 && done % pct_step == 0) {
            self.last_print = Instant::now();
            self.force_print_progress();
        }
    }

    /// Renders the progress line unconditionally.
    pub fn force_print_progress(&self) {
        let done: u128 = self.completed as u128 + self.failed as u128;
        let percent: u128 = if self.total == 0 {
            100
        } else {
            done * 100 / (self.total as u128)
        };
        let elapsed = crate::clock::elapsed_nanos(&self.start_time);
        write_progress_line(done, self.total, percent, self.completed, self.failed, elapsed);
    }

    /// Announces the run.
    pub fn print_header(&self) {
        write_header_line(self.total);
    }

    /// Renders the final counts, timings and every method-level error.
    pub fn print_summary(&self, results: &RunResults) {
        let elapsed = crate::clock::elapsed_nanos(&self.start_time);
        let ok_slices = results.successful_slices();
        let total_slices = results.total_slices();
        let (total_methods, ok_methods) = results.methods_counts_wide();
        let avg = match results.average_slice_duration() {
            Some(d) => d,
            None => 0,
        };
        let mn = match results.min_slice_duration() {
            Some(d) => d,
            None => 0,
        };
        let mx = match results.max_slice_duration() {
            Some(d) => d,
            None => 0,
        };
        write_summary_line(ok_slices, total_slices, ok_methods, total_methods, elapsed, avg, mn, mx);
        let errors = results.get_all_method_errors();
        let n = errors.len();
        if n > 0 {
            write_errors_header();
            let mut i: usize = 0;
            while i < n
                invariant
                    n == errors.len(),
                decreases n - i,
            {
                write_error_line(
                    errors[i].0.as_str(),
                    errors[i].1.as_str(),
                    errors[i].2.as_str(),
                    errors[i].3.as_str(),
                );
                i += 1;
            }
        }
    }
}

/// Relies on `std::io::Stdout`'s `write_fmt`: prints the run announcement.
#[verifier::external_body]
fn write_header_line(total: usize) {
    let _ = writeln!(std::io::stdout(), "Starting execution of {} slices...", total);
}

/// Relies on `std::io::Stdout`'s `write_fmt`: rewrites the progress line.
#[verifier::external_body]
fn write_progress_line(
    done: u128,
    total: usize,
    percent: u128,
    completed: usize,
    failed: usize,
    elapsed_nanos: u64,
) {
    let out = std::io::stdout();
    let line = format!(
        "\r\x1B[KProgress: [{}/{}] {}% | ok {} failed {} | {}ns",
        done, total, percent, completed, failed, elapsed_nanos,
    );
    let _ = write!(&out, "{}", line);
    let _ = (&out).flush();
    if done == total as u128 {
        let _ = writeln!(&out);
    }
}

/// Relies on `std::io::Stdout`'s `write_fmt`: prints the final counts.
#[verifier::external_body]
fn write_summary_line(
    ok_slices: usize,
    total_slices: usize,
    ok_methods: u128,
    total_methods: u128,
    elapsed_nanos: u64,
    avg_nanos: u64,
    min_nanos: u64,
    max_nanos: u64,
) {
    let out = std::io::stdout();
    let counts = format!(
        "Slices: {}/{} succeeded, Methods: {}/{} succeeded",
        ok_slices, total_slices, ok_methods, total_methods,
    );
    let timings = format!(
        "Total: {}ns | Avg: {}ns, Min: {}ns, Max: {}ns",
        elapsed_nanos, avg_nanos, min_nanos, max_nanos,
    );
    let _ = writeln!(&out, "{}", counts);
    let _ = writeln!(&out, "{}", timings);
}

/// Relies on `std::io::Stdout`'s `write_fmt`: opens the error listing.
#[verifier::external_body]
fn write_errors_header() {
    let _ = writeln!(std::io::stdout(), "\nErrors occurred:");
}

/// Relies on `std::io::Stdout`'s `write_fmt`: prints one method error.
#[verifier::external_body]
fn write_error_line(slice: &str, layer: &str, method: &str, message: &str) {
    let _ = writeln!(std::io::stdout(), "  failed {}.{}.{}: {}", slice, layer, method, message);
}

} // verus!
