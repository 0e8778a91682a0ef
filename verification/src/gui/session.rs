//! The course of a scan that is run from the window: its buttons, its outcome and its status line.

use crate::text::{self, push_numeral};
use vstd::prelude::*;

verus! {

/// What the buttons of a scan ask for.
#[derive(Debug, Clone, Copy, PartialEq, Eq, Structural)]
pub struct ScanFlags {
    /// The scan is to stop.
    pub stop: bool,
    /// What was found up to then is to be compared.
    pub compare: bool,
}

impl ScanFlags {
    /// A scan that was just started.
    pub fn scan_clicked() -> (flags: Self)
        ensures
            flags == (ScanFlags { stop: false, compare: false }),
    {
        ScanFlags { stop: false, compare: false }
    }

    /// The scan is stopped.
    pub fn stop_clicked(&self) -> (flags: Self)
        ensures
            flags == (ScanFlags { stop: true, compare: self.compare }),
    {
        ScanFlags { stop: true, compare: self.compare }
    }

    /// The scan is stopped, and what was found is compared.
    pub fn stop_and_compare_clicked(&self) -> (flags: Self)
        ensures
            flags == (ScanFlags { stop: true, compare: true }),
    {
        ScanFlags { stop: true, compare: true }
    }

    /// How the scan goes on once the signatures are computed.
    pub fn verdict(&self) -> (verdict: ScanVerdict)
        ensures
            verdict == if self.stop && !self.compare {
                ScanVerdict::Stopped
            } else {
                ScanVerdict::Compare { partial: self.stop && self.compare }
            },
    {
        if self.stop && !self.compare {
            ScanVerdict::Stopped
        } else {
            ScanVerdict::Compare { partial: self.stop && self.compare }
        }
    }
}

/// How a scan goes on once the signatures are computed.
#[derive(Debug, Clone, Copy, PartialEq, Eq, Structural)]
pub enum ScanVerdict {
    /// It is over.
    Stopped,
    /// The signatures are compared; there are only some of them, if the scan was stopped.
    Compare { partial: bool },
}

/// What the status line adds to a result that is not complete.
pub open spec fn partial_text(partial: bool) -> Seq<char> {
    if partial {
        " (partial)"@
    } else {
        Seq::empty()
    }
}

fn push_partial(status: &mut String, partial: bool)
    ensures
        final(status)@ == old(status)@ + partial_text(partial),
{
    if partial {
        status.append(" (partial)");
    }
    assert(status@ =~= old(status)@ + partial_text(partial));
}

/// The status while files are collected. It is renewed with every fiftieth file.
pub fn collecting_status(count: usize) -> (status: Option<String>)
    ensures
        status is Some <==> count as int % 50 == 0,
        status matches Some(s) ==> s@ == "Collecting files... "@ + text::numeral(count as nat),
{
    if count % 50 != 0 {
        return None;
    }
    let mut status = String::from_str("Collecting files... ");
    push_numeral(&mut status, count as u64);
    Some(status)
}

/// The status once the files are collected: whether there are any.
pub fn collected_status(total: usize) -> (status: String)
    ensures
        status@ == if total == 0 {
            "No video files found."@
        } else {
            "Checking cache for "@ + text::numeral(total as nat) + " files..."@
        },
{
    if total == 0 {
        return String::from_str("No video files found.");
    }
    let mut status = String::from_str("Checking cache for ");
    push_numeral(&mut status, total as u64);
    status.append(" files...");
    status
}

/// The status once the cache was checked.
pub fn checked_status(cached: usize, uncached: usize) -> (status: String)
    ensures
        status@ == text::numeral(cached as nat) + " cached, "@ + text::numeral(uncached as nat)
            + " to process..."@,
{
    let mut status = String::new();
    push_numeral(&mut status, cached as u64);
    status.append(" cached, ");
    push_numeral(&mut status, uncached as u64);
    status.append(" to process...");
    assert(status@ =~= text::numeral(cached as nat) + " cached, "@ + text::numeral(uncached as nat)
        + " to process..."@);
    status
}

/// The status while signatures are computed.
pub fn processing_status(done: usize, total: usize, cached: usize) -> (status: String)
    ensures
        status@ == "Processing: "@ + text::numeral(done as nat) + "/"@ + text::numeral(total as nat)
            + " ("@ + text::numeral(cached as nat) + " cached)"@,
{
    let mut status = String::from_str("Processing: ");
    push_numeral(&mut status, done as u64);
    status.append("/");
    push_numeral(&mut status, total as u64);
    status.append(" (");
    push_numeral(&mut status, cached as u64);
    status.append(" cached)");
    status
}

/// The status while signatures are compared.
pub fn comparing_status(signatures: usize, partial: bool) -> (status: String)
    ensures
        status@ == "Comparing "@ + text::numeral(signatures as nat) + " signatures"@ + partial_text(
            partial,
        ) + "..."@,
{
    let mut status = String::from_str("Comparing ");
    push_numeral(&mut status, signatures as u64);
    status.append(" signatures");
    push_partial(&mut status, partial);
    status.append("...");
    status
}

/// The status with the result.
pub open spec fn found_text(groups: nat, partial: bool, errors: nat) -> Seq<char> {
    "Found "@ + text::numeral(groups) + " groups"@ + partial_text(partial) + ". Errors: "@
        + text::numeral(errors) + "."@
}

/// The status with the result, while thumbnails are loaded and after that.
pub fn found_status(groups: usize, partial: bool, errors: usize, loading: bool) -> (status: String)
    ensures
        status@ == found_text(groups as nat, partial, errors as nat) + if loading {
            " Loading thumbnails..."@
        } else {
            Seq::empty()
        },
{
    let mut status = String::from_str("Found ");
    push_numeral(&mut status, groups as u64);
    status.append(" groups");
    push_partial(&mut status, partial);
    status.append(". Errors: ");
    push_numeral(&mut status, errors as u64);
    status.append(".");
    if loading {
        status.append(" Loading thumbnails...");
    }
    assert(status@ =~= found_text(groups as nat, partial, errors as nat) + if loading {
        " Loading thumbnails..."@
    } else {
        Seq::empty()
    });
    status
}

} // verus!
