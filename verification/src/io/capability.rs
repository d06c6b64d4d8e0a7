//! Direct I/O: what the platform supports, how a request for it resolves,
//! and when a transfer falls back to buffered I/O.
use vstd::prelude::*;

verus! {

/// What the platform offers for direct I/O.
#[derive(Clone, Debug, PartialEq, Eq)]
pub struct IoCapability {
    pub platform: String,
    pub direct_io_supported: bool,
    pub direct_io_mode: String,
    pub fallback_mode: String,
}

/// How a transfer runs: what was asked for, what the platform supports,
/// the mode asked for and the mode used, and why it fell back, if it did.
#[derive(Clone, Debug, PartialEq, Eq)]
pub struct IoExecution {
    pub requested_direct_io: bool,
    pub direct_io_supported: bool,
    pub requested_mode: String,
    pub effective_mode: String,
    pub fallback_reason: Option<String>,
}

/// The text of an optional reason.
pub open spec fn reason_view(r: Option<String>) -> Option<Seq<char>> {
    match r {
        Some(s) => Some(s@),
        None => None,
    }
}

/// Resolve a request for direct I/O against the platform's capability:
/// direct I/O is used when asked for and supported; asked for but not
/// supported, the transfer falls back, for `platform_not_supported`.
pub fn resolve_io_execution(capability: &IoCapability, requested_direct_io: bool) -> (e: IoExecution)
    ensures
        e.requested_direct_io == requested_direct_io,
        e.direct_io_supported == capability.direct_io_supported,
        reason_view(e.fallback_reason) == if requested_direct_io && !capability.direct_io_supported {
            Some("platform_not_supported"@)
        } else {
            None
        },
        e.effective_mode@ == if requested_direct_io && capability.direct_io_supported {
            capability.direct_io_mode@
        } else {
            capability.fallback_mode@
        },
        e.requested_mode@ == if requested_direct_io {
            capability.direct_io_mode@
        } else {
            capability.fallback_mode@
        },
{
    let fallback_reason = if !requested_direct_io {
        None
    } else if !capability.direct_io_supported {
        Some(String::from_str("platform_not_supported"))
    } else {
        None
    };
    let effective_mode = if requested_direct_io && fallback_reason.is_none() {
        capability.direct_io_mode.clone()
    } else {
        capability.fallback_mode.clone()
    };
    let requested_mode = if requested_direct_io {
        capability.direct_io_mode.clone()
    } else {
        capability.fallback_mode.clone()
    };
    IoExecution {
        requested_direct_io,
        direct_io_supported: capability.direct_io_supported,
        requested_mode,
        effective_mode,
        fallback_reason,
    }
}

/// The block size direct transfers must be a multiple of.
pub fn direct_io_alignment() -> (a: usize)
    ensures
        a == 4096,
{
    4096
}

/// A direct write needs a non-empty payload of whole blocks.
pub fn direct_io_write_compatible(bytes: &[u8]) -> (r: bool)
    ensures
        r == (bytes@.len() > 0 && bytes@.len() % 4096 == 0),
{
    bytes.len() > 0 && bytes.len() % direct_io_alignment() == 0
}

/// A direct read needs an empty file or one of whole blocks.
pub fn direct_io_length_compatible(len: usize) -> (r: bool)
    ensures
        r == (len == 0 || len % 4096 == 0),
{
    len == 0 || len % direct_io_alignment() == 0
}

/// Fall back to buffered I/O, for `reason`.
pub fn fall_back(execution: &mut IoExecution, reason: String)
    ensures
        final(execution).effective_mode@ == "buffered_io"@,
        reason_view(final(execution).fallback_reason) == Some(reason@),
        final(execution).requested_direct_io == old(execution).requested_direct_io,
        final(execution).direct_io_supported == old(execution).direct_io_supported,
        final(execution).requested_mode == old(execution).requested_mode,
{
    execution.effective_mode = String::from_str("buffered_io");
    execution.fallback_reason = Some(reason);
}

/// Decide a write of `bytes`: direct when asked for, supported and the
/// payload is whole blocks (`true`). Otherwise buffered, and a request for
/// direct I/O with no reason yet falls back for `unaligned_payload`; the
/// second result tells whether it did.
pub fn plan_write(execution: &mut IoExecution, bytes: &[u8]) -> (r: (bool, bool))
    ensures
        r.0 == (old(execution).requested_direct_io && old(execution).direct_io_supported && bytes@.len() > 0
            && bytes@.len() % 4096 == 0),
        r.1 == (!r.0 && old(execution).requested_direct_io && old(execution).fallback_reason is None),
        r.1 ==> final(execution).effective_mode@ == "buffered_io"@ && reason_view(final(execution).fallback_reason)
            == Some("unaligned_payload"@),
        !r.1 ==> *final(execution) == *old(execution),
        final(execution).requested_direct_io == old(execution).requested_direct_io,
        final(execution).direct_io_supported == old(execution).direct_io_supported,
        final(execution).requested_mode == old(execution).requested_mode,
{
    if execution.requested_direct_io && execution.direct_io_supported && direct_io_write_compatible(bytes) {
        return (true, false);
    }
    if execution.requested_direct_io && execution.fallback_reason.is_none() {
        fall_back(execution, String::from_str("unaligned_payload"));
        return (false, true);
    }
    (false, false)
}


/// Decide a read of a file of `file_len` bytes: direct when asked for,
/// supported and the file is empty or whole blocks (`true`). When direct
/// I/O was asked for and is supported but the length is not whole blocks,
/// the read falls back for `unaligned_file_length`; otherwise nothing
/// changes.
pub fn plan_read(execution: &mut IoExecution, file_len: usize) -> (direct: bool)
    ensures
        direct == (old(execution).requested_direct_io && old(execution).direct_io_supported && (file_len == 0
            || file_len % 4096 == 0)),
        (old(execution).requested_direct_io && old(execution).direct_io_supported && !direct)
            ==> final(execution).effective_mode@ == "buffered_io"@ && reason_view(final(execution).fallback_reason)
            == Some("unaligned_file_length"@),
        !(old(execution).requested_direct_io && old(execution).direct_io_supported && !direct)
            ==> *final(execution) == *old(execution),
        final(execution).requested_direct_io == old(execution).requested_direct_io,
        final(execution).direct_io_supported == old(execution).direct_io_supported,
        final(execution).requested_mode == old(execution).requested_mode,
{
    if !(execution.requested_direct_io && execution.direct_io_supported) {
        return false;
    }
    if direct_io_length_compatible(file_len) {
        return true;
    }
    fall_back(execution, String::from_str("unaligned_file_length"));
    false
}

} // verus!
