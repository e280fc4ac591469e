//! The context guard: messages for a session whose context fills up, when to show
//! them, and what a session start does to the counters behind them.
//!
//! In `pause` mode the guard asks the user to clear or compact on their own terms;
//! in `handoff` mode it has the agent write a handoff first, which the next session
//! start restores. How full the context is, the caller estimates.

use vstd::prelude::*;

use crate::memory::list;
#[allow(unused_imports)]
use crate::memory::listing;
use crate::model::{Node, Scope};
#[allow(unused_imports)]
use crate::order::deref_all;
#[allow(unused_imports)]
use crate::seqs::first_n;
use crate::text::{decimal_of_u64, parse_unsigned, same};
#[allow(unused_imports)]
use crate::text::{decimal_nat, unsigned};
#[allow(unused_imports)]
use vstd::string::*;

verus! {

/// What the guard keeps of a session, as it is stored.
#[derive(Debug, Clone)]
pub struct SessionState {
    /// Size of the transcript at the last clear or compact.
    pub transcript_marker: Option<String>,
    /// The percentage at which the guard last spoke.
    pub guard_last_pct: Option<String>,
}

/// How both messages begin.
pub open spec fn guard_head(pct: u8) -> Seq<char> {
    "[mimir context guard] This session's context is ~"@ + decimal_nat(pct as nat)
}

/// The message for a firing, or none below the threshold and in other modes.
pub open spec fn guard_text(pct: u8, threshold: u8, mode: Seq<char>) -> Option<Seq<char>> {
    if pct < threshold {
        None
    } else if mode == "pause"@ {
        Some(
            guard_head(pct)
                + "% full. Consider a deliberate `/clear` or `/compact` now, on your own terms, rather than letting it happen mid-task. To keep continuity across the clear, save a handoff first: `mimir remember \"<what's in flight, next step>\" -t note --tags session-handoff`."@,
        )
    } else if mode == "handoff"@ {
        Some(
            guard_head(pct)
                + "% full. Before anything else, write ONE structured handoff memory summarizing exactly what's in flight and the next concrete step:\n  mimir remember \"<handoff>\" -t note --tags session-handoff\nThen tell the user to run `/clear` — the next session auto-restores this handoff on SessionStart."@,
        )
    } else {
        None
    }
}

/// The view of an optional text.
pub open spec fn text_of(s: Option<String>) -> Option<Seq<char>> {
    match s {
        Some(t) => Some(t@),
        None => None,
    }
}

/// The guard's message for a firing at `pct`, or nothing below the threshold.
/// Modes other than `pause` and `handoff` are silent.
pub fn guard_message(pct: u8, threshold: u8, mode: &str) -> (r: Option<String>)
    ensures
        text_of(r) == guard_text(pct, threshold, mode@),
{
    if pct < threshold {
        return None;
    }
    let mut out = "[mimir context guard] This session's context is ~".to_owned();
    out.append(decimal_of_u64(pct as u64).as_str());
    if same(mode, "pause") {
        out.append(
            "% full. Consider a deliberate `/clear` or `/compact` now, on your own terms, rather than letting it happen mid-task. To keep continuity across the clear, save a handoff first: `mimir remember \"<what's in flight, next step>\" -t note --tags session-handoff`.",
        );
        Some(out)
    } else if same(mode, "handoff") {
        out.append(
            "% full. Before anything else, write ONE structured handoff memory summarizing exactly what's in flight and the next concrete step:\n  mimir remember \"<handoff>\" -t note --tags session-handoff\nThen tell the user to run `/clear` — the next session auto-restores this handoff on SessionStart.",
        );
        Some(out)
    } else {
        None
    }
}

/// The number that a stored value means, if it means one up to `max`.
pub open spec fn stored(value: Option<String>, max: int) -> Option<nat> {
    match value {
        Some(s) => unsigned(s@, max),
        None => None,
    }
}

fn read_stored(value: &Option<String>, max: u64) -> (r: Option<u64>)
    ensures
        match r {
            Some(n) => stored(*value, max as int) == Some(n as nat) && n <= max,
            None => stored(*value, max as int) is None,
        },
{
    match value {
        Some(s) => parse_unsigned(s.as_str(), max),
        None => None,
    }
}

/// Whether the guard speaks: from the threshold on, once, and then at every ten
/// points more.
pub open spec fn speaks(state: SessionState, pct: u8, threshold: u8) -> bool {
    &&& pct >= threshold
    &&& match stored(state.guard_last_pct, 255) {
        Some(last) => pct >= last + 10,
        None => true,
    }
}

/// Decides whether the guard speaks at `pct`, and notes it where it does.
pub fn should_emit(state: &mut SessionState, pct: u8, threshold: u8) -> (r: bool)
    ensures
        r == speaks(*old(state), pct, threshold),
        final(state).transcript_marker == old(state).transcript_marker,
        !r ==> *final(state) == *old(state),
        r ==> text_of(final(state).guard_last_pct) == Some(decimal_nat(pct as nat)),
{
    if pct < threshold {
        return false;
    }
    let emit = match read_stored(&state.guard_last_pct, 255) {
        Some(last) => pct as u64 >= last + 10,
        None => true,
    };
    if emit {
        state.guard_last_pct = Some(decimal_of_u64(pct as u64));
    }
    emit
}

/// Whether the state after a session start from `source` follows from the one
/// before: a new session forgets both counters, a clear or compact marks the size
/// of the transcript and forgets when the guard spoke, anything else leaves both.
pub open spec fn starts(
    before: SessionState,
    after: SessionState,
    source: Seq<char>,
    transcript_bytes: u64,
) -> bool {
    if source == "startup"@ {
        after.transcript_marker is None && after.guard_last_pct is None
    } else if source == "clear"@ || source == "compact"@ {
        text_of(after.transcript_marker) == Some(decimal_nat(transcript_bytes as nat))
            && after.guard_last_pct is None
    } else {
        after == before
    }
}

/// Applies a session start to what the guard keeps of the session.
pub fn handle_session_start(state: &mut SessionState, source: &str, transcript_bytes: u64)
    ensures
        starts(*old(state), *final(state), source@, transcript_bytes),
{
    if same(source, "startup") {
        state.transcript_marker = None;
        state.guard_last_pct = None;
    } else if same(source, "clear") || same(source, "compact") {
        state.transcript_marker = Some(decimal_of_u64(transcript_bytes));
        state.guard_last_pct = None;
    }
}

/// The marker of a session; 0 where there is none, which counts the whole
/// transcript.
pub open spec fn marker(state: SessionState) -> nat {
    match stored(state.transcript_marker, u64::MAX as int) {
        Some(n) => n,
        None => 0,
    }
}

/// The size of the transcript at which the estimate starts.
pub fn transcript_marker(state: &SessionState) -> (r: u64)
    ensures
        r == marker(*state),
{
    match read_stored(&state.transcript_marker, u64::MAX) {
        Some(n) => n,
        None => 0,
    }
}

/// The text that restores a handoff: the body of the newest memory tagged
/// `session-handoff`, if it has one.
pub open spec fn handoff(nodes: Seq<Node>, scope: Scope) -> Option<Seq<char>> {
    let hits = first_n(listing(nodes, scope, None, Some("session-handoff"@)), 1);
    if hits.len() > 0 && hits[0].body is Some {
        Some("Restored session handoff:\n"@ + hits[0].body->0@)
    } else {
        None
    }
}

/// The text that restores a handoff at a session start, if there is one.
pub fn restore_handoff_text(nodes: &Vec<Node>, scope: Scope) -> (r: Option<String>)
    ensures
        text_of(r) == handoff(nodes@, scope),
{
    let hits = list(nodes, scope, None, Some("session-handoff"), 1);
    let ghost all = deref_all(hits@);
    if hits.len() == 0 {
        return None;
    }
    assert(all[0] == *hits@[0]);
    match &hits[0].body {
        Some(body) => {
            let mut out = "Restored session handoff:\n".to_owned();
            out.append(body.as_str());
            Some(out)
        },
        None => None,
    }
}

// ---------------------------------------------------------------------
// Laws
// ---------------------------------------------------------------------

/// Writing a number down and reading it again gives the number.
pub proof fn written_numbers_read_back(n: nat, max: int)
    requires
        n <= max,
    ensures
        unsigned(decimal_nat(n), max) == Some(n),
{
    crate::text::lemma_decimal_digits(n);
}

/// Once the guard has spoken, it is silent until ten points more.
pub proof fn no_nagging(before: SessionState, after: SessionState, pct: u8, next: u8, threshold: u8)
    requires
        speaks(before, pct, threshold),
        text_of(after.guard_last_pct) == Some(decimal_nat(pct as nat)),
        next < pct + 10,
    ensures
        !speaks(after, next, threshold),
{
    written_numbers_read_back(pct as nat, 255);
}

/// A new session speaks at the first crossing, however full the last one was.
pub proof fn a_new_session_starts_afresh(
    before: SessionState,
    after: SessionState,
    bytes: u64,
    pct: u8,
    threshold: u8,
)
    requires
        starts(before, after, "startup"@, bytes),
        pct >= threshold,
    ensures
        speaks(after, pct, threshold),
        marker(after) == 0,
{
}

/// After a clear, the estimate starts at the size that the transcript had then.
pub proof fn a_clear_moves_the_marker(
    before: SessionState,
    after: SessionState,
    source: Seq<char>,
    bytes: u64,
)
    requires
        source == "clear"@ || source == "compact"@,
        starts(before, after, source, bytes),
    ensures
        marker(after) == bytes,
{
    written_numbers_read_back(bytes as nat, u64::MAX as int);
    reveal_strlit("startup");
    reveal_strlit("clear");
    reveal_strlit("compact");
    assert("startup"@[0] != "clear"@[0]);
    assert("startup"@[0] != "compact"@[0]);
}

} // verus!
