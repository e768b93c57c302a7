//! Search dispatch decisions of the plugin window: debounced type-ahead
//! search, and which background replies are still wanted.

use vstd::prelude::*;
use crate::text::{push_str, string_from_chars};

verus! {

/// The character of decimal digit `d`.
pub open spec fn digit_char(d: nat) -> char {
    ((48 + d) as u8) as char
}

/// Decimal notation of `n`.
pub open spec fn decimal(n: nat) -> Seq<char>
    decreases n,
{
    if n < 10 {
        seq![digit_char(n)]
    } else {
        decimal(n / 10).push(digit_char(n % 10))
    }
}

/// Appends the decimal notation of `n` to `out`.
pub fn push_decimal(out: &mut Vec<char>, n: usize)
    ensures
        final(out)@ == old(out)@ + decimal(n as nat),
    decreases n,
{
    if n >= 10 {
        push_decimal(out, n / 10);
    }
    let d = (n % 10) as u8;
    out.push((48u8 + d) as char);
    assert(old(out)@ + decimal(n as nat) =~= if n >= 10 {
        old(out)@ + decimal((n / 10) as nat) + seq![digit_char((n % 10) as nat)]
    } else {
        old(out)@ + seq![digit_char(n as nat)]
    });
}

/// How long after the last keystroke an automatic (type-ahead) search
/// fires, in milliseconds. An explicit search fires at once.
pub const DEBOUNCE_MILLIS: u128 = 250;

/// Shortest query, in characters, for which an automatic search fires. An
/// explicit search has no minimum.
pub const MIN_QUERY_LEN: usize = 2;

/// Whether an automatic search is due, `elapsed_since_edit_millis` (whole
/// milliseconds) after the last edit of a query of `query_len_chars`
/// characters.
pub fn should_auto_dispatch(elapsed_since_edit_millis: u128, query_len_chars: usize) -> (r: bool)
    ensures
        r == (elapsed_since_edit_millis >= DEBOUNCE_MILLIS && query_len_chars >= MIN_QUERY_LEN),
{
    elapsed_since_edit_millis >= DEBOUNCE_MILLIS && query_len_chars >= MIN_QUERY_LEN
}

/// The debounce delay in nanoseconds.
pub const DEBOUNCE_NANOS: u128 = 250_000_000;

/// What a frame does about the automatic search.
#[derive(Debug, PartialEq, Eq, Structural)]
pub enum DebounceAction {
    /// No edit is waiting for a search.
    Idle,
    /// Start the search now.
    Dispatch,
    /// Look again after this many nanoseconds.
    WaitNanos(u128),
}

/// The automatic-search decision of one frame. `pending_edit_elapsed_nanos`
/// is the time since the last edit that has not yet led to a search, if
/// there is one. While the search is not due, the frame asks to be woken
/// when the debounce delay will have passed (at once, if it already has).
pub fn debounce_action(pending_edit_elapsed_nanos: Option<u128>, query_len_chars: usize) -> (r:
    DebounceAction)
    ensures
        match pending_edit_elapsed_nanos {
            None => r == DebounceAction::Idle,
            Some(e) => if e >= DEBOUNCE_NANOS && query_len_chars >= MIN_QUERY_LEN {
                r == DebounceAction::Dispatch
            } else if e >= DEBOUNCE_NANOS {
                r == DebounceAction::WaitNanos(0)
            } else {
                r == DebounceAction::WaitNanos((DEBOUNCE_NANOS - e) as u128)
            },
        },
{
    match pending_edit_elapsed_nanos {
        None => DebounceAction::Idle,
        Some(elapsed) => {
            if should_auto_dispatch(elapsed / 1_000_000, query_len_chars) {
                DebounceAction::Dispatch
            } else if elapsed >= DEBOUNCE_NANOS {
                DebounceAction::WaitNanos(0)
            } else {
                DebounceAction::WaitNanos(DEBOUNCE_NANOS - elapsed)
            }
        },
    }
}

/// Status text after a successful search with `n` results.
pub open spec fn results_status(n: nat) -> Seq<char> {
    decimal(n) + " result(s)."@
}

/// Status text after a failed search.
pub open spec fn failure_status(error: Seq<char>) -> Seq<char> {
    "Search failed: "@ + error
}

/// Search results shown in the window, and the bookkeeping that lets only
/// the reply to the latest search replace them: every search gets a new
/// generation number, and a reply counts only if it carries the number of
/// the search started last. A slow, superseded search therefore cannot
/// overwrite newer results.
pub struct SearchSession<T> {
    /// The results on display.
    pub results: Vec<T>,
    /// Index of the selected result.
    pub selected: Option<usize>,
    /// The status line.
    pub status: String,
    /// Number of the last generation handed out (0 before any search);
    /// `begin_search` advances it.
    pub next_generation: u64,
    /// Generation of the search started last; only its reply counts.
    pub latest_dispatched_generation: u64,
}

impl<T> SearchSession<T> {
    /// A session with no results and no search started.
    pub fn new() -> (s: Self)
        ensures
            s.results@ == Seq::<T>::empty(),
            s.selected is None,
            s.status@ == Seq::<char>::empty(),
            s.next_generation == 0,
            s.latest_dispatched_generation == 0,
    {
        SearchSession {
            results: Vec::new(),
            selected: None,
            status: String::new(),
            next_generation: 0,
            latest_dispatched_generation: 0,
        }
    }

    /// Starts a search (automatic or explicit): hands out the next
    /// generation, makes it the one whose reply counts, and shows that a
    /// search is running. Returns the generation the reply must carry.
    pub fn begin_search(&mut self) -> (generation: u64)
        requires
            old(self).next_generation < u64::MAX,
        ensures
            generation == old(self).next_generation + 1,
            final(self).next_generation == generation,
            final(self).latest_dispatched_generation == generation,
            final(self).status@ == "Searching..."@,
            final(self).results == old(self).results,
            final(self).selected == old(self).selected,
    {
        self.next_generation = self.next_generation + 1;
        let generation = self.next_generation;
        self.latest_dispatched_generation = generation;
        self.status = String::from_str("Searching...");
        generation
    }

    /// The selected result's index while it still names a result. A
    /// selection kept through a failed search, which emptied the results,
    /// counts as none.
    pub fn valid_selection(&self) -> (r: Option<usize>)
        ensures
            r == match self.selected {
                Some(i) => if i < self.results.len() {
                    Some(i)
                } else {
                    None
                },
                None => None,
            },
    {
        match self.selected {
            Some(i) => if i < self.results.len() {
                Some(i)
            } else {
                None
            },
            None => None,
        }
    }

    /// Handles the reply of the search of `generation`. A reply to any
    /// search but the latest is dropped. The latest search's results replace
    /// those shown and clear the selection; its error is shown and the
    /// results are cleared.
    pub fn receive(&mut self, generation: u64, reply: Result<Vec<T>, String>)
        ensures
            final(self).next_generation == old(self).next_generation,
            final(self).latest_dispatched_generation == old(self).latest_dispatched_generation,
            if generation == old(self).latest_dispatched_generation {
                match reply {
                    Ok(found) => {
                        &&& final(self).results == found
                        &&& final(self).selected is None
                        &&& final(self).status@ == results_status(found.len() as nat)
                    },
                    Err(e) => {
                        &&& final(self).results@ == Seq::<T>::empty()
                        &&& final(self).selected == old(self).selected
                        &&& final(self).status@ == failure_status(e@)
                    },
                }
            } else {
                &&& final(self).results == old(self).results
                &&& final(self).selected == old(self).selected
                &&& final(self).status == old(self).status
            },
    {
        if generation == self.latest_dispatched_generation {
            match reply {
                Ok(found) => {
                    let mut text: Vec<char> = Vec::new();
                    push_decimal(&mut text, found.len());
                    push_str(&mut text, " result(s).");
                    self.status = string_from_chars(&text);
                    self.results = found;
                    self.selected = None;
                },
                Err(e) => {
                    let mut text: Vec<char> = Vec::new();
                    push_str(&mut text, "Search failed: ");
                    push_str(&mut text, e.as_str());
                    self.status = string_from_chars(&text);
                    self.results = Vec::new();
                },
            }
        }
    }
}

/// Once a search has begun, the reply to every search begun before it is
/// dropped: the new search's generation is larger than any handed out
/// earlier.
pub proof fn law_earlier_replies_dropped<T>(
    before: SearchSession<T>,
    after: SearchSession<T>,
    earlier: u64,
)
    requires
        after.latest_dispatched_generation == before.next_generation + 1,
        earlier <= before.next_generation,
    ensures
        earlier != after.latest_dispatched_generation,
{
}

} // verus!
