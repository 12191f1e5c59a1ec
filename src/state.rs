//! The pending table: keys waiting for a tap-or-hold decision.
use vstd::prelude::*;
use crate::config::{RemapAction, RemapView};
use crate::keys::KeyCode;
use crate::table::{find_key, keys_of, keys_unique, lemma_put_unique, lemma_remove_unique, lemma_view_keys, lemma_view_put, lemma_view_remove, lookup, view_entries};

verus! {

/// A key waiting for a decision: the remap that made it wait, what went
/// out for it so far, and when it went down.
pub struct PendingKey {
    pub remap: RemapAction,
    pub hold_sent: bool,
    pub overlap_hold_sent: bool,
    pub tap_sent: bool,
    /// Milliseconds since the worker started.
    pub time_pressed: u64,
    pub timer_fired: bool,
}

pub struct PendingView {
    pub remap: RemapView,
    pub hold_sent: bool,
    pub overlap_hold_sent: bool,
    pub tap_sent: bool,
    pub time_pressed: u64,
    pub timer_fired: bool,
}

impl View for PendingKey {
    type V = PendingView;

    open spec fn view(&self) -> PendingView {
        PendingView {
            remap: self.remap@,
            hold_sent: self.hold_sent,
            overlap_hold_sent: self.overlap_hold_sent,
            tap_sent: self.tap_sent,
            time_pressed: self.time_pressed,
            timer_fired: self.timer_fired,
        }
    }
}

/// Pending keys, each at most once, in the order they went down.
pub type Pending = Vec<(KeyCode, PendingKey)>;

/// The entry a key gets when it starts to wait: nothing sent yet.
pub open spec fn fresh_entry(remap: RemapView, now: u64) -> PendingView {
    PendingView {
        remap,
        hold_sent: false,
        overlap_hold_sent: false,
        tap_sent: false,
        time_pressed: now,
        timer_fired: false,
    }
}

/// Makes `key` wait under `remap`, pressed at `now`, unless it waits
/// already; an entry that exists is left as it is.
pub fn add_pending(pending: &mut Pending, key: KeyCode, remap: &RemapAction, now: u64)
    requires
        keys_unique(old(pending)@),
    ensures
        keys_unique(final(pending)@),
        keys_of(old(pending)@).contains(key) ==> final(pending)@ == old(pending)@,
        !keys_of(old(pending)@).contains(key) ==> view_entries(final(pending)@) == view_entries(
            old(pending)@,
        ).push((key, fresh_entry(remap@, now))),
{
    match find_key(pending, key) {
        Some(_) => {},
        None => {
            let entry = PendingKey {
                remap: remap.copy(),
                hold_sent: false,
                overlap_hold_sent: false,
                tap_sent: false,
                time_pressed: now,
                timer_fired: false,
            };
            proof {
                lemma_put_unique(pending@, key, entry);
                lemma_view_put(pending@, key, entry);
                lemma_view_keys(pending@, key);
            }
            pending.push((key, entry));
        },
    }
}

/// Ends the wait of `key` and returns its entry, if it was waiting.
pub fn remove_pending(pending: &mut Pending, key: &KeyCode) -> (r: Option<PendingKey>)
    requires
        keys_unique(old(pending)@),
    ensures
        keys_unique(final(pending)@),
        !keys_of(final(pending)@).contains(*key),
        keys_of(final(pending)@) == keys_of(old(pending)@).remove(*key),
        match r {
            Some(e) => lookup(view_entries(old(pending)@), *key) == Some(e@),
            None => !keys_of(old(pending)@).contains(*key) && final(pending)@ == old(pending)@,
        },
        forall|k: KeyCode| k != *key ==> #[trigger] lookup(final(pending)@, k) == lookup(old(pending)@, k),
{
    proof {
        lemma_view_keys(pending@, *key);
    }
    match find_key(pending, *key) {
        Some(i) => {
            proof {
                lemma_remove_unique(pending@, i as int);
                lemma_view_remove(pending@, i as int);
            }
            let (_, e) = pending.remove(i);
            Some(e)
        },
        None => None,
    }
}

} // verus!
