//! Terms: tap or hold, decided by how long the key is held.
use vstd::prelude::*;
use crate::config::{copy_or_empty, remap_of, seq_or_empty, KeyboardView, RemapView};
use crate::features::{
    directives, Context, Directive, Feature, FeatureResult, KeyEvent, OutputEvent, Verdict,
};
use crate::keys::{KeyCode, PRESS};
use crate::table::{
    find_key, key_index, keys_unique, lemma_put_unique, lemma_remove_unique, lemma_view_keys,
    lemma_view_put, lemma_view_remove, lemma_view_update, put, put_entry, view_entries,
};

verus! {

/// A term key that is held: its sequences, its term, when it went down and
/// whether its hold went out.
pub struct ActiveTerm {
    tap: Vec<KeyCode>,
    hold: Vec<KeyCode>,
    term_duration: u64,
    press_time: u64,
    hold_emitted: bool,
}

pub struct TermEntry {
    pub tap: Seq<KeyCode>,
    pub hold: Seq<KeyCode>,
    pub term: u64,
    pub press_time: u64,
    pub hold_emitted: bool,
}

impl View for ActiveTerm {
    type V = TermEntry;

    closed spec fn view(&self) -> TermEntry {
        TermEntry {
            tap: self.tap@,
            hold: self.hold@,
            term: self.term_duration,
            press_time: self.press_time,
            hold_emitted: self.hold_emitted,
        }
    }
}

/// A timer the caller is to run: after `delay_ms` milliseconds, report the
/// expiry for `key`.
#[derive(Clone, Copy, Debug, PartialEq, Eq, Structural)]
pub struct TimerRequest {
    pub key: KeyCode,
    pub delay_ms: u64,
}

pub struct TermsFeature {
    /// Term keys that are held.
    active: Vec<(KeyCode, ActiveTerm)>,
    /// Timers asked for and not yet handed to the caller.
    timer_requests: Vec<TimerRequest>,
}

pub struct TermsView {
    pub active: Seq<(KeyCode, TermEntry)>,
    pub requests: Seq<TimerRequest>,
}

impl View for TermsFeature {
    type V = TermsView;

    closed spec fn view(&self) -> TermsView {
        TermsView { active: view_entries(self.active@), requests: self.timer_requests@ }
    }
}

/// The term of a remap: its own, else the global one.
pub open spec fn term_of(r: RemapView, global_term: u16) -> u64 {
    match r.term {
        Some(t) => t as u64,
        None => global_term as u64,
    }
}

/// Whether this feature handles `k`: it has a tap or a hold, and overlap
/// does not decide for it.
pub open spec fn is_term_key(cfg: KeyboardView, k: KeyCode) -> bool {
    &&& remap_of(cfg, k) is Some
    &&& (remap_of(cfg, k).unwrap().tap is Some || remap_of(cfg, k).unwrap().hold is Some)
    &&& !remap_of(cfg, k).unwrap().is_overlap()
}

/// What the release of a held term key sends: its hold's release where the
/// hold went out, else its tap pressed and released; nothing for an empty
/// sequence.
pub open spec fn settle_term(e: TermEntry) -> Verdict {
    if e.hold_emitted {
        if e.hold.len() == 0 {
            Verdict::Consume
        } else {
            Verdict::Emit(seq![Directive::ReleaseMany(e.hold)])
        }
    } else {
        if e.tap.len() == 0 {
            Verdict::Consume
        } else {
            Verdict::Emit(seq![Directive::PressMany(e.tap), Directive::ReleaseMany(e.tap)])
        }
    }
}

/// The term feature on one event, over the keys held, the global term and
/// the time of the event.
///
/// A key with a tap and no hold goes out at once: its tap is pressed with
/// the key and released with it. A key with a hold is held back: its press
/// records it and asks for a timer when the hold is not empty, and its
/// release sends what `settle_term` says.
pub open spec fn terms_step(
    st: TermsView,
    cfg: KeyboardView,
    keys_down: Set<KeyCode>,
    global_term: u16,
    now: u64,
    ev: KeyEvent,
) -> (TermsView, Set<KeyCode>, Verdict) {
    let k = ev.key;
    if !is_term_key(cfg, k) {
        (st, keys_down, Verdict::Continue(ev))
    } else {
        let r = remap_of(cfg, k).unwrap();
        if r.hold is None {
            let tap = r.tap.unwrap();
            if tap.len() == 0 {
                (st, keys_down, Verdict::Consume)
            } else if ev.state == PRESS {
                (st, keys_down, Verdict::Emit(seq![Directive::PressMany(tap)]))
            } else {
                (st, keys_down, Verdict::Emit(seq![Directive::ReleaseMany(tap)]))
            }
        } else if ev.state == PRESS {
            let hold = r.hold.unwrap();
            let term = term_of(r, global_term);
            let e = TermEntry {
                tap: seq_or_empty(r.tap),
                hold,
                term,
                press_time: now,
                hold_emitted: false,
            };
            let requests = if hold.len() > 0 {
                st.requests.push(TimerRequest { key: k, delay_ms: term })
            } else {
                st.requests
            };
            (
                TermsView { active: put(st.active, k, e), requests },
                keys_down.insert(k),
                Verdict::Consume,
            )
        } else {
            match key_index(st.active, k) {
                Some(i) => (
                    TermsView { active: st.active.remove(i), requests: st.requests },
                    keys_down.remove(k),
                    settle_term(st.active[i].1),
                ),
                None => (st, keys_down, Verdict::Continue(ev)),
            }
        }
    }
}

/// Whether a timer for held entry `e` that is handled at `now` sends the
/// hold: the key is still down, the hold is not empty and has not gone
/// out, and the term has passed since the press.
pub open spec fn hold_due(e: TermEntry, key_is_down: bool, now: u64) -> bool {
    &&& key_is_down
    &&& e.hold.len() > 0
    &&& !e.hold_emitted
    &&& now >= e.press_time
    &&& now - e.press_time >= e.term
}

/// The term feature on the expiry of a timer for `k`.
pub open spec fn timer_step(st: TermsView, keys_down: Set<KeyCode>, now: u64, k: KeyCode) -> (
    TermsView,
    Option<Seq<Directive>>,
) {
    match key_index(st.active, k) {
        Some(i) => {
            let e = st.active[i].1;
            if hold_due(e, keys_down.contains(k), now) {
                (
                    TermsView {
                        active: st.active.update(
                            i,
                            (
                                k,
                                TermEntry {
                                    tap: e.tap,
                                    hold: e.hold,
                                    term: e.term,
                                    press_time: e.press_time,
                                    hold_emitted: true,
                                },
                            ),
                        ),
                        requests: st.requests,
                    },
                    Some(seq![Directive::PressMany(e.hold)]),
                )
            } else {
                (st, None)
            }
        },
        None => (st, None),
    }
}

impl TermsFeature {
    /// Held term keys are listed once each.
    pub closed spec fn wf(&self) -> bool {
        keys_unique(self.active@)
    }

    /// A feature with no key held and no timer asked for.
    pub fn new() -> (r: Self)
        ensures
            r.wf(),
            r@.active.len() == 0,
            r@.requests.len() == 0,
    {
        let r = TermsFeature { active: Vec::new(), timer_requests: Vec::new() };
        assert(view_entries(r.active@) =~= Seq::<(KeyCode, TermEntry)>::empty());
        r
    }

    /// Hands over the timers asked for since the last call.
    pub fn take_timer_requests(&mut self) -> (r: Vec<TimerRequest>)
        requires
            old(self).wf(),
        ensures
            final(self).wf(),
            r@ == old(self)@.requests,
            final(self)@.requests.len() == 0,
            final(self)@.active == old(self)@.active,
    {
        let mut r: Vec<TimerRequest> = Vec::new();
        std::mem::swap(&mut r, &mut self.timer_requests);
        r
    }

    fn settle(e: ActiveTerm) -> (r: FeatureResult)
        ensures
            r@ == settle_term(e@),
    {
        if e.hold_emitted {
            if e.hold.len() == 0 {
                FeatureResult::Consume
            } else {
                let ghost h = e.hold@;
                let v = vec![OutputEvent::ReleaseMany(e.hold)];
                assert(directives(v@) =~= seq![Directive::ReleaseMany(h)]);
                FeatureResult::Emit(v)
            }
        } else {
            if e.tap.len() == 0 {
                FeatureResult::Consume
            } else {
                let ghost t = e.tap@;
                let tap2 = e.tap.clone();
                assert(tap2@ =~= t);
                let v = vec![OutputEvent::PressMany(tap2), OutputEvent::ReleaseMany(e.tap)];
                assert(directives(v@) =~= seq![Directive::PressMany(t), Directive::ReleaseMany(t)]);
                FeatureResult::Emit(v)
            }
        }
    }
}

impl Feature for TermsFeature {
    open spec fn inv(&self) -> bool {
        self.wf()
    }

    fn name(&self) -> &'static str {
        "terms"
    }

    fn on_event(&mut self, event: KeyEvent, ctx: &mut Context) -> (r: FeatureResult)
        ensures
            ({
                let (st, kd, v) = terms_step(
                    old(self)@,
                    old(ctx).device_config@,
                    old(ctx).keys_down@,
                    old(ctx).global_term,
                    old(ctx).now,
                    event,
                );
                &&& final(self)@ == st
                &&& final(ctx).keys_down@ == kd
                &&& r@ == v
            }),
            final(ctx).active_layers == old(ctx).active_layers,
    {
        let k = event.key;
        let mi = match ctx.device_config.remap_index(k) {
            Some(mi) => mi,
            None => {
                return FeatureResult::Continue(event);
            },
        };
        let remap = &ctx.device_config.mappings[mi].1;
        let is_overlap = match remap.overlap {
            Some(b) => b,
            None => false,
        };
        if is_overlap || (remap.tap.is_none() && remap.hold.is_none()) {
            return FeatureResult::Continue(event);
        }
        if remap.hold.is_none() {
            let tap = copy_or_empty(&remap.tap);
            if tap.len() == 0 {
                return FeatureResult::Consume;
            }
            let ghost t = tap@;
            let out = if event.state == PRESS {
                OutputEvent::PressMany(tap)
            } else {
                OutputEvent::ReleaseMany(tap)
            };
            let v = vec![out];
            assert(directives(v@) =~= seq![out@]);
            return FeatureResult::Emit(v);
        }
        if event.state == PRESS {
            let term: u64 = match remap.term {
                Some(t) => t as u64,
                None => ctx.global_term as u64,
            };
            let hold = copy_or_empty(&remap.hold);
            ctx.keys_down.insert(k);
            if hold.len() > 0 {
                self.timer_requests.push(TimerRequest { key: k, delay_ms: term });
            }
            let e = ActiveTerm {
                tap: copy_or_empty(&remap.tap),
                hold,
                term_duration: term,
                press_time: ctx.now,
                hold_emitted: false,
            };
            proof {
                lemma_view_put(self.active@, k, e);
                lemma_put_unique(self.active@, k, e);
            }
            put_entry(&mut self.active, k, e);
            FeatureResult::Consume
        } else {
            proof {
                lemma_view_keys(self.active@, k);
            }
            match find_key(&self.active, k) {
                Some(i) => {
                    proof {
                        lemma_view_remove(self.active@, i as int);
                        lemma_remove_unique(self.active@, i as int);
                    }
                    let (_, e) = self.active.remove(i);
                    ctx.keys_down.remove(k);
                    Self::settle(e)
                },
                None => FeatureResult::Continue(event),
            }
        }
    }

    fn on_timer(&mut self, key: KeyCode, ctx: &mut Context) -> (r: Option<Vec<OutputEvent>>)
        ensures
            ({
                let (st, out) = timer_step(old(self)@, old(ctx).keys_down@, old(ctx).now, key);
                &&& final(self)@ == st
                &&& match r {
                    Some(v) => out == Some(directives(v@)),
                    None => out is None,
                }
            }),
            *final(ctx) == *old(ctx),
    {
        proof {
            lemma_view_keys(self.active@, key);
        }
        let i = match find_key(&self.active, key) {
            Some(i) => i,
            None => {
                return None;
            },
        };
        let ghost before = self.active@;
        let down = ctx.keys_down.contains(key);
        let now = ctx.now;
        let e = &self.active[i].1;
        assert(before[i as int].0 == key);
        if !(down && e.hold.len() > 0 && !e.hold_emitted && now >= e.press_time && now
            - e.press_time >= e.term_duration) {
            return None;
        }
        let (origin, mut e) = self.active.remove(i);
        e.hold_emitted = true;
        let hold = e.hold.clone();
        assert(hold@ =~= e.hold@);
        self.active.insert(i, (origin, e));
        proof {
            assert(self.active@ =~= before.update(i as int, (origin, e)));
            lemma_view_update(before, i as int, origin, e);
            assert(keys_unique(self.active@)) by {
                assert forall|a: int, b: int|
                    0 <= a < self.active@.len() && 0 <= b < self.active@.len() && a != b
                    implies self.active@[a].0 != self.active@[b].0 by {
                    assert(self.active@[a].0 == before[a].0);
                    assert(self.active@[b].0 == before[b].0);
                }
            }
        }
        let v = vec![OutputEvent::PressMany(hold)];
        assert(directives(v@) =~= seq![Directive::PressMany(e@.hold)]);
        Some(v)
    }
}

/// Empty sequences are legal and send nothing: a held term key whose
/// chosen sequence is empty settles with nothing, a tap-only key with an
/// empty tap sends nothing either way, and a key with an empty hold asks
/// for no timer.
pub proof fn lemma_terms_empty_sequences(
    st: TermsView,
    cfg: KeyboardView,
    keys_down: Set<KeyCode>,
    global_term: u16,
    now: u64,
    e: TermEntry,
    ev: KeyEvent,
)
    ensures
        e.hold_emitted && e.hold.len() == 0 ==> settle_term(e) == Verdict::Consume,
        !e.hold_emitted && e.tap.len() == 0 ==> settle_term(e) == Verdict::Consume,
        ({
            let r = remap_of(cfg, ev.key).unwrap();
            is_term_key(cfg, ev.key) && r.hold is None && r.tap.unwrap().len() == 0
                ==> terms_step(st, cfg, keys_down, global_term, now, ev) == (
                st,
                keys_down,
                Verdict::Consume,
            )
        }),
        ({
            let r = remap_of(cfg, ev.key).unwrap();
            is_term_key(cfg, ev.key) && r.hold is Some && r.hold.unwrap().len() == 0
                ==> terms_step(st, cfg, keys_down, global_term, now, ev).0.requests == st.requests
        }),
{
}

/// A key with a tap and no hold goes out at once and leaves no state: its
/// press presses its tap, its release releases it, and no timer runs.
pub proof fn lemma_tap_only_passes_at_once(
    st: TermsView,
    cfg: KeyboardView,
    keys_down: Set<KeyCode>,
    global_term: u16,
    now: u64,
    ev: KeyEvent,
)
    requires
        is_term_key(cfg, ev.key),
        remap_of(cfg, ev.key).unwrap().hold is None,
        remap_of(cfg, ev.key).unwrap().tap.unwrap().len() > 0,
    ensures
        ({
            let tap = remap_of(cfg, ev.key).unwrap().tap.unwrap();
            let (st2, kd2, v) = terms_step(st, cfg, keys_down, global_term, now, ev);
            &&& st2 == st
            &&& kd2 == keys_down
            &&& ev.state == PRESS ==> v == Verdict::Emit(seq![Directive::PressMany(tap)])
            &&& ev.state != PRESS ==> v == Verdict::Emit(seq![Directive::ReleaseMany(tap)])
        }),
{
}

/// A key with a hold and a term of zero never taps: once the timer that
/// its press asked for has been handled, at any time not before the press,
/// the hold is down, and the release of the key releases the hold.
pub proof fn lemma_zero_term_never_taps(
    st: TermsView,
    cfg: KeyboardView,
    keys_down: Set<KeyCode>,
    global_term: u16,
    t_press: u64,
    t_timer: u64,
    t_release: u64,
    k: KeyCode,
)
    requires
        keys_unique(st.active),
        is_term_key(cfg, k),
        remap_of(cfg, k).unwrap().hold is Some,
        remap_of(cfg, k).unwrap().hold.unwrap().len() > 0,
        term_of(remap_of(cfg, k).unwrap(), global_term) == 0,
        t_press <= t_timer,
    ensures
        ({
            let hold = remap_of(cfg, k).unwrap().hold.unwrap();
            let (st1, kd1, v1) = terms_step(
                st,
                cfg,
                keys_down,
                global_term,
                t_press,
                KeyEvent { key: k, state: PRESS },
            );
            let (st2, out) = timer_step(st1, kd1, t_timer, k);
            let (st3, kd3, v3) = terms_step(
                st2,
                cfg,
                kd1,
                global_term,
                t_release,
                KeyEvent { key: k, state: crate::keys::RELEASE },
            );
            &&& v1 == Verdict::Consume
            &&& out == Some(seq![Directive::PressMany(hold)])
            &&& v3 == Verdict::Emit(seq![Directive::ReleaseMany(hold)])
            &&& !kd3.contains(k)
        }),
{
    let r = remap_of(cfg, k).unwrap();
    let hold = r.hold.unwrap();
    let e = TermEntry {
        tap: seq_or_empty(r.tap),
        hold,
        term: 0,
        press_time: t_press,
        hold_emitted: false,
    };
    let (st1, kd1, v1) = terms_step(
        st,
        cfg,
        keys_down,
        global_term,
        t_press,
        KeyEvent { key: k, state: PRESS },
    );
    lemma_put_unique(st.active, k, e);
    assert(st1.active == put(st.active, k, e));
    crate::table::lemma_unique_index(st1.active, k);
    let i = key_index(st1.active, k).unwrap();
    assert(st1.active[i].1 == e);
    let (st2, out) = timer_step(st1, kd1, t_timer, k);
    let e2 = TermEntry {
        tap: e.tap,
        hold: e.hold,
        term: e.term,
        press_time: e.press_time,
        hold_emitted: true,
    };
    assert(st2.active == st1.active.update(i, (k, e2)));
    assert(st1.active[i].0 == k);
    assert(keys_unique(st2.active)) by {
        assert forall|a: int, b: int| 0 <= a < st2.active.len() && 0 <= b < st2.active.len() && a != b
            implies st2.active[a].0 != st2.active[b].0 by {
            assert(st2.active[a].0 == st1.active[a].0);
            assert(st2.active[b].0 == st1.active[b].0);
        }
    }
    assert(st2.active[i].0 == k);
    crate::table::lemma_unique_index(st2.active, k);
    assert(key_index(st2.active, k) == Some(i));
}

/// A timer is harmless once its key has no entry, or once the entry's hold
/// went out: it changes nothing and sends nothing.
pub proof fn lemma_stale_timer_is_silent(st: TermsView, keys_down: Set<KeyCode>, now: u64, k: KeyCode)
    requires
        key_index(st.active, k) is None || st.active[key_index(st.active, k).unwrap()].1.hold_emitted,
    ensures
        timer_step(st, keys_down, now, k) == (st, Option::<Seq<Directive>>::None),
{
}

} // verus!
