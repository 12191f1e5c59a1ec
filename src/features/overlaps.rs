//! Overlaps: tap or hold, decided by whether another key goes down while
//! the key is held.
use vstd::prelude::*;
use crate::config::{copy_or_empty, remap_of, seq_or_empty, KeyboardView};
use crate::features::{directives, Context, Directive, Feature, FeatureResult, KeyEvent, OutputEvent, Verdict};
use crate::keys::{KeyCode, KeySet, PRESS};
use crate::table::{find_key, key_index, keys_unique, lemma_put_unique, lemma_remove_unique, lemma_view_keys, lemma_view_put, lemma_view_remove, lemma_view_update, put, put_entry, view_entries};

verus! {

/// An overlap key that is held: its sequences, and whether another key
/// has gone down since, which makes it a hold.
pub struct ActiveOverlap {
    tap: Vec<KeyCode>,
    hold: Vec<KeyCode>,
    triggered: bool,
}

pub struct OverlapEntry {
    pub tap: Seq<KeyCode>,
    pub hold: Seq<KeyCode>,
    pub triggered: bool,
}

impl View for ActiveOverlap {
    type V = OverlapEntry;

    closed spec fn view(&self) -> OverlapEntry {
        OverlapEntry { tap: self.tap@, hold: self.hold@, triggered: self.triggered }
    }
}

pub struct OverlapsFeature {
    /// Overlap keys that are held, in the order they went down.
    active: Vec<(KeyCode, ActiveOverlap)>,
    /// Keys whose press went out already, so that their raw press is
    /// dropped and their raw release goes out.
    swallowed: KeySet,
}

pub struct OverlapsView {
    pub active: Seq<(KeyCode, OverlapEntry)>,
    pub swallowed: Set<KeyCode>,
}

impl View for OverlapsFeature {
    type V = OverlapsView;

    closed spec fn view(&self) -> OverlapsView {
        OverlapsView { active: view_entries(self.active@), swallowed: self.swallowed@ }
    }
}

/// `i` is the first held overlap key that no other key has triggered.
pub open spec fn is_first_untriggered(m: Seq<(KeyCode, OverlapEntry)>, i: int) -> bool {
    &&& 0 <= i < m.len()
    &&& !m[i].1.triggered
    &&& forall|j: int| 0 <= j < i ==> m[j].1.triggered
}

/// The first held overlap key that no other key has triggered, if any.
pub open spec fn first_untriggered(m: Seq<(KeyCode, OverlapEntry)>) -> Option<int> {
    if exists|i: int| is_first_untriggered(m, i) {
        Some(choose|i: int| is_first_untriggered(m, i))
    } else {
        None
    }
}

/// What the release of a held overlap key sends: its hold's release where
/// it was triggered, else its tap pressed and released; nothing for an
/// empty sequence.
pub open spec fn settle(e: OverlapEntry) -> Verdict {
    if e.triggered {
        if e.hold.len() == 0 {
            Verdict::Consume
        } else {
            Verdict::Emit(seq![Directive::ReleaseMany(e.hold)])
        }
    } else {
        if e.tap.len() == 0 {
            Verdict::Consume
        } else {
            Verdict::Emit(seq![Directive::PressMany(e.tap), Directive::ReleaseMany(e.tap)])
        }
    }
}

/// The hold of a triggered key, if it has one, then the press of the key
/// that triggered it.
pub open spec fn hold_then_press(hold: Seq<KeyCode>, k: KeyCode) -> Seq<Directive> {
    if hold.len() == 0 {
        seq![Directive::Press(k)]
    } else {
        seq![Directive::PressMany(hold), Directive::Press(k)]
    }
}

/// Whether `k` is configured for overlap.
pub open spec fn is_overlap_key(cfg: KeyboardView, k: KeyCode) -> bool {
    remap_of(cfg, k) is Some && remap_of(cfg, k).unwrap().is_overlap()
}

/// The overlap feature on one event.
pub open spec fn overlaps_step(st: OverlapsView, cfg: KeyboardView, ev: KeyEvent) -> (
    OverlapsView,
    Verdict,
) {
    let k = ev.key;
    if st.swallowed.contains(k) {
        if ev.state == PRESS {
            (st, Verdict::Consume)
        } else {
            (
                OverlapsView { active: st.active, swallowed: st.swallowed.remove(k) },
                Verdict::Emit(seq![Directive::Release(k)]),
            )
        }
    } else if is_overlap_key(cfg, k) {
        let r = remap_of(cfg, k).unwrap();
        if ev.state == PRESS {
            let e = OverlapEntry {
                tap: seq_or_empty(r.tap),
                hold: seq_or_empty(r.hold),
                triggered: false,
            };
            (OverlapsView { active: put(st.active, k, e), swallowed: st.swallowed }, Verdict::Consume)
        } else {
            match key_index(st.active, k) {
                Some(i) => (
                    OverlapsView { active: st.active.remove(i), swallowed: st.swallowed },
                    settle(st.active[i].1),
                ),
                None => (st, Verdict::Continue(ev)),
            }
        }
    } else if ev.state == PRESS && first_untriggered(st.active) is Some {
        let i = first_untriggered(st.active).unwrap();
        let e = st.active[i].1;
        (
            OverlapsView {
                active: st.active.update(
                    i,
                    (st.active[i].0, OverlapEntry { tap: e.tap, hold: e.hold, triggered: true }),
                ),
                swallowed: st.swallowed.insert(k),
            },
            Verdict::Emit(hold_then_press(e.hold, k)),
        )
    } else {
        (st, Verdict::Continue(ev))
    }
}

impl OverlapsFeature {
    /// Held overlap keys are listed once each.
    pub closed spec fn wf(&self) -> bool {
        &&& keys_unique(self.active@)
        &&& self.swallowed.wf()
    }

    /// A feature with no key held.
    pub fn new() -> (r: Self)
        ensures
            r.wf(),
            r@.active.len() == 0,
            r@.swallowed == Set::<KeyCode>::empty(),
    {
        let r = OverlapsFeature { active: Vec::new(), swallowed: KeySet::new() };
        assert(view_entries(r.active@) =~= Seq::<(KeyCode, OverlapEntry)>::empty());
        r
    }

    fn first_untriggered_index(&self) -> (r: Option<usize>)
        ensures
            match r {
                Some(i) => first_untriggered(self@.active) == Some(i as int) && i < self.active@.len(),
                None => first_untriggered(self@.active) is None,
            },
    {
        let ghost m = self@.active;
        let mut i: usize = 0;
        while i < self.active.len()
            invariant
                i <= self.active@.len(),
                m == self@.active,
                m.len() == self.active@.len(),
                forall|j: int| 0 <= j < i ==> (#[trigger] m[j]).1.triggered,
            decreases self.active@.len() - i,
        {
            if !self.active[i].1.triggered {
                proof {
                    assert(m[i as int].1 == self.active@[i as int].1@);
                    assert(is_first_untriggered(m, i as int));
                    let c = choose|c: int| is_first_untriggered(m, c);
                    if c < i {
                    } else if i < c {
                    }
                }
                return Some(i);
            }
            proof {
                assert(m[i as int].1 == self.active@[i as int].1@);
            }
            i = i + 1;
        }
        None
    }
}

impl Feature for OverlapsFeature {
    open spec fn inv(&self) -> bool {
        self.wf()
    }

    fn name(&self) -> &'static str {
        "overlaps"
    }

    fn on_event(&mut self, event: KeyEvent, ctx: &mut Context) -> (r: FeatureResult)
        ensures
            ({
                let (st, v) = overlaps_step(old(self)@, old(ctx).device_config@, event);
                &&& final(self)@ == st
                &&& r@ == v
            }),
            *final(ctx) == *old(ctx),
    {
        let k = event.key;
        let ghost cfg = ctx.device_config@;
        if self.swallowed.contains(k) {
            if event.state == PRESS {
                return FeatureResult::Consume;
            }
            self.swallowed.remove(k);
            let v = vec![OutputEvent::Release(k)];
            assert(directives(v@) =~= seq![Directive::Release(k)]);
            return FeatureResult::Emit(v);
        }
        match ctx.device_config.remap_index(k) {
            Some(mi) => {
                let remap = &ctx.device_config.mappings[mi].1;
                let is_overlap = match remap.overlap {
                    Some(b) => b,
                    None => false,
                };
                if is_overlap {
                    if event.state == PRESS {
                        let e = ActiveOverlap {
                            tap: copy_or_empty(&remap.tap),
                            hold: copy_or_empty(&remap.hold),
                            triggered: false,
                        };
                        proof {
                            lemma_view_put(self.active@, k, e);
                            lemma_put_unique(self.active@, k, e);
                        }
                        put_entry(&mut self.active, k, e);
                        return FeatureResult::Consume;
                    } else {
                        proof {
                            lemma_view_keys(self.active@, k);
                        }
                        match find_key(&self.active, k) {
                            Some(i) => {
                                proof {
                                    lemma_view_remove(self.active@, i as int);
                                    lemma_remove_unique(self.active@, i as int);
                                }
                                let (_, e) = self.active.remove(i);
                                return self.settle(e);
                            },
                            None => {
                                return FeatureResult::Continue(event);
                            },
                        }
                    }
                }
            },
            None => {},
        }
        if event.state == PRESS {
            match self.first_untriggered_index() {
                Some(i) => {
                    let ghost before = self.active@;
                    let (origin, mut e) = self.active.remove(i);
                    e.triggered = true;
                    let hold = e.hold.clone();
                    assert(hold@ =~= e.hold@);
                    self.active.insert(i, (origin, e));
                    proof {
                        assert(self.active@ =~= before.update(i as int, (origin, e)));
                        lemma_view_update(before, i as int, origin, e);
                        assert(keys_unique(self.active@)) by {
                            assert forall|a: int, b: int|
                                0 <= a < self.active@.len() && 0 <= b < self.active@.len() && a != b
                                implies self.active@[a].0 != self.active@[b].0 by {
                                assert(self.active@[a].0 == before[a].0);
                                assert(self.active@[b].0 == before[b].0);
                            }
                        }
                    }
                    self.swallowed.insert(k);
                    let mut out: Vec<OutputEvent> = Vec::new();
                    if hold.len() > 0 {
                        out.push(OutputEvent::PressMany(hold));
                    }
                    out.push(OutputEvent::Press(k));
                    assert(directives(out@) =~= hold_then_press(e@.hold, k));
                    return FeatureResult::Emit(out);
                },
                None => {},
            }
        }
        FeatureResult::Continue(event)
    }

    fn on_timer(&mut self, key: KeyCode, ctx: &mut Context) -> (r: Option<Vec<OutputEvent>>)
        ensures
            r is None,
            final(self)@ == old(self)@,
            *final(ctx) == *old(ctx),
    {
        None
    }
}

impl OverlapsFeature {
    fn settle(&self, e: ActiveOverlap) -> (r: FeatureResult)
        ensures
            r@ == settle(e@),
    {
        if e.triggered {
            if e.hold.len() == 0 {
                FeatureResult::Consume
            } else {
                let ghost h = e.hold@;
                let v = vec![OutputEvent::ReleaseMany(e.hold)];
                assert(directives(v@) =~= seq![Directive::ReleaseMany(h)]);
                FeatureResult::Emit(v)
            }
        } else {
            if e.tap.len() == 0 {
                FeatureResult::Consume
            } else {
                let ghost t = e.tap@;
                let tap2 = e.tap.clone();
                assert(tap2@ =~= t);
                let v = vec![OutputEvent::PressMany(tap2), OutputEvent::ReleaseMany(e.tap)];
                assert(directives(v@) =~= seq![Directive::PressMany(t), Directive::ReleaseMany(t)]);
                FeatureResult::Emit(v)
            }
        }
    }
}

/// Empty sequences are legal and send nothing: a held overlap key whose
/// chosen sequence is empty settles with nothing, and a trigger with an
/// empty hold sends only the press of the key that triggered it.
pub proof fn lemma_overlaps_empty_sequences(e: OverlapEntry, k: KeyCode)
    ensures
        e.triggered && e.hold.len() == 0 ==> settle(e) == Verdict::Consume,
        !e.triggered && e.tap.len() == 0 ==> settle(e) == Verdict::Consume,
        e.hold.len() == 0 ==> hold_then_press(e.hold, k) == seq![Directive::Press(k)],
{
}

} // verus!
