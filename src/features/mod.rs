//! The event vocabulary, the per-device context and the features that
//! transform key events.
use vstd::prelude::*;
use crate::config::{Globals, KeyboardConfig};
use crate::keys::{KeyCode, KeySet, PRESS, RELEASE};

pub mod layers;
pub mod overlaps;
pub mod terms;

verus! {

/// A key event: the key and whether it went down (`PRESS`) or up
/// (`RELEASE`).
#[derive(Clone, Copy, Debug, PartialEq, Eq, Structural)]
pub struct KeyEvent {
    pub key: KeyCode,
    pub state: i32,
}

/// A directive for the synthetic device. The batched variants go out as
/// one transaction.
#[derive(Clone, Debug, PartialEq, Eq)]
pub enum OutputEvent {
    Press(KeyCode),
    Release(KeyCode),
    PressMany(Vec<KeyCode>),
    ReleaseMany(Vec<KeyCode>),
}

pub enum Directive {
    Press(KeyCode),
    Release(KeyCode),
    PressMany(Seq<KeyCode>),
    ReleaseMany(Seq<KeyCode>),
}

impl View for OutputEvent {
    type V = Directive;

    open spec fn view(&self) -> Directive {
        match self {
            OutputEvent::Press(k) => Directive::Press(*k),
            OutputEvent::Release(k) => Directive::Release(*k),
            OutputEvent::PressMany(ks) => Directive::PressMany(ks@),
            OutputEvent::ReleaseMany(ks) => Directive::ReleaseMany(ks@),
        }
    }
}

/// What a feature decides about an event.
pub enum FeatureResult {
    /// Hand the event on to the next feature.
    Continue(KeyEvent),
    /// Stop here and send these directives.
    Emit(Vec<OutputEvent>),
    /// Stop here and send nothing.
    Consume,
}

pub enum Verdict {
    Continue(KeyEvent),
    Emit(Seq<Directive>),
    Consume,
}

/// The views of a list of directives.
pub open spec fn directives(v: Seq<OutputEvent>) -> Seq<Directive> {
    v.map_values(|o: OutputEvent| o@)
}

impl View for FeatureResult {
    type V = Verdict;

    open spec fn view(&self) -> Verdict {
        match self {
            FeatureResult::Continue(e) => Verdict::Continue(*e),
            FeatureResult::Emit(v) => Verdict::Emit(directives(v@)),
            FeatureResult::Consume => Verdict::Consume,
        }
    }
}

/// One write of a key state to the synthetic device.
#[derive(Clone, Copy, Debug, PartialEq, Eq, Structural)]
pub struct KeyWrite {
    pub code: KeyCode,
    pub value: i32,
}

/// A press of each key, in order.
pub open spec fn press_all(ks: Seq<KeyCode>) -> Seq<KeyWrite> {
    ks.map_values(|k: KeyCode| KeyWrite { code: k, value: PRESS })
}

/// A release of each key, in order.
pub open spec fn release_all(ks: Seq<KeyCode>) -> Seq<KeyWrite> {
    ks.map_values(|k: KeyCode| KeyWrite { code: k, value: RELEASE })
}

/// The writes a directive stands for, in order.
pub open spec fn directive_writes(d: Directive) -> Seq<KeyWrite> {
    match d {
        Directive::Press(k) => seq![KeyWrite { code: k, value: PRESS }],
        Directive::Release(k) => seq![KeyWrite { code: k, value: RELEASE }],
        Directive::PressMany(ks) => press_all(ks),
        Directive::ReleaseMany(ks) => release_all(ks),
    }
}

/// The writes a list of directives stands for, in order.
pub open spec fn directives_writes(ds: Seq<Directive>) -> Seq<KeyWrite>
    decreases ds.len(),
{
    if ds.len() == 0 {
        Seq::empty()
    } else {
        directives_writes(ds.drop_last()) + directive_writes(ds.last())
    }
}

/// The writes a verdict stands for: the event itself where it went through
/// every feature, the directives where a feature emitted, and nothing where
/// a feature consumed the event.
pub open spec fn verdict_writes(v: Verdict) -> Seq<KeyWrite> {
    match v {
        Verdict::Continue(e) => seq![KeyWrite { code: e.key, value: e.state }],
        Verdict::Emit(ds) => directives_writes(ds),
        Verdict::Consume => Seq::empty(),
    }
}

/// The per-device state that every feature reads and some update.
pub struct Context {
    pub device_config: KeyboardConfig,
    /// Physical keys that a feature tracks as held, in logical codes.
    pub keys_down: KeySet,
    /// For each layer of `device_config`, whether it is active.
    pub active_layers: Vec<bool>,
    pub no_emit: bool,
    /// Default term, in milliseconds.
    pub global_term: u16,
    /// Time of the event being processed, in milliseconds since the worker
    /// started.
    pub now: u64,
}

impl Context {
    /// The held keys are a set and there is a flag for each layer.
    pub open spec fn wf(&self) -> bool {
        &&& self.keys_down.wf()
        &&& self.active_layers@.len() == self.device_config.layers@.len()
    }

    /// The fields no feature changes are those of `before`.
    pub open spec fn same_settings(&self, before: &Context) -> bool {
        &&& self.device_config == before.device_config
        &&& self.no_emit == before.no_emit
        &&& self.global_term == before.global_term
        &&& self.now == before.now
    }

    /// A context with no key held and no layer active.
    pub fn new(device_config: KeyboardConfig, globals: &Globals) -> (r: Context)
        ensures
            r.wf(),
            r.device_config == device_config,
            r.keys_down@ == Set::<KeyCode>::empty(),
            forall|i: int| 0 <= i < r.active_layers@.len() ==> !r.active_layers@[i],
            r.no_emit == globals.no_emit,
            r.global_term == globals.term,
            r.now == 0,
    {
        let mut active_layers: Vec<bool> = Vec::new();
        let n = device_config.layers.len();
        let mut i: usize = 0;
        while i < n
            invariant
                i <= n,
                active_layers@.len() == i,
                forall|j: int| 0 <= j < i ==> !active_layers@[j],
            decreases n - i,
        {
            active_layers.push(false);
            i = i + 1;
        }
        Context {
            device_config,
            keys_down: KeySet::new(),
            active_layers,
            no_emit: globals.no_emit,
            global_term: globals.term,
            now: 0,
        }
    }
}

/// A stage of the pipeline.
pub trait Feature {
    /// What the feature keeps between events is consistent.
    spec fn inv(&self) -> bool;

    fn name(&self) -> &'static str;

    /// Decides about one event.
    fn on_event(&mut self, event: KeyEvent, ctx: &mut Context) -> (r: FeatureResult)
        requires
            old(self).inv(),
            old(ctx).wf(),
            event.state == PRESS || event.state == RELEASE,
        ensures
            final(self).inv(),
            final(ctx).wf(),
            final(ctx).same_settings(old(ctx)),
    ;

    /// Reacts to the expiry of a timer that the feature asked for on `key`.
    fn on_timer(&mut self, key: KeyCode, ctx: &mut Context) -> (r: Option<Vec<OutputEvent>>)
        requires
            old(self).inv(),
            old(ctx).wf(),
        ensures
            final(self).inv(),
            final(ctx).wf(),
            final(ctx).same_settings(old(ctx)),
    ;
}

} // verus!
