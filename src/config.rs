//! The typed configuration that the features read.
use vstd::prelude::*;
use crate::keys::KeyCode;
use crate::layouts::Layout;
use crate::table::{find_key, keys_of, lookup};

verus! {

/// What a key does: a tap sequence, a hold sequence, whether the choice
/// between them goes by overlap, and a term that overrides the global one.
#[derive(Clone, Debug)]
pub struct RemapAction {
    pub tap: Option<Vec<KeyCode>>,
    pub hold: Option<Vec<KeyCode>>,
    pub overlap: Option<bool>,
    pub term: Option<u16>,
}

pub struct RemapView {
    pub tap: Option<Seq<KeyCode>>,
    pub hold: Option<Seq<KeyCode>>,
    pub overlap: Option<bool>,
    pub term: Option<u16>,
}

/// The view of an optional key list.
pub open spec fn opt_seq(v: Option<Vec<KeyCode>>) -> Option<Seq<KeyCode>> {
    match v {
        Some(s) => Some(s@),
        None => None,
    }
}

/// The sequence of an optional sequence, empty where there is none.
pub open spec fn seq_or_empty(s: Option<Seq<KeyCode>>) -> Seq<KeyCode> {
    match s {
        Some(s) => s,
        None => Seq::empty(),
    }
}

impl View for RemapAction {
    type V = RemapView;

    open spec fn view(&self) -> RemapView {
        RemapView {
            tap: opt_seq(self.tap),
            hold: opt_seq(self.hold),
            overlap: self.overlap,
            term: self.term,
        }
    }
}

impl RemapView {
    /// The choice between tap and hold goes by overlap.
    pub open spec fn is_overlap(self) -> bool {
        self.overlap == Some(true)
    }
}

/// A named layer: while one of its trigger keys is held, each source key
/// of that trigger's table stands for its target sequence.
#[derive(Clone, Debug)]
pub struct Layer {
    pub name: String,
    pub triggers: Vec<(KeyCode, Vec<(KeyCode, Vec<KeyCode>)>)>,
}

pub struct LayerView {
    pub name: Seq<char>,
    pub triggers: Seq<(KeyCode, Seq<(KeyCode, Seq<KeyCode>)>)>,
}

/// The view of a trigger's table of source keys and targets.
pub open spec fn remaps_view(t: Vec<(KeyCode, Vec<KeyCode>)>) -> Seq<(KeyCode, Seq<KeyCode>)> {
    t@.map_values(|e: (KeyCode, Vec<KeyCode>)| (e.0, e.1@))
}

impl View for Layer {
    type V = LayerView;

    open spec fn view(&self) -> LayerView {
        LayerView {
            name: self.name@,
            triggers: self.triggers@.map_values(
                |e: (KeyCode, Vec<(KeyCode, Vec<KeyCode>)>)| (e.0, remaps_view(e.1)),
            ),
        }
    }
}

/// The configuration of one keyboard.
#[derive(Clone, Debug)]
pub struct KeyboardConfig {
    pub layout: Layout,
    pub mappings: Vec<(KeyCode, RemapAction)>,
    pub layers: Vec<Layer>,
}

pub struct KeyboardView {
    pub layout: Layout,
    pub mappings: Seq<(KeyCode, RemapView)>,
    pub layers: Seq<LayerView>,
}

impl View for KeyboardConfig {
    type V = KeyboardView;

    open spec fn view(&self) -> KeyboardView {
        KeyboardView {
            layout: self.layout,
            mappings: self.mappings@.map_values(|e: (KeyCode, RemapAction)| (e.0, e.1@)),
            layers: self.layers@.map_values(|l: Layer| l@),
        }
    }
}

/// Which features run.
#[derive(Clone, Copy, Debug, PartialEq, Eq, Structural)]
pub struct Features {
    pub layers: bool,
    pub overlaps: bool,
    pub terms: bool,
}

/// Settings shared by every keyboard.
#[derive(Clone, Copy, Debug, PartialEq, Eq, Structural)]
pub struct Globals {
    /// Run without writing to the synthetic device.
    pub no_emit: bool,
    /// Default term, in milliseconds.
    pub term: u16,
}

/// The whole configuration: globals, feature switches, and the keyboards
/// by the name their devices report.
pub struct Config {
    pub globals: Globals,
    pub features: Features,
    pub keyboards: Vec<(String, KeyboardConfig)>,
}

/// The remap of key `k`, if the keyboard has one.
pub open spec fn remap_of(cfg: KeyboardView, k: KeyCode) -> Option<RemapView> {
    lookup(cfg.mappings, k)
}

/// Whether `k` is a trigger key of layer `l`.
pub open spec fn is_trigger_of(l: LayerView, k: KeyCode) -> bool {
    keys_of(l.triggers).contains(k)
}

/// `i` is the first layer that `k` triggers.
pub open spec fn is_first_trigger_layer(layers: Seq<LayerView>, k: KeyCode, i: int) -> bool {
    &&& 0 <= i < layers.len()
    &&& is_trigger_of(layers[i], k)
    &&& forall|j: int| 0 <= j < i ==> !is_trigger_of(layers[j], k)
}

/// The first layer, in configuration order, that `k` triggers.
pub open spec fn trigger_layer(cfg: KeyboardView, k: KeyCode) -> Option<int> {
    if exists|i: int| is_first_trigger_layer(cfg.layers, k, i) {
        Some(choose|i: int| is_first_trigger_layer(cfg.layers, k, i))
    } else {
        None
    }
}

/// The target of `k` in layer `l`: the first trigger table of `l` that
/// maps `k` decides.
pub open spec fn layer_target(l: LayerView, k: KeyCode) -> Option<Seq<KeyCode>> {
    if exists|t: int| is_first_table(l, k, t) {
        let t = choose|t: int| is_first_table(l, k, t);
        lookup(l.triggers[t].1, k)
    } else {
        None
    }
}

/// `t` is the first trigger table of `l` that maps `k`.
pub open spec fn is_first_table(l: LayerView, k: KeyCode, t: int) -> bool {
    &&& 0 <= t < l.triggers.len()
    &&& lookup(l.triggers[t].1, k) is Some
    &&& forall|j: int| 0 <= j < t ==> lookup(l.triggers[j].1, k) is None
}

/// `i` is the first active layer, in configuration order, that maps `k`.
pub open spec fn is_first_mapping_layer(
    layers: Seq<LayerView>,
    active: Seq<bool>,
    k: KeyCode,
    i: int,
) -> bool {
    &&& 0 <= i < layers.len()
    &&& i < active.len() && active[i]
    &&& layer_target(layers[i], k) is Some
    &&& forall|j: int| 0 <= j < i ==> !(j < active.len() && active[j] && layer_target(layers[j], k) is Some)
}

/// What `k` stands for under the active layers: the first active layer in
/// configuration order that maps `k` decides.
pub open spec fn layered_target(cfg: KeyboardView, active: Seq<bool>, k: KeyCode) -> Option<Seq<KeyCode>> {
    if exists|i: int| is_first_mapping_layer(cfg.layers, active, k, i) {
        let i = choose|i: int| is_first_mapping_layer(cfg.layers, active, k, i);
        layer_target(cfg.layers[i], k)
    } else {
        None
    }
}

fn copy_opt(v: &Option<Vec<KeyCode>>) -> (r: Option<Vec<KeyCode>>)
    ensures
        opt_seq(r) == opt_seq(*v),
{
    match v {
        Some(keys) => {
            let r = keys.clone();
            assert(r@ =~= keys@);
            Some(r)
        },
        None => None,
    }
}

impl RemapAction {
    /// A copy of this action.
    pub fn copy(&self) -> (r: RemapAction)
        ensures
            r@ == self@,
    {
        RemapAction {
            tap: copy_opt(&self.tap),
            hold: copy_opt(&self.hold),
            overlap: self.overlap,
            term: self.term,
        }
    }
}

/// A copy of an optional sequence, empty where there is none.
pub fn copy_or_empty(v: &Option<Vec<KeyCode>>) -> (r: Vec<KeyCode>)
    ensures
        r@ == seq_or_empty(opt_seq(*v)),
{
    match v {
        Some(keys) => {
            let r = keys.clone();
            assert(r@ =~= keys@);
            r
        },
        None => Vec::new(),
    }
}

impl KeyboardConfig {
    /// The target of `k` in layer `i`.
    fn layer_target_of(&self, i: usize, k: KeyCode) -> (r: Option<Vec<KeyCode>>)
        requires
            i < self.layers@.len(),
        ensures
            opt_seq(r) == layer_target(self@.layers[i as int], k),
    {
        let layer = &self.layers[i];
        let ghost lv = self@.layers[i as int];
        assert(lv == layer@);
        let mut t: usize = 0;
        while t < layer.triggers.len()
            invariant
                t <= layer.triggers@.len(),
                i < self.layers@.len(),
                lv == self@.layers[i as int],
                lv == layer@,
                lv.triggers.len() == layer.triggers@.len(),
                forall|j: int| 0 <= j < t ==> lookup(#[trigger] lv.triggers[j].1, k) is None,
            decreases layer.triggers@.len() - t,
        {
            let table = &layer.triggers[t].1;
            let found = find_key(table, k);
            let ghost tv = lv.triggers[t as int].1;
            proof {
                assert(tv == remaps_view(*table));
                assert(tv.len() == table@.len());
                assert forall|j: int| 0 <= j < tv.len() implies table@[j].0 == tv[j].0 by {}
                crate::table::lemma_same_keys(table@, tv, k);
            }
            match found {
                Some(j) => {
                    let r = table[j].1.clone();
                    proof {
                        assert(r@ =~= table@[j as int].1@);
                        assert(tv[j as int].1 == table@[j as int].1@);
                        assert(lookup(tv, k) == Some(r@));
                        assert(is_first_table(lv, k, t as int));
                        let c = choose|c: int| is_first_table(lv, k, c);
                        if c < t {
                        } else if t < c {
                            assert(lookup(lv.triggers[t as int].1, k) is None);
                        }
                        assert(c == t);
                    }
                    return Some(r);
                },
                None => {},
            }
            t = t + 1;
        }
        None
    }

    /// What `k` stands for under the layers that `active` marks.
    pub fn layered_keys(&self, active: &Vec<bool>, k: KeyCode) -> (r: Option<Vec<KeyCode>>)
        ensures
            opt_seq(r) == layered_target(self@, active@, k),
    {
        let mut i: usize = 0;
        while i < self.layers.len()
            invariant
                i <= self.layers@.len(),
                self@.layers.len() == self.layers@.len(),
                forall|j: int| 0 <= j < i ==> !(j < active@.len() && active@[j] && layer_target(
                    #[trigger] self@.layers[j],
                    k,
                ) is Some),
            decreases self.layers@.len() - i,
        {
            if i < active.len() && active[i] {
                let found = self.layer_target_of(i, k);
                if found.is_some() {
                    proof {
                        assert(is_first_mapping_layer(self@.layers, active@, k, i as int));
                        let c = choose|c: int| is_first_mapping_layer(self@.layers, active@, k, c);
                        if c < i {
                        } else if i < c {
                        }
                    }
                    return found;
                }
            }
            i = i + 1;
        }
        None
    }

    /// The position of the remap of `k` in `mappings`.
    pub fn remap_index(&self, k: KeyCode) -> (r: Option<usize>)
        ensures
            match r {
                Some(i) => i < self.mappings@.len() && self.mappings@[i as int].0 == k
                    && remap_of(self@, k) == Some(self.mappings@[i as int].1@),
                None => remap_of(self@, k) is None,
            },
    {
        let r = find_key(&self.mappings, k);
        proof {
            let m = self.mappings@;
            let mv = self@.mappings;
            assert(mv.len() == m.len());
            assert forall|j: int| 0 <= j < m.len() implies mv[j].0 == m[j].0 by {}
            match r {
                Some(i) => {
                    let i = i as int;
                    assert(crate::table::is_first_index(m, k, i));
                    assert(crate::table::is_first_index(mv, k, i));
                    crate::table::lemma_first_index_unique(mv, k, i);
                },
                None => {
                    assert forall|j: int| 0 <= j < mv.len() implies mv[j].0 != k by {
                        if m[j].0 == k {
                            assert(keys_of(m).contains(k));
                        }
                    }
                    crate::table::lemma_no_index(mv, k);
                },
            }
        }
        r
    }

    /// The first layer that `k` triggers.
    pub fn trigger_layer_index(&self, k: KeyCode) -> (r: Option<usize>)
        ensures
            match r {
                Some(i) => i < self.layers@.len() && trigger_layer(self@, k) == Some(i as int),
                None => trigger_layer(self@, k) is None,
            },
    {
        let mut i: usize = 0;
        while i < self.layers.len()
            invariant
                i <= self.layers@.len(),
                forall|j: int| 0 <= j < i ==> !is_trigger_of(#[trigger] self@.layers[j], k),
            decreases self.layers@.len() - i,
        {
            let found = find_key(&self.layers[i].triggers, k);
            proof {
                let t = self.layers@[i as int].triggers@;
                let tv = self@.layers[i as int].triggers;
                assert(tv.len() == t.len());
                assert forall|j: int| 0 <= j < t.len() implies tv[j].0 == t[j].0 by {}
                crate::table::lemma_same_keys(t, tv, k);
                if found is Some {
                    let j = found.unwrap() as int;
                    assert(keys_of(t).contains(k)) by {
                        assert(t[j].0 == k);
                    }
                }
            }
            if found.is_some() {
                proof {
                    let c = choose|c: int| is_first_trigger_layer(self@.layers, k, c);
                    assert(is_first_trigger_layer(self@.layers, k, i as int));
                    if c < i {
                        assert(!is_trigger_of(self@.layers[c], k));
                    } else if i < c {
                        assert(!is_trigger_of(self@.layers[i as int], k));
                    }
                }
                return Some(i);
            }
            i = i + 1;
        }
        None
    }
}

impl Config {
    /// The position of the configuration for the device that reports
    /// `name`: the first keyboard with that name. A device that has none is
    /// not monitored.
    pub fn keyboard_index(&self, name: &String) -> (r: Option<usize>)
        ensures
            match r {
                Some(i) => i < self.keyboards@.len() && self.keyboards@[i as int].0@ == name@
                    && forall|j: int| 0 <= j < i ==> (#[trigger] self.keyboards@[j]).0@ != name@,
                None => forall|j: int|
                    0 <= j < self.keyboards@.len() ==> (#[trigger] self.keyboards@[j]).0@ != name@,
            },
    {
        let mut i: usize = 0;
        while i < self.keyboards.len()
            invariant
                i <= self.keyboards@.len(),
                forall|j: int| 0 <= j < i ==> (#[trigger] self.keyboards@[j]).0@ != name@,
            decreases self.keyboards@.len() - i,
        {
            if self.keyboards[i].0 == *name {
                return Some(i);
            }
            i = i + 1;
        }
        None
    }
}

/// The feature switches when the configuration names none: every feature
/// runs.
pub fn default_features() -> (r: Features)
    ensures
        r.layers && r.overlaps && r.terms,
{
    Features { layers: true, overlaps: true, terms: true }
}

/// Whether the synthetic device is left alone when the configuration does
/// not say.
pub fn default_no_emit() -> (r: bool)
    ensures
        r == false,
{
    false
}

/// The global term, in milliseconds, when the configuration does not say.
pub fn default_hrm_term() -> (r: u16)
    ensures
        r == 144,
{
    144
}

/// The globals when the configuration names none.
pub fn default_globals() -> (r: Globals)
    ensures
        r.no_emit == false,
        r.term == 144,
{
    Globals { no_emit: default_no_emit(), term: default_hrm_term() }
}

/// An error in the configuration.
#[derive(Clone, Debug, PartialEq, Eq)]
pub enum ConfigError {
    /// A key name that names no key.
    UnknownKey(String),
}

/// The code of the key whose kernel name is `name` (such as `KEY_A`), if
/// there is one.
pub uninterp spec fn key_code_named(name: Seq<char>) -> Option<KeyCode>;

/// Relies on `evdev::KeyCode::from_str`: the code of the key whose name is
/// exactly `name`, or nothing where no key has that name.
#[verifier::external_body]
fn key_code_from_name(name: &str) -> (r: Option<KeyCode>)
    ensures
        r == key_code_named(name@),
{
    <evdev::KeyCode as std::str::FromStr>::from_str(name).ok().map(|k| k.code())
}

/// The codes of the keys named in `names`, in order; where a name is
/// unknown, the first unknown name.
pub fn parse_keys(names: &Vec<String>) -> (r: Result<Vec<KeyCode>, ConfigError>)
    ensures
        match r {
            Ok(codes) => codes@.len() == names@.len() && forall|i: int|
                0 <= i < names@.len() ==> key_code_named(#[trigger] names@[i]@) == Some(codes@[i]),
            Err(ConfigError::UnknownKey(n)) => exists|i: int|
                0 <= i < names@.len() && n@ == names@[i]@ && key_code_named(n@) is None
                    && forall|j: int| 0 <= j < i ==> key_code_named(#[trigger] names@[j]@) is Some,
        },
{
    let mut codes: Vec<KeyCode> = Vec::new();
    let mut i: usize = 0;
    while i < names.len()
        invariant
            i <= names@.len(),
            codes@.len() == i,
            forall|j: int| 0 <= j < i ==> key_code_named(#[trigger] names@[j]@) == Some(codes@[j]),
        decreases names@.len() - i,
    {
        match key_code_from_name(names[i].as_str()) {
            Some(c) => {
                codes.push(c);
            },
            None => {
                let n = names[i].clone();
                proof {
                    assert(n@ == names@[i as int]@);
                    assert forall|j: int| 0 <= j < i implies key_code_named(#[trigger] names@[j]@) is Some by {}
                }
                return Err(ConfigError::UnknownKey(n));
            },
        }
        i = i + 1;
    }
    Ok(codes)
}

/// The code of the key named `name`.
pub fn parse_key(name: &String) -> (r: Result<KeyCode, ConfigError>)
    ensures
        match r {
            Ok(c) => key_code_named(name@) == Some(c),
            Err(ConfigError::UnknownKey(n)) => n@ == name@ && key_code_named(name@) is None,
        },
{
    match key_code_from_name(name.as_str()) {
        Some(c) => Ok(c),
        None => Err(ConfigError::UnknownKey(name.clone())),
    }
}

} // verus!
