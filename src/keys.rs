//! Key codes, key states and a small set of key codes.
use vstd::prelude::*;

verus! {

/// A key as the kernel numbers it.
pub type KeyCode = u16;

/// Value of a key event that releases the key.
pub const RELEASE: i32 = 0;

/// Value of a key event that presses the key.
pub const PRESS: i32 = 1;

/// Value of a key event that the kernel sends while a key repeats.
pub const REPEAT: i32 = 2;

/// Event type of key events.
pub const EV_KEY: u16 = 1;

pub const KEY_ESC: KeyCode = 1;
pub const KEY_1: KeyCode = 2;
pub const KEY_9: KeyCode = 10;
pub const KEY_0: KeyCode = 11;
pub const KEY_MINUS: KeyCode = 12;
pub const KEY_EQUAL: KeyCode = 13;
pub const KEY_BACKSPACE: KeyCode = 14;
pub const KEY_Q: KeyCode = 16;
pub const KEY_W: KeyCode = 17;
pub const KEY_E: KeyCode = 18;
pub const KEY_R: KeyCode = 19;
pub const KEY_T: KeyCode = 20;
pub const KEY_Y: KeyCode = 21;
pub const KEY_U: KeyCode = 22;
pub const KEY_I: KeyCode = 23;
pub const KEY_O: KeyCode = 24;
pub const KEY_P: KeyCode = 25;
pub const KEY_LEFTBRACE: KeyCode = 26;
pub const KEY_RIGHTBRACE: KeyCode = 27;
pub const KEY_LEFTCTRL: KeyCode = 29;
pub const KEY_A: KeyCode = 30;
pub const KEY_S: KeyCode = 31;
pub const KEY_D: KeyCode = 32;
pub const KEY_F: KeyCode = 33;
pub const KEY_G: KeyCode = 34;
pub const KEY_H: KeyCode = 35;
pub const KEY_J: KeyCode = 36;
pub const KEY_K: KeyCode = 37;
pub const KEY_L: KeyCode = 38;
pub const KEY_SEMICOLON: KeyCode = 39;
pub const KEY_APOSTROPHE: KeyCode = 40;
pub const KEY_GRAVE: KeyCode = 41;
pub const KEY_LEFTSHIFT: KeyCode = 42;
pub const KEY_BACKSLASH: KeyCode = 43;
pub const KEY_Z: KeyCode = 44;
pub const KEY_X: KeyCode = 45;
pub const KEY_C: KeyCode = 46;
pub const KEY_V: KeyCode = 47;
pub const KEY_B: KeyCode = 48;
pub const KEY_N: KeyCode = 49;
pub const KEY_M: KeyCode = 50;
pub const KEY_COMMA: KeyCode = 51;
pub const KEY_DOT: KeyCode = 52;
pub const KEY_SLASH: KeyCode = 53;
pub const KEY_RIGHTSHIFT: KeyCode = 54;
pub const KEY_LEFTALT: KeyCode = 56;
pub const KEY_SPACE: KeyCode = 57;
pub const KEY_CAPSLOCK: KeyCode = 58;
pub const KEY_RIGHTCTRL: KeyCode = 97;
pub const KEY_RIGHTALT: KeyCode = 100;
pub const KEY_UP: KeyCode = 103;
pub const KEY_LEFT: KeyCode = 105;
pub const KEY_RIGHT: KeyCode = 106;
pub const KEY_DOWN: KeyCode = 108;
pub const KEY_LEFTMETA: KeyCode = 125;
pub const KEY_RIGHTMETA: KeyCode = 126;

/// Whether `state` is one of the two states that reach the pipeline.
pub open spec fn is_key_state(state: i32) -> bool {
    state == PRESS || state == RELEASE
}

/// A finite set of key codes, kept as a list without repeats.
pub struct KeySet {
    keys: Vec<KeyCode>,
}

impl View for KeySet {
    type V = Set<KeyCode>;

    closed spec fn view(&self) -> Set<KeyCode> {
        self.keys@.to_set()
    }
}

impl KeySet {
    /// The list holds each key at most once.
    pub closed spec fn wf(&self) -> bool {
        self.keys@.no_duplicates()
    }

    /// The keys in the order they were added.
    pub closed spec fn order(&self) -> Seq<KeyCode> {
        self.keys@
    }

    /// The order lists each key of the set once.
    pub proof fn lemma_order(&self)
        requires
            self.wf(),
        ensures
            self.order().no_duplicates(),
            self.order().to_set() == self@,
            self@.finite(),
    {
        vstd::seq_lib::seq_to_set_is_finite(self.keys@);
    }

    /// The empty set.
    pub fn new() -> (r: KeySet)
        ensures
            r.wf(),
            r@ == Set::<KeyCode>::empty(),
            r.order() == Seq::<KeyCode>::empty(),
    {
        let r = KeySet { keys: Vec::new() };
        assert(r.keys@.to_set() =~= Set::<KeyCode>::empty());
        r
    }

    fn index_of(&self, k: KeyCode) -> (r: Option<usize>)
        ensures
            match r {
                Some(i) => i < self.keys@.len() && self.keys@[i as int] == k,
                None => !self.keys@.contains(k),
            },
    {
        let mut i: usize = 0;
        while i < self.keys.len()
            invariant
                i <= self.keys@.len(),
                forall|j: int| 0 <= j < i ==> self.keys@[j] != k,
            decreases self.keys@.len() - i,
        {
            if self.keys[i] == k {
                return Some(i);
            }
            i = i + 1;
        }
        None
    }

    /// Whether `k` is in the set.
    pub fn contains(&self, k: KeyCode) -> (r: bool)
        ensures
            r == self@.contains(k),
    {
        match self.index_of(k) {
            Some(i) => {
                assert(self.keys@.to_set().contains(self.keys@[i as int]));
                true
            },
            None => false,
        }
    }

    /// Adds `k`; a new key goes last in the order.
    pub fn insert(&mut self, k: KeyCode)
        requires
            old(self).wf(),
        ensures
            final(self).wf(),
            final(self)@ == old(self)@.insert(k),
            old(self)@.contains(k) ==> final(self).order() == old(self).order(),
            !old(self)@.contains(k) ==> final(self).order() == old(self).order().push(k),
    {
        match self.index_of(k) {
            Some(i) => {
                assert(self.keys@.to_set().contains(self.keys@[i as int]));
                assert(self.keys@.to_set().insert(k) =~= self.keys@.to_set());
            },
            None => {
                let ghost before = self.keys@;
                self.keys.push(k);
                assert(self.keys@.to_set() =~= before.to_set().insert(k)) by {
                    assert forall|x: KeyCode| #[trigger] self.keys@.contains(x) <==> before.contains(x) || x == k by {
                        if before.contains(x) {
                            let j = choose|j: int| 0 <= j < before.len() && before[j] == x;
                            assert(self.keys@[j] == x);
                        }
                        if x == k {
                            assert(self.keys@[before.len() as int] == k);
                        }
                    }
                }
            },
        }
    }

    /// Removes `k`.
    pub fn remove(&mut self, k: KeyCode)
        requires
            old(self).wf(),
        ensures
            final(self).wf(),
            final(self)@ == old(self)@.remove(k),
    {
        match self.index_of(k) {
            Some(i) => {
                let ghost before = self.keys@;
                self.keys.remove(i);
                assert(self.keys@ =~= before.remove(i as int));
                assert(self.keys@.no_duplicates()) by {
                    assert forall|a: int, b: int| 0 <= a < self.keys@.len() && 0 <= b < self.keys@.len() && a != b
                        implies self.keys@[a] != self.keys@[b] by {
                        let a2 = if a < i { a } else { a + 1 };
                        let b2 = if b < i { b } else { b + 1 };
                        assert(self.keys@[a] == before[a2]);
                        assert(self.keys@[b] == before[b2]);
                    }
                }
                assert(self.keys@.to_set() =~= before.to_set().remove(k)) by {
                    assert forall|x: KeyCode| #[trigger] self.keys@.contains(x) <==> (before.contains(x) && x != k) by {
                        if self.keys@.contains(x) {
                            let j = choose|j: int| 0 <= j < self.keys@.len() && self.keys@[j] == x;
                            let j2 = if j < i { j } else { j + 1 };
                            assert(before[j2] == x);
                            assert(j2 != i);
                        }
                        if before.contains(x) && x != k {
                            let j = choose|j: int| 0 <= j < before.len() && before[j] == x;
                            assert(j != i);
                            if j < i {
                                assert(self.keys@[j] == x);
                            } else {
                                assert(self.keys@[j - 1] == x);
                            }
                        }
                    }
                }
            },
            None => {
                assert(self.keys@.to_set().remove(k) =~= self.keys@.to_set());
            },
        }
    }

    /// The keys, in the order they were added.
    pub fn to_vec(&self) -> (r: Vec<KeyCode>)
        ensures
            r@ == self.order(),
    {
        self.keys.clone()
    }
}

} // verus!
