//! The layer stack: which input made which layer current.

use vstd::prelude::*;
use crate::consts::{Fault, InIdx, LayerIdx, DEFAULT_LAYER, MAX_LAYER_STACK};

verus! {

/// Mathematical model of the layer stack: the current layer and the held
/// layers from the base up, each with the input that holds it.
pub struct LayerState {
    pub current: LayerIdx,
    pub held: Seq<(InIdx, LayerIdx)>,
}

impl LayerState {
    /// The state without held layers, on the default layer.
    pub open spec fn initial() -> LayerState {
        LayerState { current: DEFAULT_LAYER, held: Seq::empty() }
    }

    /// Whether another layer can be held.
    pub open spec fn has_room(self) -> bool {
        self.held.len() < MAX_LAYER_STACK
    }

    /// The state after `input` has made `layer` current.
    pub open spec fn activated(self, input: InIdx, layer: LayerIdx) -> LayerState {
        LayerState { current: layer, held: self.held.push((input, layer)) }
    }

    /// Whether `input` holds a layer.
    pub open spec fn holds(self, input: InIdx) -> bool {
        exists|i: int| 0 <= i < self.held.len() && (#[trigger] self.held[i]).0 == input
    }

    /// Position of the entry that `input` pushed last, among the first `n`
    /// entries; `-1` if it holds none of them.
    pub open spec fn latest_below(self, input: InIdx, n: int) -> int
        decreases n,
    {
        if n <= 0 || n > self.held.len() {
            -1
        } else if self.held[n - 1].0 == input {
            n - 1
        } else {
            self.latest_below(input, n - 1)
        }
    }

    /// Position of the entry that `input` pushed last; `-1` if it holds none.
    pub open spec fn latest(self, input: InIdx) -> int {
        self.latest_below(input, self.held.len() as int)
    }

    /// The state after `input` was released. The entry that it pushed last
    /// leaves and the entries above move down. The layer of the entry just
    /// below the one that left becomes current, the default layer if that
    /// entry was at the base. Without such an entry nothing changes.
    pub open spec fn released(self, input: InIdx) -> LayerState {
        let k = self.latest(input);
        if k < 0 {
            self
        } else {
            LayerState {
                current: if k == 0 {
                    DEFAULT_LAYER
                } else {
                    self.held[k - 1].1
                },
                held: self.held.remove(k),
            }
        }
    }
}

/// `latest_below` finds an entry of `input` exactly when there is one among
/// the first `n`, and then the topmost of them.
pub proof fn lemma_latest_below(s: LayerState, input: InIdx, n: int)
    requires
        0 <= n <= s.held.len(),
    ensures
        -1 <= s.latest_below(input, n) < n,
        s.latest_below(input, n) >= 0 ==> s.held[s.latest_below(input, n)].0 == input,
        forall|j: int| s.latest_below(input, n) < j < n ==> (#[trigger] s.held[j]).0 != input,
    decreases n,
{
    if n > 0 && s.held[n - 1].0 != input {
        lemma_latest_below(s, input, n - 1);
    }
}

/// An input holds a layer exactly when `latest` finds an entry of it.
pub proof fn lemma_latest_holds(s: LayerState, input: InIdx)
    ensures
        s.holds(input) <==> s.latest(input) >= 0,
        -1 <= s.latest(input) < s.held.len(),
{
    lemma_latest_below(s, input, s.held.len() as int);
}

/// Releasing the input that pushed last undoes its push: the stack is as it
/// was before, and the layer pushed just before is current again.
pub proof fn law_release_top(s: LayerState, a: InIdx, l1: LayerIdx, b: InIdx, l2: LayerIdx)
    ensures
        s.activated(a, l1).activated(b, l2).released(b) == s.activated(a, l1),
{
    let t = s.activated(a, l1).activated(b, l2);
    let n = t.held.len() as int;
    assert(t.held[n - 1] == (b, l2));
    assert(t.latest(b) == n - 1);
    assert(t.held[n - 2] == (a, l1));
    assert(t.held.remove(n - 1) =~= s.activated(a, l1).held);
}

/// Releasing the lower of two nested holds first takes its entry out from
/// under the other one, which stays held. The layer below the entry that
/// left becomes current, not the layer that is still held: the default layer
/// where the entry was at the base.
pub proof fn law_release_lower(s: LayerState, a: InIdx, l1: LayerIdx, b: InIdx, l2: LayerIdx)
    requires
        a != b,
    ensures
        s.activated(a, l1).activated(b, l2).released(a).held == s.held.push((b, l2)),
        s.activated(a, l1).activated(b, l2).released(a).current == if s.held.len() == 0 {
            DEFAULT_LAYER
        } else {
            s.held.last().1
        },
{
    let t = s.activated(a, l1).activated(b, l2);
    let n = t.held.len() as int;
    assert(t.held[n - 1] == (b, l2));
    assert(t.held[n - 2] == (a, l1));
    assert(t.latest_below(a, n) == t.latest_below(a, n - 1));
    assert(t.latest(a) == n - 2);
    assert(t.held.remove(n - 2) =~= s.held.push((b, l2)));
    if s.held.len() > 0 {
        assert(t.held[n - 3] == s.held.last());
    }
}

/// Bounded stack of held layers with the current layer.
pub struct Layers {
    /// The layer that bindings are looked up on.
    pub current: LayerIdx,
    slots: [(InIdx, LayerIdx); MAX_LAYER_STACK],
    used: usize,
}

impl View for Layers {
    type V = LayerState;

    closed spec fn view(&self) -> LayerState {
        LayerState { current: self.current, held: self.slots@.subrange(0, self.used as int) }
    }
}

impl Layers {
    /// The occupied slots are counted by a number within the stack's depth.
    pub closed spec fn wf(&self) -> bool {
        self.used <= MAX_LAYER_STACK
    }

    /// A well-formed stack holds at most `MAX_LAYER_STACK` layers.
    pub proof fn lemma_wf(&self)
        requires
            self.wf(),
        ensures
            self@.held.len() <= MAX_LAYER_STACK,
    {
    }

    /// An empty stack on the default layer.
    pub fn new() -> (layers: Self)
        ensures
            layers.wf(),
            layers@ == LayerState::initial(),
    {
        let layers = Layers { current: DEFAULT_LAYER, slots: [(0u8, 0u8); MAX_LAYER_STACK], used: 0 };
        assert(layers@.held =~= Seq::empty());
        layers
    }

    /// Empties the stack and goes back to the default layer.
    pub fn reset(&mut self)
        ensures
            final(self).wf(),
            final(self)@ == LayerState::initial(),
    {
        self.current = DEFAULT_LAYER;
        self.used = 0;
        assert(self@.held =~= Seq::empty());
    }

    /// The layer that bindings are looked up on.
    pub fn current_layer(&self) -> (layer: LayerIdx)
        ensures
            layer == self@.current,
    {
        self.current
    }

    /// Number of held layers.
    pub fn depth(&self) -> (n: usize)
        requires
            self.wf(),
        ensures
            n == self@.held.len(),
    {
        self.used
    }

    /// Pushes `layer` on behalf of `in_idx` and makes it current. A full
    /// stack is a fault and stays as it is.
    pub fn activate(&mut self, in_idx: InIdx, layer: LayerIdx) -> (r: Result<(), Fault>)
        requires
            old(self).wf(),
        ensures
            final(self).wf(),
            old(self)@.has_room() ==> r == Ok::<(), Fault>(()) && final(self)@ == old(self)@.activated(
                in_idx,
                layer,
            ),
            !old(self)@.has_room() ==> r == Err::<(), Fault>(Fault::LayerStackFull) && *final(self)
                == *old(self),
    {
        match self.find_slot() {
            Some(slot_idx) => {
                self.slots[slot_idx] = (in_idx, layer);
                self.used = slot_idx + 1;
                self.current = layer;
                assert(self@.held =~= old(self)@.held.push((in_idx, layer)));
                Ok(())
            },
            None => Err(Fault::LayerStackFull),
        }
    }

    /// Releases `in_idx`: if it holds a layer, the entry that it pushed last
    /// leaves the stack, and the result is `true`.
    pub fn maybe_deactivate(&mut self, in_idx: InIdx) -> (removed: bool)
        requires
            old(self).wf(),
        ensures
            final(self).wf(),
            removed == old(self)@.holds(in_idx),
            final(self)@ == old(self)@.released(in_idx),
    {
        let mut found: Option<usize> = None;
        let mut slot_idx: usize = 0;
        while slot_idx < self.used
            invariant
                self.wf(),
                *self == *old(self),
                slot_idx <= self.used,
                match found {
                    Some(k) => k as int == self@.latest_below(in_idx, slot_idx as int),
                    None => self@.latest_below(in_idx, slot_idx as int) == -1,
                },
            decreases self.used - slot_idx,
        {
            if self.slots[slot_idx].0 == in_idx {
                found = Some(slot_idx);
            }
            slot_idx += 1;
        }
        proof {
            lemma_latest_holds(self@, in_idx);
        }
        match found {
            Some(k) => {
                self.drop_slot(k);
                if k == 0 {
                    self.current = DEFAULT_LAYER;
                } else {
                    assert(self.slots@[k - 1] == self@.held[k - 1]);
                    assert(self@.held[k - 1] == old(self)@.held[k - 1]);
                    self.current = self.slots[k - 1].1;
                }
                assert(self@.held =~= old(self)@.held.remove(k as int));
                true
            },
            None => false,
        }
    }

    /// Index of the first free slot, if the stack has one.
    fn find_slot(&self) -> (slot: Option<usize>)
        requires
            self.wf(),
        ensures
            match slot {
                Some(i) => i == self.used && i < MAX_LAYER_STACK,
                None => self.used == MAX_LAYER_STACK,
            },
    {
        if self.used < MAX_LAYER_STACK {
            Some(self.used)
        } else {
            None
        }
    }

    /// Removes the entry in slot `slot_idx` and moves the entries above it
    /// down by one.
    fn drop_slot(&mut self, slot_idx: usize)
        requires
            old(self).wf(),
            slot_idx < old(self).used,
        ensures
            final(self).wf(),
            final(self).current == old(self).current,
            final(self).used == old(self).used - 1,
            final(self)@.held == old(self)@.held.remove(slot_idx as int),
    {
        let mut i: usize = slot_idx + 1;
        while i < self.used
            invariant
                self.wf(),
                self.used == old(self).used,
                self.current == old(self).current,
                slot_idx < i <= self.used,
                forall|j: int| 0 <= j < slot_idx ==> self.slots@[j] == old(self).slots@[j],
                forall|j: int| slot_idx <= j < i - 1 ==> self.slots@[j] == old(self).slots@[j + 1],
                forall|j: int| i - 1 <= j < self.used ==> self.slots@[j] == old(self).slots@[j],
            decreases self.used - i,
        {
            self.slots[i - 1] = self.slots[i];
            i += 1;
        }
        self.used = self.used - 1;
        assert(self@.held =~= old(self)@.held.remove(slot_idx as int));
    }
}

} // verus!
