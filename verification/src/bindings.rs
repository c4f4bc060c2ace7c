//! The binding table: which action an input fires on which layer.

use vstd::prelude::*;
use crate::consts::{Command, Fault, InIdx, LayerIdx, OutIdx, ProcIdx, Trigger};

verus! {

/// What a binding does when it fires.
#[derive(Debug, Copy, Clone, PartialEq, Eq, Structural)]
pub enum Action {
    /// A single command.
    Single(Command),
    /// A procedure of the program.
    Proc(ProcIdx),
    /// Nothing.
    Noop,
}

/// Mapping from an input, a layer and a trigger to an action.
#[derive(Debug, Copy, Clone, PartialEq, Eq, Structural)]
pub struct Binding {
    /// The input.
    pub idx: InIdx,
    /// The layer that the binding applies to.
    pub layer: LayerIdx,
    /// The way in which the input has to fire.
    pub trigger: Trigger,
    /// What happens then.
    pub action: Action,
}

impl Binding {
    /// A short click of `idx` on `layer` toggles `out_idx`.
    pub fn short(idx: InIdx, layer: LayerIdx, out_idx: OutIdx) -> (binding: Self)
        ensures
            binding == (Binding {
                idx,
                layer,
                trigger: Trigger::ShortClick,
                action: Action::Single(Command::ToggleOutput(out_idx)),
            }),
    {
        Binding {
            idx,
            layer,
            action: Action::Single(Command::ToggleOutput(out_idx)),
            trigger: Trigger::ShortClick,
        }
    }

    /// A long click of `idx` on `layer` toggles `out_idx`.
    pub fn long(idx: InIdx, layer: LayerIdx, out_idx: OutIdx) -> (binding: Self)
        ensures
            binding == (Binding {
                idx,
                layer,
                trigger: Trigger::LongClick,
                action: Action::Single(Command::ToggleOutput(out_idx)),
            }),
    {
        Binding {
            idx,
            layer,
            action: Action::Single(Command::ToggleOutput(out_idx)),
            trigger: Trigger::LongClick,
        }
    }

    /// The binding that fills unused storage.
    pub open spec fn blank() -> Binding {
        Binding { idx: 0, layer: 0, trigger: Trigger::ShortClick, action: Action::Noop }
    }
}

impl Default for Binding {
    fn default() -> (binding: Self)
        ensures
            binding == Binding::blank(),
    {
        Binding { idx: 0, layer: 0, action: Action::Noop, trigger: Trigger::ShortClick }
    }
}

/// Order of the table: by input, then by layer. The trigger does not count.
pub open spec fn key_le(a: Binding, b: Binding) -> bool {
    a.idx < b.idx || (a.idx == b.idx && a.layer <= b.layer)
}

/// Whether two bindings stand for the same input, layer and trigger.
pub open spec fn same_key(a: Binding, b: Binding) -> bool {
    a.idx == b.idx && a.layer == b.layer && a.trigger == b.trigger
}

/// Entries ascend by input and layer.
pub open spec fn sorted(s: Seq<Binding>) -> bool {
    forall|i: int, j: int| 0 <= i < j < s.len() ==> key_le(#[trigger] s[i], #[trigger] s[j])
}

/// No two entries share input, layer and trigger.
pub open spec fn unique(s: Seq<Binding>) -> bool {
    forall|i: int, j: int|
        0 <= i < s.len() && 0 <= j < s.len() && i != j ==> !same_key(
            #[trigger] s[i],
            #[trigger] s[j],
        )
}

/// No entry names the reserved input.
pub open spec fn unreserved(s: Seq<Binding>) -> bool {
    forall|i: int| 0 <= i < s.len() ==> (#[trigger] s[i]).idx != 0
}

/// What holds of the entries of every binding table.
pub open spec fn table_ok(s: Seq<Binding>) -> bool {
    sorted(s) && unique(s) && unreserved(s)
}

/// Whether a binding passes the filters: the input, and the layer and the
/// trigger where one is given.
pub open spec fn hits(
    b: Binding,
    input: InIdx,
    layer: Option<LayerIdx>,
    trigger: Option<Trigger>,
) -> bool {
    &&& b.idx == input
    &&& layer matches Some(l) ==> b.layer == l
    &&& trigger matches Some(t) ==> b.trigger == t
}

/// Index of the first entry at or after `from` that passes the filters.
pub open spec fn position_from(
    s: Seq<Binding>,
    input: InIdx,
    layer: Option<LayerIdx>,
    trigger: Option<Trigger>,
    from: int,
) -> Option<int>
    decreases s.len() - from,
{
    if from < 0 || from >= s.len() {
        None
    } else if hits(s[from], input, layer, trigger) {
        Some(from)
    } else {
        position_from(s, input, layer, trigger, from + 1)
    }
}

/// Index of the first entry that passes the filters.
pub open spec fn position(
    s: Seq<Binding>,
    input: InIdx,
    layer: Option<LayerIdx>,
    trigger: Option<Trigger>,
) -> Option<int> {
    position_from(s, input, layer, trigger, 0)
}

/// The first entry that passes the filters.
pub open spec fn lookup(
    s: Seq<Binding>,
    input: InIdx,
    layer: Option<LayerIdx>,
    trigger: Option<Trigger>,
) -> Option<Binding> {
    match position(s, input, layer, trigger) {
        Some(i) => Some(s[i]),
        None => None,
    }
}

/// Where a binding with a new key goes: behind the last entry that does not
/// order after it, so that entries of equal order keep their order of arrival.
pub open spec fn slot(s: Seq<Binding>, b: Binding) -> int
    decreases s.len(),
{
    if s.len() == 0 {
        0
    } else if key_le(s.last(), b) {
        s.len() as int
    } else {
        slot(s.drop_last(), b)
    }
}

/// The entries after `b` was bound: `b` replaces the entry with its key where
/// there is one, and goes to its slot otherwise.
pub open spec fn bound(s: Seq<Binding>, b: Binding) -> Seq<Binding> {
    match position(s, b.idx, Some(b.layer), Some(b.trigger)) {
        Some(i) => s.update(i, b),
        None => s.insert(slot(s, b), b),
    }
}

/// `position_from` gives the least index from `from` on whose entry passes
/// the filters, and `None` exactly when no entry from `from` on passes.
pub proof fn lemma_position_from(
    s: Seq<Binding>,
    input: InIdx,
    layer: Option<LayerIdx>,
    trigger: Option<Trigger>,
    from: int,
)
    requires
        0 <= from,
    ensures
        match position_from(s, input, layer, trigger, from) {
            Some(i) => from <= i < s.len() && hits(s[i], input, layer, trigger) && forall|j: int|
                from <= j < i ==> !hits(#[trigger] s[j], input, layer, trigger),
            None => forall|j: int|
                from <= j < s.len() ==> !hits(#[trigger] s[j], input, layer, trigger),
        },
    decreases s.len() - from,
{
    if from < s.len() && !hits(s[from], input, layer, trigger) {
        lemma_position_from(s, input, layer, trigger, from + 1);
    }
}

/// An index whose entry passes the filters, with none passing before it, is
/// the position.
pub proof fn lemma_position_is(
    s: Seq<Binding>,
    input: InIdx,
    layer: Option<LayerIdx>,
    trigger: Option<Trigger>,
    i: int,
)
    requires
        0 <= i < s.len(),
        hits(s[i], input, layer, trigger),
        forall|j: int| 0 <= j < i ==> !hits(#[trigger] s[j], input, layer, trigger),
    ensures
        position(s, input, layer, trigger) == Some(i),
{
    lemma_position_from(s, input, layer, trigger, 0);
}

/// Where no entry passes the filters there is no position.
pub proof fn lemma_position_none(
    s: Seq<Binding>,
    input: InIdx,
    layer: Option<LayerIdx>,
    trigger: Option<Trigger>,
)
    requires
        forall|j: int| 0 <= j < s.len() ==> !hits(#[trigger] s[j], input, layer, trigger),
    ensures
        position(s, input, layer, trigger) is None,
{
    lemma_position_from(s, input, layer, trigger, 0);
}

/// The slot of `b` parts the entries: those before it do not order after
/// `b`, those from it on do.
pub proof fn lemma_slot(s: Seq<Binding>, b: Binding)
    requires
        sorted(s),
    ensures
        0 <= slot(s, b) <= s.len(),
        forall|j: int| 0 <= j < slot(s, b) ==> key_le(#[trigger] s[j], b),
        forall|j: int| slot(s, b) <= j < s.len() ==> !key_le(#[trigger] s[j], b),
    decreases s.len(),
{
    if s.len() > 0 {
        if key_le(s.last(), b) {
            assert forall|j: int| 0 <= j < s.len() implies key_le(#[trigger] s[j], b) by {
                if j < s.len() - 1 {
                    assert(key_le(s[j], s[s.len() - 1]));
                }
            }
        } else {
            let t = s.drop_last();
            assert forall|i: int, j: int| 0 <= i < j < t.len() implies key_le(
                #[trigger] t[i],
                #[trigger] t[j],
            ) by {
                assert(key_le(s[i], s[j]));
            }
            lemma_slot(t, b);
            assert forall|j: int| 0 <= j < slot(s, b) implies key_le(#[trigger] s[j], b) by {
                assert(s[j] == t[j]);
            }
            assert forall|j: int| slot(s, b) <= j < s.len() implies !key_le(#[trigger] s[j], b) by {
                if j < t.len() {
                    assert(s[j] == t[j]);
                }
            }
        }
    }
}

/// Binding keeps the table in order, without a second entry for any key
/// and without the reserved input.
pub proof fn lemma_bound_ok(s: Seq<Binding>, b: Binding)
    requires
        table_ok(s),
        b.idx != 0,
    ensures
        table_ok(bound(s, b)),
        position(s, b.idx, Some(b.layer), Some(b.trigger)) is Some ==> bound(s, b).len()
            == s.len(),
        position(s, b.idx, Some(b.layer), Some(b.trigger)) is None ==> bound(s, b).len()
            == s.len() + 1,
{
    let r = bound(s, b);
    lemma_position_from(s, b.idx, Some(b.layer), Some(b.trigger), 0);
    match position(s, b.idx, Some(b.layer), Some(b.trigger)) {
        Some(i) => {
            assert forall|x: int, y: int| 0 <= x < y < r.len() implies key_le(
                #[trigger] r[x],
                #[trigger] r[y],
            ) by {
                assert(key_le(s[x], s[y]));
            }
            assert forall|x: int, y: int|
                0 <= x < r.len() && 0 <= y < r.len() && x != y implies !same_key(
                #[trigger] r[x],
                #[trigger] r[y],
            ) by {
                assert(!same_key(s[x], s[y]));
            }
            assert forall|x: int| 0 <= x < r.len() implies (#[trigger] r[x]).idx != 0 by {
                assert(s[x].idx != 0);
            }
        },
        None => {
            lemma_slot(s, b);
            let p = slot(s, b);
            assert forall|x: int, y: int| 0 <= x < y < r.len() implies key_le(
                #[trigger] r[x],
                #[trigger] r[y],
            ) by {
                if y < p {
                    assert(key_le(s[x], s[y]));
                } else if y == p {
                    assert(key_le(s[x], b));
                } else if x == p {
                    assert(!key_le(s[y - 1], b));
                } else if x < p {
                    assert(key_le(s[x], s[y - 1]));
                } else {
                    assert(key_le(s[x - 1], s[y - 1]));
                }
            }
            assert forall|x: int, y: int|
                0 <= x < r.len() && 0 <= y < r.len() && x != y implies !same_key(
                #[trigger] r[x],
                #[trigger] r[y],
            ) by {
                let sx = if x < p { x } else { x - 1 };
                let sy = if y < p { y } else { y - 1 };
                if x == p {
                    assert(!hits(s[sy], b.idx, Some(b.layer), Some(b.trigger)));
                } else if y == p {
                    assert(!hits(s[sx], b.idx, Some(b.layer), Some(b.trigger)));
                } else {
                    assert(!same_key(s[sx], s[sy]));
                }
            }
            assert forall|x: int| 0 <= x < r.len() implies (#[trigger] r[x]).idx != 0 by {
                if x < p {
                    assert(s[x].idx != 0);
                } else if x > p {
                    assert(s[x - 1].idx != 0);
                }
            }
        },
    }
}

/// After a binding was bound, a lookup with its input, layer and trigger
/// finds that binding.
pub proof fn law_latest_bind_wins(s: Seq<Binding>, b: Binding)
    requires
        table_ok(s),
        b.idx != 0,
    ensures
        lookup(bound(s, b), b.idx, Some(b.layer), Some(b.trigger)) == Some(b),
{
    let r = bound(s, b);
    lemma_bound_ok(s, b);
    lemma_position_from(s, b.idx, Some(b.layer), Some(b.trigger), 0);
    lemma_position_from(r, b.idx, Some(b.layer), Some(b.trigger), 0);
    match position(s, b.idx, Some(b.layer), Some(b.trigger)) {
        Some(i) => {
            assert(r[i] == b);
            assert(hits(r[i], b.idx, Some(b.layer), Some(b.trigger)));
        },
        None => {
            lemma_slot(s, b);
            assert(r[slot(s, b)] == b);
            assert(hits(r[slot(s, b)], b.idx, Some(b.layer), Some(b.trigger)));
        },
    }
    let q = position(r, b.idx, Some(b.layer), Some(b.trigger));
    assert(q is Some);
    assert(same_key(r[q->0], b));
}

/// Binding one key leaves what a lookup with another input, layer or
/// trigger finds as it was.
pub proof fn law_bind_keeps_other_keys(
    s: Seq<Binding>,
    b: Binding,
    input: InIdx,
    layer: LayerIdx,
    trigger: Trigger,
)
    requires
        table_ok(s),
        b.idx != 0,
        !(b.idx == input && b.layer == layer && b.trigger == trigger),
    ensures
        lookup(bound(s, b), input, Some(layer), Some(trigger)) == lookup(
            s,
            input,
            Some(layer),
            Some(trigger),
        ),
{
    let r = bound(s, b);
    lemma_bound_ok(s, b);
    lemma_position_from(s, b.idx, Some(b.layer), Some(b.trigger), 0);
    lemma_position_from(s, input, Some(layer), Some(trigger), 0);
    lemma_position_from(r, input, Some(layer), Some(trigger), 0);
    let ps = position(s, input, Some(layer), Some(trigger));
    let pr = position(r, input, Some(layer), Some(trigger));
    match position(s, b.idx, Some(b.layer), Some(b.trigger)) {
        Some(i) => {
            assert(forall|x: int| 0 <= x < s.len() && x != i ==> r[x] == s[x]);
            assert(!hits(r[i], input, Some(layer), Some(trigger)));
            assert(!hits(s[i], input, Some(layer), Some(trigger)));
            if ps is Some {
                assert(r[ps->0] == s[ps->0]);
            }
            if pr is Some {
                assert(r[pr->0] == s[pr->0]);
            }
        },
        None => {
            lemma_slot(s, b);
            let p = slot(s, b);
            assert(forall|x: int| 0 <= x < p ==> r[x] == s[x]);
            assert(forall|x: int| p < x < r.len() ==> r[x] == s[x - 1]);
            assert(r[p] == b);
            if ps is Some {
                let x = ps->0;
                let y = if x < p { x } else { x + 1 };
                assert(r[y] == s[x]);
                assert(hits(r[y], input, Some(layer), Some(trigger)));
                assert(same_key(r[y], r[pr->0]));
            } else {
                if pr is Some {
                    let y = pr->0;
                    let x = if y < p { y } else { y - 1 };
                    assert(r[y] == s[x]);
                }
            }
        },
    }
}

/// Among the entries of one input that pass the trigger filter, a lookup
/// without a layer finds one on the lowest layer, and finds one whenever any
/// entry passes.
pub proof fn law_lowest_layer_wins(
    s: Seq<Binding>,
    input: InIdx,
    trigger: Option<Trigger>,
    i: int,
)
    requires
        table_ok(s),
        0 <= i < s.len(),
        hits(s[i], input, None, trigger),
    ensures
        lookup(s, input, None, trigger) is Some,
        hits(lookup(s, input, None, trigger)->0, input, None, trigger),
        lookup(s, input, None, trigger)->0.layer <= s[i].layer,
{
    lemma_position_from(s, input, None, trigger, 0);
    let p = position(s, input, None, trigger)->0;
    if p < i {
        assert(key_le(s[p], s[i]));
    }
}

/// Keeps at most `N` bindings, in order, and finds the one that applies.
pub struct BindingList<const N: usize> {
    bindings: [Binding; N],
    added: usize,
}

impl<const N: usize> View for BindingList<N> {
    type V = Seq<Binding>;

    closed spec fn view(&self) -> Seq<Binding> {
        self.bindings@.subrange(0, self.added as int)
    }
}

impl<const N: usize> Default for BindingList<N> {
    fn default() -> (list: Self)
        ensures
            list.wf(),
            list@ == Seq::<Binding>::empty(),
    {
        let list = BindingList { bindings: [Binding::default();N], added: 0 };
        assert(list@ =~= Seq::<Binding>::empty());
        list
    }
}

impl<const N: usize> BindingList<N> {
    /// The used part of the storage is in order, holds no key twice and
    /// never the reserved input.
    pub closed spec fn wf(&self) -> bool {
        self.added <= N && table_ok(self@)
    }

    /// What well-formedness says of the entries.
    pub proof fn lemma_wf(&self)
        requires
            self.wf(),
        ensures
            self@.len() <= N,
            table_ok(self@),
    {
    }

    /// An empty table.
    pub fn new() -> (list: Self)
        ensures
            list.wf(),
            list@ == Seq::<Binding>::empty(),
    {
        Self::default()
    }

    /// Number of bindings in the table.
    pub fn len(&self) -> (n: usize)
        requires
            self.wf(),
        ensures
            n == self@.len(),
            n <= N,
    {
        self.added
    }

    /// The binding at position `i` of the table's order, if there is one.
    pub fn get(&self, i: usize) -> (binding: Option<&Binding>)
        requires
            self.wf(),
        ensures
            i < self@.len() ==> binding == Some(&self@[i as int]),
            i >= self@.len() ==> binding is None,
    {
        if i < self.added {
            Some(&self.bindings[i])
        } else {
            None
        }
    }

    /// Removes every binding.
    pub fn clear(&mut self)
        ensures
            final(self).wf(),
            final(self)@ == Seq::<Binding>::empty(),
    {
        let mut i: usize = 0;
        while i < N
            invariant
                i <= N,
            decreases N - i,
        {
            self.bindings[i] = Binding::default();
            i += 1;
        }
        self.added = 0;
        assert(self@ =~= Seq::<Binding>::empty());
    }

    /// Index of the first binding of an input.
    fn find_first_idx(&self, input_idx: InIdx) -> (first: Option<usize>)
        requires
            self.wf(),
        ensures
            match first {
                Some(i) => i < self@.len() && self@[i as int].idx == input_idx && forall|j: int|
                    0 <= j < i ==> (#[trigger] self@[j]).idx != input_idx,
                None => forall|j: int| 0 <= j < self@.len() ==> (#[trigger] self@[j]).idx != input_idx,
            },
    {
        let mut lo: usize = 0;
        let mut hi: usize = self.added;
        let mut landed: Option<usize> = None;
        while lo < hi && landed.is_none()
            invariant
                self.wf(),
                lo <= hi <= self.added,
                forall|j: int| 0 <= j < lo ==> (#[trigger] self@[j]).idx < input_idx,
                forall|j: int| hi <= j < self.added ==> (#[trigger] self@[j]).idx > input_idx,
                landed matches Some(m) ==> m < self.added && self@[m as int].idx == input_idx,
            decreases (if landed is None { 1int } else { 0int }), hi - lo,
        {
            let mid: usize = lo + (hi - lo) / 2;
            assert(self@[mid as int] == self.bindings@[mid as int]);
            let at: InIdx = self.bindings[mid].idx;
            if at == input_idx {
                landed = Some(mid);
            } else if at < input_idx {
                assert forall|j: int| 0 <= j < mid + 1 implies (#[trigger] self@[j]).idx
                    < input_idx by {
                    if j < mid {
                        assert(key_le(self@[j], self@[mid as int]));
                    }
                }
                lo = mid + 1;
            } else {
                assert forall|j: int| mid <= j < self.added implies (#[trigger] self@[j]).idx
                    > input_idx by {
                    if j > mid {
                        assert(key_le(self@[mid as int], self@[j]));
                    }
                }
                hi = mid;
            }
        }
        match landed {
            Some(m) => {
                let mut idx: usize = m;
                while idx > 0 && self.bindings[idx - 1].idx == input_idx
                    invariant
                        self.wf(),
                        idx <= m < self.added,
                        self@[idx as int].idx == input_idx,
                        idx > 0 ==> self@[idx - 1] == self.bindings@[idx - 1],
                    decreases idx,
                {
                    idx -= 1;
                    assert(idx > 0 ==> self@[idx - 1] == self.bindings@[idx - 1]);
                }
                assert forall|j: int| 0 <= j < idx implies (#[trigger] self@[j]).idx
                    != input_idx by {
                    assert(self@[idx - 1].idx != input_idx);
                    assert(key_le(self@[idx - 1], self@[idx as int]));
                    if j < idx - 1 {
                        assert(key_le(self@[j], self@[idx - 1]));
                    }
                }
                Some(idx)
            },
            None => None,
        }
    }

    /// Index of the first binding that passes the filters.
    fn find_idx_filtered(
        &self,
        input_idx: InIdx,
        layer: Option<LayerIdx>,
        trigger: Option<Trigger>,
    ) -> (found: Option<usize>)
        requires
            self.wf(),
        ensures
            match found {
                Some(i) => position(self@, input_idx, layer, trigger) == Some(i as int) && i
                    < self@.len(),
                None => position(self@, input_idx, layer, trigger) is None,
            },
    {
        let first_idx: usize = match self.find_first_idx(input_idx) {
            Some(i) => i,
            None => {
                proof {
                    lemma_position_none(self@, input_idx, layer, trigger);
                }
                return None;
            },
        };
        let mut i: usize = first_idx;
        while i < self.added
            invariant
                self.wf(),
                first_idx <= i <= self.added,
                first_idx < self.added,
                self@[first_idx as int].idx == input_idx,
                forall|j: int| 0 <= j < i ==> !hits(#[trigger] self@[j], input_idx, layer, trigger),
                forall|j: int| first_idx <= j < i ==> (#[trigger] self@[j]).idx == input_idx,
            decreases self.added - i,
        {
            assert(self@[i as int] == self.bindings@[i as int]);
            let binding: &Binding = &self.bindings[i];
            if binding.idx != input_idx {
                assert forall|j: int| 0 <= j < self@.len() implies !hits(
                    #[trigger] self@[j],
                    input_idx,
                    layer,
                    trigger,
                ) by {
                    if j > i {
                        assert(key_le(self@[i as int], self@[j]));
                        assert(first_idx < i);
                        assert(key_le(self@[first_idx as int], self@[i as int]));
                    }
                }
                proof {
                    lemma_position_none(self@, input_idx, layer, trigger);
                }
                return None;
            }
            let layer_ok: bool = match layer {
                Some(l) => l == binding.layer,
                None => true,
            };
            let trigger_ok: bool = match trigger {
                Some(t) => t == binding.trigger,
                None => true,
            };
            if layer_ok && trigger_ok {
                proof {
                    lemma_position_is(self@, input_idx, layer, trigger, i as int);
                }
                return Some(i);
            }
            i += 1;
        }
        proof {
            lemma_position_none(self@, input_idx, layer, trigger);
        }
        None
    }

    /// The first binding of an input that passes the filters. Without a
    /// layer filter that is one on the lowest layer bound.
    pub fn filter(
        &self,
        input_idx: InIdx,
        layer: Option<LayerIdx>,
        trigger: Option<Trigger>,
    ) -> (found: Option<&Binding>)
        requires
            self.wf(),
        ensures
            match found {
                Some(b) => lookup(self@, input_idx, layer, trigger) == Some(*b),
                None => lookup(self@, input_idx, layer, trigger) is None,
            },
    {
        match self.find_idx_filtered(input_idx, layer, trigger) {
            Some(idx) => {
                assert(self@[idx as int] == self.bindings@[idx as int]);
                Some(&self.bindings[idx])
            },
            None => None,
        }
    }

    /// Binds: a binding with the input, layer and trigger of an entry
    /// replaces that entry in place; another one goes behind the entries
    /// that do not order after it. The reserved input and a new key for a
    /// full table are faults, and leave the table as it was.
    pub fn bind(&mut self, binding: Binding) -> (r: Result<(), Fault>)
        requires
            old(self).wf(),
        ensures
            final(self).wf(),
            r == bind_verdict(old(self)@, binding, N as nat),
            r is Ok ==> final(self)@ == bound(old(self)@, binding),
            r is Err ==> final(self)@ == old(self)@,
    {
        if binding.idx == 0 {
            return Err(Fault::ReservedInput);
        }
        proof {
            lemma_bound_ok(self@, binding);
        }
        match self.find_idx_filtered(binding.idx, Some(binding.layer), Some(binding.trigger)) {
            Some(idx) => {
                self.bindings[idx] = binding;
                assert(self@ =~= old(self)@.update(idx as int, binding));
                Ok(())
            },
            None => {
                if self.added >= N {
                    return Err(Fault::BindingsFull);
                }
                let ghost before = self@;
                let mut i: usize = self.added;
                assert(before.subrange(0, i as int) =~= before);
                while i > 0 && Self::orders_after(&self.bindings[i - 1], &binding)
                    invariant
                        self.added == old(self).added,
                        self.added < N,
                        i <= self.added,
                        before == old(self)@,
                        slot(before, binding) == slot(before.subrange(0, i as int), binding),
                        forall|j: int| 0 <= j < i ==> self.bindings@[j] == before[j],
                        forall|j: int| i < j <= self.added ==> self.bindings@[j] == before[j - 1],
                    decreases i,
                {
                    self.bindings[i] = self.bindings[i - 1];
                    i -= 1;
                    assert(before.subrange(0, i + 1).drop_last() =~= before.subrange(0, i as int));
                }
                assert(slot(before.subrange(0, i as int), binding) == i) by {
                    if i > 0 {
                        assert(before.subrange(0, i as int).last() == before[i - 1]);
                    }
                }
                self.bindings[i] = binding;
                self.added += 1;
                assert(self@ =~= before.insert(i as int, binding));
                Ok(())
            },
        }
    }

    /// Whether `a` orders after `b` in the table.
    fn orders_after(a: &Binding, b: &Binding) -> (after: bool)
        ensures
            after == !key_le(*a, *b),
    {
        a.idx > b.idx || (a.idx == b.idx && a.layer > b.layer)
    }
}

/// What `bind` answers: the fault, if there is one.
pub open spec fn bind_verdict(s: Seq<Binding>, b: Binding, capacity: nat) -> Result<(), Fault> {
    if b.idx == 0 {
        Err(Fault::ReservedInput)
    } else if position(s, b.idx, Some(b.layer), Some(b.trigger)) is None && s.len() >= capacity {
        Err(Fault::BindingsFull)
    } else {
        Ok(())
    }
}

} // verus!
