//! Which notification target each trusted approver is reached at.

use vstd::prelude::*;

verus! {

/// An approver and the chat that reaches them.
pub struct Binding {
    pub identity: String,
    pub target: i64,
}

impl View for Binding {
    type V = (Seq<char>, i64);

    open spec fn view(&self) -> (Seq<char>, i64) {
        (self.identity@, self.target)
    }
}

/// What became of a message from the messaging channel.
#[derive(Debug, Clone, Copy, PartialEq, Eq, Structural)]
pub enum BindOutcome {
    /// The sender is trusted: their chat now receives the prompts.
    Bound,
    /// The sender is not trusted: nothing was stored.
    Rejected,
    /// The sender has no identity: nothing was stored.
    Anonymous,
}

/// The trusted approvers and their current targets.
pub struct BindingsView {
    pub trusted: Seq<Seq<char>>,
    pub entries: Seq<(Seq<char>, i64)>,
}

pub open spec fn texts(v: Seq<String>) -> Seq<Seq<char>> {
    v.map_values(|s: String| s@)
}

pub open spec fn opt_text(o: Option<String>) -> Option<Seq<char>> {
    match o {
        Some(s) => Some(s@),
        None => None,
    }
}

/// `id` is in the list.
pub open spec fn listed(list: Seq<Seq<char>>, id: Seq<char>) -> bool {
    exists|i: int| 0 <= i < list.len() && list[i] == id
}

/// Entry `i` binds `id`.
pub open spec fn bound_at(entries: Seq<(Seq<char>, i64)>, id: Seq<char>, i: int) -> bool {
    0 <= i < entries.len() && entries[i].0 == id
}

/// Only trusted approvers are bound, each at most once.
pub open spec fn bindings_wf(v: BindingsView) -> bool {
    &&& forall|i: int| 0 <= i < v.entries.len() ==> listed(v.trusted, #[trigger] v.entries[i].0)
    &&& forall|i: int, j: int|
        0 <= i < j < v.entries.len() ==> #[trigger] v.entries[i].0 != #[trigger] v.entries[j].0
}

/// A message from `identity` sent from chat `target`: a trusted sender is
/// bound to that chat, the latest message winning; anyone else changes
/// nothing.
pub open spec fn bind_spec(v: BindingsView, identity: Option<Seq<char>>, target: i64) -> (
    BindingsView,
    BindOutcome,
) {
    match identity {
        None => (v, BindOutcome::Anonymous),
        Some(id) => if !listed(v.trusted, id) {
            (v, BindOutcome::Rejected)
        } else if exists|i: int| bound_at(v.entries, id, i) {
            let i = choose|i: int| bound_at(v.entries, id, i);
            (BindingsView { entries: v.entries.update(i, (id, target)), ..v }, BindOutcome::Bound)
        } else {
            (BindingsView { entries: v.entries.push((id, target)), ..v }, BindOutcome::Bound)
        },
    }
}

/// Every target that a prompt goes to, in the order they were bound.
pub open spec fn targets_spec(v: BindingsView) -> Seq<i64> {
    v.entries.map_values(|e: (Seq<char>, i64)| e.1)
}

/// The identity bindings of the trusted approvers.
pub struct BindingStore {
    trusted: Vec<String>,
    entries: Vec<Binding>,
}

impl View for BindingStore {
    type V = BindingsView;

    closed spec fn view(&self) -> BindingsView {
        BindingsView {
            trusted: texts(self.trusted@),
            entries: self.entries@.map_values(|b: Binding| b@),
        }
    }
}

/// Whether `id` is one of `list`.
pub fn is_listed(list: &Vec<String>, id: &String) -> (r: bool)
    ensures
        r == listed(texts(list@), id@),
{
    let mut i: usize = 0;
    while i < list.len()
        invariant
            0 <= i <= list@.len(),
            forall|k: int| 0 <= k < i ==> list@[k]@ != id@,
        decreases list@.len() - i,
    {
        if list[i] == *id {
            assert(texts(list@)[i as int] == id@);
            return true;
        }
        i = i + 1;
    }
    assert(!listed(texts(list@), id@)) by {
        if listed(texts(list@), id@) {
            let k = choose|k: int| 0 <= k < texts(list@).len() && texts(list@)[k] == id@;
            assert(list@[k]@ == id@);
        }
    }
    false
}

impl BindingStore {
    /// A store for the given trusted approvers, with nobody bound yet.
    pub fn new(trusted: Vec<String>) -> (r: BindingStore)
        ensures
            r@.trusted == texts(trusted@),
            r@.entries == Seq::<(Seq<char>, i64)>::empty(),
            bindings_wf(r@),
    {
        let r = BindingStore { trusted, entries: Vec::new() };
        assert(r@.entries =~= Seq::<(Seq<char>, i64)>::empty());
        r
    }

    /// Whether `id` is a trusted approver.
    pub fn is_trusted(&self, id: &String) -> (r: bool)
        ensures
            r == listed(self@.trusted, id@),
    {
        is_listed(&self.trusted, id)
    }

    /// Handles a message from `identity`, sent from chat `target`.
    pub fn bind(&mut self, identity: Option<String>, target: i64) -> (r: BindOutcome)
        requires
            bindings_wf(old(self)@),
        ensures
            (final(self)@, r) == bind_spec(old(self)@, opt_text(identity), target),
            bindings_wf(final(self)@),
    {
        let ghost given = opt_text(identity);
        let id = match identity {
            None => return BindOutcome::Anonymous,
            Some(id) => id,
        };
        if !self.is_trusted(&id) {
            return BindOutcome::Rejected;
        }
        let ghost old_entries = self@.entries;
        let ghost idv = id@;
        let mut i: usize = 0;
        while i < self.entries.len()
            invariant
                old_entries == self@.entries,
                idv == id@,
                0 <= i <= self.entries@.len(),
                forall|k: int| 0 <= k < i ==> self.entries@[k]@.0 != idv,
            ensures
                0 <= i <= self.entries@.len(),
                i < self.entries@.len() ==> self.entries@[i as int]@.0 == idv,
                forall|k: int| 0 <= k < i ==> self.entries@[k]@.0 != idv,
            decreases self.entries@.len() - i,
        {
            if self.entries[i].identity == id {
                break;
            }
            i = i + 1;
        }
        if i < self.entries.len() {
            assert(bound_at(old_entries, idv, i as int));
            assert(forall|k: int| bound_at(old_entries, idv, k) ==> k == i);
            let ghost c = choose|k: int| bound_at(old_entries, idv, k);
            assert(c == i);
            self.entries.set(i, Binding { identity: id, target });
            assert(self@.entries =~= old_entries.update(i as int, (idv, target)));
        } else {
            assert(!exists|k: int| bound_at(old_entries, idv, k));
            self.entries.push(Binding { identity: id, target });
            assert(self@.entries =~= old_entries.push((idv, target)));
        }
        proof {
            lemma_bind_keeps_wf(old(self)@, given, target);
        }
        BindOutcome::Bound
    }

    /// The targets of every bound approver, in the order they were bound.
    pub fn targets(&self) -> (r: Vec<i64>)
        ensures
            r@ == targets_spec(self@),
    {
        let mut r: Vec<i64> = Vec::new();
        let mut i: usize = 0;
        while i < self.entries.len()
            invariant
                0 <= i <= self.entries@.len(),
                r@ == targets_spec(self@).subrange(0, i as int),
            decreases self.entries@.len() - i,
        {
            r.push(self.entries[i].target);
            i = i + 1;
            assert(r@ =~= targets_spec(self@).subrange(0, i as int));
        }
        assert(r@ =~= targets_spec(self@));
        r
    }

    /// The target that `id` is bound to, if any.
    pub fn target_of(&self, id: &String) -> (r: Option<i64>)
        requires
            bindings_wf(self@),
        ensures
            r is Some <==> exists|i: int| bound_at(self@.entries, id@, i),
            r matches Some(t) ==> exists|i: int|
                bound_at(self@.entries, id@, i) && self@.entries[i].1 == t,
    {
        let mut i: usize = 0;
        while i < self.entries.len()
            invariant
                0 <= i <= self.entries@.len(),
                forall|k: int| 0 <= k < i ==> self@.entries[k].0 != id@,
            decreases self.entries@.len() - i,
        {
            if self.entries[i].identity == *id {
                assert(bound_at(self@.entries, id@, i as int));
                return Some(self.entries[i].target);
            }
            i = i + 1;
        }
        None
    }
}

/// A sender who is not trusted is turned away, nothing is stored, and no
/// binding names them: no later prompt goes to them on their account.
pub proof fn lemma_untrusted_sender_not_bound(v: BindingsView, id: Seq<char>, target: i64)
    requires
        bindings_wf(v),
        !listed(v.trusted, id),
    ensures
        bind_spec(v, Some(id), target) == (v, BindOutcome::Rejected),
        forall|i: int| 0 <= i < v.entries.len() ==> v.entries[i].0 != id,
{
}

/// Binding a trusted approver keeps the store well formed.
pub proof fn lemma_bind_keeps_wf(v: BindingsView, identity: Option<Seq<char>>, target: i64)
    requires
        bindings_wf(v),
    ensures
        bindings_wf(bind_spec(v, identity, target).0),
{
    if let Some(id) = identity {
        if listed(v.trusted, id) {
            let w = bind_spec(v, identity, target).0;
            if exists|i: int| bound_at(v.entries, id, i) {
                let i = choose|i: int| bound_at(v.entries, id, i);
                assert forall|a: int, b: int| 0 <= a < b < w.entries.len() implies #[trigger] w.entries[a].0
                    != #[trigger] w.entries[b].0 by {
                    assert(v.entries[a].0 != v.entries[b].0);
                }
            } else {
                assert forall|a: int, b: int| 0 <= a < b < w.entries.len() implies #[trigger] w.entries[a].0
                    != #[trigger] w.entries[b].0 by {
                    if b == v.entries.len() {
                        assert(!bound_at(v.entries, id, a));
                    }
                }
            }
        }
    }
}

} // verus!
