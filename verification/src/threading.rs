//! Per-thread operation context: a stack of named values that scoped guards
//! add to and remove from.
use vstd::prelude::*;

verus! {

/// One named piece of context.
#[derive(Clone, Debug, PartialEq, Eq)]
pub struct OperationContext {
    pub name: String,
    pub value: String,
}

/// The contexts added on one thread, each under the id of the guard that
/// added it, oldest first.
#[derive(Clone, Debug)]
pub struct ContextStack {
    entries: Vec<(u64, OperationContext)>,
}

/// A context entry as plain values: the guard id, the name and the value.
pub type ContextEntry = (u64, Seq<char>, Seq<char>);

impl View for ContextStack {
    type V = Seq<ContextEntry>;

    closed spec fn view(&self) -> Seq<ContextEntry> {
        Seq::new(self.entries@.len(), |i: int| (self.entries@[i].0, self.entries@[i].1.name@, self.entries@[i].1.value@))
    }
}

/// The entries of `entries` whose id is not `id`, in order.
pub open spec fn without_id(entries: Seq<ContextEntry>, id: u64) -> Seq<ContextEntry>
    decreases entries.len(),
{
    if entries.len() == 0 {
        entries
    } else {
        let rest = without_id(entries.drop_last(), id);
        if entries.last().0 == id {
            rest
        } else {
            rest.push(entries.last())
        }
    }
}

impl ContextStack {
    pub fn new() -> (r: ContextStack)
        ensures
            r@ == Seq::<ContextEntry>::empty(),
    {
        let r = ContextStack { entries: Vec::new() };
        assert(r@ =~= Seq::<ContextEntry>::empty());
        r
    }

    /// Adds a context under the guard id `id`.
    pub fn push(&mut self, id: u64, name: &str, value: &str)
        ensures
            final(self)@ == old(self)@.push((id, name@, value@)),
    {
        let context = OperationContext { name: name.to_owned(), value: value.to_owned() };
        self.entries.push((id, context));
        assert(self@ =~= old(self)@.push((id, name@, value@)));
    }

    /// Removes every context added under the guard id `id`.
    pub fn remove(&mut self, id: u64)
        ensures
            final(self)@ == without_id(old(self)@, id),
    {
        let ghost all = self@;
        let mut kept: Vec<(u64, OperationContext)> = Vec::new();
        let mut i: usize = 0;
        let mut entries: Vec<(u64, OperationContext)> = Vec::new();
        std::mem::swap(&mut entries, &mut self.entries);
        assert(all.take(0) =~= Seq::<ContextEntry>::empty());
        while i < entries.len()
            invariant
                i <= entries@.len(),
                all == Seq::new(entries@.len(), |k: int| (entries@[k].0, entries@[k].1.name@, entries@[k].1.value@)),
                Seq::new(kept@.len(), |k: int| (kept@[k].0, kept@[k].1.name@, kept@[k].1.value@))
                    == without_id(all.take(i as int), id),
            decreases entries@.len() - i,
        {
            let ghost before = kept@;
            assert(all.take(i as int + 1).drop_last() =~= all.take(i as int));
            if entries[i].0 != id {
                let entry = (entries[i].0, OperationContext { name: entries[i].1.name.clone(), value: entries[i].1.value.clone() });
                kept.push(entry);
                assert(Seq::new(kept@.len(), |k: int| (kept@[k].0, kept@[k].1.name@, kept@[k].1.value@))
                    =~= Seq::new(before.len(), |k: int| (before[k].0, before[k].1.name@, before[k].1.value@)).push(all[i as int]));
            }
            i = i + 1;
        }
        assert(all.take(i as int) =~= all);
        self.entries = kept;
    }

    /// Copies of the contexts, oldest first.
    pub fn contexts(&self) -> (r: Vec<OperationContext>)
        ensures
            r@.len() == self@.len(),
            forall|i: int| 0 <= i < r@.len() ==> #[trigger] r@[i].name@ == self@[i].1 && r@[i].value@ == self@[i].2,
    {
        let mut out: Vec<OperationContext> = Vec::new();
        let mut i: usize = 0;
        while i < self.entries.len()
            invariant
                i <= self.entries@.len(),
                out@.len() == i,
                forall|k: int| 0 <= k < i ==> #[trigger] out@[k].name@ == self.entries@[k].1.name@
                    && out@[k].value@ == self.entries@[k].1.value@,
            decreases self.entries@.len() - i,
        {
            let name = self.entries[i].1.name.clone();
            let value = self.entries[i].1.value.clone();
            assert(name@ == self.entries@[i as int].1.name@);
            let ghost before = out@;
            out.push(OperationContext { name, value });
            assert forall|k: int| 0 <= k < i + 1 implies #[trigger] out@[k].name@ == self.entries@[k].1.name@
                && out@[k].value@ == self.entries@[k].1.value@ by {
                if k < i {
                    assert(out@[k] == before[k]);
                }
            }
            i = i + 1;
        }
        out
    }
}

/// Removing the contexts of a guard leaves the contexts of other guards, in
/// order, and none of the removed guard's.
pub proof fn lemma_remove_keeps_others(entries: Seq<ContextEntry>, id: u64)
    ensures
        forall|i: int| 0 <= i < without_id(entries, id).len() ==> (#[trigger] without_id(entries, id)[i]).0 != id,
        without_id(entries, id).len() <= entries.len(),
        (forall|i: int| 0 <= i < entries.len() ==> (#[trigger] entries[i]).0 != id) ==> without_id(entries, id) == entries,
    decreases entries.len(),
{
    if entries.len() > 0 {
        lemma_remove_keeps_others(entries.drop_last(), id);
        if forall|i: int| 0 <= i < entries.len() ==> (#[trigger] entries[i]).0 != id {
            assert forall|i: int| 0 <= i < entries.drop_last().len() implies (#[trigger] entries.drop_last()[i]).0 != id by {
                assert(entries.drop_last()[i] == entries[i]);
            }
            assert(entries.drop_last().push(entries.last()) =~= entries);
        }
    }
}

/// Adding a context and then removing the contexts of its guard, when the
/// guard's id was not in use, gives back the contexts from before.
pub proof fn lemma_push_then_remove(entries: Seq<ContextEntry>, id: u64, name: Seq<char>, value: Seq<char>)
    requires
        forall|i: int| 0 <= i < entries.len() ==> (#[trigger] entries[i]).0 != id,
    ensures
        without_id(entries.push((id, name, value)), id) == entries,
{
    let pushed = entries.push((id, name, value));
    assert(pushed.drop_last() =~= entries);
    lemma_remove_keeps_others(entries, id);
}

} // verus!
