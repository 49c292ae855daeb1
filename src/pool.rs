use vstd::prelude::*;
use vstd::multiset::Multiset;

verus! {

broadcast use vstd::multiset::group_multiset_axioms;

/// Admission state of a fixed pool of workers: the connections in service,
/// at most one per worker, and those waiting, oldest first.
pub struct WorkerPool {
    size: usize,
    running: Vec<u64>,
    waiting: Vec<u64>,
}

impl WorkerPool {
    pub closed spec fn size_of(&self) -> nat {
        self.size as nat
    }

    /// Connections being served.
    pub closed spec fn running(&self) -> Seq<u64> {
        self.running@
    }

    /// Connections waiting for a free worker, oldest first.
    pub closed spec fn waiting(&self) -> Seq<u64> {
        self.waiting@
    }

    /// Every connection the pool holds, in service or waiting.
    pub open spec fn held(&self) -> Multiset<u64> {
        self.running().to_multiset().add(self.waiting().to_multiset())
    }

    /// No more connections in service than workers.
    pub open spec fn wf(&self) -> bool {
        self.size_of() > 0 && self.running().len() <= self.size_of()
    }

    pub fn new(size: usize) -> (r: WorkerPool)
        requires
            size > 0,
        ensures
            r.wf(),
            r.size_of() == size,
            r.running() == Seq::<u64>::empty(),
            r.waiting() == Seq::<u64>::empty(),
    {
        WorkerPool { size, running: Vec::new(), waiting: Vec::new() }
    }

    pub fn size(&self) -> (r: usize)
        ensures
            r == self.size_of(),
    {
        self.size
    }

    pub fn in_service(&self) -> (r: usize)
        ensures
            r == self.running().len(),
    {
        self.running.len()
    }

    pub fn queued(&self) -> (r: usize)
        ensures
            r == self.waiting().len(),
    {
        self.waiting.len()
    }

    /// An accepted connection joins the back of the queue.
    pub fn enqueue(&mut self, id: u64)
        requires
            old(self).wf(),
        ensures
            final(self).wf(),
            final(self).size_of() == old(self).size_of(),
            final(self).running() == old(self).running(),
            final(self).waiting() == old(self).waiting().push(id),
            final(self).held() == old(self).held().insert(id),
    {
        self.waiting.push(id);
        proof {
            vstd::seq_lib::to_multiset_build(old(self).waiting(), id);
            assert(self.held() =~= old(self).held().insert(id));
        }
    }

    /// A free worker takes the oldest waiting connection, if a worker is
    /// free and a connection waits.
    pub fn claim(&mut self) -> (r: Option<u64>)
        requires
            old(self).wf(),
        ensures
            final(self).wf(),
            final(self).held() == old(self).held(),
            final(self).size_of() == old(self).size_of(),
            old(self).running().len() < old(self).size_of() && old(self).waiting().len() > 0 ==> {
                &&& r == Some(old(self).waiting()[0])
                &&& final(self).waiting() == old(self).waiting().drop_first()
                &&& final(self).running() == old(self).running().push(old(self).waiting()[0])
            },
            !(old(self).running().len() < old(self).size_of() && old(self).waiting().len() > 0) ==> {
                &&& r is None
                &&& final(self).waiting() == old(self).waiting()
                &&& final(self).running() == old(self).running()
            },
    {
        if self.running.len() < self.size && self.waiting.len() > 0 {
            let id = self.waiting.remove(0);
            self.running.push(id);
            assert(self.waiting@ =~= old(self).waiting@.drop_first());
            proof {
                vstd::seq_lib::to_multiset_remove(old(self).waiting(), 0);
                vstd::seq_lib::to_multiset_build(old(self).running(), id);
                vstd::seq_lib::to_multiset_contains(old(self).waiting(), id);
                assert(old(self).waiting().contains(id));
                assert(self.held() =~= old(self).held());
            }
            Some(id)
        } else {
            None
        }
    }

    /// The connection `id` has closed and its worker is free again: its first
    /// entry among those in service goes. Returns whether `id` was in service.
    pub fn release(&mut self, id: u64) -> (r: bool)
        requires
            old(self).wf(),
        ensures
            final(self).wf(),
            final(self).size_of() == old(self).size_of(),
            final(self).waiting() == old(self).waiting(),
            r == old(self).running().contains(id),
            r ==> final(self).held() == old(self).held().remove(id),
            !r ==> final(self).held() == old(self).held(),
            r ==> exists|i: int|
                0 <= i < old(self).running().len() && old(self).running()[i] == id && (forall|j: int|
                    0 <= j < i ==> old(self).running()[j] != id) && final(self).running() == old(
                    self,
                ).running().remove(i),
            !r ==> final(self).running() == old(self).running(),
    {
        let mut i: usize = 0;
        while i < self.running.len()
            invariant
                i <= self.running.len(),
                self.running@ == old(self).running@,
                self.waiting@ == old(self).waiting@,
                self.size == old(self).size,
                old(self).wf(),
                forall|j: int| 0 <= j < i ==> self.running@[j] != id,
            decreases self.running.len() - i,
        {
            if self.running[i] == id {
                self.running.remove(i);
                proof {
                    vstd::seq_lib::to_multiset_remove(old(self).running(), i as int);
                    vstd::seq_lib::to_multiset_contains(old(self).running(), id);
                    assert(old(self).running().contains(id));
                    assert(self.held() =~= old(self).held().remove(id));
                }
                return true;
            }
            i = i + 1;
        }
        false
    }
}

} // verus!
