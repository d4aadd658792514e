use vstd::prelude::*;
use std::collections::VecDeque;
use crate::bitfield::{bit_set, Bitfield};
use crate::torrents::Piece;

verus! {

/// The work queue of outstanding pieces (and anything else handed between
/// tasks in arrival order). This is the queue as seen under its lock; the
/// mutex and the wake-up notifier that share one queue between tasks live
/// with the task plumbing, outside the verified core.
pub struct Queue<T> {
    q: VecDeque<T>,
}

impl<T> View for Queue<T> {
    type V = Seq<T>;

    closed spec fn view(&self) -> Seq<T> {
        self.q@
    }
}

impl<T> Queue<T> {
    /// An empty queue.
    pub fn new() -> (r: Queue<T>)
        ensures
            r@ == Seq::<T>::empty(),
    {
        Queue { q: VecDeque::new() }
    }

    /// A queue holding the given entries, front first.
    pub fn from(queue: VecDeque<T>) -> (r: Queue<T>)
        ensures
            r@ == queue@,
    {
        Queue { q: queue }
    }

    /// Appends at the back.
    pub fn push(&mut self, x: T)
        ensures
            final(self)@ == old(self)@.push(x),
    {
        self.q.push_back(x);
    }

    /// Removes and returns the front entry, if any.
    pub fn pop(&mut self) -> (r: Option<T>)
        ensures
            match r {
                Some(x) => old(self)@.len() > 0 && x == old(self)@[0] && final(self)@ == old(
                    self,
                )@.subrange(1, old(self)@.len() as int),
                None => old(self)@.len() == 0 && final(self)@ == old(self)@,
            },
    {
        self.q.pop_front()
    }

    /// Number of entries.
    pub fn len(&self) -> (r: usize)
        ensures
            r == self@.len(),
    {
        self.q.len()
    }

    /// Drops every entry.
    pub fn clear(&mut self)
        ensures
            final(self)@ == Seq::<T>::empty(),
    {
        self.q.clear();
    }

    /// Replaces the whole contents.
    pub fn replace(&mut self, q: VecDeque<T>)
        ensures
            final(self)@ == q@,
    {
        self.q = q;
    }
}

impl Queue<Piece> {
    /// Extracts the first queued piece whose index the remote bitfield has,
    /// keeping every other entry in its relative order. Non-blocking: `None`
    /// when no queued piece matches, and then the queue is untouched.
    pub fn find_first(&mut self, bf: &Bitfield) -> (r: Option<Piece>)
        ensures
            match r {
                Some(p) => exists|i: int|
                    {
                        &&& 0 <= i < old(self)@.len()
                        &&& p == old(self)@[i]
                        &&& bit_set(bf.bf@, old(self)@[i].1 as int)
                        &&& (forall|j: int|
                            0 <= j < i ==> !bit_set(bf.bf@, (#[trigger] old(self)@[j]).1 as int))
                        &&& final(self)@ == old(self)@.remove(i)
                    },
                None => {
                    &&& final(self)@ == old(self)@
                    &&& forall|j: int|
                        0 <= j < old(self)@.len() ==> !bit_set(
                            bf.bf@,
                            (#[trigger] old(self)@[j]).1 as int,
                        )
                },
            },
    {
        let n = self.q.len();
        let mut i: usize = 0;
        while i < n
            invariant
                n == self.q@.len(),
                0 <= i <= n,
                self.q@ == old(self)@,
                forall|j: int| 0 <= j < i ==> !bit_set(bf.bf@, (#[trigger] self.q@[j]).1 as int),
            decreases n - i,
        {
            let idx = self.q[i].1;
            if bf.has(idx as usize) {
                let p = self.q.remove(i);
                match p {
                    Some(p) => {
                        return Some(p);
                    },
                    None => {
                        return None;
                    },
                }
            }
            i += 1;
        }
        None
    }
}

} // verus!
