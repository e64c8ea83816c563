use vstd::prelude::*;

verus! {

/// A last-in, first-out queue of class ids.
pub struct LifoQueue {
    items: Vec<usize>,
}

impl View for LifoQueue {
    type V = Seq<usize>;

    /// The queued ids, the head last.
    closed spec fn view(&self) -> Seq<usize> {
        self.items@
    }
}

impl LifoQueue {
    /// An empty queue.
    pub fn new() -> (r: LifoQueue)
        ensures
            r@ == Seq::<usize>::empty(),
    {
        LifoQueue { items: Vec::new() }
    }

    /// Adds `c` on top of the queue.
    pub fn enqueue(&mut self, c: usize)
        ensures
            final(self)@ == old(self)@.push(c),
    {
        self.items.push(c);
    }

    /// The most recently enqueued id, if any.
    pub fn head(&self) -> (r: Option<usize>)
        ensures
            self@.len() == 0 ==> r is None,
            self@.len() > 0 ==> r == Some(self@.last()),
    {
        if self.items.len() == 0 {
            None
        } else {
            Some(self.items[self.items.len() - 1])
        }
    }

    /// Removes the most recently enqueued id (nothing when empty).
    pub fn dequeue(&mut self)
        ensures
            old(self)@.len() == 0 ==> final(self)@ == old(self)@,
            old(self)@.len() > 0 ==> final(self)@ == old(self)@.drop_last(),
    {
        if self.items.len() > 0 {
            self.items.pop();
        }
    }

    /// Whether the queue holds no id.
    pub fn is_empty(&self) -> (r: bool)
        ensures
            r == (self@.len() == 0),
    {
        self.items.len() == 0
    }
}

} // verus!
