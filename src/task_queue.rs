use vstd::prelude::*;

verus! {

/// A submission refused because the queue was already closed; the task is
/// handed back to the caller untouched.
pub struct QueueClosed<T> {
    pub task: T,
}

/// The outcome of one non-blocking receive.
pub enum Received<T> {
    /// The oldest pending task, now owned by the receiver.
    Task(T),
    /// Nothing is pending but the queue is still open: the receiver should wait.
    Empty,
    /// Nothing is pending and the queue is closed: no task will ever come.
    Closed,
}

/// An unbounded FIFO of pending tasks with a one-way Open -> Closed switch.
/// A closed queue refuses new tasks and still yields those queued before.
pub struct TaskQueue<T> {
    pending: Vec<T>,
    closed: bool,
}

impl<T> TaskQueue<T> {
    /// The pending tasks, oldest first.
    pub closed spec fn pending(&self) -> Seq<T> {
        self.pending@
    }

    /// Whether the queue has been closed.
    pub closed spec fn is_closed_spec(&self) -> bool {
        self.closed
    }

    /// An open, empty queue.
    pub fn new() -> (q: Self)
        ensures
            q.pending() == Seq::<T>::empty(),
            !q.is_closed_spec(),
    {
        TaskQueue { pending: Vec::new(), closed: false }
    }

    /// Appends `task` at the tail if the queue is open; otherwise hands it back.
    pub fn send(&mut self, task: T) -> (r: Result<(), QueueClosed<T>>)
        ensures
            final(self).is_closed_spec() == old(self).is_closed_spec(),
            old(self).is_closed_spec() ==> (r matches Err(e) && e.task == task)
                && final(self).pending() == old(self).pending(),
            !old(self).is_closed_spec() ==> r is Ok && final(self).pending() == old(
                self,
            ).pending().push(task),
    {
        if self.closed {
            Err(QueueClosed { task })
        } else {
            self.pending.push(task);
            Ok(())
        }
    }

    /// Takes the oldest pending task, or reports why there is none.
    pub fn receive(&mut self) -> (r: Received<T>)
        ensures
            final(self).is_closed_spec() == old(self).is_closed_spec(),
            old(self).pending().len() > 0 ==> r == Received::Task(old(self).pending()[0])
                && final(self).pending() == old(self).pending().drop_first(),
            old(self).pending().len() == 0 ==> final(self).pending() == old(self).pending() && (
            if old(self).is_closed_spec() {
                r is Closed
            } else {
                r is Empty
            }),
    {
        if self.pending.len() > 0 {
            let t = self.pending.remove(0);
            Received::Task(t)
        } else if self.closed {
            Received::Closed
        } else {
            Received::Empty
        }
    }

    /// Switches the queue to Closed; pending tasks stay.
    pub fn close(&mut self)
        ensures
            final(self).is_closed_spec(),
            final(self).pending() == old(self).pending(),
    {
        self.closed = true;
    }

    pub fn is_closed(&self) -> (r: bool)
        ensures
            r == self.is_closed_spec(),
    {
        self.closed
    }

    /// Number of pending tasks.
    pub fn len(&self) -> (r: usize)
        ensures
            r == self.pending().len(),
    {
        self.pending.len()
    }
}

} // verus!
