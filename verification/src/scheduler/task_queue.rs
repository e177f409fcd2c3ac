//! The queue of tasks that the worker threads share.

use std::collections::VecDeque;

use vstd::prelude::*;

verus! {

/// A unit of work for the worker threads.
pub trait Task {
    /// Does a share of the work.
    fn execute(&self);

    /// Whether all of the work is done.
    fn completed(&self) -> bool;

    /// Whether several workers may execute the task at once.
    fn multithreaded(&self) -> bool;
}

/// What a worker that asks for a task does next.
pub enum Dispatch<T> {
    /// The queue is empty: wait until a task is scheduled.
    Wait,
    /// Nothing is left to run: every task that was waiting had completed.
    Idle,
    /// Execute `task`; wake another worker first if `wake_another`.
    Run { task: T, wake_another: bool },
}

/// Tasks in the order in which the workers take them up.
pub struct TaskQueue<T> {
    queue: VecDeque<T>,
}

impl<T> View for TaskQueue<T> {
    type V = Seq<T>;

    /// The waiting tasks, the next one first.
    closed spec fn view(&self) -> Seq<T> {
        self.queue@
    }
}

impl<T: Task + Clone> TaskQueue<T> {
    /// An empty queue.
    pub fn new() -> (queue: TaskQueue<T>)
        ensures
            queue@ == Seq::<T>::empty(),
    {
        TaskQueue { queue: VecDeque::new() }
    }

    /// Number of waiting tasks.
    pub fn len(&self) -> (n: usize)
        ensures
            n == self@.len(),
    {
        self.queue.len()
    }

    /// Appends `task` to the queue.
    pub fn schedule(&mut self, task: T)
        ensures
            final(self)@ == old(self)@.push(task),
    {
        self.queue.push_back(task);
    }

    /// Removes all waiting tasks. Tasks that workers execute are not affected.
    pub fn drop_pending_tasks(&mut self)
        ensures
            final(self)@ == Seq::<T>::empty(),
    {
        self.queue.clear();
    }

    /// Decides what becomes of `task`, which was taken from the front of the
    /// queue, given whether it has completed and whether several workers may
    /// execute it. A task that has completed is dropped. Any other task is
    /// handed out, and one that several workers may execute is put back at
    /// the front of the queue for the next worker. The worker wakes another
    /// if tasks are left in the queue.
    pub fn hand_out(&mut self, task: T, completed: bool, multithreaded: bool) -> (next: Option<
        Dispatch<T>,
    >)
        ensures
            match next {
                None => completed && final(self)@ == old(self)@,
                Some(Dispatch::Run { task: handed, wake_another }) => {
                    &&& !completed
                    &&& handed == task
                    &&& wake_another == (multithreaded || old(self)@.len() > 0)
                    &&& if multithreaded {
                        &&& final(self)@.len() == old(self)@.len() + 1
                        &&& final(self)@.drop_first() == old(self)@
                        &&& cloned(task, final(self)@[0])
                    } else {
                        final(self)@ == old(self)@
                    }
                },
                Some(_) => false,
            },
    {
        if completed {
            return None;
        }
        if multithreaded {
            let again = task.clone();
            self.queue.push_front(again);
            assert(self@.drop_first() =~= old(self)@);
        }
        let wake_another = self.queue.len() > 0;
        Some(Dispatch::Run { task, wake_another })
    }

    /// Hands out the next task: the first in the queue that has not
    /// completed. The tasks ahead of it, which have, leave the queue. A task
    /// that several workers may execute stays at the front of the queue for
    /// the next worker.
    pub fn await_task(&mut self) -> (next: Dispatch<T>)
        ensures
            match next {
                Dispatch::Wait => old(self)@.len() == 0 && final(self)@ == old(self)@,
                Dispatch::Idle => old(self)@.len() > 0 && final(self)@.len() == 0,
                Dispatch::Run { task, wake_another } => exists|p: int|
                    {
                        &&& 0 <= p < old(self)@.len()
                        &&& task == #[trigger] old(self)@[p]
                        &&& final(self)@ == old(self)@.skip(p + 1) || (final(self)@.len() > 0
                            && final(self)@.drop_first() == old(self)@.skip(p + 1) && cloned(
                            task,
                            final(self)@[0],
                        ))
                        &&& wake_another == (final(self)@.len() > 0)
                    },
            },
    {
        if self.queue.len() == 0 {
            return Dispatch::Wait;
        }
        let ghost mut dropped: int = 0;
        assert(self@.skip(0) =~= self@);
        loop
            invariant
                0 <= dropped <= old(self)@.len(),
                old(self)@.len() > 0,
                self@ == old(self)@.skip(dropped),
            decreases self@.len(),
        {
            match self.queue.pop_front() {
                Some(task) => {
                    proof {
                        assert(task == old(self)@[dropped]);
                        assert(self@ =~= old(self)@.skip(dropped + 1));
                    }
                    let completed = task.completed();
                    let multithreaded = !completed && task.multithreaded();
                    match self.hand_out(task, completed, multithreaded) {
                        Some(next) => {
                            return next;
                        },
                        None => {
                            proof {
                                dropped = dropped + 1;
                            }
                        },
                    }
                },
                None => {
                    return Dispatch::Idle;
                },
            }
        }
    }
}

} // verus!
