//! Cooperative multitasking: saved-register contexts, per-task control
//! blocks, and a strict round-robin scheduler.
//!
//! The scheduler only decides; the register-context switch itself is a
//! platform primitive outside this crate.  A decision step hands back the
//! indices of the outgoing and incoming tasks, whose context slots the
//! switch primitive then saves into and restores from.

use vstd::prelude::*;

verus! {

/// Minimal register snapshot sufficient to resume a suspended task on the
/// same kernel stack: return address, stack pointer, and the twelve
/// callee-saved registers, in the order the switch primitive expects.
#[derive(Copy, Clone, Debug)]
pub struct TaskContext {
    pub ra: u64,
    pub sp: u64,
    pub s: [u64; 12],
}

impl TaskContext {
    /// The context that, when restored, starts running at `entry` on the
    /// stack topped by `kstack_ptr`.
    pub fn goto_restore(kstack_ptr: u64, entry: u64) -> (r: Self)
        ensures
            r.ra == entry,
            r.sp == kstack_ptr,
            forall|i: int| 0 <= i < 12 ==> r.s@[i] == 0,
    {
        TaskContext { ra: entry, sp: kstack_ptr, s: [0; 12] }
    }

    /// The all-zero context: an initialisation placeholder, never a switch
    /// target.
    pub fn zero_init() -> (r: Self)
        ensures
            r.ra == 0,
            r.sp == 0,
            forall|i: int| 0 <= i < 12 ==> r.s@[i] == 0,
    {
        TaskContext { ra: 0, sp: 0, s: [0; 12] }
    }
}

/// What a task may be doing.
#[derive(Copy, Clone, PartialEq, Eq, Structural, Debug)]
pub enum TaskStatus {
    /// Eligible to run.
    Ready,
    /// On the hart now; exactly one task at a time once scheduling starts.
    Running,
    /// Finished; never selected again.
    Exited,
}

/// One schedulable unit: its status and its saved context.
#[derive(Copy, Clone, Debug)]
pub struct TaskControlBlock {
    pub task_status: TaskStatus,
    pub task_cx: TaskContext,
}

/// The round-robin scheduler state: the task list and the index of the
/// task considered current.
pub struct TaskManager {
    pub inner: Vec<TaskControlBlock>,
    pub current_task: usize,
}

impl TaskManager {
    /// The current index points into the list, or the list is empty and
    /// the index still sits at zero.
    pub open spec fn wf(self) -> bool {
        self.current_task < self.inner@.len() || (self.inner@.len() == 0 && self.current_task
            == 0)
    }

    /// Cyclic distance from the current task to `j`, counting forward:
    /// the next index has distance 1, the current one itself distance n.
    pub open spec fn dist(self, j: int) -> int {
        if j > self.current_task {
            j - self.current_task
        } else {
            j + self.inner@.len() - self.current_task
        }
    }

    /// `j` is what strict round robin picks: a Ready task at minimal
    /// cyclic distance from the current one.
    pub open spec fn is_next_choice(self, j: int) -> bool {
        &&& 0 <= j < self.inner@.len()
        &&& self.inner@[j].task_status == TaskStatus::Ready
        &&& forall|k: int|
            0 <= k < self.inner@.len() && (#[trigger] self.inner@[k]).task_status
                == TaskStatus::Ready ==> self.dist(j) <= self.dist(k)
    }

    /// A manager with no tasks.
    pub fn new() -> (r: Self)
        ensures
            r.inner@.len() == 0,
            r.current_task == 0,
            r.wf(),
    {
        TaskManager { inner: Vec::new(), current_task: 0 }
    }

    /// Append a task to the end of the list.
    pub fn add_task(&mut self, task: TaskControlBlock)
        requires
            old(self).wf(),
        ensures
            final(self).wf(),
            final(self).inner@ == old(self).inner@.push(task),
            final(self).current_task == old(self).current_task,
    {
        self.inner.push(task);
    }

    /// The task strict round robin would run next: the first Ready task
    /// scanning from just after the current one, wrapping once; nothing
    /// when no task is Ready at all.
    pub fn find_next_task(&self) -> (r: Option<usize>)
        requires
            self.wf(),
        ensures
            match r {
                Some(j) => self.is_next_choice(j as int),
                None => forall|k: int|
                    0 <= k < self.inner@.len() ==> (#[trigger] self.inner@[k]).task_status
                        != TaskStatus::Ready,
            },
    {
        let n = self.inner.len();
        if n == 0 {
            return None;
        }
        let cur = self.current_task;
        let mut j = cur + 1;
        while j < n
            invariant
                self.wf(),
                n == self.inner@.len(),
                cur == self.current_task,
                cur < n,
                cur + 1 <= j <= n,
                forall|k: int|
                    cur < k < j ==> (#[trigger] self.inner@[k]).task_status != TaskStatus::Ready,
            decreases n - j,
        {
            if self.inner[j].task_status == TaskStatus::Ready {
                return Some(j);
            }
            j = j + 1;
        }
        let mut j2: usize = 0;
        while j2 <= cur
            invariant
                self.wf(),
                n == self.inner@.len(),
                cur == self.current_task,
                cur < n,
                0 <= j2 <= cur + 1,
                forall|k: int|
                    cur < k < n ==> (#[trigger] self.inner@[k]).task_status != TaskStatus::Ready,
                forall|k: int|
                    0 <= k < j2 ==> (#[trigger] self.inner@[k]).task_status != TaskStatus::Ready,
            decreases cur + 1 - j2,
        {
            if self.inner[j2].task_status == TaskStatus::Ready {
                return Some(j2);
            }
            j2 = j2 + 1;
        }
        None
    }

    /// One scheduling step: pick the round-robin successor, mark the
    /// current task Ready and the successor Running, move the current
    /// index to it, and hand back both indices so the caller can switch
    /// contexts.  When no task is Ready nothing changes.
    pub fn find_next_task_cx(&mut self) -> (r: Option<(usize, usize)>)
        requires
            old(self).wf(),
        ensures
            final(self).wf(),
            match r {
                None => *final(self) == *old(self) && (forall|k: int|
                    0 <= k < old(self).inner@.len() ==> (#[trigger] old(
                        self,
                    ).inner@[k]).task_status != TaskStatus::Ready),
                Some((cur, next)) => {
                    &&& cur == old(self).current_task
                    &&& old(self).is_next_choice(next as int)
                    &&& final(self).current_task == next
                    &&& final(self).inner@ == old(self).inner@.update(
                        cur as int,
                        (TaskControlBlock {
                            task_status: TaskStatus::Ready,
                            task_cx: old(self).inner@[cur as int].task_cx,
                        }),
                    ).update(
                        next as int,
                        (TaskControlBlock {
                            task_status: TaskStatus::Running,
                            task_cx: old(self).inner@[next as int].task_cx,
                        }),
                    )
                },
            },
    {
        match self.find_next_task() {
            None => None,
            Some(next) => {
                let current = self.current_task;
                let mut outgoing = self.inner[current];
                outgoing.task_status = TaskStatus::Ready;
                self.inner.set(current, outgoing);
                let mut incoming = self.inner[next];
                incoming.task_status = TaskStatus::Running;
                self.inner.set(next, incoming);
                self.current_task = next;
                Some((current, next))
            },
        }
    }
}


/// Exactly one task is Running once scheduling has started: when the only
/// Running task (if any) is the current one, the state a scheduling step
/// leaves behind has the new current task Running and no other.
pub proof fn lemma_single_running_preserved(
    pre: TaskManager,
    post: TaskManager,
    cur: usize,
    next: usize,
)
    requires
        pre.wf(),
        forall|k: int|
            0 <= k < pre.inner@.len() && (#[trigger] pre.inner@[k]).task_status
                == TaskStatus::Running ==> k == pre.current_task,
        cur == pre.current_task,
        0 <= next < pre.inner@.len(),
        post.current_task == next,
        post.inner@ == pre.inner@.update(
            cur as int,
            (TaskControlBlock {
                task_status: TaskStatus::Ready,
                task_cx: pre.inner@[cur as int].task_cx,
            }),
        ).update(
            next as int,
            (TaskControlBlock {
                task_status: TaskStatus::Running,
                task_cx: pre.inner@[next as int].task_cx,
            }),
        ),
    ensures
        post.inner@[post.current_task as int].task_status == TaskStatus::Running,
        forall|k: int|
            0 <= k < post.inner@.len() && (#[trigger] post.inner@[k]).task_status
                == TaskStatus::Running ==> k == post.current_task,
{
    assert forall|k: int|
        0 <= k < post.inner@.len() && (#[trigger] post.inner@[k]).task_status
            == TaskStatus::Running implies k == post.current_task by {
        if k != next as int && k != cur as int {
            assert(post.inner@[k] == pre.inner@[k]);
        }
    }
}

} // verus!
