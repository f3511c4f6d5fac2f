//! A bank: a named durable collection of task records with linear lookup.
//! Insertion appends; deletion swap-removes, so iteration order is not
//! preserved across a delete.
use crate::task::{Task, TaskV};
use vstd::pervasive::VecAdditionalExecFns;
use vstd::prelude::*;

verus! {

/// Some record in `s` carries the identifier `id`.
pub open spec fn has_id(s: Seq<TaskV>, id: Seq<char>) -> bool {
    exists|i: int| 0 <= i < s.len() && s[i].metadata.id == id
}

/// The first position in `s` whose record carries `id`; `s.len()` when none
/// does.
pub open spec fn first_id_index(s: Seq<TaskV>, id: Seq<char>) -> int
    decreases s.len(),
{
    if s.len() == 0 {
        0
    } else if s[0].metadata.id == id {
        0
    } else {
        1 + first_id_index(s.drop_first(), id)
    }
}

/// What `first_id_index` points at: the first record carrying `id`, with
/// none before it.
pub proof fn lemma_first_id_index(s: Seq<TaskV>, id: Seq<char>)
    ensures
        has_id(s, id) ==> {
            let i = first_id_index(s, id);
            &&& 0 <= i < s.len()
            &&& s[i].metadata.id == id
            &&& forall|k: int| 0 <= k < i ==> s[k].metadata.id != id
        },
        !has_id(s, id) ==> first_id_index(s, id) == s.len(),
    decreases s.len(),
{
    if s.len() > 0 && s[0].metadata.id != id {
        let t = s.drop_first();
        lemma_first_id_index(t, id);
        assert(forall|j: int| 0 <= j < t.len() ==> t[j] == s[j + 1]);
        if has_id(s, id) {
            let w = choose|i: int| 0 <= i < s.len() && s[i].metadata.id == id;
            assert(t[w - 1].metadata.id == id);
            assert(has_id(t, id));
            let fi = first_id_index(t, id);
            assert(s[1 + fi].metadata.id == id);
            assert forall|k: int| 0 <= k < 1 + fi implies s[k].metadata.id != id by {
                if k > 0 {
                    assert(t[k - 1].metadata.id != id);
                }
            }
        } else {
            assert(!has_id(t, id)) by {
                if has_id(t, id) {
                    let w = choose|j: int| 0 <= j < t.len() && t[j].metadata.id == id;
                    assert(s[w + 1].metadata.id == id);
                }
            }
        }
    }
}

/// `s` with its first record carrying `t.metadata.id` overwritten by `t`;
/// `s` itself when no record carries it.
pub open spec fn replace_id(s: Seq<TaskV>, t: TaskV) -> Seq<TaskV> {
    if has_id(s, t.metadata.id) {
        s.update(first_id_index(s, t.metadata.id), t)
    } else {
        s
    }
}

/// `s` with its first record carrying `id` swap-removed: the last record
/// takes its place and the length shrinks by one. `s` itself when no record
/// carries `id`.
pub open spec fn swap_remove_id(s: Seq<TaskV>, id: Seq<char>) -> Seq<TaskV> {
    if has_id(s, id) {
        s.update(first_id_index(s, id), s.last()).drop_last()
    } else {
        s
    }
}

/// A named durable collection of task records.
pub struct Bank {
    pub tasks: Vec<Task>,
}

impl View for Bank {
    type V = Seq<TaskV>;

    open spec fn view(&self) -> Seq<TaskV> {
        self.tasks.deep_view()
    }
}

impl Bank {
    /// A bank with no records.
    pub fn empty() -> (r: Bank)
        ensures
            r@ =~= Seq::<TaskV>::empty(),
    {
        Bank { tasks: Vec::new() }
    }

    /// The number of records held.
    pub fn len(&self) -> (r: usize)
        ensures
            r == self@.len(),
    {
        self.tasks.len()
    }

    /// The record at position `i`.
    pub fn get(&self, i: usize) -> (r: &Task)
        requires
            i < self@.len(),
        ensures
            r@ == self@[i as int],
    {
        &self.tasks[i]
    }

    /// Append a record at the end.
    pub fn append(&mut self, task: Task)
        ensures
            final(self)@ =~= old(self)@.push(task@),
    {
        self.tasks.push(task)
    }

    /// Overwrite the first record whose id equals `updated_task`'s with
    /// `updated_task`; report whether one was found.
    pub fn update(&mut self, updated_task: Task) -> (r: bool)
        ensures
            r == has_id(old(self)@, updated_task@.metadata.id),
            final(self)@ == replace_id(old(self)@, updated_task@),
    {
        proof {
            lemma_first_id_index(old(self)@, updated_task@.metadata.id);
        }
        let mut i: usize = 0;
        while i < self.tasks.len()
            invariant
                self == old(self),
                i <= self@.len(),
                forall|k: int| 0 <= k < i ==> self@[k].metadata.id != updated_task@.metadata.id,
            decreases self@.len() - i,
        {
            if crate::task::str_eq(self.tasks[i].id(), updated_task.id()) {
                proof {
                    assert(self@[i as int].metadata.id == updated_task@.metadata.id);
                    assert(has_id(self@, updated_task@.metadata.id));
                    assert(first_id_index(self@, updated_task@.metadata.id) == i);
                }
                self.tasks.set(i, updated_task);
                proof {
                    assert(self@ =~= replace_id(old(self)@, updated_task@));
                }
                return true;
            }
            i += 1;
        }
        proof {
            assert(!has_id(self@, updated_task@.metadata.id));
        }
        false
    }

    /// Swap-remove the first record carrying `task_id`; report whether one
    /// was found.
    pub fn delete(&mut self, task_id: &str) -> (r: bool)
        ensures
            r == has_id(old(self)@, task_id@),
            final(self)@ == swap_remove_id(old(self)@, task_id@),
    {
        proof {
            lemma_first_id_index(old(self)@, task_id@);
        }
        let mut i: usize = 0;
        while i < self.tasks.len()
            invariant
                self == old(self),
                i <= self@.len(),
                forall|k: int| 0 <= k < i ==> self@[k].metadata.id != task_id@,
            decreases self@.len() - i,
        {
            if crate::task::str_eq(self.tasks[i].id(), task_id) {
                proof {
                    assert(self@[i as int].metadata.id == task_id@);
                    assert(has_id(self@, task_id@));
                    assert(first_id_index(self@, task_id@) == i);
                }
                self.tasks.swap_remove(i);
                proof {
                    assert(self@ =~= swap_remove_id(old(self)@, task_id@));
                }
                return true;
            }
            i += 1;
        }
        proof {
            assert(!has_id(self@, task_id@));
        }
        false
    }

    /// The first record carrying `task_id`, if any.
    pub fn find(&self, task_id: &str) -> (r: Option<&Task>)
        ensures
            r is Some <==> has_id(self@, task_id@),
            r is Some ==> r->0@ == self@[first_id_index(self@, task_id@)],
    {
        proof {
            lemma_first_id_index(self@, task_id@);
        }
        let mut i: usize = 0;
        while i < self.tasks.len()
            invariant
                i <= self@.len(),
                forall|k: int| 0 <= k < i ==> self@[k].metadata.id != task_id@,
            decreases self@.len() - i,
        {
            if crate::task::str_eq(self.tasks[i].id(), task_id) {
                proof {
                    assert(self@[i as int].metadata.id == task_id@);
                    assert(has_id(self@, task_id@));
                    assert(first_id_index(self@, task_id@) == i);
                }
                return Some(&self.tasks[i]);
            }
            i += 1;
        }
        proof {
            assert(!has_id(self@, task_id@));
        }
        None
    }
}

} // verus!
