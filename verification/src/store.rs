//! The store: sole owner of the in-memory state of the four backing files
//! and sole mutation surface. Every state-changing operation also records an
//! inverse-describing undo entry.
//!
//! Loading and saving the files is the caller's business: each sub-state is
//! an `Option`, `None` until a caller installs the decoded file, and every
//! operation requires the sub-states it reads to be installed.
use crate::bank::{
    first_id_index, has_id, lemma_first_id_index, replace_id, swap_remove_id, Bank,
};
use crate::last::Last;
use crate::task::{completed_view, lemma_filter_push, mass_matches, Task, TaskV};
use crate::undobank::{BankName, UndoBank, UndoItem, UndoItemV};
use vstd::prelude::*;
use vstd::string::*;
use vstd::utf8::*;

verus! {

/// Why a store operation could not complete.
#[derive(Clone, Copy, PartialEq, Eq, Structural, Debug)]
pub enum StoreError {
    /// The target id was absent during a delete or an overwrite.
    NotFound,
    /// Undo was asked for with nothing left to reverse.
    EmptyLog,
}

impl StoreError {
    /// A short report of the failure.
    pub fn message(&self) -> String {
        match self {
            StoreError::NotFound => "Could not find task in active list".to_owned(),
            StoreError::EmptyLog => "No more undo items.".to_owned(),
        }
    }
}

/// The in-memory image of the storage directory. A `None` sub-state has not
/// been loaded; a loaded sub-state is written back at process end by the
/// caller.
pub struct Store {
    pub active: Option<Bank>,
    pub closed: Option<Bank>,
    pub undo: Option<UndoBank>,
    pub last: Option<Last>,
}

impl Store {
    /// The records of the active bank (meaningful when it is installed).
    pub open spec fn active_v(&self) -> Seq<TaskV> {
        self.active->0@
    }

    /// The records of the closed bank (meaningful when it is installed).
    pub open spec fn closed_v(&self) -> Seq<TaskV> {
        self.closed->0@
    }

    /// The undo entries (meaningful when the log is installed).
    pub open spec fn undo_v(&self) -> Seq<UndoItemV> {
        self.undo->0@
    }

    /// The last-pointer (meaningful when it is installed).
    pub open spec fn last_v(&self) -> Option<Seq<char>> {
        self.last->0@
    }

    /// The bank named `name`, as a sequence of records.
    pub open spec fn bank_v(&self, name: BankName) -> Seq<TaskV> {
        match name {
            BankName::Active => self.active_v(),
            BankName::Closed => self.closed_v(),
        }
    }

    /// A store with nothing loaded.
    pub fn new() -> (r: Store)
        ensures
            r.active is None,
            r.closed is None,
            r.undo is None,
            r.last is None,
    {
        Store { active: None, closed: None, undo: None, last: None }
    }

    /// Whether the active bank is installed.
    pub fn active_loaded(&self) -> (r: bool)
        ensures
            r == (self.active is Some),
    {
        self.active.is_some()
    }

    /// Whether the closed bank is installed.
    pub fn closed_loaded(&self) -> (r: bool)
        ensures
            r == (self.closed is Some),
    {
        self.closed.is_some()
    }

    /// Whether the undo log is installed.
    pub fn undo_loaded(&self) -> (r: bool)
        ensures
            r == (self.undo is Some),
    {
        self.undo.is_some()
    }

    /// Whether the last-pointer is installed.
    pub fn last_loaded(&self) -> (r: bool)
        ensures
            r == (self.last is Some),
    {
        self.last.is_some()
    }

    /// Install the decoded active bank; at most once per run.
    pub fn install_active(&mut self, bank: Bank)
        requires
            old(self).active is None,
        ensures
            final(self).active is Some && final(self).active_v() == bank@,
            final(self).closed == old(self).closed,
            final(self).undo == old(self).undo,
            final(self).last == old(self).last,
    {
        self.active = Some(bank);
    }

    /// Install the decoded closed bank; at most once per run.
    pub fn install_closed(&mut self, bank: Bank)
        requires
            old(self).closed is None,
        ensures
            final(self).closed is Some && final(self).closed_v() == bank@,
            final(self).active == old(self).active,
            final(self).undo == old(self).undo,
            final(self).last == old(self).last,
    {
        self.closed = Some(bank);
    }

    /// Install the decoded undo log; at most once per run.
    pub fn install_undo(&mut self, undo: UndoBank)
        requires
            old(self).undo is None,
        ensures
            final(self).undo is Some && final(self).undo_v() == undo@,
            final(self).active == old(self).active,
            final(self).closed == old(self).closed,
            final(self).last == old(self).last,
    {
        self.undo = Some(undo);
    }

    /// Install the decoded last-pointer; at most once per run.
    pub fn install_last(&mut self, last: Last)
        requires
            old(self).last is None,
        ensures
            final(self).last is Some && final(self).last_v() == last@,
            final(self).active == old(self).active,
            final(self).closed == old(self).closed,
            final(self).undo == old(self).undo,
    {
        self.last = Some(last);
    }

    /// Hand the active bank back for write-back, leaving it uninstalled.
    pub fn take_active(&mut self) -> (r: Option<Bank>)
        ensures
            r == old(self).active,
            final(self).active is None,
            final(self).closed == old(self).closed,
            final(self).undo == old(self).undo,
            final(self).last == old(self).last,
    {
        self.active.take()
    }

    /// Hand the closed bank back for write-back, leaving it uninstalled.
    pub fn take_closed(&mut self) -> (r: Option<Bank>)
        ensures
            r == old(self).closed,
            final(self).closed is None,
            final(self).active == old(self).active,
            final(self).undo == old(self).undo,
            final(self).last == old(self).last,
    {
        self.closed.take()
    }

    /// Hand the undo log back for write-back, leaving it uninstalled.
    pub fn take_undo(&mut self) -> (r: Option<UndoBank>)
        ensures
            r == old(self).undo,
            final(self).undo is None,
            final(self).active == old(self).active,
            final(self).closed == old(self).closed,
            final(self).last == old(self).last,
    {
        self.undo.take()
    }

    /// Hand the last-pointer back for write-back, leaving it uninstalled.
    pub fn take_last(&mut self) -> (r: Option<Last>)
        ensures
            r == old(self).last,
            final(self).last is None,
            final(self).active == old(self).active,
            final(self).closed == old(self).closed,
            final(self).undo == old(self).undo,
    {
        self.last.take()
    }

    /// Append `task` to the bank named `bank`.
    pub fn add_item(&mut self, task: Task, bank: BankName)
        requires
            match bank {
                BankName::Active => old(self).active is Some,
                BankName::Closed => old(self).closed is Some,
            },
        ensures
            final(self).active is Some <==> old(self).active is Some,
            final(self).closed is Some <==> old(self).closed is Some,
            final(self).bank_v(bank) == old(self).bank_v(bank).push(task@),
            bank != BankName::Active ==> final(self).active == old(self).active,
            bank != BankName::Closed ==> final(self).closed == old(self).closed,
            final(self).undo == old(self).undo,
            final(self).last == old(self).last,
    {
        match bank {
            BankName::Active => {
                if let Some(b) = self.active.as_mut() {
                    b.append(task);
                }
            },
            BankName::Closed => {
                if let Some(b) = self.closed.as_mut() {
                    b.append(task);
                }
            },
        }
    }

    /// Swap-remove the first record carrying `task`'s id from the bank named
    /// `bank`; report whether one was found.
    pub fn delete_item(&mut self, bank: BankName, task: &Task) -> (r: bool)
        requires
            match bank {
                BankName::Active => old(self).active is Some,
                BankName::Closed => old(self).closed is Some,
            },
        ensures
            r == has_id(old(self).bank_v(bank), task@.metadata.id),
            final(self).active is Some <==> old(self).active is Some,
            final(self).closed is Some <==> old(self).closed is Some,
            final(self).bank_v(bank) == swap_remove_id(old(self).bank_v(bank), task@.metadata.id),
            bank != BankName::Active ==> final(self).active == old(self).active,
            bank != BankName::Closed ==> final(self).closed == old(self).closed,
            final(self).undo == old(self).undo,
            final(self).last == old(self).last,
    {
        match bank {
            BankName::Active => {
                if let Some(b) = self.active.as_mut() {
                    b.delete(task.id())
                } else {
                    false
                }
            },
            BankName::Closed => {
                if let Some(b) = self.closed.as_mut() {
                    b.delete(task.id())
                } else {
                    false
                }
            },
        }
    }

    /// Overwrite the record carrying `updated`'s id in the bank named `bank`
    /// with `updated`, ignoring its current content; report whether one was
    /// found.
    pub fn force_update_item(&mut self, bank: BankName, updated: Task) -> (r: bool)
        requires
            match bank {
                BankName::Active => old(self).active is Some,
                BankName::Closed => old(self).closed is Some,
            },
        ensures
            r == has_id(old(self).bank_v(bank), updated@.metadata.id),
            final(self).active is Some <==> old(self).active is Some,
            final(self).closed is Some <==> old(self).closed is Some,
            final(self).bank_v(bank) == replace_id(old(self).bank_v(bank), updated@),
            bank != BankName::Active ==> final(self).active == old(self).active,
            bank != BankName::Closed ==> final(self).closed == old(self).closed,
            final(self).undo == old(self).undo,
            final(self).last == old(self).last,
    {
        match bank {
            BankName::Active => {
                if let Some(b) = self.active.as_mut() {
                    b.update(updated)
                } else {
                    false
                }
            },
            BankName::Closed => {
                if let Some(b) = self.closed.as_mut() {
                    b.update(updated)
                } else {
                    false
                }
            },
        }
    }
}

/// The two banks and a success flag, after applying undo entries as far as
/// execution gets.
pub struct UndoOutcome {
    pub active: Seq<TaskV>,
    pub closed: Seq<TaskV>,
    pub ok: bool,
}

/// Whether undoing `item` reads or writes the bank named `b`.
pub open spec fn touches(item: UndoItemV, b: BankName) -> bool
    decreases item, 1int,
{
    match item {
        UndoItemV::Add { .. } => b == BankName::Active,
        UndoItemV::Move { from, to, .. } => b == from || b == to,
        UndoItemV::Change { in_bank, .. } => b == in_bank,
        UndoItemV::Sequence(items) => touches_any(items, b),
    }
}

/// Whether undoing any entry of `items` touches the bank named `b`.
pub open spec fn touches_any(items: Seq<UndoItemV>, b: BankName) -> bool
    decreases items, 0int,
{
    exists|i: int| 0 <= i < items.len() && touches(#[trigger] items[i], b)
}

/// Pick one of the two banks by name.
pub open spec fn named_bank(active: Seq<TaskV>, closed: Seq<TaskV>, name: BankName) -> Seq<TaskV> {
    match name {
        BankName::Active => active,
        BankName::Closed => closed,
    }
}

/// Put `bank` in the slot named `name`.
pub open spec fn with_named_bank(
    active: Seq<TaskV>,
    closed: Seq<TaskV>,
    name: BankName,
    bank: Seq<TaskV>,
) -> (Seq<TaskV>, Seq<TaskV>) {
    match name {
        BankName::Active => (bank, closed),
        BankName::Closed => (active, bank),
    }
}

/// The state after moving `task` from the bank named `from` to the bank
/// named `to`: the first record carrying its id is swap-removed from `from`
/// and, when one was found, `task` is appended to `to`. When none was found
/// nothing changes and the move fails.
pub open spec fn move_applied(
    active: Seq<TaskV>,
    closed: Seq<TaskV>,
    task: TaskV,
    from: BankName,
    to: BankName,
) -> UndoOutcome {
    if has_id(named_bank(active, closed, from), task.metadata.id) {
        let deleted = with_named_bank(
            active,
            closed,
            from,
            swap_remove_id(named_bank(active, closed, from), task.metadata.id),
        );
        let appended = with_named_bank(
            deleted.0,
            deleted.1,
            to,
            named_bank(deleted.0, deleted.1, to).push(task),
        );
        UndoOutcome { active: appended.0, closed: appended.1, ok: true }
    } else {
        UndoOutcome { active, closed, ok: false }
    }
}

/// The state after undoing `item` against the two banks, applied as far as
/// execution gets: an `Add` deletes the record from the active bank; a
/// `Move` moves the record from its `to` bank back to its `from` bank; a
/// `Change` overwrites the record in its bank with the pre-image; a
/// `Sequence` is undone back to front, stopping at the first failure. A step
/// whose target id is absent fails and changes nothing further.
pub open spec fn undo_apply(active: Seq<TaskV>, closed: Seq<TaskV>, item: UndoItemV) -> UndoOutcome
    decreases item, 1int,
{
    match item {
        UndoItemV::Add { new_task } => {
            if has_id(active, new_task.metadata.id) {
                UndoOutcome {
                    active: swap_remove_id(active, new_task.metadata.id),
                    closed,
                    ok: true,
                }
            } else {
                UndoOutcome { active, closed, ok: false }
            }
        },
        UndoItemV::Move { task, from, to } => move_applied(active, closed, task, to, from),
        UndoItemV::Change { from, to: _, in_bank } => {
            if has_id(named_bank(active, closed, in_bank), from.metadata.id) {
                let replaced = with_named_bank(
                    active,
                    closed,
                    in_bank,
                    replace_id(named_bank(active, closed, in_bank), from),
                );
                UndoOutcome { active: replaced.0, closed: replaced.1, ok: true }
            } else {
                UndoOutcome { active, closed, ok: false }
            }
        },
        UndoItemV::Sequence(items) => undo_apply_rev(active, closed, items),
    }
}

/// Undo a sequence of entries in reverse order (last applied first),
/// stopping at the first failure.
pub open spec fn undo_apply_rev(
    active: Seq<TaskV>,
    closed: Seq<TaskV>,
    items: Seq<UndoItemV>,
) -> UndoOutcome
    decreases items, 0int,
{
    if items.len() == 0 {
        UndoOutcome { active, closed, ok: true }
    } else {
        let first = undo_apply(active, closed, items.last());
        if !first.ok {
            first
        } else {
            undo_apply_rev(first.active, first.closed, items.drop_last())
        }
    }
}

/// Undoing a concatenation undoes the suffix first and, when that succeeds,
/// goes on with the prefix.
pub proof fn lemma_undo_apply_rev_split(
    active: Seq<TaskV>,
    closed: Seq<TaskV>,
    pre: Seq<UndoItemV>,
    suf: Seq<UndoItemV>,
)
    ensures
        undo_apply_rev(active, closed, pre + suf) == ({
            let r = undo_apply_rev(active, closed, suf);
            if !r.ok {
                r
            } else {
                undo_apply_rev(r.active, r.closed, pre)
            }
        }),
    decreases suf.len(),
{
    if suf.len() == 0 {
        assert(pre + suf =~= pre);
    } else {
        assert((pre + suf).last() == suf.last());
        assert((pre + suf).drop_last() =~= pre + suf.drop_last());
        let first = undo_apply(active, closed, suf.last());
        if first.ok {
            lemma_undo_apply_rev_split(first.active, first.closed, pre, suf.drop_last());
        }
    }
}

/// A bank that no entry of `item` touches comes out of `undo_apply`
/// unchanged: this is why `undo` only needs the touched banks loaded, and
/// why a file never loaded is never changed.
pub proof fn lemma_undo_apply_untouched(
    active: Seq<TaskV>,
    closed: Seq<TaskV>,
    item: UndoItemV,
)
    ensures
        !touches(item, BankName::Active) ==> undo_apply(active, closed, item).active == active,
        !touches(item, BankName::Closed) ==> undo_apply(active, closed, item).closed == closed,
    decreases item, 1int,
{
    match item {
        UndoItemV::Sequence(items) => {
            lemma_undo_apply_rev_untouched(active, closed, items);
        },
        _ => {},
    }
}

impl Store {
    /// Point the last-pointer at `id`.
    pub fn point_last(&mut self, id: &str)
        requires
            old(self).last is Some,
        ensures
            final(self).last is Some && final(self).last_v() == Some(id@),
            final(self).active == old(self).active,
            final(self).closed == old(self).closed,
            final(self).undo == old(self).undo,
    {
        if let Some(l) = self.last.as_mut() {
            l.last = Some(id.to_owned());
        }
    }

    /// Clear the last-pointer.
    pub fn clear_last(&mut self)
        requires
            old(self).last is Some,
        ensures
            final(self).last is Some && final(self).last_v() is None,
            final(self).active == old(self).active,
            final(self).closed == old(self).closed,
            final(self).undo == old(self).undo,
    {
        if let Some(l) = self.last.as_mut() {
            l.last = None;
        }
    }

    /// Move `task` from the bank named `from_bank` to the bank named
    /// `to_bank`; nothing changes when its id is not found in `from_bank`,
    /// and the failure is reported.
    pub fn move_item(&mut self, task: &Task, from_bank: BankName, to_bank: BankName) -> (r: bool)
        requires
            from_bank == BankName::Active || to_bank == BankName::Active ==> old(self).active
                is Some,
            from_bank == BankName::Closed || to_bank == BankName::Closed ==> old(self).closed
                is Some,
        ensures
            ({
                let out = move_applied(
                    old(self).active_v(),
                    old(self).closed_v(),
                    task@,
                    from_bank,
                    to_bank,
                );
                &&& r == out.ok
                &&& final(self).active_v() == out.active
                &&& final(self).closed_v() == out.closed
            }),
            final(self).active is Some <==> old(self).active is Some,
            final(self).closed is Some <==> old(self).closed is Some,
            final(self).undo == old(self).undo,
            final(self).last == old(self).last,
    {
        let ok = self.delete_item(from_bank, task);
        if ok {
            self.add_item(task.clone(), to_bank);
        }
        ok
    }

    /// Append `task` to the active bank, point the last-pointer at it and
    /// push the inverse (`Add`) on the undo log. Always succeeds.
    pub fn append(&mut self, task: Task) -> (r: Result<Task, StoreError>)
        requires
            old(self).active is Some,
            old(self).last is Some,
            old(self).undo is Some,
        ensures
            r is Ok && r->Ok_0@ == task@,
            final(self).active is Some && final(self).active_v() == old(self).active_v().push(
                task@,
            ),
            final(self).last is Some && final(self).last_v() == Some(task@.metadata.id),
            final(self).undo is Some && final(self).undo_v() == old(self).undo_v().push(
                UndoItemV::Add { new_task: task@ },
            ),
            final(self).closed == old(self).closed,
    {
        let copy = task.clone();
        if let Some(b) = self.active.as_mut() {
            b.append(task.clone());
        }
        self.point_last(task.id());
        if let Some(u) = self.undo.as_mut() {
            u.append(UndoItem::Add { new_task: task });
        }
        proof {
            assert(final(self).active_v() =~= old(self).active_v().push(copy@));
            assert(final(self).undo_v() =~= old(self).undo_v().push(
                UndoItemV::Add { new_task: copy@ },
            ));
        }
        Ok(copy)
    }

    /// Replace the record carrying `transformed`'s id in the active bank by
    /// `transformed` and push the inverse (`Change` back to `task`) on the
    /// undo log. The bank is left as it was when no record carries the id;
    /// the entry is pushed either way, as the operation reports success.
    pub fn update_item(&mut self, task: &Task, transformed: Task) -> (r: Result<
        Task,
        StoreError,
    >)
        requires
            old(self).active is Some,
            old(self).undo is Some,
        ensures
            r is Ok && r->Ok_0@ == transformed@,
            final(self).active is Some && final(self).active_v() == replace_id(
                old(self).active_v(),
                transformed@,
            ),
            final(self).undo is Some && final(self).undo_v() == old(self).undo_v().push(
                UndoItemV::Change {
                    from: task@,
                    to: transformed@,
                    in_bank: BankName::Active,
                },
            ),
            final(self).closed == old(self).closed,
            final(self).last == old(self).last,
    {
        let copy = transformed.clone();
        if let Some(b) = self.active.as_mut() {
            b.update(transformed.clone());
        }
        if let Some(u) = self.undo.as_mut() {
            u.append(UndoItem::Change {
                from: task.clone(),
                to: transformed,
                in_bank: BankName::Active,
            });
        }
        proof {
            assert(final(self).undo_v() =~= old(self).undo_v().push(
                UndoItemV::Change {
                    from: task@,
                    to: copy@,
                    in_bank: BankName::Active,
                },
            ));
        }
        Ok(copy)
    }
}

/// The undo entry that `retire_item` records: the record was overwritten by
/// its completed copy in the active bank, then the copy moved to the closed
/// bank.
pub open spec fn retire_undo_entry(task: TaskV, completed: TaskV) -> UndoItemV {
    UndoItemV::Sequence(
        seq![
            UndoItemV::Change { from: task, to: completed, in_bank: BankName::Active },
            UndoItemV::Move { task: completed, from: BankName::Active, to: BankName::Closed },
        ],
    )
}

impl Store {
    /// Retire `task` at time `now`: clear the last-pointer, stamp a
    /// completed copy, swap-remove the original from the active bank, append
    /// the copy to the closed bank and push the inverse on the undo log.
    /// Fails, changing nothing but the last-pointer, when no active record
    /// carries the id.
    pub fn retire_item_at(&mut self, task: &Task, now: i64) -> (r: Result<Task, StoreError>)
        requires
            old(self).active is Some,
            old(self).closed is Some,
            old(self).undo is Some,
            old(self).last is Some,
        ensures
            final(self).last is Some && final(self).last_v() is None,
            final(self).active is Some && final(self).closed is Some && final(self).undo is Some,
            has_id(old(self).active_v(), task@.metadata.id) ==> {
                let cv = completed_view(task@, now);
                &&& r is Ok && r->Ok_0@ == cv
                &&& final(self).active_v() == swap_remove_id(
                    old(self).active_v(),
                    task@.metadata.id,
                )
                &&& final(self).closed_v() == old(self).closed_v().push(cv)
                &&& final(self).undo_v() == old(self).undo_v().push(retire_undo_entry(task@, cv))
            },
            !has_id(old(self).active_v(), task@.metadata.id) ==> {
                &&& r is Err && r->Err_0 == StoreError::NotFound
                &&& final(self).active_v() == old(self).active_v()
                &&& final(self).closed == old(self).closed
                &&& final(self).undo == old(self).undo
            },
    {
        self.clear_last();
        let completed = task.completed_at(now);
        let ok = if let Some(b) = self.active.as_mut() {
            b.delete(task.id())
        } else {
            false
        };
        if !ok {
            return Err(StoreError::NotFound);
        }
        if let Some(b) = self.closed.as_mut() {
            b.append(completed.clone());
        }
        let mut steps: Vec<UndoItem> = Vec::new();
        steps.push(
            UndoItem::Change {
                in_bank: BankName::Active,
                from: task.clone(),
                to: completed.clone(),
            },
        );
        steps.push(
            UndoItem::Move {
                task: completed.clone(),
                from: BankName::Active,
                to: BankName::Closed,
            },
        );
        let entry = UndoItem::Sequence(steps);
        proof {
            let cv = completed_view(task@, now);
            match &entry {
                UndoItem::Sequence(s) => {
                    crate::undobank::lemma_undo_items_view(s@);
                    assert(crate::undobank::undo_items_view(s@) =~= seq![
                        UndoItemV::Change { from: task@, to: cv, in_bank: BankName::Active },
                        UndoItemV::Move {
                            task: cv,
                            from: BankName::Active,
                            to: BankName::Closed,
                        },
                    ]);
                },
                _ => {},
            }
            assert(entry@ == retire_undo_entry(task@, cv));
        }
        if let Some(u) = self.undo.as_mut() {
            u.append(entry);
        }
        proof {
            let cv = completed_view(task@, now);
            assert(self.undo_v() =~= old(self).undo_v().push(retire_undo_entry(task@, cv)));
        }
        Ok(completed)
    }

    /// Retire `task` at the present moment; the completed copy's
    /// last-completed stamp carries the time that was used.
    pub fn retire_item(&mut self, task: &Task) -> (r: Result<Task, StoreError>)
        requires
            old(self).active is Some,
            old(self).closed is Some,
            old(self).undo is Some,
            old(self).last is Some,
        ensures
            final(self).last is Some && final(self).last_v() is None,
            final(self).active is Some && final(self).closed is Some && final(self).undo is Some,
            has_id(old(self).active_v(), task@.metadata.id) ==> {
                let cv = completed_view(task@, r->Ok_0@.metadata.last_completed);
                &&& r is Ok && r->Ok_0@ == cv
                &&& final(self).active_v() == swap_remove_id(
                    old(self).active_v(),
                    task@.metadata.id,
                )
                &&& final(self).closed_v() == old(self).closed_v().push(cv)
                &&& final(self).undo_v() == old(self).undo_v().push(retire_undo_entry(task@, cv))
            },
            !has_id(old(self).active_v(), task@.metadata.id) ==> {
                &&& r is Err && r->Err_0 == StoreError::NotFound
                &&& final(self).active_v() == old(self).active_v()
                &&& final(self).closed == old(self).closed
                &&& final(self).undo == old(self).undo
            },
    {
        let now = crate::clock::now_seconds();
        self.retire_item_at(task, now)
    }
}

impl Store {
    /// Apply the inverse of one undo entry to the banks, as far as
    /// execution gets; report whether every step found its target.
    pub fn undo_item(&mut self, item: &UndoItem) -> (r: bool)
        requires
            touches(item@, BankName::Active) ==> old(self).active is Some,
            touches(item@, BankName::Closed) ==> old(self).closed is Some,
        ensures
            ({
                let out = undo_apply(old(self).active_v(), old(self).closed_v(), item@);
                &&& r == out.ok
                &&& final(self).active_v() == out.active
                &&& final(self).closed_v() == out.closed
            }),
            final(self).active is Some <==> old(self).active is Some,
            final(self).closed is Some <==> old(self).closed is Some,
            final(self).undo == old(self).undo,
            final(self).last == old(self).last,
        decreases *item,
    {
        match item {
            UndoItem::Add { new_task } => self.delete_item(BankName::Active, new_task),
            UndoItem::Move { task, from, to } => self.move_item(task, *to, *from),
            UndoItem::Change { from, to: _, in_bank } => self.force_update_item(
                *in_bank,
                from.clone(),
            ),
            UndoItem::Sequence(items) => {
                let ghost a0 = old(self).active_v();
                let ghost c0 = old(self).closed_v();
                let ghost ivs = crate::undobank::undo_items_view(items@);
                proof {
                    crate::undobank::lemma_undo_items_view(items@);
                    assert(ivs.skip(items@.len() as int) =~= Seq::<UndoItemV>::empty());
                }
                let mut i: usize = items.len();
                while i > 0
                    invariant
                        i <= items.len(),
                        undo_apply_rev(a0, c0, ivs.skip(i as int)).ok,
                        self.active_v() == undo_apply_rev(a0, c0, ivs.skip(i as int)).active,
                        self.closed_v() == undo_apply_rev(a0, c0, ivs.skip(i as int)).closed,
                        self.active is Some <==> old(self).active is Some,
                        self.closed is Some <==> old(self).closed is Some,
                        self.undo == old(self).undo,
                        self.last == old(self).last,
                    decreases i,
                {
                    i -= 1;
                    proof {
                        assert(ivs[i as int] == crate::undobank::undo_item_view(
                            items@[i as int],
                        ));
                        if touches(items@[i as int]@, BankName::Active) {
                            assert(touches(ivs[i as int], BankName::Active));
                            assert(touches_any(ivs, BankName::Active));
                        }
                        if touches(items@[i as int]@, BankName::Closed) {
                            assert(touches(ivs[i as int], BankName::Closed));
                            assert(touches_any(ivs, BankName::Closed));
                        }
                        assert(decreases_to!(*item => *items));
                        assert(decreases_to!(*items => items@));
                        assert(decreases_to!(items@ => items@[i as int]));
                    }
                    let ghost a_cur = self.active_v();
                    let ghost c_cur = self.closed_v();
                    let ok = self.undo_item(&items[i]);
                    proof {
                        reveal_with_fuel(undo_apply_rev, 3);
                        let step = undo_apply(a_cur, c_cur, ivs[i as int]);
                        assert(seq![ivs[i as int]].last() == ivs[i as int]);
                        assert(seq![ivs[i as int]].drop_last() =~= Seq::<UndoItemV>::empty());
                        assert(undo_apply_rev(a_cur, c_cur, seq![ivs[i as int]]) == step);
                        lemma_undo_apply_rev_split(a0, c0, seq![ivs[i as int]], ivs.skip(i + 1));
                        assert(seq![ivs[i as int]] + ivs.skip(i + 1) =~= ivs.skip(i as int));
                    }
                    if !ok {
                        proof {
                            lemma_undo_apply_rev_split(
                                a0,
                                c0,
                                ivs.subrange(0, i as int),
                                ivs.skip(i as int),
                            );
                            assert(ivs.subrange(0, i as int) + ivs.skip(i as int) =~= ivs);
                        }
                        return false;
                    }
                }
                proof {
                    assert(ivs.skip(0) =~= ivs);
                }
                true
            },
        }
    }

    /// Pop the most recent undo entry, clear the last-pointer and apply the
    /// entry's inverse. Fails with `EmptyLog` when nothing is left to
    /// reverse, and with `NotFound` when a step's target id is absent (the
    /// entry stays popped, the steps before the failing one stay applied).
    pub fn undo(&mut self) -> (r: Result<UndoItem, StoreError>)
        requires
            old(self).last is Some,
            old(self).undo is Some,
            old(self).undo_v().len() > 0 ==> {
                let it = old(self).undo_v().last();
                &&& touches(it, BankName::Active) ==> old(self).active is Some
                &&& touches(it, BankName::Closed) ==> old(self).closed is Some
            },
        ensures
            final(self).last is Some && final(self).last_v() is None,
            final(self).undo is Some,
            final(self).active is Some <==> old(self).active is Some,
            final(self).closed is Some <==> old(self).closed is Some,
            old(self).undo_v().len() == 0 ==> {
                &&& r is Err && r->Err_0 == StoreError::EmptyLog
                &&& final(self).undo_v() == old(self).undo_v()
                &&& final(self).active == old(self).active
                &&& final(self).closed == old(self).closed
            },
            old(self).undo_v().len() > 0 ==> {
                let it = old(self).undo_v().last();
                let out = undo_apply(old(self).active_v(), old(self).closed_v(), it);
                &&& final(self).undo_v() == old(self).undo_v().drop_last()
                &&& final(self).active_v() == out.active
                &&& final(self).closed_v() == out.closed
                &&& out.ok ==> r is Ok && r->Ok_0@ == it
                &&& !out.ok ==> r is Err && r->Err_0 == StoreError::NotFound
            },
    {
        self.clear_last();
        let item = if let Some(u) = self.undo.as_mut() {
            u.pop()
        } else {
            None
        };
        match item {
            Some(item) => {
                let ok = self.undo_item(&item);
                if ok {
                    Ok(item)
                } else {
                    Err(StoreError::NotFound)
                }
            },
            None => Err(StoreError::EmptyLog),
        }
    }
}

/// The search term that names the last-pointer: the four letters of "last"
/// in either case, read off the UTF-8 bytes.
pub open spec fn is_last_keyword_chars(s: Seq<char>) -> bool {
    let b = encode_utf8(s);
    &&& b.len() == 4
    &&& (b[0] == 108 || b[0] == 76)
    &&& (b[1] == 97 || b[1] == 65)
    &&& (b[2] == 115 || b[2] == 83)
    &&& (b[3] == 116 || b[3] == 84)
}

/// Whether `term` is the keyword "last", ignoring letter case.
pub fn is_last_keyword(term: &str) -> (r: bool)
    ensures
        r == is_last_keyword_chars(term@),
{
    let b = term.as_bytes();
    b.len() == 4 && (b[0] == 108 || b[0] == 76) && (b[1] == 97 || b[1] == 65) && (b[2] == 115
        || b[2] == 83) && (b[3] == 116 || b[3] == 84)
}

/// The term list asks for the last-pointer and it resolves: the list is the
/// single keyword, the pointer is set, and its id stands in the active bank.
pub open spec fn keyword_hit(
    terms: Seq<Seq<char>>,
    last: Option<Seq<char>>,
    active: Seq<TaskV>,
) -> bool {
    &&& terms.len() == 1
    &&& is_last_keyword_chars(terms[0])
    &&& last is Some
    &&& has_id(active, last->0)
}

/// A record passes the list filters: every term matches it, it carries every
/// tag of `tags`, and none of `ntags`.
pub open spec fn passes_filters(
    t: TaskV,
    terms: Seq<Seq<char>>,
    tags: Seq<Seq<char>>,
    ntags: Seq<Seq<char>>,
) -> bool {
    &&& mass_matches(t, terms)
    &&& (forall|i: int| 0 <= i < tags.len() ==> t.tags.contains(#[trigger] tags[i]))
    &&& (forall|i: int| 0 <= i < ntags.len() ==> !t.tags.contains(#[trigger] ntags[i]))
}

/// How a term list resolves against the active bank.
pub enum Resolution {
    /// The list was the `last` keyword and the pointer resolved to this
    /// record.
    Keyword(Task),
    /// No active record matches every term.
    NoMatch,
    /// Exactly one active record matches every term.
    Unique(Task),
    /// Several active records match; an interactive picker must choose.
    Ambiguous(Vec<Task>),
}

impl Store {
    /// The record named by the last-pointer, when `terms` is the single
    /// keyword `last` and the pointer resolves in the active bank.
    pub fn keyword_check(&self, terms: &Vec<String>) -> (r: Option<Task>)
        requires
            self.active is Some,
            terms.deep_view().len() == 1 && is_last_keyword_chars(terms.deep_view()[0])
                ==> self.last is Some,
        ensures
            r is Some <==> keyword_hit(terms.deep_view(), self.last_v(), self.active_v()),
            r is Some ==> r->0@ == self.active_v()[first_id_index(
                self.active_v(),
                self.last_v()->0,
            )],
    {
        if terms.len() != 1 {
            return None;
        }
        proof {
            assert(terms.deep_view()[0] == terms@[0]@);
        }
        if !is_last_keyword(terms[0].as_str()) {
            return None;
        }
        let last = self.last.as_ref().unwrap();
        match &last.last {
            None => None,
            Some(id) => {
                let bank = self.active.as_ref().unwrap();
                match bank.find(id.as_str()) {
                    Some(task) => Some(task.clone()),
                    None => None,
                }
            },
        }
    }

    /// The active records that pass the filters, in bank order; or, when
    /// `terms` is the resolving `last` keyword, just the record it names.
    pub fn filter_active(&self, terms: &Vec<String>, tags: &Vec<String>, ntags: &Vec<String>) -> (r:
        Vec<Task>)
        requires
            self.active is Some,
            terms.deep_view().len() == 1 && is_last_keyword_chars(terms.deep_view()[0])
                ==> self.last is Some,
        ensures
            keyword_hit(terms.deep_view(), self.last_v(), self.active_v()) ==> r.deep_view()
                == seq![
                self.active_v()[first_id_index(self.active_v(), self.last_v()->0)],
            ],
            !keyword_hit(terms.deep_view(), self.last_v(), self.active_v()) ==> r.deep_view()
                == self.active_v().filter(
                |t: TaskV|
                    passes_filters(t, terms.deep_view(), tags.deep_view(), ntags.deep_view()),
            ),
    {
        if let Some(task) = self.keyword_check(terms) {
            let mut out: Vec<Task> = Vec::new();
            out.push(task);
            proof {
                assert(out.deep_view() =~= seq![
                    self.active_v()[first_id_index(self.active_v(), self.last_v()->0)],
                ]);
            }
            return out;
        }
        let ghost pred = |t: TaskV|
            passes_filters(t, terms.deep_view(), tags.deep_view(), ntags.deep_view());
        let bank = self.active.as_ref().unwrap();
        let mut out: Vec<Task> = Vec::new();
        let mut i: usize = 0;
        while i < bank.tasks.len()
            invariant
                i <= bank.tasks.len(),
                self.active is Some,
                bank == self.active->0,
                out.deep_view() == self.active_v().subrange(0, i as int).filter(pred),
            decreases bank.tasks.len() - i,
        {
            let ghost prefix = self.active_v().subrange(0, i as int);
            proof {
                assert(self.active_v().subrange(0, i + 1) =~= prefix.push(
                    self.active_v()[i as int],
                ));
                lemma_filter_push(prefix, self.active_v()[i as int], pred);
            }
            let t = &bank.tasks[i];
            if t.mass_contains(terms) && all_tagged(t, tags) && !any_tagged(t, ntags) {
                out.push(t.clone());
                proof {
                    assert(out.deep_view() =~= self.active_v().subrange(0, i + 1).filter(pred));
                }
            }
            i += 1;
        }
        proof {
            assert(self.active_v().subrange(0, bank.tasks.len() as int) =~= self.active_v());
        }
        out
    }

    /// Resolve a term list: the `last` keyword when it hits, else the
    /// records matching every term, classified by how many there are.
    pub fn match_candidates(&self, terms: &Vec<String>) -> (r: Resolution)
        requires
            self.active is Some,
            terms.deep_view().len() == 1 && is_last_keyword_chars(terms.deep_view()[0])
                ==> self.last is Some,
        ensures
            keyword_hit(terms.deep_view(), self.last_v(), self.active_v()) ==> r is Keyword
                && r->Keyword_0@ == self.active_v()[first_id_index(
                self.active_v(),
                self.last_v()->0,
            )],
            !keyword_hit(terms.deep_view(), self.last_v(), self.active_v()) ==> {
                let cands = self.active_v().filter(
                    |t: TaskV| mass_matches(t, terms.deep_view()),
                );
                &&& cands.len() == 0 ==> r is NoMatch
                &&& cands.len() == 1 ==> r is Unique && r->Unique_0@ == cands[0]
                &&& cands.len() > 1 ==> r is Ambiguous && r->Ambiguous_0.deep_view() == cands
            },
    {
        if let Some(task) = self.keyword_check(terms) {
            return Resolution::Keyword(task);
        }
        let empty_tags: Vec<String> = Vec::new();
        let matches = self.filter_active(terms, &empty_tags, &empty_tags);
        proof {
            let cands = self.active_v().filter(|t: TaskV| mass_matches(t, terms.deep_view()));
            let pred = |t: TaskV|
                passes_filters(
                    t,
                    terms.deep_view(),
                    empty_tags.deep_view(),
                    empty_tags.deep_view(),
                );
            assert(forall|t: TaskV| #[trigger] pred(t) == mass_matches(t, terms.deep_view()));
            crate::task::lemma_filter_congruence(
                self.active_v(),
                pred,
                |t: TaskV| mass_matches(t, terms.deep_view()),
            );
            assert(matches.deep_view() == cands);
        }
        if matches.len() == 0 {
            Resolution::NoMatch
        } else if matches.len() == 1 {
            let ghost mdv = matches.deep_view();
            let mut matches = matches;
            let only = matches.pop().unwrap();
            proof {
                assert(only@ == mdv[0]);
            }
            Resolution::Unique(only)
        } else {
            Resolution::Ambiguous(matches)
        }
    }
}

impl Store {
    /// Draw up to `n` records from `list` at time `now`, weighted by
    /// staleness times priority; point the last-pointer at the record when
    /// exactly one came out, clear it otherwise.
    pub fn select_random_from_list_at(&mut self, list: &Vec<Task>, n: u8, cutoff: u64, now: i64) -> (r:
        Vec<Task>)
        requires
            old(self).last is Some,
        ensures
            crate::select::selection_ok(list.deep_view(), n, cutoff, now, r.deep_view()),
            final(self).last is Some,
            r.deep_view().len() == 1 ==> final(self).last_v() == Some(
                r.deep_view()[0].metadata.id,
            ),
            r.deep_view().len() != 1 ==> final(self).last_v() is None,
            final(self).active == old(self).active,
            final(self).closed == old(self).closed,
            final(self).undo == old(self).undo,
    {
        let out = crate::select::select_weighted_at(list, n, cutoff, now, true);
        if out.len() == 1 {
            self.point_last(out[0].id());
        } else {
            self.clear_last();
        }
        out
    }

    /// Draw at the present moment; the time the eligibility was judged at
    /// is the clock's, so only its existence is promised.
    pub fn select_random_from_list(&mut self, list: &Vec<Task>, n: u8, cutoff: u64) -> (r: Vec<
        Task,
    >)
        requires
            old(self).last is Some,
        ensures
            exists|now: i64|
                crate::select::selection_ok(list.deep_view(), n, cutoff, now, r.deep_view()),
            final(self).last is Some,
            r.deep_view().len() == 1 ==> final(self).last_v() == Some(
                r.deep_view()[0].metadata.id,
            ),
            r.deep_view().len() != 1 ==> final(self).last_v() is None,
            final(self).active == old(self).active,
            final(self).closed == old(self).closed,
            final(self).undo == old(self).undo,
    {
        let now = crate::clock::now_seconds();
        self.select_random_from_list_at(list, n, cutoff, now)
    }

    /// Draw up to `n` records from the whole active bank.
    pub fn select_random(&mut self, n: u8, cutoff: u64) -> (r: Vec<Task>)
        requires
            old(self).active is Some,
            old(self).last is Some,
        ensures
            exists|now: i64|
                crate::select::selection_ok(
                    old(self).active_v(),
                    n,
                    cutoff,
                    now,
                    r.deep_view(),
                ),
            final(self).last is Some,
            r.deep_view().len() == 1 ==> final(self).last_v() == Some(
                r.deep_view()[0].metadata.id,
            ),
            r.deep_view().len() != 1 ==> final(self).last_v() is None,
            final(self).active == old(self).active,
            final(self).closed == old(self).closed,
            final(self).undo == old(self).undo,
    {
        let now = crate::clock::now_seconds();
        let out = {
            let bank = self.active.as_ref().unwrap();
            crate::select::select_weighted_at(&bank.tasks, n, cutoff, now, true)
        };
        proof {
            assert(crate::select::selection_ok(
                old(self).active_v(),
                n,
                cutoff,
                now,
                out.deep_view(),
            ));
        }
        if out.len() == 1 {
            self.point_last(out[0].id());
        } else {
            self.clear_last();
        }
        out
    }
}

/// Whether the record carries every tag in `tags`.
pub fn all_tagged(task: &Task, tags: &Vec<String>) -> (r: bool)
    ensures
        r == forall|i: int| 0 <= i < tags.deep_view().len() ==> task@.tags.contains(
            #[trigger] tags.deep_view()[i],
        ),
{
    let mut i: usize = 0;
    while i < tags.len()
        invariant
            i <= tags.len(),
            forall|k: int| 0 <= k < i ==> task@.tags.contains(#[trigger] tags.deep_view()[k]),
        decreases tags.len() - i,
    {
        if !task.is_tagged(tags[i].as_str()) {
            proof {
                assert(tags.deep_view()[i as int] == tags@[i as int]@);
            }
            return false;
        }
        i += 1;
    }
    true
}

/// Whether the record carries at least one tag in `tags`.
pub fn any_tagged(task: &Task, tags: &Vec<String>) -> (r: bool)
    ensures
        r == exists|i: int| 0 <= i < tags.deep_view().len() && task@.tags.contains(
            #[trigger] tags.deep_view()[i],
        ),
{
    let mut i: usize = 0;
    while i < tags.len()
        invariant
            i <= tags.len(),
            forall|k: int| 0 <= k < i ==> !task@.tags.contains(#[trigger] tags.deep_view()[k]),
        decreases tags.len() - i,
    {
        if task.is_tagged(tags[i].as_str()) {
            proof {
                assert(task@.tags.contains(tags.deep_view()[i as int]));
            }
            return true;
        }
        i += 1;
    }
    false
}

/// Swap-removing the id of a record just pushed on a bank that did not
/// carry it before gives the bank back.
pub proof fn lemma_swap_remove_pushed(s: Seq<TaskV>, x: TaskV)
    requires
        !has_id(s, x.metadata.id),
    ensures
        has_id(s.push(x), x.metadata.id),
        swap_remove_id(s.push(x), x.metadata.id) == s,
{
    let id = x.metadata.id;
    assert(s.push(x)[s.len() as int] == x);
    assert(has_id(s.push(x), id));
    lemma_first_id_index(s.push(x), id);
    let fi = first_id_index(s.push(x), id);
    assert forall|k: int| 0 <= k < s.len() implies s.push(x)[k].metadata.id != id by {
        assert(s.push(x)[k] == s[k]);
    }
    assert(fi == s.len());
    assert(s.push(x).update(fi, s.push(x).last()) =~= s.push(x));
    assert(s.push(x).drop_last() =~= s);
}

/// Overwriting-by-id a record just pushed on a bank that did not carry the
/// id before replaces exactly the pushed record.
pub proof fn lemma_replace_pushed(s: Seq<TaskV>, x: TaskV, y: TaskV)
    requires
        !has_id(s, y.metadata.id),
        x.metadata.id == y.metadata.id,
    ensures
        replace_id(s.push(x), y) == s.push(y),
{
    let id = y.metadata.id;
    assert(s.push(x)[s.len() as int] == x);
    assert(has_id(s.push(x), id));
    lemma_first_id_index(s.push(x), id);
    let fi = first_id_index(s.push(x), id);
    assert forall|k: int| 0 <= k < s.len() implies s.push(x)[k].metadata.id != id by {
        assert(s.push(x)[k] == s[k]);
    }
    assert(fi == s.len());
    assert(s.push(x).update(fi, y) =~= s.push(y));
}

/// Appending a fresh record, retiring it, and undoing twice restores both
/// the active and the closed bank to their pre-append contents. The record
/// must be fresh: no record of either bank may already carry its id.
pub proof fn lemma_append_retire_undo_undo(a0: Seq<TaskV>, c0: Seq<TaskV>, t: TaskV, now: i64)
    requires
        !has_id(a0, t.metadata.id),
        !has_id(c0, t.metadata.id),
    ensures
        ({
            let cv = completed_view(t, now);
            // `append` pushes t on the active bank; `retire_item` then
            // swap-removes it and pushes the completed copy on the closed
            // bank, recording `retire_undo_entry`.
            let a2 = swap_remove_id(a0.push(t), t.metadata.id);
            let c2 = c0.push(cv);
            // First undo: the retire entry. Second undo: the append entry.
            let u1 = undo_apply(a2, c2, retire_undo_entry(t, cv));
            let u2 = undo_apply(u1.active, u1.closed, UndoItemV::Add { new_task: t });
            &&& u1.ok
            &&& u2.ok
            &&& u2.active == a0
            &&& u2.closed == c0
        }),
{
    let cv = completed_view(t, now);
    let id = t.metadata.id;
    assert(cv.metadata.id == id);
    lemma_swap_remove_pushed(a0, t);
    let a2 = swap_remove_id(a0.push(t), id);
    assert(a2 == a0);
    let c2 = c0.push(cv);

    let steps = seq![
        UndoItemV::Change { from: t, to: cv, in_bank: BankName::Active },
        UndoItemV::Move { task: cv, from: BankName::Active, to: BankName::Closed },
    ];
    reveal_with_fuel(undo_apply_rev, 4);
    reveal_with_fuel(undo_apply, 4);
    assert(steps.last() == UndoItemV::Move {
        task: cv,
        from: BankName::Active,
        to: BankName::Closed,
    });
    // Undo the move: cv leaves the closed bank and re-enters the active one.
    lemma_swap_remove_pushed(c0, cv);
    let m = undo_apply(
        a0,
        c2,
        UndoItemV::Move { task: cv, from: BankName::Active, to: BankName::Closed },
    );
    assert(m.ok && m.active == a0.push(cv) && m.closed == c0);
    // Undo the change: cv is overwritten by the original t.
    assert(steps.drop_last() =~= seq![
        UndoItemV::Change { from: t, to: cv, in_bank: BankName::Active },
    ]);
    lemma_replace_pushed(a0, cv, t);
    let ch = undo_apply(
        a0.push(cv),
        c0,
        UndoItemV::Change { from: t, to: cv, in_bank: BankName::Active },
    );
    assert(ch.ok && ch.active == a0.push(t) && ch.closed == c0);
    assert(seq![UndoItemV::Change { from: t, to: cv, in_bank: BankName::Active }].last()
        == UndoItemV::Change { from: t, to: cv, in_bank: BankName::Active });
    assert(seq![UndoItemV::Change { from: t, to: cv, in_bank: BankName::Active }].drop_last()
        =~= Seq::<UndoItemV>::empty());
    let u1 = undo_apply(a2, c2, retire_undo_entry(t, cv));
    assert(u1.ok && u1.active == a0.push(t) && u1.closed == c0);
    // Undo the append: t leaves the active bank again.
    lemma_swap_remove_pushed(a0, t);
}

/// Updating a record and undoing restores it exactly, field for field. The
/// record must be the first of its id in the bank, and the transform must
/// keep the id.
pub proof fn lemma_update_then_undo(a0: Seq<TaskV>, c0: Seq<TaskV>, r: TaskV, tr: TaskV)
    requires
        has_id(a0, r.metadata.id),
        a0[first_id_index(a0, r.metadata.id)] == r,
        tr.metadata.id == r.metadata.id,
    ensures
        ({
            // `update_item` overwrites r by tr and records the change; undo
            // force-overwrites by id with r again.
            let a1 = replace_id(a0, tr);
            let out = undo_apply(
                a1,
                c0,
                UndoItemV::Change { from: r, to: tr, in_bank: BankName::Active },
            );
            &&& out.ok
            &&& out.active == a0
            &&& out.closed == c0
        }),
{
    let id = r.metadata.id;
    lemma_first_id_index(a0, id);
    let i = first_id_index(a0, id);
    let a1 = a0.update(i, tr);
    assert(replace_id(a0, tr) == a1);
    assert(a1[i].metadata.id == id);
    assert(has_id(a1, id));
    lemma_first_id_index(a1, id);
    let fi = first_id_index(a1, id);
    assert forall|k: int| 0 <= k < i implies a1[k].metadata.id != id by {
        assert(a1[k] == a0[k]);
    }
    assert(fi == i);
    assert(a1.update(i, r) =~= a0);
}

/// A bank that no entry of `items` touches comes out of `undo_apply_rev`
/// unchanged.
pub proof fn lemma_undo_apply_rev_untouched(
    active: Seq<TaskV>,
    closed: Seq<TaskV>,
    items: Seq<UndoItemV>,
)
    ensures
        !touches_any(items, BankName::Active) ==> undo_apply_rev(active, closed, items).active
            == active,
        !touches_any(items, BankName::Closed) ==> undo_apply_rev(active, closed, items).closed
            == closed,
    decreases items, 0int,
{
    if items.len() > 0 {
        lemma_undo_apply_untouched(active, closed, items.last());
        let first = undo_apply(active, closed, items.last());
        if first.ok {
            lemma_undo_apply_rev_untouched(first.active, first.closed, items.drop_last());
            assert(forall|b: BankName, i: int|
                0 <= i < items.drop_last().len() && #[trigger] touches(items.drop_last()[i], b)
                    ==> touches(items[i], b));
        }
    }
}

} // verus!
