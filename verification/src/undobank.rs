//! The undo log: a bounded stack of reversible operation descriptors,
//! most recent last. On save only the most recent fifty entries are kept.
use crate::task::{Task, TaskV};
use vstd::prelude::*;

verus! {

/// How many undo entries a save keeps.
pub const UNDO_KEEP: usize = 50;

/// The two banks an undo entry can point into.
#[derive(Clone, Copy, PartialEq, Eq, Structural, Debug)]
pub enum BankName {
    Active,
    Closed,
}

/// The name under which the active bank is stored.
pub fn default_bank() -> (r: String)
    ensures
        r@ == "active"@,
{
    "active".to_owned()
}

/// A reversible description of one state-changing operation.
pub enum UndoItem {
    /// `task` was moved from bank `from` to bank `to`.
    Move { task: Task, from: BankName, to: BankName },
    /// In `in_bank`, the record `from` was overwritten by `to`.
    Change { from: Task, to: Task, in_bank: BankName },
    /// `new_task` was appended to the active bank.
    Add { new_task: Task },
    /// The steps of one atomic operation, in the order they were applied.
    Sequence(Vec<UndoItem>),
}

/// Mathematical image of `UndoItem`.
pub enum UndoItemV {
    Move { task: TaskV, from: BankName, to: BankName },
    Change { from: TaskV, to: TaskV, in_bank: BankName },
    Add { new_task: TaskV },
    Sequence(Seq<UndoItemV>),
}

/// The image of one undo entry.
pub open spec fn undo_item_view(it: UndoItem) -> UndoItemV
    decreases it, 1int,
{
    match it {
        UndoItem::Move { task, from, to } => UndoItemV::Move { task: task@, from, to },
        UndoItem::Change { from, to, in_bank } => UndoItemV::Change {
            from: from@,
            to: to@,
            in_bank,
        },
        UndoItem::Add { new_task } => UndoItemV::Add { new_task: new_task@ },
        UndoItem::Sequence(items) => UndoItemV::Sequence(undo_items_view(items@)),
    }
}

/// The image of a sequence of undo entries, elementwise.
pub open spec fn undo_items_view(items: Seq<UndoItem>) -> Seq<UndoItemV>
    decreases items, 0int,
{
    if items.len() == 0 {
        Seq::empty()
    } else {
        seq![undo_item_view(items[0])] + undo_items_view(items.drop_first())
    }
}

/// Elementwise reading of `undo_items_view`.
pub proof fn lemma_undo_items_view(items: Seq<UndoItem>)
    ensures
        undo_items_view(items).len() == items.len(),
        forall|i: int|
            0 <= i < items.len() ==> undo_items_view(items)[i] == undo_item_view(items[i]),
    decreases items.len(),
{
    if items.len() > 0 {
        lemma_undo_items_view(items.drop_first());
        assert(forall|i: int|
            1 <= i < items.len() ==> items.drop_first()[i - 1] == items[i]);
    }
}

impl View for UndoItem {
    type V = UndoItemV;

    open spec fn view(&self) -> UndoItemV {
        undo_item_view(*self)
    }
}

impl DeepView for UndoItem {
    type V = UndoItemV;

    open spec fn deep_view(&self) -> UndoItemV {
        undo_item_view(*self)
    }
}

/// A copy of an undo entry, equal in the mathematical image.
pub fn clone_undo_item(it: &UndoItem) -> (r: UndoItem)
    ensures
        r@ == it@,
    decreases *it,
{
    match it {
        UndoItem::Move { task, from, to } => UndoItem::Move {
            task: task.clone(),
            from: *from,
            to: *to,
        },
        UndoItem::Change { from, to, in_bank } => UndoItem::Change {
            from: from.clone(),
            to: to.clone(),
            in_bank: *in_bank,
        },
        UndoItem::Add { new_task } => UndoItem::Add { new_task: new_task.clone() },
        UndoItem::Sequence(items) => {
            let mut out: Vec<UndoItem> = Vec::new();
            let mut i: usize = 0;
            while i < items.len()
                invariant
                    i <= items.len(),
                    out.deep_view() =~= items.deep_view().subrange(0, i as int),
                decreases items.len() - i,
            {
                proof {
                    assert(decreases_to!(*it => *items));
                    assert(decreases_to!(*items => items@));
                    assert(decreases_to!(items@ => items@[i as int]));
                }
                out.push(clone_undo_item(&items[i]));
                i += 1;
            }
            proof {
                assert(items.deep_view().subrange(0, items.len() as int) =~= items.deep_view());
                lemma_undo_items_view(items@);
                lemma_undo_items_view(out@);
                assert(undo_items_view(out@) =~= out.deep_view());
                assert(undo_items_view(items@) =~= items.deep_view());
            }
            UndoItem::Sequence(out)
        },
    }
}

impl Clone for UndoItem {
    fn clone(&self) -> (r: UndoItem)
        ensures
            r@ == self@,
    {
        clone_undo_item(self)
    }
}

/// The ordered stack of undo entries, most recent last.
pub struct UndoBank {
    pub undoitems: Vec<UndoItem>,
}

impl View for UndoBank {
    type V = Seq<UndoItemV>;

    open spec fn view(&self) -> Seq<UndoItemV> {
        self.undoitems.deep_view()
    }
}

impl UndoBank {
    /// A log with no entries.
    pub fn empty() -> (r: UndoBank)
        ensures
            r@ =~= Seq::<UndoItemV>::empty(),
    {
        UndoBank { undoitems: Vec::new() }
    }

    /// Push an entry on top of the stack.
    pub fn append(&mut self, item: UndoItem)
        ensures
            final(self)@ =~= old(self)@.push(item@),
    {
        self.undoitems.push(item)
    }

    /// Pop the most recent entry, if any.
    pub fn pop(&mut self) -> (r: Option<UndoItem>)
        ensures
            old(self)@.len() == 0 ==> r is None && final(self)@ == old(self)@,
            old(self)@.len() > 0 ==> r is Some && r->0@ == old(self)@.last() && final(self)@
                =~= old(self)@.drop_last(),
    {
        let r = self.undoitems.pop();
        proof {
            if old(self)@.len() > 0 {
                assert(final(self)@ =~= old(self)@.drop_last());
            }
        }
        r
    }

    /// The log as a save writes it: at most `UNDO_KEEP` entries, the oldest
    /// discarded first, the surviving order kept.
    pub fn truncated_for_save(&self) -> (r: UndoBank)
        ensures
            self@.len() <= UNDO_KEEP ==> r@ == self@,
            self@.len() > UNDO_KEEP ==> r@ == self@.skip(self@.len() - UNDO_KEEP as int),
            r@.len() <= UNDO_KEEP,
    {
        let len = self.undoitems.len();
        let start: usize = if len > UNDO_KEEP {
            len - UNDO_KEEP
        } else {
            0
        };
        let mut out: Vec<UndoItem> = Vec::new();
        let mut i: usize = start;
        while i < len
            invariant
                start <= i <= len,
                len == self@.len(),
                out.deep_view() =~= self@.subrange(start as int, i as int),
            decreases len - i,
        {
            out.push(clone_undo_item(&self.undoitems[i]));
            i += 1;
        }
        proof {
            if self@.len() <= UNDO_KEEP {
                assert(self@.subrange(0, len as int) =~= self@);
            } else {
                assert(self@.subrange(start as int, len as int) =~= self@.skip(
                    self@.len() - UNDO_KEEP as int,
                ));
            }
        }
        UndoBank { undoitems: out }
    }
}

} // verus!
