use tasks::bank::Bank;
use tasks::last::Last;
use tasks::store::{Resolution, Store, StoreError};
use tasks::task::{Metadata, Task, TaskType};
use tasks::undobank::{BankName, UndoBank, UndoItem};

fn sample_task(id: &str, name: &str, priority: u16, tags: Vec<&str>) -> Task {
    Task {
        task: TaskType::Todo,
        metadata: Metadata {
            id: id.to_string(),
            description: None,
            name: name.to_string(),
            priority,
            created: 1_700_000_000,
            last_completed: 1_700_000_000,
            closed_at: None,
        },
        tags: tags.into_iter().map(|t| t.to_string()).collect(),
    }
}

fn fresh_store() -> Store {
    let mut s = Store::new();
    s.install_active(Bank::empty());
    s.install_closed(Bank::empty());
    s.install_undo(UndoBank::empty());
    s.install_last(Last::default());
    s
}

fn active_ids(s: &Store) -> Vec<String> {
    s.active.as_ref().unwrap().tasks.iter().map(|t| t.id().to_string()).collect()
}

#[test]
fn append_grows_active_and_undo() {
    // Add "Buy milk" (priority 100): active grows by one, the undo log
    // grows by one, and undoing restores the prior contents.
    let mut s = fresh_store();
    let before_active = s.active.as_ref().unwrap().tasks.len();
    let before_undo = s.undo.as_ref().unwrap().undoitems.len();
    let t = sample_task("101", "Buy milk", 100, vec![]);
    let got = s.append(t).expect("append always succeeds");
    assert_eq!(got.name(), "Buy milk");
    assert_eq!(s.active.as_ref().unwrap().tasks.len(), before_active + 1);
    assert_eq!(s.undo.as_ref().unwrap().undoitems.len(), before_undo + 1);
    assert_eq!(s.last.as_ref().unwrap().last.as_deref(), Some("101"));

    s.undo().expect("one entry is there to reverse");
    assert_eq!(s.active.as_ref().unwrap().tasks.len(), before_active);
    assert!(s.last.as_ref().unwrap().last.is_none());
}

#[test]
fn append_retire_undo_undo_restores_both_banks() {
    let mut s = fresh_store();
    s.append(sample_task("1", "keep me", 5, vec![])).unwrap();
    let start_active = active_ids(&s);
    let start_closed = s.closed.as_ref().unwrap().tasks.len();

    let t = sample_task("2", "pass through", 9, vec!["x"]);
    s.append(t.clone()).unwrap();
    let retired = s.retire_item(&t).expect("the record is in the active bank");
    assert!(retired.closed().is_some());
    assert_eq!(s.closed.as_ref().unwrap().tasks.len(), start_closed + 1);

    s.undo().expect("the retire entry reverses");
    s.undo().expect("the append entry reverses");

    assert_eq!(active_ids(&s), start_active);
    assert_eq!(s.closed.as_ref().unwrap().tasks.len(), start_closed);
}

#[test]
fn update_then_undo_restores_record_exactly() {
    let mut s = fresh_store();
    let original = sample_task("7", "old name", 3, vec!["keep"]);
    s.append(original.clone()).unwrap();

    let transformed = original.updated_todo(Some("new words"), Some(&42), Some("new name"));
    s.update_item(&original, transformed).unwrap();
    assert_eq!(s.active.as_ref().unwrap().tasks[0].name(), "new name");

    s.undo().expect("the change entry reverses");
    let back = &s.active.as_ref().unwrap().tasks[0];
    assert_eq!(back.id(), "7");
    assert_eq!(back.name(), "old name");
    assert_eq!(back.priority(), 3);
    assert!(back.description().is_none());
    assert_eq!(back.tags, vec!["keep".to_string()]);
    assert_eq!(back.created(), original.created());
    assert_eq!(back.last_touched(), original.last_touched());
    assert_eq!(back.closed(), None);
}

#[test]
fn undo_on_empty_log_reports_empty() {
    let mut s = fresh_store();
    match s.undo() {
        Err(StoreError::EmptyLog) => {},
        _ => panic!("an empty log must report EmptyLog"),
    }
    assert_eq!(StoreError::EmptyLog.message(), "No more undo items.");
}

#[test]
fn retire_of_absent_id_reports_not_found() {
    let mut s = fresh_store();
    let ghost = sample_task("404", "never added", 1, vec![]);
    match s.retire_item(&ghost) {
        Err(StoreError::NotFound) => {},
        _ => panic!("an absent id must report NotFound"),
    }
    assert_eq!(StoreError::NotFound.message(), "Could not find task in active list");
}

#[test]
fn undo_of_tampered_entry_reports_not_found() {
    let mut s = fresh_store();
    // An entry naming an id that is not in the bank cannot be reversed.
    s.undo.as_mut().unwrap().append(UndoItem::Add {
        new_task: sample_task("404", "never there", 1, vec![]),
    });
    match s.undo() {
        Err(StoreError::NotFound) => {},
        _ => panic!("a dangling entry must report NotFound"),
    }
}

#[test]
fn filter_active_filters_by_terms_and_tags() {
    let mut s = fresh_store();
    s.append(sample_task("1", "water the garden", 5, vec!["home", "green"])).unwrap();
    s.append(sample_task("2", "water the cat", 5, vec!["home", "pet"])).unwrap();
    s.append(sample_task("3", "file taxes", 5, vec!["desk"])).unwrap();

    let terms = vec!["water".to_string()];
    let none: Vec<String> = vec![];
    let both = s.filter_active(&terms, &none, &none);
    assert_eq!(both.len(), 2);

    let tagged = s.filter_active(&terms, &vec!["pet".to_string()], &none);
    assert_eq!(tagged.len(), 1);
    assert_eq!(tagged[0].id(), "2");

    let excluded = s.filter_active(&terms, &none, &vec!["pet".to_string()]);
    assert_eq!(excluded.len(), 1);
    assert_eq!(excluded[0].id(), "1");

    let nothing = s.filter_active(&vec!["zeppelin".to_string()], &none, &none);
    assert!(nothing.is_empty());
}

#[test]
fn last_keyword_resolves_through_pointer() {
    let mut s = fresh_store();
    s.append(sample_task("9", "most recent", 5, vec![])).unwrap();
    // append pointed the last-pointer at id 9
    let found = s.filter_active(&vec!["LAST".to_string()], &vec![], &vec![]);
    assert_eq!(found.len(), 1);
    assert_eq!(found[0].id(), "9");

    let kw = s.keyword_check(&vec!["last".to_string()]);
    assert_eq!(kw.unwrap().id(), "9");

    // With the pointer cleared the keyword falls back to plain search.
    s.clear_last();
    let found = s.filter_active(&vec!["last".to_string()], &vec![], &vec![]);
    assert!(found.is_empty());
}

#[test]
fn match_candidates_classifies() {
    let mut s = fresh_store();
    s.append(sample_task("1", "alpha report", 5, vec![])).unwrap();
    s.append(sample_task("2", "beta report", 5, vec![])).unwrap();
    s.clear_last();

    match s.match_candidates(&vec!["alpha".to_string()]) {
        Resolution::Unique(t) => assert_eq!(t.id(), "1"),
        _ => panic!("one match must be unique"),
    }
    match s.match_candidates(&vec!["report".to_string()]) {
        Resolution::Ambiguous(list) => assert_eq!(list.len(), 2),
        _ => panic!("two matches must be ambiguous"),
    }
    match s.match_candidates(&vec!["gamma".to_string()]) {
        Resolution::NoMatch => {},
        _ => panic!("no match must be reported as such"),
    }
    s.point_last("2");
    match s.match_candidates(&vec!["last".to_string()]) {
        Resolution::Keyword(t) => assert_eq!(t.id(), "2"),
        _ => panic!("the keyword must resolve through the pointer"),
    }
}

#[test]
fn undo_log_save_keeps_most_recent_fifty() {
    let mut log = UndoBank::empty();
    for i in 0..55 {
        log.append(UndoItem::Add {
            new_task: sample_task(&i.to_string(), "n", 1, vec![]),
        });
    }
    let saved = log.truncated_for_save();
    assert_eq!(saved.undoitems.len(), 50);
    // The oldest five are discarded; the survivors keep their order.
    match &saved.undoitems[0] {
        UndoItem::Add { new_task } => assert_eq!(new_task.id(), "5"),
        _ => panic!("entries must keep their shape"),
    }
    match &saved.undoitems[49] {
        UndoItem::Add { new_task } => assert_eq!(new_task.id(), "54"),
        _ => panic!("entries must keep their shape"),
    }

    let mut short = UndoBank::empty();
    short.append(UndoItem::Add { new_task: sample_task("1", "n", 1, vec![]) });
    assert_eq!(short.truncated_for_save().undoitems.len(), 1);
}

#[test]
fn move_and_force_update_by_bank_name() {
    let mut s = fresh_store();
    let t = sample_task("5", "wander", 2, vec![]);
    s.append(t.clone()).unwrap();
    assert!(s.move_item(&t, BankName::Active, BankName::Closed));
    assert_eq!(s.active.as_ref().unwrap().tasks.len(), 0);
    assert_eq!(s.closed.as_ref().unwrap().tasks.len(), 1);
    // Moving an id that is no longer present changes nothing.
    assert!(!s.move_item(&t, BankName::Active, BankName::Closed));
    assert_eq!(s.closed.as_ref().unwrap().tasks.len(), 1);

    let renamed = t.updated_todo(None, None, Some("wandered"));
    assert!(s.force_update_item(BankName::Closed, renamed));
    assert_eq!(s.closed.as_ref().unwrap().tasks[0].name(), "wandered");
}
