use tasks::bank::Bank;
use tasks::codec::{
    decode_bank, decode_last, decode_undo_log, encode_bank, encode_last, encode_undo_log,
    recode_bank, recode_last, recode_undo_log,
};
use tasks::last::Last;
use tasks::task::{Metadata, Task, TaskType};
use tasks::undobank::{BankName, UndoBank, UndoItem};

fn sample_task(id: &str, name: &str, desc: Option<&str>, priority: u16, tags: Vec<&str>) -> Task {
    Task {
        task: TaskType::Todo,
        metadata: Metadata {
            id: id.to_string(),
            description: desc.map(|d| d.to_string()),
            name: name.to_string(),
            priority,
            created: 1_700_000_000,
            last_completed: 1_700_000_500,
            closed_at: None,
        },
        tags: tags.into_iter().map(|t| t.to_string()).collect(),
    }
}

fn tasks_equal(a: &Task, b: &Task) {
    assert_eq!(a.id(), b.id());
    assert_eq!(a.name(), b.name());
    assert_eq!(a.description().clone(), b.description().clone());
    assert_eq!(a.priority(), b.priority());
    assert_eq!(a.created(), b.created());
    assert_eq!(a.last_touched(), b.last_touched());
    assert_eq!(a.closed(), b.closed());
    assert_eq!(a.tags, b.tags);
}

#[test]
fn bank_round_trip() {
    let mut t2 = sample_task("17", "wasser gießen", Some("jede Wöche\nzweimal"), 7, vec![
        "garten", "innen",
    ]);
    t2.task = TaskType::Deadline;
    t2.metadata.closed_at = Some(-12345);
    let bank = Bank {
        tasks: vec![
            sample_task("1700000000123", "Buy milk", None, 100, vec![]),
            t2,
            sample_task("", "", Some(""), 0, vec![""]),
        ],
    };
    let bytes = encode_bank(&bank);
    let back = decode_bank(&bytes).expect("an encoded bank must decode");
    assert_eq!(back.tasks.len(), bank.tasks.len());
    for (a, b) in bank.tasks.iter().zip(back.tasks.iter()) {
        tasks_equal(a, b);
    }
}

#[test]
fn empty_bank_round_trip() {
    let bank = Bank::empty();
    let bytes = encode_bank(&bank);
    let back = decode_bank(&bytes).expect("an encoded bank must decode");
    assert_eq!(back.tasks.len(), 0);
}

#[test]
fn undo_log_round_trip() {
    let t = sample_task("42", "task", None, 3, vec!["a"]);
    let log = UndoBank {
        undoitems: vec![
            UndoItem::Add { new_task: t.clone() },
            UndoItem::Move {
                task: t.clone(),
                from: BankName::Active,
                to: BankName::Closed,
            },
            UndoItem::Change {
                from: t.clone(),
                to: sample_task("42", "renamed", Some("d"), 9, vec![]),
                in_bank: BankName::Closed,
            },
            UndoItem::Sequence(vec![
                UndoItem::Add { new_task: t.clone() },
                UndoItem::Sequence(vec![UndoItem::Add { new_task: t.clone() }]),
            ]),
        ],
    };
    let bytes = encode_undo_log(&log);
    let back = decode_undo_log(&bytes).expect("an encoded log must decode");
    assert_eq!(back.undoitems.len(), 4);
    match &back.undoitems[1] {
        UndoItem::Move { task, from, to } => {
            tasks_equal(task, &t);
            assert_eq!(*from, BankName::Active);
            assert_eq!(*to, BankName::Closed);
        },
        _ => panic!("second entry must stay a move"),
    }
    match &back.undoitems[3] {
        UndoItem::Sequence(items) => {
            assert_eq!(items.len(), 2);
            match &items[1] {
                UndoItem::Sequence(inner) => assert_eq!(inner.len(), 1),
                _ => panic!("nested sequence must survive"),
            }
        },
        _ => panic!("fourth entry must stay a sequence"),
    }
}

#[test]
fn last_round_trip() {
    let some = Last { last: Some("1700000000123".to_string()) };
    let bytes = encode_last(&some);
    let back = decode_last(&bytes).expect("an encoded pointer must decode");
    assert_eq!(back.last.as_deref(), Some("1700000000123"));

    let none = Last { last: None };
    let bytes = encode_last(&none);
    let back = decode_last(&bytes).expect("an encoded pointer must decode");
    assert!(back.last.is_none());
}

#[test]
fn recoding_yields_equal_structures() {
    let bank = Bank { tasks: vec![sample_task("8", "água", Some("çay"), 2, vec!["tag"])] };
    let back = recode_bank(&bank).unwrap();
    tasks_equal(&bank.tasks[0], &back.tasks[0]);

    let log = UndoBank {
        undoitems: vec![UndoItem::Sequence(vec![UndoItem::Add {
            new_task: sample_task("9", "n", None, 1, vec![]),
        }])],
    };
    assert_eq!(recode_undo_log(&log).unwrap().undoitems.len(), 1);

    let last = Last { last: Some("9".to_string()) };
    assert_eq!(recode_last(&last).unwrap().last.as_deref(), Some("9"));
}

#[test]
fn garbage_is_rejected() {
    assert!(decode_bank(&vec![]).is_none());
    assert!(decode_bank(&vec![66u8]).is_none());
    assert!(decode_last(&vec![76u8, 7u8]).is_none());
    assert!(decode_undo_log(&vec![1u8, 2, 3, 4]).is_none());
    // A valid document with trailing bytes is rejected too.
    let mut bytes = encode_last(&Last { last: None });
    bytes.push(0);
    assert!(decode_last(&bytes).is_none());
}
