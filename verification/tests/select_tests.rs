use tasks::bank::Bank;
use tasks::last::Last;
use tasks::select::select_weighted_at;
use tasks::store::Store;
use tasks::task::{Metadata, Task, TaskType};
use tasks::undobank::UndoBank;

fn task_touched(id: &str, priority: u16, last_completed: i64) -> Task {
    Task {
        task: TaskType::Todo,
        metadata: Metadata {
            id: id.to_string(),
            description: None,
            name: id.to_string(),
            priority,
            created: 0,
            last_completed,
            closed_at: None,
        },
        tags: vec![],
    }
}

#[test]
fn single_candidate_always_returned() {
    // cutoff = 0, one candidate, one draw: the candidate always comes out.
    let now = 1_000;
    let list = vec![task_touched("only", 100, 900)];
    for _ in 0..200 {
        let out = select_weighted_at(&list, 1, 0, now, true);
        assert_eq!(out.len(), 1);
        assert_eq!(out[0].id(), "only");
    }
}

#[test]
fn fresh_candidates_are_excluded() {
    // Whatever the cutoff, a candidate touched more recently than the
    // cutoff never comes out.
    let now = 10_000;
    for cutoff in [1u64, 50, 500, 5000] {
        let list = vec![
            task_touched("stale", 10, 0),
            task_touched("fresh", 10, now - cutoff as i64 + 1),
        ];
        for _ in 0..50 {
            let out = select_weighted_at(&list, 2, cutoff, now, true);
            assert!(out.iter().all(|t| t.id() != "fresh"));
            assert_eq!(out.len(), 1);
        }
    }
}

#[test]
fn equal_weights_draw_evenly() {
    // Two candidates of equal weight over many trials: close to 50/50.
    let now = 2_000;
    let list = vec![task_touched("a", 7, 1_000), task_touched("b", 7, 1_000)];
    let trials = 4_000;
    let mut first = 0usize;
    for _ in 0..trials {
        let out = select_weighted_at(&list, 1, 0, now, true);
        assert_eq!(out.len(), 1);
        if out[0].id() == "a" {
            first += 1;
        }
    }
    let share = first as f64 / trials as f64;
    assert!(share > 0.42 && share < 0.58, "share was {share}");
}

#[test]
fn staleness_and_priority_balance_out() {
    // A: priority 10, elapsed 100 s; B: priority 100, elapsed 10 s. Both
    // weigh 1000, so the draw is close to even.
    let now = 1_000;
    let list = vec![task_touched("a", 10, now - 100), task_touched("b", 100, now - 10)];
    let trials = 4_000;
    let mut first = 0usize;
    for _ in 0..trials {
        let out = select_weighted_at(&list, 1, 0, now, true);
        assert_eq!(out.len(), 1);
        if out[0].id() == "a" {
            first += 1;
        }
    }
    let share = first as f64 / trials as f64;
    assert!(share > 0.42 && share < 0.58, "share was {share}");
}

#[test]
fn draws_are_distinct_and_capped() {
    let now = 1_000;
    let list = vec![
        task_touched("a", 1, 0),
        task_touched("b", 2, 100),
        task_touched("c", 3, 200),
    ];
    // Asking for more than the pool holds yields the whole pool.
    let out = select_weighted_at(&list, 10, 0, now, true);
    assert_eq!(out.len(), 3);
    let mut ids: Vec<&str> = out.iter().map(|t| t.id()).collect();
    ids.sort();
    ids.dedup();
    assert_eq!(ids.len(), 3);

    let out = select_weighted_at(&list, 2, 0, now, true);
    assert_eq!(out.len(), 2);
    assert_ne!(out[0].id(), out[1].id());

    let empty: Vec<Task> = vec![];
    assert!(select_weighted_at(&empty, 3, 0, now, true).is_empty());
}

#[test]
fn plain_mode_ignores_priority() {
    // In the unweighted mode a zero-priority record still carries weight.
    let now = 1_000;
    let list = vec![task_touched("z", 0, 0)];
    let out = select_weighted_at(&list, 1, 0, now, false);
    assert_eq!(out.len(), 1);
}

#[test]
fn store_draw_sets_last_pointer() {
    let mut s = Store::new();
    s.install_active(Bank::empty());
    s.install_undo(UndoBank::empty());
    s.install_last(Last::default());
    s.active.as_mut().unwrap().append(task_touched("lone", 5, 0));

    let out = s.select_random(1, 0);
    assert_eq!(out.len(), 1);
    assert_eq!(s.last.as_ref().unwrap().last.as_deref(), Some("lone"));

    // A draw of two clears the pointer.
    s.active.as_mut().unwrap().append(task_touched("other", 5, 0));
    let list = s.active.as_ref().unwrap().tasks.clone();
    let out = s.select_random_from_list(&list, 2, 0);
    assert_eq!(out.len(), 2);
    assert!(s.last.as_ref().unwrap().last.is_none());

    // An empty eligible pool yields an empty draw and clears the pointer.
    let out = s.select_random(1, u64::MAX);
    assert!(out.is_empty());
    assert!(s.last.as_ref().unwrap().last.is_none());
}
