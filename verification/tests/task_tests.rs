use tasks::parser::{effective_cutoff, Cli};
use tasks::task::{age_split, i64_dec_string, Metadata, Task, TaskType};
use tasks::undobank::default_bank;

fn sample_task(id: &str, name: &str, desc: Option<&str>, tags: Vec<&str>) -> Task {
    Task {
        task: TaskType::Todo,
        metadata: Metadata {
            id: id.to_string(),
            description: desc.map(|d| d.to_string()),
            name: name.to_string(),
            priority: 100,
            created: 0,
            last_completed: 0,
            closed_at: None,
        },
        tags: tags.into_iter().map(|t| t.to_string()).collect(),
    }
}

#[test]
fn mass_contains_empty_list_matches_all() {
    let t = sample_task("1", "anything", None, vec![]);
    assert!(t.mass_contains(&vec![]));
}

#[test]
fn mass_contains_single_term_cases() {
    let t = sample_task("12345", "water plants", Some("on sundays"), vec!["home"]);
    // substring of the id
    assert!(t.mass_contains(&vec!["234".to_string()]));
    // substring of the name
    assert!(t.mass_contains(&vec!["plant".to_string()]));
    // substring of the description
    assert!(t.mass_contains(&vec!["sunday".to_string()]));
    // equals a tag
    assert!(t.mass_contains(&vec!["home".to_string()]));
    // a proper substring of a tag alone does not match
    assert!(!t.mass_contains(&vec!["hom".to_string()]));
    // matching is case-sensitive
    assert!(!t.mass_contains(&vec!["Plant".to_string()]));
    // every term must match
    assert!(t.mass_contains(&vec!["water".to_string(), "home".to_string()]));
    assert!(!t.mass_contains(&vec!["water".to_string(), "desk".to_string()]));
}

#[test]
fn tag_edits_keep_set_semantics() {
    let t = sample_task("1", "n", None, vec!["a", "b"]);
    let grown = t.add_tags(vec!["b".to_string(), "c".to_string(), "c".to_string()]);
    assert_eq!(grown.tags, vec!["a".to_string(), "b".to_string(), "c".to_string()]);

    let shrunk = grown.remove_tags(&vec!["a".to_string(), "c".to_string()]);
    assert_eq!(shrunk.tags, vec!["b".to_string()]);

    let replaced = shrunk.set_tags(vec!["z".to_string()]);
    assert_eq!(replaced.tags, vec!["z".to_string()]);

    assert!(t.is_tagged("a"));
    assert!(!t.is_tagged("z"));
}

#[test]
fn updated_todo_overrides_only_given_fields() {
    let t = sample_task("1", "old", Some("desc"), vec![]);
    let u = t.updated_todo(None, Some(&7), None);
    assert_eq!(u.name(), "old");
    assert_eq!(u.description().as_deref(), Some("desc"));
    assert_eq!(u.priority(), 7);
    let v = t.updated_todo(Some("new desc"), None, Some("new"));
    assert_eq!(v.name(), "new");
    assert_eq!(v.description().as_deref(), Some("new desc"));
    assert_eq!(v.priority(), 100);
}

#[test]
fn edited_applies_tag_passes_in_order() {
    let t = sample_task("1", "n", None, vec!["a"]);
    let e = t.edited(
        &Some(vec!["b".to_string()]),
        &Some(vec!["a".to_string()]),
        &None,
        Some("d"),
        Some(&3),
        Some("m"),
    );
    assert_eq!(e.tags, vec!["b".to_string()]);
    assert_eq!(e.name(), "m");
    assert_eq!(e.priority(), 3);
    // A replacement list wins over additions and removals.
    let e = t.edited(
        &Some(vec!["b".to_string()]),
        &None,
        &Some(vec!["only".to_string()]),
        None,
        None,
        None,
    );
    assert_eq!(e.tags, vec!["only".to_string()]);
}

#[test]
fn completed_and_touched_stamp_times() {
    let t = sample_task("1", "n", None, vec![]);
    let done = t.completed_at(500);
    assert_eq!(done.last_touched(), 500);
    assert_eq!(done.closed(), Some(500));
    assert_eq!(done.id(), "1");
    let again = t.touched_at(700);
    assert_eq!(again.last_touched(), 700);
    assert_eq!(again.closed(), None);

    // The clock-reading forms keep the invariant closed-at == last-touched.
    let done_now = t.completed();
    assert_eq!(done_now.closed(), Some(done_now.last_touched()));
}

#[test]
fn new_todo_fills_defaults() {
    let t = Task::new_todo_at("walk".to_string(), None, None, None, 900, 900_123);
    assert_eq!(t.name(), "walk");
    assert_eq!(t.priority(), 100);
    assert_eq!(t.created(), 900);
    assert_eq!(t.last_touched(), 900);
    assert_eq!(t.closed(), None);
    assert_eq!(t.id(), "900123");
    assert!(t.tags.is_empty());

    let u = Task::new_todo_at(
        "run".to_string(),
        Some("fast"),
        Some(7),
        Some(vec!["fit".to_string()]),
        900,
        -45,
    );
    assert_eq!(u.id(), "-45");
    assert_eq!(u.priority(), 7);
    assert_eq!(u.description().as_deref(), Some("fast"));
    assert_eq!(u.tags, vec!["fit".to_string()]);

    // The clock-reading form derives a digits-only id.
    let v = Task::new_todo("now".to_string(), None, None, None);
    assert!(!v.id().is_empty());
    assert!(v.id().chars().all(|c| c.is_ascii_digit() || c == '-'));
}

#[test]
fn decimal_strings_are_exact() {
    assert_eq!(i64_dec_string(0), "0");
    assert_eq!(i64_dec_string(12345), "12345");
    assert_eq!(i64_dec_string(-17), "-17");
    assert_eq!(i64_dec_string(i64::MAX), "9223372036854775807");
    assert_eq!(i64_dec_string(i64::MIN), "-9223372036854775808");
}

#[test]
fn age_split_breaks_days_and_hours() {
    // 100 hours become 4 days and 4 hours.
    assert_eq!(age_split(100 * 3600, 0), (4, 4));
    // A day or less stays as plain hours.
    assert_eq!(age_split(24 * 3600, 0), (0, 24));
    assert_eq!(age_split(3 * 3600 + 100, 0), (0, 3));
    // A record touched in the future reads as zero hours.
    assert_eq!(age_split(0, 1800), (0, 0));
}

#[test]
fn kind_matches_no_term() {
    assert!(!TaskType::Todo.contains("anything"));
    assert!(!TaskType::Deadline.contains(""));
}

#[test]
fn cli_decisions() {
    let quiet = Cli { debug: false, force: false, tags: None, ntags: None, command: None };
    assert!(!quiet.forces_random());
    let tagged = Cli {
        debug: false,
        force: false,
        tags: Some(vec!["a".to_string()]),
        ntags: None,
        command: None,
    };
    assert!(tagged.forces_random());
    assert_eq!(effective_cutoff(true, 86400), 0);
    assert_eq!(effective_cutoff(false, 86400), 86400);
    assert_eq!(default_bank(), "active");
}
