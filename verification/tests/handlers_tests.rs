use task_tracker::handlers::{build_stats, filter_tasks, history_tasks};
use task_tracker::models::{Task, TaskQuery};

fn sample_tasks() -> Vec<Task> {
    vec![
        Task {
            id: 1,
            title: "Finish Rust project".to_string(),
            description: "Build the tracker".to_string(),
            subject: "Rust".to_string(),
            status: "Pending".to_string(),
            priority: "High".to_string(),
            created_at: "2026-01-01 09:00".to_string(),
            due_at: "2026-01-10T23:59".to_string(),
            completed_at: None,
        },
        Task {
            id: 2,
            title: "Database assignment".to_string(),
            description: "Design the schema".to_string(),
            subject: "Database".to_string(),
            status: "Completed".to_string(),
            priority: "Medium".to_string(),
            created_at: "2026-01-02 10:00".to_string(),
            due_at: "2026-01-04T23:59".to_string(),
            completed_at: Some("2026-01-03 08:00".to_string()),
        },
        Task {
            id: 3,
            title: "Read chapter 4".to_string(),
            description: "Programming fundamentals".to_string(),
            subject: "Rust".to_string(),
            status: "Completed".to_string(),
            priority: "Low".to_string(),
            created_at: "2026-01-03 11:00".to_string(),
            due_at: "2026-01-05T23:59".to_string(),
            completed_at: Some("2026-01-05 09:00".to_string()),
        },
    ]
}

fn query(search: Option<&str>, status: Option<&str>, priority: Option<&str>) -> TaskQuery {
    TaskQuery {
        search: search.map(|s| s.to_string()),
        status: status.map(|s| s.to_string()),
        priority: priority.map(|s| s.to_string()),
    }
}

fn ids(tasks: &[Task]) -> Vec<i64> {
    tasks.iter().map(|t| t.id).collect()
}

#[test]
fn search_matches_title_or_subject_case_insensitively() {
    let query = TaskQuery {
        search: Some("rust".to_string()),
        status: None,
        priority: None,
    };

    let result = filter_tasks(sample_tasks(), &query);

    assert_eq!(result.len(), 2);
    assert!(result.iter().all(|t| t.subject == "Rust"));
}

#[test]
fn status_and_priority_filters_combine_with_search() {
    let query = TaskQuery {
        search: None,
        status: Some("Pending".to_string()),
        priority: Some("High".to_string()),
    };

    let result = filter_tasks(sample_tasks(), &query);

    assert_eq!(result.len(), 1);
    assert_eq!(result[0].id, 1);
}

#[test]
fn no_filters_returns_every_task() {
    let query = TaskQuery {
        search: None,
        status: None,
        priority: None,
    };

    let result = filter_tasks(sample_tasks(), &query);

    assert_eq!(result.len(), 3);
}

#[test]
fn stats_are_calculated_correctly() {
    let stats = build_stats(&sample_tasks());

    assert_eq!(stats.total, 3);
    assert_eq!(stats.pending, 1);
    assert_eq!(stats.completed, 2);
    assert_eq!(stats.high_priority, 1);
    assert_eq!(stats.by_subject.get("Rust"), Some(&2));
    assert_eq!(stats.by_subject.get("Database"), Some(&1));
}

#[test]
fn history_only_contains_completed_tasks_newest_first() {
    let history = history_tasks(sample_tasks());

    assert_eq!(history.len(), 2);
    // Task 3 was completed on 2026-01-05, task 2 on 2026-01-03, so 3
    // should come first.
    assert_eq!(history[0].id, 3);
    assert_eq!(history[1].id, 2);
}

#[test]
fn upper_case_search_term_finds_lower_and_mixed_case_text() {
    let result = filter_tasks(sample_tasks(), &query(Some("RUST"), None, None));
    assert_eq!(ids(&result), vec![1, 3]);
    let result = filter_tasks(sample_tasks(), &query(Some("dAtAbAsE"), None, None));
    assert_eq!(ids(&result), vec![2]);
}

#[test]
fn search_looks_inside_titles() {
    let result = filter_tasks(sample_tasks(), &query(Some("chapter"), None, None));
    assert_eq!(ids(&result), vec![3]);
    let result = filter_tasks(sample_tasks(), &query(Some("schema"), None, None));
    assert!(result.is_empty());
}

#[test]
fn search_term_is_not_trimmed_once_it_is_not_blank() {
    let result = filter_tasks(sample_tasks(), &query(Some(" rust"), None, None));
    assert_eq!(ids(&result), vec![1]);
}

#[test]
fn blank_search_term_keeps_every_task() {
    let result = filter_tasks(sample_tasks(), &query(Some("   "), None, None));
    assert_eq!(ids(&result), vec![1, 2, 3]);
    let result = filter_tasks(sample_tasks(), &query(Some(""), None, None));
    assert_eq!(ids(&result), vec![1, 2, 3]);
}

#[test]
fn all_and_empty_filters_keep_every_task() {
    let result = filter_tasks(sample_tasks(), &query(None, Some("All"), Some("")));
    assert_eq!(ids(&result), vec![1, 2, 3]);
}

#[test]
fn status_filter_is_exact() {
    let result = filter_tasks(sample_tasks(), &query(None, Some("Completed"), None));
    assert_eq!(ids(&result), vec![2, 3]);
    let result = filter_tasks(sample_tasks(), &query(None, Some("completed"), None));
    assert!(result.is_empty());
}

#[test]
fn all_three_conditions_combine() {
    let result = filter_tasks(sample_tasks(), &query(Some("rust"), Some("Completed"), Some("Low")));
    assert_eq!(ids(&result), vec![3]);
    let result = filter_tasks(sample_tasks(), &query(Some("rust"), Some("Completed"), Some("High")));
    assert!(result.is_empty());
}

#[test]
fn filtering_twice_changes_nothing() {
    let q = query(Some("rust"), None, None);
    let once = filter_tasks(sample_tasks(), &q);
    let twice = filter_tasks(filter_tasks(sample_tasks(), &q), &q);
    assert_eq!(ids(&once), ids(&twice));
}

fn done(id: i64, completed_at: Option<&str>) -> Task {
    Task {
        id,
        title: format!("task {}", id),
        description: "d".to_string(),
        subject: "s".to_string(),
        status: "Completed".to_string(),
        priority: "Low".to_string(),
        created_at: "2026-01-01 09:00".to_string(),
        due_at: "2026-01-05T23:59".to_string(),
        completed_at: completed_at.map(|s| s.to_string()),
    }
}

#[test]
fn history_keeps_order_of_equal_completion_times() {
    let tasks = vec![
        done(10, Some("2026-02-01 10:00")),
        done(11, Some("2026-03-01 10:00")),
        done(12, Some("2026-02-01 10:00")),
        done(13, Some("2026-01-01 10:00")),
    ];
    let history = history_tasks(tasks);
    assert_eq!(ids(&history), vec![11, 10, 12, 13]);
}

#[test]
fn history_puts_missing_completion_times_last() {
    let tasks = vec![done(20, None), done(21, Some("2026-01-01 10:00")), done(22, None)];
    let history = history_tasks(tasks);
    assert_eq!(ids(&history), vec![21, 20, 22]);
}

#[test]
fn history_orders_by_bytes() {
    let tasks = vec![done(30, Some("z")), done(31, Some("\u{e9}")), done(32, Some("Z"))];
    let history = history_tasks(tasks);
    assert_eq!(ids(&history), vec![31, 30, 32]);
}

#[test]
fn history_of_no_tasks_is_empty() {
    assert!(history_tasks(Vec::new()).is_empty());
}

#[test]
fn stats_of_no_tasks_are_zero() {
    let stats = build_stats(&[]);
    assert_eq!(stats.total, 0);
    assert_eq!(stats.pending, 0);
    assert_eq!(stats.completed, 0);
    assert_eq!(stats.high_priority, 0);
    assert_eq!(stats.by_subject.len(), 0);
    assert_eq!(stats.by_subject.get("Rust"), None);
}

#[test]
fn subject_counts_add_up_to_the_total() {
    let stats = build_stats(&sample_tasks());
    assert_eq!(stats.by_subject.len(), 2);
    let mut sum = 0;
    for i in 0..stats.by_subject.len() {
        let (_, count) = stats.by_subject.entry(i);
        sum += count;
    }
    assert_eq!(sum, stats.total);
    assert!(stats.pending + stats.completed <= stats.total);
}

#[test]
fn stats_count_exact_texts_only() {
    let mut tasks = sample_tasks();
    tasks[0].status = "pending".to_string();
    tasks[0].priority = "high".to_string();
    let stats = build_stats(&tasks);
    assert_eq!(stats.pending, 0);
    assert_eq!(stats.high_priority, 0);
    assert_eq!(stats.completed, 2);
}

#[test]
fn stats_list_every_subject_once() {
    let stats = build_stats(&sample_tasks());
    let mut names: Vec<String> = Vec::new();
    for i in 0..stats.by_subject.len() {
        let (name, count) = stats.by_subject.entry(i);
        assert_eq!(stats.by_subject.get(name), Some(&count));
        names.push(name.clone());
    }
    names.sort();
    assert_eq!(names, vec!["Database".to_string(), "Rust".to_string()]);
}
