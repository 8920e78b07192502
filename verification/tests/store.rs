use tafsk::store::{
    build_task, close_content, collect_tasks, config_content, default_config_content,
    display_order, find_task, fingerprint, folder_name, parse_config, StoreError,
};
use tafsk::task::{ParseError, Status, Task};

fn rendered(status: Status, priority: u8, tags: &[&str], title: &str) -> String {
    Task {
        tags: tags.iter().map(|t| t.to_string()).collect(),
        title: title.to_string(),
        status,
        priority,
    }
    .render()
}

#[test]
fn default_config_round_trips() {
    let content = default_config_content();
    assert!(content.starts_with("# Configuration for tafsk store\n"));
    assert_eq!(parse_config(&content), Ok(0));
}

#[test]
fn config_comments_and_blanks_are_skipped() {
    let content = "# a comment\n\n   \n  # indented comment\n+09:30\n";
    assert_eq!(parse_config(content), Ok(9 * 3600 + 30 * 60));
}

#[test]
fn config_offset_line_is_trimmed() {
    assert_eq!(parse_config("  -05:00  \n"), Ok(-18000));
}

#[test]
fn config_invalid_offset() {
    assert_eq!(parse_config("# c\nnot an offset\n"), Err(StoreError::ConfigInvalid));
}

#[test]
fn config_without_offset_line() {
    assert_eq!(parse_config("# only comments\n\n"), Err(StoreError::ConfigMissing));
    assert_eq!(parse_config(""), Err(StoreError::ConfigMissing));
}

#[test]
fn config_content_embeds_timezone() {
    let content = config_content("-05:00").unwrap();
    assert_eq!(
        content,
        "# Configuration for tafsk store\n# Timezone offset (e.g. +09:30, -05:00)\n-05:00"
    );
    assert_eq!(parse_config(&content), Ok(-18000));
}

#[test]
fn config_content_rejects_bad_timezone() {
    assert_eq!(config_content("evening"), Err(StoreError::InvalidOffsetFormat));
}

#[test]
fn folder_name_shape() {
    let name = folder_name(0, 0, "content");
    assert_eq!(&name[..16], "19700101-000000.");
    let tail = &name[16..];
    assert_eq!(tail.len(), 8);
    assert!(tail.chars().all(|c| c.is_ascii_hexdigit()));
}

#[test]
fn folder_name_is_deterministic() {
    assert_eq!(folder_name(1_700_000_000, 3600, "abc"), folder_name(1_700_000_000, 3600, "abc"));
}

#[test]
fn fingerprint_is_eight_hex_chars() {
    let fp = fingerprint("anything at all");
    assert_eq!(fp.len(), 8);
    assert!(fp.chars().all(|c| c.is_ascii_hexdigit()));
}

#[test]
fn listing_sorts_by_folder_name() {
    let entries = vec![
        ("20250103-000000.aaaaaaaa".to_string(), rendered(Status::Open, 1, &[], "third")),
        ("20250101-000000.bbbbbbbb".to_string(), rendered(Status::Open, 2, &[], "first")),
        ("20250102-000000.cccccccc".to_string(), rendered(Status::Open, 3, &[], "second")),
    ];
    let (tasks, warnings) = collect_tasks(entries);
    assert!(warnings.is_empty());
    let titles: Vec<&str> = tasks.iter().map(|(_, t)| t.title.as_str()).collect();
    assert_eq!(titles, vec!["first", "second", "third"]);
}

#[test]
fn listing_of_empty_store_is_empty() {
    let (tasks, warnings) = collect_tasks(Vec::new());
    assert!(tasks.is_empty());
    assert!(warnings.is_empty());
}

#[test]
fn listing_skips_hidden_folders() {
    let entries = vec![
        (".hidden".to_string(), rendered(Status::Open, 1, &[], "ghost")),
        ("20250101-000000.bbbbbbbb".to_string(), rendered(Status::Open, 2, &[], "real")),
    ];
    let (tasks, warnings) = collect_tasks(entries);
    assert!(warnings.is_empty());
    assert_eq!(tasks.len(), 1);
    assert_eq!(tasks[0].1.title, "real");
}

#[test]
fn corrupt_task_becomes_warning_not_error() {
    let entries = vec![
        ("20250101-000000.aaaaaaaa".to_string(), rendered(Status::Open, 1, &[], "good")),
        (
            "20250102-000000.bbbbbbbb".to_string(),
            "---\nstatus: OPEN\npriority: 3\n---\n\n".to_string(),
        ),
    ];
    let (tasks, warnings) = collect_tasks(entries);
    assert_eq!(tasks.len(), 1);
    assert_eq!(tasks[0].1.title, "good");
    assert_eq!(warnings.len(), 1);
    assert_eq!(warnings[0].0, "20250102-000000.bbbbbbbb");
    assert_eq!(warnings[0].1, ParseError::MissingTitle);
}

fn listing() -> Vec<(String, Task)> {
    let entries = vec![
        ("a".to_string() + "1", rendered(Status::Open, 1, &[], "one")),
        ("a2".to_string(), rendered(Status::Closed, 2, &[], "two")),
    ];
    let (tasks, _) = collect_tasks(entries);
    tasks
}

#[test]
fn find_task_rejects_out_of_range_index() {
    let tasks = listing();
    assert_eq!(find_task(&tasks, 0), Err(StoreError::TaskNotFound));
    assert_eq!(find_task(&tasks, 3), Err(StoreError::TaskNotFound));
}

#[test]
fn find_task_rejects_closed_task() {
    let tasks = listing();
    assert_eq!(find_task(&tasks, 2), Err(StoreError::TaskAlreadyClosed));
}

#[test]
fn find_task_resolves_open_task() {
    let tasks = listing();
    assert_eq!(find_task(&tasks, 1), Ok(0));
}

#[test]
fn close_flips_exactly_the_status_line() {
    let open = rendered(Status::Open, 9, &["a"], "flip me");
    let closed = rendered(Status::Closed, 9, &["a"], "flip me");
    assert_eq!(close_content(&open), closed);
}

#[test]
fn close_is_idempotent() {
    let open = rendered(Status::Open, 9, &[], "flip me");
    let once = close_content(&open);
    assert_eq!(close_content(&once), once);
}

#[test]
fn close_leaves_closed_content_unchanged() {
    let closed = rendered(Status::Closed, 9, &[], "already done");
    assert_eq!(close_content(&closed), closed);
}

#[test]
fn close_leaves_other_lines_alone() {
    let content = "---\nstatus: OPEN\nnote: status: OPEN is not this line\n---\n\n# t\n";
    let expected = "---\nstatus: CLOSED\nnote: status: OPEN is not this line\n---\n\n# t\n";
    assert_eq!(close_content(content), expected);
}

#[test]
fn close_only_touches_the_front_matter() {
    // A body line equal to the header line stays byte-for-byte unchanged.
    let content = "---\nstatus: OPEN\npriority: 1\n---\n\n# t\n\nstatus: OPEN\n";
    let expected = "---\nstatus: CLOSED\npriority: 1\n---\n\n# t\n\nstatus: OPEN\n";
    assert_eq!(close_content(content), expected);
}

#[test]
fn close_without_closing_delimiter_rewrites_to_the_end() {
    let content = "---\nstatus: OPEN\n";
    assert_eq!(close_content(content), "---\nstatus: CLOSED\n");
}

#[test]
fn build_task_splits_tags_and_title() {
    let payload = vec![
        "Fix".to_string(),
        "+work".to_string(),
        "the".to_string(),
        "thing".to_string(),
        "+home".to_string(),
    ];
    let t = build_task(payload, 10).unwrap();
    assert_eq!(t.title, "Fix the thing");
    assert_eq!(t.tags, vec!["work", "home"]);
    assert_eq!(t.status, Status::Open);
    assert_eq!(t.priority, 10);
}

#[test]
fn build_task_drops_empty_tag_sigil() {
    let t = build_task(vec!["+".to_string(), "title".to_string()], 5).unwrap();
    assert_eq!(t.tags, Vec::<String>::new());
    assert_eq!(t.title, "title");
}

#[test]
fn build_task_requires_a_title() {
    assert!(build_task(vec![], 10).is_none());
    assert!(build_task(vec!["+only".to_string(), "+tags".to_string()], 10).is_none());
}

#[test]
fn display_sorts_by_descending_priority() {
    let entries = vec![
        ("a1".to_string(), rendered(Status::Open, 1, &[], "low")),
        ("a2".to_string(), rendered(Status::Open, 9, &[], "high")),
        ("a3".to_string(), rendered(Status::Open, 5, &[], "mid")),
    ];
    let (tasks, _) = collect_tasks(entries);
    let rows = display_order(tasks, false);
    let titles: Vec<&str> = rows.iter().map(|(_, _, t)| t.title.as_str()).collect();
    assert_eq!(titles, vec!["high", "mid", "low"]);
    // Indexes still point into the folder-sorted listing.
    let indexes: Vec<usize> = rows.iter().map(|(i, _, _)| *i).collect();
    assert_eq!(indexes, vec![2, 3, 1]);
}

#[test]
fn display_keeps_listing_order_on_priority_ties() {
    let entries = vec![
        ("a1".to_string(), rendered(Status::Open, 5, &[], "first")),
        ("a2".to_string(), rendered(Status::Open, 9, &[], "top")),
        ("a3".to_string(), rendered(Status::Open, 5, &[], "second")),
        ("a4".to_string(), rendered(Status::Open, 5, &[], "third")),
    ];
    let (tasks, _) = collect_tasks(entries);
    let rows = display_order(tasks, false);
    let titles: Vec<&str> = rows.iter().map(|(_, _, t)| t.title.as_str()).collect();
    assert_eq!(titles, vec!["top", "first", "second", "third"]);
    let indexes: Vec<usize> = rows.iter().map(|(i, _, _)| *i).collect();
    assert_eq!(indexes, vec![2, 1, 3, 4]);
}

#[test]
fn display_hides_closed_tasks_by_default() {
    let entries = vec![
        ("a1".to_string(), rendered(Status::Open, 1, &[], "open")),
        ("a2".to_string(), rendered(Status::Closed, 9, &[], "closed")),
    ];
    let (tasks, _) = collect_tasks(entries);
    let hidden = display_order(tasks, false);
    assert_eq!(hidden.len(), 1);
    assert_eq!(hidden[0].2.title, "open");
}

#[test]
fn display_shows_closed_tasks_on_request() {
    let entries = vec![
        ("a1".to_string(), rendered(Status::Open, 1, &[], "open")),
        ("a2".to_string(), rendered(Status::Closed, 9, &[], "closed")),
    ];
    let (tasks, _) = collect_tasks(entries);
    let all = display_order(tasks, true);
    assert_eq!(all.len(), 2);
    assert_eq!(all[0].2.title, "closed");
}
