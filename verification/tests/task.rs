use tafsk::task::{ParseError, Status, Task};

fn sample(status: Status, priority: u8, tags: &[&str], title: &str) -> Task {
    Task {
        tags: tags.iter().map(|t| t.to_string()).collect(),
        title: title.to_string(),
        status,
        priority,
    }
}

#[test]
fn render_has_exact_shape() {
    let t = sample(Status::Open, 10, &["work", "home"], "Fix the thing");
    assert_eq!(
        t.render(),
        "---\nstatus: OPEN\npriority: 10\ntags: [work, home]\n---\n\n# Fix the thing\n\n\n"
    );
}

#[test]
fn render_empty_tags() {
    let t = sample(Status::Closed, 255, &[], "Done deal");
    assert_eq!(
        t.render(),
        "---\nstatus: CLOSED\npriority: 255\ntags: []\n---\n\n# Done deal\n\n\n"
    );
}

#[test]
fn round_trip_plain() {
    let t = sample(Status::Open, 10, &["work"], "Fix the thing");
    assert_eq!(Task::parse(&t.render()), Ok(sample(Status::Open, 10, &["work"], "Fix the thing")));
}

#[test]
fn round_trip_edges() {
    let cases = vec![
        sample(Status::Closed, 0, &[], "x"),
        sample(Status::Open, 255, &["a", "b", "c"], "spaces  inside   kept"),
        sample(Status::Open, 1, &["tag-with:colon"], "# leading hash in title"),
        sample(Status::Closed, 200, &["[odd]"], "---"),
    ];
    for t in cases {
        let rendered = t.render();
        assert_eq!(Task::parse(&rendered), Ok(t));
    }
}

#[test]
fn missing_front_matter_delimiter() {
    assert_eq!(Task::parse(""), Err(ParseError::MissingFrontMatterDelimiter));
    assert_eq!(
        Task::parse("status: OPEN\n---\n# x\n"),
        Err(ParseError::MissingFrontMatterDelimiter)
    );
    assert_eq!(Task::parse("--- \n"), Err(ParseError::MissingFrontMatterDelimiter));
}

#[test]
fn invalid_status_reported() {
    let content = "---\nstatus: MAYBE\npriority: 10\n---\n\n# x\n";
    assert_eq!(Task::parse(content), Err(ParseError::InvalidStatus));
}

#[test]
fn status_is_case_insensitive() {
    let content = "---\nstatus: open\npriority: 10\n---\n\n# x\n";
    assert_eq!(Task::parse(content).unwrap().status, Status::Open);
    let content = "---\nstatus: cLoSeD\npriority: 10\n---\n\n# x\n";
    assert_eq!(Task::parse(content).unwrap().status, Status::Closed);
}

#[test]
fn invalid_priority_reported() {
    let too_big = "---\nstatus: OPEN\npriority: 300\n---\n\n# x\n";
    assert_eq!(Task::parse(too_big), Err(ParseError::InvalidPriority));
    let not_a_number = "---\nstatus: OPEN\npriority: abc\n---\n\n# x\n";
    assert_eq!(Task::parse(not_a_number), Err(ParseError::InvalidPriority));
    let negative = "---\nstatus: OPEN\npriority: -1\n---\n\n# x\n";
    assert_eq!(Task::parse(negative), Err(ParseError::InvalidPriority));
}

#[test]
fn priority_accepts_plus_sign_and_leading_zeros() {
    let content = "---\nstatus: OPEN\npriority: +7\n---\n\n# x\n";
    assert_eq!(Task::parse(content).unwrap().priority, 7);
    let content = "---\nstatus: OPEN\npriority: 007\n---\n\n# x\n";
    assert_eq!(Task::parse(content).unwrap().priority, 7);
}

#[test]
fn expected_title_line() {
    let content = "---\nstatus: OPEN\npriority: 10\n---\n\nnot a title\n";
    assert_eq!(Task::parse(content), Err(ParseError::ExpectedTitleLine));
}

#[test]
fn missing_fields_reported_in_order() {
    let no_title = "---\nstatus: OPEN\npriority: 10\n---\n\n";
    assert_eq!(Task::parse(no_title), Err(ParseError::MissingTitle));
    let no_priority = "---\nstatus: OPEN\n---\n\n# x\n";
    assert_eq!(Task::parse(no_priority), Err(ParseError::MissingPriority));
    let no_status = "---\npriority: 10\n---\n\n# x\n";
    assert_eq!(Task::parse(no_status), Err(ParseError::MissingStatus));
    // Title is checked before priority and status.
    let nothing = "---\n---\n";
    assert_eq!(Task::parse(nothing), Err(ParseError::MissingTitle));
}

#[test]
fn unknown_keys_and_plain_lines_are_ignored() {
    let content = "---\nstatus: OPEN\nowner: me\njust a line\npriority: 9\n---\n\n# x\n";
    let t = Task::parse(content).unwrap();
    assert_eq!(t.priority, 9);
    assert_eq!(t.title, "x");
}

#[test]
fn tags_without_brackets() {
    let content = "---\nstatus: OPEN\npriority: 1\ntags: a, b\n---\n\n# x\n";
    assert_eq!(Task::parse(content).unwrap().tags, vec!["a", "b"]);
}

#[test]
fn tags_empty_brackets() {
    let content = "---\nstatus: OPEN\npriority: 1\ntags: []\n---\n\n# x\n";
    assert_eq!(Task::parse(content).unwrap().tags, Vec::<String>::new());
}

#[test]
fn tags_elements_are_trimmed() {
    let content = "---\nstatus: OPEN\npriority: 1\ntags: [ a ,  b c ]\n---\n\n# x\n";
    assert_eq!(Task::parse(content).unwrap().tags, vec!["a", "b c"]);
}

#[test]
fn missing_tags_default_to_empty() {
    let content = "---\nstatus: OPEN\npriority: 1\n---\n\n# x\n";
    assert_eq!(Task::parse(content).unwrap().tags, Vec::<String>::new());
}

#[test]
fn later_keys_override_earlier_ones() {
    let content = "---\nstatus: OPEN\nstatus: CLOSED\npriority: 1\npriority: 2\n---\n\n# x\n";
    let t = Task::parse(content).unwrap();
    assert_eq!(t.status, Status::Closed);
    assert_eq!(t.priority, 2);
}

#[test]
fn lines_after_title_are_ignored() {
    let content = "---\nstatus: OPEN\npriority: 1\n---\n\n# real\n\nbody text\n# not the title\n";
    assert_eq!(Task::parse(content).unwrap().title, "real");
}

#[test]
fn blank_lines_before_title_are_skipped() {
    let content = "---\nstatus: OPEN\npriority: 1\n---\n\n\n   \n# spaced\n";
    assert_eq!(Task::parse(content).unwrap().title, "spaced");
}

#[test]
fn crlf_content_parses() {
    let content = "---\r\nstatus: OPEN\r\npriority: 4\r\n---\r\n\r\n# win\r\n";
    let t = Task::parse(content).unwrap();
    assert_eq!(t.title, "win");
    assert_eq!(t.priority, 4);
}

#[test]
fn unterminated_front_matter_reports_missing_title() {
    let content = "---\nstatus: OPEN\npriority: 1\n";
    assert_eq!(Task::parse(content), Err(ParseError::MissingTitle));
}
