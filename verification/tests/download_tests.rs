use grader::download::{
    bracket_list, bearer, download_status, filename_matches, names_match, next_page, page_url,
    sections_url, snakeify, sort_submissions, Attachment, Submission, User, PER_PAGE,
};
use grader::settings::{Assignment as AssignmentSettings, Settings};
use grader::workspace::{UserId, Users, Workspace};

fn settings(filename: Option<&str>) -> Settings {
    Settings {
        course: 12345,
        section: 67890,
        assignment: vec![(
            "hw1".to_string(),
            AssignmentSettings {
                id: 11111,
                compile: "gcc %GCC_FLAGS %REMOTE_PATH -o %REMOTE_BUILD".to_string(),
                filename: filename.map(|f| f.to_string()),
                separate_directories: false,
            },
        )],
    }
}

fn user(id: u32, name: &str, sortable: &str) -> User {
    User { id: UserId(id), name: name.to_string(), sortable_name: sortable.to_string() }
}

fn attachment(name: &str) -> Attachment {
    Attachment { display_name: name.to_string(), url: format!("https://files/{name}") }
}

fn submission(id: u32, files: &[&str]) -> Submission {
    Submission {
        user_id: UserId(id),
        score: None,
        attachments: files.iter().map(|f| attachment(f)).collect(),
    }
}

#[test]
fn snakeify_names() {
    assert_eq!(snakeify("Doe, John"), "doe-john");
    assert_eq!(snakeify("Smith-Jones, Jane"), "smithjones-jane");
    assert_eq!(snakeify("O'Brien  Ann 2"), "obrien--ann-2");
    assert_eq!(snakeify("Zoë"), "zo");
    assert_eq!(snakeify(""), "");
}

#[test]
fn filename_matching_examples() {
    assert!(filename_matches("foo.c", "foo.c"));
    assert!(filename_matches("foo-1.c", "foo.c"));
    assert!(filename_matches("foo-2.c", "foo.c"));
    assert!(filename_matches("FOO-12.C", "foo.c"));
    assert!(filename_matches("foo", "foo"));
    assert!(filename_matches("foo-1", "foo"));
    assert!(!filename_matches("foo-.c", "foo.c"));
    assert!(!filename_matches("foo-a.c", "foo.c"));
    assert!(!filename_matches("foo.h", "foo.c"));
    assert!(!filename_matches("foo", "foo.c"));
    assert!(!filename_matches("foobar.c", "foo.c"));
    assert!(!filename_matches("foo1.c", "foo.c"));
    assert!(filename_matches("a.b-3.c", "a.b.c"));
    assert!(!filename_matches("main.c", "foo.c"));
}

#[test]
fn names_match_on_lowered_names() {
    assert!(names_match("main-10.c", "main.c"));
    assert!(!names_match("Main.c", "main.c"));
    assert!(names_match("", ""));
    assert!(names_match(".c", ".c"));
    assert!(names_match("-1.c", ".c"));
}

#[test]
fn find_attachment_with_expected_name() {
    let ws = Workspace::new("/ws".to_string(), "tok\n");
    let course = ws.course("CSCI-101", settings(Some("main.c"))).unwrap();
    let a = course.assignment("hw1").unwrap();
    let s = submission(1, &["notes.txt", "main-2.c", "main.c"]);
    assert_eq!(a.find_attachment(&s), Ok(1));
    let s = submission(1, &["notes.txt", "other.c"]);
    assert_eq!(
        a.find_attachment(&s),
        Err("error: couldn't find \"main.c\" in attachments: [\"notes.txt\", \"other.c\"]".to_string())
    );
    let s = submission(1, &[]);
    assert_eq!(a.find_attachment(&s), Err("error: couldn't find \"main.c\" in attachments: []".to_string()));
    let s = submission(1, &["whatever.txt"]);
    assert_eq!(a.find_attachment(&s), Ok(0));
}

#[test]
fn find_attachment_without_expected_name() {
    let ws = Workspace::new("/ws".to_string(), "tok");
    let course = ws.course("CSCI-101", settings(None)).unwrap();
    let a = course.assignment("hw1").unwrap();
    assert_eq!(a.find_attachment(&submission(1, &["x.c"])), Ok(0));
    assert_eq!(
        a.find_attachment(&submission(1, &["x.c", "y.c"])),
        Err("error: multiple files submitted: [\"x.c\", \"y.c\"]".to_string())
    );
    assert_eq!(
        a.find_attachment(&submission(1, &[])),
        Err("error: multiple files submitted: []".to_string())
    );
    assert_eq!(
        a.find_attachment(&submission(1, &["a\"b.c", "c"])),
        Err("error: multiple files submitted: [\"a\\\"b.c\", \"c\"]".to_string())
    );
}

#[test]
fn saved_file_names() {
    let ws = Workspace::new("/ws".to_string(), "tok");
    let course = ws.course("CSCI-101", settings(Some("main.c"))).unwrap();
    let a = course.assignment("hw1").unwrap();
    let u = user(1, "John Doe", "Doe, John");
    assert_eq!(a.submission_filename(&u, &attachment("main.c")), "doe-john-main.c");
    assert_eq!(a.submission_filename(&u, &attachment("dir/x.c")), "x.c");
    assert_eq!(a.submission_path(&u, &attachment("main.c")), "/ws/CSCI-101/hw1/doe-john-main.c");
    let s = submission(1, &["readme", "main-1.c"]);
    assert_eq!(a.attachment_filename(&u, &s), Ok("doe-john-main-1.c".to_string()));
    let s = submission(1, &["readme"]);
    assert_eq!(a.attachment_filename(&u, &s), Ok("doe-john-readme".to_string()));
    let s = submission(1, &["readme", "notes"]);
    assert_eq!(
        a.attachment_filename(&u, &s),
        Err("error: couldn't find \"main.c\" in attachments: [\"readme\", \"notes\"]".to_string())
    );
}

#[test]
fn sorting_puts_test_student_last_and_is_stable() {
    let users = Users::from_vec(vec![
        user(1, "Test Student", "Student, Test"),
        user(2, "Bob Brown", "Brown, Bob"),
        user(3, "Al Adams", "Adams, Al"),
        user(4, "Cy Clark", "Clark, Cy"),
    ]);
    let subs = vec![
        submission(1, &["t.c"]),
        submission(4, &["c1.c"]),
        submission(2, &["b.c"]),
        submission(3, &["a.c"]),
        submission(4, &["c2.c"]),
    ];
    let sorted = sort_submissions(subs, &users);
    let order: Vec<(u32, String)> =
        sorted.iter().map(|s| (s.user_id.0, s.attachments[0].display_name.clone())).collect();
    assert_eq!(
        order,
        vec![
            (3, "a.c".to_string()),
            (2, "b.c".to_string()),
            (4, "c1.c".to_string()),
            (4, "c2.c".to_string()),
            (1, "t.c".to_string()),
        ]
    );
}

#[test]
fn roster_keeps_last_user_per_id() {
    let users = Users::from_vec(vec![user(1, "A", "a"), user(2, "B", "b"), user(1, "C", "c")]);
    assert_eq!(users.get(UserId(1)).unwrap().name, "C");
    assert_eq!(users.get(UserId(2)).unwrap().name, "B");
    assert!(users.get(UserId(3)).is_none());
}

#[test]
fn rows_and_jobs() {
    let ws = Workspace::new("/ws".to_string(), "tok");
    let course = ws.course("CSCI-101", settings(Some("main.c"))).unwrap();
    let a = course.assignment("hw1").unwrap();
    let users = Users::from_vec(vec![user(1, "Al Adams", "Adams, Al"), user(2, "Bo Bell", "Bell, Bo")]);
    let mut s1 = submission(1, &["main.c"]);
    s1.score = Some("9.5".to_string());
    let s2 = submission(2, &[]);
    let s3 = submission(2, &["x.txt", "y.txt"]);
    assert_eq!(a.submission_row(&s1, &users), vec!["Al Adams", "adams-al-main.c", "9.5", "..."]);
    assert_eq!(a.submission_row(&s2, &users), vec!["Bo Bell", "<not submitted>", "<not graded>", ""]);
    assert_eq!(
        a.submission_row(&s3, &users),
        vec![
            "Bo Bell",
            "error: couldn't find \"main.c\" in attachments: [\"x.txt\", \"y.txt\"]",
            "<not graded>",
            "..."
        ]
    );
    assert_eq!(a.checked_row(&s3, &users).unwrap(), a.submission_row(&s3, &users));
    let dotted = submission(1, &["main.c/.."]);
    let c2 = ws.course("CSCI-101", settings(None)).unwrap();
    let a2 = c2.assignment("hw1").unwrap();
    assert!(a2.checked_row(&dotted, &users).is_none());
    let jobs = a.download_jobs(&vec![s1, s2, s3], &users);
    assert_eq!(jobs.len(), 1);
    assert_eq!(jobs[0].row, 0);
    assert_eq!(jobs[0].url, "https://files/main.c");
    assert_eq!(jobs[0].path, "/ws/CSCI-101/hw1/adams-al-main.c");
}

#[test]
fn urls_and_headers() {
    assert_eq!(sections_url("123"), "https://wwu.instructure.com/api/v1/courses/123/sections");
    assert_eq!(bearer("abc"), "Bearer abc");
    let ws = Workspace::new("/ws".to_string(), "tok");
    let course = ws.course("CSCI-101", settings(None)).unwrap();
    assert_eq!(course.users_url(), "https://wwu.instructure.com/api/v1/sections/67890/users?per_page=100");
    let a = course.assignment("hw1").unwrap();
    assert_eq!(
        a.submissions_url(),
        "https://wwu.instructure.com/api/v1/sections/67890/assignments/11111/submissions?per_page=100"
    );
}

#[test]
fn download_statuses() {
    assert_eq!(download_status(None, b"x"), "\x1b[33mnew\x1b[39m");
    assert_eq!(download_status(Some(b"x"), b"y"), "\x1b[33mchanged\x1b[39m");
    assert_eq!(download_status(Some(b"x"), b"x"), "\x1b[32munchanged\x1b[39m");
}

#[test]
fn bracket_lists() {
    assert_eq!(bracket_list(&vec![]), "[]");
    assert_eq!(bracket_list(&vec!["a".to_string()]), "[a]");
    assert_eq!(bracket_list(&vec!["a".to_string(), "\"b\"".to_string()]), "[a, \"b\"]");
}

#[test]
fn single_upload_is_taken_whatever_its_name() {
    let ws = Workspace::new("/ws".to_string(), "tok");
    let course = ws.course("CSCI-101", settings(Some("main.c"))).unwrap();
    let a = course.assignment("hw1").unwrap();
    let users = Users::from_vec(vec![user(2, "Bo Bell", "Bell, Bo")]);
    let s = submission(2, &["solution.txt"]);
    assert_eq!(a.find_attachment(&s), Ok(0));
    assert_eq!(a.submission_row(&s, &users), vec!["Bo Bell", "bell-bo-solution.txt", "<not graded>", "..."]);
    let jobs = a.download_jobs(&vec![s], &users);
    assert_eq!(jobs.len(), 1);
    assert_eq!(jobs[0].path, "/ws/CSCI-101/hw1/bell-bo-solution.txt");
}

#[test]
fn matching_ignores_ascii_case() {
    for (d, e) in [("main-2.c", "main.c"), ("Main.C", "main.c"), ("foo", "foo-1"), ("x.c", "y.c")] {
        let base = filename_matches(d, e);
        assert_eq!(filename_matches(&d.to_ascii_uppercase(), e), base);
        assert_eq!(filename_matches(d, &e.to_ascii_uppercase()), base);
        assert!(filename_matches(d, d));
    }
}

#[test]
fn submission_table_rows_and_widths() {
    let ws = Workspace::new("/ws".to_string(), "tok");
    let course = ws.course("CSCI-101", settings(Some("main.c"))).unwrap();
    let a = course.assignment("hw1").unwrap();
    let users = Users::from_vec(vec![user(1, "Al Adams", "Adams, Al"), user(2, "Bo Bell", "Bell, Bo")]);
    let mut s1 = submission(1, &["main.c"]);
    s1.score = Some("9.5".to_string());
    let s2 = submission(2, &[]);
    let t = a.submission_table(&vec![s1, s2], &users).unwrap();
    assert_eq!(t.len(), 2);
    assert_eq!(t.row_text_at(0), "Al Adams  adams-al-main.c  9.5           ...   ");
    assert_eq!(t.row_text_at(1), "Bo Bell   <not submitted>  <not graded>        ");
    assert_eq!(
        t.headers_text(),
        "\x1b[90mName    \x1b[39m  \x1b[90mFilename       \x1b[39m  \x1b[90mScore       \x1b[39m  \x1b[90mStatus\x1b[39m"
    );
}

#[test]
fn submission_table_refuses_a_nameless_file() {
    let ws = Workspace::new("/ws".to_string(), "tok");
    let course = ws.course("CSCI-101", settings(None)).unwrap();
    let a = course.assignment("hw1").unwrap();
    let users = Users::from_vec(vec![user(1, "Al Adams", "Adams, Al")]);
    assert!(a.submission_table(&vec![submission(1, &["main.c/.."])], &users).is_none());
    assert_eq!(a.submission_table(&vec![], &users).unwrap().len(), 0);
}

#[test]
fn pages_follow_while_full() {
    assert_eq!(
        page_url("https://wwu.instructure.com/api/v1/sections/1/users?per_page=100", 3),
        "https://wwu.instructure.com/api/v1/sections/1/users?per_page=100&page=3"
    );
    assert_eq!(PER_PAGE, 100);
    assert_eq!(next_page(1, 100), Some(2));
    assert_eq!(next_page(7, 150), Some(8));
    assert_eq!(next_page(1, 99), None);
    assert_eq!(next_page(2, 0), None);
    assert_eq!(next_page(u32::MAX, 100), None);
}
