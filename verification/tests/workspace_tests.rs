use grader::download::User;
use grader::settings::{Assignment as AssignmentSettings, Settings};
use grader::workspace::{validate_course_name, UserId, Users, Workspace, WorkspaceError};

fn settings() -> Settings {
    let a = |id: u32| AssignmentSettings {
        id,
        compile: "gcc %REMOTE_PATH".to_string(),
        filename: None,
        separate_directories: false,
    };
    Settings {
        course: 1,
        section: 2,
        assignment: vec![("hw1".to_string(), a(11)), ("hw2".to_string(), a(22))],
    }
}

#[test]
fn token_is_trimmed() {
    let ws = Workspace::new("/ws".to_string(), "  abc123\n");
    assert_eq!(ws.token, "abc123");
    assert_eq!(ws.root, "/ws");
}

#[test]
fn course_names() {
    assert_eq!(validate_course_name("CSCI-101"), Ok(()));
    assert_eq!(validate_course_name("MATH-204"), Ok(()));
    for bad in ["csci-101", "CSCI101", "CSCI-10", "CSCI-1011", "CSC1-101", "CSCI_101", "CSCI-1a1", ""] {
        assert_eq!(
            validate_course_name(bad),
            Err(WorkspaceError::InvalidCourseName(bad.to_string())),
            "{bad}"
        );
    }
    assert_eq!(
        WorkspaceError::InvalidCourseName("x".to_string()).message(),
        "invalid course name 'x': expected format like 'CSCI-101'"
    );
}

#[test]
fn courses_and_assignments() {
    let ws = Workspace::new("/ws".to_string(), "t");
    let course = ws.course("CSCI-101", settings()).unwrap();
    assert_eq!(course.path, "/ws/CSCI-101");
    let a = course.assignment("hw2").unwrap();
    assert_eq!(a.path, "/ws/CSCI-101/hw2");
    assert_eq!(a.id, 22);
    assert_eq!(a.settings.id, 22);
    let e = course.assignment("hw3").err().unwrap();
    assert_eq!(e, WorkspaceError::AssignmentNotFound("hw3".to_string()));
    assert_eq!(e.message(), "assignment 'hw3' not found in settings.toml");
    assert!(ws.course("bad", settings()).is_err());
}

#[test]
fn current_course_and_assignment() {
    let ws = Workspace::new("/ws".to_string(), "t");
    assert_eq!(ws.current_course_name("/ws/CSCI-101/hw1/x"), Ok("CSCI-101".to_string()));
    assert_eq!(ws.current_course_name("/ws"), Err(WorkspaceError::AtWorkspaceRoot));
    assert_eq!(ws.current_course_name("/tmp"), Err(WorkspaceError::NotInWorkspace));
    assert_eq!(
        WorkspaceError::NotInWorkspace.message(),
        "current directory is not inside the workspace"
    );
    assert_eq!(
        WorkspaceError::AtWorkspaceRoot.message(),
        "current directory is the workspace root, not a course"
    );
    let course = ws.course("CSCI-101", settings()).unwrap();
    assert_eq!(course.current_assignment("/ws/CSCI-101/hw1").unwrap().id, 11);
    assert_eq!(course.current_assignment("/ws/CSCI-101/hw2/sub/dir").unwrap().id, 22);
    assert_eq!(course.current_assignment("/ws/CSCI-101").err(), Some(WorkspaceError::AtCourseRoot));
    assert_eq!(course.current_assignment("/ws").err(), Some(WorkspaceError::NotInCourse));
    assert_eq!(
        course.current_assignment("/ws/CSCI-101/hw9").err(),
        Some(WorkspaceError::AssignmentNotFound("hw9".to_string()))
    );
    assert_eq!(
        WorkspaceError::AtCourseRoot.message(),
        "current directory is the course root, not an assignment"
    );
    assert_eq!(WorkspaceError::NotInCourse.message(), "current directory is not inside this course");
}

#[test]
fn roster_is_kept_once() {
    let ws = Workspace::new("/ws".to_string(), "t");
    let mut course = ws.course("CSCI-101", settings()).unwrap();
    assert!(course.users().is_none());
    let u = |id: u32, n: &str| User { id: UserId(id), name: n.to_string(), sortable_name: n.to_string() };
    course.init_users(Users::from_vec(vec![u(1, "First")]));
    course.init_users(Users::from_vec(vec![u(1, "Second")]));
    assert_eq!(course.users().unwrap().get(UserId(1)).unwrap().name, "First");
}

#[test]
fn settings_lookup() {
    let s = settings();
    assert_eq!(s.get("hw1").unwrap().id, 11);
    assert!(s.get("hw").is_none());
}

#[test]
fn unique_assignment_names() {
    assert!(settings().has_unique_names());
    let mut s = settings();
    let dup = AssignmentSettings { id: 33, compile: String::new(), filename: None, separate_directories: false };
    s.assignment.push(("hw1".to_string(), dup));
    assert!(!s.has_unique_names());
}
