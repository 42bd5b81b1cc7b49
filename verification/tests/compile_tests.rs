use grader::compile::{
    compile_error_line, compile_table, expand_command, parse_remote_output, plan_compile, remote_command,
    result_text, ssh_output, status_cell, CompileError, CompileResult, Status, StatusPretty,
};

fn result(stdout: &str, stderr: &str, exit_code: i32) -> CompileResult {
    CompileResult {
        file: "/ws/CSCI-101/hw1/doe-john-main.c".to_string(),
        stdout: stdout.to_string(),
        stderr: stderr.to_string(),
        exit_code,
    }
}

#[test]
fn statuses() {
    assert_eq!(result("", "", 0).status(), Status::Success);
    assert_eq!(result("  \n", "warning on stderr", 0).status(), Status::Success);
    assert_eq!(result("main.c:1: warning\n", "", 0).status(), Status::Warning);
    assert_eq!(result("", "", 1).status(), Status::Fail);
    assert_eq!(Status::Success.text(), "success");
    assert_eq!(Status::Warning.text(), "warning");
    assert_eq!(Status::Fail.text(), "fail");
}

#[test]
fn pretty_statuses() {
    assert_eq!(StatusPretty(Status::Success).text(), "\x1b[1m\x1b[32msuccess\x1b[39m\x1b[0m");
    assert_eq!(StatusPretty(Status::Warning).text(), "\x1b[1m\x1b[33mwarning\x1b[39m\x1b[0m");
    assert_eq!(StatusPretty(Status::Fail).text(), "\x1b[1m\x1b[31mfail\x1b[39m\x1b[0m");
    assert_eq!(result("x", "", 0).status_pretty().text(), "\x1b[1m\x1b[33mwarning\x1b[39m\x1b[0m");
}

#[test]
fn remote_output_is_parsed() {
    let o = parse_remote_output("main.c: error\nline two\r\nexit:1\n", "stderr".to_string()).unwrap();
    assert_eq!(o.stdout, "main.c: error\nline two\n");
    assert_eq!(o.stderr, "stderr");
    assert_eq!(o.exit_code, 1);
    let o = parse_remote_output("exit:0\n", String::new()).unwrap();
    assert_eq!(o.stdout, "");
    assert_eq!(o.exit_code, 0);
    assert_eq!(
        parse_remote_output("no status here\n", String::new()).err(),
        Some(CompileError::NoExitCode)
    );
    assert_eq!(
        parse_remote_output("exit:0\nexit:oops\n", String::new()).err(),
        Some(CompileError::NoExitCode)
    );
    let o = parse_remote_output("exit:x\nexit:-3", String::new()).unwrap();
    assert_eq!(o.exit_code, -3);
}

#[test]
fn ssh_output_reads_bytes() {
    let o = ssh_output(b"hello\nexit:2\n", b"err\xff").unwrap();
    assert_eq!(o.stdout, "hello\n");
    assert_eq!(o.stderr, "err\u{fffd}");
    assert_eq!(o.exit_code, 2);
}

#[test]
fn remote_command_appends_exit_status() {
    assert_eq!(remote_command("mkdir -p x"), "mkdir -p x 2>&1; echo \"exit:$?\"");
}

#[test]
fn expand_placeholders() {
    assert_eq!(
        expand_command("gcc %GCC_FLAGS %REMOTE_PATH -o %REMOTE_BUILD", "~/a/b.c", "~/a/b"),
        "gcc -Wall -Wextra -pedantic -fdiagnostics-color=always ~/a/b.c -o ~/a/b"
    );
    assert_eq!(expand_command("make", "p", "b"), "make");
    assert_eq!(expand_command("%REMOTE_PATHX %%REMOTE_BUILD %", "p", "b"), "pX %b %");
    assert_eq!(expand_command("", "p", "b"), "");
}

#[test]
fn plans() {
    let t = "gcc %GCC_FLAGS %REMOTE_PATH -o %REMOTE_BUILD";
    let p = plan_compile("/ws/CSCI-101/hw1/doe-john-main.c", "/ws", t, false).unwrap();
    assert_eq!(p.mkdir_command, "mkdir -p ~/Desktop/ta/CSCI-101/hw1");
    assert_eq!(p.remote_path, "~/Desktop/ta/CSCI-101/hw1/doe-john-main.c");
    assert_eq!(p.remote_build, "~/Desktop/ta/CSCI-101/hw1/doe-john-main");
    assert_eq!(p.scp_target, "wwu:~/Desktop/ta/CSCI-101/hw1/doe-john-main.c");
    assert_eq!(
        p.compile_command,
        "gcc -Wall -Wextra -pedantic -fdiagnostics-color=always ~/Desktop/ta/CSCI-101/hw1/doe-john-main.c -o ~/Desktop/ta/CSCI-101/hw1/doe-john-main"
    );
    let p = plan_compile("/ws/CSCI-101/hw1/doe-john-main.c", "/ws/", t, true).unwrap();
    assert_eq!(p.mkdir_command, "mkdir -p ~/Desktop/ta/CSCI-101/hw1/doe-john");
    assert_eq!(p.remote_path, "~/Desktop/ta/CSCI-101/hw1/doe-john/doe-john-main.c");
    assert_eq!(p.remote_build, "~/Desktop/ta/CSCI-101/hw1/doe-john/doe-john-main");
}

#[test]
fn plan_errors() {
    let t = "gcc %REMOTE_PATH";
    assert_eq!(plan_compile("/elsewhere/a/b/c.c", "/ws", t, false).err(), Some(CompileError::NotInWorkspace));
    assert_eq!(plan_compile("/wsx/a/b/c.c", "/ws", t, false).err(), Some(CompileError::NotInWorkspace));
    assert_eq!(
        plan_compile("/ws/a/c.c", "/ws", t, false).err(),
        Some(CompileError::InvalidPath("a/c.c".to_string()))
    );
    assert_eq!(
        plan_compile("/ws/a/b/c.h", "/ws", t, false).err(),
        Some(CompileError::InvalidPath("a/b/c.h".to_string()))
    );
    assert_eq!(
        plan_compile("/ws/a/b/main.c", "/ws", t, true).err(),
        Some(CompileError::NoStudentName("main.c".to_string()))
    );
    assert_eq!(
        CompileError::InvalidPath("a/c.c".to_string()).message(),
        "invalid path: 'a/c.c'\nshould have the format ta/<class>/<assignment>/<file>.c"
    );
    assert_eq!(CompileError::NotInWorkspace.message(), "file is not in the 'ta' directory");
    assert_eq!(CompileError::NoExitCode.message(), "could not determine remote exit code");
}

#[test]
fn result_reports() {
    let r = result("warn\n", "", 0);
    assert_eq!(
        result_text(&r),
        "\x1b[1m\x1b[36m== doe-john-main.c ==\x1b[39m\x1b[0m\nwarn\n\x1b[1m\x1b[33mwarning\x1b[39m\x1b[0m\n"
    );
    let r = result("", "gcc: error\n", 1);
    assert_eq!(
        result_text(&r),
        "\x1b[1m\x1b[36m== doe-john-main.c ==\x1b[39m\x1b[0m\ngcc: error\n\x1b[1m\x1b[31mfail\x1b[39m\x1b[0m: exit code \x1b[1m\x1b[31m1\x1b[39m\x1b[0m\n\n"
    );
}

#[test]
fn status_cells_and_error_lines() {
    assert_eq!(status_cell(&Ok(result("", "", 0))), "\x1b[1m\x1b[32msuccess\x1b[39m\x1b[0m");
    assert_eq!(status_cell(&Err("boom".to_string())), "\x1b[31minternal error\x1b[39m");
    assert_eq!(
        compile_error_line("a.c", "boom"),
        "\x1b[1m\x1b[31merror\x1b[39m\x1b[0m compiling 'a.c': boom"
    );
}

#[test]
fn compile_table_lists_file_names() {
    let paths = vec!["/ws/CSCI-101/hw1/doe-john-main.c".to_string(), "a.c".to_string()];
    let t = compile_table(&paths).unwrap();
    assert_eq!(t.len(), 2);
    assert_eq!(t.row_text_at(0), "doe-john-main.c  ...   ");
    assert_eq!(t.row_text_at(1), "a.c              ...   ");
    assert!(compile_table(&vec!["/ws/..".to_string()]).is_none());
    assert_eq!(compile_table(&vec![]).unwrap().len(), 0);
}
