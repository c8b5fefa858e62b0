use iron_pass::shell_env::{env_assignments, shell_env_vars, Error};

fn pairs(v: &[(String, String)]) -> Vec<(&str, &str)> {
    v.iter().map(|(a, b)| (a.as_str(), b.as_str())).collect()
}

#[test]
fn assignments_split_at_first_equals() {
    let r = env_assignments("A=1\n\nB=x=y\nnot an assignment\nC=\n");
    assert_eq!(pairs(&r), vec![("A", "1"), ("B", "x=y"), ("C", "")]);
}

#[test]
fn failed_shell_reports_its_error_output() {
    match shell_env_vars(false, "anything", "boom") {
        Err(Error::EchoFailed(e)) => assert_eq!(e, "boom"),
        _ => panic!("expected EchoFailed"),
    }
}

#[test]
fn output_without_delimiter_is_invalid() {
    match shell_env_vars(true, "PATH=/bin\n", "") {
        Err(Error::InvalidOutput(o)) => assert_eq!(o, "PATH=/bin\n"),
        _ => panic!("expected InvalidOutput"),
    }
}

#[test]
fn environment_between_delimiters() {
    let out = "motd\n_SHELL_ENV_DELIMITER_HOME=/root\n\x1b[32mPATH\x1b[0m=/bin:/usr/bin\n_SHELL_ENV_DELIMITER_X=1";
    match shell_env_vars(true, out, "") {
        Ok(v) => assert_eq!(pairs(&v), vec![("HOME", "/root"), ("PATH", "/bin:/usr/bin")]),
        _ => panic!("expected Ok"),
    }
}

#[test]
fn environment_after_single_delimiter() {
    let out = "_SHELL_ENV_DELIMITER_A=b";
    match shell_env_vars(true, out, "") {
        Ok(v) => assert_eq!(pairs(&v), vec![("A", "b")]),
        _ => panic!("expected Ok"),
    }
}
