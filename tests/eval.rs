use tbb::docs::{split_current_paths, split_md_paths};
use tbb::eval::{append_output, command_args, command_lines, Mode};

#[test]
fn command_fragments() {
    assert_eq!(Mode::Run.command_fragment(), "cargo run -q --");
    assert_eq!(Mode::Coverage.command_fragment(), "cargo llvm-cov run --no-report --");
}

#[test]
fn command_lines_keep_prompted_lines() {
    let code = "$ tbb job add Rent\nsome output\n  $ tbb status\n$ tbb status\n";
    assert_eq!(
        command_lines(code),
        vec!["$ tbb job add Rent".to_string(), "$ tbb status".to_string()]
    );
}

#[test]
fn command_args_split_the_expanded_line() {
    let (program, args) = command_args("$ tbb job add \"Eating out\"", Mode::Run).unwrap();
    assert_eq!(program, "cargo");
    assert_eq!(args, vec!["run", "-q", "--", "job", "add", "Eating out"]);
    let (program, args) = command_args("$ tbb status", Mode::Coverage).unwrap();
    assert_eq!(program, "cargo");
    assert_eq!(args, vec!["llvm-cov", "run", "--no-report", "--", "status"]);
    assert_eq!(command_args("tbb status", Mode::Run), None);
    assert_eq!(command_args("$ tbb job add \"open", Mode::Run), None);
}

#[test]
fn command_lines_drop_carriage_returns() {
    let code = "$ tbb status\r\n$ tbb job add Fun\r\nout\r";
    assert_eq!(
        command_lines(code),
        vec!["$ tbb status".to_string(), "$ tbb job add Fun".to_string()]
    );
    assert_eq!(command_lines(""), Vec::<String>::new());
}

#[test]
fn split_md_paths_keeps_order() {
    let paths: Vec<String> = ["a.md", "b.txt", "docs/c.md", "md", "d.MD"].iter().map(|s| s.to_string()).collect();
    let (md, other) = split_md_paths(&paths);
    assert_eq!(md, vec!["a.md".to_string(), "docs/c.md".to_string()]);
    assert_eq!(other, vec!["b.txt".to_string(), "md".to_string(), "d.MD".to_string()]);
}

#[test]
fn append_output_adds_line_and_output() {
    let out = append_output("before\n".to_string(), "$ tbb status", "[ Jan 2024 ]\n", "").unwrap();
    assert_eq!(out, "before\n$ tbb status\n[ Jan 2024 ]\n");
    let out = append_output(String::new(), "$ tbb job add x", "", "error\n").unwrap();
    assert_eq!(out, "$ tbb job add x\nerror\n");
}

#[test]
fn append_output_refuses_both_streams() {
    let err = append_output(String::new(), "$ tbb status", "out\n", "err\n").unwrap_err();
    assert_eq!(err, "stdout and stderr both exist\n$ tbb status\nout\nerr\n");
}

#[test]
fn split_current_paths_follows_flags() {
    let paths: Vec<String> = ["a.md", "b.md", "c.md"].iter().map(|s| s.to_string()).collect();
    let (current, modified) = split_current_paths(&paths, &vec![true, false, true]);
    assert_eq!(current, vec!["a.md".to_string(), "c.md".to_string()]);
    assert_eq!(modified, vec!["b.md".to_string()]);
}
