use brocade_agent::command::{
    join_reader, run_command, run_command_with_timeout, run_shell, run_shell_with_timeout,
    wait_bounded, wait_error, CapturedOutput, Look, WaitStep,
};

#[test]
fn captures_stdout_without_waiting_for_a_pipe_to_fill() {
    let plan = run_command(
        "sh",
        &vec!["-c".to_owned(), "yes x | head -n 50000".to_owned()],
    );
    let captured = CapturedOutput {
        success: true,
        status: "exit status: 0".to_owned(),
        stdout: "x\n".repeat(50_000).into_bytes(),
        stderr: Vec::new(),
    };
    let output = run_command_with_timeout(&plan, Ok(&captured)).unwrap();
    assert!(output.len() > 50_000);
}

#[test]
fn timeout_kills_the_shell_process_group() {
    let plan = run_shell_with_timeout("trap '' TERM; sleep 30 & wait", 50);
    assert_eq!(plan.timeout_millis, 50);
    assert!(matches!(
        wait_bounded(&Look::Running, 7, 40, plan.timeout_millis),
        WaitStep::Sleep(10)
    ));
    match wait_bounded(&Look::Running, 7, 50, plan.timeout_millis) {
        WaitStep::Abort(error) => {
            let error = wait_error(&plan, &error);
            assert!(error.contains("timed out"), "实际错误：{error}");
        }
        other => panic!("{other:?}"),
    }
}

#[test]
fn a_process_that_ended_is_not_waited_for() {
    assert!(matches!(
        wait_bounded(&Look::Exited, 7, 99, 50),
        WaitStep::Finished
    ));
    assert!(matches!(
        wait_bounded(&Look::Failed("gone".to_owned()), 7, 0, 50),
        WaitStep::Abort(_)
    ));
}

#[test]
fn a_failed_command_tells_what_it_said() {
    let plan = run_shell("false");
    let captured = CapturedOutput {
        success: false,
        status: "exit status: 1".to_owned(),
        stdout: Vec::new(),
        stderr: b"no such thing\n".to_vec(),
    };
    let error = run_command_with_timeout(&plan, Ok(&captured)).unwrap_err();
    assert!(error.contains("no such thing"), "{error}");
    assert!(run_command_with_timeout(&plan, Err("spawn failed")).is_err());
}

/// Output that is no text is shown with a mark where it is not.
#[test]
fn output_that_is_no_text_keeps_the_rest() {
    let plan = run_shell("printf");
    let captured = CapturedOutput {
        success: true,
        status: "exit status: 0".to_owned(),
        stdout: vec![b'a', 0xff, b'b'],
        stderr: Vec::new(),
    };
    assert_eq!(
        run_command_with_timeout(&plan, Ok(&captured)).unwrap(),
        "a\u{fffd}b"
    );
}

#[test]
fn a_reader_that_failed_is_named() {
    assert_eq!(
        join_reader("sh", "stdout", Some(Ok(vec![1, 2]))).unwrap(),
        vec![1, 2]
    );
    assert!(join_reader("sh", "stdout", Some(Err("broken".to_owned())))
        .unwrap_err()
        .contains("broken"));
    assert!(join_reader("sh", "stderr", None).is_err());
}
