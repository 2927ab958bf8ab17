use brocade_agent::selfupdate::{
    fetch, install_release, judge_probe, probe, self_identity, self_path, selfupdate_cycle, short,
    BinarySource, InstallNext, InstallStep,
};

#[test]
fn short_is_twelve_hex_and_survives_a_short_input() {
    assert_eq!(short(&"a".repeat(64)), "aaaaaaaaaaaa");
    assert_eq!(short("abc"), "abc");
}

#[test]
fn a_candidate_that_cannot_execute_is_refused() {
    assert!(probe(Err("No such file or directory (os error 2)"), "x86_64").is_err());
}

/// A program that runs, says nothing and ends is not this one.
#[test]
fn a_binary_that_runs_but_is_not_an_agent_is_refused() {
    let silent: &[u8] = b"";
    assert!(probe(Ok((silent, silent)), "x86_64").is_err());
    let said: &[u8] = b"unknown command; expected run, desired, apply-once";
    assert!(probe(Ok((silent, said)), "x86_64").is_ok());
    assert!(judge_probe("usage: something else").is_err());
}

fn release(sha256: &str) -> BinarySource {
    BinarySource {
        url: "file:///candidate".to_owned(),
        sha256: sha256.to_owned(),
    }
}

#[test]
fn a_control_plane_without_the_endpoint_is_not_an_error() {
    assert_eq!(
        selfupdate_cycle(Some("a"), 404, "not found", Err("not found")),
        Ok(None),
        "404 不该报错"
    );
    assert_eq!(selfupdate_cycle(Some("a"), 204, "", Err("")), Ok(None));
    assert!(selfupdate_cycle(Some("a"), 500, "", Err("")).is_err());
}

#[test]
fn only_another_program_is_installed() {
    let running = "a".repeat(64);
    let other = "b".repeat(64);
    assert_eq!(
        selfupdate_cycle(Some(&running), 200, "{}", Ok(&release(&running))),
        Ok(None)
    );
    assert_eq!(
        selfupdate_cycle(Some(&running), 200, "{}", Ok(&release(&other))),
        Ok(Some(other.clone()))
    );
    assert_eq!(
        selfupdate_cycle(None, 200, "{}", Ok(&release(&other))),
        Ok(None)
    );
}

#[test]
fn a_sha_that_does_not_match_stops_before_anything_is_installed() {
    let wanted = "f".repeat(64);
    let step = |step, outcome| install_release(step, outcome, &wanted, "/b/.new", "/b/agent");
    assert_eq!(
        step(InstallStep::Fetch, Ok("")),
        InstallNext::Do(InstallStep::Digest)
    );
    match step(InstallStep::Digest, Ok("0000")) {
        InstallNext::Fail {
            message,
            remove_staged,
        } => {
            assert!(message.contains("对不上"), "{message}");
            assert!(!remove_staged);
        }
        other => panic!("{other:?}"),
    }
}

#[test]
fn a_program_is_verified_then_tried_then_installed() {
    let wanted = "f".repeat(64);
    let mut step = InstallStep::Fetch;
    let mut order = vec![step];
    loop {
        match install_release(step, Ok(&wanted), &wanted, "/b/.new", "/b/agent") {
            InstallNext::Do(next) => {
                step = next;
                order.push(step);
            }
            InstallNext::Done => break,
            other => panic!("{other:?}"),
        }
    }
    assert_eq!(
        order,
        vec![
            InstallStep::Fetch,
            InstallStep::Digest,
            InstallStep::MakeExecutable,
            InstallStep::Probe,
            InstallStep::Copy,
            InstallStep::MakeStagedExecutable,
            InstallStep::Rename
        ]
    );
    for step in order {
        assert!(matches!(
            install_release(step, Err("x"), &wanted, "/b/.new", "/b/agent"),
            InstallNext::Fail { .. }
        ));
    }
}

#[test]
fn a_program_knows_its_own_place() {
    assert!(self_path(Ok("/usr/local/bin/brocade-agent")).is_ok());
    assert!(self_path(Err("denied")).is_err());
    assert_ne!(self_identity(Some(&"a".repeat(64))), self_identity(None));
    assert!(fetch("https://x/agent", "/s/agent.download")
        .args
        .iter()
        .any(|arg| arg.contains("https://x/agent")));
}

#[test]
fn a_failure_leaves_no_copy_behind() {
    for (step, begun) in [
        (InstallStep::Fetch, false),
        (InstallStep::Probe, false),
        (InstallStep::Copy, true),
        (InstallStep::MakeStagedExecutable, true),
        (InstallStep::Rename, true),
    ] {
        match install_release(step, Err("x"), "aa", "/b/.new", "/b/agent") {
            InstallNext::Fail { remove_staged, .. } => assert_eq!(remove_staged, begun),
            other => panic!("{other:?}"),
        }
    }
}
