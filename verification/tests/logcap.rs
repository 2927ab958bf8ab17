use brocade_agent::logcap::{
    apply_policy, archive_path, command, compact_tail, consume, current_limit, initial_limit,
    journal_policy, limit_changed, max_bytes, normalize_segment, policy_path, read_policy_mib, run_args, start,
    supports_namespaces, systemd_version, validate_mib, BoundedLog, LogLimits, SinkStep,
};
use brocade_agent::paths::{
    after_attempt, atomic_write_private, file_name, path_starts_with, temporary_name, CreateStep,
    Creation, ReplaceStep, Replacing,
};

const LIMITS: LogLimits = LogLimits {
    min_mib: 16,
    max_mib: 4096,
    default_mib: 256,
};

/// A log and its predecessor, as files would hold them.
struct Files {
    current: Vec<u8>,
    archive: Vec<u8>,
}

impl Files {
    fn act(&mut self, steps: &[SinkStep], data: &[u8]) {
        for step in steps {
            match step {
                SinkStep::CompactArchive { limit } => keep_tail(&mut self.archive, *limit),
                SinkStep::CompactCurrent { limit } => keep_tail(&mut self.current, *limit),
                SinkStep::Rotate => {
                    self.archive = std::mem::take(&mut self.current);
                }
                SinkStep::Write { offset, len } => {
                    self.current.extend_from_slice(&data[*offset..*offset + *len])
                }
            }
        }
    }
}

/// Moves the tail of a file to its front as the sink does, a buffer at a time.
fn keep_tail(file: &mut Vec<u8>, limit: u64) {
    let len = file.len() as u64;
    let mut copied = 0_u64;
    let mut moved = false;
    while let Some(step) = compact_tail(len, limit, copied, 3) {
        for k in 0..step.count as usize {
            file[step.write_at as usize + k] = file[step.read_at as usize + k];
        }
        copied += step.count;
        moved = true;
    }
    if moved || len > limit {
        file.truncate(limit as usize);
    }
}

#[test]
fn current_and_archive_never_exceed_the_total_bound() {
    let input = (0_u8..64).collect::<Vec<_>>();
    let mut files = Files {
        current: Vec::new(),
        archive: Vec::new(),
    };
    files.act(&start(None, 0, 10), &[]);
    let (steps, held) = consume(0, 20, input.len());
    files.act(&steps, &input);
    assert_eq!(held, files.current.len() as u64);

    assert!(files.current.len() + files.archive.len() <= 20);
    let mut retained = files.archive;
    retained.extend(files.current);
    assert!(
        input.ends_with(&retained),
        "only the newest complete segments remain"
    );
}

#[test]
fn an_oversized_legacy_file_is_bounded_before_new_bytes_arrive() {
    let mut files = Files {
        current: b"0123456789ABCDEFGHIJ".to_vec(),
        archive: Vec::new(),
    };
    files.act(&start(Some(20), 0, 6), &[]);
    let (steps, _) = consume(files.current.len() as u64, 12, 3);
    files.act(&steps, b"new");

    assert_eq!(files.archive, b"EFGHIJ");
    assert_eq!(files.current, b"new");
}

#[test]
fn a_live_limit_reduction_compacts_both_segments_before_writing() {
    let mut files = Files {
        current: b"abcdefghij".to_vec(),
        archive: b"0123456789".to_vec(),
    };
    assert!(limit_changed(12, 20));
    files.act(&normalize_segment(10, 10, 6), &[]);
    assert!(files.current.len() <= 6);
    assert!(files.archive.len() <= 6);
    let (steps, _) = consume(files.current.len() as u64, 12, 3);
    files.act(&steps, b"XYZ");

    assert!(files.current.len() <= 6);
    assert!(files.archive.len() <= 6);
    assert!(files.current.len() + files.archive.len() <= 12);
    assert!(files.current.ends_with(b"XYZ"));
}

#[test]
fn journal_file_ceiling_tracks_a_quarter_of_machine_policy() {
    let rendered = String::from_utf8(journal_policy(320)).unwrap();
    assert!(rendered.contains("SystemMaxUse=320M"));
    assert!(rendered.contains("SystemMaxFileSize=80M"));
}

#[test]
fn systemd_version_is_read_without_depending_on_distribution_suffixes() {
    assert_eq!(
        systemd_version("systemd 252 (252.38-1~deb12u1)\n+PAM"),
        Some(252)
    );
    assert_eq!(systemd_version("systemd 245\n"), Some(245));
    assert_eq!(systemd_version("not-systemd\n"), None);
    assert!(supports_namespaces("systemd 245\n"));
    assert!(!supports_namespaces("systemd 244\n"));
}

#[test]
fn a_policy_outside_its_limits_is_refused() {
    assert_eq!(validate_mib(64, LIMITS), Ok(64));
    assert!(validate_mib(8, LIMITS).is_err());
    assert_eq!(read_policy_mib(Some(" 64\n"), LIMITS), Some(64));
    assert_eq!(read_policy_mib(Some("8"), LIMITS), None);
    assert_eq!(read_policy_mib(None, LIMITS), None);
    assert_eq!(initial_limit(None, LIMITS), max_bytes(256));
    assert_eq!(current_limit(Some("x"), LIMITS, 7), 7);
    assert_eq!(current_limit(Some("64"), LIMITS, 7), max_bytes(64));
}

#[test]
fn a_policy_in_force_changes_nothing() {
    let plan = apply_policy(64, LIMITS, Some(b"64\n"), true, Some(&journal_policy(64))).unwrap();
    assert!(!plan.changed);
    assert!(plan.journal.is_none());
    let plan = apply_policy(64, LIMITS, Some(b"32\n"), true, None).unwrap();
    assert!(plan.changed);
    assert_eq!(plan.contents, "64\n");
    assert!(plan.journal.is_some());
    assert!(apply_policy(1, LIMITS, None, false, None).is_err());
}

#[test]
fn a_sink_is_told_its_log_and_its_policy() {
    assert_eq!(
        command("/usr/bin/agent", "/s/logs/x.log", "/s", BoundedLog::Phantun),
        "'/usr/bin/agent' log-sink '/s/logs/x.log' '/s/log-max-mib'"
    );
    assert_eq!(
        command("/usr/bin/agent", "/s/logs/x.log", "/s", BoundedLog::Xray),
        "'/usr/bin/agent' log-sink '/s/logs/x.log' '/s/xray-log-max-mib'"
    );
    assert_eq!(
        policy_path("/s", BoundedLog::Journal),
        "/s/agent-journal-max-mib"
    );
    assert!(run_args(&vec!["a".to_owned(), "b".to_owned()]).is_ok());
    assert!(run_args(&vec!["a".to_owned()]).is_err());
    assert_eq!(archive_path("/s/x.log"), "/s/x.log.1");
}

#[test]
fn replacement_is_private_and_leaves_no_temporary_file() {
    let step = |stage, outcome| atomic_write_private(stage, outcome, "/s/.t", "/s/f", "/s");
    assert_eq!(step(Replacing::Opened, Ok(())), ReplaceStep::Write);
    assert_eq!(step(Replacing::Written, Ok(())), ReplaceStep::SyncFile);
    assert_eq!(step(Replacing::Synced, Ok(())), ReplaceStep::Rename);
    assert_eq!(step(Replacing::Renamed, Ok(())), ReplaceStep::SyncDirectory);
    assert_eq!(step(Replacing::Complete, Ok(())), ReplaceStep::Done);
    assert!(matches!(
        step(Replacing::Written, Err("disk full")),
        ReplaceStep::GiveUp(_)
    ));
    assert_ne!(temporary_name("f", 1, 0), temporary_name("f", 1, 1));
    assert_eq!(
        after_attempt(0, &Creation::Created, "/s/.t", "/s/f"),
        CreateStep::Use
    );
    assert_eq!(
        after_attempt(0, &Creation::Exists, "/s/.t", "/s/f"),
        CreateStep::TryNext
    );
    assert!(matches!(
        after_attempt(0, &Creation::Failed("denied".to_owned()), "/s/.t", "/s/f"),
        CreateStep::GiveUp(_)
    ));
}

#[test]
fn a_path_lies_under_another_by_whole_names() {
    assert!(path_starts_with("/var/lib/x", "/var/lib"));
    assert!(!path_starts_with("/var/library", "/var/lib"));
    assert_eq!(file_name("/s/xray.json").as_deref(), Some("xray.json"));
}
