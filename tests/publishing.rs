use durable_log::publish::{first_action, generate_temp_name, next_action, temp_file_name};
use durable_log::{Action, Parent, PublishError, Step};

/// Runs the step machine against an in-memory disk; `fail_at` names a step
/// that fails and `crash_before` a step before which the run stops.
fn run(
    parent: Parent,
    old: &[u8],
    data: &[u8],
    fail_at: Option<Step>,
    crash_before: Option<Step>,
) -> (Vec<u8>, Option<Action>, Vec<Step>) {
    let mut target = old.to_vec();
    let mut temp: Option<Vec<u8>> = None;
    let mut done = Vec::new();
    let mut action = first_action(parent);
    loop {
        match action {
            Action::Perform(step) => {
                if crash_before == Some(step) {
                    return (target, None, done);
                }
                let ok = fail_at != Some(step);
                if ok {
                    match step {
                        Step::CreateTemp => temp = Some(Vec::new()),
                        Step::WriteTemp => temp = Some(data.to_vec()),
                        Step::Rename => target = temp.take().unwrap(),
                        _ => {}
                    }
                    done.push(step);
                }
                action = next_action(parent, step, ok);
            }
            other => return (target, Some(other), done),
        }
    }
}

#[test]
fn named_parent_runs_every_step_in_order() {
    let (target, end, done) = run(Parent::Named, b"old", b"new", None, None);
    assert_eq!(target, b"new".to_vec());
    assert_eq!(end, Some(Action::Done));
    assert_eq!(
        done,
        vec![
            Step::CreateParentDir,
            Step::CreateTemp,
            Step::WriteTemp,
            Step::SyncTemp,
            Step::Rename,
            Step::SyncParentDir
        ]
    );
}

#[test]
fn implicit_parent_skips_creation_but_syncs_the_directory() {
    let (target, end, done) = run(Parent::Implicit, b"old", b"", None, None);
    assert_eq!(target, Vec::<u8>::new());
    assert_eq!(end, Some(Action::Done));
    assert_eq!(
        done,
        vec![Step::CreateTemp, Step::WriteTemp, Step::SyncTemp, Step::Rename, Step::SyncParentDir]
    );
}

#[test]
fn missing_parent_is_an_invalid_target() {
    assert_eq!(first_action(Parent::Absent), Action::Fail(PublishError::InvalidTarget));
}

#[test]
fn crash_between_sync_and_rename_keeps_old_content() {
    let (target, end, done) = run(Parent::Named, b"old content", b"new", None, Some(Step::Rename));
    assert_eq!(target, b"old content".to_vec());
    assert_eq!(end, None);
    assert_eq!(done.last(), Some(&Step::SyncTemp));
}

#[test]
fn failed_step_is_reported_and_nothing_follows() {
    for step in [Step::CreateParentDir, Step::CreateTemp, Step::WriteTemp, Step::SyncTemp, Step::Rename] {
        let (target, end, _) = run(Parent::Named, b"old", b"new", Some(step), None);
        assert_eq!(target, b"old".to_vec());
        assert_eq!(end, Some(Action::Fail(PublishError::Io(step))));
    }
    let (target, end, _) = run(Parent::Named, b"old", b"new", Some(Step::SyncParentDir), None);
    assert_eq!(target, b"new".to_vec());
    assert_eq!(end, Some(Action::Fail(PublishError::Io(Step::SyncParentDir))));
}

#[test]
fn temp_file_name_prefixes_the_suffix() {
    assert_eq!(temp_file_name("abc"), ".tmp.abc".to_string());
}

#[test]
fn generated_temp_names_are_fresh_uuids() {
    let a = generate_temp_name();
    let b = generate_temp_name();
    assert!(a.starts_with(".tmp."));
    assert_eq!(a.len(), 41);
    for (i, c) in a[5..].chars().enumerate() {
        if [8, 13, 18, 23].contains(&i) {
            assert_eq!(c, '-');
        } else {
            assert!(c.is_ascii_digit() || ('a'..='f').contains(&c));
        }
    }
    assert_ne!(a, b);
}
