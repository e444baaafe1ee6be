use proto_gen::error::GenError;
use proto_gen::path::OsPath;
use proto_gen::run::{advance, first_phase, is_success, Event, Phase, Verdict};
use proto_gen::workspace::{GenOptions, ProtoWorkspace};

fn options(commit: bool, format: bool) -> GenOptions {
    GenOptions {
        commit,
        format: if format { Some("2021".to_string()) } else { None },
        prepend_header: None,
        toplevel_attribute: None,
    }
}

fn run(opts: &GenOptions, events: &[Event]) -> Phase {
    let mut phase = first_phase();
    for event in events {
        phase = advance(phase, *event, opts);
    }
    phase
}

#[test]
fn run_without_difference_ends_unchanged() {
    for commit in [false, true] {
        let opts = options(commit, false);
        assert_eq!(Phase::Generate, first_phase());
        assert_eq!(Phase::Reshape, run(&opts, &[Event::Done]));
        assert_eq!(Phase::Diff, run(&opts, &[Event::Done, Event::Done]));
        assert_eq!(
            Phase::Finished(Verdict::Unchanged),
            run(&opts, &[Event::Done, Event::Done, Event::Diffed(0)])
        );
    }
}

#[test]
fn formatting_comes_before_the_comparison() {
    let opts = options(true, true);
    assert_eq!(Phase::Format, run(&opts, &[Event::Done, Event::Done]));
    assert_eq!(Phase::Diff, run(&opts, &[Event::Done, Event::Done, Event::Done]));
    assert_eq!(
        Phase::Commit,
        run(&opts, &[Event::Done, Event::Done, Event::Done, Event::Diffed(2)])
    );
}

#[test]
fn difference_is_committed_where_that_was_asked_for() {
    let opts = options(true, false);
    let events = [Event::Done, Event::Done, Event::Diffed(3)];
    assert_eq!(Phase::Commit, run(&opts, &events));
    assert_eq!(
        Phase::Finished(Verdict::Committed),
        run(&opts, &[Event::Done, Event::Done, Event::Diffed(3), Event::Done])
    );
}

#[test]
fn difference_fails_a_validation() {
    let opts = options(false, false);
    let end = run(&opts, &[Event::Done, Event::Done, Event::Diffed(3)]);
    assert_eq!(Phase::Finished(Verdict::DiffFound(3)), end);
    assert!(!is_success(Verdict::DiffFound(3)));
    assert!(!is_success(Verdict::Failed));
    assert!(is_success(Verdict::Unchanged));
    assert!(is_success(Verdict::Committed));
}

#[test]
fn failed_step_ends_the_run() {
    let opts = options(true, true);
    let failed = Phase::Finished(Verdict::Failed);
    assert_eq!(failed, run(&opts, &[Event::Failed]));
    assert_eq!(failed, run(&opts, &[Event::Done, Event::Failed]));
    assert_eq!(failed, run(&opts, &[Event::Done, Event::Done, Event::Failed]));
    assert_eq!(failed, run(&opts, &[Event::Done, Event::Done, Event::Done, Event::Failed]));
    assert_eq!(
        failed,
        run(&opts, &[Event::Done, Event::Done, Event::Done, Event::Diffed(1), Event::Failed])
    );
}

#[test]
fn report_that_does_not_fit_the_step_ends_the_run() {
    let opts = options(true, false);
    let failed = Phase::Finished(Verdict::Failed);
    assert_eq!(failed, run(&opts, &[Event::Diffed(0)]));
    assert_eq!(failed, run(&opts, &[Event::Done, Event::Diffed(1)]));
    assert_eq!(failed, run(&opts, &[Event::Done, Event::Done, Event::Done]));
    assert_eq!(failed, run(&opts, &[Event::Done, Event::Done, Event::Diffed(1), Event::Diffed(1)]));
}

#[test]
fn run_that_has_ended_stays_as_it_is() {
    let opts = options(true, true);
    for verdict in [Verdict::Unchanged, Verdict::Committed, Verdict::DiffFound(7), Verdict::Failed] {
        for event in [Event::Done, Event::Diffed(0), Event::Diffed(9), Event::Failed] {
            assert_eq!(Phase::Finished(verdict), advance(Phase::Finished(verdict), event, &opts));
        }
    }
}

#[test]
fn workspace_needs_a_schema_file() {
    let dir = OsPath { components: vec![b"proto".to_vec()] };
    let mut ws = ProtoWorkspace {
        proto_dirs: vec![dir.clone()],
        proto_files: Vec::new(),
        tmp_dir: OsPath::new(),
        output_dir: OsPath::new(),
    };
    assert_eq!(Err(GenError::NoProtoFiles), ws.check());
    ws.proto_files.push(dir.join(b"my-proto.proto"));
    assert_eq!(Ok(()), ws.check());
}
