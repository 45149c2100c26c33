use tycho_token_cache::spkg::{Event, Failure, Stage};

fn run(prebuilt_wasm: bool, events: Vec<Event>) -> Stage {
    let mut stage = Stage::start(prebuilt_wasm);
    for event in events {
        stage = stage.advance(event);
    }
    stage
}

fn done(count: usize) -> Vec<Event> {
    (0..count).map(|_| Event::Done).collect()
}

fn failed(stderr: &str) -> Event {
    Event::Failed(stderr.to_string())
}

fn report(stage: Stage) -> Option<String> {
    match stage {
        Stage::Broken(failure) => failure.message("pkg", "pkg/substreams.yaml"),
        other => panic!("unexpected {other:?}"),
    }
}

#[test]
fn steps_come_in_order() {
    assert!(matches!(run(false, done(0)), Stage::CompileWasm));
    assert!(matches!(run(false, done(1)), Stage::BackUp));
    assert!(matches!(run(false, done(2)), Stage::Read));
    assert!(matches!(run(false, done(3)), Stage::Write));
    assert!(matches!(run(false, done(4)), Stage::ProbeCli));
    assert!(matches!(run(false, done(5)), Stage::Pack));
    assert!(matches!(run(false, done(6)), Stage::Restore(_)));
    assert!(matches!(run(false, done(7)), Stage::RemoveBackup(_)));
    assert!(matches!(run(false, done(8)), Stage::Built));
    assert!(matches!(run(false, done(9)), Stage::Built));
}

#[test]
fn prebuilt_binary_is_not_compiled() {
    assert!(matches!(run(true, done(0)), Stage::BackUp));
    assert!(matches!(run(true, done(7)), Stage::Built));
}

#[test]
fn failed_compilation_ends_the_build() {
    assert_eq!(
        report(run(false, vec![Event::NotRun])).unwrap(),
        "Failed to run cargo build for the Substreams package"
    );
    assert_eq!(
        report(run(false, vec![failed("error[E0001]")])).unwrap(),
        "cargo build failed for the Substreams package in pkg"
    );
}

#[test]
fn failed_file_steps_end_the_build_with_their_own_error() {
    for steps in [0usize, 1, 2, 5, 6] {
        let mut events = done(steps);
        events.push(Event::NotRun);
        let stage = run(true, events);
        assert!(matches!(stage, Stage::Broken(Failure::Step)), "{steps} {stage:?}");
        assert_eq!(report(stage), None);
    }
}

#[test]
fn missing_cli_is_reported_at_once() {
    let mut events = done(3);
    events.push(Event::NotRun);
    assert_eq!(
        report(run(true, events)).unwrap(),
        "Substreams CLI is not installed or not found in PATH"
    );
    // A tool that runs but reports a failure is there.
    let mut events = done(3);
    events.push(failed("unknown flag"));
    assert!(matches!(run(true, events), Stage::Pack));
}

#[test]
fn failed_pack_is_reported_after_the_manifest_is_restored() {
    let mut events = done(4);
    events.push(failed("no such module"));
    assert!(matches!(run(true, events), Stage::Restore(_)));
    let mut events = done(4);
    events.push(failed("no such module"));
    events.extend(done(1));
    assert!(matches!(run(true, events), Stage::RemoveBackup(_)));
    let mut events = done(4);
    events.push(failed("no such module"));
    events.extend(done(2));
    assert_eq!(
        report(run(true, events)).unwrap(),
        "substreams pack failed for pkg/substreams.yaml: no such module"
    );
    let mut events = done(4);
    events.push(Event::NotRun);
    events.extend(done(2));
    assert_eq!(
        report(run(true, events)).unwrap(),
        "Failed to run the substreams pack command"
    );
}
