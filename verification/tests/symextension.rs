use hybrid_stages::runs::Counter;
use hybrid_stages::symextension::{
    select_constraint_files, Entry, ModelError, Phase, Request, SymExtensionStage,
};

fn entry(path: &str, name: Option<&str>, is_file: bool) -> Entry {
    Entry {
        path: String::from(path),
        name: name.map(String::from),
        is_file,
    }
}

/// A stage with these many constraint files, up to the first scope.
fn listed(n: usize) -> (SymExtensionStage, Request) {
    let mut s = SymExtensionStage::new(&mut Counter::new());
    let mut runs = Counter::new();
    assert!(matches!(s.symextend(&runs), Request::Probe { .. }));
    assert!(matches!(s.probed(true, &mut runs), Request::Prepare { .. }));
    assert!(matches!(s.loaded(vec![1, 2, 3]), Request::ListOutputs { .. }));
    let entries: Vec<Entry> = (0..n)
        .map(|i| entry(&format!("/o/{}.constraints", i), Some("x.constraints"), true))
        .collect();
    let r = s.listed(&entries);
    (s, r)
}

#[test]
fn constraint_files_are_told_by_their_name() {
    let entries = vec![
        entry("/o/1_constraints", Some("1_constraints"), true),
        entry("/o/2_constraint", Some("2_constraint"), true),
        entry("/constraints/3", Some("3"), true),
        entry("/o/constraints", Some("constraints"), false),
        entry("/o/?", None, true),
        entry("/o/constraints.txt", Some("constraints.txt"), true),
    ];
    assert_eq!(
        select_constraint_files(&entries),
        vec!["/o/1_constraints", "/o/constraints.txt"]
    );
}

#[test]
fn a_stage_asks_for_the_next_run() {
    let mut ids = Counter::new();
    let mut s = SymExtensionStage::new(&mut ids);
    assert_eq!(s.name(), "symextensionstage:0");
    let mut runs = Counter { next: 4 };
    match s.symextend(&runs) {
        Request::Probe { dir } => assert_eq!(dir, "out/symcc_output_4"),
        other => panic!("{:?}", other),
    }
    assert!(matches!(s.probed(false, &mut runs), Request::Finish));
    assert_eq!(runs.next, 4);
    s.symextend(&runs);
    match s.probed(true, &mut runs) {
        Request::Prepare { timeout_msec, input_file } => {
            assert_eq!(timeout_msec, 10_000);
            assert_eq!(input_file, "out/symcc_output_4/cur_input");
        }
        other => panic!("{:?}", other),
    }
    assert_eq!(runs.next, 5);
    match s.loaded(vec![]) {
        Request::ListOutputs { dir } => assert_eq!(dir, "out/symcc_output_4/output"),
        other => panic!("{:?}", other),
    }
    assert!(matches!(s.failed(), Request::Abort));
    assert_eq!(s.phase, Phase::Idle);
}

#[test]
fn no_files_no_work() {
    assert!(matches!(listed(0).1, Request::Finish));
}

#[test]
fn each_file_is_checked_five_times_in_a_scope() {
    let (mut s, mut r) = listed(3);
    let (mut opened, mut closed, mut checks, mut tried) = (0, 0, 0, 0);
    loop {
        r = match r {
            Request::OpenScope { file } => {
                assert_eq!(file, format!("/o/{}.constraints", opened));
                opened += 1;
                assert_eq!(opened, closed + 1);
                s.read(opened != 2)
            }
            Request::AddConstraints => s.added(),
            Request::Check => {
                checks += 1;
                if checks % 2 == 0 {
                    s.unsolved()
                } else {
                    s.solved("k!10 -> #x2a\n").unwrap()
                }
            }
            Request::TryInput { clause, input } => {
                tried += 1;
                assert_eq!(input, vec![1, 42, 3]);
                assert_eq!(clause.len(), 1);
                assert_eq!((clause[0].variable.as_str(), clause[0].value), ("k!10", 42));
                s.evaluated()
            }
            Request::CloseScope => {
                closed += 1;
                s.closed()
            }
            Request::Finish => break,
            other => panic!("{:?}", other),
        };
    }
    assert_eq!((opened, closed, checks, tried), (3, 3, 10, 5));
}

#[test]
fn unusable_models_are_told_apart() {
    let (mut s, _) = listed(1);
    s.read(true);
    s.added();
    assert!(matches!(s.solved("nonsense"), Err(ModelError::Malformed)));
    assert!(matches!(s.solved("k!30 -> #x01"), Err(ModelError::OutOfRange)));
    assert!(matches!(s.solved("k!30 -> #x01\nx"), Err(ModelError::Malformed)));
    assert_eq!(s.phase, Phase::Checking { file: 0, done: 0 });
    assert!(matches!(s.solved("k!29 -> #x01"), Ok(Request::TryInput { .. })));
    assert!(matches!(s.failed(), Request::Abort));
}
