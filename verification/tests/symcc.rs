use std::collections::hash_map::DefaultHasher;
use std::hash::{Hash, Hasher};

use hybrid_stages::runs::Counter;
use hybrid_stages::symcc::{
    plan_run, ChildStatus, Part, Phase, Request, RunInput, RunRegistry,
    SymCCStage,
};

fn stage() -> SymCCStage<Vec<u8>> {
    SymCCStage::new(
        String::from("/bin/qemu  /bin/target"),
        &mut Counter::new(),
    )
}

/// Brings a run under way, up to the first poll.
fn running() -> (SymCCStage<Vec<u8>>, RunRegistry, bool) {
    let mut s = stage();
    let mut registry = RunRegistry::new();
    let mut completed = true;
    assert!(matches!(s.perform(completed, 0), Request::CurrentInput));
    assert!(matches!(s.current_input(&mut registry, vec![1, 2]), Request::Locate));
    assert!(matches!(s.spawn_symcc(&mut registry), Request::StartRun(_)));
    assert!(matches!(s.run_started(&mut completed), Request::Poll { run: 0 }));
    assert!(!completed);
    (s, registry, completed)
}

fn words(parts: &Vec<Part>) -> Vec<String> {
    parts
        .iter()
        .map(|p| match p {
            Part::Word(w) => w.clone(),
            Part::InputFile => String::from("<input>"),
            Part::OutputDir => String::from("<output>"),
        })
        .collect()
}

#[test]
fn the_hash_is_that_of_the_bytes() {
    for input in [vec![], vec![0u8], vec![1, 2, 3], vec![7; 1000]] {
        let mut hasher = DefaultHasher::new();
        input.hash(&mut hasher);
        assert_eq!(input.hash_code(), hasher.finish());
    }
}

/// An input of which more than its bytes is hashed.
#[derive(Clone, Hash)]
struct Tagged {
    tag: u32,
    bytes: Vec<u8>,
}

impl RunInput for Tagged {
    fn hash_code(&self) -> u64 {
        let mut hasher = DefaultHasher::new();
        self.hash(&mut hasher);
        hasher.finish()
    }
}

#[test]
fn an_input_is_recognised_by_its_own_hash() {
    let one = Tagged { tag: 1, bytes: vec![7] };
    let two = Tagged { tag: 2, ..one.clone() };
    let mut s = SymCCStage::new(String::from("t"), &mut Counter::new());
    let mut registry = RunRegistry::new();
    for (input, runs) in [(one.clone(), true), (two, true), (one, false)] {
        s.perform(true, 0);
        let request = s.current_input(&mut registry, input);
        assert_eq!(matches!(request, Request::Locate), runs);
        if runs {
            s.failed();
        }
    }
    assert_eq!(registry.seen.len(), 2);
}

#[test]
fn hashes_are_noted_once() {
    let mut registry = RunRegistry::new();
    assert!(registry.note_hash(5));
    assert!(registry.note_hash(6));
    assert!(!registry.note_hash(5));
    let mut s = stage();
    s.perform(true, 0);
    assert!(matches!(s.hashed_input(&mut registry, 6, vec![1]), Request::Finish));
    s.perform(true, 0);
    assert!(matches!(s.hashed_input(&mut registry, 7, vec![1]), Request::Locate));
    assert!(registry.seen.contains(&7));
}

#[test]
fn a_run_carries_its_input() {
    let mut s = SymCCStage::new(String::from("t"), &mut Counter::new());
    let mut registry = RunRegistry::new();
    s.perform(true, 0);
    let input = Tagged { tag: 9, bytes: vec![7] };
    assert!(matches!(s.current_input(&mut registry, input), Request::Locate));
    match s.spawn_symcc(&mut registry) {
        Request::StartRun(plan) => assert_eq!((plan.input.tag, plan.input.bytes), (9, vec![7])),
        _ => panic!("no run"),
    }
}

#[test]
fn a_stage_is_named_and_knows_its_target() {
    let mut ids = Counter::new();
    ids.take();
    let s: SymCCStage<Vec<u8>> = SymCCStage::new(String::from(" a b "), &mut ids);
    assert_eq!(s.name(), "symccstage:1");
    assert_eq!(s.target_program, vec!["a", "b"]);
}

#[test]
fn a_plan_spells_the_command() {
    let plan = plan_run(3, &vec![String::from("q"), String::from("t")], vec![9]);
    assert_eq!(plan.program, "timeout");
    assert_eq!(words(&plan.args), vec!["-k", "5", "90", "q", "t", "<input>"]);
    assert_eq!(plan.dir, "out/symcc_output_3");
    assert_eq!(plan.input_file, "out/symcc_output_3/cur_input");
    assert_eq!(plan.output_dir, "out/symcc_output_3/output");
    assert_eq!(plan.input, vec![9]);
    let names: Vec<&str> = plan.settings.iter().map(|s| s.variable.as_str()).collect();
    assert_eq!(
        names,
        vec!["SYMCC_ENABLE_LINEARIZATION", "SYMCC_INPUT_FILE", "SYMCC_OUTPUT_DIR"]
    );
    let values: Vec<Part> = plan.settings.into_iter().map(|s| s.value).collect();
    assert_eq!(words(&values), vec!["1", "<input>", "<output>"]);
}

#[test]
fn a_finished_run_has_its_outputs_evaluated() {
    let (mut s, _, mut completed) = running();
    assert!(matches!(s.polled(ChildStatus::Exited), Request::Reap { run: 0 }));
    match s.reaped(12, &mut completed) {
        Request::OpenOutputs { dir } => assert_eq!(dir, "out/symcc_output_0/output"),
        other => panic!("{:?}", other),
    }
    assert_eq!(s.pending_tasks[0].exec_time, 12);
    assert!(!completed);
    assert!(matches!(s.outputs_opened(), Request::NextOutput));
    assert!(matches!(s.output_listed("/o/000", true), Request::EvaluateOutput));
    assert!(matches!(s.output_evaluated(), Request::NextOutput));
    assert!(matches!(s.output_listed("/o/001_constraints", true), Request::NextOutput));
    assert!(matches!(s.output_listed("/constraint/001", true), Request::NextOutput));
    assert!(matches!(s.output_listed("/o/dir", false), Request::NextOutput));
    assert!(matches!(s.outputs_exhausted(&mut completed), Request::Finish));
    assert!(completed);
    assert!(s.pending_tasks.is_empty());
}

#[test]
fn the_same_input_is_not_run_again() {
    let (mut s, mut registry, mut completed) = running();
    s.polled(ChildStatus::Unknown);
    assert!(matches!(s.reaped(1, &mut completed), Request::Finish));
    assert!(completed);
    assert!(matches!(s.perform(completed, 0), Request::CurrentInput));
    assert!(matches!(s.current_input(&mut registry, vec![1, 2]), Request::Finish));
    assert!(matches!(s.perform(completed, 0), Request::CurrentInput));
    assert!(matches!(s.current_input(&mut registry, vec![2, 1]), Request::Locate));
    match s.spawn_symcc(&mut registry) {
        Request::StartRun(plan) => assert_eq!((plan.run, plan.input), (1, vec![2, 1])),
        other => panic!("{:?}", other),
    }
}

#[test]
fn a_run_is_given_up_after_the_limit() {
    let (mut s, _, mut completed) = running();
    assert!(matches!(s.polled(ChildStatus::Running { elapsed: 90 }), Request::Finish));
    assert_eq!(s.pending_tasks.len(), 1);
    assert!(matches!(s.perform(completed, 5), Request::Poll { run: 0 }));
    assert!(matches!(
        s.polled(ChildStatus::Running { elapsed: 91 }),
        Request::Reap { run: 0 }
    ));
    assert!(matches!(s.reaped(91, &mut completed), Request::Finish));
    assert!(completed && s.pending_tasks.is_empty());
}

#[test]
fn a_queued_test_case_comes_first() {
    let mut s = stage();
    let mut registry = RunRegistry::new();
    assert!(matches!(s.perform(true, 1), Request::PopQueued));
    assert!(matches!(s.queued_input(&mut registry, None), Request::CurrentInput));
    assert!(registry.seen.is_empty());
    assert!(matches!(s.current_input(&mut registry, vec![]), Request::Locate));
    assert!(registry.seen.contains(&Vec::<u8>::new().hash_code()));
    assert!(matches!(s.failed(), Request::Abort));
    assert!(matches!(s.perform(true, 2), Request::PopQueued));
    assert!(matches!(s.queued_input(&mut registry, Some(vec![5])), Request::Locate));
}

#[test]
fn a_run_that_cannot_be_read_stays_pending() {
    let (mut s, _, mut completed) = running();
    s.polled(ChildStatus::Exited);
    s.reaped(1, &mut completed);
    assert!(matches!(s.failed(), Request::Abort));
    assert!(matches!(s.phase, Phase::Idle));
    for _ in 0..3 {
        assert!(matches!(s.perform(completed, 1), Request::Finish));
        assert!(matches!(s.process_results(), Request::Finish));
        assert_eq!(s.pending_tasks.len(), 1);
    }
    assert!(!completed);
}

#[test]
fn long_times_wrap() {
    let (mut s, _, mut completed) = running();
    s.polled(ChildStatus::Exited);
    s.reaped(0x1_0000_0007, &mut completed);
    assert_eq!(s.pending_tasks[0].exec_time, 7);
}
