//! The concolic execution stage: which input to run, how to run it, and what to do with the
//! results. The stage decides; whoever drives it performs what it asks for and reports back.

use std::collections::hash_map::DefaultHasher;
use std::collections::HashSet;
use std::hash::Hasher;
use vstd::prelude::*;
use vstd::bytes::u64_to_le_bytes;
use vstd::std_specs::hash::DefaultHasherAdditionalSpecFns;
use crate::runs;
use crate::runs::{input_file_path, output_dir_path, run_dir_path, stage_name, Counter};
use crate::text;
use crate::text::{append_decimal, contains_text, split_words};

verus! {

broadcast use vstd::std_specs::hash::group_hash_axioms;

/// How long a run may take, in seconds.
pub const TIMEOUT: u32 = 90;

/// How many runs may be pending at a time.
pub const MAX_CONCURRENT_TASKS: usize = 1;

/// The kind of this stage.
pub const SYMCC_STAGE_NAME: &'static str = "symccstage";

/// An input that can be run. Each type of inputs has a hash of its own, by which its inputs are
/// recognised.
pub trait RunInput: Sized {
    /// The hash of the input.
    fn hash_code(&self) -> u64;
}

/// `h` is what the type of `input` gives as its hash.
pub open spec fn has_hash<I: RunInput>(input: I, h: u64) -> bool {
    call_ensures(I::hash_code, (&input,), h)
}

/// The hash of bytes: that of their number, followed by themselves.
pub open spec fn bytes_hash(bytes: Seq<u8>) -> u64 {
    DefaultHasher::spec_finish(
        seq![vstd::bytes::spec_u64_to_le_bytes(bytes.len() as u64), bytes],
    )
}

impl RunInput for Vec<u8> {
    fn hash_code(&self) -> (r: u64)
        ensures
            r == bytes_hash(self@),
    {
        let mut hasher = DefaultHasher::new();
        let len = u64_to_le_bytes(self.len() as u64);
        hasher.write(len.as_slice());
        hasher.write(self.as_slice());
        proof {
            assert(hasher@ =~= seq![
                vstd::bytes::spec_u64_to_le_bytes(self@.len() as u64),
                self@,
            ]);
        }
        hasher.finish()
    }
}

/// Bytes have one hash only.
pub proof fn law_bytes_have_one_hash(bytes: Vec<u8>, h: u64)
    requires
        has_hash(bytes, h),
    ensures
        h == bytes_hash(bytes@),
{
}

/// What all runs have in common: their numbers, and the inputs that were already run.
#[derive(Debug)]
pub struct RunRegistry {
    pub ids: Counter,
    pub seen: HashSet<u64>,
}

impl RunRegistry {
    /// No run yet.
    pub fn new() -> (r: RunRegistry)
        ensures
            r.ids.next == 0,
            r.seen@ == Set::<u64>::empty(),
    {
        RunRegistry { ids: Counter::new(), seen: HashSet::new() }
    }

    /// Notes the hash of an input, and tells whether it is new.
    pub fn note_hash(&mut self, hash: u64) -> (r: bool)
        ensures
            r == !old(self).seen@.contains(hash),
            final(self).seen@ == old(self).seen@.insert(hash),
            final(self).ids == old(self).ids,
    {
        if self.seen.contains(&hash) {
            proof {
                assert(self.seen@ =~= self.seen@.insert(hash));
            }
            false
        } else {
            self.seen.insert(hash);
            true
        }
    }
}

/// A part of a command: a fixed word, or a path of the run, which the driver resolves against
/// the working directory.
#[derive(Debug)]
pub enum Part {
    Word(String),
    InputFile,
    OutputDir,
}

/// What a part of a command says.
pub enum PartView {
    Word(Seq<char>),
    InputFile,
    OutputDir,
}

impl View for Part {
    type V = PartView;

    open spec fn view(&self) -> PartView {
        match *self {
            Part::Word(w) => PartView::Word(w@),
            Part::InputFile => PartView::InputFile,
            Part::OutputDir => PartView::OutputDir,
        }
    }
}

/// An environment variable of a command.
#[derive(Debug)]
pub struct Setting {
    pub variable: String,
    pub value: Part,
}

/// How to start a run: where it lives, the input to write there, and the command.
#[derive(Debug)]
pub struct RunPlan<I> {
    pub run: usize,
    pub dir: String,
    pub input_file: String,
    pub output_dir: String,
    pub input: I,
    pub program: String,
    pub args: Vec<Part>,
    pub settings: Vec<Setting>,
}

/// What a plan says.
#[verifier::ext_equal]
pub struct PlanView<I> {
    pub run: nat,
    pub dir: Seq<char>,
    pub input_file: Seq<char>,
    pub output_dir: Seq<char>,
    pub input: I,
    pub program: Seq<char>,
    pub args: Seq<PartView>,
    pub settings: Seq<(Seq<char>, PartView)>,
}

impl<I> View for RunPlan<I> {
    type V = PlanView<I>;

    open spec fn view(&self) -> PlanView<I> {
        PlanView {
            run: self.run as nat,
            dir: self.dir@,
            input_file: self.input_file@,
            output_dir: self.output_dir@,
            input: self.input,
            program: self.program@,
            args: part_views(self.args@),
            settings: setting_views(self.settings@),
        }
    }
}

pub open spec fn part_views(v: Seq<Part>) -> Seq<PartView> {
    v.map_values(|p: Part| p@)
}

pub open spec fn setting_views(v: Seq<Setting>) -> Seq<(Seq<char>, PartView)> {
    v.map_values(|s: Setting| (s.variable@, s.value@))
}

pub open spec fn word_parts(v: Seq<Seq<char>>) -> Seq<PartView> {
    v.map_values(|w: Seq<char>| PartView::Word(w))
}

/// The arguments of `timeout`: kill the target five seconds after it ignored the time limit;
/// the limit; then the words of the target and the input file.
pub open spec fn run_args(target: Seq<Seq<char>>) -> Seq<PartView> {
    seq![
        PartView::Word("-k"@),
        PartView::Word("5"@),
        PartView::Word(text::decimal(TIMEOUT as nat)),
    ] + word_parts(target) + seq![PartView::InputFile]
}

/// The environment of a run.
pub open spec fn run_settings() -> Seq<(Seq<char>, PartView)> {
    seq![
        ("SYMCC_ENABLE_LINEARIZATION"@, PartView::Word("1"@)),
        ("SYMCC_INPUT_FILE"@, PartView::InputFile),
        ("SYMCC_OUTPUT_DIR"@, PartView::OutputDir),
    ]
}

/// The plan of run `run` of the command `target` on `input`.
pub open spec fn run_plan<I>(run: nat, target: Seq<Seq<char>>, input: I) -> PlanView<I> {
    PlanView {
        run,
        dir: runs::run_dir(run),
        input_file: runs::input_file(run),
        output_dir: runs::output_dir(run),
        input,
        program: "timeout"@,
        args: run_args(target),
        settings: run_settings(),
    }
}

/// Plans a run.
pub fn plan_run<I>(run: usize, target: &Vec<String>, input: I) -> (r: RunPlan<I>)
    ensures
        r@ == run_plan(run as nat, text::views(target@), input),
        r.run == run,
        r.dir@ == runs::run_dir(run as nat),
        r.input_file@ == runs::input_file(run as nat),
        r.output_dir@ == runs::output_dir(run as nat),
        r.input == input,
        r.program@ == "timeout"@,
        r.args@.len() == target@.len() + 4,
        r.args@[0] matches Part::Word(w) && w@ == "-k"@,
        r.args@[1] matches Part::Word(w) && w@ == "5"@,
        r.args@[2] matches Part::Word(w) && w@ == text::decimal(90),
        forall|k: int|
            3 <= k < target@.len() + 3 ==> (#[trigger] r.args@[k]) is Word && r.args@[k]->Word_0@
                == target@[k - 3]@,
        r.args@[target@.len() as int + 3] is InputFile,
        r.settings@.len() == 3,
        r.settings@[0].variable@ == "SYMCC_ENABLE_LINEARIZATION"@,
        r.settings@[0].value matches Part::Word(w) && w@ == "1"@,
        r.settings@[1].variable@ == "SYMCC_INPUT_FILE"@,
        r.settings@[1].value is InputFile,
        r.settings@[2].variable@ == "SYMCC_OUTPUT_DIR"@,
        r.settings@[2].value is OutputDir,
{
    let mut limit = String::new();
    append_decimal(&mut limit, TIMEOUT as usize);
    proof {
        assert(limit@ =~= text::decimal(TIMEOUT as nat));
    }
    let mut args: Vec<Part> = Vec::new();
    args.push(Part::Word("-k".to_owned()));
    args.push(Part::Word("5".to_owned()));
    args.push(Part::Word(limit));
    let ghost words = text::views(target@);
    proof {
        assert(part_views(args@) =~= seq![
            PartView::Word("-k"@),
            PartView::Word("5"@),
            PartView::Word(text::decimal(TIMEOUT as nat)),
        ] + word_parts(words.take(0)));
    }
    let mut i: usize = 0;
    while i < target.len()
        invariant
            i <= target.len(),
            words == text::views(target@),
            part_views(args@) == seq![
                PartView::Word("-k"@),
                PartView::Word("5"@),
                PartView::Word(text::decimal(TIMEOUT as nat)),
            ] + word_parts(words.take(i as int)),
        decreases target.len() - i,
    {
        let part = Part::Word(target[i].clone());
        let ghost before = args@;
        args.push(part);
        proof {
            assert(part_views(args@) =~= part_views(before).push(part@));
            assert(part@ == PartView::Word(words[i as int]));
            assert(word_parts(words.take(i + 1)) =~= word_parts(words.take(i as int)).push(
                PartView::Word(words[i as int]),
            ));
        }
        i += 1;
    }
    let ghost before = args@;
    args.push(Part::InputFile);
    proof {
        assert(words.take(i as int) =~= words);
        assert(part_views(args@) =~= part_views(before).push(PartView::InputFile));
        assert(part_views(args@) =~= run_args(words));
        assert(part_views(args@).len() == args@.len());
        assert(part_views(args@)[0] == args@[0]@);
        assert(part_views(args@)[1] == args@[1]@);
        assert(part_views(args@)[2] == args@[2]@);
        assert(part_views(args@)[target@.len() as int + 3] == args@[target@.len() as int + 3]@);
    }
    let ghost made = args@;
    let mut settings: Vec<Setting> = Vec::new();
    settings.push(
        Setting {
            variable: "SYMCC_ENABLE_LINEARIZATION".to_owned(),
            value: Part::Word("1".to_owned()),
        },
    );
    settings.push(Setting { variable: "SYMCC_INPUT_FILE".to_owned(), value: Part::InputFile });
    settings.push(Setting { variable: "SYMCC_OUTPUT_DIR".to_owned(), value: Part::OutputDir });
    proof {
        assert(setting_views(settings@) =~= run_settings());
    }
    let plan = RunPlan {
        run,
        dir: run_dir_path(run),
        input_file: input_file_path(run),
        output_dir: output_dir_path(run),
        input,
        program: "timeout".to_owned(),
        args,
        settings,
    };
    proof {
        assert(plan.args@ == made);
        assert forall|k: int| 3 <= k < target@.len() + 3 implies (
        #[trigger] plan.args@[k]) is Word && plan.args@[k]->Word_0@ == target@[k - 3]@ by {
            assert(part_views(made)[k] == made[k]@);
            assert(run_args(words)[k] == word_parts(words)[k - 3]);
            assert(words[k - 3] == target@[k - 3]@);
        }
    }
    plan
}

/// A run whose results are still awaited.
#[derive(Clone, Copy, Debug, PartialEq, Eq, Structural)]
pub struct SymCCTask {
    /// The number of the run.
    pub run: usize,
    /// The results were taken in, or given up.
    pub is_completed: bool,
    /// How long the run took, in seconds.
    pub exec_time: u32,
    /// The process of the run was not reaped yet.
    pub has_child: bool,
}

/// What the stage waits for.
#[derive(Debug)]
pub enum Phase<I> {
    Idle,
    /// The input of a queued test case.
    Queued,
    /// The current input.
    Current,
    /// The working directory, to run this input in.
    Locating { input: I },
    /// The start of this run.
    Starting { run: usize },
    /// The status of the task at this index.
    Polling { task: usize },
    /// The end of its process; `exited` if it ended by itself.
    Reaping { task: usize, exited: bool },
    /// Its output directory.
    Opening { task: usize },
    /// The next entry of that directory.
    Listing { task: usize },
    /// The evaluation of the last entry.
    Evaluating { task: usize },
}

/// What a phase says.
pub enum PhaseView<I> {
    Idle,
    Queued,
    Current,
    Locating { input: I },
    Starting { run: nat },
    Polling { task: nat },
    Reaping { task: nat, exited: bool },
    Opening { task: nat },
    Listing { task: nat },
    Evaluating { task: nat },
}

impl<I> View for Phase<I> {
    type V = PhaseView<I>;

    open spec fn view(&self) -> PhaseView<I> {
        match *self {
            Phase::Idle => PhaseView::Idle,
            Phase::Queued => PhaseView::Queued,
            Phase::Current => PhaseView::Current,
            Phase::Locating { input } => PhaseView::Locating { input },
            Phase::Starting { run } => PhaseView::Starting { run: run as nat },
            Phase::Polling { task } => PhaseView::Polling { task: task as nat },
            Phase::Reaping { task, exited } => PhaseView::Reaping { task: task as nat, exited },
            Phase::Opening { task } => PhaseView::Opening { task: task as nat },
            Phase::Listing { task } => PhaseView::Listing { task: task as nat },
            Phase::Evaluating { task } => PhaseView::Evaluating { task: task as nat },
        }
    }
}

/// What the stage asks of its driver.
#[derive(Debug)]
pub enum Request<I> {
    /// Take a test case out of the queue, and get its input.
    PopQueued,
    /// Get the current input.
    CurrentInput,
    /// Find out the working directory.
    Locate,
    /// Make the directories, write the input, run the command to its end once, and start it
    /// again; the run is the second execution.
    StartRun(RunPlan<I>),
    /// Ask whether the process of this run has ended.
    Poll { run: usize },
    /// Kill the process of this run, and wait for it.
    Reap { run: usize },
    /// Open this directory for listing.
    OpenOutputs { dir: String },
    /// Get the next entry of the open directory.
    NextOutput,
    /// Load the last entry as an input, and have the fuzzer evaluate it.
    EvaluateOutput,
    /// Return: all is done.
    Finish,
    /// Return the error of what was asked for last.
    Abort,
}

/// What a request says.
pub enum RequestView<I> {
    PopQueued,
    CurrentInput,
    Locate,
    StartRun(PlanView<I>),
    Poll { run: nat },
    Reap { run: nat },
    OpenOutputs { dir: Seq<char> },
    NextOutput,
    EvaluateOutput,
    Finish,
    Abort,
}

impl<I> View for Request<I> {
    type V = RequestView<I>;

    open spec fn view(&self) -> RequestView<I> {
        match *self {
            Request::PopQueued => RequestView::PopQueued,
            Request::CurrentInput => RequestView::CurrentInput,
            Request::Locate => RequestView::Locate,
            Request::StartRun(plan) => RequestView::StartRun(plan@),
            Request::Poll { run } => RequestView::Poll { run: run as nat },
            Request::Reap { run } => RequestView::Reap { run: run as nat },
            Request::OpenOutputs { dir } => RequestView::OpenOutputs { dir: dir@ },
            Request::NextOutput => RequestView::NextOutput,
            Request::EvaluateOutput => RequestView::EvaluateOutput,
            Request::Finish => RequestView::Finish,
            Request::Abort => RequestView::Abort,
        }
    }
}

/// What became known of the process of a run.
#[derive(Clone, Copy, Debug, PartialEq, Eq, Structural)]
pub enum ChildStatus {
    Exited,
    /// It runs; so many seconds have passed since its start.
    Running { elapsed: u64 },
    /// Its status cannot be told.
    Unknown,
}

/// One move of the stage: its tasks, what it waits for, and what it asks for.
#[verifier::ext_equal]
pub struct Turn<I> {
    pub tasks: Seq<SymCCTask>,
    pub phase: PhaseView<I>,
    pub request: RequestView<I>,
}

/// The first index, from `from` on, of a task whose process was not reaped; the number of tasks
/// if there is none.
pub open spec fn next_child(tasks: Seq<SymCCTask>, from: int) -> int
    decreases tasks.len() - from,
{
    if from >= tasks.len() || tasks[from].has_child {
        from
    } else {
        next_child(tasks, from + 1)
    }
}

/// The tasks that are not completed.
pub open spec fn unfinished(tasks: Seq<SymCCTask>) -> Seq<SymCCTask> {
    tasks.filter(|t: SymCCTask| !t.is_completed)
}

/// Going through the results, from task `from` on: the next task with a process is polled; if
/// there is none, the completed tasks are dropped, and the stage is done.
pub open spec fn results_turn<I>(tasks: Seq<SymCCTask>, from: int) -> Turn<I> {
    let k = next_child(tasks, from);
    if k < tasks.len() {
        Turn {
            tasks,
            phase: PhaseView::Polling { task: k as nat },
            request: RequestView::Poll { run: tasks[k].run as nat },
        }
    } else {
        Turn {
            tasks: unfinished(tasks),
            phase: PhaseView::Idle,
            request: RequestView::Finish,
        }
    }
}

/// The opening move. While a run is out, only its results are looked at; else an input is
/// asked for, a queued one if there is any.
pub open spec fn opening_turn<I>(tasks: Seq<SymCCTask>, completed: bool, queue_len: nat) -> Turn<I> {
    if !completed {
        results_turn(tasks, 0)
    } else if queue_len > 0 {
        Turn { tasks, phase: PhaseView::Queued, request: RequestView::PopQueued }
    } else {
        Turn { tasks, phase: PhaseView::Current, request: RequestView::CurrentInput }
    }
}

/// The move when the input and its hash are known: a new one is run if there is room for a run.
pub open spec fn input_turn<I>(
    tasks: Seq<SymCCTask>,
    seen: Set<u64>,
    hash: u64,
    input: I,
) -> Turn<I> {
    if !seen.contains(hash) && tasks.len() < MAX_CONCURRENT_TASKS {
        Turn { tasks, phase: PhaseView::Locating { input }, request: RequestView::Locate }
    } else {
        results_turn(tasks, 0)
    }
}

/// The task of a run that has just been started.
pub open spec fn started_task(run: nat) -> SymCCTask {
    SymCCTask { run: run as usize, is_completed: false, exec_time: 0, has_child: true }
}

/// The move when the status of task `i` is known. A process that has ended, that has run for
/// more than the time limit, or of which nothing is known is reaped.
pub open spec fn status_turn<I>(tasks: Seq<SymCCTask>, i: int, status: ChildStatus) -> Turn<I> {
    let task = tasks[i];
    if status matches ChildStatus::Running { elapsed } && elapsed <= TIMEOUT {
        results_turn(tasks, i + 1)
    } else {
        Turn {
            tasks: tasks.update(i, (SymCCTask { has_child: false, ..task })),
            phase: PhaseView::Reaping { task: i as nat, exited: status == ChildStatus::Exited },
            request: RequestView::Reap { run: task.run as nat },
        }
    }
}

/// The move when task `i` is completed.
pub open spec fn completed_turn<I>(tasks: Seq<SymCCTask>, i: int) -> Turn<I> {
    let task = tasks[i];
    results_turn(tasks.update(i, (SymCCTask { is_completed: true, ..task })), i + 1)
}

/// The move when the process of task `i` was reaped after `elapsed` seconds: the outputs of one
/// that ended by itself are looked at, others are given up.
pub open spec fn reaped_turn<I>(tasks: Seq<SymCCTask>, i: int, exited: bool, elapsed: u64) -> Turn<I> {
    let task = tasks[i];
    if exited {
        Turn {
            tasks: tasks.update(
                i,
                (SymCCTask { exec_time: (elapsed as nat % 0x1_0000_0000) as u32, ..task }),
            ),
            phase: PhaseView::Opening { task: i as nat },
            request: RequestView::OpenOutputs { dir: runs::output_dir(task.run as nat) },
        }
    } else {
        completed_turn(tasks, i)
    }
}

/// An entry of an output directory is a new input if it is a file and its path does not speak
/// of a constraint.
pub open spec fn is_new_input(path: Seq<char>, is_file: bool) -> bool {
    is_file && !text::has_substring(path, "constraint"@)
}

/// The move when the next entry of task `i`'s output directory is known.
pub open spec fn entry_turn<I>(tasks: Seq<SymCCTask>, i: int, path: Seq<char>, is_file: bool) -> Turn<I> {
    if is_new_input(path, is_file) {
        Turn {
            tasks,
            phase: PhaseView::Evaluating { task: i as nat },
            request: RequestView::EvaluateOutput,
        }
    } else {
        listing_turn(tasks, i)
    }
}

/// The move that asks for the next entry of task `i`'s output directory.
pub open spec fn listing_turn<I>(tasks: Seq<SymCCTask>, i: int) -> Turn<I> {
    Turn {
        tasks,
        phase: PhaseView::Listing { task: i as nat },
        request: RequestView::NextOutput,
    }
}

/// The concolic execution stage.
#[derive(Debug)]
pub struct SymCCStage<I> {
    pub name: String,
    pub target_program: Vec<String>,
    pub pending_tasks: Vec<SymCCTask>,
    pub phase: Phase<I>,
}

impl<I: RunInput> SymCCStage<I> {
    /// Not more runs are pending than may be, none of them is completed, and what is waited
    /// for makes sense.
    pub open spec fn wf(self) -> bool {
        let tasks = self.pending_tasks@;
        &&& tasks.len() <= MAX_CONCURRENT_TASKS
        &&& forall|i: int| 0 <= i < tasks.len() ==> !(#[trigger] tasks[i]).is_completed
        &&& match self.phase@ {
            PhaseView::Idle | PhaseView::Queued | PhaseView::Current => true,
            PhaseView::Locating { .. } | PhaseView::Starting { .. } => tasks.len() == 0,
            PhaseView::Polling { task } => task < tasks.len() && tasks[task as int].has_child,
            PhaseView::Reaping { task, .. }
            | PhaseView::Opening { task }
            | PhaseView::Listing { task }
            | PhaseView::Evaluating { task } => task < tasks.len()
                && !tasks[task as int].has_child,
        }
    }

    /// The fuzzer's flag says that runs are completed exactly if none is pending.
    pub open spec fn consistent(self, completed: bool) -> bool {
        completed <==> self.pending_tasks@.len() == 0
    }

    /// The name and the target are those of `other`.
    pub open spec fn same_setup(self, other: SymCCStage<I>) -> bool {
        self.name == other.name && self.target_program == other.target_program
    }

    /// The move that led to this state and to the request `r`.
    pub open spec fn turn(self, r: Request<I>) -> Turn<I> {
        Turn { tasks: self.pending_tasks@, phase: self.phase@, request: r@ }
    }

    /// A stage that runs the words of `target_program`.
    pub fn new(target_program: String, ids: &mut Counter) -> (r: SymCCStage<I>)
        requires
            old(ids).next < usize::MAX,
        ensures
            final(ids).next == old(ids).next + 1,
            r.name@ == runs::numbered_name(SYMCC_STAGE_NAME@, old(ids).next as nat),
            text::views(r.target_program@) == text::words(target_program@),
            r.target_program@.len() == text::words(target_program@).len(),
            forall|i: int|
                0 <= i < r.target_program@.len() ==> (#[trigger] r.target_program@[i])@
                    == text::words(target_program@)[i],
            r.pending_tasks@.len() == 0,
            r.phase@ is Idle,
            r.wf(),
            r.consistent(true),
    {
        let id = ids.take();
        SymCCStage {
            name: stage_name(SYMCC_STAGE_NAME, id),
            target_program: split_words(target_program.as_str()),
            pending_tasks: Vec::new(),
            phase: Phase::Idle,
        }
    }

    /// The name of the stage.
    pub fn name(&self) -> (r: &String)
        ensures
            *r == self.name,
    {
        &self.name
    }

    /// Goes on with the results, from the task at index `from` on.
    fn results_from(&mut self, from: usize) -> (r: Request<I>)
        requires
            from <= old(self).pending_tasks@.len(),
        ensures
            final(self).turn(r) == results_turn::<I>(old(self).pending_tasks@, from as int),
            final(self).same_setup(*old(self)),
    {
        let mut k = from;
        while k < self.pending_tasks.len() && !self.pending_tasks[k].has_child
            invariant
                from <= k <= self.pending_tasks@.len(),
                *self == *old(self),
                next_child(self.pending_tasks@, k as int) == next_child(
                    self.pending_tasks@,
                    from as int,
                ),
            decreases self.pending_tasks@.len() - k,
        {
            k += 1;
        }
        if k < self.pending_tasks.len() {
            self.phase = Phase::Polling { task: k };
            Request::Poll { run: self.pending_tasks[k].run }
        } else {
            self.drop_completed();
            self.phase = Phase::Idle;
            Request::Finish
        }
    }

    /// Goes through the results of the pending runs. A run whose process was reaped before is
    /// passed over, and stays pending.
    pub fn process_results(&mut self) -> (r: Request<I>)
        requires
            old(self).wf(),
            old(self).phase@ is Idle,
        ensures
            final(self).turn(r) == results_turn::<I>(old(self).pending_tasks@, 0),
            final(self).pending_tasks@ == old(self).pending_tasks@,
            r@ is Finish <==> forall|i: int|
                0 <= i < old(self).pending_tasks@.len() ==> !(#[trigger] old(self).pending_tasks@[i]).has_child,
            r is Poll || r is Finish,
            r matches Request::Poll { run } ==> (final(self).phase matches Phase::Polling { task }
                && task < old(self).pending_tasks@.len() && old(self).pending_tasks@[task as int].has_child && run == old(self).pending_tasks@[task as int].run && forall|j: int|
                0 <= j < task ==> !(#[trigger] old(self).pending_tasks@[j]).has_child),
            r is Finish ==> final(self).phase is Idle,
            final(self).name@ == old(self).name@,
            final(self).target_program@ == old(self).target_program@,
            final(self).same_setup(*old(self)),
            final(self).wf(),
            forall|c: bool| old(self).consistent(c) ==> final(self).consistent(c),
    {
        proof {
            lemma_results::<I>(self.pending_tasks@, 0);
            lemma_next_child(self.pending_tasks@, 0);
        }
        self.results_from(0)
    }

    /// Drops the completed tasks.
    fn drop_completed(&mut self)
        ensures
            final(self).pending_tasks@ == unfinished(old(self).pending_tasks@),
            final(self).phase == old(self).phase,
            final(self).same_setup(*old(self)),
    {
        let mut kept: Vec<SymCCTask> = Vec::new();
        let mut i: usize = 0;
        proof {
            assert(unfinished(self.pending_tasks@.take(0)) =~= Seq::<SymCCTask>::empty());
        }
        while i < self.pending_tasks.len()
            invariant
                i <= self.pending_tasks@.len(),
                *self == *old(self),
                kept@ == unfinished(self.pending_tasks@.take(i as int)),
            decreases self.pending_tasks@.len() - i,
        {
            let task = self.pending_tasks[i];
            proof {
                let done = self.pending_tasks@.take(i as int);
                done.lemma_filter_push(task, |t: SymCCTask| !t.is_completed);
                assert(self.pending_tasks@.take(i + 1) =~= done.push(task));
            }
            if !task.is_completed {
                kept.push(task);
            }
            i += 1;
        }
        proof {
            assert(self.pending_tasks@.take(i as int) =~= self.pending_tasks@);
        }
        self.pending_tasks = kept;
    }

    /// Starts a turn of the stage, with `queue_len` test cases queued.
    pub fn perform(&mut self, completed: bool, queue_len: usize) -> (r: Request<I>)
        requires
            old(self).wf(),
            old(self).phase@ is Idle,
        ensures
            final(self).turn(r) == opening_turn::<I>(
                old(self).pending_tasks@,
                completed,
                queue_len as nat,
            ),
            r is PopQueued <==> completed && queue_len > 0,
            r is CurrentInput <==> completed && queue_len == 0,
            r is Poll <==> !completed && exists|i: int|
                0 <= i < old(self).pending_tasks@.len() && (#[trigger] old(self).pending_tasks@[i]).has_child,
            r is Finish <==> !completed && forall|i: int|
                0 <= i < old(self).pending_tasks@.len() ==> !(#[trigger] old(self).pending_tasks@[i]).has_child,
            final(self).pending_tasks@ == old(self).pending_tasks@,
            final(self).name@ == old(self).name@,
            final(self).target_program@ == old(self).target_program@,
            final(self).same_setup(*old(self)),
            final(self).wf(),
            old(self).consistent(completed) ==> final(self).consistent(completed),
    {
        if !completed {
            self.process_results()
        } else if queue_len > 0 {
            self.phase = Phase::Queued;
            Request::PopQueued
        } else {
            self.phase = Phase::Current;
            Request::CurrentInput
        }
    }

    /// The queued test case has this input, or none.
    pub fn queued_input(&mut self, registry: &mut RunRegistry, input: Option<I>) -> (r: Request<I>)
        requires
            old(self).wf(),
            old(self).phase@ is Queued,
        ensures
            match input {
                Some(input) => exists|h: u64| #[trigger]
                    has_hash(input, h) && final(self).turn(r) == input_turn(
                        old(self).pending_tasks@,
                        old(registry).seen@,
                        h,
                        input,
                    ) && final(registry).seen@ == old(registry).seen@.insert(h),
                None => {
                    &&& final(self).turn(r) == (Turn::<I> {
                        tasks: old(self).pending_tasks@,
                        phase: PhaseView::Current,
                        request: RequestView::CurrentInput,
                    })
                    &&& final(registry).seen@ == old(registry).seen@
                },
            },
            final(registry).ids == old(registry).ids,
            final(self).pending_tasks@ == old(self).pending_tasks@,
            final(self).name@ == old(self).name@,
            final(self).target_program@ == old(self).target_program@,
            final(self).same_setup(*old(self)),
            final(self).wf(),
            forall|c: bool| old(self).consistent(c) ==> final(self).consistent(c),
    {
        match input {
            Some(input) => {
                let hash = input.hash_code();
                proof {
                    assert(has_hash(input, hash));
                }
                self.hashed_input(registry, hash, input)
            },
            None => {
                self.phase = Phase::Current;
                Request::CurrentInput
            },
        }
    }

    /// The current input is this.
    pub fn current_input(&mut self, registry: &mut RunRegistry, input: I) -> (r: Request<I>)
        requires
            old(self).wf(),
            old(self).phase@ is Current,
        ensures
            exists|h: u64| #[trigger]
                has_hash(input, h) && final(self).turn(r) == input_turn(
                    old(self).pending_tasks@,
                    old(registry).seen@,
                    h,
                    input,
                ) && final(registry).seen@ == old(registry).seen@.insert(h),
            final(registry).ids == old(registry).ids,
            final(self).pending_tasks@ == old(self).pending_tasks@,
            final(self).name@ == old(self).name@,
            final(self).target_program@ == old(self).target_program@,
            final(self).same_setup(*old(self)),
            final(self).wf(),
            forall|c: bool| old(self).consistent(c) ==> final(self).consistent(c),
    {
        let hash = input.hash_code();
        proof {
            assert(has_hash(input, hash));
        }
        self.hashed_input(registry, hash, input)
    }

    /// The input with this hash is to be run, if the hash is new and there is room for a run.
    pub fn hashed_input(&mut self, registry: &mut RunRegistry, hash: u64, input: I) -> (r: Request<
        I,
    >)
        requires
            old(self).wf(),
            old(self).phase@ is Queued || old(self).phase@ is Current,
        ensures
            final(self).turn(r) == input_turn(
                old(self).pending_tasks@,
                old(registry).seen@,
                hash,
                input,
            ),
            final(registry).seen@ == old(registry).seen@.insert(hash),
            final(registry).ids == old(registry).ids,
            r is Locate <==> !old(registry).seen@.contains(hash) && old(self).pending_tasks@.len() == 0,
            r is Locate ==> final(self).phase == (Phase::Locating { input }),
            r is Locate || r is Poll || r is Finish,
            final(self).name@ == old(self).name@,
            final(self).target_program@ == old(self).target_program@,
            final(self).same_setup(*old(self)),
            final(self).wf(),
            final(self).pending_tasks@ == old(self).pending_tasks@,
    {
        let should_spawn = registry.note_hash(hash);
        proof {
            lemma_results::<I>(self.pending_tasks@, 0);
        }
        if should_spawn && self.pending_tasks.len() < MAX_CONCURRENT_TASKS {
            self.phase = Phase::Locating { input };
            Request::Locate
        } else {
            self.results_from(0)
        }
    }

    /// The working directory is known: the run gets its number and its plan.
    pub fn spawn_symcc(&mut self, registry: &mut RunRegistry) -> (r: Request<I>)
        requires
            old(self).wf(),
            old(self).phase@ is Locating,
            old(registry).ids.next < usize::MAX,
        ensures
            final(self).turn(r) == (Turn::<I> {
                tasks: old(self).pending_tasks@,
                phase: PhaseView::Starting { run: old(registry).ids.next as nat },
                request: RequestView::StartRun(
                    run_plan(
                        old(registry).ids.next as nat,
                        text::views(old(self).target_program@),
                        old(self).phase@->input,
                    ),
                ),
            }),
            final(registry).ids.next == old(registry).ids.next + 1,
            final(registry).seen == old(registry).seen,
            r matches Request::StartRun(plan) && plan.run == old(registry).ids.next && old(self).phase == (Phase::Locating { input: plan.input }) && plan.output_dir@
                == runs::output_dir(plan.run as nat) && plan.input_file@ == runs::input_file(
                plan.run as nat,
            ) && plan.dir@ == runs::run_dir(plan.run as nat),
            r matches Request::StartRun(plan) ==> final(self).phase == (Phase::<I>::Starting {
                run: plan.run,
            }),
            final(self).pending_tasks@ == old(self).pending_tasks@,
            final(self).name@ == old(self).name@,
            final(self).target_program@ == old(self).target_program@,
            final(self).same_setup(*old(self)),
            final(self).wf(),
            forall|c: bool| old(self).consistent(c) ==> final(self).consistent(c),
    {
        let run = registry.ids.take();
        let mut phase = Phase::Starting { run };
        std::mem::swap(&mut phase, &mut self.phase);
        let input = match phase {
            Phase::Locating { input } => input,
            _ => vstd::pervasive::unreached(),
        };
        Request::StartRun(plan_run(run, &self.target_program, input))
    }

    /// The run was started.
    pub fn run_started(&mut self, completed: &mut bool) -> (r: Request<I>)
        requires
            old(self).wf(),
            old(self).phase@ is Starting,
        ensures
            final(self).turn(r) == results_turn::<I>(
                old(self).pending_tasks@.push(started_task(old(self).phase@->run)),
                0,
            ),
            !*final(completed),
            old(self).phase matches Phase::Starting { run } && final(self).pending_tasks@ == seq![
                SymCCTask { run, is_completed: false, exec_time: 0, has_child: true },
            ] && r == (Request::<I>::Poll { run }) && final(self).phase == (Phase::<I>::Polling {
                task: 0,
            }),
            final(self).name@ == old(self).name@,
            final(self).target_program@ == old(self).target_program@,
            final(self).same_setup(*old(self)),
            final(self).wf(),
            final(self).consistent(*final(completed)),
    {
        let run = match &self.phase {
            Phase::Starting { run } => *run,
            _ => 0,
        };
        *completed = false;
        self.pending_tasks.push(
            SymCCTask { run, is_completed: false, exec_time: 0, has_child: true },
        );
        proof {
            lemma_results::<I>(self.pending_tasks@, 0);
        }
        self.results_from(0)
    }

    /// The status of the polled process is this.
    pub fn polled(&mut self, status: ChildStatus) -> (r: Request<I>)
        requires
            old(self).wf(),
            old(self).phase@ is Polling,
        ensures
            final(self).turn(r) == status_turn::<I>(
                old(self).pending_tasks@,
                old(self).phase@->Polling_task as int,
                status,
            ),
            (status matches ChildStatus::Running { elapsed } && elapsed <= 90) ==> final(self).pending_tasks@ == old(self).pending_tasks@ && r is Finish,
            !(status matches ChildStatus::Running { elapsed } && elapsed <= 90) ==> (old(self).phase matches Phase::Polling { task } && r == (Request::<I>::Reap {
                run: old(self).pending_tasks@[task as int].run,
            }) && final(self).phase == (Phase::<I>::Reaping {
                task,
                exited: status is Exited,
            }) && final(self).pending_tasks@ == old(self).pending_tasks@.update(
                task as int,
                SymCCTask { has_child: false, ..old(self).pending_tasks@[task as int] },
            )),
            final(self).name@ == old(self).name@,
            final(self).target_program@ == old(self).target_program@,
            final(self).same_setup(*old(self)),
            final(self).wf(),
            forall|c: bool| old(self).consistent(c) ==> final(self).consistent(c),
    {
        let i = match &self.phase {
            Phase::Polling { task } => *task,
            _ => 0,
        };
        let exited = match status {
            ChildStatus::Running { elapsed } => {
                if elapsed <= TIMEOUT as u64 {
                    proof {
                        lemma_results::<I>(self.pending_tasks@, i + 1);
                    }
                    return self.results_from(i + 1);
                }
                false
            },
            ChildStatus::Exited => true,
            ChildStatus::Unknown => false,
        };
        let task = self.pending_tasks[i];
        self.pending_tasks.set(i, SymCCTask { has_child: false, ..task });
        self.phase = Phase::Reaping { task: i, exited };
        Request::Reap { run: task.run }
    }

    /// The process was reaped, `elapsed` seconds after its start.
    pub fn reaped(&mut self, elapsed: u64, completed: &mut bool) -> (r: Request<I>)
        requires
            old(self).wf(),
            old(self).phase@ is Reaping,
        ensures
            final(self).turn(r) == reaped_turn::<I>(
                old(self).pending_tasks@,
                old(self).phase@->Reaping_task as int,
                old(self).phase@->exited,
                elapsed,
            ),
            *final(completed) == (*old(completed) || !old(self).phase@->exited),
            old(self).phase matches Phase::Reaping { task, exited } && (exited ==> (r matches
                Request::OpenOutputs { dir } && dir@ == runs::output_dir(
                old(self).pending_tasks@[task as int].run as nat,
            ) && final(self).phase == (Phase::<I>::Opening { task }) && final(self).pending_tasks@
                == old(self).pending_tasks@.update(
                task as int,
                SymCCTask {
                    exec_time: (elapsed as nat % 0x1_0000_0000) as u32,
                    ..old(self).pending_tasks@[task as int]
                },
            ) && *final(completed) == *old(completed))),
            old(self).phase matches Phase::Reaping { task, exited } && (!exited ==> r is Finish
                && final(self).phase is Idle && final(self).pending_tasks@.len() == 0 && *final(completed)),
            final(self).name@ == old(self).name@,
            final(self).target_program@ == old(self).target_program@,
            final(self).same_setup(*old(self)),
            final(self).wf(),
            old(self).consistent(*old(completed)) ==> final(self).consistent(*final(completed)),
    {
        let (i, exited) = match &self.phase {
            Phase::Reaping { task, exited } => (*task, *exited),
            _ => (0, false),
        };
        if exited {
            let task = self.pending_tasks[i];
            let exec_time = elapsed as u32;
            proof {
                assert(elapsed as u32 == elapsed % 0x1_0000_0000) by (bit_vector);
            }
            self.pending_tasks.set(i, SymCCTask { exec_time, ..task });
            self.phase = Phase::Opening { task: i };
            Request::OpenOutputs { dir: output_dir_path(task.run) }
        } else {
            self.complete(i, completed)
        }
    }

    /// Marks the task at index `i` as completed, and goes on.
    fn complete(&mut self, i: usize, completed: &mut bool) -> (r: Request<I>)
        requires
            old(self).wf(),
            i < old(self).pending_tasks@.len(),
        ensures
            final(self).turn(r) == completed_turn::<I>(old(self).pending_tasks@, i as int),
            *final(completed),
            r is Finish,
            final(self).phase is Idle,
            final(self).pending_tasks@.len() == 0,
            final(self).same_setup(*old(self)),
            final(self).wf(),
            final(self).consistent(true),
    {
        let task = self.pending_tasks[i];
        self.pending_tasks.set(i, SymCCTask { is_completed: true, ..task });
        *completed = true;
        proof {
            lemma_single_completed::<I>(self.pending_tasks@);
        }
        self.results_from(i + 1)
    }

    /// The output directory is open.
    pub fn outputs_opened(&mut self) -> (r: Request<I>)
        requires
            old(self).wf(),
            old(self).phase@ is Opening,
        ensures
            final(self).turn(r) == listing_turn::<I>(
                old(self).pending_tasks@,
                old(self).phase@->Opening_task as int,
            ),
            old(self).phase matches Phase::Opening { task } && final(self).phase == (Phase::<
                I,
            >::Listing { task }),
            r is NextOutput,
            final(self).pending_tasks@ == old(self).pending_tasks@,
            final(self).name@ == old(self).name@,
            final(self).target_program@ == old(self).target_program@,
            final(self).same_setup(*old(self)),
            final(self).wf(),
            forall|c: bool| old(self).consistent(c) ==> final(self).consistent(c),
    {
        let task = match &self.phase {
            Phase::Opening { task } => *task,
            _ => 0,
        };
        self.phase = Phase::Listing { task };
        Request::NextOutput
    }

    /// The next entry of the output directory is this.
    pub fn output_listed(&mut self, path: &str, is_file: bool) -> (r: Request<I>)
        requires
            old(self).wf(),
            old(self).phase@ is Listing,
        ensures
            final(self).turn(r) == entry_turn::<I>(
                old(self).pending_tasks@,
                old(self).phase@->Listing_task as int,
                path@,
                is_file,
            ),
            text::has_substring(path@, "constraint"@) ==> r@ is NextOutput,
            r is EvaluateOutput <==> is_file && !text::has_substring(path@, "constraint"@),
            r is EvaluateOutput || r is NextOutput,
            old(self).phase matches Phase::Listing { task } && final(self).phase == (if r is
                EvaluateOutput {
                Phase::<I>::Evaluating { task }
            } else {
                Phase::<I>::Listing { task }
            }),
            final(self).pending_tasks@ == old(self).pending_tasks@,
            final(self).name@ == old(self).name@,
            final(self).target_program@ == old(self).target_program@,
            final(self).same_setup(*old(self)),
            final(self).wf(),
            forall|c: bool| old(self).consistent(c) ==> final(self).consistent(c),
    {
        let task = match &self.phase {
            Phase::Listing { task } => *task,
            _ => 0,
        };
        if !contains_text(path, "constraint") && is_file {
            self.phase = Phase::Evaluating { task };
            Request::EvaluateOutput
        } else {
            Request::NextOutput
        }
    }

    /// The fuzzer has evaluated the last entry.
    pub fn output_evaluated(&mut self) -> (r: Request<I>)
        requires
            old(self).wf(),
            old(self).phase@ is Evaluating,
        ensures
            final(self).turn(r) == listing_turn::<I>(
                old(self).pending_tasks@,
                old(self).phase@->Evaluating_task as int,
            ),
            old(self).phase matches Phase::Evaluating { task } && final(self).phase == (Phase::<
                I,
            >::Listing { task }),
            r is NextOutput,
            final(self).pending_tasks@ == old(self).pending_tasks@,
            final(self).name@ == old(self).name@,
            final(self).target_program@ == old(self).target_program@,
            final(self).same_setup(*old(self)),
            final(self).wf(),
            forall|c: bool| old(self).consistent(c) ==> final(self).consistent(c),
    {
        let task = match &self.phase {
            Phase::Evaluating { task } => *task,
            _ => 0,
        };
        self.phase = Phase::Listing { task };
        Request::NextOutput
    }

    /// The output directory has no more entries.
    pub fn outputs_exhausted(&mut self, completed: &mut bool) -> (r: Request<I>)
        requires
            old(self).wf(),
            old(self).phase@ is Listing,
        ensures
            final(self).turn(r) == completed_turn::<I>(
                old(self).pending_tasks@,
                old(self).phase@->Listing_task as int,
            ),
            *final(completed),
            r is Finish,
            final(self).phase is Idle,
            final(self).pending_tasks@.len() == 0,
            final(self).name@ == old(self).name@,
            final(self).target_program@ == old(self).target_program@,
            final(self).same_setup(*old(self)),
            final(self).wf(),
            final(self).consistent(*final(completed)),
    {
        let task = match &self.phase {
            Phase::Listing { task } => *task,
            _ => 0,
        };
        self.complete(task, completed)
    }

    /// What was asked for has failed. The tasks stay as they are. Polling and reaping do not
    /// fail: a process of which nothing is known is one of the statuses.
    pub fn failed(&mut self) -> (r: Request<I>)
        requires
            old(self).wf(),
            !(old(self).phase@ is Idle),
            !(old(self).phase@ is Polling),
            !(old(self).phase@ is Reaping),
        ensures
            final(self).turn(r) == (Turn::<I> {
                tasks: old(self).pending_tasks@,
                phase: PhaseView::Idle,
                request: RequestView::Abort,
            }),
            r is Abort,
            final(self).phase is Idle,
            final(self).pending_tasks@ == old(self).pending_tasks@,
            final(self).name@ == old(self).name@,
            final(self).target_program@ == old(self).target_program@,
            final(self).same_setup(*old(self)),
            final(self).wf(),
            forall|c: bool| old(self).consistent(c) ==> final(self).consistent(c),
    {
        self.phase = Phase::Idle;
        Request::Abort
    }
}

/// A single completed task is dropped.
proof fn lemma_single_completed<I>(tasks: Seq<SymCCTask>)
    requires
        tasks.len() == 1,
        tasks[0].is_completed,
    ensures
        results_turn::<I>(tasks, 1).tasks.len() == 0,
        results_turn::<I>(tasks, 1).phase is Idle,
{
    reveal(Seq::filter);
    assert(tasks.drop_last() =~= Seq::<SymCCTask>::empty());
    assert(unfinished(tasks.drop_last()) =~= Seq::<SymCCTask>::empty());
}

proof fn lemma_next_child(tasks: Seq<SymCCTask>, from: int)
    requires
        0 <= from <= tasks.len(),
    ensures
        from <= next_child(tasks, from) <= tasks.len(),
        next_child(tasks, from) < tasks.len() ==> tasks[next_child(tasks, from)].has_child,
        forall|i: int| from <= i < next_child(tasks, from) ==> !(#[trigger] tasks[i]).has_child,
    decreases tasks.len() - from,
{
    if from < tasks.len() && !tasks[from].has_child {
        lemma_next_child(tasks, from + 1);
    }
}

/// Going through results of tasks none of which is completed keeps them all.
proof fn lemma_results<I>(tasks: Seq<SymCCTask>, from: int)
    requires
        0 <= from <= tasks.len(),
        forall|i: int| 0 <= i < tasks.len() ==> !(#[trigger] tasks[i]).is_completed,
    ensures
        results_turn::<I>(tasks, from).tasks == tasks,
        results_turn::<I>(tasks, from).phase matches PhaseView::Polling { task } ==> task < tasks.len()
            && tasks[task as int].has_child,
{
    lemma_next_child(tasks, from);
    lemma_all_unfinished(tasks);
}

proof fn lemma_all_unfinished(tasks: Seq<SymCCTask>)
    requires
        forall|i: int| 0 <= i < tasks.len() ==> !(#[trigger] tasks[i]).is_completed,
    ensures
        unfinished(tasks) == tasks,
    decreases tasks.len(),
{
    reveal(Seq::filter);
    if tasks.len() > 0 {
        lemma_all_unfinished(tasks.drop_last());
        assert(tasks.drop_last().push(tasks.last()) =~= tasks);
    }
}

/// An input whose hash was noted once is never run again, however many hashes were noted since.
pub proof fn law_no_input_runs_twice<I>(
    tasks: Seq<SymCCTask>,
    noted: Set<u64>,
    later: Set<u64>,
    hash: u64,
    input: I,
)
    requires
        noted.insert(hash).subset_of(later),
    ensures
        !(input_turn(tasks, later, hash, input).request is Locate),
{
    assert(later.contains(hash));
}

/// While as many runs are pending as may be, no further one is started: not for any input, and
/// with the fuzzer's flag down no input is even asked for.
pub proof fn law_busy_stage_starts_nothing<I>(
    tasks: Seq<SymCCTask>,
    seen: Set<u64>,
    hash: u64,
    input: I,
    queue_len: nat,
)
    requires
        tasks.len() >= MAX_CONCURRENT_TASKS,
    ensures
        !(input_turn(tasks, seen, hash, input).request is Locate),
        ({
            let request = opening_turn::<I>(tasks, false, queue_len).request;
            request is Poll || request is Finish
        }),
{
}

/// A run that takes longer than the limit is reaped and given up: its outputs are not looked at,
/// and no task stays pending.
pub proof fn law_late_run_is_given_up<I>(tasks: Seq<SymCCTask>, elapsed: u64, at_reaping: u64)
    requires
        tasks.len() == 1,
        tasks[0].has_child,
        elapsed > TIMEOUT,
    ensures
        ({
            let reaping = status_turn::<I>(tasks, 0, ChildStatus::Running { elapsed });
            let end = reaped_turn::<I>(reaping.tasks, 0, false, at_reaping);
            &&& reaping.phase == (PhaseView::<I>::Reaping { task: 0, exited: false })
            &&& reaping.request == (RequestView::<I>::Reap { run: tasks[0].run as nat })
            &&& end.request is Finish
            &&& end.tasks.len() == 0
        }),
{
    let reaping = status_turn::<I>(tasks, 0, ChildStatus::Running { elapsed });
    let task = reaping.tasks[0];
    let done = reaping.tasks.update(0, (SymCCTask { is_completed: true, ..task }));
    lemma_single_completed::<I>(done);
    lemma_next_child(done, 1);
}

/// A run within the limit stays pending, untouched.
pub proof fn law_running_run_stays<I>(tasks: Seq<SymCCTask>, elapsed: u64)
    requires
        tasks.len() == 1,
        !tasks[0].is_completed,
        elapsed <= TIMEOUT,
    ensures
        status_turn::<I>(tasks, 0, ChildStatus::Running { elapsed }) == (Turn::<I> {
            tasks,
            phase: PhaseView::Idle,
            request: RequestView::Finish,
        }),
{
    lemma_results::<I>(tasks, 1);
    lemma_next_child(tasks, 1);
}

/// A run whose process was reaped but whose outputs could not be taken in stays pending: a
/// further turn finishes without touching it.
pub proof fn law_unread_run_stays_pending<I>(tasks: Seq<SymCCTask>, queue_len: nat)
    requires
        forall|i: int|
            0 <= i < tasks.len() ==> !(#[trigger] tasks[i]).is_completed && !tasks[i].has_child,
    ensures
        opening_turn::<I>(tasks, false, queue_len) == (Turn::<I> {
            tasks,
            phase: PhaseView::Idle,
            request: RequestView::Finish,
        }),
{
    lemma_results::<I>(tasks, 0);
    lemma_next_child(tasks, 0);
    if next_child(tasks, 0) < tasks.len() {
        assert(tasks[next_child(tasks, 0)].has_child);
    }
}

/// The pending tasks after `n` turns that go through the results and end at once.
pub open spec fn tasks_after_turns<I>(tasks: Seq<SymCCTask>, n: nat) -> Seq<SymCCTask>
    decreases n,
{
    if n == 0 {
        tasks
    } else {
        results_turn::<I>(tasks_after_turns::<I>(tasks, (n - 1) as nat), 0).tasks
    }
}

/// Runs that stay pending without a process stay so for ever: however many turns have gone
/// through the results, the next one leaves the tasks as they are, asks for nothing, and so has
/// none of their outputs evaluated.
pub proof fn law_unread_run_is_never_taken_up<I>(tasks: Seq<SymCCTask>, n: nat)
    requires
        forall|i: int|
            0 <= i < tasks.len() ==> !(#[trigger] tasks[i]).is_completed && !tasks[i].has_child,
    ensures
        tasks_after_turns::<I>(tasks, n) == tasks,
        results_turn::<I>(tasks_after_turns::<I>(tasks, n), 0) == (Turn::<I> {
            tasks,
            phase: PhaseView::Idle,
            request: RequestView::Finish,
        }),
    decreases n,
{
    law_unread_run_stays_pending::<I>(tasks, 0);
    if n > 0 {
        law_unread_run_is_never_taken_up::<I>(tasks, (n - 1) as nat);
    }
}

/// A file whose name says that it holds constraints is never taken for a new input, in whichever
/// directory it lies.
pub proof fn law_constraints_are_no_inputs(dir: Seq<char>, name: Seq<char>, is_file: bool)
    requires
        text::has_substring(name, "constraints"@),
    ensures
        !is_new_input(dir + name, is_file),
{
    reveal_strlit("constraints");
    reveal_strlit("constraint");
    let path = dir + name;
    let long = "constraints"@;
    let short = "constraint"@;
    let i = choose|i: int| text::occurs_at(name, long, i);
    let at = dir.len() + i;
    assert(long.take(10) =~= short);
    assert forall|k: int| 0 <= k < 10 implies path.subrange(at, at + 10)[k] == short[k] by {
        assert(name.subrange(i, i + 11)[k] == long[k]);
        assert(long.take(10)[k] == long[k]);
    }
    assert(path.subrange(at, at + 10) =~= short);
    assert(text::occurs_at(path, short, at));
}

/// The outputs of a run that has ended by itself are looked for where its plan told it to leave
/// them, whatever its number and wherever its task stands among the others.
pub proof fn law_outputs_are_sought_where_the_plan_says<I>(
    tasks: Seq<SymCCTask>,
    i: int,
    elapsed: u64,
    target: Seq<Seq<char>>,
    input: I,
)
    requires
        0 <= i < tasks.len(),
    ensures
        reaped_turn::<I>(tasks, i, true, elapsed).request == (RequestView::<I>::OpenOutputs {
            dir: run_plan(tasks[i].run as nat, target, input).output_dir,
        }),
{
}

/// From the start of a run to the search for its outputs, each request concerns that run: it is
/// polled and reaped under its number, and the directory that is opened is the one of its plan.
pub proof fn law_a_run_is_followed_under_its_number<I>(
    run: usize,
    target: Seq<Seq<char>>,
    input: I,
    elapsed: u64,
)
    ensures
        ({
            let polling = results_turn::<I>(seq![started_task(run as nat)], 0);
            let reaping = status_turn::<I>(polling.tasks, 0, ChildStatus::Exited);
            let opening = reaped_turn::<I>(reaping.tasks, 0, true, elapsed);
            let plan = run_plan(run as nat, target, input);
            &&& plan.run == run
            &&& polling.request == (RequestView::<I>::Poll { run: plan.run })
            &&& reaping.request == (RequestView::<I>::Reap { run: plan.run })
            &&& opening.request == (RequestView::<I>::OpenOutputs { dir: plan.output_dir })
        }),
{
    reveal_with_fuel(next_child, 2);
}

/// Every entry that is a file is evaluated, and no other, but for those whose path holds
/// `constraint` somewhere.
pub proof fn law_every_other_file_is_evaluated<I>(
    tasks: Seq<SymCCTask>,
    i: int,
    path: Seq<char>,
    is_file: bool,
)
    ensures
        entry_turn::<I>(tasks, i, path, is_file).request is EvaluateOutput <==> is_file && !(exists|
            before: Seq<char>,
            behind: Seq<char>,
        |
            path == #[trigger] (before + "constraint"@ + behind)),
        entry_turn::<I>(tasks, i, path, is_file).request is EvaluateOutput || entry_turn::<I>(
            tasks,
            i,
            path,
            is_file,
        ).request is NextOutput,
        entry_turn::<I>(tasks, i, path, is_file).tasks == tasks,
{
    text::law_substring_is_infix(path, "constraint"@);
}

/// The task that is polled next is the first one with a process.
pub proof fn law_first_process_is_polled<I>(tasks: Seq<SymCCTask>, from: int, k: int)
    requires
        0 <= from <= k < tasks.len(),
        tasks[k].has_child,
        forall|i: int| from <= i < k ==> !(#[trigger] tasks[i]).has_child,
    ensures
        results_turn::<I>(tasks, from) == (Turn::<I> {
            tasks,
            phase: PhaseView::Polling { task: k as nat },
            request: RequestView::Poll { run: tasks[k].run as nat },
        }),
    decreases k - from,
{
    if from < k {
        law_first_process_is_polled::<I>(tasks, from + 1, k);
    }
}

/// When no process is left, the stage is done, and keeps the tasks that are not completed, in
/// their order.
pub proof fn law_completed_tasks_are_dropped<I>(tasks: Seq<SymCCTask>, task: SymCCTask)
    ensures
        unfinished(seq![]) == Seq::<SymCCTask>::empty(),
        unfinished(tasks.push(task)) == if task.is_completed {
            unfinished(tasks)
        } else {
            unfinished(tasks).push(task)
        },
        results_turn::<I>(tasks, tasks.len() as int) == (Turn::<I> {
            tasks: unfinished(tasks),
            phase: PhaseView::Idle,
            request: RequestView::Finish,
        }),
{
    reveal(Seq::filter);
    assert(unfinished(seq![]) =~= Seq::<SymCCTask>::empty());
    tasks.lemma_filter_push(task, |t: SymCCTask| !t.is_completed);
}

/// A process is left alone while it runs, for 90 seconds; else it is reaped, and is known to have
/// ended by itself only if it has. Reaping changes nothing else about any task.
pub proof fn law_reaped_if_ended_late_or_unknown<I>(
    tasks: Seq<SymCCTask>,
    i: int,
    status: ChildStatus,
    other: int,
)
    requires
        0 <= i < tasks.len(),
        0 <= other < tasks.len(),
        other != i,
    ensures
        ({
            let t = status_turn::<I>(tasks, i, status);
            let alone = status matches ChildStatus::Running { elapsed } && elapsed <= 90;
            &&& !alone ==> t.request == (RequestView::<I>::Reap { run: tasks[i].run as nat })
            &&& !alone ==> t.phase == (PhaseView::<I>::Reaping {
                task: i as nat,
                exited: status is Exited,
            })
            &&& !alone ==> t.tasks.len() == tasks.len() && t.tasks[other] == tasks[other]
            &&& !alone ==> !t.tasks[i].has_child && t.tasks[i].run == tasks[i].run
                && t.tasks[i].is_completed == tasks[i].is_completed && t.tasks[i].exec_time
                == tasks[i].exec_time
            &&& alone ==> !(t.request is Reap)
        }),
{
}

/// With no run out, an input is asked for: a queued one if there is any, else the current one.
pub proof fn law_input_is_asked_for_when_free<I>(tasks: Seq<SymCCTask>, queue_len: nat)
    ensures
        opening_turn::<I>(tasks, true, queue_len).request is PopQueued <==> queue_len > 0,
        opening_turn::<I>(tasks, true, queue_len).request is CurrentInput <==> queue_len == 0,
        opening_turn::<I>(tasks, true, queue_len).tasks == tasks,
{
}

/// An input whose hash is new is run, if no run is pending.
pub proof fn law_new_input_is_run<I>(
    tasks: Seq<SymCCTask>,
    seen: Set<u64>,
    hash: u64,
    input: I,
)
    ensures
        input_turn(tasks, seen, hash, input).request is Locate <==> !seen.contains(hash)
            && tasks.len() == 0,
        !seen.contains(hash) && tasks.len() == 0 ==> input_turn(tasks, seen, hash, input).phase == (
        PhaseView::Locating { input }),
{
}

/// The hash that is used is what the type's own method gives; that of bytes is the hash of the
/// eight bytes of their number, then of themselves.
pub proof fn law_hash_is_the_types_own<I: RunInput>(input: I, h: u64, bytes: Seq<u8>)
    ensures
        has_hash(input, h) <==> call_ensures(I::hash_code, (&input,), h),
        bytes_hash(bytes) == DefaultHasher::spec_finish(
            seq![vstd::bytes::spec_u64_to_le_bytes(bytes.len() as u64), bytes],
        ),
{
}

/// A run is started by `timeout`, which kills the target five seconds after it has ignored a limit
/// of 90 seconds, with the words of the target, each as it is, and the input file as arguments;
/// the environment names the input file and the output directory.
pub proof fn law_command_of_a_run<I>(run: nat, target: Seq<Seq<char>>, input: I, i: int)
    requires
        0 <= i < target.len(),
    ensures
        ({
            let plan = run_plan(run, target, input);
            &&& plan.program == "timeout"@
            &&& plan.args.len() == target.len() + 4
            &&& plan.args[0] == PartView::Word("-k"@)
            &&& plan.args[1] == PartView::Word("5"@)
            &&& plan.args[2] == PartView::Word(text::decimal(90))
            &&& plan.args[3 + i] == PartView::Word(target[i])
            &&& plan.args.last() is InputFile
            &&& plan.settings == seq![
                ("SYMCC_ENABLE_LINEARIZATION"@, PartView::Word("1"@)),
                ("SYMCC_INPUT_FILE"@, PartView::InputFile),
                ("SYMCC_OUTPUT_DIR"@, PartView::OutputDir),
            ]
            &&& plan.input == input
            &&& plan.input_file == plan.dir + "/cur_input"@
            &&& plan.output_dir == plan.dir + "/output"@
            &&& plan.dir == "out/symcc_output_"@ + text::decimal(run)
        }),
{
    assert(run_args(target)[3 + i] == word_parts(target)[i]);
}

/// The invariants in plain terms: at most one run is pending, none is completed, the flag tells
/// whether one is, and a stage keeps its name and its target.
pub proof fn law_invariants_in_plain_terms<I: RunInput>(
    s: SymCCStage<I>,
    other: SymCCStage<I>,
    completed: bool,
)
    ensures
        s.wf() ==> s.pending_tasks@.len() <= 1,
        s.wf() && s.pending_tasks@.len() == 1 ==> !s.pending_tasks@[0].is_completed,
        s.consistent(completed) <==> (completed <==> s.pending_tasks@.len() == 0),
        s.same_setup(other) ==> s.name == other.name && s.target_program == other.target_program,
{
}

} // verus!
