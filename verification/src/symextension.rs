//! The extension stage: solves the constraints that a concolic run left behind again, for
//! further inputs. The stage decides; whoever drives it holds the solver, performs what the
//! stage asks for, and reports back.

use vstd::prelude::*;
use crate::model;
use crate::model::{apply_model, exclude_model, read_model, Assignment, Difference};
use crate::runs;
use crate::runs::{input_file_path, output_dir_path, run_dir_path, stage_name, Counter};
use crate::symcc;
use crate::text;
use crate::text::contains_text;

verus! {

/// The kind of this stage.
pub const SYMEXTENSION_STAGE_NAME: &'static str = "symextensionstage";

/// How long the solver may take for one check, in milliseconds.
pub const SOLVER_TIMEOUT_MSEC: u64 = 10000;

/// How often the constraints of one file are checked.
pub const CHECKS_PER_FILE: usize = 5;

/// An entry of an output directory.
#[derive(Debug)]
pub struct Entry {
    /// The whole path, as text.
    pub path: String,
    /// The name of the entry, where that is text.
    pub name: Option<String>,
    pub is_file: bool,
}

impl Entry {
    /// It is a file, and its name says that it holds constraints.
    pub open spec fn holds_constraints(self) -> bool {
        self.is_file && match self.name {
            Some(name) => text::has_substring(name@, "constraints"@),
            None => false,
        }
    }
}

/// The paths of the constraint files among `entries`, in their order.
pub open spec fn constraint_files(entries: Seq<Entry>) -> Seq<Seq<char>> {
    entries.filter(|e: Entry| e.holds_constraints()).map_values(|e: Entry| e.path@)
}

/// Picks the constraint files out of the entries of a directory.
pub fn select_constraint_files(entries: &Vec<Entry>) -> (r: Vec<String>)
    ensures
        text::views(r@) == constraint_files(entries@),
        forall|i: int|
            0 <= i < entries@.len() && (#[trigger] entries@[i]).is_file && (entries@[i].name matches
                Some(name) && text::has_substring(name@, "constraints"@)) ==> text::views(
                r@,
            ).contains(entries@[i].path@),
        r@.len() == constraint_files(entries@).len(),
        forall|k: int| 0 <= k < r@.len() ==> (#[trigger] r@[k])@ == constraint_files(entries@)[k],
{
    let mut r: Vec<String> = Vec::new();
    let mut i: usize = 0;
    let ghost pred = |e: Entry| e.holds_constraints();
    proof {
        reveal(Seq::filter);
        assert(entries@.take(0).filter(pred) =~= Seq::<Entry>::empty());
        assert(text::views(r@) =~= constraint_files(entries@.take(0)));
    }
    while i < entries.len()
        invariant
            i <= entries.len(),
            pred == (|e: Entry| e.holds_constraints()),
            text::views(r@) == constraint_files(entries@.take(i as int)),
        decreases entries.len() - i,
    {
        let holds = match &entries[i].name {
            Some(name) => contains_text(name.as_str(), "constraints"),
            None => false,
        };
        let ghost done = entries@.take(i as int);
        let ghost entry = entries@[i as int];
        let ghost before = r@;
        proof {
            done.lemma_filter_push(entry, pred);
            assert(entries@.take(i + 1) =~= done.push(entry));
        }
        if entries[i].is_file && holds {
            r.push(entries[i].path.clone());
            proof {
                assert(text::views(r@) =~= text::views(before).push(entry.path@));
                assert(done.filter(pred).push(entry).map_values(|e: Entry| e.path@)
                    =~= done.filter(pred).map_values(|e: Entry| e.path@).push(entry.path@));
            }
        }
        i += 1;
    }
    proof {
        assert(entries@.take(i as int) =~= entries@);
        assert forall|k: int|
            0 <= k < entries@.len() && (#[trigger] entries@[k]).is_file && (
            entries@[k].name matches Some(name) && text::has_substring(
                name@,
                "constraints"@,
            )) implies text::views(r@).contains(entries@[k].path@) by {
            let kept = entries@.filter(pred);
            entries@.lemma_filter_contains(pred, k);
            let j = choose|j: int| 0 <= j < kept.len() && kept[j] == entries@[k];
            assert(constraint_files(entries@)[j] == kept[j].path@);
        }
        assert forall|k: int| 0 <= k < r@.len() implies (#[trigger] r@[k])@ == constraint_files(
            entries@,
        )[k] by {
            assert(text::views(r@)[k] == r@[k]@);
        }
    }
    r
}

/// The constraint files are found entry by entry: an entry at the end adds its path at the end if
/// it is a file with `constraints` in its name, and nothing else.
pub proof fn law_constraint_files_by_entry(entries: Seq<Entry>, e: Entry)
    ensures
        constraint_files(seq![]) == Seq::<Seq<char>>::empty(),
        e.is_file && (e.name matches Some(name) && text::has_substring(name@, "constraints"@))
            ==> constraint_files(entries.push(e)) == constraint_files(entries).push(e.path@),
        !(e.is_file && (e.name matches Some(name) && text::has_substring(name@, "constraints"@)))
            ==> constraint_files(entries.push(e)) == constraint_files(entries),
{
    let pred = |e: Entry| e.holds_constraints();
    reveal(Seq::filter);
    assert(constraint_files(seq![]) =~= Seq::<Seq<char>>::empty());
    entries.lemma_filter_push(e, pred);
    assert(entries.filter(pred).push(e).map_values(|e: Entry| e.path@) =~= entries.filter(
        pred,
    ).map_values(|e: Entry| e.path@).push(e.path@));
}

/// No file of an output directory is both: whichever entry the extension stage takes for
/// constraints, the concolic execution stage does not take for a new input.
pub proof fn law_no_file_is_input_and_constraints(e: Entry, dir: Seq<char>)
    requires
        e.name matches Some(name) ==> e.path@ == dir + name@,
    ensures
        !(e.holds_constraints() && symcc::is_new_input(e.path@, e.is_file)),
{
    if e.holds_constraints() {
        symcc::law_constraints_are_no_inputs(dir, e.name->0@, e.is_file);
    }
}

/// What the stage waits for.
#[derive(Clone, Copy, Debug, PartialEq, Eq, Structural)]
pub enum Phase {
    Idle,
    /// Whether the directory of this run exists.
    Probing { run: usize },
    /// The input of this run.
    Loading { run: usize },
    /// The entries of its output directory.
    Listing,
    /// The text of the constraint file at this index.
    Reading { file: usize },
    /// The solver to take that text in.
    Adding { file: usize },
    /// The result of a check; so many checks of this file are done.
    Checking { file: usize, done: usize },
    /// The evaluation of the input that a check gave.
    Evaluating { file: usize, done: usize },
    /// The solver to forget the file.
    Closing { file: usize },
}

/// What the stage asks of its driver.
#[derive(Debug)]
pub enum Request {
    /// Tell whether this directory exists, relative to the working directory.
    Probe { dir: String },
    /// Make a solver with this time limit, and load this file as an input.
    Prepare { timeout_msec: u64, input_file: String },
    /// List this directory.
    ListOutputs { dir: String },
    /// Open a scope of the solver, and read this file.
    OpenScope { file: String },
    /// Hand the text that was read to the solver.
    AddConstraints,
    /// Check what the solver holds.
    Check,
    /// Have the solver also hold that one of these differences is true, and have the fuzzer
    /// evaluate this input.
    TryInput { clause: Vec<Difference>, input: Vec<u8> },
    /// Close the scope of the solver.
    CloseScope,
    /// Return: all is done.
    Finish,
    /// Return the error of what was asked for last.
    Abort,
}

/// What a request says.
pub enum RequestView {
    Probe { dir: Seq<char> },
    Prepare { timeout_msec: u64, input_file: Seq<char> },
    ListOutputs { dir: Seq<char> },
    OpenScope { file: Seq<char> },
    AddConstraints,
    Check,
    TryInput { clause: Seq<(Seq<char>, u8)>, input: Seq<u8> },
    CloseScope,
    Finish,
    Abort,
}

impl View for Request {
    type V = RequestView;

    open spec fn view(&self) -> RequestView {
        match *self {
            Request::Probe { dir } => RequestView::Probe { dir: dir@ },
            Request::Prepare { timeout_msec, input_file } => RequestView::Prepare {
                timeout_msec,
                input_file: input_file@,
            },
            Request::ListOutputs { dir } => RequestView::ListOutputs { dir: dir@ },
            Request::OpenScope { file } => RequestView::OpenScope { file: file@ },
            Request::AddConstraints => RequestView::AddConstraints,
            Request::Check => RequestView::Check,
            Request::TryInput { clause, input } => RequestView::TryInput {
                clause: model::clause_view(clause@),
                input: input@,
            },
            Request::CloseScope => RequestView::CloseScope,
            Request::Finish => RequestView::Finish,
            Request::Abort => RequestView::Abort,
        }
    }
}

/// What a stage knows: what it waits for, the input that it extends, and the constraint files.
#[verifier::ext_equal]
pub struct StageView {
    pub phase: Phase,
    pub seed: Seq<u8>,
    pub files: Seq<Seq<char>>,
}

/// What can happen to a stage.
pub enum Event {
    /// It is this stage's turn; `run` is the next run to extend.
    Started { run: usize },
    /// The directory exists, or it does not.
    Probed { found: bool },
    Loaded { seed: Seq<u8> },
    Listed { files: Seq<Seq<char>> },
    /// The file was read, or it could not be.
    Read { ok: bool },
    Added,
    /// The constraints have this model.
    Solved { assignments: Seq<Assignment> },
    /// The solver found no model.
    Unsolved,
    Evaluated,
    Closed,
    Failed,
}

/// One move of the stage: its next state, and what it asks for.
#[verifier::ext_equal]
pub struct Turn {
    pub state: StageView,
    pub request: RequestView,
}

/// Waiting for something, and asking for it.
pub open spec fn turn(s: StageView, phase: Phase, request: RequestView) -> Turn {
    Turn { state: StageView { phase, ..s }, request }
}

/// Going on with the constraint file at index `file`; the stage is done if there is none.
pub open spec fn file_turn(s: StageView, file: int) -> Turn {
    if file < s.files.len() {
        turn(
            s,
            Phase::Reading { file: file as usize },
            RequestView::OpenScope { file: s.files[file] },
        )
    } else {
        turn(s, Phase::Idle, RequestView::Finish)
    }
}

/// Going on with the checks of a file, when `done` of them are done.
pub open spec fn check_turn(s: StageView, file: usize, done: int) -> Turn {
    if done < CHECKS_PER_FILE {
        turn(s, Phase::Checking { file, done: done as usize }, RequestView::Check)
    } else {
        turn(s, Phase::Closing { file }, RequestView::CloseScope)
    }
}

/// The event is one that the stage waits for. A failure can be reported of what can fail: of
/// what the solver does, and of finding or reading a constraint file, none is.
pub open spec fn expected(s: StageView, e: Event) -> bool {
    match e {
        Event::Started { .. } => s.phase is Idle,
        Event::Probed { .. } => s.phase is Probing,
        Event::Loaded { .. } => s.phase is Loading,
        Event::Listed { .. } => s.phase is Listing,
        Event::Read { .. } => s.phase is Reading,
        Event::Added => s.phase is Adding,
        Event::Solved { assignments } => s.phase is Checking && model::in_range(
            assignments,
            s.seed.len(),
        ),
        Event::Unsolved => s.phase is Checking,
        Event::Evaluated => s.phase is Evaluating,
        Event::Closed => s.phase is Closing,
        Event::Failed => s.phase is Probing || s.phase is Loading || s.phase is Listing
            || s.phase is Evaluating,
    }
}

/// The move that answers an event.
pub open spec fn next(s: StageView, e: Event) -> Turn {
    match e {
        Event::Started { run } => turn(
            s,
            Phase::Probing { run },
            RequestView::Probe { dir: runs::run_dir(run as nat) },
        ),
        Event::Probed { found } => if found {
            let run = s.phase->Probing_run;
            turn(
                s,
                Phase::Loading { run },
                RequestView::Prepare {
                    timeout_msec: SOLVER_TIMEOUT_MSEC,
                    input_file: runs::input_file(run as nat),
                },
            )
        } else {
            turn(s, Phase::Idle, RequestView::Finish)
        },
        Event::Loaded { seed } => turn(
            StageView { seed, ..s },
            Phase::Listing,
            RequestView::ListOutputs { dir: runs::output_dir(s.phase->Loading_run as nat) },
        ),
        Event::Listed { files } => file_turn(StageView { files, ..s }, 0),
        Event::Read { ok } => {
            let file = s.phase->Reading_file;
            if ok {
                turn(s, Phase::Adding { file }, RequestView::AddConstraints)
            } else {
                turn(s, Phase::Closing { file }, RequestView::CloseScope)
            }
        },
        Event::Added => check_turn(s, s.phase->Adding_file, 0),
        Event::Solved { assignments } => turn(
            s,
            Phase::Evaluating { file: s.phase->Checking_file, done: s.phase->Checking_done },
            RequestView::TryInput {
                clause: model::exclusion(assignments),
                input: model::patched(s.seed, assignments),
            },
        ),
        Event::Unsolved => check_turn(s, s.phase->Checking_file, s.phase->Checking_done + 1),
        Event::Evaluated => check_turn(s, s.phase->Evaluating_file, s.phase->Evaluating_done + 1),
        Event::Closed => file_turn(s, s.phase->Closing_file + 1),
        Event::Failed => turn(s, Phase::Idle, RequestView::Abort),
    }
}

/// Why a model cannot be used.
#[derive(Clone, Copy, Debug, PartialEq, Eq, Structural)]
pub enum ModelError {
    /// A line of it is no assignment.
    Malformed,
    /// An assignment names a byte past the end of the input.
    OutOfRange,
}

/// The extension stage.
#[derive(Debug)]
pub struct SymExtensionStage {
    pub name: String,
    pub phase: Phase,
    pub seed: Vec<u8>,
    pub files: Vec<String>,
}

impl View for SymExtensionStage {
    type V = StageView;

    open spec fn view(&self) -> StageView {
        StageView { phase: self.phase, seed: self.seed@, files: text::views(self.files@) }
    }
}

/// What is waited for makes sense.
pub open spec fn valid(s: StageView) -> bool {
    &&& s.files.len() <= usize::MAX
    &&& match s.phase {
        Phase::Reading { file } | Phase::Adding { file } | Phase::Closing { file } => file
            < s.files.len(),
        Phase::Checking { file, done } | Phase::Evaluating { file, done } => file < s.files.len()
            && done < CHECKS_PER_FILE,
        _ => true,
    }
}

impl SymExtensionStage {
    /// What is waited for makes sense.
    pub open spec fn wf(self) -> bool {
        valid(self@)
    }

    /// The stage answers event `e` in state `s` with `r`.
    pub open spec fn answers(self, s: StageView, e: Event, r: Request) -> bool {
        (Turn { state: self@, request: r@ }) == next(s, e)
    }

    /// A stage with the next number.
    pub fn new(ids: &mut Counter) -> (r: SymExtensionStage)
        requires
            old(ids).next < usize::MAX,
        ensures
            r.name@ == runs::numbered_name(SYMEXTENSION_STAGE_NAME@, old(ids).next as nat),
            r@ == (StageView { phase: Phase::Idle, seed: seq![], files: seq![] }),
            r.wf(),
            final(ids).next == old(ids).next + 1,
    {
        let id = ids.take();
        let r = SymExtensionStage {
            name: stage_name(SYMEXTENSION_STAGE_NAME, id),
            phase: Phase::Idle,
            seed: Vec::new(),
            files: Vec::new(),
        };
        proof {
            assert(text::views(r.files@) =~= seq![]);
        }
        r
    }

    /// The name of the stage.
    pub fn name(&self) -> (r: &String)
        ensures
            *r == self.name,
    {
        &self.name
    }

    /// Starts a turn of the stage. `runs` counts the runs that were extended.
    pub fn symextend(&mut self, runs: &Counter) -> (r: Request)
        requires
            old(self).wf(),
            expected(old(self)@, Event::Started { run: runs.next }),
        ensures
            final(self).answers(old(self)@, Event::Started { run: runs.next }, r),
            r matches Request::Probe { dir } && dir@ == runs::run_dir(runs.next as nat),
            final(self).phase == (Phase::Probing { run: runs.next }),
            final(self).seed@ == old(self).seed@,
            final(self).files@ == old(self).files@,
            final(self).wf(),
            final(self).name == old(self).name,
    {
        self.phase = Phase::Probing { run: runs.next };
        Request::Probe { dir: run_dir_path(runs.next) }
    }

    /// The directory of the run exists, or it does not. One that exists counts as extended.
    pub fn probed(&mut self, found: bool, runs: &mut Counter) -> (r: Request)
        requires
            old(self).wf(),
            expected(old(self)@, Event::Probed { found }),
            found ==> old(runs).next < usize::MAX,
        ensures
            final(self).answers(old(self)@, Event::Probed { found }, r),
            found ==> final(runs).next == old(runs).next + 1,
            !found ==> final(runs).next == old(runs).next,
            old(self).phase matches Phase::Probing { run } && (found ==> (r matches
                Request::Prepare { timeout_msec, input_file } && timeout_msec == 10000
                && input_file@ == runs::input_file(run as nat) && final(self).phase == (
            Phase::Loading { run }))),
            !found ==> r is Finish && final(self).phase is Idle,
            final(self).seed@ == old(self).seed@,
            final(self).files@ == old(self).files@,
            final(self).wf(),
            final(self).name == old(self).name,
    {
        let run = match self.phase {
            Phase::Probing { run } => run,
            _ => 0,
        };
        if found {
            runs.take();
            self.phase = Phase::Loading { run };
            Request::Prepare {
                timeout_msec: SOLVER_TIMEOUT_MSEC,
                input_file: input_file_path(run),
            }
        } else {
            self.phase = Phase::Idle;
            Request::Finish
        }
    }

    /// The input of the run is this.
    pub fn loaded(&mut self, seed: Vec<u8>) -> (r: Request)
        requires
            old(self).wf(),
            expected(old(self)@, Event::Loaded { seed: seed@ }),
        ensures
            final(self).answers(old(self)@, Event::Loaded { seed: seed@ }, r),
            old(self).phase matches Phase::Loading { run } && (r matches Request::ListOutputs {
                dir,
            } && dir@ == runs::output_dir(run as nat)),
            final(self).phase is Listing,
            final(self).seed@ == seed@,
            final(self).files@ == old(self).files@,
            final(self).wf(),
            final(self).name == old(self).name,
    {
        let run = match self.phase {
            Phase::Loading { run } => run,
            _ => 0,
        };
        self.seed = seed;
        self.phase = Phase::Listing;
        Request::ListOutputs { dir: output_dir_path(run) }
    }

    /// The output directory has these entries.
    pub fn listed(&mut self, entries: &Vec<Entry>) -> (r: Request)
        requires
            old(self).wf(),
            expected(old(self)@, Event::Listed { files: constraint_files(entries@) }),
        ensures
            final(self).answers(
                old(self)@,
                Event::Listed { files: constraint_files(entries@) },
                r,
            ),
            text::views(final(self).files@) == constraint_files(entries@),
            final(self).files@.len() > 0 ==> (r matches Request::OpenScope { file } && file@
                == final(self).files@[0]@ && final(self).phase == (Phase::Reading { file: 0 })),
            final(self).files@.len() == 0 ==> r is Finish && final(self).phase is Idle,
            final(self).seed@ == old(self).seed@,
            final(self).wf(),
            final(self).name == old(self).name,
    {
        self.files = select_constraint_files(entries);
        self.next_file(0)
    }

    /// Goes on with the file at index `file`.
    fn next_file(&mut self, file: usize) -> (r: Request)
        requires
            file <= old(self).files@.len(),
        ensures
            (Turn { state: final(self)@, request: r@ }) == file_turn(old(self)@, file as int),
            final(self).seed@ == old(self).seed@,
            final(self).files@ == old(self).files@,
            final(self).wf(),
            final(self).name == old(self).name,
    {
        if file < self.files.len() {
            self.phase = Phase::Reading { file };
            Request::OpenScope { file: self.files[file].clone() }
        } else {
            self.phase = Phase::Idle;
            Request::Finish
        }
    }

    /// Goes on with the checks of a file, when `done` of them are done.
    fn next_check(&mut self, file: usize, done: usize) -> (r: Request)
        requires
            old(self).wf(),
            file < old(self).files@.len(),
        ensures
            (Turn { state: final(self)@, request: r@ }) == check_turn(
                old(self)@,
                file,
                done as int,
            ),
            final(self).seed@ == old(self).seed@,
            final(self).files@ == old(self).files@,
            final(self).wf(),
            final(self).name == old(self).name,
    {
        if done < CHECKS_PER_FILE {
            self.phase = Phase::Checking { file, done };
            Request::Check
        } else {
            self.phase = Phase::Closing { file };
            Request::CloseScope
        }
    }

    /// The file was read, or it could not be; one that could not is passed over.
    pub fn read(&mut self, ok: bool) -> (r: Request)
        requires
            old(self).wf(),
            expected(old(self)@, Event::Read { ok }),
        ensures
            final(self).answers(old(self)@, Event::Read { ok }, r),
            old(self).phase matches Phase::Reading { file } && final(self).phase == (if ok {
                Phase::Adding { file }
            } else {
                Phase::Closing { file }
            }),
            ok ==> r is AddConstraints,
            !ok ==> r is CloseScope,
            final(self).seed@ == old(self).seed@,
            final(self).files@ == old(self).files@,
            final(self).wf(),
            final(self).name == old(self).name,
    {
        let file = match self.phase {
            Phase::Reading { file } => file,
            _ => 0,
        };
        if ok {
            self.phase = Phase::Adding { file };
            Request::AddConstraints
        } else {
            self.phase = Phase::Closing { file };
            Request::CloseScope
        }
    }

    /// The solver holds the constraints of the file.
    pub fn added(&mut self) -> (r: Request)
        requires
            old(self).wf(),
            expected(old(self)@, Event::Added),
        ensures
            final(self).answers(old(self)@, Event::Added, r),
            r is Check,
            old(self).phase matches Phase::Adding { file } && final(self).phase == (
            Phase::Checking { file, done: 0 }),
            final(self).seed@ == old(self).seed@,
            final(self).files@ == old(self).files@,
            final(self).wf(),
            final(self).name == old(self).name,
    {
        let file = match self.phase {
            Phase::Adding { file } => file,
            _ => 0,
        };
        self.next_check(file, 0)
    }

    /// The solver printed this model. A model that cannot be used leaves the stage as it is;
    /// that it is malformed is found first.
    pub fn solved(&mut self, printed: &str) -> (r: Result<Request, ModelError>)
        requires
            old(self).wf(),
            old(self).phase is Checking,
        ensures
            match model::model(printed@) {
                None => r == Err::<Request, _>(ModelError::Malformed) && *final(self) == *old(self),
                Some(assignments) => if model::in_range(assignments, old(self).seed@.len()) {
                    &&& r is Ok
                    &&& final(self).answers(old(self)@, Event::Solved { assignments }, r->Ok_0)
                } else {
                    r == Err::<Request, _>(ModelError::OutOfRange) && *final(self) == *old(self)
                },
            },
            r matches Ok(request) ==> (request matches Request::TryInput { clause, input }
                && input@.len() == old(self).seed@.len()),
            r is Ok ==> (old(self).phase matches Phase::Checking { file, done } && final(self).phase == (Phase::Evaluating { file, done })),
            r == Err::<Request, _>(ModelError::OutOfRange) ==> (model::model(printed@) matches Some(a)
                && exists|i: int|
                0 <= i < a.len() && (#[trigger] a[i]).offset >= 10 * old(self).seed@.len()),
            r matches Err(ModelError::Malformed) ==> exists|i: int|
                0 <= i < text::lines(printed@).len() && model::assignment(
                    #[trigger] text::lines(printed@)[i],
                ) is None,
            final(self).seed@ == old(self).seed@,
            final(self).files@ == old(self).files@,
            final(self).wf(),
            final(self).name == old(self).name,
    {
        let (file, done) = match self.phase {
            Phase::Checking { file, done } => (file, done),
            _ => (0, 0),
        };
        match read_model(printed) {
            None => Err(ModelError::Malformed),
            Some(assignments) => match apply_model(&self.seed, &assignments) {
                None => Err(ModelError::OutOfRange),
                Some(input) => {
                    let clause = exclude_model(&assignments);
                    self.phase = Phase::Evaluating { file, done };
                    Ok(Request::TryInput { clause, input })
                },
            },
        }
    }

    /// The solver found no model. The check counts all the same.
    pub fn unsolved(&mut self) -> (r: Request)
        requires
            old(self).wf(),
            expected(old(self)@, Event::Unsolved),
        ensures
            final(self).answers(old(self)@, Event::Unsolved, r),
            old(self).phase matches Phase::Checking { file, done } && final(self).phase == (if done
                + 1 < 5 {
                Phase::Checking { file, done: (done + 1) as usize }
            } else {
                Phase::Closing { file }
            }),
            final(self).phase is Checking ==> r is Check,
            final(self).phase is Closing ==> r is CloseScope,
            final(self).seed@ == old(self).seed@,
            final(self).files@ == old(self).files@,
            final(self).wf(),
            final(self).name == old(self).name,
    {
        let (file, done) = match self.phase {
            Phase::Checking { file, done } => (file, done),
            _ => (0, 0),
        };
        self.next_check(file, done + 1)
    }

    /// The fuzzer has evaluated the input.
    pub fn evaluated(&mut self) -> (r: Request)
        requires
            old(self).wf(),
            expected(old(self)@, Event::Evaluated),
        ensures
            final(self).answers(old(self)@, Event::Evaluated, r),
            old(self).phase matches Phase::Evaluating { file, done } && final(self).phase == (if done
                + 1 < 5 {
                Phase::Checking { file, done: (done + 1) as usize }
            } else {
                Phase::Closing { file }
            }),
            final(self).phase is Checking ==> r is Check,
            final(self).phase is Closing ==> r is CloseScope,
            final(self).seed@ == old(self).seed@,
            final(self).files@ == old(self).files@,
            final(self).wf(),
            final(self).name == old(self).name,
    {
        let (file, done) = match self.phase {
            Phase::Evaluating { file, done } => (file, done),
            _ => (0, 0),
        };
        self.next_check(file, done + 1)
    }

    /// The solver has forgotten the file.
    pub fn closed(&mut self) -> (r: Request)
        requires
            old(self).wf(),
            expected(old(self)@, Event::Closed),
        ensures
            final(self).answers(old(self)@, Event::Closed, r),
            old(self).phase matches Phase::Closing { file } && (file + 1 < old(self).files@.len() ==> (r matches Request::OpenScope { file: next_path } && next_path@
                == old(self).files@[file + 1]@ && final(self).phase == (Phase::Reading {
                file: (file + 1) as usize,
            }))),
            old(self).phase matches Phase::Closing { file } && (file + 1 == old(self).files@.len() ==> r is Finish && final(self).phase is Idle),
            final(self).seed@ == old(self).seed@,
            final(self).files@ == old(self).files@,
            final(self).wf(),
            final(self).name == old(self).name,
    {
        let file = match self.phase {
            Phase::Closing { file } => file,
            _ => 0,
        };
        self.next_file(file + 1)
    }

    /// What was asked for has failed.
    pub fn failed(&mut self) -> (r: Request)
        requires
            old(self).wf(),
            expected(old(self)@, Event::Failed),
        ensures
            final(self).answers(old(self)@, Event::Failed, r),
            r is Abort,
            final(self).phase is Idle,
            final(self).seed@ == old(self).seed@,
            final(self).files@ == old(self).files@,
            final(self).wf(),
            final(self).name == old(self).name,
    {
        self.phase = Phase::Idle;
        Request::Abort
    }
}

/// The state after a series of events.
pub open spec fn after(s: StageView, events: Seq<Event>) -> StageView
    decreases events.len(),
{
    if events.len() == 0 {
        s
    } else {
        next(after(s, events.drop_last()), events.last()).state
    }
}

/// What was asked for in the course of a series of events.
pub open spec fn requests(s: StageView, events: Seq<Event>) -> Seq<RequestView>
    decreases events.len(),
{
    if events.len() == 0 {
        seq![]
    } else {
        requests(s, events.drop_last()).push(
            next(after(s, events.drop_last()), events.last()).request,
        )
    }
}

/// Each event of a series is one that is waited for, and none is a failure.
pub open spec fn smooth(s: StageView, events: Seq<Event>) -> bool
    decreases events.len(),
{
    events.len() == 0 || {
        &&& smooth(s, events.drop_last())
        &&& expected(after(s, events.drop_last()), events.last())
        &&& !(events.last() is Failed)
        &&& events.last() matches Event::Listed { files } ==> files.len() <= usize::MAX
    }
}

/// How many of the requests ask for a scope to be opened.
pub open spec fn opened(r: Seq<RequestView>) -> nat
    decreases r.len(),
{
    if r.len() == 0 {
        0
    } else {
        opened(r.drop_last()) + if r.last() is OpenScope {
            1nat
        } else {
            0
        }
    }
}

/// How many of the requests ask for a scope to be closed.
pub open spec fn closed_scopes(r: Seq<RequestView>) -> nat
    decreases r.len(),
{
    if r.len() == 0 {
        0
    } else {
        closed_scopes(r.drop_last()) + if r.last() is CloseScope {
            1nat
        } else {
            0
        }
    }
}

/// How many of the requests ask for a check.
pub open spec fn checks(r: Seq<RequestView>) -> nat
    decreases r.len(),
{
    if r.len() == 0 {
        0
    } else {
        checks(r.drop_last()) + if r.last() is Check {
            1nat
        } else {
            0
        }
    }
}

/// How many constraint files were read in the course of a series of events.
pub open spec fn files_read(events: Seq<Event>) -> nat
    decreases events.len(),
{
    if events.len() == 0 {
        0
    } else {
        files_read(events.drop_last()) + if events.last() == (Event::Read { ok: true }) {
            1nat
        } else {
            0
        }
    }
}

/// A scope of the solver is open while a stage waits for this.
pub open spec fn in_scope(phase: Phase) -> bool {
    phase is Reading || phase is Adding || phase is Checking || phase is Evaluating
}

/// How many checks of the current file are still to be asked for.
pub open spec fn checks_owed(phase: Phase) -> nat {
    match phase {
        Phase::Adding { .. } => CHECKS_PER_FILE as nat,
        Phase::Checking { done, .. } | Phase::Evaluating { done, .. } => (CHECKS_PER_FILE - 1
            - done) as nat,
        _ => 0,
    }
}

/// Whatever happens, what is waited for makes sense.
pub proof fn law_states_stay_valid(s: StageView, e: Event)
    requires
        valid(s),
        expected(s, e),
        e matches Event::Listed { files } ==> files.len() <= usize::MAX,
    ensures
        valid(next(s, e).state),
{
}

/// Scopes of the solver do not nest and are closed: as long as nothing fails, of the scopes that
/// a stage had opened all are closed but the one it works in. When the stage is idle, all are.
pub proof fn law_scopes_balance(s: StageView, events: Seq<Event>)
    requires
        valid(s),
        s.phase is Idle,
        smooth(s, events),
    ensures
        valid(after(s, events)),
        opened(requests(s, events)) == closed_scopes(requests(s, events)) + if in_scope(
            after(s, events).phase,
        ) {
            1nat
        } else {
            0
        },
    decreases events.len(),
{
    if events.len() > 0 {
        let before = events.drop_last();
        law_scopes_balance(s, before);
        let t = next(after(s, before), events.last());
        assert(requests(s, events).drop_last() =~= requests(s, before));
        assert(requests(s, events).last() == t.request);
    }
}

/// Each constraint file that was read is checked five times, whether or not a check gives a
/// model: as long as nothing fails, a stage has asked for five checks of every such file but for
/// those that the current file is still owed. When the stage is idle, none is owed.
pub proof fn law_five_checks_per_file(s: StageView, events: Seq<Event>)
    requires
        valid(s),
        s.phase is Idle,
        smooth(s, events),
    ensures
        checks(requests(s, events)) + checks_owed(after(s, events).phase) == CHECKS_PER_FILE
            * files_read(events),
    decreases events.len(),
{
    if events.len() > 0 {
        let before = events.drop_last();
        law_five_checks_per_file(s, before);
        law_scopes_balance(s, before);
        let t = next(after(s, before), events.last());
        assert(requests(s, events).drop_last() =~= requests(s, before));
        assert(requests(s, events).last() == t.request);
    }
}

/// How many events at most are left until the stage is done, once the files are listed.
pub open spec fn events_left(s: StageView) -> int {
    let per_file = 2 * CHECKS_PER_FILE + 3;
    let later = |file: usize| (s.files.len() - file - 1) * per_file;
    match s.phase {
        Phase::Reading { file } => later(file) + per_file,
        Phase::Adding { file } => later(file) + per_file - 1,
        Phase::Checking { file, done } => later(file) + 2 * (CHECKS_PER_FILE - done) + 1,
        Phase::Evaluating { file, done } => later(file) + 2 * (CHECKS_PER_FILE - done),
        Phase::Closing { file } => later(file) + 1,
        _ => 0,
    }
}

/// Once the files are listed, every event brings the stage closer to its end.
pub proof fn law_stage_comes_to_an_end(s: StageView, e: Event)
    requires
        valid(s),
        expected(s, e),
        in_scope(s.phase) || s.phase is Closing,
    ensures
        0 <= events_left(next(s, e).state) < events_left(s),
{
}

/// Every input that the stage comes up with is as long as the input it extends, and the solver
/// is kept from the model that gave it: a valuation meets the clause handed over with the input
/// exactly if it does not agree with that model.
pub proof fn law_tried_model_does_not_come_back(
    s: StageView,
    assignments: Seq<Assignment>,
    valuation: spec_fn(Seq<char>) -> u8,
)
    requires
        valid(s),
        expected(s, Event::Solved { assignments }),
    ensures
        next(s, Event::Solved { assignments }).request matches RequestView::TryInput {
            clause,
            input,
        } && input.len() == s.seed.len() && (model::satisfies(valuation, clause)
            <==> !model::agrees(valuation, assignments)),
{
    model::law_exclusion_is_exact(valuation, assignments);
}

/// The extension stage works on what the run of that number was given and has left: it looks for
/// the directory, loads the input file, and lists the output directory that the run's plan names.
pub proof fn law_extension_reads_what_the_run_left<I>(
    s: StageView,
    run: usize,
    seed: Seq<u8>,
    target: Seq<Seq<char>>,
    input: I,
)
    ensures
        ({
            let plan = symcc::run_plan(run as nat, target, input);
            let probing = next(s, Event::Started { run });
            let loading = next(probing.state, Event::Probed { found: true });
            let listing = next(loading.state, Event::Loaded { seed });
            &&& probing.request == (RequestView::Probe { dir: plan.dir })
            &&& loading.request == (RequestView::Prepare {
                timeout_msec: 10000,
                input_file: plan.input_file,
            })
            &&& listing.request == (RequestView::ListOutputs { dir: plan.output_dir })
            &&& listing.state.seed == seed
            &&& next(probing.state, Event::Probed { found: false }).request is Finish
        }),
{
}

/// The constraint files are worked on one after the other, each exactly once: the first one when
/// they are known, the next one when a scope was closed, and none behind the last.
pub proof fn law_files_are_taken_in_order(s: StageView, files: Seq<Seq<char>>, k: usize)
    requires
        s.phase is Listing,
        k < files.len(),
    ensures
        next(s, Event::Listed { files }).request == (RequestView::OpenScope { file: files[0] }),
        next(s, Event::Listed { files: seq![] }).request is Finish,
        ({
            let closing = StageView { phase: Phase::Closing { file: k }, files, ..s };
            let t = next(closing, Event::Closed);
            &&& k + 1 < files.len() ==> t.request == (RequestView::OpenScope {
                file: files[k + 1],
            })
            &&& k + 1 == files.len() ==> t.request is Finish
        }),
{
}

/// A model gives the input with every assigned byte written at a tenth of its offset: a byte has
/// the value of the last assignment whose offset lies in its block of ten, and its old value if
/// there is none. Each assignment has its difference in the clause.
pub proof fn law_model_becomes_input(
    s: StageView,
    assignments: Seq<Assignment>,
    i: int,
    p: int,
    q: int,
)
    requires
        s.phase is Checking,
        0 <= i < assignments.len(),
        0 <= p < s.seed.len(),
        10 * p <= assignments[i].offset < 10 * p + 10,
        forall|j: int|
            i < j < assignments.len() ==> !(10 * p <= (#[trigger] assignments[j]).offset < 10 * p
                + 10),
        0 <= q < s.seed.len(),
        forall|j: int|
            0 <= j < assignments.len() ==> !(10 * q <= (#[trigger] assignments[j]).offset < 10 * q
                + 10),
    ensures
        next(s, Event::Solved { assignments }).request matches RequestView::TryInput {
            clause,
            input,
        } && input.len() == s.seed.len() && input[p] == assignments[i].value && input[q]
            == s.seed[q] && clause.len() == assignments.len() && clause[i] == (
            "k!"@ + text::decimal(assignments[i].offset as nat),
            assignments[i].value,
        ),
{
    reveal_strlit("k!");
    assert("k!"@ =~= seq!['k', '!']);
    model::law_value_lands_at_its_byte(s.seed, assignments, i, p);
    model::law_unnamed_byte_stays(s.seed, assignments, q);
    model::law_exclusion_names_each_assignment(assignments, i);
}

/// After each check, whatever it gave, the next one is asked for until five are done; then the
/// scope is closed. A file that cannot be read is closed at once.
pub proof fn law_checks_go_on_to_five(s: StageView, file: usize, done: usize)
    requires
        done < 5,
    ensures
        ({
            let checking = StageView { phase: Phase::Checking { file, done }, ..s };
            let evaluating = StageView { phase: Phase::Evaluating { file, done }, ..s };
            let a = next(checking, Event::Unsolved);
            let b = next(evaluating, Event::Evaluated);
            &&& a == b
            &&& done < 4 ==> a.request is Check && a.state.phase == (Phase::Checking {
                file,
                done: (done + 1) as usize,
            })
            &&& done == 4 ==> a.request is CloseScope && a.state.phase == (Phase::Closing { file })
        }),
        next(
            StageView { phase: Phase::Reading { file }, ..s },
            Event::Read { ok: false },
        ).request is CloseScope,
        next(
            StageView { phase: Phase::Reading { file }, ..s },
            Event::Read { ok: true },
        ).request is AddConstraints,
        next(StageView { phase: Phase::Adding { file }, ..s }, Event::Added).request is Check,
{
}

} // verus!
