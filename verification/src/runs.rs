//! Numbered things: stages, and the directories in which concolic runs leave their results.

use vstd::prelude::*;
use crate::text;
use crate::text::append_decimal;

verus! {

/// Hands out consecutive numbers.
#[derive(Debug)]
pub struct Counter {
    pub next: usize,
}

impl Counter {
    /// A counter that starts at zero.
    pub fn new() -> (r: Counter)
        ensures
            r.next == 0,
    {
        Counter { next: 0 }
    }

    /// Takes the next number.
    pub fn take(&mut self) -> (r: usize)
        requires
            old(self).next < usize::MAX,
        ensures
            r == old(self).next,
            final(self).next == old(self).next + 1,
    {
        let r = self.next;
        self.next = self.next + 1;
        r
    }
}

/// The name of the stage of a kind that has the number `id`.
pub open spec fn numbered_name(kind: Seq<char>, id: nat) -> Seq<char> {
    kind + ":"@ + text::decimal(id)
}

/// Names a stage after its kind and its number.
pub fn stage_name(kind: &str, id: usize) -> (r: String)
    ensures
        r@ == numbered_name(kind@, id as nat),
{
    let mut r = kind.to_owned();
    r.append(":");
    append_decimal(&mut r, id);
    r
}

/// Stages of one kind with different numbers have different names.
pub proof fn law_stage_names_differ(kind: Seq<char>, a: nat, b: nat)
    requires
        numbered_name(kind, a) == numbered_name(kind, b),
    ensures
        a == b,
{
    let prefix = kind + ":"@;
    assert(numbered_name(kind, a).skip(prefix.len() as int) == text::decimal(a));
    assert(numbered_name(kind, b).skip(prefix.len() as int) == text::decimal(b));
    text::law_decimal_injective(a, b);
}

/// The directory of run `id`, relative to the working directory.
pub open spec fn run_dir(id: nat) -> Seq<char> {
    "out/symcc_output_"@ + text::decimal(id)
}

/// The file that holds the input of run `id`.
pub open spec fn input_file(id: nat) -> Seq<char> {
    run_dir(id) + "/cur_input"@
}

/// The directory in which run `id` leaves new inputs and constraints.
pub open spec fn output_dir(id: nat) -> Seq<char> {
    run_dir(id) + "/output"@
}

/// Writes down the directory of run `id`.
pub fn run_dir_path(id: usize) -> (r: String)
    ensures
        r@ == run_dir(id as nat),
{
    let mut r = "out/symcc_output_".to_owned();
    append_decimal(&mut r, id);
    r
}

/// Writes down the input file of run `id`.
pub fn input_file_path(id: usize) -> (r: String)
    ensures
        r@ == input_file(id as nat),
{
    let mut r = run_dir_path(id);
    r.append("/cur_input");
    r
}

/// Writes down the output directory of run `id`.
pub fn output_dir_path(id: usize) -> (r: String)
    ensures
        r@ == output_dir(id as nat),
{
    let mut r = run_dir_path(id);
    r.append("/output");
    r
}

/// Different runs have different directories, and so different input files and different
/// output directories.
pub proof fn law_runs_do_not_share(a: nat, b: nat)
    requires
        a != b,
    ensures
        run_dir(a) != run_dir(b),
        input_file(a) != input_file(b),
        output_dir(a) != output_dir(b),
{
    lemma_run_dir(a, b);
    if input_file(a) == input_file(b) {
        let n = input_file(a).len() - "/cur_input"@.len();
        assert(input_file(a).take(n) == run_dir(a));
        assert(input_file(b).take(n) == run_dir(b));
    }
    if output_dir(a) == output_dir(b) {
        let n = output_dir(a).len() - "/output"@.len();
        assert(output_dir(a).take(n) == run_dir(a));
        assert(output_dir(b).take(n) == run_dir(b));
    }
}

proof fn lemma_run_dir(a: nat, b: nat)
    requires
        a != b,
    ensures
        run_dir(a) != run_dir(b),
{
    if run_dir(a) == run_dir(b) {
        let n = "out/symcc_output_"@.len() as int;
        assert(run_dir(a).skip(n) == text::decimal(a));
        assert(run_dir(b).skip(n) == text::decimal(b));
        text::law_decimal_injective(a, b);
    }
}

/// The name of a stage is its kind, a colon, and a numeral that reads back as its number.
pub proof fn law_stage_name_reads_back(kind: Seq<char>, id: nat)
    ensures
        kind.is_prefix_of(numbered_name(kind, id)),
        numbered_name(kind, id)[kind.len() as int] == ':',
        text::number(numbered_name(kind, id).skip(kind.len() as int + 1), 10, id) == Some(id),
{
    reveal_strlit(":");
    let name = numbered_name(kind, id);
    text::law_number_of_decimal(id, id);
    assert(kind =~= name.subrange(0, kind.len() as int));
    assert(name.skip(kind.len() as int + 1) =~= text::decimal(id));
}

/// The directory of a run is `out/symcc_output_` with a numeral that reads back as the run's
/// number; its input file is `cur_input` and its output directory `output`, right in it.
pub proof fn law_run_paths(id: nat)
    ensures
        "out/symcc_output_"@.is_prefix_of(run_dir(id)),
        text::number(run_dir(id).skip("out/symcc_output_"@.len() as int), 10, id) == Some(id),
        input_file(id) == run_dir(id) + "/cur_input"@,
        output_dir(id) == run_dir(id) + "/output"@,
{
    let n = "out/symcc_output_"@.len() as int;
    text::law_number_of_decimal(id, id);
    assert("out/symcc_output_"@ =~= run_dir(id).subrange(0, n));
    assert(run_dir(id).skip(n) =~= text::decimal(id));
}

} // verus!
