//! The harness: what the target is given, and what the end of an execution means.

use vstd::arithmetic::power::pow;
use vstd::prelude::*;
use vstd::slice::slice_subrange;

verus! {

/// The largest input that the target is given, in bytes.
pub const MAX_INPUT_SIZE: usize = 1048576;

/// The part of an input that the target is given: all of it, or as much as fits.
pub open spec fn window(input: Seq<u8>) -> Seq<u8> {
    if input.len() > MAX_INPUT_SIZE {
        input.take(MAX_INPUT_SIZE as int)
    } else {
        input
    }
}

/// Cuts an input to what the target is given. The second part is its length, as the target
/// gets it in a register.
pub fn clamp_input(input: &[u8]) -> (r: (&[u8], u64))
    ensures
        r.0@ == window(input@),
        r.1 == window(input@).len(),
        input@.len() <= 1048576 ==> r.0@ == input@ && r.1 == input@.len(),
        input@.len() > 1048576 ==> r.0@ == input@.take(1048576) && r.1 == 1048576,
{
    if input.len() > MAX_INPUT_SIZE {
        let cut = slice_subrange(input, 0, MAX_INPUT_SIZE);
        proof {
            assert(cut@ =~= input@.take(MAX_INPUT_SIZE as int));
        }
        (cut, MAX_INPUT_SIZE as u64)
    } else {
        (input, input.len() as u64)
    }
}

/// The target is given the start of the input, and never more than fits its buffer.
pub proof fn law_window_fits(input: Seq<u8>)
    ensures
        window(input).len() <= MAX_INPUT_SIZE,
        window(input).is_prefix_of(input),
        input.len() <= MAX_INPUT_SIZE ==> window(input) == input,
        input.len() > 1048576 ==> window(input).len() == 1048576,
{
    assert(window(input) =~= input.subrange(0, window(input).len() as int));
}

/// The number whose bytes, least significant first, are `b`.
pub open spec fn little_endian(b: Seq<u8>) -> nat
    decreases b.len(),
{
    if b.len() == 0 {
        0
    } else {
        b[0] as nat + 256 * little_endian(b.skip(1))
    }
}

/// Each byte counts for as many powers of 256 as bytes stand before it.
pub proof fn law_bytes_of_little_endian(b: Seq<u8>, i: nat)
    requires
        i < b.len(),
    ensures
        (little_endian(b) as int / pow(256, i)) % 256 == b[i as int],
    decreases b.len(),
{
    let rest = little_endian(b.skip(1)) as int;
    vstd::arithmetic::power::lemma_pow0(256);
    if i == 0 {
        assert(little_endian(b) as int / 1 == little_endian(b));
        assert((b[0] as int + 256 * rest) % 256 == b[0] as int);
    } else {
        law_bytes_of_little_endian(b.skip(1), (i - 1) as nat);
        let p = pow(256, (i - 1) as nat);
        vstd::arithmetic::power::lemma_pow_positive(256, (i - 1) as nat);
        assert(pow(256, i) == 256 * p) by {
            reveal(pow);
        }
        vstd::arithmetic::div_mod::lemma_div_denominator(little_endian(b) as int, 256, p);
        assert((b[0] as int + 256 * rest) / 256 == rest);
        assert(b.skip(1)[i - 1] == b[i as int]);
    }
}

/// Reads the return address off the eight bytes on top of the stack.
pub fn return_address(b: &[u8; 8]) -> (r: u64)
    ensures
        r == little_endian(b@),
        forall|i: int| 0 <= i < 8 ==> (r as int / pow(256, i as nat)) % 256 == #[trigger] b@[i],
{
    proof {
        reveal_with_fuel(little_endian, 9);
        let s = b@;
        assert(s.skip(1).skip(1) =~= s.skip(2));
        assert(s.skip(2).skip(1) =~= s.skip(3));
        assert(s.skip(3).skip(1) =~= s.skip(4));
        assert(s.skip(4).skip(1) =~= s.skip(5));
        assert(s.skip(5).skip(1) =~= s.skip(6));
        assert(s.skip(6).skip(1) =~= s.skip(7));
        assert(s.skip(7).skip(1) =~= s.skip(8));
    }
    let low: u64 = b[0] as u64 + 0x100 * b[1] as u64 + 0x1_0000 * b[2] as u64 + 0x100_0000 * b[3] as u64;
    let high: u64 = b[4] as u64 + 0x100 * b[5] as u64 + 0x1_0000 * b[6] as u64 + 0x100_0000 * b[7] as u64;
    let r = low + 0x1_0000_0000 * high;
    proof {
        assert forall|i: int| 0 <= i < 8 implies (r as int / pow(256, i as nat)) % 256
            == #[trigger] b@[i] by {
            law_bytes_of_little_endian(b@, i as nat);
        }
    }
    r
}

/// How an execution of the emulator has ended.
#[derive(Clone, Copy, Debug, PartialEq, Eq, Structural)]
pub enum EmulatorExit {
    /// It hit a breakpoint.
    Breakpoint,
    /// It was shut down by a signal to this process.
    HostSignal,
    /// The target left the emulator.
    UnexpectedExit,
    /// Anything else.
    Other,
}

/// What the end of an execution means.
#[derive(Clone, Copy, Debug, PartialEq, Eq, Structural)]
pub enum Outcome {
    /// The target came back.
    Normal,
    /// Handle the signal; then count the execution as one that came back.
    HandleSignal,
    /// The target crashed.
    Crash,
    /// The emulator cannot be used any more.
    Fatal,
}

/// Judges the end of an execution of an input.
pub fn judge_exit(e: EmulatorExit) -> (r: Outcome)
    ensures
        r == Outcome::Normal <==> e == EmulatorExit::Breakpoint,
        r == Outcome::HandleSignal <==> e == EmulatorExit::HostSignal,
        r == Outcome::Crash <==> e == EmulatorExit::UnexpectedExit,
        r == Outcome::Fatal <==> e == EmulatorExit::Other,
{
    match e {
        EmulatorExit::Breakpoint => Outcome::Normal,
        EmulatorExit::HostSignal => Outcome::HandleSignal,
        EmulatorExit::UnexpectedExit => Outcome::Crash,
        EmulatorExit::Other => Outcome::Fatal,
    }
}

/// Tells whether the emulator, started up, has come to the target's entry point.
pub fn reached_entry(e: EmulatorExit) -> (r: bool)
    ensures
        r == (e == EmulatorExit::Breakpoint),
{
    match e {
        EmulatorExit::Breakpoint => true,
        _ => false,
    }
}

/// What can be wrong with the directories on the command line.
#[derive(Clone, Copy, Debug, PartialEq, Eq, Structural)]
pub enum SetupError {
    /// There is something in the place of the output directory that is no directory.
    OutDir,
    /// The input directory is no directory.
    InDir,
}

/// Judges the directories on the command line, the output directory first: it must have been
/// made just now, or have been there as a directory.
pub fn judge_setup(out_made: bool, out_is_dir: bool, in_is_dir: bool) -> (r: Result<
    (),
    SetupError,
>)
    ensures
        r == Err::<(), _>(SetupError::OutDir) <==> !out_made && !out_is_dir,
        r == Err::<(), _>(SetupError::InDir) <==> (out_made || out_is_dir) && !in_is_dir,
        r is Ok <==> (out_made || out_is_dir) && in_is_dir,
{
    if !out_made && !out_is_dir {
        return Err(SetupError::OutDir);
    }
    if !in_is_dir {
        return Err(SetupError::InDir);
    }
    Ok(())
}

} // verus!
