use hybrid_stages::harness::{
    clamp_input, judge_exit, judge_setup, reached_entry, return_address, EmulatorExit, Outcome,
    SetupError, MAX_INPUT_SIZE,
};

#[test]
fn inputs_are_cut_to_the_buffer() {
    let long: Vec<u8> = (0..MAX_INPUT_SIZE + 3).map(|i| i as u8).collect();
    assert_eq!(clamp_input(&long), (&long[..MAX_INPUT_SIZE], 1048576));
    let fits = &long[..MAX_INPUT_SIZE];
    assert_eq!(clamp_input(fits), (fits, 1048576));
    assert_eq!(clamp_input(&[1, 2]), (&[1u8, 2][..], 2));
    assert_eq!(clamp_input(&[]), (&[][..], 0));
}

#[test]
fn addresses_are_little_endian() {
    let bytes = [0x10, 0x32, 0x54, 0x76, 0x98, 0xba, 0xdc, 0xfe];
    assert_eq!(return_address(&bytes), 0xfedc_ba98_7654_3210);
    assert_eq!(return_address(&[0xff; 8]), u64::MAX);
    assert_eq!(return_address(&bytes), u64::from_le_bytes(bytes));
}

#[test]
fn exits_are_judged() {
    assert_eq!(judge_exit(EmulatorExit::Breakpoint), Outcome::Normal);
    assert_eq!(judge_exit(EmulatorExit::HostSignal), Outcome::HandleSignal);
    assert_eq!(judge_exit(EmulatorExit::UnexpectedExit), Outcome::Crash);
    assert_eq!(judge_exit(EmulatorExit::Other), Outcome::Fatal);
    assert!(reached_entry(EmulatorExit::Breakpoint));
    assert!(!reached_entry(EmulatorExit::HostSignal));
}

#[test]
fn directories_are_judged() {
    assert_eq!(judge_setup(true, false, true), Ok(()));
    assert_eq!(judge_setup(false, true, true), Ok(()));
    assert_eq!(judge_setup(false, false, false), Err(SetupError::OutDir));
    assert_eq!(judge_setup(true, true, false), Err(SetupError::InDir));
}
