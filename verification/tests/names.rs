use step_sequencer::instr::note_num_to_str;

#[test]
fn lowest_and_highest_pitch_are_named() {
    assert_eq!(note_num_to_str(21), "A0");
    assert_eq!(note_num_to_str(127), "G9");
}

#[test]
fn middle_c_and_concert_a_are_named() {
    assert_eq!(note_num_to_str(60), "C4");
    assert_eq!(note_num_to_str(69), "A4");
}

#[test]
fn black_keys_are_named_as_flats() {
    assert_eq!(note_num_to_str(61), "Db4");
    assert_eq!(note_num_to_str(63), "Eb4");
    assert_eq!(note_num_to_str(66), "Gb4");
    assert_eq!(note_num_to_str(68), "Ab4");
    assert_eq!(note_num_to_str(70), "Bb4");
}

#[test]
fn numbers_outside_the_keyboard_have_no_name() {
    assert_eq!(note_num_to_str(0), "Err");
    assert_eq!(note_num_to_str(20), "Err");
    assert_eq!(note_num_to_str(128), "Err");
    assert_eq!(note_num_to_str(usize::MAX), "Err");
}
