use sample_ime::keystroke::{test_virtual_key, CandidateMode, KeystrokeCategory, KeystrokeFunction};

const SHIFT: u32 = 4;
const CONTROL: u32 = 2;

#[test]
fn letter_goes_into_composition() {
    assert_eq!(
        test_virtual_key(0x41, 'a', false, CandidateMode::Nothing, 0),
        (true, KeystrokeCategory::Composing, KeystrokeFunction::Input)
    );
}

#[test]
fn letter_with_original_candidates_finalizes_and_inputs() {
    assert_eq!(
        test_virtual_key(0x41, 'a', true, CandidateMode::Original, 0),
        (true, KeystrokeCategory::Candidate, KeystrokeFunction::FinalizeCandidatelistAndInput)
    );
}

#[test]
fn space_is_input_while_composing() {
    assert_eq!(
        test_virtual_key(32, ' ', true, CandidateMode::Nothing, 0),
        (true, KeystrokeCategory::Composing, KeystrokeFunction::Input)
    );
}

#[test]
fn shift_space_finalizes_while_composing() {
    assert_eq!(
        test_virtual_key(32, ' ', true, CandidateMode::Nothing, SHIFT),
        (true, KeystrokeCategory::Composing, KeystrokeFunction::FinalizeTextstore)
    );
}

#[test]
fn enter_finalizes_candidates_while_composing() {
    assert_eq!(
        test_virtual_key(13, '\r', true, CandidateMode::Nothing, 0),
        (true, KeystrokeCategory::Composing, KeystrokeFunction::FinalizeCandidatelist)
    );
    assert_eq!(
        test_virtual_key(13, '\r', true, CandidateMode::Nothing, SHIFT),
        (true, KeystrokeCategory::Composing, KeystrokeFunction::FinalizeTextstoreOriginal)
    );
}

#[test]
fn arrows_while_composing() {
    assert_eq!(
        test_virtual_key(37, '\0', true, CandidateMode::Nothing, 0),
        (true, KeystrokeCategory::Composing, KeystrokeFunction::MoveLeft)
    );
    assert_eq!(
        test_virtual_key(39, '\0', true, CandidateMode::Nothing, 0),
        (true, KeystrokeCategory::Composing, KeystrokeFunction::MoveRight)
    );
    assert_eq!(
        test_virtual_key(38, '\0', true, CandidateMode::Incremental, 0),
        (true, KeystrokeCategory::Candidate, KeystrokeFunction::MoveUp)
    );
    assert_eq!(
        test_virtual_key(37, '\0', true, CandidateMode::Incremental, 0),
        (false, KeystrokeCategory::InvokeCompositionEditSession, KeystrokeFunction::Cancel)
    );
}

#[test]
fn escape_and_backspace_while_composing() {
    assert_eq!(
        test_virtual_key(27, '\u{1b}', true, CandidateMode::Nothing, 0),
        (true, KeystrokeCategory::Composing, KeystrokeFunction::Cancel)
    );
    assert_eq!(
        test_virtual_key(27, '\u{1b}', true, CandidateMode::Incremental, 0),
        (true, KeystrokeCategory::Candidate, KeystrokeFunction::Cancel)
    );
    assert_eq!(
        test_virtual_key(8, '\u{8}', true, CandidateMode::Incremental, 0),
        (true, KeystrokeCategory::Composing, KeystrokeFunction::Backspace)
    );
}

#[test]
fn original_candidates_select_by_number() {
    assert_eq!(
        test_virtual_key(0x31, '1', false, CandidateMode::Original, 0),
        (true, KeystrokeCategory::Candidate, KeystrokeFunction::SelectByNumber)
    );
}

#[test]
fn original_candidates_tab_moves() {
    assert_eq!(
        test_virtual_key(9, '\t', false, CandidateMode::Original, 0),
        (true, KeystrokeCategory::Candidate, KeystrokeFunction::MoveDown)
    );
    assert_eq!(
        test_virtual_key(9, '\t', false, CandidateMode::Original, SHIFT),
        (true, KeystrokeCategory::Candidate, KeystrokeFunction::MoveUp)
    );
    assert_eq!(
        test_virtual_key(9, '\t', false, CandidateMode::Original, CONTROL),
        (true, KeystrokeCategory::Candidate, KeystrokeFunction::Convert)
    );
}

#[test]
fn original_candidates_space_and_cancel() {
    assert_eq!(
        test_virtual_key(32, ' ', false, CandidateMode::Original, SHIFT),
        (true, KeystrokeCategory::Composing, KeystrokeFunction::FinalizeTextstore)
    );
    assert_eq!(
        test_virtual_key(27, '\u{1b}', false, CandidateMode::Original, 0),
        (true, KeystrokeCategory::Candidate, KeystrokeFunction::Cancel)
    );
    assert_eq!(
        test_virtual_key(8, '\u{8}', false, CandidateMode::Original, 0),
        (true, KeystrokeCategory::Candidate, KeystrokeFunction::Cancel)
    );
    assert_eq!(
        test_virtual_key(34, '\0', false, CandidateMode::Original, 0),
        (true, KeystrokeCategory::Candidate, KeystrokeFunction::MovePageDown)
    );
}

#[test]
fn other_keys_are_not_eaten() {
    assert_eq!(
        test_virtual_key(0x70, '\0', false, CandidateMode::Nothing, 0),
        (false, KeystrokeCategory::Nothing, KeystrokeFunction::Nothing)
    );
    assert_eq!(
        test_virtual_key(0x41, 'a', false, CandidateMode::Nothing, CONTROL),
        (false, KeystrokeCategory::InvokeCompositionEditSession, KeystrokeFunction::FinalizeTextstore)
    );
    assert_eq!(
        test_virtual_key(0, 'é', false, CandidateMode::Nothing, 0),
        (false, KeystrokeCategory::InvokeCompositionEditSession, KeystrokeFunction::FinalizeTextstore)
    );
}
