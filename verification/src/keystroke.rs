//! Classification of keystrokes for the composition processor: whether the
//! engine wants a key, in which category it is handled, and what it does.

use vstd::prelude::*;
use windows::Win32::UI::Input::KeyboardAndMouse::{
    VK_BACK, VK_DOWN, VK_END, VK_ESCAPE, VK_HOME, VK_LEFT, VK_NEXT, VK_PRIOR, VK_RETURN, VK_RIGHT,
    VK_SPACE, VK_TAB, VK_UP,
};
use windows::Win32::UI::TextServices::{TF_MOD_ALT, TF_MOD_CONTROL, TF_MOD_SHIFT};
use crate::unicode::{char_is_numeric, is_numeric};

verus! {

/// Where a keystroke is handled.
#[derive(Debug, Clone, Copy, PartialEq, Eq, Structural)]
pub enum KeystrokeCategory {
    Nothing,
    Composing,
    Candidate,
    InvokeCompositionEditSession,
}

/// What a keystroke does.
#[derive(Debug, Clone, Copy, PartialEq, Eq, Structural)]
pub enum KeystrokeFunction {
    Nothing,
    Input,
    Cancel,
    FinalizeTextstore,
    FinalizeTextstoreAndInput,
    FinalizeTextstoreOriginal,
    FinalizeCandidatelist,
    FinalizeCandidatelistAndInput,
    Convert,
    SelectByNumber,
    Backspace,
    MoveLeft,
    MoveRight,
    MoveUp,
    MoveDown,
    MovePageUp,
    MovePageDown,
    MovePageTop,
    MovePageBottom,
    DoubleSingleByte,
    Punctuation,
}

/// The state of the candidate list.
#[derive(Debug, Clone, Copy, PartialEq, Eq, Structural)]
pub enum CandidateMode {
    Nothing,
    Original,
    Incremental,
}

/// The Win32 virtual-key codes that the classification looks at.
pub(crate) struct VirtualKeyCodes {
    pub back: u16,
    pub tab: u16,
    pub enter: u16,
    pub escape: u16,
    pub space: u16,
    pub prior: u16,
    pub next: u16,
    pub end: u16,
    pub home: u16,
    pub left: u16,
    pub up: u16,
    pub right: u16,
    pub down: u16,
}

/// The text-services modifier flags that the classification looks at.
pub(crate) struct ModifierFlags {
    pub alt: u32,
    pub control: u32,
    pub shift: u32,
}

/// Reads the `VK_*` constants of the `windows` crate
/// (`Win32::UI::Input::KeyboardAndMouse`); the contract restates the values
/// that the crate defines for them.
#[verifier::external_body]
fn virtual_key_codes() -> (k: VirtualKeyCodes)
    ensures
        k.back == 8 && k.tab == 9 && k.enter == 13 && k.escape == 27 && k.space == 32,
        k.prior == 33 && k.next == 34 && k.end == 35 && k.home == 36,
        k.left == 37 && k.up == 38 && k.right == 39 && k.down == 40,
{
    VirtualKeyCodes {
        back: VK_BACK.0, tab: VK_TAB.0, enter: VK_RETURN.0, escape: VK_ESCAPE.0,
        space: VK_SPACE.0, prior: VK_PRIOR.0, next: VK_NEXT.0, end: VK_END.0, home: VK_HOME.0,
        left: VK_LEFT.0, up: VK_UP.0, right: VK_RIGHT.0, down: VK_DOWN.0,
    }
}

/// Reads the `TF_MOD_*` constants of the `windows` crate
/// (`Win32::UI::TextServices`); the contract restates their values.
#[verifier::external_body]
fn modifier_flags() -> (f: ModifierFlags)
    ensures
        f.alt == 1 && f.control == 2 && f.shift == 4,
{
    ModifierFlags { alt: TF_MOD_ALT, control: TF_MOD_CONTROL, shift: TF_MOD_SHIFT }
}

/// Control or Alt is held.
pub open spec fn ctrl_or_alt(modifiers: u32) -> bool {
    modifiers & 3 != 0
}

/// Shift is held.
pub open spec fn shift_held(modifiers: u32) -> bool {
    modifiers & 4 != 0
}

/// The function that a key has whatever the composition state:
/// Tab converts, Enter finalizes the candidate list, Space finalizes the text
/// store, and the arrow and paging keys move in the candidate list.
pub open spec fn spec_invariable_function(code: u16) -> Option<KeystrokeFunction> {
    if code == 9 {
        Some(KeystrokeFunction::Convert)
    } else if code == 13 {
        Some(KeystrokeFunction::FinalizeCandidatelist)
    } else if code == 32 {
        Some(KeystrokeFunction::FinalizeTextstore)
    } else if code == 38 {
        Some(KeystrokeFunction::MoveUp)
    } else if code == 40 {
        Some(KeystrokeFunction::MoveDown)
    } else if code == 33 {
        Some(KeystrokeFunction::MovePageUp)
    } else if code == 34 {
        Some(KeystrokeFunction::MovePageDown)
    } else if code == 36 {
        Some(KeystrokeFunction::MovePageTop)
    } else if code == 35 {
        Some(KeystrokeFunction::MovePageBottom)
    } else {
        None
    }
}

/// A printable ASCII character typed without Control or Alt (and a space
/// without Shift) goes into the composition, except a digit while the
/// original candidate list is shown.
pub open spec fn spec_affects_composition(ch: char, modifiers: u32, mode: CandidateMode) -> bool {
    &&& ' ' <= ch <= '~'
    &&& !ctrl_or_alt(modifiers)
    &&& (ch == ' ' ==> !shift_held(modifiers))
    &&& !(char_is_numeric(ch) && mode == CandidateMode::Original)
}

/// A numeric character selects a candidate while the original candidate list is shown.
pub open spec fn spec_is_keystroke_range(ch: char, mode: CandidateMode) -> bool {
    char_is_numeric(ch) && mode == CandidateMode::Original
}

fn map_invariable_keystroke_function(keystroke: u16) -> (r: Option<KeystrokeFunction>)
    ensures
        r == spec_invariable_function(keystroke),
{
    let vk = virtual_key_codes();
    if keystroke == vk.tab {
        Some(KeystrokeFunction::Convert)
    } else if keystroke == vk.enter {
        Some(KeystrokeFunction::FinalizeCandidatelist)
    } else if keystroke == vk.space {
        Some(KeystrokeFunction::FinalizeTextstore)
    } else if keystroke == vk.up {
        Some(KeystrokeFunction::MoveUp)
    } else if keystroke == vk.down {
        Some(KeystrokeFunction::MoveDown)
    } else if keystroke == vk.prior {
        Some(KeystrokeFunction::MovePageUp)
    } else if keystroke == vk.next {
        Some(KeystrokeFunction::MovePageDown)
    } else if keystroke == vk.home {
        Some(KeystrokeFunction::MovePageTop)
    } else if keystroke == vk.end {
        Some(KeystrokeFunction::MovePageBottom)
    } else {
        None
    }
}

fn character_affects_keystroke_composition(ch: char, modifiers: u32, candidate_mode: CandidateMode) -> (r: bool)
    ensures
        r == spec_affects_composition(ch, modifiers, candidate_mode),
{
    let flags = modifier_flags();
    let ctrl_alt: u32 = flags.control | flags.alt;
    assert(2u32 | 1u32 == 3u32) by (bit_vector);
    let printable = ' ' <= ch && ch <= '~' && modifiers & ctrl_alt == 0;
    let space_ok = if ch == ' ' { modifiers & flags.shift == 0 } else { true };
    printable && space_ok && !(is_numeric(ch) && candidate_mode == CandidateMode::Original)
}

fn is_keystroke_range(ch: char, candidate_mode: CandidateMode) -> (r: bool)
    ensures
        r == spec_is_keystroke_range(ch, candidate_mode),
{
    if !is_numeric(ch) {
        false
    } else {
        candidate_mode == CandidateMode::Original
    }
}

/// The classification of a keystroke: whether the engine eats the key, in
/// which category it is handled and what it does.
///
/// In the original candidate mode nothing counts as composing. A character
/// that goes into the composition is input (or finalizes the candidate list
/// and is input). While composing, Space without Control/Alt is input unless
/// Shift is held, Shift+Enter finalizes the original text, other system keys
/// keep their function; the cursor keys, Escape and Backspace edit the
/// composition. In the original candidate mode, Tab moves down (up with Shift),
/// Space finalizes (and inputs unless Shift is held), other system keys keep
/// their function, Backspace and Escape cancel. A digit there selects by
/// number; any other character finalizes the text store without being eaten.
pub open spec fn spec_test_virtual_key(
    code: u16,
    ch: char,
    composing: bool,
    mode: CandidateMode,
    modifiers: u32,
) -> (bool, KeystrokeCategory, KeystrokeFunction) {
    let composing = composing && mode != CandidateMode::Original;
    let mapped = spec_invariable_function(code);
    let plain = !ctrl_or_alt(modifiers);
    let shift = shift_held(modifiers);
    if spec_affects_composition(ch, modifiers, mode) {
        if mode == CandidateMode::Original {
            (true, KeystrokeCategory::Candidate, KeystrokeFunction::FinalizeCandidatelistAndInput)
        } else {
            (true, KeystrokeCategory::Composing, KeystrokeFunction::Input)
        }
    } else if composing && mapped is Some {
        let f = mapped->0;
        if f == KeystrokeFunction::FinalizeTextstore && plain {
            if shift {
                (true, KeystrokeCategory::Composing, KeystrokeFunction::FinalizeTextstore)
            } else {
                (false, KeystrokeCategory::Composing, KeystrokeFunction::Input)
            }
        } else if f == KeystrokeFunction::FinalizeCandidatelist && plain && shift {
            (true, KeystrokeCategory::Composing, KeystrokeFunction::FinalizeTextstoreOriginal)
        } else if mode == CandidateMode::Incremental {
            (true, KeystrokeCategory::Candidate, f)
        } else {
            (true, KeystrokeCategory::Composing, f)
        }
    } else if composing && mode != CandidateMode::Incremental && code == 37 {
        (true, KeystrokeCategory::Composing, KeystrokeFunction::MoveLeft)
    } else if composing && mode != CandidateMode::Incremental && code == 39 {
        (true, KeystrokeCategory::Composing, KeystrokeFunction::MoveRight)
    } else if composing && mode != CandidateMode::Incremental && code == 27 {
        (true, KeystrokeCategory::Composing, KeystrokeFunction::Cancel)
    } else if composing && code == 8 {
        (true, KeystrokeCategory::Composing, KeystrokeFunction::Backspace)
    } else if composing && (code == 37 || code == 39) {
        (false, KeystrokeCategory::InvokeCompositionEditSession, KeystrokeFunction::Cancel)
    } else if composing && code == 27 {
        (true, KeystrokeCategory::Candidate, KeystrokeFunction::Cancel)
    } else if mode == CandidateMode::Original && mapped is Some {
        let f = mapped->0;
        if f == KeystrokeFunction::Convert && plain {
            if shift {
                (true, KeystrokeCategory::Candidate, KeystrokeFunction::MoveUp)
            } else {
                (true, KeystrokeCategory::Candidate, KeystrokeFunction::MoveDown)
            }
        } else if f == KeystrokeFunction::FinalizeTextstore && plain {
            if shift {
                (true, KeystrokeCategory::Composing, KeystrokeFunction::FinalizeTextstore)
            } else {
                (true, KeystrokeCategory::Composing, KeystrokeFunction::FinalizeTextstoreAndInput)
            }
        } else {
            (true, KeystrokeCategory::Candidate, f)
        }
    } else if mode == CandidateMode::Original && (code == 8 || code == 27) {
        (true, KeystrokeCategory::Candidate, KeystrokeFunction::Cancel)
    } else if spec_is_keystroke_range(ch, mode) {
        (true, KeystrokeCategory::Candidate, KeystrokeFunction::SelectByNumber)
    } else if ch != '\0' {
        (false, KeystrokeCategory::InvokeCompositionEditSession, KeystrokeFunction::FinalizeTextstore)
    } else {
        (false, KeystrokeCategory::Nothing, KeystrokeFunction::Nothing)
    }
}

/// Tests whether the composition processor needs a virtual key. Returns
/// whether the key is eaten, its category and its function. `modifiers` are
/// the text-services modifier flags held with the key.
pub fn test_virtual_key(
    code: u16,
    ch: char,
    composing: bool,
    candidate_mode: CandidateMode,
    modifiers: u32,
) -> (r: (bool, KeystrokeCategory, KeystrokeFunction))
    ensures
        r == spec_test_virtual_key(code, ch, composing, candidate_mode, modifiers),
{
    let mut composing = composing;
    if candidate_mode == CandidateMode::Original {
        composing = false;
    }
    let vk = virtual_key_codes();
    let flags = modifier_flags();
    let ctrl_alt: u32 = flags.control | flags.alt;
    assert(2u32 | 1u32 == 3u32) by (bit_vector);
    let plain = modifiers & ctrl_alt == 0;
    let shift = modifiers & flags.shift != 0;

    if character_affects_keystroke_composition(ch, modifiers, candidate_mode) {
        return if candidate_mode == CandidateMode::Original {
            (true, KeystrokeCategory::Candidate, KeystrokeFunction::FinalizeCandidatelistAndInput)
        } else {
            (true, KeystrokeCategory::Composing, KeystrokeFunction::Input)
        };
    }

    let mapped_function = map_invariable_keystroke_function(code);
    if composing {
        if let Some(mapped_function) = mapped_function {
            if mapped_function == KeystrokeFunction::FinalizeTextstore && plain {
                return if !shift {
                    (false, KeystrokeCategory::Composing, KeystrokeFunction::Input)
                } else {
                    (true, KeystrokeCategory::Composing, KeystrokeFunction::FinalizeTextstore)
                };
            }
            if mapped_function == KeystrokeFunction::FinalizeCandidatelist && plain && shift {
                return (true, KeystrokeCategory::Composing, KeystrokeFunction::FinalizeTextstoreOriginal);
            }
            let category = if candidate_mode == CandidateMode::Incremental {
                KeystrokeCategory::Candidate
            } else {
                KeystrokeCategory::Composing
            };
            return (true, category, mapped_function);
        }
        if candidate_mode != CandidateMode::Incremental {
            if code == vk.left {
                return (true, KeystrokeCategory::Composing, KeystrokeFunction::MoveLeft);
            } else if code == vk.right {
                return (true, KeystrokeCategory::Composing, KeystrokeFunction::MoveRight);
            } else if code == vk.escape {
                return (true, KeystrokeCategory::Composing, KeystrokeFunction::Cancel);
            } else if code == vk.back {
                return (true, KeystrokeCategory::Composing, KeystrokeFunction::Backspace);
            }
        } else {
            if code == vk.left || code == vk.right {
                return (false, KeystrokeCategory::InvokeCompositionEditSession, KeystrokeFunction::Cancel);
            } else if code == vk.escape {
                return (true, KeystrokeCategory::Candidate, KeystrokeFunction::Cancel);
            } else if code == vk.back {
                return (true, KeystrokeCategory::Composing, KeystrokeFunction::Backspace);
            }
        }
    }

    if candidate_mode == CandidateMode::Original {
        if let Some(mapped_function) = mapped_function {
            if mapped_function == KeystrokeFunction::FinalizeTextstoreAndInput {
                return (true, KeystrokeCategory::InvokeCompositionEditSession, KeystrokeFunction::FinalizeTextstoreAndInput);
            } else if mapped_function == KeystrokeFunction::Convert {
                if plain {
                    if !shift {
                        return (true, KeystrokeCategory::Candidate, KeystrokeFunction::MoveDown);
                    } else {
                        return (true, KeystrokeCategory::Candidate, KeystrokeFunction::MoveUp);
                    }
                }
            } else if mapped_function == KeystrokeFunction::FinalizeTextstore && plain {
                return if !shift {
                    (true, KeystrokeCategory::Composing, KeystrokeFunction::FinalizeTextstoreAndInput)
                } else {
                    (true, KeystrokeCategory::Composing, KeystrokeFunction::FinalizeTextstore)
                };
            }
            return (true, KeystrokeCategory::Candidate, mapped_function);
        }
        if code == vk.back || code == vk.escape {
            return (true, KeystrokeCategory::Candidate, KeystrokeFunction::Cancel);
        }
    }

    if is_keystroke_range(ch, candidate_mode) {
        return (true, KeystrokeCategory::Candidate, KeystrokeFunction::SelectByNumber);
    }

    if ch != '\0' {
        return if character_affects_keystroke_composition(ch, modifiers, candidate_mode) {
            (false, KeystrokeCategory::Composing, KeystrokeFunction::Input)
        } else {
            (false, KeystrokeCategory::InvokeCompositionEditSession, KeystrokeFunction::FinalizeTextstore)
        };
    }

    (false, KeystrokeCategory::Nothing, KeystrokeFunction::Nothing)
}

/// The category of a system key while composing: the candidate list when
/// it is shown incrementally, the composition otherwise.
pub open spec fn composing_category(mode: CandidateMode) -> KeystrokeCategory {
    if mode == CandidateMode::Incremental { KeystrokeCategory::Candidate } else { KeystrokeCategory::Composing }
}

/// How keys are classified, for every state.
///
/// A printable ASCII character typed without Control or Alt (a space also
/// without Shift) is input, except a digit while the original candidate
/// list is shown; with that list shown it finalizes the list and is input.
///
/// While composing (the original candidate list not shown) a key that is
/// not input: Backspace removes a character of the composition;
/// Escape cancels (in the candidate list when it is shown incrementally);
/// Left and Right move in the composition, or, with the incremental list
/// shown, are left to the application and the composition is cancelled;
/// Tab converts; Up, Down and the paging keys move; Enter finalizes the
/// candidate list, or with Shift alone the original text; Space with
/// neither Control nor Alt finalizes the text store with Shift and is left
/// to the application without it, and otherwise finalizes the text store.
///
/// With the original candidate list shown, for a key that is not input,
/// Backspace and Escape cancel the list,
/// Tab moves down (up with Shift), Space finalizes the text store (and is
/// input without Shift), the other system keys keep their function in the
/// list, and a numeric character on any other key selects by number.
///
/// Any other key that is not input (not composing and without the
/// original list, or not one of the system keys above), unless a numeric
/// character selects, finalizes the text store (uneaten) when it carries a
/// character, and is not handled otherwise.
pub proof fn lemma_virtual_key_classification(
    code: u16,
    ch: char,
    composing: bool,
    mode: CandidateMode,
    modifiers: u32,
)
    ensures
        ({
            let r = spec_test_virtual_key(code, ch, composing, mode, modifiers);
            let printable = ' ' <= ch <= '~';
            let plain = modifiers & 3 == 0;
            let shift = modifiers & 4 != 0;
            let original = mode == CandidateMode::Original;
            let cat = composing_category(mode);
            let typed = printable && plain && (ch == ' ' ==> !shift) && !(char_is_numeric(ch) && original);
            let editing = composing && !original && !typed;
            let listing = original && !typed;
            let system_key = 8 <= code <= 9 || code == 13 || code == 27 || code == 32 || 33 <= code <= 40;
            &&& typed ==> r == if original {
                (true, KeystrokeCategory::Candidate, KeystrokeFunction::FinalizeCandidatelistAndInput)
            } else {
                (true, KeystrokeCategory::Composing, KeystrokeFunction::Input)
            }
            &&& (editing && code == 8) ==> r == (true, KeystrokeCategory::Composing, KeystrokeFunction::Backspace)
            &&& (editing && code == 27) ==> r == (true, cat, KeystrokeFunction::Cancel)
            &&& (editing && code == 37) ==> r == if mode == CandidateMode::Incremental {
                (false, KeystrokeCategory::InvokeCompositionEditSession, KeystrokeFunction::Cancel)
            } else {
                (true, KeystrokeCategory::Composing, KeystrokeFunction::MoveLeft)
            }
            &&& (editing && code == 39) ==> r == if mode == CandidateMode::Incremental {
                (false, KeystrokeCategory::InvokeCompositionEditSession, KeystrokeFunction::Cancel)
            } else {
                (true, KeystrokeCategory::Composing, KeystrokeFunction::MoveRight)
            }
            &&& (editing && code == 9) ==> r == (true, cat, KeystrokeFunction::Convert)
            &&& (editing && code == 38) ==> r == (true, cat, KeystrokeFunction::MoveUp)
            &&& (editing && code == 40) ==> r == (true, cat, KeystrokeFunction::MoveDown)
            &&& (editing && code == 33) ==> r == (true, cat, KeystrokeFunction::MovePageUp)
            &&& (editing && code == 34) ==> r == (true, cat, KeystrokeFunction::MovePageDown)
            &&& (editing && code == 36) ==> r == (true, cat, KeystrokeFunction::MovePageTop)
            &&& (editing && code == 35) ==> r == (true, cat, KeystrokeFunction::MovePageBottom)
            &&& (editing && code == 13) ==> r == if plain && shift {
                (true, KeystrokeCategory::Composing, KeystrokeFunction::FinalizeTextstoreOriginal)
            } else {
                (true, cat, KeystrokeFunction::FinalizeCandidatelist)
            }
            &&& (editing && code == 32) ==> r == if !plain {
                (true, cat, KeystrokeFunction::FinalizeTextstore)
            } else if shift {
                (true, KeystrokeCategory::Composing, KeystrokeFunction::FinalizeTextstore)
            } else {
                (false, KeystrokeCategory::Composing, KeystrokeFunction::Input)
            }
            &&& (listing && (code == 8 || code == 27)) ==> r == (true, KeystrokeCategory::Candidate, KeystrokeFunction::Cancel)
            &&& (listing && code == 9) ==> r == if !plain {
                (true, KeystrokeCategory::Candidate, KeystrokeFunction::Convert)
            } else if shift {
                (true, KeystrokeCategory::Candidate, KeystrokeFunction::MoveUp)
            } else {
                (true, KeystrokeCategory::Candidate, KeystrokeFunction::MoveDown)
            }
            &&& (listing && code == 32) ==> r == if !plain {
                (true, KeystrokeCategory::Candidate, KeystrokeFunction::FinalizeTextstore)
            } else if shift {
                (true, KeystrokeCategory::Composing, KeystrokeFunction::FinalizeTextstore)
            } else {
                (true, KeystrokeCategory::Composing, KeystrokeFunction::FinalizeTextstoreAndInput)
            }
            &&& (listing && code == 13) ==> r == (true, KeystrokeCategory::Candidate, KeystrokeFunction::FinalizeCandidatelist)
            &&& (listing && code == 38) ==> r == (true, KeystrokeCategory::Candidate, KeystrokeFunction::MoveUp)
            &&& (listing && code == 40) ==> r == (true, KeystrokeCategory::Candidate, KeystrokeFunction::MoveDown)
            &&& (listing && code == 33) ==> r == (true, KeystrokeCategory::Candidate, KeystrokeFunction::MovePageUp)
            &&& (listing && code == 34) ==> r == (true, KeystrokeCategory::Candidate, KeystrokeFunction::MovePageDown)
            &&& (listing && code == 36) ==> r == (true, KeystrokeCategory::Candidate, KeystrokeFunction::MovePageTop)
            &&& (listing && code == 35) ==> r == (true, KeystrokeCategory::Candidate, KeystrokeFunction::MovePageBottom)
            &&& (original && char_is_numeric(ch) && !(8 <= code <= 9) && code != 13 && code != 27 && code != 32
                && !(33 <= code <= 36) && code != 38 && code != 40)
                ==> r == (true, KeystrokeCategory::Candidate, KeystrokeFunction::SelectByNumber)
            &&& (!typed && (!system_key || (!composing && !original)) && !(original && char_is_numeric(ch)))
                ==> r == if ch != '\0' {
                (false, KeystrokeCategory::InvokeCompositionEditSession, KeystrokeFunction::FinalizeTextstore)
            } else {
                (false, KeystrokeCategory::Nothing, KeystrokeFunction::Nothing)
            }
        }),
{
}

} // verus!
