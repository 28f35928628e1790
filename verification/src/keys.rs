//! What a key press does to an input session, decided from the session's situation.
use vstd::prelude::*;

verus! {

pub const KEY_BACKSPACE: u32 = 0xff08;

pub const KEY_RETURN: u32 = 0xff0d;

pub const KEY_KP_ENTER: u32 = 0xff8d;

pub const KEY_ESCAPE: u32 = 0xff1b;

pub const KEY_LEFT: u32 = 0xff51;

pub const KEY_UP: u32 = 0xff52;

pub const KEY_RIGHT: u32 = 0xff53;

pub const KEY_DOWN: u32 = 0xff54;

pub const KEY_DELETE: u32 = 0xffff;

pub const KEY_SPACE: u32 = 0x20;

/// What the key handler reads of a session.
#[derive(Clone, Copy, Debug, Eq, PartialEq)]
pub struct KeySituation {
    /// Whether the composing text is empty.
    pub composing_empty: bool,
    /// Conversion candidates of the composing text.
    pub candidate_count: usize,
    /// Predictions offered after a commit.
    pub post_candidate_count: usize,
    /// The highlighted candidate.
    pub selected_candidate: usize,
    /// Whether the event carries text without control characters.
    pub text_valid: bool,
}

/// What to do for a key press.
#[derive(Clone, Copy, Debug, Eq, PartialEq)]
pub enum KeyAction {
    /// A key release: report the state, unconsumed.
    Released,
    /// Edit the composing text, then convert it again.
    DeleteBackward,
    DeleteForward,
    MoveLeft,
    MoveRight,
    /// Convert the composing text again without editing it.
    Refresh,
    /// Drop the composing text and the predictions.
    Reset,
    /// Commit the composing text as it is.
    CommitSurface,
    /// Commit the candidate at this index.
    CommitCandidate(usize),
    /// Highlight the candidate at this index.
    Highlight(usize),
    /// Insert the event's text or key.
    Insert,
    /// Drop the predictions and pass the key on.
    DismissPredictions,
    /// Pass the key on.
    Ignore,
}

/// The candidates the arrow keys move through: the predictions while nothing is composed,
/// otherwise the conversion candidates.
pub open spec fn active_count(s: KeySituation) -> int {
    if s.composing_empty && s.post_candidate_count > 0 {
        s.post_candidate_count as int
    } else {
        s.candidate_count as int
    }
}

/// The action of a key press; the first rule that applies decides.
pub open spec fn key_action_spec(key_sym: u32, release: bool, s: KeySituation) -> KeyAction {
    let composing = !s.composing_empty;
    if release {
        KeyAction::Released
    } else if key_sym == KEY_BACKSPACE && composing {
        KeyAction::DeleteBackward
    } else if key_sym == KEY_DELETE && composing {
        KeyAction::DeleteForward
    } else if key_sym == KEY_LEFT && composing {
        KeyAction::MoveLeft
    } else if key_sym == KEY_RIGHT && composing {
        KeyAction::MoveRight
    } else if key_sym == KEY_ESCAPE && (composing || s.post_candidate_count > 0) {
        KeyAction::Reset
    } else if (key_sym == KEY_RETURN || key_sym == KEY_KP_ENTER) && composing {
        if s.candidate_count == 0 {
            KeyAction::CommitSurface
        } else {
            KeyAction::CommitCandidate(s.selected_candidate)
        }
    } else if key_sym == KEY_SPACE && composing {
        if s.candidate_count > 0 {
            KeyAction::Highlight(((s.selected_candidate + 1) % (s.candidate_count as int)) as usize)
        } else {
            KeyAction::Refresh
        }
    } else if key_sym == KEY_SPACE && s.post_candidate_count > 0 {
        KeyAction::Highlight(
            ((s.selected_candidate + 1) % (s.post_candidate_count as int)) as usize,
        )
    } else if (key_sym == KEY_UP || key_sym == KEY_DOWN) && active_count(s) > 0 {
        if key_sym == KEY_UP {
            KeyAction::Highlight(
                if s.selected_candidate > 0 {
                    (s.selected_candidate - 1) as usize
                } else {
                    (active_count(s) - 1) as usize
                },
            )
        } else {
            KeyAction::Highlight(((s.selected_candidate + 1) % active_count(s)) as usize)
        }
    } else if s.text_valid {
        KeyAction::Insert
    } else if s.post_candidate_count > 0 {
        KeyAction::DismissPredictions
    } else {
        KeyAction::Ignore
    }
}

/// Decides what a key press does.
pub fn key_action(key_sym: u32, release: bool, s: &KeySituation) -> (a: KeyAction)
    requires
        s.selected_candidate < usize::MAX,
    ensures
        a == key_action_spec(key_sym, release, *s),
{
    let composing = !s.composing_empty;
    if release {
        return KeyAction::Released;
    }
    if key_sym == KEY_BACKSPACE && composing {
        return KeyAction::DeleteBackward;
    }
    if key_sym == KEY_DELETE && composing {
        return KeyAction::DeleteForward;
    }
    if key_sym == KEY_LEFT && composing {
        return KeyAction::MoveLeft;
    }
    if key_sym == KEY_RIGHT && composing {
        return KeyAction::MoveRight;
    }
    if key_sym == KEY_ESCAPE && (composing || s.post_candidate_count > 0) {
        return KeyAction::Reset;
    }
    if (key_sym == KEY_RETURN || key_sym == KEY_KP_ENTER) && composing {
        if s.candidate_count == 0 {
            return KeyAction::CommitSurface;
        }
        return KeyAction::CommitCandidate(s.selected_candidate);
    }
    if key_sym == KEY_SPACE && composing {
        if s.candidate_count > 0 {
            return KeyAction::Highlight((s.selected_candidate + 1) % s.candidate_count);
        }
        return KeyAction::Refresh;
    }
    if key_sym == KEY_SPACE && s.post_candidate_count > 0 {
        return KeyAction::Highlight((s.selected_candidate + 1) % s.post_candidate_count);
    }
    let active = if s.composing_empty && s.post_candidate_count > 0 {
        s.post_candidate_count
    } else {
        s.candidate_count
    };
    if (key_sym == KEY_UP || key_sym == KEY_DOWN) && active > 0 {
        if key_sym == KEY_UP {
            let next = if s.selected_candidate > 0 {
                s.selected_candidate - 1
            } else {
                active - 1
            };
            return KeyAction::Highlight(next);
        }
        return KeyAction::Highlight((s.selected_candidate + 1) % active);
    }
    if s.text_valid {
        return KeyAction::Insert;
    }
    if s.post_candidate_count > 0 {
        return KeyAction::DismissPredictions;
    }
    KeyAction::Ignore
}

/// The highlight moves within the candidates: whenever a key highlights a candidate, its
/// index is below the number of candidates it moves through.
pub proof fn lemma_highlight_in_range(key_sym: u32, s: KeySituation)
    requires
        s.selected_candidate < active_count(s),
    ensures
        key_action_spec(key_sym, false, s) matches KeyAction::Highlight(i) ==> (i < s.candidate_count
            || i < s.post_candidate_count),
{
    let x = s.selected_candidate + 1;
    if s.candidate_count > 0 {
        let n = s.candidate_count as int;
        assert(0 <= x % n < n) by (nonlinear_arith)
            requires
                n > 0,
        ;
    }
    if s.post_candidate_count > 0 {
        let n = s.post_candidate_count as int;
        assert(0 <= x % n < n) by (nonlinear_arith)
            requires
                n > 0,
        ;
    }
}


/// A control character: the Unicode general category `Cc`.
pub open spec fn is_control(c: char) -> bool {
    (c as u32) <= 0x1f || (0x7f <= (c as u32) && (c as u32) <= 0x9f)
}

pub open spec fn no_control(s: Seq<char>) -> bool {
    forall|i: int| 0 <= i < s.len() ==> !is_control(#[trigger] s[i])
}

pub(crate) fn has_no_control(s: &str) -> (r: bool)
    ensures
        r == no_control(s@),
{
    let v = crate::text::chars_of(s);
    let mut i: usize = 0;
    while i < v.len()
        invariant
            i <= v@.len(),
            v@ == s@,
            forall|j: int| 0 <= j < i ==> !is_control(#[trigger] v@[j]),
        decreases v@.len() - i,
    {
        let code = v[i] as u32;
        if code <= 0x1f || (0x7f <= code && code <= 0x9f) {
            assert(is_control(v@[i as int]));
            return false;
        }
        i = i + 1;
    }
    true
}

/// Whether a key event may insert its text: the text is not empty and neither it, the
/// input nor the intention holds a control character.
pub fn valid_event_text(text: &str, input: &str, intention: &str) -> (r: bool)
    ensures
        r == (text@.len() > 0 && no_control(text@) && no_control(input@) && no_control(
            intention@,
        )),
{
    if text.is_empty() {
        return false;
    }
    has_no_control(text) && has_no_control(input) && has_no_control(intention)
}

/// Which way a page request moves the highlight.
#[derive(Clone, Copy, Debug, Eq, PartialEq)]
pub enum PageDirection {
    Previous,
    Next,
}

/// The highlighted candidate after a page request, or `None` when the request is invalid
/// (no page size, or no direction). With no candidate the highlight stays.
pub open spec fn page_spec(count: int, selected: int, page_size: int, direction: Option<
    PageDirection,
>) -> Option<int> {
    if page_size == 0 {
        None
    } else if count == 0 {
        Some(selected)
    } else {
        match direction {
            Some(PageDirection::Previous) => Some(
                if selected >= page_size {
                    selected - page_size
                } else {
                    0
                },
            ),
            Some(PageDirection::Next) => Some(
                if selected + page_size <= count - 1 {
                    selected + page_size
                } else {
                    count - 1
                },
            ),
            None => None,
        }
    }
}

/// Moves the highlight by a page of candidates.
pub fn page_selection(count: usize, selected: usize, page_size: u32, direction: Option<
    PageDirection,
>) -> (r: Option<usize>)
    requires
        selected + page_size <= usize::MAX,
    ensures
        match r {
            Some(i) => page_spec(count as int, selected as int, page_size as int, direction)
                == Some(i as int),
            None => page_spec(count as int, selected as int, page_size as int, direction) is None,
        },
{
    if page_size == 0 {
        return None;
    }
    if count == 0 {
        return Some(selected);
    }
    let size = page_size as usize;
    match direction {
        Some(PageDirection::Previous) => Some(selected.saturating_sub(size)),
        Some(PageDirection::Next) => {
            let moved = selected + size;
            Some(
                if moved <= count - 1 {
                    moved
                } else {
                    count - 1
                },
            )
        },
        None => None,
    }
}

/// Paging keeps the highlight among the candidates when there are any.
pub proof fn lemma_page_in_range(count: int, selected: int, page_size: int, direction: Option<
    PageDirection,
>)
    requires
        count > 0,
        0 <= selected < count,
        page_size >= 0,
    ensures
        page_spec(count, selected, page_size, direction) matches Some(i) ==> 0 <= i < count,
{
}


/// While the text is being composed, pressing the Left key (0xff51) moves the cursor toward
/// the start and pressing the Right key (0xff53) moves it toward the end, whatever the
/// candidates.
pub proof fn lemma_arrow_keys_move_cursor(s: KeySituation)
    requires
        !s.composing_empty,
    ensures
        key_action_spec(0xff51, false, s) == KeyAction::MoveLeft,
        key_action_spec(0xff53, false, s) == KeyAction::MoveRight,
        key_action_spec(0xff08, false, s) == KeyAction::DeleteBackward,
        key_action_spec(0xffff, false, s) == KeyAction::DeleteForward,
{
}

/// With a candidate list shown and a candidate highlighted, the Up key (0xff52) highlights
/// the one before it, or the last from the first, and the Down key (0xff54) the one after
/// it, or the first from the last.
pub proof fn lemma_up_down_cycle(s: KeySituation)
    requires
        active_count(s) > 0,
        s.selected_candidate < active_count(s),
        s.composing_empty ==> s.post_candidate_count > 0,
    ensures
        key_action_spec(0xff52, false, s) == KeyAction::Highlight(
            if s.selected_candidate == 0 {
                (active_count(s) - 1) as usize
            } else {
                (s.selected_candidate - 1) as usize
            },
        ),
        key_action_spec(0xff54, false, s) == KeyAction::Highlight(
            if s.selected_candidate + 1 == active_count(s) {
                0usize
            } else {
                (s.selected_candidate + 1) as usize
            },
        ),
{
    let m = active_count(s);
    let x = s.selected_candidate + 1;
    assert(x == m ==> x % m == 0) by (nonlinear_arith)
        requires
            m > 0,
    ;
    assert(x < m ==> x % m == x) by (nonlinear_arith)
        requires
            x >= 0,
    ;
}

} // verus!
