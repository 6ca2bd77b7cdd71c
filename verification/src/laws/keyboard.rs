//! What the keys of the keyboard do, from the press to the list and the input.
use vstd::prelude::*;

use crate::app;
use crate::client::{ClientView, PendingAction};
use crate::clipboard::OpView;
use crate::editor;
use crate::editor::EditorView;
use crate::keys;
use crate::keys::KeyAction;
use crate::platform::text;

verus! {

/// The client after a key goes down, by its evdev code, under the modifiers and
/// the character the layout has for it.
pub open spec fn pressed(
    v: ClientView,
    code: u32,
    ctrl: bool,
    shift: bool,
    typed: Option<char>,
) -> ClientView {
    v.acted(keys::meaning(code, ctrl, typed), shift)
}

/// The keys with a fixed place, by their evdev codes: what each means, whatever
/// Ctrl and the layout say.
pub proof fn law_the_editing_keys(ctrl: bool, typed: Option<char>)
    ensures
        keys::meaning(1, ctrl, typed) == KeyAction::Escape,
        keys::meaning(14, ctrl, typed) == KeyAction::Backspace,
        keys::meaning(15, ctrl, typed) == KeyAction::Tab,
        keys::meaning(28, ctrl, typed) == KeyAction::Enter,
        keys::meaning(102, ctrl, typed) == KeyAction::Home,
        keys::meaning(103, ctrl, typed) == KeyAction::Up,
        keys::meaning(105, ctrl, typed) == KeyAction::Left,
        keys::meaning(106, ctrl, typed) == KeyAction::Right,
        keys::meaning(107, ctrl, typed) == KeyAction::End,
        keys::meaning(108, ctrl, typed) == KeyAction::Down,
        keys::meaning(111, ctrl, typed) == KeyAction::Delete,
{
}

/// No two of the keys that edit, move or end mean the same.
pub proof fn law_no_two_editing_keys_mean_the_same(
    a: u32,
    b: u32,
    ctrl: bool,
    other_ctrl: bool,
    typed: Option<char>,
    other: Option<char>,
)
    requires
        keys::meaning(a, ctrl, typed) == keys::meaning(b, other_ctrl, other),
        keys::meaning(a, ctrl, typed) != KeyAction::Nothing,
        !(keys::meaning(a, ctrl, typed) is Char),
    ensures
        a == b,
{
}

/// The seven modifier keys, by their evdev codes, do nothing on their own, and
/// with Ctrl held the keys where A, C, X and V are on a US keyboard select all,
/// copy, cut and paste, every other key but the editing keys nothing.
pub proof fn law_modifiers_and_shortcuts(code: u32, ctrl: bool, typed: Option<char>)
    ensures
        seq![29u32, 42, 54, 56, 58, 97, 100].contains(code) ==> keys::meaning(code, ctrl, typed)
            == KeyAction::Nothing,
        keys::meaning(30, true, typed) == KeyAction::SelectAll,
        keys::meaning(46, true, typed) == KeyAction::Copy,
        keys::meaning(45, true, typed) == KeyAction::Cut,
        keys::meaning(47, true, typed) == KeyAction::Paste,
        !seq![1u32, 14, 15, 28, 102, 103, 105, 106, 107, 108, 111, 30, 45, 46, 47].contains(code)
            ==> keys::meaning(code, true, typed) == KeyAction::Nothing,
{
    let mods = seq![29u32, 42, 54, 56, 58, 97, 100];
    if mods.contains(code) {
        let i = choose|i: int| 0 <= i < mods.len() && mods[i] == code;
        assert(code == mods[0] || code == mods[1] || code == mods[2] || code == mods[3] || code
            == mods[4] || code == mods[5] || code == mods[6]);
    }
    let others = seq![1u32, 14, 15, 28, 102, 103, 105, 106, 107, 108, 111, 30, 45, 46, 47];
    if !others.contains(code) {
        assert(others[0] != code && others[1] != code && others[2] != code && others[3] != code);
        assert(others[4] != code && others[5] != code && others[6] != code && others[7] != code);
        assert(others[8] != code && others[9] != code && others[10] != code && others[11] != code);
        assert(others[12] != code && others[13] != code && others[14] != code);
    }
}

/// Every other key, without Ctrl, types the character the layout has for it, and
/// nothing where it has none.
pub proof fn law_other_keys_type_their_character(code: u32, c: char)
    requires
        !seq![
            1u32,
            14,
            15,
            28,
            102,
            103,
            105,
            106,
            107,
            108,
            111,
            29,
            42,
            54,
            56,
            58,
            97,
            100,
        ].contains(code),
    ensures
        keys::meaning(code, false, Some(c)) == KeyAction::Char(c),
        keys::meaning(code, false, None) == KeyAction::Nothing,
{
    let others = seq![
        1u32,
        14,
        15,
        28,
        102,
        103,
        105,
        106,
        107,
        108,
        111,
        29,
        42,
        54,
        56,
        58,
        97,
        100,
    ];
    assert(others[0] != code && others[1] != code && others[2] != code && others[3] != code);
    assert(others[4] != code && others[5] != code && others[6] != code && others[7] != code);
    assert(others[8] != code && others[9] != code && others[10] != code && others[11] != code);
    assert(others[12] != code && others[13] != code && others[14] != code && others[15] != code);
    assert(others[16] != code && others[17] != code);
}

/// The Down key selects the row below and the Up key the row above, from the
/// last row the first and from the first the last; neither touches the input.
pub proof fn law_down_selects_the_row_below_and_up_the_row_above(
    v: ClientView,
    ctrl: bool,
    typed: Option<char>,
    row: int,
    total_rows: int,
)
    requires
        0 <= row < total_rows,
    ensures
        ({
            let down = pressed(v, 108, ctrl, false, typed);
            let up = pressed(v, 103, ctrl, false, typed);
            &&& row + 1 < total_rows ==> app::moved_to(down.pending_action, row, total_rows)
                == Some(row + 1)
            &&& row + 1 == total_rows ==> app::moved_to(down.pending_action, row, total_rows)
                == Some(0int)
            &&& row > 0 ==> app::moved_to(up.pending_action, row, total_rows) == Some(row - 1)
            &&& row == 0 ==> app::moved_to(up.pending_action, row, total_rows) == Some(
                total_rows - 1,
            )
            &&& down.editor == v.editor && up.editor == v.editor
            &&& down.running == v.running && up.running == v.running
        }),
{
    if row + 1 == total_rows {
        vstd::arithmetic::div_mod::lemma_mod_self_0(total_rows);
    } else {
        vstd::arithmetic::div_mod::lemma_small_mod((row + 1) as nat, total_rows as nat);
    }
}

/// An input with the caret between two parts of its text.
pub open spec fn at_caret(before: Seq<char>, after: Seq<char>) -> EditorView {
    EditorView { text: before + after, cursor: before.len() as int, anchor: None }
}

/// An input with the middle part of its text selected, and the caret at its end
/// or, backwards, at its start.
pub open spec fn marked(
    before: Seq<char>,
    middle: Seq<char>,
    after: Seq<char>,
    backwards: bool,
) -> EditorView {
    let a = before.len() as int;
    let b = (before.len() + middle.len()) as int;
    EditorView {
        text: before + middle + after,
        cursor: if backwards {
            a
        } else {
            b
        },
        anchor: Some(
            if backwards {
                b
            } else {
                a
            },
        ),
    }
}

/// The character typed goes in at the caret, which ends behind it; what was
/// selected makes way for it.
pub proof fn law_typing_goes_in_at_the_caret(
    v: ClientView,
    code: u32,
    shift: bool,
    c: char,
    before: Seq<char>,
    middle: Seq<char>,
    after: Seq<char>,
    backwards: bool,
)
    requires
        keys::meaning(code, false, Some(c)) is Char,
        text::byte_len(before + after) + text::byte_len(seq![c]) <= 1024,
    ensures
        v.editor == at_caret(before, after) ==> pressed(v, code, false, shift, Some(c)).editor
            == at_caret(before.push(c), after),
        middle.len() > 0 && v.editor == marked(before, middle, after, backwards) ==> pressed(
            v,
            code,
            false,
            shift,
            Some(c),
        ).editor == at_caret(before.push(c), after),
{
    let w = pressed(v, code, false, shift, Some(c));
    assert(keys::meaning(code, false, Some(c)) == KeyAction::Char(c));
    if v.editor == at_caret(before, after) {
        assert((before + after).take(before.len() as int) =~= before);
        assert((before + after).skip(before.len() as int) =~= after);
        assert(w.editor.text =~= before.push(c) + after);
    }
    if middle.len() > 0 && v.editor == marked(before, middle, after, backwards) {
        lemma_unmarked(before, middle, after, backwards);
        assert((before + after).take(before.len() as int) =~= before);
        assert((before + after).skip(before.len() as int) =~= after);
        assert(w.editor.text =~= before.push(c) + after);
    }
}

/// A character there is no room for is not taken.
pub proof fn law_typing_without_room_changes_nothing(
    v: ClientView,
    code: u32,
    shift: bool,
    c: char,
    before: Seq<char>,
    after: Seq<char>,
)
    requires
        keys::meaning(code, false, Some(c)) is Char,
        text::byte_len(before + after) + text::byte_len(seq![c]) > 1024,
        v.editor == at_caret(before, after),
    ensures
        pressed(v, code, false, shift, Some(c)) == v,
{
    assert(keys::meaning(code, false, Some(c)) == KeyAction::Char(c));
}

proof fn lemma_unmarked(
    before: Seq<char>,
    middle: Seq<char>,
    after: Seq<char>,
    backwards: bool,
)
    requires
        middle.len() > 0,
    ensures
        marked(before, middle, after, backwards).selection() is Some,
        marked(before, middle, after, backwards).without_selection() == at_caret(before, after),
        marked(before, middle, after, backwards).selected() == middle,
{
    let e = marked(before, middle, after, backwards);
    let a = before.len() as int;
    let b = (before.len() + middle.len()) as int;
    assert(e.selection() == Some((a, b)));
    assert(e.text.take(a) =~= before);
    assert(e.text.skip(b) =~= after);
    assert(e.text.subrange(a, b) =~= middle);
}

/// Backspace takes the character before the caret and Delete the one behind it;
/// either takes what is selected instead.
pub proof fn law_backspace_takes_before_and_delete_behind(
    v: ClientView,
    ctrl: bool,
    shift: bool,
    typed: Option<char>,
    before: Seq<char>,
    c: char,
    middle: Seq<char>,
    after: Seq<char>,
    backwards: bool,
)
    ensures
        v.editor == at_caret(before.push(c), after) ==> pressed(v, 14, ctrl, shift, typed).editor
            == at_caret(before, after),
        v.editor == at_caret(before, seq![c] + after) ==> pressed(
            v,
            111,
            ctrl,
            shift,
            typed,
        ).editor == at_caret(before, after),
        v.editor == at_caret(Seq::empty(), after) ==> pressed(v, 14, ctrl, shift, typed).editor
            == v.editor,
        v.editor == at_caret(before, Seq::empty()) ==> pressed(v, 111, ctrl, shift, typed).editor
            == v.editor,
        middle.len() > 0 && v.editor == marked(before, middle, after, backwards) ==> pressed(
            v,
            14,
            ctrl,
            shift,
            typed,
        ).editor == at_caret(before, after) && pressed(v, 111, ctrl, shift, typed).editor
            == at_caret(before, after),
{
    law_the_editing_keys(ctrl, typed);
    if v.editor == at_caret(before.push(c), after) {
        assert(v.editor.backspaced().text =~= before + after);
    }
    if v.editor == at_caret(before, seq![c] + after) {
        assert(v.editor.deleted().text =~= before + after);
    }
    if middle.len() > 0 && v.editor == marked(before, middle, after, backwards) {
        lemma_unmarked(before, middle, after, backwards);
    }
}

/// Without Shift the arrow keys move the caret by one character to their side,
/// or to that side of what is selected; Home moves it before everything and End
/// behind. None changes the text or leaves a selection.
pub proof fn law_the_arrows_move_the_caret(
    v: ClientView,
    ctrl: bool,
    typed: Option<char>,
    before: Seq<char>,
    c: char,
    middle: Seq<char>,
    after: Seq<char>,
    backwards: bool,
)
    ensures
        v.editor == at_caret(before.push(c), after) ==> pressed(v, 105, ctrl, false, typed).editor
            == at_caret(before, seq![c] + after),
        v.editor == at_caret(before, seq![c] + after) ==> pressed(
            v,
            106,
            ctrl,
            false,
            typed,
        ).editor == at_caret(before.push(c), after),
        v.editor == at_caret(Seq::empty(), after) ==> pressed(v, 105, ctrl, false, typed).editor
            == v.editor,
        v.editor == at_caret(before, Seq::empty()) ==> pressed(v, 106, ctrl, false, typed).editor
            == v.editor,
        middle.len() > 0 && v.editor == marked(before, middle, after, backwards) ==> pressed(
            v,
            105,
            ctrl,
            false,
            typed,
        ).editor == at_caret(before, middle + after) && pressed(v, 106, ctrl, false, typed).editor
            == at_caret(before + middle, after),
        pressed(v, 102, ctrl, false, typed).editor == at_caret(Seq::empty(), v.editor.text),
        pressed(v, 107, ctrl, false, typed).editor == at_caret(v.editor.text, Seq::empty()),
{
    law_the_editing_keys(ctrl, typed);
    assert(before.push(c) + after =~= before + (seq![c] + after));
    assert(before + middle + after =~= before + (middle + after));
    assert(Seq::<char>::empty() + v.editor.text =~= v.editor.text);
    assert(v.editor.text + Seq::<char>::empty() =~= v.editor.text);
    if middle.len() > 0 && v.editor == marked(before, middle, after, backwards) {
        lemma_unmarked(before, middle, after, backwards);
    }
}

/// With Shift held the same keys move the caret alike and select what it passes
/// over, from where the caret or the selection began.
pub proof fn law_shift_selects_what_the_caret_passes(
    v: ClientView,
    ctrl: bool,
    typed: Option<char>,
    before: Seq<char>,
    c: char,
    middle: Seq<char>,
    after: Seq<char>,
)
    ensures
        v.editor == at_caret(before.push(c), after) ==> pressed(v, 105, ctrl, true, typed).editor
            == marked(before, seq![c], after, true),
        v.editor == at_caret(before, seq![c] + after) ==> pressed(
            v,
            106,
            ctrl,
            true,
            typed,
        ).editor == marked(before, seq![c], after, false),
        v.editor == marked(before.push(c), middle, after, true) ==> pressed(
            v,
            105,
            ctrl,
            true,
            typed,
        ).editor == marked(before, seq![c] + middle, after, true),
        v.editor == marked(before, middle, seq![c] + after, false) ==> pressed(
            v,
            106,
            ctrl,
            true,
            typed,
        ).editor == marked(before, middle.push(c), after, false),
        v.editor == at_caret(before, after) ==> pressed(v, 102, ctrl, true, typed).editor
            == marked(Seq::empty(), before, after, true) && pressed(
            v,
            107,
            ctrl,
            true,
            typed,
        ).editor == marked(before, after, Seq::empty(), false),
{
    law_the_editing_keys(ctrl, typed);
    let none = Seq::<char>::empty();
    assert(before.push(c) + after =~= before + seq![c] + after);
    assert(before + (seq![c] + after) =~= before + seq![c] + after);
    assert(before.push(c) + middle + after =~= before + (seq![c] + middle) + after);
    assert(before + middle + (seq![c] + after) =~= before + middle.push(c) + after);
    assert(none + before + after =~= before + after);
    assert(before + after + none =~= before + after);
}

/// With Ctrl the A key selects the whole text, the C key hands what is selected
/// to the clipboard and keeps it, the X key hands it over to be cut, and the V
/// key asks for the clipboard's text.
pub proof fn law_the_clipboard_keys(
    v: ClientView,
    shift: bool,
    typed: Option<char>,
    before: Seq<char>,
    middle: Seq<char>,
    after: Seq<char>,
    backwards: bool,
)
    requires
        middle.len() > 0,
        v.editor == marked(before, middle, after, backwards),
    ensures
        pressed(v, 30, true, shift, typed).editor == marked(
            Seq::empty(),
            before + middle + after,
            Seq::empty(),
            false,
        ),
        pressed(v, 46, true, shift, typed) == (ClientView {
            clipboard_op: OpView::Copy(middle),
            ..v
        }),
        pressed(v, 45, true, shift, typed) == (ClientView {
            clipboard_op: OpView::Cut(middle),
            ..v
        }),
        pressed(v, 47, true, shift, typed) == (ClientView { clipboard_op: OpView::Paste, ..v }),
{
    lemma_unmarked(before, middle, after, backwards);
    let all = before + middle + after;
    assert(Seq::<char>::empty() + all + Seq::<char>::empty() =~= all);
}

/// Enter ends the launcher on a launch with the input as it is; Escape ends it
/// without one and with the input gone.
pub proof fn law_enter_launches_and_escape_leaves(
    v: ClientView,
    ctrl: bool,
    shift: bool,
    typed: Option<char>,
)
    ensures
        ({
            let w = pressed(v, 28, ctrl, shift, typed);
            &&& !w.running
            &&& w.pending_action == PendingAction::Launch
            &&& w.editor == v.editor
        }),
        ({
            let w = pressed(v, 1, ctrl, shift, typed);
            &&& !w.running
            &&& w.pending_action == v.pending_action
            &&& w.editor == at_caret(Seq::empty(), Seq::empty())
        }),
{
    law_the_editing_keys(ctrl, typed);
    assert(Seq::<char>::empty() + Seq::<char>::empty() =~= Seq::<char>::empty());
}

/// A paste goes in at the caret as typing does, whole where it fits and otherwise
/// not at all.
pub proof fn law_a_paste_goes_in_at_the_caret(
    before: Seq<char>,
    middle: Seq<char>,
    after: Seq<char>,
    backwards: bool,
    s: Seq<char>,
)
    requires
        middle.len() > 0,
    ensures
        ({
            let fits = text::byte_len(before + after) + text::byte_len(s) <= 1024;
            let there = at_caret(before, after);
            let over = marked(before, middle, after, backwards);
            &&& fits ==> there.pasted(s) == at_caret(before + s, after)
            &&& fits ==> over.pasted(s) == at_caret(before + s, after)
            &&& !fits ==> there.pasted(s) == there && over.pasted(s) == over
        }),
{
    lemma_unmarked(before, middle, after, backwards);
    let there = at_caret(before, after);
    assert((before + after).take(before.len() as int) =~= before);
    assert((before + after).skip(before.len() as int) =~= after);
    assert(there.with_text(s).text =~= before + s + after);
}

/// The word at a place is the run of letters, digits and underscores around it,
/// or of other characters where it stands among those; past the end it is the
/// last.
pub proof fn law_the_word_around_a_place(
    before: Seq<char>,
    word: Seq<char>,
    after: Seq<char>,
    at: int,
    letters: bool,
)
    requires
        word.len() > 0,
        forall|i: int|
            0 <= i < word.len() ==> (editor::alphanumeric(#[trigger] word[i]) || word[i] == '_')
                == letters,
        before.len() > 0 ==> (editor::alphanumeric(before.last()) || before.last() == '_')
            != letters,
        after.len() > 0 ==> (editor::alphanumeric(after[0]) || after[0] == '_') != letters,
        before.len() <= at,
        at < before.len() + word.len() || after.len() == 0,
    ensures
        editor::is_word_at(
            editor::word_kinds(before + word + after),
            at,
            (before.len() as int, (before.len() + word.len()) as int),
        ),
{
    let all = before + word + after;
    let kinds = editor::word_kinds(all);
    let (a, b) = (before.len() as int, (before.len() + word.len()) as int);
    assert forall|i: int| a <= i < b implies #[trigger] kinds[i] == letters by {
        assert(all[i] == word[i - a]);
    }
    if a > 0 {
        assert(all[a - 1] == before.last());
    }
    if b < all.len() {
        assert(all[b] == after[0]);
    }
}

/// With Shift held, a step back over what is selected selects that much less, and
/// Home and End select from where the selection began to the end they move to.
pub proof fn law_shift_takes_back_what_the_caret_passed(
    v: ClientView,
    ctrl: bool,
    typed: Option<char>,
    before: Seq<char>,
    middle: Seq<char>,
    c: char,
    after: Seq<char>,
)
    ensures
        v.editor == marked(before, middle.push(c), after, false) ==> pressed(
            v,
            105,
            ctrl,
            true,
            typed,
        ).editor == marked(before, middle, seq![c] + after, false),
        v.editor == marked(before, seq![c] + middle, after, true) ==> pressed(
            v,
            106,
            ctrl,
            true,
            typed,
        ).editor == marked(before.push(c), middle, after, true),
        v.editor == marked(before, middle, after, true) ==> pressed(
            v,
            102,
            ctrl,
            true,
            typed,
        ).editor == marked(Seq::empty(), before + middle, after, true),
        v.editor == marked(before, middle, after, false) ==> pressed(
            v,
            107,
            ctrl,
            true,
            typed,
        ).editor == marked(before, middle + after, Seq::empty(), false),
{
    law_the_editing_keys(ctrl, typed);
    let none = Seq::<char>::empty();
    assert(before + middle.push(c) + after =~= before + middle + (seq![c] + after));
    assert(before + (seq![c] + middle) + after =~= before.push(c) + middle + after);
    assert(none + (before + middle) + after =~= before + middle + after);
    assert(before + (middle + after) + none =~= before + middle + after);
}

/// With Shift held, Up and Down select the whole text and leave the list alone.
pub proof fn law_shift_with_up_or_down_selects_everything(
    v: ClientView,
    ctrl: bool,
    typed: Option<char>,
)
    ensures
        ({
            let all = marked(Seq::empty(), v.editor.text, Seq::empty(), false);
            let up = pressed(v, 103, ctrl, true, typed);
            let down = pressed(v, 108, ctrl, true, typed);
            &&& up.editor == all && down.editor == all
            &&& up.pending_action == v.pending_action && down.pending_action == v.pending_action
        }),
{
    law_the_editing_keys(ctrl, typed);
    let none = Seq::<char>::empty();
    assert(none + v.editor.text + none =~= v.editor.text);
}

/// A key that means nothing, and Tab, change nothing at all.
pub proof fn law_some_keys_do_nothing(
    v: ClientView,
    code: u32,
    ctrl: bool,
    shift: bool,
    typed: Option<char>,
)
    ensures
        keys::meaning(code, ctrl, typed) == KeyAction::Nothing ==> pressed(
            v,
            code,
            ctrl,
            shift,
            typed,
        ) == v,
        pressed(v, 15, ctrl, shift, typed) == v,
{
    law_the_editing_keys(ctrl, typed);
}

/// Whatever changes the text, the caret or the selection asks for the window to be
/// drawn anew, and leaves all but the input as it was.
pub proof fn law_a_change_is_drawn(
    v: ClientView,
    code: u32,
    ctrl: bool,
    shift: bool,
    typed: Option<char>,
)
    requires
        v.editor.wf(),
        v.editor.anchor is None,
        code != 1,
    ensures
        ({
            let w = pressed(v, code, ctrl, shift, typed);
            &&& w.editor != v.editor ==> w.input_changed
            &&& v.input_changed ==> w.input_changed
            &&& w.clipboard == v.clipboard && w.socket == v.socket && w.pointer == v.pointer
            &&& w.key_repeat == v.key_repeat && w.present == v.present
        }),
{
}

} // verus!
