use bnklaunch::editor::{run_at, Editor, INPUT_CAP};

fn editor(text: &str) -> Editor {
    let mut e = Editor::new();
    for c in text.chars() {
        assert!(e.insert(c), "insert {c}");
    }
    e
}

#[test]
fn typing_appends_and_moves_the_caret() {
    let e = editor("abc");
    assert_eq!(e.text(), "abc");
    assert_eq!(e.cursor(), 3);
    assert_eq!(e.selection(), None);
}

#[test]
fn a_full_input_refuses_the_character_and_leaves_the_caret_alone() {
    let mut e = Editor::new();
    for _ in 0..INPUT_CAP {
        assert!(e.insert('x'));
    }
    assert!(!e.insert('y'), "the text is full");
    assert_eq!(e.cursor(), INPUT_CAP, "the caret did not run past the text");
    assert_eq!(e.len(), INPUT_CAP);
    // The caret is still where the text ends, so a backspace still bites.
    e.backspace();
    assert_eq!(e.len(), INPUT_CAP - 1);
}

/// Shift+Left then Shift+Right leaves the anchor sitting on the cursor, which is
/// not a selection. If backspace left it standing, the caret it then moves would
/// be one char away from it, and that reads as a one-character selection nobody
/// made: the next keystroke would replace a character the user never selected.
#[test]
fn backspace_clears_an_anchor_that_is_not_a_selection() {
    let mut e = editor("abcd");
    e.left(true); // Shift+Left: anchor at 4, cursor 3
    e.right(true); // Shift+Right: cursor back to 4, on the anchor
    assert_eq!(
        e.selection(),
        None,
        "an anchor on the cursor is no selection"
    );

    e.backspace(); // deletes 'd'
    assert_eq!(e.text(), "abc");
    assert_eq!(e.selection(), None, "no phantom selection is left behind");

    e.insert('x');
    assert_eq!(e.text(), "abcx", "typing did not eat a second character");
}

#[test]
fn delete_clears_an_anchor_that_is_not_a_selection() {
    let mut e = editor("abcd");
    e.home(false);
    e.right(true);
    e.left(true); // anchor and cursor both at 0
    e.delete(); // deletes 'a'
    assert_eq!(e.text(), "bcd");
    e.insert('x');
    assert_eq!(e.text(), "xbcd");
}

#[test]
fn backspace_and_delete_take_the_selection_when_there_is_one() {
    let mut e = editor("abcd");
    e.home(false);
    e.right(true);
    e.right(true); // "ab" selected
    e.backspace();
    assert_eq!(e.text(), "cd");
    assert_eq!(e.cursor(), 0);

    let mut e = editor("abcd");
    e.select_all();
    e.delete();
    assert!(e.text().is_empty());
}

#[test]
fn a_multibyte_caret_moves_by_character_not_by_byte() {
    let mut e = editor("aéb");
    assert_eq!(e.cursor(), 3);
    e.left(false);
    e.backspace(); // deletes the 'é', which is two bytes
    assert_eq!(e.text(), "ab");
    assert_eq!(e.cursor(), 1);
    e.insert('é');
    assert_eq!(e.text(), "aéb");
}

#[test]
fn selection_extends_and_collapses() {
    let mut e = editor("hello");
    e.home(false);
    e.right(true);
    e.right(true);
    assert_eq!(e.selection(), Some((0, 2)));
    assert_eq!(e.selected_text().expect("selected").as_str(), "he");

    // Left without shift collapses to the start rather than stepping back.
    e.left(false);
    assert_eq!(e.selection(), None);
    assert_eq!(e.cursor(), 0);

    e.end(true);
    assert_eq!(e.selection(), Some((0, 5)));
    // Right without shift collapses to the end.
    e.right(false);
    assert_eq!(e.cursor(), 5);
    assert_eq!(e.selection(), None);
}

#[test]
fn typing_over_a_selection_replaces_it() {
    let mut e = editor("abcd");
    e.select_all();
    e.insert('x');
    assert_eq!(e.text(), "x");
    assert_eq!(e.cursor(), 1);
}

#[test]
fn paste_replaces_the_selection() {
    let mut e = editor("abcd");
    e.home(false);
    e.right(true);
    e.right(true);
    assert!(e.paste("XY"));
    assert_eq!(e.text(), "XYcd");
    assert_eq!(e.cursor(), 2);
}

/// A paste is all or nothing. Deleting the selection first and then finding the
/// text does not fit would leave the user with neither what they had nor what
/// they pasted.
#[test]
fn a_paste_that_does_not_fit_changes_nothing() {
    let mut e = editor("abc");
    e.select_all();
    let huge = "x".repeat(INPUT_CAP + 1);
    assert!(!e.paste(&huge));
    assert_eq!(e.text(), "abc", "the selection survives");
    assert_eq!(e.selection(), Some((0, 3)), "and is still selected");
}

#[test]
fn a_paste_that_exactly_fills_the_input_is_accepted() {
    let mut e = editor("ab");
    e.select_all();
    let exact = "x".repeat(INPUT_CAP);
    assert!(e.paste(&exact));
    assert_eq!(e.len(), INPUT_CAP);
}

#[test]
fn a_double_click_selects_the_word_under_it() {
    let mut e = editor("hello wide world");
    e.click(7, 2); // inside "wide"
    assert_eq!(e.selection(), Some((6, 10)));
    assert_eq!(e.selected_text().expect("selected").as_str(), "wide");
}

#[test]
fn a_triple_click_selects_everything() {
    let mut e = editor("hello world");
    e.click(3, 3);
    assert_eq!(e.selection(), Some((0, 11)));
}

#[test]
fn a_single_click_places_the_caret_and_clears_the_selection() {
    let mut e = editor("hello");
    e.select_all();
    e.click(2, 1);
    assert_eq!(e.cursor(), 2);
    assert_eq!(e.selection(), None);
    // A click past the end lands at the end.
    e.click(99, 1);
    assert_eq!(e.cursor(), 5);
}

#[test]
fn a_drag_extends_from_where_it_began() {
    let mut e = editor("hello");
    e.click(1, 1);
    e.drag(4);
    assert_eq!(e.selection(), Some((1, 4)));
    assert_eq!(e.selected_text().expect("selected").as_str(), "ell");
    // Dragging back across the start flips the selection's direction.
    e.drag(0);
    assert_eq!(e.selection(), Some((0, 1)));
}

#[test]
fn escape_style_clear_resets_everything() {
    let mut e = editor("abc");
    e.select_all();
    e.clear();
    assert!(e.text().is_empty());
    assert_eq!(e.cursor(), 0);
    assert_eq!(e.selection(), None);
}

#[test]
fn words_go_by_letters_and_digits_of_any_script() {
    let mut e = editor("été_9 -- Ω3");
    e.click(1, 2);
    assert_eq!(e.selected_text().expect("selected").as_str(), "été_9");
    e.click(10, 2);
    assert_eq!(e.selected_text().expect("selected").as_str(), "Ω3");
    assert_eq!(run_at(&[true, true, false, true], 1), (0, 2));
    assert_eq!(run_at(&[true, true, false, true], 3), (3, 4));
}

#[test]
fn editing_steps_undo_each_other() {
    let mut e = editor("abcd");
    e.left(false);
    e.left(false);
    assert!(e.insert('x'));
    e.backspace();
    assert_eq!((e.text(), e.cursor()), ("abcd", 2));
    e.delete();
    assert_eq!(e.text(), "abd");
    assert!(e.insert('c'));
    assert_eq!((e.text(), e.cursor()), ("abcd", 3));
    e.left(false);
    e.right(false);
    assert_eq!(e.cursor(), 3);

    // A cut and a paste put back what was there.
    e.home(false);
    e.right(true);
    e.right(true);
    let cut = e.selected_text().expect("selected");
    assert!(e.delete_selection());
    assert!(!e.delete_selection());
    assert_eq!(e.text(), "cd");
    assert!(e.paste(cut.as_str()));
    assert_eq!(e.text(), "abcd");
}
