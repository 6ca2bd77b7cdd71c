//! What is listed, picked and run for what was typed.
use vstd::prelude::*;

use crate::action;
use crate::action::ActionView;
use crate::app;
use crate::app::Launch;
use crate::cache;
use crate::client::{ClientView, PendingAction};
use crate::desktop;
use crate::desktop::DesktopEntry;
use crate::launch;
use crate::laws::keyboard;
use crate::laws::recents;
use crate::laws::search;
use crate::ui;

verus! {

/// With nothing typed the recent applications are listed, by their names and in
/// their order; with a prefix no application is.
pub proof fn law_an_empty_input_lists_the_recents(
    input: Seq<char>,
    enabled: bool,
    entries: Seq<DesktopEntry>,
    latest: Seq<Seq<char>>,
    rows: Seq<DesktopEntry>,
    k: int,
)
    requires
        app::lists(input, enabled, entries, latest, rows),
        latest.len() <= 32,
    ensures
        input.len() == 0 ==> ({
            let still = latest.filter(|name: Seq<char>| recents::installed(entries, name));
            &&& rows.len() == still.len()
            &&& 0 <= k < rows.len() ==> rows[k].name@ == still[k] && entries.contains(rows[k])
        }),
        !(action::action_of(input, enabled) is AppSearch) ==> rows.len() == 0,
{
    reveal_strlit("s:");
    reveal_strlit("u:");
    if input.len() == 0 {
        let still = latest.filter(|name: Seq<char>| recents::installed(entries, name));
        recents::law_recents_resolve_to_their_names(latest, entries);
        latest.lemma_filter_len(|name: Seq<char>| recents::installed(entries, name));
        let at = cache::resolved(latest, entries);
        let names = recents::names_at(entries, at);
        assert(still.take(still.len() as int) =~= still);
        assert(names == still);
        assert(names.len() == at.len());
        if 0 <= k < rows.len() {
            assert(rows[k] == entries[at[k]]);
            assert(names[k] == entries[at[k]].name@);
        }
    }
}

/// Typed text lists the applications whose names have it, in the order they
/// belong, each once and all of them as long as there is room.
pub proof fn law_typed_text_lists_the_names_that_have_it(
    input: Seq<char>,
    entries: Seq<DesktopEntry>,
    latest: Seq<Seq<char>>,
    rows: Seq<DesktopEntry>,
    k: int,
    l: int,
    i: int,
)
    requires
        action::action_of(input, false) is AppSearch,
        input.len() > 0,
        app::lists(input, false, entries, latest, rows),
        0 <= k < l < rows.len(),
        0 <= i < entries.len() <= 1024,
    ensures
        rows.len() <= 32,
        ({
            let q = desktop::search_key(input);
            let (a, b) = (desktop::search_key(rows[k].name@), desktop::search_key(rows[l].name@));
            &&& search::holds(a, q) && search::holds(b, q)
            &&& b == q && q.len() > 0 ==> a == q
            &&& search::begins(b, q) ==> search::begins(a, q)
            &&& entries.contains(rows[k])
            &&& search::holds(desktop::search_key(entries[i].name@), q) && rows.len() < 32
                ==> rows.contains(entries[i])
        }),
{
    let top = choose|top: Seq<int>|
        #[trigger] desktop::is_top(entries, input, desktop::matching(entries, input), top, 32)
            && rows == app::entries_at(entries, top);
    search::law_results_are_listed_in_order(entries, input, top, k, l);
    search::law_a_search_leaves_out_only_what_belongs_later(entries, input, top, i, k);
    assert(rows[k] == entries[top[k]]);
    assert(rows[l] == entries[top[l]]);
    if top.contains(i) {
        let m = choose|m: int| 0 <= m < top.len() && top[m] == i;
        assert(rows[m] == entries[i]);
    }
}

/// What a launch runs: the application of the row that is selected, by its
/// command's arguments and nothing else.
pub proof fn law_a_launch_runs_the_selected_row(
    input: Seq<char>,
    search_url: Option<Seq<char>>,
    entries: Seq<DesktopEntry>,
    latest: Seq<Seq<char>>,
    selected: int,
    r: Launch<'_>,
)
    requires
        action::action_of(input, search_url is Some) is AppSearch,
        0 <= selected,
        app::launches(
            input,
            search_url is Some,
            search_url,
            entries,
            latest,
            selected,
            r,
        ),
    ensures
        r is App || r is Nothing,
        r matches Launch::App(c, e) ==> exists|rows: Seq<DesktopEntry>| #[trigger]
            app::lists(input, search_url is Some, entries, latest, rows) && selected < rows.len()
                && rows[selected] == *e && desktop::strings(c@).len() == desktop::exec_args(
                e.exec@,
            ).len() && forall|i: int|
                0 <= i < desktop::strings(c@).len() ==> #[trigger] desktop::strings(c@)[i]
                    == desktop::exec_args(e.exec@)[i] + seq!['\0'],
{
    if let Launch::App(c, e) = r {
        let rows = choose|rows: Seq<DesktopEntry>|
            #[trigger] app::lists(input, search_url is Some, entries, latest, rows)
                && if selected < rows.len() && app::runs(rows[selected]) {
                r matches Launch::App(c, e) && *e == rows[selected] && app::starts(c, *e)
            } else {
                r is Nothing
            };
        let args = desktop::exec_args(e.exec@);
        assert forall|i: int| 0 <= i < desktop::strings(c@).len() implies
            #[trigger] desktop::strings(c@)[i] == args[i] + seq!['\0'] by {
            assert(args[i].push('\0') =~= args[i] + seq!['\0']);
        }
    }
}

/// What a launch opens for a prefix: the URL with its scheme, or the search for
/// the query; with no text behind the prefix, nothing.
pub proof fn law_a_launch_opens_what_a_prefix_names(
    input: Seq<char>,
    search_url: Option<Seq<char>>,
    entries: Seq<DesktopEntry>,
    latest: Seq<Seq<char>>,
    selected: int,
    r: Launch<'_>,
)
    requires
        app::launches(
            input,
            search_url is Some,
            search_url,
            entries,
            latest,
            selected,
            r,
        ),
    ensures
        match action::action_of(input, search_url is Some) {
            ActionView::OpenUrl(u) => {
                &&& u.len() == 0 ==> r is Nothing
                &&& u.len() > 0 ==> (r matches Launch::Url(c) && launch::opens(
                    action::normalized(Seq::empty(), u),
                    c,
                ))
            },
            ActionView::Search(q) => {
                &&& q.len() == 0 ==> r is Nothing
                &&& q.len() > 0 && search_url is Some ==> (r matches Launch::Search(c)
                    && launch::searches(search_url->0, q, c))
            },
            ActionView::AppSearch(_) => true,
        },
{
}

/// A click on a row ends on a launch and leaves the text; a click in the input
/// puts the caret there; any other click does neither. A click is acted on once.
pub proof fn law_a_click_does_one_thing(
    v: ClientView,
    total_rows: int,
    off: int,
    word: (int, int),
    row: int,
)
    requires
        v.pointer.clicked,
        !v.pointer.dragging,
        v.pointer.click_count == 1,
        total_rows >= 0,
        0 <= off <= v.editor.text.len(),
    ensures
        ({
            let w = app::pointed(v, total_rows, off, word);
            let (x, y) = (v.pointer.x.raw, v.pointer.y.raw);
            let on_row = 0 <= row < total_rows && row < 5 && 0 <= x < 800 * 256 && (54 + 50 * row)
                * 256 <= y < (104 + 50 * row) * 256;
            let in_input = 15 * 256 <= x < 800 * 256 && 0 <= y < 54 * 256;
            &&& !w.pointer.clicked
            &&& on_row ==> w.pending_action == PendingAction::Launch && !w.running && w.editor
                == v.editor
            &&& in_input ==> w.editor == keyboard::at_caret(
                v.editor.text.take(off),
                v.editor.text.skip(off),
            ) && w.running == v.running && w.pending_action == v.pending_action
            &&& y < 0 || x < 0 || x >= 800 * 256 ==> w.editor == v.editor && w.running == v.running
                && w.pending_action == v.pending_action
        }),
{
    let w = app::pointed(v, total_rows, off, word);
    let (x, y) = (v.pointer.x.raw, v.pointer.y.raw);
    if 0 <= row < total_rows && row < 5 && 0 <= x < 800 * 256 && (54 + 50 * row) * 256 <= y < (104
        + 50 * row) * 256 {
        assert(ui::row_under(v.pointer.x, v.pointer.y, total_rows) == Some(row));
    }
    assert(v.editor.text.take(off) + v.editor.text.skip(off) =~= v.editor.text);
}

/// An application runs where its line comes apart into one argument or more, and
/// does not where there is none to name the program.
pub proof fn law_a_line_with_a_program_runs(e: DesktopEntry, program: Seq<char>, rest: Seq<Seq<char>>)
    ensures
        launch::tokenizes(e.exec@) && desktop::exec_args(e.exec@) == seq![program] + rest
            ==> app::runs(e),
        desktop::exec_args(e.exec@) == Seq::<Seq<char>>::empty() ==> !app::runs(e),
        !launch::tokenizes(e.exec@) ==> !app::runs(e),
{
    if desktop::exec_args(e.exec@) == seq![program] + rest {
        assert((seq![program] + rest).len() >= 1);
    }
}

} // verus!
