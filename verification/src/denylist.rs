//! Removing user-hidden applications from results.
//!
//! The hidden names come from the config file. They are applied when results are
//! presented, so an edit takes effect on the next launch without invalidating
//! the desktop entry cache.
use vstd::prelude::*;

use crate::desktop;
use crate::desktop::{Catalog, DesktopEntry, NAME_CAP};
use crate::platform::arena::ArrayString;
use crate::platform::text::str_eq;

verus! {

/// Whether a list of names leaves an entry visible.
pub open spec fn visible(deny: Seq<Seq<char>>) -> spec_fn(DesktopEntry) -> bool {
    |e: DesktopEntry| !deny.contains(e.name@)
}

/// Whether a name is on the list.
fn is_denied(name: &str, deny: &[ArrayString<NAME_CAP>]) -> (r: bool)
    requires
        desktop::all_wf(deny@),
    ensures
        r == desktop::strings(deny@).contains(name@),
{
    let mut i: usize = 0;
    while i < deny.len()
        invariant
            i <= deny@.len(),
            desktop::all_wf(deny@),
            forall|j: int| 0 <= j < i ==> desktop::strings(deny@)[j] != name@,
        decreases deny.len() - i,
    {
        if str_eq(deny[i].as_str(), name) {
            assert(desktop::strings(deny@)[i as int] == name@);
            return true;
        }
        i += 1;
    }
    false
}

/// Drop entries whose name is in deny (in place, preserving order of the rest).
pub fn apply(entries: &mut Catalog, deny: &[ArrayString<NAME_CAP>])
    requires
        old(entries).wf(),
        desktop::entries_wf(old(entries)@),
        desktop::all_wf(deny@),
    ensures
        final(entries).wf(),
        desktop::entries_wf(final(entries)@),
        final(entries)@ == old(entries)@.filter(visible(desktop::strings(deny@))),
{
    let ghost all = entries@;
    let ghost keep = visible(desktop::strings(deny@));
    let ghost mut n: int = 0;
    let mut i: usize = 0;
    reveal(Seq::filter);
    assert(all.take(0).filter(keep) == Seq::<DesktopEntry>::empty());
    assert(all.skip(0) == all);
    while i < entries.len()
        invariant
            entries.wf(),
            desktop::entries_wf(entries@),
            desktop::all_wf(deny@),
            keep == visible(desktop::strings(deny@)),
            i <= entries@.len(),
            0 <= n <= all.len(),
            i == all.take(n).filter(keep).len(),
            entries@ == all.take(n).filter(keep) + all.skip(n),
        decreases entries@.len() - i,
    {
        reveal(Seq::filter);
        let ghost before = entries@;
        assert(all.skip(n)[0] == before[i as int]);
        assert(all.take(n + 1).drop_last() == all.take(n));
        assert(all.take(n + 1).last() == all[n]);
        assert(all.skip(n).drop_first() == all.skip(n + 1));
        assert(desktop::entries_wf(entries@));
        let name = entries.as_slice()[i].name.as_str();
        if is_denied(name, deny) {
            entries.remove(i);
            assert(entries@ == all.take(n).filter(keep) + all.skip(n + 1));
        } else {
            i += 1;
            assert(all.take(n + 1).filter(keep) == all.take(n).filter(keep).push(all[n]));
            assert(entries@ == all.take(n + 1).filter(keep) + all.skip(n + 1));
        }
        proof {
            n = n + 1;
        }
    }
    assert(all.skip(n).len() == 0);
    assert(all.take(n) == all);
}

/// What is left holds no hidden name, and everything that was not hidden.
pub proof fn law_hidden_names_are_gone(entries: Seq<DesktopEntry>, deny: Seq<Seq<char>>)
    ensures
        forall|i: int|
            0 <= i < entries.filter(visible(deny)).len() ==> !deny.contains(
                (#[trigger] entries.filter(visible(deny))[i]).name@,
            ),
        forall|e: DesktopEntry|
            entries.contains(e) && !deny.contains(e.name@) ==> #[trigger] entries.filter(
                visible(deny),
            ).contains(e),
        deny.len() == 0 ==> entries.filter(visible(deny)) == entries,
{
    broadcast use vstd::seq_lib::group_filter_ensures;

    assert forall|i: int| 0 <= i < entries.filter(visible(deny)).len() implies !deny.contains(
        (#[trigger] entries.filter(visible(deny))[i]).name@,
    ) by {
        let e = entries.filter(visible(deny))[i];
        assert(visible(deny)(e));
    }
    assert forall|e: DesktopEntry| entries.contains(e) && !deny.contains(e.name@) implies
        #[trigger] entries.filter(visible(deny)).contains(e) by {
        assert(visible(deny)(e));
        let i = choose|i: int| 0 <= i < entries.len() && entries[i] == e;
        assert(entries.filter(visible(deny)).contains(entries[i]));
    }
    if deny.len() == 0 {
        lemma_all_visible(entries, deny);
    }
}

proof fn lemma_all_visible(entries: Seq<DesktopEntry>, deny: Seq<Seq<char>>)
    requires
        deny.len() == 0,
    ensures
        entries.filter(visible(deny)) == entries,
    decreases entries.len(),
{
    reveal(Seq::filter);
    if entries.len() > 0 {
        lemma_all_visible(entries.drop_last(), deny);
        assert(visible(deny)(entries.last()));
        assert(entries.drop_last().push(entries.last()) == entries);
    }
}

} // verus!
