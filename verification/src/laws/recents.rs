//! What the recent names of the cache come to.
use vstd::prelude::*;
use vstd::utf8::*;

use crate::cache;
use crate::desktop::DesktopEntry;

verus! {

/// Whether some application has a name.
pub open spec fn installed(entries: Seq<DesktopEntry>, name: Seq<char>) -> bool {
    exists|i: int| 0 <= i < entries.len() && (#[trigger] entries[i]).name@ == name
}

/// The names of the applications at some positions.
pub open spec fn names_at(entries: Seq<DesktopEntry>, at: Seq<int>) -> Seq<Seq<char>> {
    Seq::new(at.len(), |k: int| entries[at[k]].name@)
}

/// A name is looked up to the first application that has exactly it, and to none
/// where no application does.
pub proof fn law_a_name_is_found_where_it_is(entries: Seq<DesktopEntry>, name: Seq<char>)
    ensures
        ({
            let at = cache::entry_named(entries, name);
            &&& installed(entries, name) ==> 0 <= at < entries.len() && entries[at].name@ == name
            &&& !installed(entries, name) ==> at == entries.len()
            &&& forall|i: int| 0 <= i < at ==> (#[trigger] entries[i]).name@ != name
        }),
    decreases entries.len(),
{
    if entries.len() > 0 && entries[0].name@ != name {
        let rest = entries.drop_first();
        law_a_name_is_found_where_it_is(rest, name);
        if installed(entries, name) {
            let i = choose|i: int| 0 <= i < entries.len() && (#[trigger] entries[i]).name@ == name;
            assert(rest[i - 1].name@ == name);
        }
        if installed(rest, name) {
            let i = choose|i: int| 0 <= i < rest.len() && (#[trigger] rest[i]).name@ == name;
            assert(entries[i + 1].name@ == name);
        }
        let at = cache::entry_named(entries, name);
        assert forall|i: int| 0 <= i < at implies (#[trigger] entries[i]).name@ != name by {
            if i > 0 {
                assert(rest[i - 1] == entries[i]);
            }
        }
    } else if entries.len() > 0 {
        assert(installed(entries, name));
    }
}

/// The recent applications have the recent names that are still installed, all
/// of them and in their order, as far as the list goes; each is the first
/// application of its name.
pub proof fn law_recents_resolve_to_their_names(
    recents: Seq<Seq<char>>,
    entries: Seq<DesktopEntry>,
)
    ensures
        ({
            let still = recents.filter(|name: Seq<char>| installed(entries, name));
            let at = cache::resolved(recents, entries);
            let n = if still.len() < 32 {
                still.len() as int
            } else {
                32
            };
            &&& names_at(entries, at) == still.take(n)
            &&& forall|k: int| 0 <= k < at.len() ==> 0 <= #[trigger] at[k] < entries.len()
            &&& forall|k: int| 0 <= k < at.len() ==> recents.contains(#[trigger] names_at(entries, at)[k])
            &&& forall|k: int, i: int|
                0 <= k < at.len() && 0 <= i < at[k] ==> (#[trigger] entries[i]).name@
                    != entries[#[trigger] at[k]].name@
        }),
    decreases recents.len(),
{
    reveal(Seq::filter);
    let keep = |name: Seq<char>| installed(entries, name);
    let still = recents.filter(keep);
    let at = cache::resolved(recents, entries);
    if recents.len() == 0 {
        assert(names_at(entries, at) =~= still.take(0));
    } else {
        let less = recents.drop_last();
        let last = recents.last();
        law_recents_resolve_to_their_names(less, entries);
        law_a_name_is_found_where_it_is(entries, last);
        let before = cache::resolved(less, entries);
        let kept = less.filter(keep);
        let m = if kept.len() < 32 {
            kept.len() as int
        } else {
            32
        };
        assert(names_at(entries, before) == kept.take(m));
        assert(names_at(entries, before).len() == before.len());
        assert(before.len() == m);
        let n = if still.len() < 32 {
            still.len() as int
        } else {
            32
        };
        if installed(entries, last) {
            assert(keep(last));
            assert(still == kept.push(last));
        } else {
            assert(!keep(last));
            assert(still == kept);
        }
        assert forall|k: int| 0 <= k < at.len() implies names_at(entries, at)[k] == still.take(
            n,
        )[k] by {
            if k < before.len() {
                assert(names_at(entries, before)[k] == kept.take(m)[k]);
                assert(at[k] == before[k]);
            }
        }
        assert(names_at(entries, at) =~= still.take(n));
        assert forall|k: int| 0 <= k < at.len() implies recents.contains(
            #[trigger] names_at(entries, at)[k],
        ) by {
            if k < before.len() {
                assert(at[k] == before[k]);
                assert(less.contains(names_at(entries, before)[k]));
                let j = choose|j: int| 0 <= j < less.len() && less[j] == names_at(entries, before)[k];
                assert(recents[j] == less[j]);
            } else {
                assert(recents[recents.len() - 1] == last);
            }
        }
        assert forall|k: int| 0 <= k < at.len() implies 0 <= #[trigger] at[k] < entries.len() by {
            if k < before.len() {
                assert(at[k] == before[k]);
            }
        }
        assert forall|k: int, i: int| 0 <= k < at.len() && 0 <= i < at[k] implies (
        #[trigger] entries[i]).name@ != entries[#[trigger] at[k]].name@ by {
            if k < before.len() {
                assert(at[k] == before[k]);
            }
        }
    }
}

proof fn lemma_position(before: Seq<Seq<char>>, name: Seq<char>, after: Seq<Seq<char>>)
    requires
        !before.contains(name),
    ensures
        cache::position_of(before + seq![name] + after, name) == before.len(),
        cache::position_of(before, name) == before.len(),
    decreases before.len(),
{
    let all = before + seq![name] + after;
    if before.len() == 0 {
        assert(all[0] == name);
    } else {
        let less = before.drop_first();
        assert(before.contains(before[0]));
        assert(!less.contains(name)) by {
            if less.contains(name) {
                let i = choose|i: int| 0 <= i < less.len() && less[i] == name;
                assert(before[i + 1] == name);
            }
        }
        lemma_position(less, name, after);
        assert(all.drop_first() =~= less + seq![name] + after);
        assert(all[0] == before[0]);
    }
}

/// The first names of a list, as many as are remembered.
pub open spec fn remembered(names: Seq<Seq<char>>) -> Seq<Seq<char>> {
    if names.len() <= 20 {
        names
    } else {
        names.take(20)
    }
}

/// A launch is remembered at the front: its name moves there from where it was,
/// or comes in before all the others, which keep their order, and the oldest
/// goes when there are too many. A name too long to keep is only forgotten.
pub proof fn law_a_launch_is_remembered_first(
    before: Seq<Seq<char>>,
    name: Seq<char>,
    after: Seq<Seq<char>>,
)
    requires
        !before.contains(name),
        before.len() + 1 + after.len() <= 20,
    ensures
        encode_utf8(name).len() <= 256 ==> {
            &&& cache::recorded(before + seq![name] + after, name) == remembered(
                seq![name] + before + after,
            )
            &&& cache::recorded(before, name) == remembered(seq![name] + before)
        },
        encode_utf8(name).len() > 256 ==> {
            &&& cache::recorded(before + seq![name] + after, name) == before + after
            &&& cache::recorded(before, name) == before
        },
{
    lemma_position(before, name, after);
    let all = before + seq![name] + after;
    assert(all.remove(before.len() as int) =~= before + after);
    assert(seq![name] + (before + after) =~= seq![name] + before + after);
}

/// With the list full, a new name takes the place of the oldest.
pub proof fn law_the_oldest_is_forgotten(names: Seq<Seq<char>>, name: Seq<char>)
    requires
        names.len() == 20,
        !names.contains(name),
        encode_utf8(name).len() <= 256,
    ensures
        cache::recorded(names, name) == remembered(seq![name] + names),
{
    lemma_position(names, name, Seq::empty());
    assert((seq![name] + names).take(20) =~= seq![name] + names.drop_last());
}

/// Of more names than are remembered the first are stored.
pub proof fn law_the_first_names_are_stored(names: Seq<Seq<char>>)
    ensures
        cache::newest_names(names) == remembered(names),
{
}

} // verus!
