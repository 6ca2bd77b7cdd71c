//! What a search lists, and in what order.
use vstd::prelude::*;
use vstd::utf8::*;

use crate::desktop;
use crate::desktop::DesktopEntry;
use crate::laws::strings;
use crate::platform::text;

verus! {

/// A text comes before another by the first byte that differs, or because the
/// other goes on from it.
pub open spec fn bytes_before(a: Seq<char>, b: Seq<char>) -> bool {
    let (x, y) = (encode_utf8(a), encode_utf8(b));
    exists|k: int|
        0 <= k <= x.len() && k < y.len() && #[trigger] x.take(k) == y.take(k) && (k == x.len()
            || x[k] < y[k])
}

/// A text begins with another.
pub open spec fn begins(s: Seq<char>, q: Seq<char>) -> bool {
    exists|rest: Seq<char>| s == #[trigger] (q + rest)
}

/// A text has another somewhere in it.
pub open spec fn holds(s: Seq<char>, q: Seq<char>) -> bool {
    exists|x: Seq<char>, y: Seq<char>| s == #[trigger] (x + q + y)
}

/// How many characters of a name count towards its place.
pub open spec fn counted(name: Seq<char>) -> int {
    if name.len() < 50 {
        name.len() as int
    } else {
        50
    }
}

/// What search compares is the lowercase, whole where it fits in 256 bytes, and
/// otherwise as many characters of it as fit.
pub proof fn law_search_compares_the_lowercase(s: Seq<char>)
    ensures
        ({
            let low = text::lower(s);
            let key = desktop::search_key(s);
            &&& encode_utf8(low).len() <= 256 ==> key == low
            &&& encode_utf8(key).len() <= 256
            &&& begins(low, key)
            &&& key.len() < low.len() ==> encode_utf8(key.push(low[key.len() as int])).len() > 256
        }),
{
    let low = text::lower(s);
    let none = Seq::<char>::empty();
    text::lemma_byte_len_bounds(none);
    strings::law_filling_takes_what_fits(none, low, 256);
    let k = choose|k: int|
        0 <= k <= low.len() && text::filled(none, low, 256) == none + #[trigger] low.take(k)
            && encode_utf8(none + low.take(k)).len() <= 256 && (k < low.len() ==> encode_utf8(
            (none + low.take(k)).push(low[k]),
        ).len() > 256);
    assert(none + low.take(k) =~= low.take(k));
    assert(low =~= low.take(k) + low.skip(k));
    if encode_utf8(low).len() <= 256 && k < low.len() {
        assert(low =~= low.take(k).push(low[k]) + low.skip(k + 1));
        text::lemma_encode_concat(low.take(k).push(low[k]), low.skip(k + 1));
    }
    assert(low.take(low.len() as int) =~= low);
}

/// The score of a lowercased name against a lowercased query: highest where they
/// are the same, then where the name begins with the query, then where it has
/// the query inside, each by how few characters the name has; nothing where it
/// has it nowhere.
pub proof fn law_the_score_of_a_name(name: Seq<char>, chars: nat, query: Seq<char>)
    requires
        query.len() > 0,
    ensures
        ({
            let r = desktop::rank(name, chars, query);
            let less = if chars < 50 {
                chars as int
            } else {
                50
            };
            &&& name == query ==> r == 300
            &&& name != query && begins(name, query) ==> r == 200 - less
            &&& !begins(name, query) && holds(name, query) ==> r == 100 - less
            &&& !holds(name, query) ==> r == 0
        }),
{
    strings::law_prefixes_and_substrings(name, query);
    if begins(name, query) {
        let rest = choose|rest: Seq<char>| name == #[trigger] (query + rest);
        assert(name =~= Seq::<char>::empty() + query + rest);
    }
    if name == query {
        assert(name =~= query + Seq::<char>::empty());
    }
}

/// Two applications stand in a list in the right order: one that is named the
/// query comes before those that are not, one whose name begins with it before
/// those that only have it inside, then the shorter name, then the one whose
/// name sorts first, then the one that is first in the catalog.
pub open spec fn in_order(
    entries: Seq<DesktopEntry>,
    query: Seq<char>,
    i: int,
    j: int,
) -> bool {
    let q = desktop::search_key(query);
    let (a, b) = (desktop::search_key(entries[i].name@), desktop::search_key(entries[j].name@));
    let (m, n) = (counted(entries[i].name@), counted(entries[j].name@));
    &&& desktop::query_rank(entries[i].name@, query) >= desktop::query_rank(
        entries[j].name@,
        query,
    )
    &&& holds(a, q)
    &&& holds(b, q)
    &&& b == q && q.len() > 0 ==> a == q
    &&& begins(b, q) ==> begins(a, q)
    &&& a != q && (begins(a, q) ==> begins(b, q)) && q.len() > 0 ==> m <= n
    &&& a != q && (begins(a, q) ==> begins(b, q)) && (m == n || q.len() == 0) ==> !bytes_before(
        b,
        a,
    )
    &&& a == b && (m == n || a == q || q.len() == 0) ==> i < j
}

proof fn lemma_bytes_before(a: Seq<char>, b: Seq<char>)
    ensures
        text::sorts_before(encode_utf8(a), encode_utf8(b)) == bytes_before(a, b),
{
    let (x, y) = (encode_utf8(a), encode_utf8(b));
    strings::law_bytes_sort_by_the_first_difference(x, y);
    if text::sorts_before(x, y) {
        let k = choose|k: int|
            0 <= k <= x.len() && k < y.len() && #[trigger] x.take(k) =~= y.take(k) && (k == x.len()
                || x[k] < y[k]);
        assert(x.take(k) == y.take(k));
    }
}

proof fn lemma_in_order(entries: Seq<DesktopEntry>, query: Seq<char>, i: int, j: int)
    requires
        desktop::listed_before(entries, query, i, j),
        desktop::query_rank(entries[i].name@, query) > 0,
        desktop::query_rank(entries[j].name@, query) > 0,
    ensures
        in_order(entries, query, i, j),
{
    let q = desktop::search_key(query);
    let (x, y) = (entries[i], entries[j]);
    let (a, b) = (desktop::search_key(x.name@), desktop::search_key(y.name@));
    let (p, r) = (encode_utf8(a), encode_utf8(b));
    lemma_bytes_before(a, b);
    lemma_bytes_before(b, a);
    text::lemma_sorts_before_irreflexive(p);
    if text::sorts_before(p, r) && text::sorts_before(r, p) {
        text::lemma_sorts_before_transitive(p, r, p);
    }
    if q.len() > 0 {
        law_the_score_of_a_name(a, x.name@.len(), q);
        law_the_score_of_a_name(b, y.name@.len(), q);
        if begins(b, q) {
            assert(begins(a, q)) by {
                if a == q {
                    assert(a =~= q + Seq::<char>::empty());
                }
            }
        }
        if a == q {
            assert(a =~= q + Seq::<char>::empty());
        }
        if b == q {
            assert(b =~= q + Seq::<char>::empty());
        }
    } else {
        let none = Seq::<char>::empty();
        assert(a =~= none + q + a);
        assert(b =~= none + q + b);
        assert(a =~= q + a);
        assert(b =~= q + b);
    }
}

/// Whatever two results a search lists, the one listed first is the one that
/// belongs first.
pub proof fn law_results_are_listed_in_order(
    entries: Seq<DesktopEntry>,
    query: Seq<char>,
    top: Seq<int>,
    k: int,
    l: int,
)
    requires
        desktop::is_top(entries, query, desktop::matching(entries, query), top, 32),
        0 <= k < l < top.len(),
    ensures
        in_order(entries, query, top[k], top[l]),
{
    desktop::lemma_matching_bounds(entries, query);
    let all = desktop::matching(entries, query);
    assert(all.contains(top[k]));
    assert(all.contains(top[l]));
    lemma_in_order(entries, query, top[k], top[l]);
}

proof fn lemma_matching_complete(entries: Seq<DesktopEntry>, query: Seq<char>, i: int)
    requires
        entries.len() <= desktop::MAX_ENTRIES,
        0 <= i < entries.len(),
        desktop::query_rank(entries[i].name@, query) > 0,
    ensures
        desktop::matching(entries, query).contains(i),
        desktop::matching(entries, query).len() <= entries.len(),
    decreases entries.len(),
{
    let less = entries.drop_last();
    let before = desktop::matching(less, query);
    lemma_matching_few(less, query);
    lemma_matching_few(entries, query);
    if i == entries.len() - 1 {
        let all = desktop::matching(entries, query);
        assert(entries.last() == entries[i]);
        assert(all[before.len() as int] == i);
    } else {
        assert(less[i] == entries[i]);
        lemma_matching_complete(less, query, i);
        let at = choose|at: int| 0 <= at < before.len() && before[at] == i;
        let all = desktop::matching(entries, query);
        assert(all[at] == i);
    }
}

proof fn lemma_matching_few(entries: Seq<DesktopEntry>, query: Seq<char>)
    ensures
        desktop::matching(entries, query).len() <= entries.len(),
    decreases entries.len(),
{
    if entries.len() > 0 {
        lemma_matching_few(entries.drop_last(), query);
    }
}

/// A search lists no application twice and none that lacks the query, and leaves
/// out one that has it only when the list is full of others that belong first.
pub proof fn law_a_search_leaves_out_only_what_belongs_later(
    entries: Seq<DesktopEntry>,
    query: Seq<char>,
    top: Seq<int>,
    i: int,
    k: int,
)
    requires
        desktop::is_top(entries, query, desktop::matching(entries, query), top, 32),
        entries.len() <= 1024,
        0 <= i < entries.len(),
        0 <= k < top.len(),
    ensures
        0 <= top[k] < entries.len(),
        holds(desktop::search_key(entries[top[k]].name@), desktop::search_key(query)),
        top.no_duplicates(),
        holds(desktop::search_key(entries[i].name@), desktop::search_key(query)) && !top.contains(
            i,
        ) ==> top.len() == 32 && in_order(entries, query, top[k], i),
{
    desktop::lemma_matching_bounds(entries, query);
    let all = desktop::matching(entries, query);
    let q = desktop::search_key(query);
    assert(all.contains(top[k]));
    let e = entries[top[k]];
    let a = desktop::search_key(e.name@);
    if q.len() > 0 {
        law_the_score_of_a_name(a, e.name@.len(), q);
    } else {
        assert(a =~= Seq::<char>::empty() + q + a);
    }
    assert forall|x: int, y: int| 0 <= x < top.len() && 0 <= y < top.len() && x != y implies top[x]
        != top[y] by {
        if x < y {
            desktop::lemma_listed_before_total(entries, query, top[x], top[y]);
            assert(desktop::listed_before(entries, query, top[x], top[y]));
        } else {
            desktop::lemma_listed_before_total(entries, query, top[y], top[x]);
            assert(desktop::listed_before(entries, query, top[y], top[x]));
        }
    }
    if holds(desktop::search_key(entries[i].name@), q) && !top.contains(i) {
        if q.len() > 0 {
            law_the_score_of_a_name(desktop::search_key(entries[i].name@), entries[i].name@.len(), q);
        }
        lemma_matching_complete(entries, query, i);
        assert(desktop::listed_before(entries, query, top[k], i));
        if top.len() == all.len() {
            lemma_all_listed(all, top, i);
        }
        lemma_in_order(entries, query, top[k], i);
    }
}

/// A list without repeats that is as long as the one it is taken from has all of
/// it.
proof fn lemma_all_listed(all: Seq<int>, top: Seq<int>, i: int)
    requires
        top.len() == all.len(),
        top.no_duplicates(),
        forall|k: int| 0 <= k < top.len() ==> #[trigger] all.contains(top[k]),
        all.contains(i),
    ensures
        top.contains(i),
{
    let whole = all.to_set();
    let part = top.to_set();
    assert(part.subset_of(whole)) by {
        assert forall|x: int| part.contains(x) implies whole.contains(x) by {
            let k = choose|k: int| 0 <= k < top.len() && top[k] == x;
            assert(all.contains(top[k]));
        }
    }
    top.unique_seq_to_set();
    all.lemma_cardinality_of_set();
    vstd::set_lib::lemma_len_subset(part, whole);
    if part.len() == whole.len() {
        vstd::set_lib::lemma_subset_equality(part, whole);
    }
    assert(whole.contains(i));
}

/// A name in which the query was typed, in either case, is found, and one that
/// begins with it is never listed after one that does not.
pub proof fn law_a_name_that_begins_with_the_query_comes_first(
    entries: Seq<DesktopEntry>,
    query: Seq<char>,
    top: Seq<int>,
    k: int,
    l: int,
)
    requires
        desktop::is_top(entries, query, desktop::matching(entries, query), top, 32),
        0 <= k < l < top.len(),
        encode_utf8(text::lower(query)).len() <= 256,
        encode_utf8(text::lower(entries[top[k]].name@)).len() <= 256,
        encode_utf8(text::lower(entries[top[l]].name@)).len() <= 256,
    ensures
        begins(text::lower(entries[top[l]].name@), text::lower(query)) ==> begins(
            text::lower(entries[top[k]].name@),
            text::lower(query),
        ),
        holds(text::lower(entries[top[k]].name@), text::lower(query)),
        query.len() > 0 && text::lower(entries[top[l]].name@) == text::lower(query)
            && text::lower(query).len() > 0 ==> text::lower(entries[top[k]].name@)
            == text::lower(query),
{
    law_results_are_listed_in_order(entries, query, top, k, l);
    law_search_compares_the_lowercase(query);
    law_search_compares_the_lowercase(entries[top[k]].name@);
    law_search_compares_the_lowercase(entries[top[l]].name@);
}

} // verus!
