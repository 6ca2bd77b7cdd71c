//! Where files are, which font is drawn with, and what the clipboard takes.
use vstd::prelude::*;
use vstd::utf8::*;

use crate::app;
use crate::cache;
use crate::clipboard;
use crate::clipboard::TextMime;
use crate::config;
use crate::font;

verus! {

/// The config and the cache are in bnklaunch under the user's config and cache
/// directories, as the environment says them or else under home; without either
/// there is none. The lock is in the runtime directory, or else in /tmp.
pub proof fn law_where_the_files_are(dir: Seq<char>, home: Seq<char>, other: Option<Seq<char>>)
    ensures
        ({
            let named = seq!['/', 'b', 'n', 'k', 'l', 'a', 'u', 'n', 'c', 'h'];
            let conf = named + seq!['/', 'c', 'o', 'n', 'f', 'i', 'g'];
            let apps = named + seq!['/', 'a', 'p', 'p', 's', '.', 'b', 'i', 'n'];
            let lock = named + seq!['.', 'l', 'o', 'c', 'k'];
            &&& config::path_of(Some(dir), other) == Some(dir + conf)
            &&& config::path_of(None, Some(home)) == Some(
                home + seq!['/', '.', 'c', 'o', 'n', 'f', 'i', 'g'] + conf,
            )
            &&& config::path_of(None, None) is None
            &&& cache::path_of(Some(dir), other) == Some(dir + apps)
            &&& cache::path_of(None, Some(home)) == Some(
                home + seq!['/', '.', 'c', 'a', 'c', 'h', 'e'] + apps,
            )
            &&& cache::path_of(None, None) is None
            &&& app::lock_file(Some(dir)) == dir + lock
            &&& app::lock_file(None) == seq!['/', 't', 'm', 'p'] + lock
        }),
{
    reveal_strlit("/bnklaunch/config");
    reveal_strlit("/.config");
    reveal_strlit("/bnklaunch/apps.bin");
    reveal_strlit("/.cache");
    reveal_strlit("/bnklaunch.lock");
    reveal_strlit("/tmp");
    let named = seq!['/', 'b', 'n', 'k', 'l', 'a', 'u', 'n', 'c', 'h'];
    assert("/bnklaunch/config"@ =~= named + seq!['/', 'c', 'o', 'n', 'f', 'i', 'g']);
    assert("/.config"@ =~= seq!['/', '.', 'c', 'o', 'n', 'f', 'i', 'g']);
    assert("/bnklaunch/apps.bin"@ =~= named + seq!['/', 'a', 'p', 'p', 's', '.', 'b', 'i', 'n']);
    assert("/.cache"@ =~= seq!['/', '.', 'c', 'a', 'c', 'h', 'e']);
    assert("/bnklaunch.lock"@ =~= named + seq!['.', 'l', 'o', 'c', 'k']);
    assert("/tmp"@ =~= seq!['/', 't', 'm', 'p']);
}

/// The trees of fonts: the system's two and then the user's own, or inside a
/// sandbox the host's two and then the system's.
pub proof fn law_where_the_fonts_are(home: Seq<char>)
    requires
        encode_utf8(home + "/.local/share/fonts"@).len() <= 1024,
    ensures
        ({
            let system = seq!["/usr/share/fonts"@, "/usr/local/share/fonts"@];
            &&& font::roots_of(false, None) == system
            &&& font::roots_of(false, Some(home)) == system + seq![home + "/.local/share/fonts"@]
            &&& font::roots_of(true, Some(home)) == seq![
                "/run/host/fonts"@,
                "/run/host/user-fonts"@,
            ] + system
            &&& font::roots_of(true, None) == font::roots_of(true, Some(home))
        }),
{
    reveal_strlit("/.local/share/fonts");
    reveal_strlit(".local/share/fonts");
    assert(home.push('/') + ".local/share/fonts"@ =~= home + "/.local/share/fonts"@);
    let system = seq!["/usr/share/fonts"@, "/usr/local/share/fonts"@];
    assert(system.push(home + "/.local/share/fonts"@) =~= system + seq![
        home + "/.local/share/fonts"@,
    ]);
}

/// Fonts are tried by how much their names are wanted, and those of one name in
/// the order they were found: what was found of a name stands behind all of the
/// names before it.
pub proof fn law_fonts_are_tried_in_order(
    a: Seq<Seq<Seq<char>>>,
    found: Seq<Seq<char>>,
    b: Seq<Seq<Seq<char>>>,
)
    ensures
        font::in_order(a + seq![found] + b) == font::in_order(a) + found + font::in_order(b),
        font::in_order(Seq::empty()) == Seq::<Seq<char>>::empty(),
    decreases b.len(),
{
    let all = a + seq![found] + b;
    if b.len() == 0 {
        assert(all.drop_last() =~= a);
        assert(all.last() == found);
        assert(font::in_order(a) + found + font::in_order(b) =~= font::in_order(a) + found);
    } else {
        law_fonts_are_tried_in_order(a, found, b.drop_last());
        assert(all.drop_last() =~= a + seq![found] + b.drop_last());
        assert(all.last() == b.last());
        assert(font::in_order(all) =~= font::in_order(a) + found + font::in_order(b));
    }
}

/// A font file is noted behind those of its name that were found before it, three
/// of each at most, and no other name is touched.
pub proof fn law_a_font_is_noted_under_its_name(
    slots: Seq<Seq<Seq<char>>>,
    name: Seq<char>,
    path: Seq<char>,
    rank: int,
)
    requires
        0 <= rank < slots.len(),
    ensures
        ({
            let after = font::with_file(slots, name, path);
            &&& after.len() == slots.len()
            &&& font::preferred_fonts()[rank] == name && slots[rank].len() < 3 ==> after[rank]
                == slots[rank] + seq![path]
            &&& font::preferred_fonts()[rank] != name || slots[rank].len() >= 3 ==> after[rank]
                == slots[rank]
        }),
{
    assert(slots[rank].push(path) =~= slots[rank] + seq![path]);
}

/// Of the types a text is offered as the one that says its encoding is taken,
/// whichever was named first.
pub proof fn law_the_type_a_text_is_taken_as(named: TextMime, before: Option<TextMime>)
    ensures
        named == TextMime::Utf8 || before == Some(TextMime::Utf8) ==> named.best(before)
            == TextMime::Utf8,
        named == TextMime::Plain && before != Some(TextMime::Utf8) ==> named.best(before)
            == TextMime::Plain,
{
}

/// No more of a paste is taken than the most that is read, from its start.
pub proof fn law_a_paste_is_capped(b: Seq<u8>)
    ensures
        clipboard::capped(b).len() <= clipboard::CLIP_CAP,
        clipboard::capped(b).is_prefix_of(b),
        b.len() <= clipboard::CLIP_CAP ==> clipboard::capped(b) == b,
        b.len() > clipboard::CLIP_CAP ==> clipboard::capped(b).len() == clipboard::CLIP_CAP,
{
}

/// Fonts are tried name by name, and within a name in the order they were found.
pub proof fn law_fonts_are_tried_name_by_name(
    first: Seq<Seq<Seq<char>>>,
    then: Seq<Seq<Seq<char>>>,
    found: Seq<Seq<char>>,
)
    ensures
        font::in_order(seq![found]) == found,
        font::in_order(first + then) == font::in_order(first) + font::in_order(then),
    decreases then.len(),
{
    assert(seq![found].drop_last() =~= Seq::<Seq<Seq<char>>>::empty());
    assert(font::in_order(seq![found].drop_last()).len() == 0);
    assert(font::in_order(seq![found]) =~= found);
    if then.len() == 0 {
        assert(first + then =~= first);
        assert(font::in_order(first) + font::in_order(then) =~= font::in_order(first));
    } else {
        law_fonts_are_tried_name_by_name(first, then.drop_last(), found);
        assert((first + then).drop_last() =~= first + then.drop_last());
        assert((first + then).last() == then.last());
        assert(font::in_order(first + then) =~= font::in_order(first) + font::in_order(then));
    }
}

} // verus!
