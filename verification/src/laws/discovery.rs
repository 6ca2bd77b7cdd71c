//! Where applications are looked for, and which files count.
use vstd::prelude::*;
use vstd::utf8::*;

use crate::desktop;
use crate::laws::strings;
use crate::platform::fs;
use crate::platform::text;

verus! {

proof fn lemma_suffix(a: Seq<char>, b: Seq<char>)
    ensures
        desktop::has_suffix(a + b, b),
        (a + b).take(a.len() as int) == a,
{
    assert((a + b).skip(a.len() as int) =~= b);
    assert((a + b).take(a.len() as int) =~= a);
}

/// A name ends with another exactly when it is something and that behind it.
pub proof fn law_a_suffix_is_what_stands_behind(a: Seq<char>, b: Seq<char>)
    ensures
        desktop::has_suffix(a, b) <==> exists|front: Seq<char>| a == #[trigger] (front + b),
{
    if desktop::has_suffix(a, b) {
        assert(a =~= a.take(a.len() - b.len()) + b);
    }
    if exists|front: Seq<char>| a == #[trigger] (front + b) {
        let front = choose|front: Seq<char>| a == #[trigger] (front + b);
        lemma_suffix(front, b);
    }
}

proof fn lemma_dashed(parts: Seq<Seq<char>>)
    requires
        forall|i: int| 0 <= i < parts.len() ==> !(#[trigger] parts[i]).contains('/'),
    ensures
        desktop::dashed(strings::joined_by(parts, '/')) == strings::joined_by(parts, '-'),
    decreases parts.len(),
{
    if parts.len() == 0 {
        assert(desktop::dashed(strings::joined_by(parts, '/')) =~= Seq::<char>::empty());
    } else if parts.len() == 1 {
        let s = parts[0];
        assert forall|i: int| 0 <= i < s.len() implies s[i] != '/' by {
            assert(s.contains(s[i]));
        }
        assert(desktop::dashed(s) =~= s);
    } else {
        let less = parts.drop_last();
        assert forall|i: int| 0 <= i < less.len() implies !(#[trigger] less[i]).contains('/') by {
            assert(less[i] == parts[i]);
        }
        lemma_dashed(less);
        let head = strings::joined_by(less, '/');
        let s = parts.last();
        assert(s == parts[parts.len() - 1]);
        assert forall|i: int| 0 <= i < s.len() implies s[i] != '/' by {
            assert(s.contains(s[i]));
        }
        let dash = strings::joined_by(less, '-');
        assert(dash.len() == head.len());
        assert forall|i: int| 0 <= i < head.len() implies desktop::dashed(head)[i] == dash[i] by {}
        assert(desktop::dashed(strings::joined_by(parts, '/')) =~= strings::joined_by(parts, '-'));
    }
}

/// The ID of a desktop file is its path under the applications directory, the
/// names along it with dashes between them, without the suffix; a path that
/// starts elsewhere has none.
pub proof fn law_the_id_of_a_desktop_file(
    root: Seq<char>,
    parts: Seq<Seq<char>>,
    path: Seq<char>,
)
    requires
        forall|i: int| 0 <= i < parts.len() ==> !(#[trigger] parts[i]).contains('/'),
        encode_utf8(strings::joined_by(parts, '-')).len() <= 256,
    ensures
        desktop::id_of(
            root,
            root + seq!['/'] + strings::joined_by(parts, '/') + seq![
                '.',
                'd',
                'e',
                's',
                'k',
                't',
                'o',
                'p',
            ],
        ) == Some(strings::joined_by(parts, '-')),
        (forall|rest: Seq<char>| path != #[trigger] (root + rest)) ==> desktop::id_of(root, path) is None,
{
    reveal_strlit(".desktop");
    let tail = seq!['.', 'd', 'e', 's', 'k', 't', 'o', 'p'];
    let stem = strings::joined_by(parts, '/');
    let whole = root + seq!['/'] + stem + tail;
    assert(".desktop"@ =~= tail);
    assert(whole.take(root.len() as int) =~= root);
    let under = whole.skip(root.len() as int);
    assert(under =~= seq!['/'] + stem + tail);
    assert(under.skip(1) =~= stem + tail);
    lemma_suffix(stem, tail);
    lemma_dashed(parts);
    strings::law_prefixes_and_substrings(path, root);
}

/// The directories that are not empty, in their order.
pub open spec fn named(dirs: Seq<Seq<char>>) -> Seq<Seq<char>> {
    dirs.filter(|d: Seq<char>| d.len() > 0)
}

proof fn lemma_nonempty(s: Seq<Seq<char>>)
    ensures
        desktop::nonempty(s) == named(s),
    decreases s.len(),
{
    reveal(Seq::filter);
    if s.len() > 0 {
        lemma_nonempty(s.drop_last());
    }
}

/// Outside a sandbox the user's own directory comes first, XDG_DATA_HOME where
/// that says one and otherwise .local/share at home, and then the directories of
/// XDG_DATA_DIRS in their order, or the two of the system where it says none.
pub proof fn law_the_data_directories(
    home: Seq<char>,
    own: Seq<char>,
    dirs: Seq<Seq<char>>,
    data_home: Option<Seq<char>>,
    data_dirs: Option<Seq<char>>,
)
    requires
        own.len() > 0,
        dirs.len() > 0,
        strings::joined_by(dirs, ':').len() > 0,
        forall|i: int| 0 <= i < dirs.len() ==> !(#[trigger] dirs[i]).contains(':'),
        data_home is None || data_home == Some(Seq::<char>::empty()),
        data_dirs is None || data_dirs == Some(Seq::<char>::empty()),
    ensures
        ({
            let listed = Some(strings::joined_by(dirs, ':'));
            let local = seq!['/', '.', 'l', 'o', 'c', 'a', 'l', '/', 's', 'h', 'a', 'r', 'e'];
            let system = seq!["/usr/local/share"@, "/usr/share"@];
            &&& desktop::candidate_dirs(false, Some(home), Some(own), listed) == seq![own] + named(
                dirs,
            )
            &&& desktop::candidate_dirs(false, Some(home), data_home, listed) == seq![home + local]
                + named(dirs)
            &&& desktop::candidate_dirs(false, None, Some(own), listed) == seq![own] + named(dirs)
            &&& desktop::candidate_dirs(false, None, data_home, listed) == named(dirs)
            &&& desktop::candidate_dirs(false, Some(home), Some(own), data_dirs) == seq![own]
                + system
            &&& desktop::candidate_dirs(false, Some(home), data_home, data_dirs) == seq![home
                + local] + system
        }),
{
    strings::law_splitting_undoes_joining(dirs, ':');
    lemma_nonempty(dirs);
    reveal_strlit("/.local/share");
    let local = seq!['/', '.', 'l', 'o', 'c', 'a', 'l', '/', 's', 'h', 'a', 'r', 'e'];
    assert("/.local/share"@ =~= local);
    let system = seq!["/usr/local/share"@, "/usr/share"@];
    reveal_strlit("/usr/local/share");
    reveal_strlit("/usr/share");
    reveal_strlit("/usr/local/share:/usr/share");
    let (a, b) = ("/usr/local/share"@, "/usr/share"@);
    assert(!a.contains(':'));
    assert(!b.contains(':'));
    assert(system.drop_last() =~= seq![a]);
    assert(strings::joined_by(system.drop_last(), ':') == a);
    assert(strings::joined_by(system, ':') =~= "/usr/local/share:/usr/share"@);
    assert forall|i: int| 0 <= i < system.len() implies !(#[trigger] system[i]).contains(':') by {
        assert(i == 0 || i == 1);
    }
    strings::law_splitting_undoes_joining(system, ':');
    lemma_nonempty(system);
    reveal_with_fuel(desktop::nonempty, 3);
    assert(system.drop_last().drop_last() =~= Seq::<Seq<char>>::empty());
    assert(desktop::nonempty(system) =~= system);
    assert(Seq::<Seq<char>>::empty() + named(dirs) =~= named(dirs));
}

/// Inside a sandbox the host's directories are looked at instead, the user's
/// first.
pub proof fn law_the_data_directories_of_a_sandbox(
    home: Seq<char>,
    data_home: Option<Seq<char>>,
    data_dirs: Option<Seq<char>>,
)
    ensures
        ({
            let host = seq![
                "/var/lib/flatpak/exports/share"@,
                "/run/host/usr/local/share"@,
                "/run/host/usr/share"@,
            ];
            &&& desktop::candidate_dirs(true, None, data_home, data_dirs) == host
            &&& desktop::candidate_dirs(true, Some(home), data_home, data_dirs) == seq![
                home + "/.local/share"@,
                home + "/.local/share/flatpak/exports/share"@,
            ] + host
        }),
{
    let host = seq![
        "/var/lib/flatpak/exports/share"@,
        "/run/host/usr/local/share"@,
        "/run/host/usr/share"@,
    ];
    assert(Seq::<Seq<char>>::empty() + host =~= host);
}

/// Of the directories those are kept whose paths fit, in their order, up to the
/// most that are looked at.
pub proof fn law_the_directories_that_are_kept(s: Seq<Seq<char>>)
    ensures
        ({
            let fit = s.filter(|d: Seq<char>| encode_utf8(d).len() <= 1024);
            desktop::kept_dirs(s) == fit.take(
                if fit.len() < 16 {
                    fit.len() as int
                } else {
                    16
                },
            )
        }),
    decreases s.len(),
{
    reveal(Seq::filter);
    let keep = |d: Seq<char>| encode_utf8(d).len() <= 1024;
    let fit = s.filter(keep);
    if s.len() == 0 {
        assert(desktop::kept_dirs(s) =~= fit.take(0));
    } else {
        let less = s.drop_last();
        law_the_directories_that_are_kept(less);
        let before = less.filter(keep);
        let m = if before.len() < 16 {
            before.len() as int
        } else {
            16
        };
        assert(desktop::kept_dirs(less) == before.take(m));
        assert(desktop::kept_dirs(less).len() == m);
        let n = if fit.len() < 16 {
            fit.len() as int
        } else {
            16
        };
        assert(keep(s.last()) == (encode_utf8(s.last()).len() <= 1024));
        assert(desktop::kept_dirs(s) =~= fit.take(n));
    }
}

/// A desktop file in the applications directory has its own name for an ID, and
/// one in a directory there that directory's name before it.
pub proof fn law_a_file_found_in_a_directory_has_its_id(
    root: Seq<char>,
    below: Seq<char>,
    name: Seq<char>,
)
    requires
        !below.contains('/'),
        !name.contains('/'),
        encode_utf8(below).len() + 1 + encode_utf8(name).len() <= 256,
    ensures
        ({
            let file = name + ".desktop"@;
            &&& desktop::id_of(root, fs::joined(root, file)) == Some(name)
            &&& desktop::id_of(root, fs::joined(fs::joined(root, below), file)) == Some(
                below + seq!['-'] + name,
            )
        }),
{
    reveal_strlit(".desktop");
    let tail = seq!['.', 'd', 'e', 's', 'k', 't', 'o', 'p'];
    assert(".desktop"@ =~= tail);
    let file = name + tail;
    let one = seq![name];
    let two = seq![below, name];
    assert(strings::joined_by(one, '-') == name);
    assert(strings::joined_by(one, '/') == name);
    assert(two.drop_last() =~= seq![below]);
    assert(strings::joined_by(seq![below], '-') == below);
    assert(strings::joined_by(seq![below], '/') == below);
    assert(strings::joined_by(two, '-') =~= below + seq!['-'] + name);
    assert(strings::joined_by(two, '/') =~= below + seq!['/'] + name);
    text::lemma_encode_concat(below + seq!['-'], name);
    text::lemma_encode_push(below, '-');
    assert(below.push('-') =~= below + seq!['-']);
    assert forall|i: int| 0 <= i < two.len() implies !(#[trigger] two[i]).contains('/') by {
        assert(i == 0 || i == 1);
    }
    law_the_id_of_a_desktop_file(root, one, root);
    law_the_id_of_a_desktop_file(root, two, root);
    assert(fs::joined(root, file) =~= root + seq!['/'] + name + tail);
    assert(fs::joined(fs::joined(root, below), file) =~= root + seq!['/'] + (below + seq!['/']
        + name) + tail);
}

/// The fingerprint of the directories is the newest of their times, zero where
/// none is known.
pub proof fn law_the_fingerprint_is_the_newest_time(times: Seq<Option<u64>>)
    ensures
        forall|i: int|
            0 <= i < times.len() && (#[trigger] times[i]) is Some ==> times[i]->0 <= desktop::newest(
                times,
            ),
        times.contains(Some(desktop::newest(times))) || (desktop::newest(times) == 0 && forall|
            i: int,
        |
            0 <= i < times.len() ==> (#[trigger] times[i]) is None || times[i] == Some(0u64)),
    decreases times.len(),
{
    if times.len() > 0 {
        let less = times.drop_last();
        law_the_fingerprint_is_the_newest_time(less);
        assert forall|i: int| 0 <= i < times.len() && (#[trigger] times[i]) is Some implies times[i]->0
            <= desktop::newest(times) by {
            if i < less.len() {
                assert(less[i] == times[i]);
            }
        }
        let best = desktop::newest(times);
        if less.contains(Some(best)) {
            let i = choose|i: int| 0 <= i < less.len() && less[i] == Some(best);
            assert(times[i] == Some(best));
        }
        if times.last() == Some(best) {
            assert(times[times.len() - 1] == Some(best));
        }
        if !times.contains(Some(best)) {
            assert forall|i: int| 0 <= i < times.len() implies (#[trigger] times[i]) is None
                || times[i] == Some(0u64) by {
                if i < less.len() {
                    assert(less[i] == times[i]);
                }
            }
        }
    }
}

/// The bytes of a file are read as the text they encode; those that encode none,
/// and a file past the largest that is read, describe nothing.
pub proof fn law_a_desktop_file_is_read_as_text(content: Seq<char>, data: Seq<u8>)
    ensures
        encode_utf8(content).len() <= 65536 ==> desktop::parsed_file(encode_utf8(content))
            == desktop::parsed(content),
        encode_utf8(content).len() > 65536 ==> desktop::parsed_file(encode_utf8(content)) is None,
        (forall|s: Seq<char>| data != #[trigger] encode_utf8(s)) ==> desktop::parsed_file(data) is None,
{
    encode_utf8_valid_utf8(content);
    encode_utf8_decode_utf8(content);
    if valid_utf8(data) {
        decode_utf8_encode_utf8(data);
        assert(data == encode_utf8(decode_utf8(data)));
    }
}

/// Reading files adds what each that describes an application describes, in
/// their order, behind what was there.
pub proof fn law_files_add_what_they_describe(
    entries: Seq<(Seq<char>, Seq<char>)>,
    files: Seq<Vec<u8>>,
)
    requires
        entries.len() + files.len() <= 1024,
    ensures
        desktop::with_files(entries, files) == entries + files.filter(
            |f: Vec<u8>| desktop::parsed_file(f@) is Some,
        ).map(|i: int, f: Vec<u8>| desktop::parsed_file(f@)->0),
        desktop::with_files(entries, files).len() <= entries.len() + files.len(),
    decreases files.len(),
{
    reveal(Seq::filter);
    let keep = |f: Vec<u8>| desktop::parsed_file(f@) is Some;
    let give = |i: int, f: Vec<u8>| desktop::parsed_file(f@)->0;
    let added = files.filter(keep).map(give);
    if files.len() == 0 {
        assert(entries + added =~= entries);
    } else {
        let less = files.drop_last();
        law_files_add_what_they_describe(entries, less);
        let before = less.filter(keep).map(give);
        if keep(files.last()) {
            assert(added =~= before.push(desktop::parsed_file(files.last()@)->0));
            assert(entries + added =~= (entries + before).push(
                desktop::parsed_file(files.last()@)->0,
            ));
        } else {
            assert(added =~= before);
        }
    }
}

/// Making a path and its parents makes each directory along it, the outermost
/// first: each is the names up to it with slashes between them, behind a slash
/// where the path starts with one.
pub proof fn law_the_directories_along_a_path(names: Seq<Seq<char>>, k: int)
    requires
        forall|i: int| 0 <= i < names.len() ==> (#[trigger] names[i]).len() > 0,
        forall|i: int| 0 <= i < names.len() ==> !(#[trigger] names[i]).contains('/'),
        encode_utf8(strings::joined_by(names, '/')).len() < 1024,
        0 <= k < names.len(),
    ensures
        ({
            let made = fs::parents(names);
            let from_root = fs::parents(seq![Seq::empty()] + names);
            let upto = strings::joined_by(names.take(k + 1), '/');
            &&& made.2 && made.0.len() == names.len() && made.0[k] == upto
            &&& from_root.2 && from_root.0.len() == names.len() && from_root.0[k] == seq!['/']
                + upto
        }),
{
    lemma_parents(names, names.len() as int);
    lemma_parents_below(names, names.len() as int, k);
    assert(names.take(names.len() as int) =~= names);
}

proof fn lemma_joined_ends(names: Seq<Seq<char>>)
    requires
        names.len() > 0,
        forall|i: int| 0 <= i < names.len() ==> (#[trigger] names[i]).len() > 0,
        forall|i: int| 0 <= i < names.len() ==> !(#[trigger] names[i]).contains('/'),
    ensures
        strings::joined_by(names, '/').len() > 0,
        strings::joined_by(names, '/').last() != '/',
{
    let s = names.last();
    assert(s == names[names.len() - 1]);
    assert(s.contains(s.last()));
    if names.len() > 1 {
        assert(strings::joined_by(names, '/').last() == s.last());
    }
}

spec fn made_to(names: Seq<Seq<char>>, n: int) -> bool {
    let some = names.take(n);
    let made = fs::parents(some);
    let from_root = fs::parents(seq![Seq::empty()] + some);
    let upto = strings::joined_by(some, '/');
    &&& made.2 && made.0.len() == n && made.1 == upto
    &&& from_root.2 && from_root.0.len() == n && from_root.1 == seq!['/'] + upto
}

proof fn lemma_parents(names: Seq<Seq<char>>, n: int)
    requires
        forall|i: int| 0 <= i < names.len() ==> (#[trigger] names[i]).len() > 0,
        forall|i: int| 0 <= i < names.len() ==> !(#[trigger] names[i]).contains('/'),
        encode_utf8(strings::joined_by(names, '/')).len() < 1024,
        0 <= n <= names.len(),
    ensures
        made_to(names, n),
    decreases n,
{
    let some = names.take(n);
    let none = Seq::<char>::empty();
    let rooted = seq![none] + some;
    if n == 0 {
        assert(some =~= Seq::<Seq<char>>::empty());
        assert(rooted =~= seq![none]);
        assert(rooted.drop_last() =~= Seq::<Seq<char>>::empty());
        reveal_with_fuel(fs::parents, 2);
        assert(seq!['/'] + none =~= seq!['/']);
    } else {
        lemma_parents(names, n - 1);
        let less = names.take(n - 1);
        assert(some.drop_last() =~= less);
        assert(rooted.drop_last() =~= seq![none] + less);
        assert(some.last() == names[n - 1]);
        assert(rooted.last() == names[n - 1]);
        let c = names[n - 1];
        let before = strings::joined_by(less, '/');
        let upto = strings::joined_by(some, '/');
        lemma_prefix_bytes(names, n);
        text::lemma_encode_concat(seq!['/'], upto);
        text::lemma_byte_len_bounds(seq!['/']);
        assert(encode_utf8(seq!['/']).len() == 1) by {
            text::lemma_ascii_len(seq!['/']);
        }
        if n > 1 {
            lemma_joined_ends(less);
            assert(upto =~= before.push('/') + c);
            assert((seq!['/'] + before).last() == before.last());
            assert((seq!['/'] + before).push('/') + c =~= seq!['/'] + upto);
        } else {
            assert(before =~= none);
            assert(upto =~= c);
            assert(before + c =~= c);
            assert((seq!['/'] + before).last() == '/');
            assert((seq!['/'] + before) + c =~= seq!['/'] + upto);
        }
    }
}

proof fn lemma_prefix_bytes(names: Seq<Seq<char>>, n: int)
    requires
        0 <= n <= names.len(),
    ensures
        encode_utf8(strings::joined_by(names.take(n), '/')).len() <= encode_utf8(
            strings::joined_by(names, '/'),
        ).len(),
    decreases names.len(),
{
    if n == names.len() {
        assert(names.take(n) =~= names);
    } else if n == 0 {
        text::lemma_byte_len_bounds(strings::joined_by(names.take(0), '/'));
        assert(strings::joined_by(names.take(0), '/').len() == 0);
    } else {
        let less = names.drop_last();
        assert(less.take(n) =~= names.take(n));
        lemma_prefix_bytes(less, n);
        let s = strings::joined_by(less, '/');
        text::lemma_encode_concat(s.push('/'), names.last());
        text::lemma_encode_push(s, '/');
    }
}

proof fn lemma_parents_below(names: Seq<Seq<char>>, n: int, k: int)
    requires
        forall|i: int| 0 <= i < names.len() ==> (#[trigger] names[i]).len() > 0,
        forall|i: int| 0 <= i < names.len() ==> !(#[trigger] names[i]).contains('/'),
        encode_utf8(strings::joined_by(names, '/')).len() < 1024,
        0 <= k < n <= names.len(),
    ensures
        fs::parents(names.take(n)).0[k] == strings::joined_by(names.take(k + 1), '/'),
        fs::parents(seq![Seq::empty()] + names.take(n)).0[k] == seq!['/'] + strings::joined_by(
            names.take(k + 1),
            '/',
        ),
    decreases n,
{
    lemma_parents(names, n);
    lemma_parents(names, n - 1);
    let some = names.take(n);
    let none = Seq::<char>::empty();
    let rooted = seq![none] + some;
    assert(some.drop_last() =~= names.take(n - 1));
    assert(rooted.drop_last() =~= seq![none] + names.take(n - 1));
    assert(some.last() == names[n - 1]);
    assert(rooted.last() == names[n - 1]);
    if k < n - 1 {
        lemma_parents_below(names, n - 1, k);
    }
}

} // verus!
