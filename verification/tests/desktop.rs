use std::collections::HashSet;

use bnklaunch::desktop::{
    collect_data_dirs, desktop_id, dirs_fingerprint, discover_entries, exec_argv, exec_subtitle,
    fills_slot, read_entries, read_entries_batched, search, Catalog, DesktopEntry, Scan, ARG_CAP,
    DESKTOP_FILE_MAX, EXEC_CAP, FILE_SLOT, MAX_ARGS, MAX_DATA_DIRS, NAME_CAP, RESULT_CAP,
    SUBTITLE_CAP,
};
use bnklaunch::platform::arena::{ArrayString, ArrayVec};
use bnklaunch::platform::fs::ScanPath;

fn make_entry(name: &str, exec: &str) -> DesktopEntry {
    DesktopEntry::new(name, exec).unwrap()
}

// === Parsing tests ===

#[test]
fn parse_valid_desktop_file() {
    let content = r#"
[Desktop Entry]
Type=Application
Name=Firefox
Exec=firefox %u
Icon=firefox
"#;
    let entry = DesktopEntry::parse(content).expect("should parse successfully");
    assert_eq!(entry.name.as_str(), "Firefox");
    // Exec is stored raw; field codes are handled at launch time.
    assert_eq!(entry.exec.as_str(), "firefox %u");
}

#[test]
fn parse_skips_nodisplay() {
    let content = r#"
[Desktop Entry]
Type=Application
Name=Hidden App
Exec=hidden
NoDisplay=true
"#;
    let result = DesktopEntry::parse(content);
    assert!(result.is_none(), "NoDisplay=true should be skipped");
}

#[test]
fn parse_skips_hidden() {
    let content = r#"
[Desktop Entry]
Type=Application
Name=Hidden App
Exec=hidden
Hidden=true
"#;
    let result = DesktopEntry::parse(content);
    assert!(result.is_none(), "Hidden=true should be skipped");
}

#[test]
fn parse_skips_non_application() {
    let content = r#"
[Desktop Entry]
Type=Link
Name=Some Link
URL=https://example.com
"#;
    let result = DesktopEntry::parse(content);
    assert!(result.is_none(), "Type=Link should be skipped");
}

#[test]
fn parse_skips_localized_keys() {
    let content = r#"
[Desktop Entry]
Type=Application
Name=Firefox
Name[de]=Feuerfuchs
Exec=firefox
"#;
    let result = DesktopEntry::parse(content);
    let entry = result.unwrap();
    assert_eq!(
        entry.name.as_str(),
        "Firefox",
        "should use non-localized Name"
    );
}

#[test]
fn parse_ignores_other_sections() {
    let content = r#"
[Desktop Entry]
Type=Application
Name=MyApp
Exec=myapp

[Desktop Action New]
Name=New Window
Exec=myapp --new
"#;
    let result = DesktopEntry::parse(content);
    let entry = result.unwrap();
    assert_eq!(entry.name.as_str(), "MyApp");
    assert_eq!(entry.exec.as_str(), "myapp");
}

#[test]
fn an_entry_needs_a_name_and_a_command_that_fit() {
    let head = "[Desktop Entry]\nType=Application\n";
    let parse = |rest: &str| DesktopEntry::parse(&format!("{head}{rest}"));
    assert!(parse("Name=A\nExec=a\n").is_some());
    assert!(parse("Name=A\n").is_none());
    assert!(parse("Exec=a\n").is_none());
    assert!(parse(&format!("Name={}\nExec=a\n", "n".repeat(NAME_CAP))).is_some());
    assert!(parse(&format!("Name={}\nExec=a\n", "n".repeat(NAME_CAP + 1))).is_none());
    assert!(parse(&format!("Name=A\nExec={}\n", "e".repeat(EXEC_CAP + 1))).is_none());
    assert!(DesktopEntry::new(&"n".repeat(NAME_CAP + 1), "a").is_none());
    assert!(DesktopEntry::new("a", &"n".repeat(EXEC_CAP + 1)).is_none());
}

// === exec_argv tests ===

/// Collect the tokenized arguments as owned strings for comparison.
fn argv(exec: &str) -> Vec<String> {
    let mut out: ArrayVec<ArrayString<ARG_CAP>, MAX_ARGS> = ArrayVec::new();
    exec_argv(exec, &mut out).expect("tokenize");
    out.as_slice()
        .iter()
        .map(|a| a.as_str().to_string())
        .collect()
}

#[test]
fn exec_argv_drops_field_codes() {
    assert_eq!(argv("firefox %u"), ["firefox"]);
    assert_eq!(argv("code %F"), ["code"]);
    assert_eq!(argv("app %f %u %U"), ["app"]);
}

#[test]
fn exec_argv_splits_plain_arguments() {
    assert_eq!(argv("firefox"), ["firefox"]);
    assert_eq!(argv("my-app --flag"), ["my-app", "--flag"]);
}

#[test]
fn exec_argv_respects_double_quotes() {
    assert_eq!(argv(r#"prog "one arg" two"#), ["prog", "one arg", "two"]);
}

#[test]
fn exec_argv_unescapes_reserved_chars_in_quotes() {
    assert_eq!(argv(r#"echo "a \"b\" $c""#), ["echo", r#"a "b" $c"#]);
}

#[test]
fn exec_argv_double_percent_is_literal() {
    assert_eq!(argv("printf 100%%"), ["printf", "100%"]);
}

#[test]
fn exec_argv_lone_percent_does_not_eat_the_separator() {
    // The % is a stray field code with no letter. Consuming the space after it
    // would glue the next argument onto this one.
    assert_eq!(argv("app % --flag"), ["app", "--flag"]);
    assert_eq!(argv("app %"), ["app"]);
    assert_eq!(argv("app %\tsecond"), ["app", "second"]);
}

#[test]
fn exec_argv_unterminated_quote_takes_the_rest() {
    assert_eq!(argv(r#"prog "one arg"#), ["prog", "one arg"]);
}

#[test]
fn exec_argv_rejects_too_many_arguments() {
    let mut exec = String::from("app");
    for i in 0..MAX_ARGS {
        exec.push_str(&format!(" --flag{}", i));
    }
    let mut out: ArrayVec<ArrayString<ARG_CAP>, MAX_ARGS> = ArrayVec::new();
    // MAX_ARGS + 1 tokens: refused, not trimmed to the first MAX_ARGS.
    assert!(exec_argv(&exec, &mut out).is_err());
}

#[test]
fn exec_argv_takes_exactly_max_args() {
    let mut exec = String::from("app");
    for i in 0..MAX_ARGS - 1 {
        exec.push_str(&format!(" --flag{}", i));
    }
    let mut out: ArrayVec<ArrayString<ARG_CAP>, MAX_ARGS> = ArrayVec::new();
    assert!(exec_argv(&exec, &mut out).is_ok());
    assert_eq!(out.len(), MAX_ARGS);
}

#[test]
fn exec_argv_holds_an_argument_as_long_as_the_exec_value() {
    // An argument cannot outgrow the Exec value it is tokenized from, so a
    // full-capacity single argument still round-trips whole.
    let long = "x".repeat(EXEC_CAP);
    assert_eq!(argv(&long), [long]);
}

#[test]
fn parse_resolves_string_escapes() {
    let content = "[Desktop Entry]\n\
                   Type=Application\n\
                   Name=My\\sApp\n\
                   Exec=prog --title=a\\\\b\n";
    let entry = DesktopEntry::parse(content).expect("entry");
    assert_eq!(entry.name.as_str(), "My App");
    // The \\ collapses to one backslash before the Exec quoting rules run.
    assert_eq!(entry.exec.as_str(), r"prog --title=a\b");
}

#[test]
fn parse_keeps_unknown_escapes_as_written() {
    let content = "[Desktop Entry]\n\
                   Type=Application\n\
                   Name=A\\qB\n\
                   Exec=prog\n";
    let entry = DesktopEntry::parse(content).expect("entry");
    assert_eq!(entry.name.as_str(), r"A\qB");
}

#[test]
fn exec_argv_leaves_shell_metacharacters_inert() {
    // Nothing is a shell operator: the argv is exec'd directly.
    assert_eq!(argv("app; rm -rf ~"), ["app;", "rm", "-rf", "~"]);
}

#[test]
fn a_subtitle_is_the_command_without_its_field_codes() {
    let mut out: ArrayString<SUBTITLE_CAP> = ArrayString::new();
    exec_subtitle(r#"env A=b "two words" %U"#, &mut out);
    assert_eq!(out.as_str(), "env A=b two words");
}

// === matches tests ===

#[test]
fn matches_empty_query() {
    let entry = make_entry("Firefox", "firefox");
    assert!(entry.matches(""), "empty query should match everything");
}

#[test]
fn matches_case_insensitive_prefix() {
    let entry = make_entry("Firefox", "firefox");
    assert!(entry.matches("fire"));
    assert!(entry.matches("Fire"));
    assert!(entry.matches("FIRE"));
    assert!(entry.matches("firefox"));
}

#[test]
fn matches_substring_and_rejects_absent() {
    let entry = make_entry("Firefox", "firefox");
    assert!(entry.matches("fox"), "substring should match");
    assert!(
        !entry.matches("chrome"),
        "absent substring should not match"
    );
}

#[test]
fn matching_folds_case_beyond_ascii() {
    let entry = make_entry("Éditeur ΩMEGA", "x");
    assert!(entry.matches("éditeur"));
    assert!(entry.matches("ωmega"));
    // One character can fold to two.
    assert!(make_entry("İstanbul", "x").matches("i\u{307}stanbul"));
}

// === relevance tests ===

#[test]
fn relevance_exact_match_highest() {
    let entry = make_entry("Firefox", "firefox");
    assert_eq!(entry.relevance("firefox"), 300);
    assert_eq!(entry.relevance("Firefox"), 300);
}

#[test]
fn relevance_prefix_beats_substring() {
    let prefix = make_entry("Firefox", "firefox");
    let substring = make_entry("Waterfox", "waterfox");
    // Both contain "fox"; the prefix match must rank higher.
    assert!(prefix.relevance("fire") > substring.relevance("fox"));
    // A substring-only match still scores above no match.
    assert!(substring.relevance("fox") > 0);
}

#[test]
fn relevance_prefix_match_by_length() {
    let short = make_entry("Git", "git");
    let long = make_entry("GitHub Desktop", "github-desktop");

    let short_score = short.relevance("gi");
    let long_score = long.relevance("gi");

    assert!(short_score > long_score, "shorter name should rank higher");
}

#[test]
fn relevance_no_match_zero() {
    let entry = make_entry("Firefox", "firefox");
    assert_eq!(entry.relevance("chrome"), 0);
}

// === search tests ===

#[test]
fn search_returns_matches_sorted_by_relevance() {
    let entries = vec![
        make_entry("GitHub Desktop", "github-desktop"),
        make_entry("Git", "git"),
        make_entry("Gitk", "gitk"),
    ];

    let results = search(&entries, "git");
    let names: Vec<_> = results.as_slice().iter().map(|e| e.name.as_str()).collect();

    // Exact match first, then by length
    assert_eq!(names, vec!["Git", "Gitk", "GitHub Desktop"]);
}

#[test]
fn search_empty_query_returns_all() {
    let entries = vec![
        make_entry("Firefox", "firefox"),
        make_entry("Chrome", "chrome"),
    ];

    let results = search(&entries, "");
    assert_eq!(results.len(), 2);
}

#[test]
fn search_no_matches_returns_empty() {
    let entries = vec![
        make_entry("Firefox", "firefox"),
        make_entry("Chrome", "chrome"),
    ];

    let results = search(&entries, "vim");
    assert!(results.is_empty());
}

#[test]
fn search_keeps_the_best_when_more_match_than_fit() {
    let mut entries: Vec<DesktopEntry> = (0..RESULT_CAP + 8)
        .map(|i| make_entry(&format!("Tool number {i:02}"), "x"))
        .collect();
    entries.push(make_entry("tool", "x"));
    let results = search(&entries, "TOOL");
    assert_eq!(results.len(), RESULT_CAP);
    assert_eq!(results.as_slice()[0].name.as_str(), "tool");
    // The rest rank the same, so the names decide.
    assert_eq!(results.as_slice()[1].name.as_str(), "Tool number 00");
    assert_eq!(results.as_slice()[RESULT_CAP - 1].name.as_str(), "Tool number 30");
}

// === discovery tests ===

#[test]
fn desktop_id_flattens_subdirs() {
    let root = "/usr/share/applications";
    let id = |path| desktop_id(root, path).map(|s| s.as_str().to_string());
    assert_eq!(
        id("/usr/share/applications/firefox.desktop"),
        Some("firefox".to_string())
    );
    assert_eq!(
        id("/usr/share/applications/kde4/foo.desktop"),
        Some("kde4-foo".to_string())
    );
}

/// Walk directories given as (directory, name, is a directory), in order, and
/// read the files a body is given for.
fn walk(roots: &[(&str, &[(&str, &str, bool)])], files: &[(&str, &str)]) -> (Scan, Catalog) {
    let mut scan = Scan::new();
    for (root, names) in roots {
        for (dir, name, is_directory) in *names {
            let down = scan.visit(root, dir, name, *is_directory);
            assert_eq!(
                down.map(|p| p.as_str().to_string()),
                if *is_directory {
                    Some(format!("{dir}/{name}"))
                } else {
                    None
                }
            );
        }
    }
    let bodies: Vec<Vec<u8>> = scan
        .paths
        .as_slice()
        .iter()
        .map(|p| {
            let body = files.iter().find(|(path, _)| *path == p.as_str());
            body.expect("a body").1.as_bytes().to_vec()
        })
        .collect();
    let mut entries = Catalog::new();
    discover_entries(&bodies, &mut entries);
    (scan, entries)
}

#[test]
fn discovery_recurses_into_subdirs() {
    let apps = "/d/applications";
    let (scan, entries) = walk(
        &[(
            apps,
            &[
                (apps, "a.desktop", false),
                (apps, "readme.txt", false),
                (apps, "kde", true),
                ("/d/applications/kde", "b.desktop", false),
            ],
        )],
        &[
            (
                "/d/applications/kde/b.desktop",
                "[Desktop Entry]\nType=Application\nName=Bbb\nExec=bbb\n",
            ),
            (
                "/d/applications/a.desktop",
                "[Desktop Entry]\nType=Application\nName=Aaa\nExec=aaa\n",
            ),
        ],
    );

    let names: HashSet<&str> = entries.as_slice().iter().map(|e| e.name.as_str()).collect();
    assert!(names.contains("Aaa"));
    assert!(names.contains("Bbb"), "subdirectory entry should be found");
    assert!(
        scan.seen.as_slice().iter().any(|s| s.as_str() == "kde-b"),
        "id reflects the subdirectory"
    );
}

#[test]
fn discovery_higher_precedence_id_shadows_lower() {
    let high = "/high/applications";
    let low = "/low/applications";
    // Same id "foo" in both dirs; the high-precedence one is Hidden.
    let (scan, entries) = walk(
        &[
            (high, &[(high, "foo.desktop", false)]),
            (low, &[(low, "foo.desktop", false)]),
        ],
        &[
            (
                "/high/applications/foo.desktop",
                "[Desktop Entry]\nType=Application\nName=Foo\nExec=foo\nHidden=true\n",
            ),
            (
                "/low/applications/foo.desktop",
                "[Desktop Entry]\nType=Application\nName=Foo Low\nExec=foo\n",
            ),
        ],
    );

    assert!(scan.seen.as_slice().iter().any(|s| s.as_str() == "foo"));
    assert!(
        entries.is_empty(),
        "a hidden higher-precedence entry shadows the lower one"
    );
}

#[test]
fn discovered_entries_come_sorted_and_files_that_are_not_text_are_skipped() {
    let body = |name: &str| {
        format!("[Desktop Entry]\nType=Application\nName={name}\nExec=x\n").into_bytes()
    };
    let mut out = Catalog::new();
    assert!(out.push(make_entry("Left over", "x")).is_ok());
    discover_entries(
        &[body("beta"), vec![0xFF, 0xFE], body("Alpha"), body("gamma")],
        &mut out,
    );
    let names: Vec<_> = out.as_slice().iter().map(|e| e.name.as_str()).collect();
    assert_eq!(names, ["Alpha", "beta", "gamma"]);
    assert!(DesktopEntry::from_file(&[0xFF, 0xFE]).is_none());
    assert!(DesktopEntry::from_file(&body("x")).is_some());
}

#[test]
fn the_fingerprint_is_the_newest_directory() {
    assert_eq!(dirs_fingerprint(&[]), 0);
    assert_eq!(dirs_fingerprint(&[None, Some(7), Some(9), None, Some(8)]), 9);
}

/// The data directories the two layouts produce, as plain strings.
fn data_dirs(
    in_flatpak: bool,
    home: Option<&str>,
    data_home: Option<&str>,
    data_dirs: Option<&str>,
) -> Vec<String> {
    let mut out: ArrayVec<ScanPath, MAX_DATA_DIRS> = ArrayVec::new();
    collect_data_dirs(&mut out, in_flatpak, home, data_home, data_dirs);
    out.as_slice()
        .iter()
        .map(|d| d.as_str().to_string())
        .collect()
}

#[test]
fn data_dirs_take_xdg_data_home_first() {
    assert_eq!(
        data_dirs(false, Some("/home/u"), Some("/data"), Some("/a:/b")),
        ["/data", "/a", "/b"]
    );
}

#[test]
fn data_dirs_fall_back_to_home_and_the_spec_defaults() {
    assert_eq!(
        data_dirs(false, Some("/home/u"), None, None),
        ["/home/u/.local/share", "/usr/local/share", "/usr/share"]
    );
}

#[test]
fn data_dirs_treat_an_empty_variable_as_unset() {
    assert_eq!(
        data_dirs(false, Some("/home/u"), Some(""), Some("")),
        ["/home/u/.local/share", "/usr/local/share", "/usr/share"]
    );
}

#[test]
fn data_dirs_skip_empty_entries_in_xdg_data_dirs() {
    assert_eq!(
        data_dirs(false, None, Some("/data"), Some("/a::/b")),
        ["/data", "/a", "/b"]
    );
}

#[test]
fn flatpak_data_dirs_are_the_hosts_not_the_sandboxs() {
    assert_eq!(
        data_dirs(
            true,
            Some("/home/u"),
            Some("/home/u/.var/app/io.github.borgenk.BnkLaunch/data"),
            Some("/app/share:/usr/share"),
        ),
        [
            "/home/u/.local/share",
            "/home/u/.local/share/flatpak/exports/share",
            "/var/lib/flatpak/exports/share",
            "/run/host/usr/local/share",
            "/run/host/usr/share",
        ]
    );
}

#[test]
fn flatpak_data_dirs_without_home_keep_the_system_ones() {
    assert_eq!(
        data_dirs(true, None, None, None),
        [
            "/var/lib/flatpak/exports/share",
            "/run/host/usr/local/share",
            "/run/host/usr/share",
        ]
    );
}

/// A desktop file padded with comment bytes to a size.
fn padded(name: &str, size: usize) -> Vec<u8> {
    let mut file = format!("[Desktop Entry]\nType=Application\nName={name}\nExec=run\n#");
    let fill = size.saturating_sub(file.len());
    file.push_str(&"x".repeat(fill));
    file.into_bytes()
}

fn names(catalog: &Catalog) -> Vec<String> {
    catalog
        .as_slice()
        .iter()
        .map(|e| e.name.as_str().to_string())
        .collect()
}

/// A batch gives what reading its files one at a time gives: a file that fills
/// its slot is read again whole, and one that could not be read is passed over.
#[test]
fn a_batch_finds_what_single_reads_do() {
    let files = [
        padded("small", 100),
        Vec::new(),
        padded("slot", FILE_SLOT),
        padded("large", FILE_SLOT + 1),
        b"\xff".to_vec(),
        padded("last", FILE_SLOT - 1),
    ];
    let mut bufs = vec![0u8; files.len() * FILE_SLOT];
    let mut lens = vec![0usize; files.len()];
    for (i, f) in files.iter().enumerate() {
        lens[i] = f.len().min(FILE_SLOT);
        bufs[i * FILE_SLOT..i * FILE_SLOT + lens[i]].copy_from_slice(&f[..lens[i]]);
    }
    let again: Vec<Option<Vec<u8>>> = files
        .iter()
        .enumerate()
        .map(|(i, f)| fills_slot(&lens, i).then(|| f.clone()))
        .collect();
    assert_eq!(again.iter().flatten().count(), 2);

    let mut batched = Catalog::new();
    read_entries_batched(&bufs, &lens, &again, &mut batched);
    let mut single = Catalog::new();
    read_entries(&files, &mut single);
    assert_eq!(names(&batched), ["small", "slot", "large", "last"]);
    assert_eq!(names(&single), names(&batched));
}

#[test]
fn a_desktop_file_too_large_to_be_one_is_skipped() {
    assert!(DesktopEntry::from_file(&padded("big", DESKTOP_FILE_MAX)).is_some());
    assert!(DesktopEntry::from_file(&padded("big", DESKTOP_FILE_MAX + 1)).is_none());
}

#[test]
fn a_query_outside_ascii_is_looked_for() {
    let eclair = DesktopEntry::new("\u{c9}clair", "eclair").expect("fits");
    let zed = DesktopEntry::new("Zed", "zed").expect("fits");
    assert_eq!(eclair.relevance("\u{c9}"), 194);
    assert_eq!(eclair.relevance("\u{e9}CLAIR"), 300);
    assert!(eclair.matches("\u{c9}") && !zed.matches("\u{c9}"));
    assert_eq!(zed.relevance("\u{c9}"), 0);
}
