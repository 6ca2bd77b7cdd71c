use bnklaunch::cache::{
    cache_path, decode, encode, encode_recents, load, record, record_into, resolve, save, Recents,
    CACHE_MAX, RECENTS_ENC_CAP, RECENT_CAP, VERSION,
};
use bnklaunch::desktop::{DesktopEntry, EXEC_CAP, NAME_CAP};
use bnklaunch::platform::arena::{ArrayString, ArrayVec};

fn entry(name: &str, exec: &str) -> DesktopEntry {
    DesktopEntry::new(name, exec).unwrap()
}

fn bytes(
    entries: &[DesktopEntry],
    fingerprint: u64,
    recents: &[ArrayString<NAME_CAP>],
) -> Vec<u8> {
    encode(entries, fingerprint, recents)
        .expect("encode")
        .0
        .as_slice()
        .to_vec()
}

fn names(list: &[&str]) -> Recents {
    let mut out: Recents = ArrayVec::new();
    for s in list {
        let mut a = ArrayString::new();
        a.push_str(s).unwrap();
        out.push(a).unwrap();
    }
    out
}

fn assert_same(a: &[DesktopEntry], b: &[DesktopEntry]) {
    assert_eq!(a.len(), b.len());
    for (x, y) in a.iter().zip(b) {
        assert_eq!(x.name.as_str(), y.name.as_str());
        assert_eq!(x.exec.as_str(), y.exec.as_str());
    }
}

fn put_string(out: &mut Vec<u8>, s: &str) {
    out.extend_from_slice(&(s.len() as u16).to_le_bytes());
    out.extend_from_slice(s.as_bytes());
}

fn header(count: u32) -> Vec<u8> {
    let mut data = b"BNKL".to_vec();
    data.push(VERSION);
    data.extend_from_slice(&1u64.to_le_bytes());
    data.extend_from_slice(&count.to_le_bytes());
    data
}

#[test]
fn round_trips_entries_fingerprint_and_recents() {
    let entries = vec![
        entry("Firefox", "firefox %u"),
        entry("Café ☕", "/usr/bin/café --日本語"),
    ];
    let recents = names(&["Café ☕", "Firefox"]);
    let decoded = decode(&bytes(&entries, 0xDEAD_BEEF, recents.as_slice())).expect("decode");
    assert_eq!(decoded.fingerprint, 0xDEAD_BEEF);
    assert_same(decoded.entries.as_slice(), &entries);
    assert_eq!(decoded.recents, recents);
}

#[test]
fn empty_round_trips() {
    let decoded = decode(&bytes(&[], 42, &[])).expect("decode");
    assert_eq!(decoded.fingerprint, 42);
    assert!(decoded.entries.is_empty());
    assert!(decoded.recents.is_empty());
}

#[test]
fn rejects_bad_magic() {
    let mut b = bytes(&[entry("A", "a")], 1, &[]);
    b[0] = b'X';
    assert!(decode(&b).is_none());
}

#[test]
fn rejects_unknown_version() {
    let mut b = bytes(&[entry("A", "a")], 1, &[]);
    b[4] = 99;
    assert!(decode(&b).is_none());
}

#[test]
fn rejects_entries_running_past_end() {
    // Claim more entries than the data holds; decode runs out parsing them.
    let mut b = bytes(&[entry("A", "a")], 1, &[]);
    b[13] = 99; // low byte of the u32 entry count
    assert!(decode(&b).is_none());
}

#[test]
fn rejects_empty_input() {
    assert!(decode(&[]).is_none());
}

#[test]
fn skips_oversized_fields_instead_of_truncating() {
    // A name that fits the cache field but not an entry is dropped on decode,
    // not truncated. Craft the bytes directly since the entry type cannot hold
    // such a name to begin with.
    let long = "x".repeat(NAME_CAP + 1);
    let mut data = header(2);
    put_string(&mut data, "Keep");
    put_string(&mut data, "ok");
    put_string(&mut data, &long);
    put_string(&mut data, "exec");
    data.extend_from_slice(&0u16.to_le_bytes()); // no recents

    let decoded = decode(&data).expect("decode");
    assert_same(decoded.entries.as_slice(), &[entry("Keep", "ok")]);
}

#[test]
fn caps_recents_at_recent_cap() {
    // A file claiming more recents than the cap decodes to exactly the cap.
    let mut data = header(0);
    data.extend_from_slice(&50u16.to_le_bytes()); // recents count claims 50
    for i in 0..50 {
        put_string(&mut data, &format!("App{}", i));
    }
    let decoded = decode(&data).expect("decode");
    assert_eq!(decoded.recents.len(), RECENT_CAP);
}

#[test]
fn torn_recents_keep_entries() {
    let entries = vec![entry("Firefox", "firefox")];
    let recents = names(&["Firefox"]);
    let (b, offset) = encode(&entries, 7, recents.as_slice()).expect("encode");
    // Chop mid-name in the recents tail: count is intact, the name is not.
    let decoded = decode(&b.as_slice()[..offset as usize + 3]).expect("entries still decode");
    assert_eq!(decoded.fingerprint, 7);
    assert_same(decoded.entries.as_slice(), &entries);
    assert!(decoded.recents.is_empty());
}

/// One entry whose name and exec sit at their field caps: 1284 encoded bytes, so
/// 409 of them overflow CACHE_MAX.
fn max_entry(i: usize) -> DesktopEntry {
    let mut name = format!("{:04}", i);
    name.push_str(&"n".repeat(NAME_CAP - name.len()));
    let exec = "e".repeat(EXEC_CAP);
    entry(&name, &exec)
}

#[test]
fn encode_at_the_cap_still_round_trips() {
    let mut entries: Vec<DesktopEntry> = Vec::new();
    let mut encoded = 17; // magic, version, fingerprint, count
    while encoded + 1284 + RECENTS_ENC_CAP <= CACHE_MAX {
        entries.push(max_entry(entries.len()));
        encoded += 1284;
    }
    let recents = names(&["0000"]);
    let decoded = decode(&bytes(&entries, 1, recents.as_slice())).expect("decode");
    assert_same(decoded.entries.as_slice(), &entries);
}

#[test]
fn encode_over_the_cap_fails_instead_of_truncating() {
    // The field caps allow a catalog that does not fit CACHE_MAX. Encoding one
    // must be an error: a truncated buffer renamed over the live cache fails
    // decode forever after.
    let entries: Vec<DesktopEntry> = (0..500).map(max_entry).collect();
    assert!(encode(&entries, 1, &[]).is_err());
}

#[test]
fn save_over_the_cap_leaves_the_old_cache_alone() {
    let path = "/cache/apps.bin";
    let good = vec![entry("Firefox", "firefox")];
    let first = save(path, &good, 1, &[]).expect("first save");
    assert_eq!(first.tmp.as_str(), "/cache/apps.bin.tmp");

    // Nothing is handed out to write, so the file stays as it is.
    let huge: Vec<DesktopEntry> = (0..500).map(max_entry).collect();
    let err = save(path, &huge, 2, &[]).err().expect("too large");
    assert_eq!(err.msg, "cache too large to encode");

    // The old cache is untouched and still decodes.
    let decoded = load(Some(first.data.as_slice())).expect("old cache survives");
    assert_eq!(decoded.fingerprint, 1);
    assert_same(decoded.entries.as_slice(), &good);
}

#[test]
fn a_save_to_a_path_that_is_too_long_is_refused() {
    let err = save(&"p".repeat(1022), &[], 1, &[]).err().expect("too long");
    assert_eq!(err.msg, "path too long");
    assert!(save(&"p".repeat(1020), &[], 1, &[]).is_ok());
}

#[test]
fn record_into_prepends_new_name() {
    let mut v = names(&["A", "B"]);
    record_into(&mut v, "C");
    assert_eq!(v, names(&["C", "A", "B"]));
}

#[test]
fn record_into_bumps_existing_to_front() {
    let mut v = names(&["A", "B", "C"]);
    record_into(&mut v, "B");
    assert_eq!(v, names(&["B", "A", "C"]));
}

#[test]
fn record_into_caps_at_recent_cap() {
    let start: Vec<String> = (0..RECENT_CAP).map(|i| format!("App{}", i)).collect();
    let mut v: Recents = ArrayVec::new();
    for s in &start {
        let mut a = ArrayString::new();
        a.push_str(s).unwrap();
        v.push(a).unwrap();
    }
    record_into(&mut v, "New");
    assert_eq!(v.len(), RECENT_CAP);
    assert_eq!(v.as_slice()[0].as_str(), "New");
    let oldest = format!("App{}", RECENT_CAP - 1);
    assert!(!v.as_slice().iter().any(|n| n.as_str() == oldest));
}

#[test]
fn a_name_too_long_for_an_entry_is_not_recorded() {
    let mut v = names(&["A"]);
    record_into(&mut v, &"x".repeat(NAME_CAP + 1));
    assert_eq!(v, names(&["A"]));
}

#[test]
fn resolve_returns_entries_in_mru_order() {
    let entries = vec![
        entry("Firefox", "x"),
        entry("GIMP", "x"),
        entry("Inkscape", "x"),
    ];
    let recents = names(&["Inkscape", "Firefox"]);
    let found = resolve(recents.as_slice(), &entries);
    let got: Vec<_> = found.as_slice().iter().map(|e| e.name.as_str()).collect();
    assert_eq!(got, vec!["Inkscape", "Firefox"]);
}

#[test]
fn resolve_drops_uninstalled_entries() {
    let entries = vec![entry("Firefox", "x")];
    let recents = names(&["Uninstalled", "Firefox"]);
    let resolved = resolve(recents.as_slice(), &entries);
    assert_eq!(resolved.len(), 1);
    assert_eq!(resolved.as_slice()[0].name.as_str(), "Firefox");
}

/// Carry out a record on a file held in memory.
fn write_at(file: &mut Vec<u8>, offset: u64, block: &[u8], end: u64) {
    file.truncate(offset as usize);
    file.extend_from_slice(block);
    assert_eq!(file.len() as u64, end);
}

#[test]
fn record_to_overwrites_recents_in_place() {
    let entries = vec![entry("Firefox", "firefox"), entry("GIMP", "gimp")];
    let mut recents = names(&["Firefox"]);
    let saved = save("/apps.bin", &entries, 9, recents.as_slice()).expect("save");
    let offset = saved.recents_offset;
    let mut file = saved.data.as_slice().to_vec();

    let w = record(offset, &mut recents, "GIMP").expect("record");
    assert_eq!(w.offset, offset);
    write_at(&mut file, w.offset, w.block.as_slice(), w.end);

    let loaded = load(Some(&file)).expect("load");
    assert_same(loaded.entries.as_slice(), &entries);
    assert_eq!(loaded.fingerprint, 9);
    assert_eq!(loaded.recents, names(&["GIMP", "Firefox"]));
    assert_eq!(loaded.recents_offset, offset);
}

#[test]
fn record_to_truncates_when_recents_shrink() {
    let before = names(&["AVeryLongRecentName", "Second"]);
    let saved = save("/apps.bin", &[entry("A", "a")], 1, before.as_slice()).expect("save");
    let offset = saved.recents_offset;
    let mut file = saved.data.as_slice().to_vec();

    let mut recents: Recents = ArrayVec::new();
    let w = record(offset, &mut recents, "X").expect("record");
    write_at(&mut file, w.offset, w.block.as_slice(), w.end);

    let loaded = load(Some(&file)).expect("load");
    assert_eq!(loaded.recents, names(&["X"]));
    let block = encode_recents(names(&["X"]).as_slice()).expect("encode recents");
    assert_eq!(file.len() as u64, offset + block.len() as u64);
}

#[test]
fn load_from_missing_file_is_none() {
    assert!(load(None).is_none());
}

#[test]
fn a_file_larger_than_a_cache_is_not_loaded() {
    let mut data = bytes(&[], 1, &[]);
    assert!(load(Some(&data)).is_some());
    data.resize(CACHE_MAX, 0);
    assert!(load(Some(&data)).is_some());
    data.push(0);
    assert!(load(Some(&data)).is_none());
}

#[test]
fn the_encoding_is_the_one_written_down() {
    let recents = names(&["é"]);
    let (b, offset) = encode(&[entry("A", "b c")], 0x0102, recents.as_slice()).expect("encode");
    let mut want = b"BNKL".to_vec();
    want.push(2);
    want.extend_from_slice(&[2, 1, 0, 0, 0, 0, 0, 0]);
    want.extend_from_slice(&[1, 0, 0, 0]);
    want.extend_from_slice(&[1, 0, b'A', 3, 0, b'b', b' ', b'c']);
    assert_eq!(offset as usize, want.len());
    want.extend_from_slice(&[1, 0, 2, 0, 0xC3, 0xA9]);
    assert_eq!(b.as_slice(), &want[..]);
}

#[test]
fn the_cache_is_under_the_cache_home() {
    let at = |c, h| cache_path(c, h).map(|p| p.as_str().to_string());
    assert_eq!(
        at(Some("/c"), Some("/home/u")),
        Some("/c/bnklaunch/apps.bin".to_string())
    );
    assert_eq!(
        at(None, Some("/home/u")),
        Some("/home/u/.cache/bnklaunch/apps.bin".to_string())
    );
    assert_eq!(at(None, None), None);
    assert_eq!(at(Some(&"d".repeat(1020)), None), None);
}
