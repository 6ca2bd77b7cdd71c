use bnklaunch::desktop::DesktopEntry;
use bnklaunch::launch::{
    build_search_url, has_allowed_scheme, launch, launch_search, launch_url, percent_encode, spawn,
    Command, ARG_CSTR_CAP, MAX_ARGV, URL_CAP,
};
use bnklaunch::platform::arena::ArrayString;

fn enc(s: &str) -> String {
    let mut out: ArrayString<256> = ArrayString::new();
    percent_encode(s, &mut out).expect("encode");
    out.as_str().to_string()
}

fn surl(template: &str, query: &str) -> String {
    let mut out: ArrayString<URL_CAP> = ArrayString::new();
    build_search_url(template, query, &mut out).expect("build");
    out.as_str().to_string()
}

fn argv<const N: usize>(c: &Command<N>) -> Vec<&str> {
    c.as_slice().iter().map(|a| a.as_str()).collect()
}

#[test]
fn percent_encode_unreserved_passthrough() {
    assert_eq!(enc("abcXYZ-._~09"), "abcXYZ-._~09");
}

#[test]
fn build_search_url_substitutes_placeholder() {
    assert_eq!(
        surl("https://duckduckgo.com/?q=%s", "hello world"),
        "https://duckduckgo.com/?q=hello%20world"
    );
}

#[test]
fn build_search_url_appends_when_no_placeholder() {
    assert_eq!(
        surl("https://example.com/?q=", "a&b"),
        "https://example.com/?q=a%26b"
    );
}

#[test]
fn build_search_url_replaces_only_first_placeholder() {
    assert_eq!(surl("https://x/%s/%s", "a"), "https://x/a/%s");
}

#[test]
fn percent_encode_spaces_and_punctuation() {
    assert_eq!(enc("hello world"), "hello%20world");
    assert_eq!(enc("a&b=c"), "a%26b%3Dc");
    assert_eq!(enc("/?#"), "%2F%3F%23");
}

#[test]
fn percent_encode_unicode_uses_utf8_bytes() {
    // "æ" is 0xC3 0xA6 in UTF-8
    assert_eq!(enc("æ"), "%C3%A6");
}

#[test]
fn allowed_schemes_pass() {
    assert!(has_allowed_scheme("https://example.com"));
    assert!(has_allowed_scheme("http://example.com"));
    assert!(has_allowed_scheme("file:///etc/hosts"));
    assert!(has_allowed_scheme("mailto:a@b.com"));
}

#[test]
fn disallowed_schemes_rejected() {
    assert!(!has_allowed_scheme("javascript:alert(1)"));
    assert!(!has_allowed_scheme("ftp://example.com"));
    assert!(!has_allowed_scheme("example.com"));
    assert!(!has_allowed_scheme("-x"));
}

#[test]
fn an_encoding_that_does_not_fit_is_an_error() {
    let mut out: ArrayString<5> = ArrayString::new();
    assert_eq!(
        percent_encode("a b c", &mut out).err().unwrap().msg,
        "URL too long"
    );
    let long = "q".repeat(URL_CAP);
    assert_eq!(
        launch_search("https://x/?q=%s", &long).err().unwrap().msg,
        "URL too long"
    );
}

#[test]
fn a_command_is_nul_terminated_word_by_word() {
    let entry = DesktopEntry::new("App", r#"prog "a b" %F --x"#).expect("entry");
    assert_eq!(
        argv(&launch(&entry).expect("command")),
        ["prog\0", "a b\0", "--x\0"]
    );
    let none = DesktopEntry::new("App", " %u ").expect("entry");
    assert_eq!(launch(&none).err().unwrap().msg, "empty exec command");
    let many = DesktopEntry::new("App", &"x ".repeat(40)).expect("entry");
    assert_eq!(
        launch(&many).err().unwrap().msg,
        "exec command has too many arguments"
    );
}

#[test]
fn only_a_vetted_url_is_opened() {
    assert_eq!(
        argv(&launch_url("https://x").expect("command")),
        ["xdg-open\0", "https://x\0"]
    );
    assert_eq!(
        launch_url("-https://x").err().unwrap().msg,
        "refusing to open URL with no allowed scheme"
    );
    assert_eq!(
        argv(&launch_search("https://x/%s", "q").expect("command")),
        ["xdg-open\0", "https://x/q\0"]
    );
}

#[test]
fn a_spawn_refuses_what_does_not_fit() {
    let args = vec!["a"; MAX_ARGV];
    assert!(spawn::<ARG_CSTR_CAP>("p", &args[..MAX_ARGV - 1]).is_ok());
    assert!(spawn::<ARG_CSTR_CAP>("p", &args).is_err());
    assert!(spawn::<4>("abc", &[]).is_ok());
    assert!(spawn::<4>("abcd", &[]).is_err());
}
