use bnklaunch::config::{config_path, load, parse, Config};
use bnklaunch::theme::{Color, Theme};

fn search_url(cfg: &Config) -> Option<&str> {
    cfg.search_url.as_ref().map(|u| u.as_str())
}

#[test]
fn parse_reads_search_url() {
    let cfg = parse("search_url https://duckduckgo.com/?q=%s\n");
    assert_eq!(search_url(&cfg), Some("https://duckduckgo.com/?q=%s"));
}

#[test]
fn parse_ignores_blank_and_comment_lines() {
    let cfg = parse("\n# a comment\n   \nsearch_url https://x/?q=%s\n");
    assert_eq!(search_url(&cfg), Some("https://x/?q=%s"));
}

#[test]
fn parse_tolerates_unknown_fields() {
    let cfg = parse("future_option whatever\nsearch_url https://x/?q=%s\nmystery 42\n");
    assert_eq!(search_url(&cfg), Some("https://x/?q=%s"));
}

#[test]
fn parse_tolerates_extra_whitespace() {
    let cfg = parse("   search_url    https://x/?q=%s   \n");
    assert_eq!(search_url(&cfg), Some("https://x/?q=%s"));
}

#[test]
fn parse_field_without_value_is_skipped() {
    assert!(parse("search_url\n").search_url.is_none());
}

#[test]
fn parse_empty_or_comment_only_is_default() {
    assert_eq!(parse(""), Config::default());
    assert_eq!(parse("\n\n# only comments\n"), Config::default());
}

#[test]
fn parse_last_value_wins() {
    let cfg = parse("search_url https://a/?q=%s\nsearch_url https://b/?q=%s\n");
    assert_eq!(search_url(&cfg), Some("https://b/?q=%s"));
}

fn denies(cfg: &Config, name: &str) -> bool {
    cfg.denied.as_slice().iter().any(|d| d.as_str() == name)
}

#[test]
fn parse_accumulates_hidden_names() {
    let cfg = parse("hidden Firefox\nhidden GIMP\nhidden Firefox\n");
    assert_eq!(cfg.denied.len(), 2);
    assert!(denies(&cfg, "Firefox"));
    assert!(denies(&cfg, "GIMP"));
}

#[test]
fn parse_hidden_preserves_internal_spaces() {
    let cfg = parse("hidden Qt Widgets Designer\n");
    assert!(denies(&cfg, "Qt Widgets Designer"));
}

#[test]
fn parse_mixes_fields() {
    let cfg = parse("search_url https://x/?q=%s\nhidden GIMP\n");
    assert_eq!(search_url(&cfg), Some("https://x/?q=%s"));
    assert!(denies(&cfg, "GIMP"));
}

#[test]
fn parse_reads_every_colour_field() {
    let cfg = parse(
        "background #101112\n\
         text #eeeeee\n\
         subtitle #777777\n\
         highlight #123456\n\
         caret #ff00aa\n\
         selection #602852\n",
    );
    assert_eq!(cfg.theme.background, Color::rgba(0x10, 0x11, 0x12, 0xFF));
    assert_eq!(cfg.theme.text, Color::rgba(0xEE, 0xEE, 0xEE, 0xFF));
    assert_eq!(cfg.theme.subtitle, Color::rgba(0x77, 0x77, 0x77, 0xFF));
    assert_eq!(cfg.theme.highlight, Color::rgba(0x12, 0x34, 0x56, 0xFF));
    assert_eq!(cfg.theme.caret, Color::rgba(0xFF, 0x00, 0xAA, 0xFF));
    assert_eq!(cfg.theme.selection, Color::rgba(0x60, 0x28, 0x52, 0xFF));
}

#[test]
fn parse_reads_the_alpha_of_an_eight_digit_colour() {
    let cfg = parse("background #292b30e6\n");
    assert_eq!(cfg.theme.background, Color::rgba(0x29, 0x2b, 0x30, 0xE6));
    // Six digits is the same colour at full alpha, not a different one.
    assert_eq!(
        parse("background #292b30\n").theme.background,
        Color::rgba(0x29, 0x2b, 0x30, 0xFF)
    );
}

#[test]
fn parse_colour_takes_either_case_and_an_optional_hash() {
    let want = Color::rgba(0xAB, 0xCD, 0xEF, 0x12);
    assert_eq!(parse("caret #ABCDEF12\n").theme.caret, want);
    assert_eq!(parse("caret #abcdef12\n").theme.caret, want);
    assert_eq!(parse("caret abcdef12\n").theme.caret, want);
}

#[test]
fn parse_keeps_the_default_for_a_colour_it_cannot_read() {
    // Wrong length, a digit that is not hex, and a word: none of them refuse the
    // file, they just leave the shipped colour standing.
    for line in [
        "background #fff\n",
        "background #12345\n",
        "background #1234567\n",
        "background #zzzzzz\n",
        "background #12345g\n",
        "background transparent\n",
        "background ##ffffff\n",
    ] {
        assert_eq!(
            parse(line).theme.background,
            Theme::default().background,
            "{line:?} should have been ignored"
        );
    }
}

#[test]
fn parse_leaves_unnamed_colours_at_their_defaults() {
    let cfg = parse("background #000000ff\n");
    assert_eq!(cfg.theme.text, Theme::default().text);
    assert_eq!(cfg.theme.highlight, Theme::default().highlight);
    assert_eq!(parse("").theme, Theme::default());
}

#[test]
fn parse_last_colour_wins() {
    let cfg = parse("caret #ffffff\ncaret #000000\n");
    assert_eq!(cfg.theme.caret, Color::rgba(0, 0, 0, 0xFF));
}

#[test]
fn load_from_missing_file_is_default() {
    assert_eq!(load(None), Config::default());
}

#[test]
fn a_file_is_read_as_text_or_not_at_all() {
    assert_eq!(
        search_url(&load(Some(b"search_url https://x/\n"))),
        Some("https://x/")
    );
    assert_eq!(load(Some(b"caret #000000\n\xFF\n")), Config::default());
}

#[test]
fn the_config_is_under_the_config_home() {
    let at = |c, h| config_path(c, h).map(|p| p.as_str().to_string());
    assert_eq!(
        at(Some("/c"), Some("/home/u")),
        Some("/c/bnklaunch/config".to_string())
    );
    assert_eq!(
        at(None, Some("/home/u")),
        Some("/home/u/.config/bnklaunch/config".to_string())
    );
    assert_eq!(at(None, None), None);
}
