use fntldr::EventEntry;
use fntldr::SsaFonts;
use fntldr::StyleEntry;

fn style(name: &str, fontname: &str) -> StyleEntry {
    StyleEntry { name: name.to_string(), fontname: fontname.to_string() }
}

fn event(style: &str, is_dialogue: bool, text: &str) -> EventEntry {
    EventEntry { style: style.to_string(), is_dialogue, text: text.to_string() }
}

fn sorted_of(styles: &Vec<StyleEntry>, events: &Vec<EventEntry>) -> Vec<String> {
    let mut fonts = SsaFonts::new();
    fonts.index(styles, events);
    fonts.sorted()
}

#[test]
fn inline_overrides_keep_last_per_block() {
    let styles = vec![];
    let events = vec![event(
        "Default",
        true,
        "Hello, {\\fnFoo Font\\fs42\\fnBar Font}Rust {\\fnrustc\\fs10\\fncargo\\b1}World!",
    )];
    let got = sorted_of(&styles, &events);
    assert_eq!(got, vec!["Bar Font".to_string(), "cargo".to_string()]);
}

#[test]
fn style_fonts_only_for_used_styles() {
    let styles = vec![style("Main", "Arial"), style("Alt", "Comic Sans")];
    let events = vec![
        event("Main", true, "plain dialogue"),
        event("Alt", false, "a comment referencing Alt"),
    ];
    let got = sorted_of(&styles, &events);
    assert_eq!(got, vec!["Arial".to_string()]);
}

#[test]
fn vertical_marker_is_stripped() {
    let styles = vec![style("Main", "@GothicV")];
    let events = vec![event("Main", true, "x{\\fn@RotatedFont}y")];
    let got = sorted_of(&styles, &events);
    assert_eq!(got, vec!["GothicV".to_string(), "RotatedFont".to_string()]);
}

#[test]
fn comment_overrides_do_not_count() {
    let styles = vec![style("Main", "Arial")];
    let events = vec![
        event("Main", true, "hi"),
        event("Main", false, "{\\fnHidden}commented out"),
    ];
    let got = sorted_of(&styles, &events);
    assert_eq!(got, vec!["Arial".to_string()]);
}

#[test]
fn block_without_override_contributes_nothing() {
    let styles = vec![];
    let events = vec![event("Main", true, "{\\b1\\i0}text {not a tag} more")];
    let got = sorted_of(&styles, &events);
    assert!(got.is_empty());
}

#[test]
fn empty_override_name_is_ignored() {
    let styles = vec![];
    let events = vec![event("Main", true, "{\\fn}x{\\fn\\b1}y")];
    let got = sorted_of(&styles, &events);
    assert!(got.is_empty());
}

#[test]
fn earlier_nonempty_override_wins_over_trailing_empty() {
    let styles = vec![];
    let events = vec![event("Main", true, "{\\fnA\\fn}x")];
    let got = sorted_of(&styles, &events);
    assert_eq!(got, vec!["A".to_string()]);
}

#[test]
fn unclosed_block_contributes_nothing() {
    let styles = vec![];
    let events = vec![event("Main", true, "tail {\\fnOpen Block")];
    let got = sorted_of(&styles, &events);
    assert!(got.is_empty());
}

#[test]
fn reopened_brace_starts_a_new_block() {
    let styles = vec![];
    let events = vec![event("Main", true, "{a{\\fnB}c}")];
    let got = sorted_of(&styles, &events);
    assert_eq!(got, vec!["B".to_string()]);
}

#[test]
fn documents_merge_by_union() {
    let mut fonts = SsaFonts::new();
    fonts.index(&vec![style("M", "Alpha")], &vec![event("M", true, "x")]);
    fonts.index(&vec![style("M", "Beta")], &vec![event("M", true, "{\\fnAlpha}y")]);
    let got = fonts.sorted();
    assert_eq!(got, vec!["Alpha".to_string(), "Beta".to_string()]);
    assert_eq!(fonts.inner().len(), 2);
}

#[test]
fn export_text_is_sorted_lines() {
    let mut fonts = SsaFonts::new();
    fonts.index(
        &vec![style("M", "Zeta"), style("N", "Alpha")],
        &vec![event("M", true, "x"), event("N", true, "y")],
    );
    assert_eq!(fonts.to_text(), "Alpha\nZeta\n");
}

#[test]
fn export_import_round_trip() {
    let mut fonts = SsaFonts::new();
    fonts.index(
        &vec![style("M", "Gamma"), style("N", "Alpha")],
        &vec![event("M", true, "{\\fnBeta}x"), event("N", true, "y")],
    );
    let text = fonts.to_text();
    let back = SsaFonts::from_text(&text);
    let mut got = back.sorted();
    got.sort();
    assert_eq!(got, vec!["Alpha".to_string(), "Beta".to_string(), "Gamma".to_string()]);
}

#[test]
fn import_strips_carriage_returns_and_dedups() {
    let back = SsaFonts::from_text("B\r\nA\nB\nA");
    assert_eq!(back.sorted(), vec!["A".to_string(), "B".to_string()]);
}

#[test]
fn import_empty_text_is_empty_set() {
    let back = SsaFonts::from_text("");
    assert!(back.sorted().is_empty());
}
