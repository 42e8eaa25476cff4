use unicode_util::index::Index;
use unicode_util::session::{handle_event, Effect, Event, Mode, Session};
use unicode_util::table::{build_table, Assoc};

fn assoc(name: &str, code: u32) -> Assoc {
    Assoc { name: name.to_string(), code }
}

fn sample_index() -> Index {
    let input = vec![
        assoc("LATIN SMALL LETTER A", 0x61),
        assoc("LATIN CAPITAL LETTER A", 0x41),
        assoc("GREEK SMALL LETTER ALPHA", 0x3B1),
    ];
    Index::build(&build_table(&input))
}

fn opened() -> (Session, Index) {
    let ix = sample_index();
    let s = Session::new(unicode_util::index::search(&ix, "letter").unwrap());
    (s, ix)
}

fn edited(text: &str) -> Event {
    Event::QueryEdited { text: text.to_string() }
}

#[test]
fn navigation_is_clamped() {
    let (s, ix) = opened();
    assert_eq!(s.results.len(), 3);
    assert_eq!(s.cursor, 0);
    let (s, _) = handle_event(s, &ix, Event::Up);
    assert_eq!(s.cursor, 0);
    let (s, _) = handle_event(s, &ix, Event::Down);
    assert_eq!(s.cursor, 1);
    let (s, _) = handle_event(s, &ix, Event::Down);
    let (s, _) = handle_event(s, &ix, Event::Down);
    let (s, _) = handle_event(s, &ix, Event::Down);
    assert_eq!(s.cursor, 2);
    let (s, _) = handle_event(s, &ix, Event::Up);
    assert_eq!(s.cursor, 1);
}

#[test]
fn editing_the_query_replaces_results_and_resets_cursor() {
    let (s, ix) = opened();
    let (s, _) = handle_event(s, &ix, Event::Down);
    assert_eq!(s.cursor, 1);
    let (s, eff) = handle_event(s, &ix, edited("greek"));
    assert!(matches!(eff, Effect::Continue));
    assert_eq!(s.cursor, 0);
    assert_eq!(s.results.len(), 1);
    assert_eq!(s.results[0].name, "GREEK SMALL LETTER ALPHA".to_string());
    assert!(matches!(s.mode, Mode::Browsing));
}

#[test]
fn editing_with_a_bad_pattern_keeps_the_results() {
    let (s, ix) = opened();
    let (s, _) = handle_event(s, &ix, Event::Down);
    let (s, eff) = handle_event(s, &ix, edited("(unclosed"));
    assert!(matches!(eff, Effect::Continue));
    assert_eq!(s.cursor, 1);
    assert_eq!(s.results.len(), 3);
    assert!(matches!(s.mode, Mode::ErrorNotice { .. }));
    let (s, _) = handle_event(s, &ix, Event::AckNotice);
    assert!(matches!(s.mode, Mode::Browsing));
    assert_eq!(s.cursor, 1);
}

#[test]
fn selecting_opens_the_save_prompt_with_the_decoded_character() {
    let (s, ix) = opened();
    let (s, _) = handle_event(s, &ix, Event::Down);
    let (s, eff) = handle_event(s, &ix, Event::Select);
    assert!(matches!(eff, Effect::Continue));
    match &s.mode {
        Mode::SavePrompt { pending, alias } => {
            assert_eq!(*pending, char::from_u32(s.results[1].code).unwrap());
            assert!(alias.is_empty());
        }
        other => panic!("expected a save prompt, got {:?}", mode_name(other)),
    }
}

#[test]
fn cancelling_the_prompt_returns_to_browsing_intact() {
    let (s, ix) = opened();
    let (s, _) = handle_event(s, &ix, Event::Down);
    let (s, _) = handle_event(s, &ix, Event::Select);
    let (s, _) = handle_event(s, &ix, Event::SaveCancel);
    assert!(matches!(s.mode, Mode::Browsing));
    assert_eq!(s.cursor, 1);
    assert_eq!(s.results.len(), 3);
}

#[test]
fn submitting_an_empty_alias_keeps_the_prompt_behind_a_notice() {
    let (s, ix) = opened();
    let (s, _) = handle_event(s, &ix, Event::Select);
    let (s, eff) = handle_event(s, &ix, Event::SaveSubmit);
    assert!(matches!(eff, Effect::Continue));
    assert!(matches!(s.mode, Mode::ErrorNotice { .. }));
    let (s, _) = handle_event(s, &ix, Event::AckNotice);
    match &s.mode {
        Mode::SavePrompt { alias, .. } => assert!(alias.is_empty()),
        other => panic!("expected the prompt back, got {:?}", mode_name(other)),
    }
}

#[test]
fn submitting_an_alias_saves_and_exits() {
    let (s, ix) = opened();
    let (s, _) = handle_event(s, &ix, Event::Select);
    let pending = match &s.mode {
        Mode::SavePrompt { pending, .. } => *pending,
        other => panic!("expected a save prompt, got {:?}", mode_name(other)),
    };
    let (s, _) = handle_event(s, &ix, Event::AliasEdited { text: "fav".to_string() });
    let (_, eff) = handle_event(s, &ix, Event::SaveSubmit);
    match eff {
        Effect::SaveAndExit { alias, value } => {
            assert_eq!(alias, "fav".to_string());
            assert_eq!(value, pending);
        }
        _ => panic!("expected the save effect"),
    }
}

#[test]
fn quitting_while_browsing_exits_without_saving() {
    let (s, ix) = opened();
    let (_, eff) = handle_event(s, &ix, Event::Quit);
    assert!(matches!(eff, Effect::QuitWithoutSaving));
}

fn mode_name(m: &Mode) -> &'static str {
    match m {
        Mode::Browsing => "browsing",
        Mode::SavePrompt { .. } => "save prompt",
        Mode::ErrorNotice { .. } => "error notice",
    }
}
