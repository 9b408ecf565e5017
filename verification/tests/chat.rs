use rag_search::chat::{visible_start, App, Key};

fn app_with(prompt: &str) -> App {
    let mut app = App::default();
    app.prompt = prompt.to_string();
    app
}

#[test]
fn default_app_is_empty() {
    let app = App::default();
    assert!(app.history.is_empty());
    assert!(app.prompt.is_empty());
    assert!(!app.exit);
}

#[test]
fn typing_appends_and_backspace_removes() {
    let mut app = app_with("hi");
    assert!(app.handle_key_event(Key::Char('!')).is_none());
    assert_eq!(app.prompt, "hi!");
    assert!(app.handle_key_event(Key::Backspace).is_none());
    assert_eq!(app.prompt, "hi");
}

#[test]
fn backspace_on_empty_prompt_does_nothing() {
    let mut app = App::default();
    app.handle_key_event(Key::Backspace);
    assert!(app.prompt.is_empty());
    assert!(app.history.is_empty());
}

#[test]
fn escape_quits_and_keeps_state() {
    let mut app = app_with("draft");
    assert!(app.handle_key_event(Key::Esc).is_none());
    assert!(app.exit);
    assert_eq!(app.prompt, "draft");
}

#[test]
fn exit_sets_the_flag() {
    let mut app = App::default();
    app.exit();
    assert!(app.exit);
}

#[test]
fn enter_moves_prompt_to_history_and_asks() {
    let mut app = app_with("where is it");
    let question = app.handle_key_event(Key::Enter);
    assert_eq!(question, Some(String::new()));
    assert_eq!(app.history, vec!["where is it".to_string(), "Loading question".to_string()]);
    assert!(app.prompt.is_empty());
    app.receive_answer("over there".to_string());
    assert_eq!(
        app.history,
        vec![
            "where is it".to_string(),
            "Loading question".to_string(),
            String::new(),
            "over there".to_string()
        ]
    );
}

#[test]
fn other_keys_change_nothing() {
    let mut app = app_with("x");
    assert!(app.handle_key_event(Key::Other).is_none());
    assert_eq!(app.prompt, "x");
    assert!(app.history.is_empty());
    assert!(!app.exit);
}

#[test]
fn visible_start_shows_the_latest_messages() {
    assert_eq!(visible_start(3, 20), 0);
    assert_eq!(visible_start(30, 20), 15);
    assert_eq!(visible_start(15, 20), 0);
    assert_eq!(visible_start(16, 20), 1);
    assert_eq!(visible_start(0, 5), 0);
}

#[test]
fn history_only_grows_and_exit_stays_set() {
    let mut app = App::default();
    app.history.push("earlier".to_string());
    for key in [Key::Char('a'), Key::Enter, Key::Esc, Key::Backspace, Key::Other, Key::Char('b'), Key::Enter] {
        let before = app.history.clone();
        let was_exit = app.exit;
        if let Some(question) = app.handle_key_event(key) {
            app.receive_answer(format!("answer to '{}'", question));
        }
        assert_eq!(&app.history[..before.len()], &before[..]);
        assert!(!was_exit || app.exit);
    }
    assert!(app.exit);
    assert_eq!(app.history[0], "earlier");
    assert_eq!(app.history.len(), 9);
}

#[test]
fn new_cleaner_drops_filler_words() {
    let cleaner = rag_search::clean::Cleaner::new();
    assert_eq!(cleaner.clean("This the AND a"), "");
    assert_eq!(cleaner.clean("The Cats"), "cat");
}
