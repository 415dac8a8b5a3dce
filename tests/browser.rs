use vago::browser::{intent, Action, App, Intent, Key};
use vago::dir_list::ScannedEntry;

fn dir(path: &str, name: &str) -> ScannedEntry {
    ScannedEntry { path: path.to_string(), name: Some(name.to_string()), is_dir: true }
}

fn session() -> App {
    App::new(
        "/p".to_string(),
        &vec![dir("/p/alpha", "alpha"), dir("/p/beta", "beta"), dir("/p/alba", "alba")],
    )
}

fn ctrl(ch: char) -> Key {
    Key::Char { ch, ctrl: true }
}

fn plain(ch: char) -> Key {
    Key::Char { ch, ctrl: false }
}

#[test]
fn failed_navigation_changes_only_the_error() {
    let mut app = session();
    app.handle_key(Key::Down);
    app.handle_key(plain('a'));
    let items = app.list().items().clone();
    let cursor = app.list().cursor();
    app.navigate("/nowhere".to_string(), Err("No such file or directory".to_string()));
    assert_eq!(app.root(), "/p");
    assert_eq!(app.list().items(), &items);
    assert_eq!(app.list().cursor(), cursor);
    assert_eq!(app.input(), "a");
    assert_eq!(app.error(), "No such file or directory");
}

#[test]
fn successful_navigation_starts_afresh() {
    let mut app = session();
    app.handle_key(plain('b'));
    app.navigate("/q".to_string(), Err("denied".to_string()));
    app.navigate(
        "/q".to_string(),
        Ok(vec![dir("/q/one", "one"), dir("/q/.hidden", ".hidden")]),
    );
    assert_eq!(app.root(), "/q");
    assert_eq!(app.list().items(), &vec!["/q/one".to_string()]);
    assert_eq!(app.list().cursor(), Some(0));
    assert_eq!(app.input(), "");
    assert_eq!(app.error(), "");
}

#[test]
fn keys_map_to_intents() {
    assert!(matches!(intent(&ctrl('q')), Intent::Exit));
    assert!(matches!(intent(&ctrl('c')), Intent::Exit));
    assert!(matches!(intent(&Key::Esc), Intent::Exit));
    assert!(matches!(intent(&ctrl('k')), Intent::Previous));
    assert!(matches!(intent(&Key::Up), Intent::Previous));
    assert!(matches!(intent(&ctrl('j')), Intent::Next));
    assert!(matches!(intent(&Key::Down), Intent::Next));
    assert!(matches!(intent(&Key::Left), Intent::OpenParent));
    assert!(matches!(intent(&ctrl('y')), Intent::Accept));
    assert!(matches!(intent(&Key::Enter), Intent::OpenSelected));
    assert!(matches!(intent(&Key::Right), Intent::OpenSelected));
    assert!(matches!(intent(&plain('q')), Intent::Type('q')));
    assert!(matches!(intent(&ctrl('x')), Intent::Type('x')));
    assert!(matches!(intent(&Key::Backspace), Intent::Erase));
    assert!(matches!(intent(&Key::Other), Intent::Ignore));
}

#[test]
fn typing_filters_and_erasing_restores() {
    let mut app = session();
    assert!(matches!(app.handle_key(plain('l')), Action::Stay));
    assert_eq!(app.input(), "l");
    assert!(!app.list().items().contains(&"/p/beta".to_string()));
    app.handle_key(plain('b'));
    assert_eq!(app.input(), "lb");
    assert_eq!(app.list().items(), &vec!["/p/alba".to_string()]);
    app.handle_key(Key::Backspace);
    app.handle_key(Key::Backspace);
    assert_eq!(app.input(), "");
    assert_eq!(app.list().items().len(), 3);
    app.handle_key(Key::Backspace);
    assert_eq!(app.input(), "");
}

#[test]
fn enter_opens_the_highlighted_entry() {
    let mut app = session();
    app.handle_key(Key::Down);
    match app.handle_key(Key::Enter) {
        Action::Open(path) => assert_eq!(path, "/p/beta"),
        _ => panic!("expected an open action"),
    }
}

#[test]
fn enter_on_empty_view_stays() {
    let mut app = session();
    app.handle_key(plain('z'));
    app.handle_key(plain('z'));
    assert!(matches!(app.handle_key(Key::Right), Action::Stay));
}

#[test]
fn accept_exit_and_parent_are_handed_back() {
    let mut app = session();
    match app.handle_key(ctrl('y')) {
        Action::Accept(root) => assert_eq!(root, "/p"),
        _ => panic!("expected an accept action"),
    }
    assert!(matches!(app.handle_key(Key::Esc), Action::Exit));
    assert!(matches!(app.handle_key(Key::Left), Action::OpenParent));
    assert!(matches!(app.handle_key(Key::Other), Action::Stay));
    assert_eq!(app.list().cursor(), Some(0));
}

#[test]
fn control_keys_move_the_cursor() {
    let mut app = session();
    app.handle_key(ctrl('j'));
    assert_eq!(app.list().cursor(), Some(1));
    app.handle_key(ctrl('k'));
    app.handle_key(Key::Up);
    assert_eq!(app.list().cursor(), Some(2));
    assert_eq!(app.input(), "");
}
