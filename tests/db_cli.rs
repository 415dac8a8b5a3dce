use vago::cli::{command_from_args, Command};
use vago::db::{Db, ItemModel};

#[test]
fn bookmark_text_with_and_without_name() {
    let named = ItemModel { name: Some("work".to_string()), path: "/w".to_string() };
    assert_eq!(named.as_string(), "work /w");
    let bare = ItemModel { name: None, path: "/w".to_string() };
    assert_eq!(bare.as_string(), "/w");
}

#[test]
fn store_lives_in_home() {
    assert_eq!(Db::new("/home/u").path(), "/home/u/.dirbkm");
    assert_eq!(Db::new("/home/u/").path(), "/home/u/.dirbkm");
    assert!(Db::new("/").data.bookmarks.is_empty());
}

#[test]
fn add_appends_in_order() {
    let mut db = Db::new("/h");
    db.add(None, "/a".to_string());
    db.add(Some("b".to_string()), "/b".to_string());
    assert_eq!(db.data.bookmarks.len(), 2);
    assert_eq!(db.data.bookmarks[0].path, "/a");
    assert_eq!(db.data.bookmarks[1].as_string(), "b /b");
    assert_eq!(db.path(), "/h/.dirbkm");
}

#[test]
fn commands_from_arguments() {
    assert!(matches!(command_from_args(None, None), Command::Open));
    assert!(matches!(command_from_args(Some("add"), Some("x".to_string())), Command::Add(Some(n)) if n == "x"));
    assert!(matches!(command_from_args(Some("-a"), None), Command::Add(None)));
    assert!(matches!(command_from_args(Some("delete"), None), Command::Delete));
    assert!(matches!(command_from_args(Some("-d"), None), Command::Delete));
    assert!(matches!(command_from_args(Some("ad"), None), Command::Help));
    assert!(matches!(command_from_args(Some("adds"), None), Command::Help));
    assert!(matches!(command_from_args(Some(""), None), Command::Help));
}
