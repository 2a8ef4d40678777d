use random_file::extension::ExtensionFilter;
use random_file::walk::{Action, Entry, Event, Walk};

fn walk(exts: &[&str]) -> Walk {
    let v: Vec<String> = exts.iter().map(|t| t.to_string()).collect();
    Walk::new(ExtensionFilter::new(&v), 42)
}

fn file(path: &str, name: &str) -> Event {
    Event::Found(Entry { path: path.to_string(), name: name.to_string(), is_dir: false, is_symlink: false })
}

fn dir(path: &str, name: &str, is_symlink: bool) -> Event {
    Event::Found(Entry { path: path.to_string(), name: name.to_string(), is_dir: true, is_symlink })
}

fn is_next(a: &Action) -> bool {
    matches!(a, Action::Next)
}

fn descends_to(a: &Action, p: &str) -> bool {
    matches!(a, Action::Descend(q) if q == p)
}

#[test]
fn symlink_root_does_nothing() {
    let w = walk(&["txt"]);
    assert!(matches!(Walk::begin("/r".to_string(), true), Action::Done));
    assert!(descends_to(&Walk::begin("/r".to_string(), false), "/r"));
}

#[test]
fn symlinked_directory_is_not_entered() {
    let mut w = walk(&["txt"]);
    assert!(is_next(&w.step(Event::Opened)));
    let a = w.step(dir("/r/link", "link", true));
    assert!(is_next(&a));
    let a = w.step(dir("/r/real", "real", false));
    assert!(descends_to(&a, "/r/real"));
    assert_eq!(w.count(), 0);
}

#[test]
fn matching_directory_is_visited_and_entered() {
    let mut w = walk(&["d"]);
    w.step(Event::Opened);
    let a = w.step(dir("/r/x.d", "x.d", false));
    assert!(descends_to(&a, "/r/x.d"));
    assert_eq!(w.count(), 1);
    assert_eq!(w.finish(), Some("/r/x.d".to_string()));
}

#[test]
fn unreadable_directory_is_skipped() {
    let mut w = walk(&["txt"]);
    w.step(Event::Opened);
    assert!(descends_to(&w.step(dir("/r/locked", "locked", false)), "/r/locked"));
    assert!(is_next(&w.step(Event::OpenFailed)));
    assert_eq!(w.open_dirs(), 1);
    assert!(is_next(&w.step(Event::EntryFailed)));
    assert!(is_next(&w.step(file("/r/a.txt", "a.txt"))));
    assert!(matches!(w.step(Event::Exhausted), Action::Done));
    assert_eq!(w.count(), 1);
    assert_eq!(w.finish(), Some("/r/a.txt".to_string()));
}

#[test]
fn unreadable_root_ends_the_walk() {
    let mut w = walk(&["txt"]);
    assert!(matches!(w.step(Event::OpenFailed), Action::Done));
    assert_eq!(w.finish(), None);
}

#[test]
fn nested_walk_visits_every_match() {
    let mut w = walk(&["txt", ".md"]);
    assert!(is_next(&w.step(Event::Opened)));
    assert!(is_next(&w.step(file("/r/a.txt", "a.txt"))));
    assert!(descends_to(&w.step(dir("/r/s", "s", false)), "/r/s"));
    assert!(is_next(&w.step(Event::Opened)));
    assert_eq!(w.open_dirs(), 2);
    assert!(is_next(&w.step(file("/r/s/b.md", "b.md"))));
    assert!(is_next(&w.step(file("/r/s/c.rs", "c.rs"))));
    assert!(matches!(w.step(Event::Exhausted), Action::Ascend));
    assert_eq!(w.open_dirs(), 1);
    assert!(is_next(&w.step(file("/r/.txt", ".txt"))));
    assert!(matches!(w.step(Event::Exhausted), Action::Done));
    assert_eq!(w.open_dirs(), 0);
    assert_eq!(w.count(), 3);
    let c = w.finish().unwrap();
    assert!(c == "/r/a.txt" || c == "/r/s/b.md" || c == "/r/.txt");
}

#[test]
fn no_match_gives_none() {
    let mut w = walk(&["png"]);
    w.step(Event::Opened);
    w.step(file("/r/a.txt", "a.txt"));
    w.step(file("/r/b", "b"));
    w.step(Event::Exhausted);
    assert_eq!(w.count(), 0);
    assert_eq!(w.finish(), None);
}
