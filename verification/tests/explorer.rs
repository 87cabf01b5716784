use explorer::entry::FsEntry;
use explorer::explorer::{DialogBody, Explorer, OpenWithState};
use explorer::open_with::DesktopApp;

fn entry(path: &str, is_dir: bool, broken: bool) -> FsEntry {
    FsEntry {
        path: path.to_string(),
        is_dir,
        is_symlink: broken,
        is_broken_symlink: broken,
        modified: None,
        size: 42,
    }
}

fn explorer(selected: &[&str]) -> Explorer {
    Explorer {
        selected: selected.iter().map(|s| s.to_string()).collect(),
        entries: vec![
            entry("/d/a.png", false, false),
            entry("/d/b.txt", false, false),
            entry("/d/pics.png", true, false),
            entry("/d/gone.jpg", false, true),
            entry("/d/c.GIF", false, false),
        ],
        preview_dismissed: None,
        open_with: None,
        next_ticket: 0,
        op_error: None,
    }
}

#[test]
fn preview_target_of_single_image_selection() {
    assert_eq!(explorer(&["/d/a.png"]).preview_target().as_deref(), Some("/d/a.png"));
    assert_eq!(explorer(&["/d/c.GIF"]).preview_target().as_deref(), Some("/d/c.GIF"));
    assert_eq!(explorer(&["/d/b.txt"]).preview_target(), None);
    assert_eq!(explorer(&["/d/pics.png"]).preview_target(), None);
    assert_eq!(explorer(&["/d/gone.jpg"]).preview_target(), None);
    assert_eq!(explorer(&["/d/missing.png"]).preview_target(), None);
    assert_eq!(explorer(&[]).preview_target(), None);
    assert_eq!(explorer(&["/d/a.png", "/d/c.GIF"]).preview_target(), None);
}

#[test]
fn dismissed_preview_stays_closed_until_selection_changes() {
    let mut e = explorer(&["/d/a.png"]);
    e.dismiss_preview();
    assert_eq!(e.preview_dismissed.as_deref(), Some("/d/a.png"));
    assert_eq!(e.preview_target(), None);
    assert_eq!(e.preview_target(), None);
    e.selected = vec!["/d/c.GIF".to_string()];
    assert_eq!(e.preview_target().as_deref(), Some("/d/c.GIF"));
    assert_eq!(e.preview_dismissed, None);
    e.selected = vec!["/d/a.png".to_string()];
    assert_eq!(e.preview_target().as_deref(), Some("/d/a.png"));
    e.selected.clear();
    e.dismiss_preview();
    assert_eq!(e.preview_dismissed, None);
}

#[test]
fn open_with_dialog_flow() {
    let mut e = explorer(&[]);
    let ticket = e.begin_open_with("/d/a.png".to_string());
    assert_eq!(ticket, 0);
    assert_eq!(e.next_ticket, 1);
    let state = e.open_with.as_ref().expect("dialog");
    assert!(state.loading && state.apps.is_empty());
    assert_eq!(state.body(), DialogBody::Loading);
    assert_eq!(state.title(), "Open \u{201c}a.png\u{201d} With");
    let apps = vec![DesktopApp { name: "Viewer".to_string(), command: "eog".to_string(), icon: None, terminal: false }];
    assert!(e.finish_open_with(ticket, apps));
    let state = e.open_with.as_ref().expect("dialog");
    assert!(!state.loading);
    assert_eq!(state.apps.len(), 1);
    assert_eq!(state.body(), DialogBody::Applications);
    assert_eq!(e.launch_with_app().as_deref(), Some("/d/a.png"));
    assert!(e.open_with.is_none());
    assert_eq!(e.launch_with_app(), None);
    assert!(!e.finish_open_with(ticket, Vec::new()));
    assert!(e.open_with.is_none());
    e.record_launch_error("/d/a.png", "No such file or directory (os error 2)");
    assert_eq!(e.op_error.as_deref(), Some("Couldn't open /d/a.png: No such file or directory (os error 2)"));
    e.begin_open_with("/".to_string());
    assert_eq!(e.open_with.as_ref().unwrap().title(), "Open \u{201c}/\u{201d} With");
    assert!(e.cancel_open_with());
    assert!(!e.cancel_open_with());
}

#[test]
fn dialog_title_uses_file_name() {
    let s = OpenWithState { path: "/x/y/report.pdf/".to_string(), apps: Vec::new(), loading: true, ticket: 0 };
    assert_eq!(s.title(), "Open \u{201c}report.pdf\u{201d} With");
    let done = OpenWithState { path: "/x".to_string(), apps: Vec::new(), loading: false, ticket: 0 };
    assert_eq!(done.body(), DialogBody::NoApplications);
}

#[test]
fn entry_size_of_listed_file() {
    let e = explorer(&[]);
    assert_eq!(e.entry_size(&"/d/b.txt".to_string()), Some(42));
    assert_eq!(e.entry_size(&"/d/none".to_string()), None);
}

#[test]
fn superseded_search_does_not_fill_newer_dialog() {
    let mut e = explorer(&[]);
    let first = e.begin_open_with("/d/a.png".to_string());
    let second = e.begin_open_with("/d/b.txt".to_string());
    assert_ne!(first, second);
    let stale = vec![DesktopApp { name: "Viewer".to_string(), command: "eog".to_string(), icon: None, terminal: false }];
    assert!(!e.finish_open_with(first, stale));
    let state = e.open_with.as_ref().expect("dialog");
    assert_eq!(state.path, "/d/b.txt");
    assert!(state.loading && state.apps.is_empty());
    assert!(e.finish_open_with(second, Vec::new()));
    assert_eq!(e.open_with.as_ref().unwrap().body(), DialogBody::NoApplications);
}

#[test]
fn tickets_wrap_around() {
    let mut e = explorer(&[]);
    e.next_ticket = u64::MAX;
    assert_eq!(e.begin_open_with("/d/a.png".to_string()), u64::MAX);
    assert_eq!(e.next_ticket, 0);
}

#[test]
fn paths_compare_by_components() {
    let mut e = explorer(&["/d//a.png"]);
    assert_eq!(e.preview_target().as_deref(), Some("/d//a.png"));
    assert_eq!(e.entry_size(&"/d/./b.txt/".to_string()), Some(42));
    e.dismiss_preview();
    e.selected = vec!["/d/a.png".to_string()];
    assert_eq!(e.preview_target(), None);
    assert_eq!(e.preview_dismissed.as_deref(), Some("/d//a.png"));
}
