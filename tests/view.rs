use pass_tui::backend::{Backend, BackendError};
use pass_tui::rows::compute_rows;
use pass_tui::session::{App, Modal, ModalAction, PendingAction, PreviewMode};
use pass_tui::store::{EntryKind, ScanRecord};
use std::cell::RefCell;

fn segs(p: &str) -> Vec<String> {
    if p.is_empty() {
        Vec::new()
    } else {
        p.split('/').map(|s| s.to_string()).collect()
    }
}

fn dir(p: &str) -> ScanRecord {
    ScanRecord { path: segs(p), is_dir: true, is_file: false }
}

fn file(p: &str) -> ScanRecord {
    ScanRecord { path: segs(p), is_dir: false, is_file: true }
}

struct FakeStore {
    records: Vec<ScanRecord>,
    locked: RefCell<bool>,
    log: RefCell<Vec<String>>,
}

impl FakeStore {
    fn new(records: Vec<ScanRecord>) -> Self {
        FakeStore { records, locked: RefCell::new(false), log: RefCell::new(Vec::new()) }
    }
}

impl Backend for FakeStore {
    fn scan(&self) -> Result<Vec<ScanRecord>, String> {
        Ok(self.records.clone())
    }
    fn edit(&self, entry: &str) -> Result<(), String> {
        self.log.borrow_mut().push(format!("edit {}", entry));
        Ok(())
    }
    fn yank(&self, entry: &str) -> Result<(), String> {
        self.log.borrow_mut().push(format!("-c {}", entry));
        Ok(())
    }
    fn rm(&self, target: &str, recursive: bool) -> Result<(), String> {
        self.log.borrow_mut().push(format!("rm {} {}", recursive, target));
        Ok(())
    }
    fn show(&self, entry: &str) -> Result<String, BackendError> {
        if *self.locked.borrow() {
            Err(BackendError::Locked)
        } else if entry == "broken" {
            Err(BackendError::Failed("pass show failed".to_string()))
        } else {
            Ok(format!("content of {}", entry))
        }
    }
    fn show_qr(&self, entry: &str) -> Result<String, BackendError> {
        Ok(format!("qr of {}", entry))
    }
    fn path_exists(&self, rel: &str) -> bool {
        let file = format!("{}.gpg", rel);
        self.records.iter().any(|r| {
            let p = r.path.join("/");
            (r.is_dir && p == rel) || (r.is_file && p == file)
        })
    }
    fn mv(&self, from: &str, to: &str) -> Result<(), String> {
        self.log.borrow_mut().push(format!("mv {} {}", from, to));
        Ok(())
    }
    fn unlock(&self, _entry: &str, _qr: bool) -> Result<(), String> {
        *self.locked.borrow_mut() = false;
        Ok(())
    }
}

struct MissingStore;

impl Backend for MissingStore {
    fn scan(&self) -> Result<Vec<ScanRecord>, String> {
        Err("Password store not found".to_string())
    }
    fn edit(&self, _entry: &str) -> Result<(), String> {
        Ok(())
    }
    fn yank(&self, _entry: &str) -> Result<(), String> {
        Ok(())
    }
    fn rm(&self, _target: &str, _recursive: bool) -> Result<(), String> {
        Ok(())
    }
    fn show(&self, _entry: &str) -> Result<String, BackendError> {
        Err(BackendError::Failed("no store".to_string()))
    }
    fn show_qr(&self, _entry: &str) -> Result<String, BackendError> {
        Err(BackendError::Failed("no store".to_string()))
    }
    fn path_exists(&self, _rel: &str) -> bool {
        false
    }
    fn mv(&self, _from: &str, _to: &str) -> Result<(), String> {
        Ok(())
    }
}

fn sample_records() -> Vec<ScanRecord> {
    vec![
        dir("a"),
        dir("a/b"),
        file("a/b/one.gpg"),
        dir("x"),
        file("x/two.gpg"),
        dir(".git"),
        file(".git/ignore"),
    ]
}

fn app_with(records: Vec<ScanRecord>) -> App<FakeStore> {
    let mut app = App::new_with_store(FakeStore::new(records)).expect("store scans");
    app.apply_filter();
    app
}

fn shown(app: &App<FakeStore>) -> Vec<(String, Vec<bool>)> {
    app.rows
        .iter()
        .map(|r| (app.entries[r.idx].path.join("/"), r.branches.clone()))
        .collect()
}

fn keys(app: &App<FakeStore>) -> Vec<String> {
    shown(app).into_iter().map(|(k, _)| k).collect()
}

fn row_of(app: &App<FakeStore>, key: &str) -> usize {
    keys(app).iter().position(|k| k == key).expect("row shown")
}

#[test]
fn filter_keeps_ancestors_of_a_deep_match() {
    let mut app = app_with(sample_records());
    app.filter = "one".to_string();
    app.apply_filter();
    assert_eq!(
        shown(&app),
        vec![
            ("a".to_string(), vec![true]),
            ("a/b".to_string(), vec![true, true]),
            ("a/b/one".to_string(), vec![true, true, true]),
        ]
    );
}

#[test]
fn unfiltered_view_shows_only_expanded_levels() {
    let app = app_with(sample_records());
    assert_eq!(shown(&app), vec![("a".to_string(), vec![false]), ("x".to_string(), vec![true])]);
}

#[test]
fn expanding_and_collapsing_twice_restores_rows() {
    let mut app = app_with(sample_records());
    let before = shown(&app);
    app.cursor = row_of(&app, "a");
    app.enter();
    assert_eq!(keys(&app), vec!["a", "a/b", "x"]);
    assert_eq!(shown(&app)[1].1, vec![false, true]);
    app.enter();
    assert_eq!(shown(&app), before);
}

#[test]
fn enter_on_a_leaf_changes_nothing() {
    let mut app = app_with(vec![file("solo.gpg")]);
    let before = app.expanded.clone();
    app.cursor = 0;
    app.enter();
    assert_eq!(app.expanded, before);
    assert_eq!(keys(&app), vec!["solo"]);
}

#[test]
fn directories_come_before_leaves_among_siblings() {
    let app = app_with(vec![file("b.gpg"), dir("z"), file("a.gpg"), dir("c"), file("c.gpg")]);
    assert_eq!(keys(&app), vec!["c", "z", "a", "b", "c"]);
    assert!(app.entries[app.rows[0].idx].is_dir());
    assert!(!app.entries[app.rows[2].idx].is_dir());
    assert_eq!(app.rows[4].branches, vec![true]);
}

#[test]
fn filter_keeps_sibling_order() {
    let mut app = app_with(vec![dir("db"), file("db/x.gpg"), file("dbz.gpg"), dir("adb")]);
    app.filter = "db".to_string();
    app.apply_filter();
    assert_eq!(keys(&app), vec!["adb", "db", "dbz"]);
}

#[test]
fn cursor_is_clamped_when_rows_shrink() {
    let mut app = app_with(sample_records());
    app.cursor = 1;
    app.filter = "one".to_string();
    app.apply_filter();
    assert_eq!(app.cursor, 1);
    app.cursor = 7;
    app.apply_filter();
    assert_eq!(app.cursor, 2);
    app.filter = "nothing matches".to_string();
    app.apply_filter();
    assert!(app.rows.is_empty());
    assert_eq!(app.cursor, 0);
}

#[test]
fn recomputing_twice_gives_the_same_rows() {
    let mut app = app_with(sample_records());
    app.filter = "o".to_string();
    app.apply_filter();
    let first = shown(&app);
    app.apply_filter();
    assert_eq!(shown(&app), first);
    let again = compute_rows(&app.entries, &app.cwd, "o", &app.expanded);
    let again: Vec<usize> = again.iter().map(|r| r.idx).collect();
    let rows: Vec<usize> = app.rows.iter().map(|r| r.idx).collect();
    assert_eq!(again, rows);
}

#[test]
fn missing_store_is_an_error() {
    let r = App::new_with_store(MissingStore);
    assert_eq!(r.err(), Some("Password store not found".to_string()));
}

#[test]
fn selected_entry_path_only_for_leaves() {
    let mut app = app_with(vec![dir("d"), file("d/k.gpg"), file("top.gpg")]);
    app.cursor = row_of(&app, "d");
    assert_eq!(app.selected_entry_path(), None);
    app.cursor = row_of(&app, "top");
    assert_eq!(app.selected_entry_path(), Some("top".to_string()));
}

#[test]
fn locked_key_waits_for_unlock_then_shows_content() {
    let store = FakeStore::new(vec![file("secret.gpg")]);
    *store.locked.borrow_mut() = true;
    let mut app = App::new_with_store(store).expect("store scans");
    app.apply_filter();
    app.cursor = 0;
    app.update_preview();
    assert_eq!(app.pending_preview, Some(("secret".to_string(), PreviewMode::Raw)));
    assert_eq!(app.preview_text, "GPG key locked. Prompting for passphrase\u{2026}");
    assert_eq!(app.status, None);
    let (rel, mode) = app.take_pending_preview().expect("a retrieval waits");
    assert_eq!(app.pending_preview, None);
    app.backend.unlock(&rel, mode == PreviewMode::Qr).expect("unlock");
    assert_eq!(app.load_preview_after_unlock(rel, mode), Ok(()));
    assert_eq!(app.preview_key, Some("secret".to_string()));
    assert_eq!(app.preview_mode, PreviewMode::Raw);
    assert_eq!(app.preview_text, "content of secret");
    assert!(!app.preview_is_error);
}

#[test]
fn locked_again_after_unlock_is_an_error() {
    let mut app = app_with(vec![file("secret.gpg")]);
    let r = app.apply_preview_result(
        "secret".to_string(),
        PreviewMode::Raw,
        true,
        Err(BackendError::Locked),
    );
    assert_eq!(r, Err("key material is locked".to_string()));
    assert!(app.preview_is_error);
    assert_eq!(app.pending_preview, None);
}

#[test]
fn other_failure_is_shown_and_reported() {
    let mut app = app_with(vec![file("broken.gpg")]);
    app.cursor = 0;
    app.update_preview();
    assert_eq!(app.status, Some("pass show failed".to_string()));
    assert!(app.preview_is_error);
    assert_eq!(app.preview_text, "pass show failed");
    assert_eq!(app.pending_preview, None);
}

#[test]
fn preview_is_cleared_on_a_directory() {
    let mut app = app_with(vec![dir("d"), file("top.gpg")]);
    app.cursor = row_of(&app, "top");
    app.update_preview();
    assert_eq!(app.preview_key, Some("top".to_string()));
    app.cursor = row_of(&app, "d");
    app.update_preview();
    assert_eq!(app.preview_key, None);
    assert_eq!(app.preview_text, "");
}

#[test]
fn qr_preview_switches_mode() {
    let mut app = app_with(vec![file("top.gpg")]);
    app.cursor = 0;
    app.update_preview();
    app.update_preview_qr();
    assert_eq!(app.preview_mode, PreviewMode::Qr);
    assert_eq!(app.preview_text, "qr of top");
    assert!(!app.needs_fetch("top", PreviewMode::Qr));
    assert!(app.needs_fetch("top", PreviewMode::Raw));
}

#[test]
fn rename_onto_existing_leaf_is_refused() {
    let mut app = app_with(sample_records());
    app.modal = Some(Modal::Input {
        title: "Rename entry".to_string(),
        buffer: "x/two".to_string(),
        action: ModalAction::Rename { from: "a/b/one".to_string() },
    });
    let r = app.submit_modal();
    assert!(r.is_none());
    assert!(app.modal.is_none());
    assert!(app.pending.is_none());
    assert_eq!(app.status, Some("Target 'x/two' exists \u{2014} rename aborted".to_string()));
}

#[test]
fn rename_onto_existing_directory_is_refused() {
    let mut app = app_with(sample_records());
    app.modal = Some(Modal::Input {
        title: "Rename entry".to_string(),
        buffer: " a/b ".to_string(),
        action: ModalAction::Rename { from: "x/two".to_string() },
    });
    assert!(app.submit_modal().is_none());
    assert!(app.status.is_some());
}

#[test]
fn rename_to_a_new_target_is_queued() {
    let mut app = app_with(sample_records());
    app.modal = Some(Modal::Input {
        title: "Rename entry".to_string(),
        buffer: "  x/three\t".to_string(),
        action: ModalAction::Rename { from: "x/two".to_string() },
    });
    match app.submit_modal() {
        Some(PendingAction::Rename { from, to }) => {
            assert_eq!(from, "x/two");
            assert_eq!(to, "x/three");
        }
        other => panic!("unexpected {:?}", other),
    }
    assert_eq!(app.status, None);
}

#[test]
fn rename_to_itself_or_blank_is_dropped() {
    let mut app = app_with(sample_records());
    app.modal = Some(Modal::Input {
        title: "Rename entry".to_string(),
        buffer: "x/two".to_string(),
        action: ModalAction::Rename { from: "x/two".to_string() },
    });
    assert!(app.submit_modal().is_none());
    app.modal = Some(Modal::Input {
        title: "Rename entry".to_string(),
        buffer: "   ".to_string(),
        action: ModalAction::Rename { from: "x/two".to_string() },
    });
    assert!(app.submit_modal().is_none());
    assert_eq!(app.status, None);
}

#[test]
fn add_modal_prefills_hovered_directory() {
    let mut app = app_with(sample_records());
    app.cursor = row_of(&app, "x");
    app.open_add_modal();
    match &app.modal {
        Some(Modal::Input { title, buffer, action: ModalAction::AddHere }) => {
            assert_eq!(title, "New entry path");
            assert_eq!(buffer, "x/");
        }
        other => panic!("unexpected {:?}", other),
    }
}

#[test]
fn add_modal_prefills_parent_of_leaf() {
    let mut app = app_with(vec![dir("d"), file("d/k.gpg"), file("top.gpg")]);
    app.cursor = row_of(&app, "d");
    app.enter();
    app.cursor = row_of(&app, "d/k");
    app.open_add_modal();
    match &app.modal {
        Some(Modal::Input { buffer, .. }) => assert_eq!(buffer, "d/"),
        other => panic!("unexpected {:?}", other),
    }
    app.cursor = row_of(&app, "top");
    app.open_add_modal();
    match &app.modal {
        Some(Modal::Input { buffer, .. }) => assert_eq!(buffer, ""),
        other => panic!("unexpected {:?}", other),
    }
}

#[test]
fn submitting_add_trims_and_rejects_blank() {
    let mut app = app_with(sample_records());
    app.modal = Some(Modal::Input {
        title: "New entry path".to_string(),
        buffer: "  web/site \n".to_string(),
        action: ModalAction::AddHere,
    });
    match app.submit_modal() {
        Some(PendingAction::Add(p)) => assert_eq!(p, "web/site"),
        other => panic!("unexpected {:?}", other),
    }
    app.modal = Some(Modal::Input {
        title: "New entry path".to_string(),
        buffer: " \u{3000}\t".to_string(),
        action: ModalAction::AddHere,
    });
    assert!(app.submit_modal().is_none());
}

#[test]
fn delete_needs_confirmation() {
    let mut app = app_with(sample_records());
    app.open_delete_modal();
    match &app.modal {
        Some(Modal::Confirm { title, message, selected_ok, .. }) => {
            assert_eq!(title, "Confirm Delete");
            assert_eq!(message, "Delete selected entry?");
            assert!(*selected_ok);
        }
        other => panic!("unexpected {:?}", other),
    }
    assert!(matches!(app.submit_modal(), Some(PendingAction::Delete)));
    app.modal = Some(Modal::Confirm {
        title: "Confirm Delete".to_string(),
        message: "Delete selected entry?".to_string(),
        action: ModalAction::DeleteSelected,
        selected_ok: false,
    });
    assert!(app.submit_modal().is_none());
    assert!(app.submit_modal().is_none());
}

#[test]
fn rename_modal_prefills_selected_key() {
    let mut app = app_with(sample_records());
    app.cursor = row_of(&app, "x");
    app.open_rename_modal();
    match &app.modal {
        Some(Modal::Input { buffer, action: ModalAction::Rename { from }, .. }) => {
            assert_eq!(buffer, "x");
            assert_eq!(from, "x");
        }
        other => panic!("unexpected {:?}", other),
    }
}

#[test]
fn delete_selected_removes_directory_recursively() {
    let mut app = app_with(sample_records());
    app.cursor = row_of(&app, "x");
    assert_eq!(app.delete_target(), Some(("x".to_string(), true)));
    assert_eq!(app.delete_selected(), Ok(()));
    assert_eq!(app.backend.log.borrow().clone(), vec!["rm true x".to_string()]);
}

#[test]
fn run_action_dispatches_to_the_store() {
    let mut app = app_with(sample_records());
    pass_tui::session::run_action(&mut app, PendingAction::Edit("foo/bar".to_string())).unwrap();
    pass_tui::session::run_action(&mut app, PendingAction::Add("new/one".to_string())).unwrap();
    pass_tui::session::run_action(
        &mut app,
        PendingAction::Rename { from: "a".to_string(), to: "b".to_string() },
    )
    .unwrap();
    assert_eq!(
        app.backend.log.borrow().clone(),
        vec!["edit foo/bar".to_string(), "edit new/one".to_string(), "mv a b".to_string()]
    );
    assert_eq!(app.entries.iter().filter(|e| e.kind == EntryKind::Dir).count(), 4);
}

#[test]
fn clearing_the_filter_restores_expand_choices() {
    let mut app = app_with(sample_records());
    app.cursor = row_of(&app, "a");
    app.enter();
    let before = shown(&app);
    let expanded = app.expanded.clone();
    app.filter = "two".to_string();
    app.apply_filter();
    assert_eq!(keys(&app), vec!["x", "x/two"]);
    assert_eq!(app.expanded, expanded);
    app.filter.clear();
    app.apply_filter();
    assert_eq!(shown(&app), before);
}

#[test]
fn rename_onto_git_metadata_is_refused_by_the_store() {
    let mut app = app_with(sample_records());
    app.modal = Some(Modal::Input {
        title: "Rename entry".to_string(),
        buffer: ".git".to_string(),
        action: ModalAction::Rename { from: "x/two".to_string() },
    });
    assert!(app.submit_modal().is_none());
    assert_eq!(app.status, Some("Target '.git' exists \u{2014} rename aborted".to_string()));
}

#[test]
fn submit_given_decides_from_the_answer() {
    let mut app = app_with(sample_records());
    app.modal = Some(Modal::Input {
        title: "Rename entry".to_string(),
        buffer: "y".to_string(),
        action: ModalAction::Rename { from: "x".to_string() },
    });
    assert!(app.submit_modal_given(true).is_none());
    assert!(app.status.is_some());
}

#[test]
fn qr_preview_on_a_directory_clears_the_preview() {
    let mut app = app_with(vec![dir("d"), file("top.gpg")]);
    app.cursor = row_of(&app, "top");
    app.update_preview_qr();
    assert_eq!(app.preview_key, Some("top".to_string()));
    app.cursor = row_of(&app, "d");
    app.update_preview_qr();
    assert_eq!(app.preview_key, None);
    assert_eq!(app.preview_text, "");
    assert!(!app.preview_is_error);
    assert_eq!(app.preview_mode, PreviewMode::Raw);
    assert_eq!(app.pending_preview, None);
}

#[test]
fn hard_failure_after_unlock_ends_the_wait() {
    let store = FakeStore::new(vec![file("secret.gpg")]);
    *store.locked.borrow_mut() = true;
    let mut app = App::new_with_store(store).expect("store scans");
    app.apply_filter();
    app.cursor = 0;
    app.update_preview();
    assert!(app.pending_preview.is_some());
    let r = app.load_preview_after_unlock("secret".to_string(), PreviewMode::Raw);
    assert_eq!(r, Err("key material is locked".to_string()));
    assert_eq!(app.pending_preview, None);
    assert!(app.preview_is_error);
}

#[test]
fn toggling_keeps_the_cursor_on_the_directory() {
    let mut app = app_with(vec![dir("a"), file("a/k.gpg"), dir("m"), file("m/n.gpg")]);
    app.cursor = row_of(&app, "m");
    app.enter();
    assert_eq!(keys(&app), vec!["a", "m", "m/n"]);
    assert_eq!(app.cursor, 1);
    assert_eq!(app.selected_dir_expanded(), Some(true));
    app.cursor = row_of(&app, "a");
    app.enter();
    assert_eq!(keys(&app), vec!["a", "a/k", "m", "m/n"]);
    assert_eq!(app.cursor, 0);
    app.enter();
    assert_eq!(app.cursor, 0);
    assert_eq!(app.selected_dir_expanded(), Some(false));
    app.cursor = row_of(&app, "m/n");
    assert_eq!(app.selected_dir_expanded(), None);
}
