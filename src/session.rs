//! One browsing session: the index, the view state, dialogs, queued actions and the preview.
use crate::backend::{Backend, BackendError};
use crate::codec::{join_key, lemma_prefix_key_shorter, path_to_store_key, segs_view};
use crate::rows::{
    compute_rows, key_in, lemma_row_position_unique, lemma_rows_determined, open_dir, same_prefix, key_set, rel_key, rows_exact, sub_path, visible,
    ViewRow,
};
use crate::store::{
    entries_view, index_from_scan, index_of_scan, index_sorted, root_view, EntryKind, EntryView, ScanRecord,
    StoreEntry,
};
use crate::order::cmp_segment;
use vstd::prelude::*;
use vstd::string::*;

verus! {

/// What a dialog was opened for.
#[derive(Clone, Debug)]
pub enum ModalAction {
    AddHere,
    DeleteSelected,
    Rename { from: String },
}

/// The dialog open over the view, if any.
#[derive(Clone, Debug)]
pub enum Modal {
    Input { title: String, buffer: String, action: ModalAction },
    Confirm { title: String, message: String, action: ModalAction, selected_ok: bool },
}

/// A side-effecting action queued for the driving loop.
#[derive(Clone, Debug)]
pub enum PendingAction {
    Edit(String),
    Add(String),
    Delete,
    Rename { from: String, to: String },
}

/// How an entry's content is shown.
#[derive(Clone, Copy, PartialEq, Eq, Structural, Debug)]
pub enum PreviewMode {
    Raw,
    Qr,
}

/// The session state of one browser over one store.
pub struct App<B: Backend> {
    pub backend: B,
    pub cwd: Vec<String>,
    pub entries: Vec<StoreEntry>,
    pub rows: Vec<ViewRow>,
    pub expanded: Vec<String>,
    pub cursor: usize,
    pub quit: bool,
    pub modal: Option<Modal>,
    pub pending: Option<PendingAction>,
    pub pending_preview: Option<(String, PreviewMode)>,
    pub filter: String,
    pub filter_mode: bool,
    pub filter_input: String,
    pub status: Option<String>,
    pub preview_key: Option<String>,
    pub preview_text: String,
    pub preview_is_error: bool,
    pub preview_mode: PreviewMode,
}

/// The view is the same in both states: index, rows, cursor, expanded keys, filter, directory.
pub open spec fn view_same<B: Backend>(a: App<B>, b: App<B>) -> bool {
    &&& a.entries == b.entries
    &&& a.rows == b.rows
    &&& a.cursor == b.cursor
    &&& a.expanded == b.expanded
    &&& a.filter == b.filter
    &&& a.cwd == b.cwd
}

/// The preview is the same in both states, the waiting retrieval included.
pub open spec fn preview_same<B: Backend>(a: App<B>, b: App<B>) -> bool {
    &&& a.preview_key == b.preview_key
    &&& a.preview_text == b.preview_text
    &&& a.preview_is_error == b.preview_is_error
    &&& a.preview_mode == b.preview_mode
    &&& a.pending_preview == b.pending_preview
}

/// Dialog, queued action, status line and input state are the same in both states.
pub open spec fn controls_same<B: Backend>(a: App<B>, b: App<B>) -> bool {
    &&& a.quit == b.quit
    &&& a.modal == b.modal
    &&& a.pending == b.pending
    &&& a.status == b.status
    &&& a.filter_mode == b.filter_mode
    &&& a.filter_input == b.filter_input
}

/// Everything but the dialog is the same in both states: queued action, status line, input.
pub open spec fn all_but_modal_same<B: Backend>(a: App<B>, b: App<B>) -> bool {
    &&& a.quit == b.quit
    &&& a.pending == b.pending
    &&& a.status == b.status
    &&& a.filter_mode == b.filter_mode
    &&& a.filter_input == b.filter_input
}

/// Where the cursor lands when the rows change from whatever they were to `n` rows.
pub open spec fn clamp_cursor(cursor: int, n: int) -> int {
    if cursor < n {
        cursor
    } else if n == 0 {
        0
    } else {
        n - 1
    }
}

/// `x` with `k` added when absent, removed when present.
pub open spec fn toggle_key(x: Set<Seq<char>>, k: Seq<char>) -> Set<Seq<char>> {
    if x.contains(k) {
        x.remove(k)
    } else {
        x.insert(k)
    }
}

/// Toggling a directory twice leaves the expanded keys as they were, and so, with the filter
/// unchanged, what is shown of its subtree and everywhere else.
pub proof fn lemma_toggle_twice(
    ix: Seq<EntryView>,
    c: Seq<Seq<char>>,
    f: Seq<char>,
    x: Set<Seq<char>>,
    k: Seq<char>,
    e: EntryView,
)
    ensures
        toggle_key(toggle_key(x, k), k) == x,
        visible(ix, c, f, toggle_key(toggle_key(x, k), k), e) == visible(ix, c, f, x, e),
{
    assert(toggle_key(toggle_key(x, k), k) =~= x);
}

/// Toggling a directory twice, with the filter unchanged, gives back the rows as they were,
/// and the cursor kept on that directory's row is back where it was.
pub proof fn lemma_toggle_twice_restores_rows(
    ix: Seq<EntryView>,
    c: Seq<Seq<char>>,
    f: Seq<char>,
    x: Set<Seq<char>>,
    k: Seq<char>,
    r0: Seq<ViewRow>,
    r2: Seq<ViewRow>,
    p0: int,
    p2: int,
)
    requires
        rows_exact(ix, c, f, x, r0),
        rows_exact(ix, c, f, toggle_key(toggle_key(x, k), k), r2),
        0 <= p0 < r0.len(),
        0 <= p2 < r2.len(),
        r2[p2].idx == r0[p0].idx,
    ensures
        r2.len() == r0.len(),
        forall|s: int| 0 <= s < r0.len() ==> (#[trigger] r2[s]).idx == r0[s].idx && r2[s].branches@ == r0[s].branches@,
        p2 == p0,
{
    assert(toggle_key(toggle_key(x, k), k) =~= x);
    lemma_rows_determined(ix, c, f, x, r2, r0);
    assert(r0[p2].idx == r2[p2].idx);
    lemma_row_position_unique(ix, c, f, x, r0, p0, p2);
}

/// Opening or closing a shown directory keeps it shown: only the keys of the directories
/// above it decide that, and those are shorter than its own.
pub proof fn lemma_toggle_keeps_visible(
    ix: Seq<EntryView>,
    c: Seq<Seq<char>>,
    f: Seq<char>,
    x: Set<Seq<char>>,
    e: EntryView,
)
    requires
        visible(ix, c, f, x, e),
    ensures
        visible(ix, c, f, toggle_key(x, key_below(c, e.path)), e),
{
    let k = key_below(c, e.path);
    let x2 = toggle_key(x, k);
    let rel = e.path.subrange(c.len() as int, e.path.len() as int);
    assert(k == join_key(rel));
    assert forall|q: int| c.len() < q < e.path.len() implies open_dir(ix, c, f, x2, #[trigger] e.path.subrange(0, q)) by {
        assert(open_dir(ix, c, f, x, e.path.subrange(0, q)));
        let r = rel_key(c, e.path.subrange(0, q));
        assert(e.path.subrange(0, q).subrange(c.len() as int, q) =~= rel.subrange(0, q - c.len()));
        lemma_prefix_key_shorter(rel, q - c.len());
        assert(r != k);
    }
}

impl<B: Backend> App<B> {
    /// The entries, as views.
    pub open spec fn ix(&self) -> Seq<EntryView> {
        entries_view(self.entries@)
    }

    /// The working directory, as segments.
    pub open spec fn cwd_view(&self) -> Seq<Seq<char>> {
        segs_view(self.cwd@)
    }

    /// The expanded directory keys, as a set.
    pub open spec fn expanded_set(&self) -> Set<Seq<char>> {
        key_set(self.expanded@)
    }

    /// The index is sorted, and the cursor points at a row or the rows are empty.
    pub open spec fn wf(&self) -> bool {
        &&& index_sorted(self.ix())
        &&& (self.cursor < self.rows@.len() || (self.rows@.len() == 0 && self.cursor == 0))
        &&& forall|r: int| 0 <= r < self.rows@.len() ==> (#[trigger] self.rows@[r]).idx < self.entries@.len()
    }

    /// The rows are those of the current index, directory, filter and expanded keys.
    pub open spec fn rows_current(&self) -> bool {
        rows_exact(self.ix(), self.cwd_view(), self.filter@, self.expanded_set(), self.rows@)
    }

    /// The entry under the cursor, if any.
    pub open spec fn selected(&self) -> Option<EntryView> {
        if self.cursor < self.rows@.len() && self.rows@[self.cursor as int].idx < self.entries@.len() {
            Some(self.ix()[self.rows@[self.cursor as int].idx as int])
        } else {
            None
        }
    }

    /// A session over the store of `backend`, with the root expanded and nothing shown yet.
    /// Fails when the store cannot be scanned.
    pub fn new_with_store(backend: B) -> (r: Result<App<B>, String>)
        ensures
            r is Ok ==> ({
                let app = r->Ok_0;
                &&& app.wf()
                &&& app.ix().len() > 0
                &&& app.ix()[0] == root_view()
                &&& exists|scan: Seq<ScanRecord>| #[trigger] index_of_scan(app.ix(), scan)
                &&& app.cwd@.len() == 0
                &&& app.rows@.len() == 0
                &&& app.cursor == 0
                &&& app.filter@.len() == 0
                &&& app.expanded_set() == Set::<Seq<char>>::empty().insert(Seq::<char>::empty())
                &&& app.modal is None
                &&& app.pending is None
                &&& app.pending_preview is None
                &&& app.preview_key is None
                &&& app.preview_text@.len() == 0
                &&& !app.preview_is_error
                &&& app.preview_mode == PreviewMode::Raw
                &&& app.status is None
                &&& !app.quit
                &&& !app.filter_mode
                &&& app.filter_input@.len() == 0
            }),
    {
        let records = match backend.scan() {
            Ok(records) => records,
            Err(e) => return Err(e),
        };
        let entries = index_from_scan(&records);
        let mut expanded: Vec<String> = Vec::new();
        expanded.push(String::new());
        proof {
            let sv = segs_view(expanded@);
            assert(sv =~= seq![Seq::<char>::empty()]);
            assert forall|y: Seq<char>| key_set(expanded@).contains(y) <==> y == Seq::<char>::empty() by {
                if y == Seq::<char>::empty() {
                    assert(sv[0] == y);
                }
            }
            assert(key_set(expanded@) =~= Set::<Seq<char>>::empty().insert(Seq::<char>::empty()));
        }
        Ok(App {
            backend,
            cwd: Vec::new(),
            entries,
            rows: Vec::new(),
            expanded,
            cursor: 0,
            quit: false,
            modal: None,
            pending: None,
            pending_preview: None,
            filter: String::new(),
            filter_mode: false,
            filter_input: String::new(),
            status: None,
            preview_key: None,
            preview_text: String::new(),
            preview_is_error: false,
            preview_mode: PreviewMode::Raw,
        })
    }

    /// Recomputes the rows from the index, directory, filter and expanded keys, and clamps the
    /// cursor into them.
    pub fn apply_filter(&mut self)
        requires
            index_sorted(old(self).ix()),
        ensures
            final(self).rows_current(),
            final(self).wf(),
            final(self).entries == old(self).entries,
            final(self).cwd == old(self).cwd,
            final(self).filter == old(self).filter,
            final(self).expanded == old(self).expanded,
            controls_same(*final(self), *old(self)),
            preview_same(*final(self), *old(self)),
            final(self).cursor == clamp_cursor(old(self).cursor as int, final(self).rows@.len() as int),
    {
        let rows = compute_rows(&self.entries, &self.cwd, self.filter.as_str(), &self.expanded);
        self.rows = rows;
        if self.cursor >= self.rows.len() {
            self.cursor = if self.rows.len() == 0 { 0 } else { self.rows.len() - 1 };
        }
    }

    /// Scans the store again, rebuilds the index and recomputes the rows; on failure nothing
    /// changes.
    pub fn refresh(&mut self) -> (r: Result<(), String>)
        requires
            index_sorted(old(self).ix()),
        ensures
            index_sorted(final(self).ix()),
            r is Ok ==> final(self).rows_current() && final(self).wf()
                && exists|scan: Seq<ScanRecord>| #[trigger] index_of_scan(final(self).ix(), scan),
            r is Ok ==> final(self).cursor == clamp_cursor(old(self).cursor as int, final(self).rows@.len() as int),
            r is Err ==> view_same(*final(self), *old(self)),
            final(self).cwd == old(self).cwd,
            final(self).filter == old(self).filter,
            final(self).expanded == old(self).expanded,
            controls_same(*final(self), *old(self)),
            preview_same(*final(self), *old(self)),
    {
        let records = match self.backend.scan() {
            Ok(records) => records,
            Err(e) => return Err(e),
        };
        self.entries = index_from_scan(&records);
        self.apply_filter();
        Ok(())
    }

    /// The key of entry `idx` relative to the working directory (its whole key when it lies
    /// elsewhere).
    fn entry_key(&self, idx: usize) -> (key: String)
        requires
            idx < self.entries@.len(),
        ensures
            key@ == key_below(self.cwd_view(), self.ix()[idx as int].path),
    {
        let p = &self.entries[idx].path;
        assert(self.ix()[idx as int] == self.entries@[idx as int]@);
        let below = p.len() >= self.cwd.len() && same_prefix(p, &self.cwd, self.cwd.len());
        assert(segs_view(self.cwd@).subrange(0, self.cwd@.len() as int) =~= self.cwd_view());
        if below {
            let rel = sub_path(p, self.cwd.len(), p.len());
            path_to_store_key(&rel)
        } else {
            path_to_store_key(p)
        }
    }

    /// On a directory row, opens or closes the directory, recomputes the rows and keeps the
    /// cursor on the directory; on a leaf row, or with no row, nothing changes.
    pub fn enter(&mut self)
        requires
            old(self).wf(),
        ensures
            final(self).wf(),
            final(self).entries == old(self).entries,
            final(self).filter == old(self).filter,
            final(self).cwd == old(self).cwd,
            controls_same(*final(self), *old(self)),
            preview_same(*final(self), *old(self)),
            (match old(self).selected() {
                Some(e) => e.kind == EntryKind::Dir ==> final(self).rows_current()
                    && final(self).expanded_set() == toggle_key(
                    old(self).expanded_set(),
                    key_below(old(self).cwd_view(), e.path),
                ) && (old(self).rows_current() ==> final(self).cursor < final(self).rows@.len()
                    && final(self).rows@[final(self).cursor as int].idx
                    == old(self).rows@[old(self).cursor as int].idx),
                None => true,
            }),
            (match old(self).selected() {
                Some(e) => e.kind == EntryKind::Dir,
                None => false,
            }) || view_same(*final(self), *old(self)),
    {
        if self.cursor < self.rows.len() {
            let idx = self.rows[self.cursor].idx;
            if self.entries[idx].kind == EntryKind::Dir {
                let ghost was_current = self.rows_current();
                let ghost x0 = self.expanded_set();
                let key = self.entry_key(idx);
                self.toggle_expanded(key);
                proof {
                    if was_current {
                        lemma_toggle_keeps_visible(self.ix(), self.cwd_view(), self.filter@, x0, self.ix()[idx as int]);
                    }
                }
                self.apply_filter();
                let mut pos: usize = 0;
                while pos < self.rows.len() && self.rows[pos].idx != idx
                    invariant
                        pos <= self.rows@.len(),
                        forall|q: int| 0 <= q < pos ==> (#[trigger] self.rows@[q]).idx != idx,
                    decreases self.rows@.len() - pos,
                {
                    pos = pos + 1;
                }
                proof {
                    if was_current {
                        assert(self.rows_current());
                        let r = choose|r: int| 0 <= r < self.rows@.len() && self.rows@[r].idx == idx;
                        assert(self.rows@[r].idx == idx);
                    }
                }
                if pos < self.rows.len() {
                    self.cursor = pos;
                }
            }
        }
    }

    /// Adds `key` to the expanded keys when absent, removes every copy of it when present.
    fn toggle_expanded(&mut self, key: String)
        ensures
            final(self).expanded_set() == toggle_key(old(self).expanded_set(), key@),
            controls_same(*final(self), *old(self)),
            preview_same(*final(self), *old(self)),
            final(self).entries == old(self).entries,
            final(self).rows == old(self).rows,
            final(self).cursor == old(self).cursor,
            final(self).filter == old(self).filter,
            final(self).cwd == old(self).cwd,
    {
        if key_in(&self.expanded, key.as_str()) {
            let mut kept: Vec<String> = Vec::new();
            let mut i: usize = 0;
            while i < self.expanded.len()
                invariant
                    i <= self.expanded@.len(),
                    forall|y: Seq<char>|
                        key_set(kept@).contains(y) <==> (y != key@ && exists|j: int|
                            0 <= j < i && (#[trigger] self.expanded@[j])@ == y),
                decreases self.expanded@.len() - i,
            {
                let ghost old_kept = kept@;
                let ghost ei = self.expanded@[i as int]@;
                assert(forall|y: Seq<char>|
                    key_set(old_kept).contains(y) <==> (y != key@ && exists|j: int|
                        0 <= j < i && (#[trigger] self.expanded@[j])@ == y));
                let differs = cmp_segment(self.expanded[i].as_str(), key.as_str()) != 0;
                if differs {
                    kept.push(self.expanded[i].clone());
                    assert forall|y: Seq<char>| key_set(kept@).contains(y) <==> (key_set(old_kept).contains(y) || y == ei) by {
                        if key_set(kept@).contains(y) {
                            let q = choose|q: int| 0 <= q < segs_view(kept@).len() && segs_view(kept@)[q] == y;
                            if q < old_kept.len() {
                                assert(segs_view(old_kept)[q] == y);
                            }
                        }
                        if key_set(old_kept).contains(y) {
                            let q = choose|q: int| 0 <= q < segs_view(old_kept).len() && segs_view(old_kept)[q] == y;
                            assert(segs_view(kept@)[q] == y);
                        }
                        if y == ei {
                            assert(segs_view(kept@)[old_kept.len() as int] == y);
                        }
                    }
                }
                assert(differs == (ei != key@));
                assert(differs ==> forall|y: Seq<char>| key_set(kept@).contains(y) <==> (key_set(old_kept).contains(y) || y == ei));
                assert(!differs ==> kept@ == old_kept);
                assert forall|y: Seq<char>|
                    key_set(kept@).contains(y) <==> (y != key@ && exists|j: int|
                        0 <= j < i + 1 && (#[trigger] self.expanded@[j])@ == y) by {
                    let old_has = key_set(old_kept).contains(y);
                    let before = exists|j: int| 0 <= j < i && (#[trigger] self.expanded@[j])@ == y;
                    let now = exists|j: int| 0 <= j < i + 1 && (#[trigger] self.expanded@[j])@ == y;
                    assert(old_has <==> (y != key@ && before));
                    if now {
                        let j = choose|j: int| 0 <= j < i + 1 && (#[trigger] self.expanded@[j])@ == y;
                        if j < i {
                            assert(before);
                        } else {
                            assert(y == ei);
                        }
                    }
                    if before {
                        let j = choose|j: int| 0 <= j < i && (#[trigger] self.expanded@[j])@ == y;
                        assert(0 <= j < i + 1 && self.expanded@[j]@ == y);
                        assert(now);
                    }
                    if y == ei {
                        assert(self.expanded@[i as int]@ == y);
                    }
                }
                i = i + 1;
            }
            proof {
                assert forall|y: Seq<char>| key_set(kept@).contains(y) <==> toggle_key(self.expanded_set(), key@).contains(y) by {
                    if key_set(self.expanded@).contains(y) {
                        let q = choose|q: int| 0 <= q < segs_view(self.expanded@).len() && segs_view(self.expanded@)[q] == y;
                        assert(self.expanded@[q]@ == y);
                    }
                    if exists|j: int| 0 <= j < self.expanded@.len() && (#[trigger] self.expanded@[j])@ == y {
                        let q = choose|j: int| 0 <= j < self.expanded@.len() && (#[trigger] self.expanded@[j])@ == y;
                        assert(segs_view(self.expanded@)[q] == y);
                    }
                }
                assert(key_set(kept@) =~= toggle_key(self.expanded_set(), key@));
            }
            self.expanded = kept;
        } else {
            let ghost old_exp = self.expanded@;
            self.expanded.push(key);
            proof {
                assert forall|y: Seq<char>| key_set(self.expanded@).contains(y) <==> toggle_key(key_set(old_exp), key@).contains(y) by {
                    if key_set(self.expanded@).contains(y) {
                        let q = choose|q: int| 0 <= q < segs_view(self.expanded@).len() && segs_view(self.expanded@)[q] == y;
                        if q < old_exp.len() {
                            assert(segs_view(old_exp)[q] == y);
                        }
                    }
                    if key_set(old_exp).contains(y) {
                        let q = choose|q: int| 0 <= q < segs_view(old_exp).len() && segs_view(old_exp)[q] == y;
                        assert(segs_view(self.expanded@)[q] == y);
                    }
                    if y == key@ {
                        assert(segs_view(self.expanded@)[old_exp.len() as int] == y);
                    }
                }
                assert(key_set(self.expanded@) =~= toggle_key(key_set(old_exp), key@));
            }
        }
    }

    /// The key of the leaf under the cursor; none on a directory or with no row.
    pub fn selected_entry_path(&self) -> (key: Option<String>)
        requires
            self.wf(),
        ensures
            key == (match self.selected() {
                Some(e) => if e.kind == EntryKind::Entry { Some(key->0) } else { None::<String> },
                None => None::<String>,
            }),
            key is Some ==> key->0@ == join_key(self.selected()->0.path),
    {
        if self.cursor < self.rows.len() {
            let idx = self.rows[self.cursor].idx;
            assert(self.ix()[idx as int] == self.entries@[idx as int]@);
            self.entries[idx].relative_entry_path()
        } else {
            None
        }
    }

    /// Opens the dialog for a new entry, prefilled with the directory under the cursor (the
    /// parent of a leaf) and a separator.
    pub fn open_add_modal(&mut self)
        requires
            old(self).wf(),
        ensures
            final(self).modal is Some,
            final(self).modal->0 is Input,
            final(self).modal->0->buffer@ == add_prefix(old(self).selected()),
            final(self).modal->0->Input_title@ == "New entry path"@,
            final(self).modal->0->Input_action is AddHere,
            view_same(*final(self), *old(self)),
            preview_same(*final(self), *old(self)),
            all_but_modal_same(*final(self), *old(self)),
    {
        let mut prefix = String::new();
        if self.cursor < self.rows.len() {
            let idx = self.rows[self.cursor].idx;
            let e = &self.entries[idx];
            assert(self.ix()[idx as int] == e@);
            if e.kind == EntryKind::Dir {
                prefix = e.store_key();
            } else if e.path.len() > 0 {
                let parent = sub_path(&e.path, 0, e.path.len() - 1);
                assert(segs_view(parent@) =~= e@.path.drop_last());
                prefix = path_to_store_key(&parent);
            }
            if prefix.unicode_len() > 0 {
                proof {
                    reveal_strlit("/");
                }
                prefix.append("/");
                assert("/"@ =~= seq!['/']);
            }
        }
        self.modal = Some(
            Modal::Input {
                title: String::from_str("New entry path"),
                buffer: prefix,
                action: ModalAction::AddHere,
            },
        );
    }

    /// Opens the dialog to rename the entry or directory under the cursor, prefilled with its
    /// key; with no row, nothing changes.
    pub fn open_rename_modal(&mut self)
        requires
            old(self).wf(),
        ensures
            old(self).selected() is Some ==> ({
                &&& final(self).modal is Some
                &&& final(self).modal->0 is Input
                &&& final(self).modal->0->Input_title@ == "Rename entry"@
                &&& final(self).modal->0->buffer@ == join_key(old(self).selected()->0.path)
                &&& final(self).modal->0->Input_action is Rename
                &&& final(self).modal->0->Input_action->from@ == join_key(old(self).selected()->0.path)
            }),
            old(self).selected() is None ==> final(self).modal == old(self).modal,
            view_same(*final(self), *old(self)),
            preview_same(*final(self), *old(self)),
            all_but_modal_same(*final(self), *old(self)),
    {
        if self.cursor < self.rows.len() {
            let idx = self.rows[self.cursor].idx;
            assert(self.ix()[idx as int] == self.entries@[idx as int]@);
            let key = self.entries[idx].store_key();
            let from = key.clone();
            self.modal = Some(
                Modal::Input {
                    title: String::from_str("Rename entry"),
                    buffer: key,
                    action: ModalAction::Rename { from },
                },
            );
        }
    }

    /// Opens the confirmation for deleting the selected entry, with the affirmative choice
    /// selected.
    pub fn open_delete_modal(&mut self)
        ensures
            final(self).modal is Some,
            final(self).modal->0 is Confirm,
            final(self).modal->0->Confirm_title@ == "Confirm Delete"@,
            final(self).modal->0->message@ == "Delete selected entry?"@,
            final(self).modal->0->Confirm_action is DeleteSelected,
            final(self).modal->0->selected_ok,
            view_same(*final(self), *old(self)),
            preview_same(*final(self), *old(self)),
            all_but_modal_same(*final(self), *old(self)),
    {
        self.modal = Some(
            Modal::Confirm {
                title: String::from_str("Confirm Delete"),
                message: String::from_str("Delete selected entry?"),
                action: ModalAction::DeleteSelected,
                selected_ok: true,
            },
        );
    }

    /// Closes the open dialog and turns it into the action it asks for, if it is valid: a
    /// non-blank path to add; a rename to a new target that is not `taken` in the store (else
    /// the status says so); a confirmed delete.
    pub fn submit_modal_given(&mut self, taken: bool) -> (r: Option<PendingAction>)
        ensures
            final(self).modal is None,
            view_same(*final(self), *old(self)),
            preview_same(*final(self), *old(self)),
            final(self).pending == old(self).pending,
            final(self).quit == old(self).quit,
            final(self).filter_mode == old(self).filter_mode,
            final(self).filter_input == old(self).filter_input,
            submit_outcome(*old(self), *final(self), r, taken),
    {
        let modal = match self.modal.take() {
            Some(m) => m,
            None => return None,
        };
        match modal {
            Modal::Input { action, buffer, .. } => match action {
                ModalAction::AddHere => {
                    let name = trim_text(buffer.as_str());
                    if name.unicode_len() == 0 {
                        None
                    } else {
                        Some(PendingAction::Add(name))
                    }
                },
                ModalAction::DeleteSelected => None,
                ModalAction::Rename { from } => {
                    let to = trim_text(buffer.as_str());
                    if to.unicode_len() == 0 || cmp_segment(to.as_str(), from.as_str()) == 0 {
                        return None;
                    }
                    if taken {
                        let mut msg = String::from_str("Target '");
                        msg.append(to.as_str());
                        msg.append("' exists \u{2014} rename aborted");
                        self.status = Some(msg);
                        None
                    } else {
                        Some(PendingAction::Rename { from, to })
                    }
                },
            },
            Modal::Confirm { action, selected_ok, .. } => match action {
                ModalAction::DeleteSelected => if selected_ok {
                    Some(PendingAction::Delete)
                } else {
                    None
                },
                _ => None,
            },
        }
    }

    /// Closes the open dialog and turns it into the action it asks for, if it is valid; for a
    /// rename, the store is asked whether the target exists, as a directory or as an entry.
    pub fn submit_modal(&mut self) -> (r: Option<PendingAction>)
        ensures
            final(self).modal is None,
            view_same(*final(self), *old(self)),
            preview_same(*final(self), *old(self)),
            final(self).pending == old(self).pending,
            final(self).quit == old(self).quit,
            final(self).filter_mode == old(self).filter_mode,
            final(self).filter_input == old(self).filter_input,
            exists|taken: bool| #[trigger] submit_outcome(*old(self), *final(self), r, taken),
    {
        let taken = match &self.modal {
            Some(Modal::Input { buffer, action: ModalAction::Rename { .. }, .. }) => {
                let to = trim_text(buffer.as_str());
                self.backend.path_exists(to.as_str())
            },
            _ => false,
        };
        self.submit_modal_given(taken)
    }

    /// Shows `text` for `rel` in `mode`.
    fn set_preview_state(&mut self, rel: String, text: String, is_error: bool, mode: PreviewMode)
        ensures
            final(self).preview_key == Some(rel),
            final(self).preview_text == text,
            final(self).preview_is_error == is_error,
            final(self).preview_mode == mode,
            final(self).pending_preview == old(self).pending_preview,
            view_same(*final(self), *old(self)),
            controls_same(*final(self), *old(self)),
    {
        self.preview_key = Some(rel);
        self.preview_text = text;
        self.preview_is_error = is_error;
        self.preview_mode = mode;
    }

    /// Settles a retrieval of `rel` in `mode` with its result. Content is shown. A locked key
    /// on a first attempt (`allow_unlock` false) is no error: the preview waits for an unlock
    /// and says so. Any other failure is shown as an error and returned; a retrieval that was
    /// waiting is then over.
    pub fn apply_preview_result(
        &mut self,
        rel: String,
        mode: PreviewMode,
        allow_unlock: bool,
        result: Result<String, BackendError>,
    ) -> (r: Result<(), String>)
        ensures
            final(self).preview_key == Some(rel),
            final(self).preview_mode == mode,
            view_same(*final(self), *old(self)),
            controls_same(*final(self), *old(self)),
            (match result {
                Ok(text) => r is Ok && final(self).pending_preview is None && final(self).preview_text
                    == text && !final(self).preview_is_error,
                Err(e) => if e is Locked && !allow_unlock {
                    &&& r is Ok
                    &&& final(self).pending_preview == Some((rel, mode))
                    &&& final(self).preview_text@ == locked_notice()
                    &&& final(self).preview_is_error
                } else {
                    &&& r is Err
                    &&& r->Err_0@ == error_message(e)
                    &&& final(self).preview_text@ == error_message(e)
                    &&& final(self).preview_is_error
                    &&& final(self).pending_preview is None
                },
            }),
    {
        match result {
            Ok(text) => {
                self.pending_preview = None;
                self.set_preview_state(rel, text, false, mode);
                Ok(())
            },
            Err(err) => {
                let locked = match err {
                    BackendError::Locked => true,
                    BackendError::Failed(_) => false,
                };
                if locked && !allow_unlock {
                    self.pending_preview = Some((rel.clone(), mode));
                    self.set_preview_state(
                        rel,
                        String::from_str("GPG key locked. Prompting for passphrase\u{2026}"),
                        true,
                        mode,
                    );
                    return Ok(());
                }
                let message = err.message();
                self.pending_preview = None;
                self.set_preview_state(rel, message.clone(), true, mode);
                Err(message)
            },
        }
    }

    /// Retrieves `rel` in `mode` from the store and settles the preview with the result:
    /// shown, waiting for an unlock (first attempts only), or failed with the returned message.
    fn load_preview(&mut self, rel: String, mode: PreviewMode, allow_unlock: bool) -> (r: Result<(), String>)
        ensures
            final(self).preview_key == Some(rel),
            final(self).preview_mode == mode,
            view_same(*final(self), *old(self)),
            controls_same(*final(self), *old(self)),
            preview_outcome(*final(self), rel, mode, allow_unlock, r),
    {
        let result = match mode {
            PreviewMode::Raw => self.backend.show(rel.as_str()),
            PreviewMode::Qr => self.backend.show_qr(rel.as_str()),
        };
        self.apply_preview_result(rel, mode, allow_unlock, result)
    }

    /// Takes the retrieval that waits for an unlock, if any.
    pub fn take_pending_preview(&mut self) -> (r: Option<(String, PreviewMode)>)
        ensures
            r == old(self).pending_preview,
            final(self).pending_preview is None,
            final(self).preview_key == old(self).preview_key,
            final(self).preview_text == old(self).preview_text,
            final(self).preview_is_error == old(self).preview_is_error,
            final(self).preview_mode == old(self).preview_mode,
            view_same(*final(self), *old(self)),
            controls_same(*final(self), *old(self)),
    {
        self.pending_preview.take()
    }

    /// Retries a retrieval after the unlock step: any failure now is an error, and nothing
    /// waits any more.
    pub fn load_preview_after_unlock(&mut self, rel: String, mode: PreviewMode) -> (r: Result<(), String>)
        ensures
            final(self).preview_key == Some(rel),
            final(self).preview_mode == mode,
            final(self).pending_preview is None,
            r is Err ==> final(self).preview_is_error && final(self).preview_text@ == r->Err_0@,
            r is Ok ==> !final(self).preview_is_error,
            view_same(*final(self), *old(self)),
            controls_same(*final(self), *old(self)),
    {
        self.load_preview(rel, mode, true)
    }

    /// Whether the preview must be fetched to show `rel` in `mode`.
    pub fn needs_fetch(&self, rel: &str, mode: PreviewMode) -> (r: bool)
        ensures
            r == !(self.preview_key is Some && self.preview_key->0@ == rel@ && self.preview_mode == mode),
    {
        match &self.preview_key {
            Some(k) => cmp_segment(k.as_str(), rel) != 0 || self.preview_mode != mode,
            None => true,
        }
    }

    /// Brings the preview of the selected leaf up to date in `mode`: fetched unless already
    /// shown so, with a failure reported in the status line.
    fn show_selected(&mut self, rel: String, mode: PreviewMode)
        ensures
            view_same(*final(self), *old(self)),
            final(self).quit == old(self).quit,
            final(self).modal == old(self).modal,
            final(self).pending == old(self).pending,
            final(self).filter_mode == old(self).filter_mode,
            final(self).filter_input == old(self).filter_input,
            !(old(self).preview_key is Some && old(self).preview_key->0@ == rel@ && old(self).preview_mode
                == mode) ==> fetched(*old(self), *final(self), rel, mode),
            (old(self).preview_key is Some && old(self).preview_key->0@ == rel@ && old(self).preview_mode
                == mode) ==> preview_same(*final(self), *old(self)) && final(self).status
                == old(self).status,
    {
        if self.needs_fetch(rel.as_str(), mode) {
            match self.load_preview(rel, mode, false) {
                Ok(()) => {},
                Err(e) => {
                    self.status = Some(e);
                },
            }
        }
    }

    /// Clears the preview: nothing shown, nothing waiting.
    fn clear_preview(&mut self)
        ensures
            preview_idle(*final(self)),
            view_same(*final(self), *old(self)),
            controls_same(*final(self), *old(self)),
    {
        self.preview_key = None;
        self.preview_text = String::new();
        self.preview_is_error = false;
        self.preview_mode = PreviewMode::Raw;
        self.pending_preview = None;
    }

    /// Brings the preview in line with the selection: a selected leaf is shown as plain text
    /// (fetched unless already shown so); anything else clears the preview.
    pub fn update_preview(&mut self)
        requires
            old(self).wf(),
        ensures
            view_same(*final(self), *old(self)),
            final(self).quit == old(self).quit,
            final(self).modal == old(self).modal,
            final(self).pending == old(self).pending,
            final(self).filter_mode == old(self).filter_mode,
            final(self).filter_input == old(self).filter_input,
            selection_update(*old(self), *final(self), PreviewMode::Raw),
            !selected_leaf(*old(self)) ==> preview_idle(*final(self)) && final(self).status
                == old(self).status,
    {
        match self.selected_entry_path() {
            Some(rel) => self.show_selected(rel, PreviewMode::Raw),
            None => self.clear_preview(),
        }
    }

    /// Shows the selected leaf as a scannable code (fetched unless already shown so); anything
    /// else clears the preview.
    pub fn update_preview_qr(&mut self)
        requires
            old(self).wf(),
        ensures
            view_same(*final(self), *old(self)),
            final(self).quit == old(self).quit,
            final(self).modal == old(self).modal,
            final(self).pending == old(self).pending,
            final(self).filter_mode == old(self).filter_mode,
            final(self).filter_input == old(self).filter_input,
            selection_update(*old(self), *final(self), PreviewMode::Qr),
            !selected_leaf(*old(self)) ==> preview_idle(*final(self)) && final(self).status
                == old(self).status,
    {
        match self.selected_entry_path() {
            Some(rel) => self.show_selected(rel, PreviewMode::Qr),
            None => self.clear_preview(),
        }
    }

    /// Whether the directory under the cursor is open; none on a leaf or with no row.
    pub fn selected_dir_expanded(&self) -> (r: Option<bool>)
        requires
            self.wf(),
        ensures
            r == (match self.selected() {
                Some(e) => if e.kind == EntryKind::Dir {
                    Some(self.expanded_set().contains(key_below(self.cwd_view(), e.path)))
                } else {
                    None::<bool>
                },
                None => None::<bool>,
            }),
    {
        if self.cursor < self.rows.len() {
            let idx = self.rows[self.cursor].idx;
            assert(self.ix()[idx as int] == self.entries@[idx as int]@);
            if self.entries[idx].kind == EntryKind::Dir {
                let key = self.entry_key(idx);
                Some(key_in(&self.expanded, key.as_str()))
            } else {
                None
            }
        } else {
            None
        }
    }

    /// What deleting the selection removes: the selected key, and whether it is a directory
    /// (removed with everything below it); none with no row.
    pub fn delete_target(&self) -> (t: Option<(String, bool)>)
        requires
            self.wf(),
        ensures
            t is Some <==> self.selected() is Some,
            t is Some ==> ({
                let target = t->0;
                &&& target.0@ == join_key(self.selected()->0.path)
                &&& target.1 == (self.selected()->0.kind == EntryKind::Dir)
            }),
    {
        if self.cursor < self.rows.len() {
            let idx = self.rows[self.cursor].idx;
            let e = &self.entries[idx];
            assert(self.ix()[idx as int] == e@);
            Some((e.store_key(), e.kind == EntryKind::Dir))
        } else {
            None
        }
    }

    /// Removes the selection from the store and rebuilds the index; with no row, nothing
    /// happens. When the removal or the rebuild fails, the view stays as it was.
    pub fn delete_selected(&mut self) -> (r: Result<(), String>)
        requires
            old(self).wf(),
        ensures
            index_sorted(final(self).ix()),
            old(self).selected() is None ==> r is Ok && view_same(*final(self), *old(self)),
            r is Err ==> view_same(*final(self), *old(self)),
            old(self).selected() is Some && r is Ok ==> final(self).rows_current() && final(self).wf()
                && final(self).cursor == clamp_cursor(old(self).cursor as int, final(self).rows@.len() as int),
            controls_same(*final(self), *old(self)),
            preview_same(*final(self), *old(self)),
    {
        match self.delete_target() {
            None => Ok(()),
            Some((key, recursive)) => {
                match self.backend.rm(key.as_str(), recursive) {
                    Ok(()) => {},
                    Err(e) => return Err(e),
                }
                self.refresh()
            },
        }
    }
}

/// A leaf is under the cursor.
pub open spec fn selected_leaf<B: Backend>(a: App<B>) -> bool {
    match a.selected() {
        Some(e) => e.kind == EntryKind::Entry,
        None => false,
    }
}

/// Nothing is previewed and nothing waits.
pub open spec fn preview_idle<B: Backend>(a: App<B>) -> bool {
    &&& a.preview_key is None
    &&& a.preview_text@.len() == 0
    &&& !a.preview_is_error
    &&& a.preview_mode == PreviewMode::Raw
    &&& a.pending_preview is None
}

/// How a retrieval of `rel` in `mode` ended, given what it returned: shown; waiting for an
/// unlock (first attempts only); or failed, with the returned message shown.
pub open spec fn preview_outcome<B: Backend>(
    a: App<B>,
    rel: String,
    mode: PreviewMode,
    allow_unlock: bool,
    r: Result<(), String>,
) -> bool {
    ||| (r is Ok && !a.preview_is_error && a.pending_preview is None)
    ||| (r is Ok && !allow_unlock && a.preview_is_error && a.preview_text@ == locked_notice()
        && a.pending_preview == Some((rel, mode)))
    ||| (r is Err && a.preview_is_error && a.preview_text@ == r->Err_0@ && a.pending_preview is None)
}

/// The preview was fetched for `rel` in `mode`, from `a` to `b`: shown; waiting for an unlock
/// with the status line untouched; or failed, with the message in the status line.
pub open spec fn fetched<B: Backend>(a: App<B>, b: App<B>, rel: String, mode: PreviewMode) -> bool {
    &&& b.preview_key == Some(rel)
    &&& b.preview_mode == mode
    &&& {
        ||| (!b.preview_is_error && b.pending_preview is None && b.status == a.status)
        ||| (b.preview_is_error && b.preview_text@ == locked_notice() && b.pending_preview == Some(
            (rel, mode),
        ) && b.status == a.status)
        ||| (b.preview_is_error && b.pending_preview is None && b.status is Some && b.status->0@
            == b.preview_text@)
    }
}

/// What updating the preview of a selected leaf in `mode` does, from `a` to `b`: fetch it
/// when it is not shown so already, else leave preview and status as they are.
pub open spec fn selection_update<B: Backend>(a: App<B>, b: App<B>, mode: PreviewMode) -> bool {
    selected_leaf(a) ==> ({
        let k = join_key(a.selected()->0.path);
        if a.preview_key is Some && a.preview_key->0@ == k && a.preview_mode == mode {
            preview_same(b, a) && b.status == a.status
        } else {
            b.preview_key is Some && b.preview_key->0@ == k && fetched(a, b, b.preview_key->0, mode)
        }
    })
}

/// What submitting the open dialog of `a` gives, with `taken` telling whether a rename
/// target exists in the store: the action `r`, and the status line of `b`.
pub open spec fn submit_outcome<B: Backend>(
    a: App<B>,
    b: App<B>,
    r: Option<PendingAction>,
    taken: bool,
) -> bool {
    (match a.modal {
        None => r is None && b.status == a.status,
        Some(Modal::Input { buffer, action, .. }) => match action {
            ModalAction::AddHere => b.status == a.status && (if trim_view(
                buffer@,
            ).len() == 0 {
                r is None
            } else {
                r is Some && r->0 is Add && r->0->Add_0@ == trim_view(buffer@)
            }),
            ModalAction::DeleteSelected => r is None && b.status == a.status,
            ModalAction::Rename { from } => {
                let to = trim_view(buffer@);
                if to.len() == 0 || to == from@ {
                    r is None && b.status == a.status
                } else if taken {
                    r is None && b.status is Some && b.status->0@
                        == rename_refused(to)
                } else {
                    r is Some && r->0 is Rename && r->0->Rename_from@ == from@ && r->0->to@ == to
                        && b.status == a.status
                }
            },
        },
        Some(Modal::Confirm { action, selected_ok, .. }) => b.status == a.status
            && (r is Some <==> (action is DeleteSelected && selected_ok)) && (r is Some
            ==> r->0 is Delete),
    })
}

/// The key of `p` relative to `c` when `p` lies within `c`, else the whole key of `p`.
pub open spec fn key_below(c: Seq<Seq<char>>, p: Seq<Seq<char>>) -> Seq<char> {
    if c.len() <= p.len() && p.subrange(0, c.len() as int) == c {
        rel_key(c, p)
    } else {
        join_key(p)
    }
}

/// The status message when a rename target is taken.
pub open spec fn rename_refused(to: Seq<char>) -> Seq<char> {
    "Target '"@ + to + "' exists \u{2014} rename aborted"@
}

/// What the add dialog is prefilled with: the key of the selected directory, or of the
/// selected leaf's parent, followed by a separator when not empty.
pub open spec fn add_prefix(sel: Option<EntryView>) -> Seq<char> {
    match sel {
        None => Seq::empty(),
        Some(e) => {
            let base = if e.kind == EntryKind::Dir {
                join_key(e.path)
            } else if e.path.len() > 0 {
                join_key(e.path.drop_last())
            } else {
                Seq::empty()
            };
            if base.len() > 0 {
                base + seq!['/']
            } else {
                base
            }
        },
    }
}

/// Unicode white space, as `char::is_whitespace` knows it.
pub open spec fn white_space(c: char) -> bool {
    let u = c as u32;
    (9 <= u <= 13) || u == 32 || u == 0x85 || u == 0xA0 || u == 0x1680 || (0x2000 <= u <= 0x200A)
        || u == 0x2028 || u == 0x2029 || u == 0x202F || u == 0x205F || u == 0x3000
}

/// The number of white-space characters that `s` starts with.
pub open spec fn lead_white(s: Seq<char>) -> int
    decreases s.len(),
{
    if s.len() > 0 && white_space(s[0]) {
        1 + lead_white(s.drop_first())
    } else {
        0
    }
}

/// The number of white-space characters that `s` ends with.
pub open spec fn trail_white(s: Seq<char>) -> int
    decreases s.len(),
{
    if s.len() > 0 && white_space(s.last()) {
        1 + trail_white(s.drop_last())
    } else {
        0
    }
}

/// `s` without white space at either end.
pub open spec fn trim_view(s: Seq<char>) -> Seq<char> {
    let t = s.subrange(lead_white(s), s.len() as int);
    t.subrange(0, t.len() - trail_white(t))
}

/// Whether `c` is white space.
pub fn is_white(c: char) -> (r: bool)
    ensures
        r == white_space(c),
{
    let u = c as u32;
    (9 <= u && u <= 13) || u == 32 || u == 0x85 || u == 0xA0 || u == 0x1680 || (0x2000 <= u && u
        <= 0x200A) || u == 0x2028 || u == 0x2029 || u == 0x202F || u == 0x205F || u == 0x3000
}

/// `s` without white space at either end.
pub fn trim_text(s: &str) -> (r: String)
    ensures
        r@ == trim_view(s@),
{
    let n = s.unicode_len();
    let mut i: usize = 0;
    assert(s@.subrange(0, n as int) =~= s@);
    while i < n && is_white(s.get_char(i))
        invariant
            n == s@.len(),
            i <= n,
            lead_white(s@) == i + lead_white(s@.subrange(i as int, n as int)),
        decreases n - i,
    {
        assert(s@.subrange(i as int, n as int).drop_first() =~= s@.subrange(i + 1, n as int));
        i = i + 1;
    }
    proof {
        if i < n {
            assert(s@.subrange(i as int, n as int)[0] == s@[i as int]);
        }
    }
    let ghost t = s@.subrange(i as int, n as int);
    assert(lead_white(s@) == i);
    let mut j: usize = n;
    assert(t.subrange(0, (n - i) as int) =~= t);
    while j > i && is_white(s.get_char(j - 1))
        invariant
            n == s@.len(),
            i <= j <= n,
            t == s@.subrange(i as int, n as int),
            trail_white(t) == (n - j) + trail_white(t.subrange(0, j - i)),
        decreases j,
    {
        assert(t.subrange(0, j - i).drop_last() =~= t.subrange(0, j - i - 1));
        assert(t.subrange(0, j - i).last() == s@[j - 1]);
        j = j - 1;
    }
    proof {
        if j > i {
            assert(t.subrange(0, j - i).last() == s@[j - 1]);
        }
    }
    assert(trail_white(t) == n - j);
    let r = s.substring_char(i, j).to_owned();
    assert(r@ =~= t.subrange(0, t.len() - trail_white(t)));
    r
}

/// Carries out a queued action against the store.
pub fn run_action<B: Backend>(app: &mut App<B>, action: PendingAction) -> (r: Result<(), String>)
    requires
        old(app).wf(),
    ensures
        index_sorted(final(app).ix()),
        !(action is Delete) ==> final(app).entries == old(app).entries && final(app).rows == old(app).rows
            && final(app).cursor == old(app).cursor,
{
    match action {
        PendingAction::Edit(rel) => app.backend.edit(rel.as_str()),
        PendingAction::Add(path) => app.backend.add(path.as_str()),
        PendingAction::Delete => app.delete_selected(),
        PendingAction::Rename { from, to } => app.backend.mv(from.as_str(), to.as_str()),
    }
}

/// The preview text while a locked key waits for an unlock.
pub open spec fn locked_notice() -> Seq<char> {
    "GPG key locked. Prompting for passphrase\u{2026}"@
}

/// The message of a store failure.
pub open spec fn error_message(e: BackendError) -> Seq<char> {
    match e {
        BackendError::Locked => "key material is locked"@,
        BackendError::Failed(m) => m@,
    }
}

} // verus!
