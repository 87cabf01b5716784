//! The explorer's state for the preview pane and the "open with" dialog,
//! and the decisions taken on it.

use vstd::prelude::*;
use crate::entry::FsEntry;
use crate::open_with::DesktopApp;
use crate::paths::{
    components_of, file_name, file_name_of, path_components, same_components, same_path,
    same_path_str,
};
use crate::text::{chars_of, copy_string, same_chars, string_of, views};
use crate::thumbnail::{is_supported_image, is_supported_image_spec};

verus! {

/// The "open with" dialog: the file, the applications found for it,
/// whether they are still being looked for, and the ticket of the search
/// that fills it.
pub struct OpenWithState {
    pub path: String,
    pub apps: Vec<DesktopApp>,
    pub loading: bool,
    pub ticket: u64,
}

/// The parts of the explorer that the preview pane and the "open with"
/// dialog read and change.
pub struct Explorer {
    /// The selected paths (no path twice).
    pub selected: Vec<String>,
    /// The listed files, in display order.
    pub entries: Vec<FsEntry>,
    /// The file whose preview was closed, while it stays the selection.
    pub preview_dismissed: Option<String>,
    pub open_with: Option<OpenWithState>,
    /// The ticket the next "open with" search gets.
    pub next_ticket: u64,
    /// The last error to show to the user.
    pub op_error: Option<String>,
}

pub open spec fn opt_string(o: Option<String>) -> Option<Seq<char>> {
    match o {
        Some(s) => Some(s@),
        None => None,
    }
}

/// The selected path, when exactly one is selected.
pub open spec fn single_selection_spec(selected: Seq<String>) -> Option<Seq<char>> {
    if selected.len() == 1 {
        Some(selected[0]@)
    } else {
        None
    }
}

/// The first listed entry with path `p`.
pub open spec fn find_entry(entries: Seq<FsEntry>, p: Seq<char>) -> Option<int>
    decreases entries.len(),
{
    if entries.len() == 0 {
        None
    } else if same_path(entries[0].path@, p) {
        Some(0)
    } else {
        match find_entry(entries.drop_first(), p) {
            Some(i) => Some(i + 1),
            None => None,
        }
    }
}

/// Whether `d` is the same path as the single selection `single`.
pub open spec fn is_selected_path(d: Seq<char>, single: Option<Seq<char>>) -> bool {
    single matches Some(s) && same_path(d, s)
}

/// A dismissal lasts while the dismissed file is the single selection.
pub open spec fn dismissal_after(dismissed: Option<Seq<char>>, single: Option<Seq<char>>) -> Option<
    Seq<char>,
> {
    match dismissed {
        Some(d) => if is_selected_path(d, single) {
            dismissed
        } else {
            None
        },
        None => None,
    }
}

/// The file to preview: the single selection, unless its preview was
/// dismissed, it is not listed, it is a directory or a broken symlink, or
/// it is not a supported image.
pub open spec fn preview_target_spec(
    entries: Seq<FsEntry>,
    dismissed: Option<Seq<char>>,
    single: Option<Seq<char>>,
) -> Option<Seq<char>> {
    match single {
        None => None,
        Some(p) => if dismissed matches Some(d) && same_path(d, p) {
            None
        } else {
            match find_entry(entries, p) {
                None => None,
                Some(i) => if entries[i].is_dir || entries[i].is_broken_symlink {
                    None
                } else if is_supported_image_spec(p) {
                    Some(p)
                } else {
                    None
                },
            }
        },
    }
}

/// The title of the "open with" dialog for `path`: its file name, or the
/// whole path when it has none, between curly quotes.
pub open spec fn open_with_title_spec(path: Seq<char>) -> Seq<char> {
    let name = match file_name(path) {
        Some(n) => n,
        None => path,
    };
    "Open \u{201c}"@ + name + "\u{201d} With"@
}

/// What the body of the "open with" dialog shows.
#[derive(PartialEq, Eq, Structural, Debug)]
pub enum DialogBody {
    /// "Looking for applications…"
    Loading,
    /// "No applications found for this file type."
    NoApplications,
    /// The list of applications, each with its icon and name.
    Applications,
}

/// The ticket handed out after `t`: one more, wrapping round to 0.
pub open spec fn ticket_after(t: u64) -> u64 {
    if t == u64::MAX {
        0
    } else {
        (t + 1) as u64
    }
}

/// The ticket handed out `k` searches after `t`.
pub open spec fn ticket_later(t: u64, k: nat) -> u64
    decreases k,
{
    if k == 0 {
        t
    } else {
        ticket_after(ticket_later(t, (k - 1) as nat))
    }
}

/// The dialog once the search with `ticket` has found `apps`: filled in
/// when it is open for that search, unchanged otherwise.
pub open spec fn finished_dialog(
    dialog: Option<OpenWithState>,
    ticket: u64,
    apps: Vec<DesktopApp>,
) -> Option<OpenWithState> {
    match dialog {
        Some(s) => if s.ticket == ticket {
            Some(OpenWithState { path: s.path, apps, loading: false, ticket })
        } else {
            dialog
        },
        None => None,
    }
}

/// A dialog still loading lists no applications.
pub open spec fn dialog_consistent(dialog: Option<OpenWithState>) -> bool {
    dialog matches Some(s) ==> (s.loading ==> s.apps@.len() == 0)
}

impl OpenWithState {
    /// The dialog's title.
    pub fn title(&self) -> (t: String)
        ensures
            t@ == open_with_title_spec(self.path@),
    {
        let p = chars_of(self.path.as_str());
        let name = match file_name_of(&p) {
            Some(n) => string_of(&n),
            None => copy_string(&self.path),
        };
        let mut t = string_of(&chars_of("Open \u{201c}"));
        t.append(name.as_str());
        t.append("\u{201d} With");
        t
    }
}

impl OpenWithState {
    /// The dialog's body: the search while it runs, then the applications
    /// found, or a notice that there are none.
    pub fn body(&self) -> (b: DialogBody)
        ensures
            b == (if self.loading {
                DialogBody::Loading
            } else if self.apps@.len() == 0 {
                DialogBody::NoApplications
            } else {
                DialogBody::Applications
            }),
    {
        if self.loading {
            DialogBody::Loading
        } else if self.apps.len() == 0 {
            DialogBody::NoApplications
        } else {
            DialogBody::Applications
        }
    }
}

impl Explorer {
    /// The selected path, when exactly one is selected.
    pub fn single_selection(&self) -> (r: Option<String>)
        ensures
            opt_string(r) == single_selection_spec(self.selected@),
    {
        if self.selected.len() == 1 {
            Some(copy_string(&self.selected[0]))
        } else {
            None
        }
    }

    fn entry_position(&self, p: &String) -> (r: Option<usize>)
        ensures
            match r {
                Some(i) => find_entry(self.entries@, p@) == Some(i as int) && i
                    < self.entries@.len(),
                None => find_entry(self.entries@, p@) is None,
            },
    {
        let n = self.entries.len();
        let pc = chars_of(p.as_str());
        let key = components_of(&pc);
        let mut i: usize = 0;
        assert(self.entries@.skip(0) =~= self.entries@);
        while i < n
            invariant
                n == self.entries@.len(),
                i <= n,
                pc@ == p@,
                views(key@) == path_components(p@),
                match find_entry(self.entries@.skip(i as int), p@) {
                    Some(j) => find_entry(self.entries@, p@) == Some(j + i),
                    None => find_entry(self.entries@, p@) is None,
                },
            decreases n - i,
        {
            assert(self.entries@.skip(i as int)[0] == self.entries@[i as int]);
            let ec = chars_of(self.entries[i].path.as_str());
            if same_chars(&ec, &pc) || same_components(&components_of(&ec), &key) {
                return Some(i);
            }
            assert(self.entries@.skip(i as int).drop_first() =~= self.entries@.skip(i + 1));
            i = i + 1;
        }
        None
    }

    /// The file the preview pane shows, if any. A dismissal is forgotten
    /// once the selection moves away from the dismissed file.
    pub fn preview_target(&mut self) -> (r: Option<String>)
        ensures
            opt_string(final(self).preview_dismissed) == dismissal_after(
                opt_string(old(self).preview_dismissed),
                single_selection_spec(old(self).selected@),
            ),
            opt_string(r) == preview_target_spec(
                old(self).entries@,
                opt_string(final(self).preview_dismissed),
                single_selection_spec(old(self).selected@),
            ),
            final(self).selected == old(self).selected,
            final(self).entries == old(self).entries,
            final(self).open_with == old(self).open_with,
            final(self).op_error == old(self).op_error,
            final(self).next_ticket == old(self).next_ticket,
    {
        let single = self.single_selection();
        let reset = match (&self.preview_dismissed, &single) {
            (Some(d), Some(s)) => !same_path_str(d.as_str(), s.as_str()),
            (Some(_), None) => true,
            (None, _) => false,
        };
        if reset {
            self.preview_dismissed = None;
        }
        let path = match single {
            Some(p) => p,
            None => return None,
        };
        let dismissed = match &self.preview_dismissed {
            Some(d) => same_path_str(d.as_str(), path.as_str()),
            None => false,
        };
        if dismissed {
            return None;
        }
        let i = match self.entry_position(&path) {
            Some(i) => i,
            None => return None,
        };
        if self.entries[i].is_dir || self.entries[i].is_broken_symlink {
            return None;
        }
        if is_supported_image(path.as_str()) {
            Some(path)
        } else {
            None
        }
    }

    /// Closes the preview of the current single selection (clears the
    /// dismissal when there is none).
    pub fn dismiss_preview(&mut self)
        ensures
            opt_string(final(self).preview_dismissed) == single_selection_spec(old(self).selected@),
            final(self).selected == old(self).selected,
            final(self).entries == old(self).entries,
            final(self).open_with == old(self).open_with,
            final(self).op_error == old(self).op_error,
            final(self).next_ticket == old(self).next_ticket,
    {
        self.preview_dismissed = self.single_selection();
    }

    /// Opens the "open with" dialog for `path`, with the applications still
    /// to be looked for. Returns the ticket of that search, to hand back to
    /// `finish_open_with` with its result.
    pub fn begin_open_with(&mut self, path: String) -> (ticket: u64)
        ensures
            ticket == old(self).next_ticket,
            final(self).next_ticket == ticket_after(ticket),
            final(self).open_with matches Some(s) && s.path == path && s.apps@.len() == 0
                && s.loading && s.ticket == ticket,
            final(self).selected == old(self).selected,
            final(self).entries == old(self).entries,
            final(self).preview_dismissed == old(self).preview_dismissed,
            final(self).op_error == old(self).op_error,
    {
        let ticket = self.next_ticket;
        self.next_ticket = if ticket == u64::MAX {
            0
        } else {
            ticket + 1
        };
        self.open_with = Some(OpenWithState { path, apps: Vec::new(), loading: true, ticket });
        ticket
    }

    /// The search with `ticket` found `apps`: the dialog, if it is still
    /// open for that search, lists them. A dialog opened since, or a closed
    /// one, stays as it is. Returns whether the applications were shown.
    pub fn finish_open_with(&mut self, ticket: u64, apps: Vec<DesktopApp>) -> (shown: bool)
        ensures
            shown == (old(self).open_with matches Some(s) && s.ticket == ticket),
            final(self).open_with == finished_dialog(old(self).open_with, ticket, apps),
            final(self).next_ticket == old(self).next_ticket,
            final(self).selected == old(self).selected,
            final(self).entries == old(self).entries,
            final(self).preview_dismissed == old(self).preview_dismissed,
            final(self).op_error == old(self).op_error,
    {
        match self.open_with.take() {
            Some(s) => {
                if s.ticket == ticket {
                    self.open_with = Some(OpenWithState { path: s.path, apps, loading: false, ticket });
                    true
                } else {
                    self.open_with = Some(s);
                    false
                }
            },
            None => false,
        }
    }

    /// An application was chosen: the dialog closes, and the file it was
    /// for is returned to be opened (`None` when no dialog was open).
    pub fn launch_with_app(&mut self) -> (target: Option<String>)
        ensures
            final(self).open_with is None,
            match old(self).open_with {
                Some(s) => target == Some(s.path),
                None => target is None,
            },
            final(self).selected == old(self).selected,
            final(self).entries == old(self).entries,
            final(self).preview_dismissed == old(self).preview_dismissed,
            final(self).op_error == old(self).op_error,
            final(self).next_ticket == old(self).next_ticket,
    {
        match self.open_with.take() {
            Some(s) => Some(s.path),
            None => None,
        }
    }

    /// Opening `path` failed with `error`: the message shown is
    /// "Couldn't open <path>: <error>".
    pub fn record_launch_error(&mut self, path: &str, error: &str)
        ensures
            opt_string(final(self).op_error) == Some("Couldn't open "@ + path@ + ": "@ + error@),
            final(self).selected == old(self).selected,
            final(self).entries == old(self).entries,
            final(self).preview_dismissed == old(self).preview_dismissed,
            final(self).open_with == old(self).open_with,
            final(self).next_ticket == old(self).next_ticket,
    {
        let mut m = string_of(&chars_of("Couldn't open "));
        m.append(path);
        m.append(": ");
        m.append(error);
        self.op_error = Some(m);
    }

    /// Closes the "open with" dialog; returns whether it was open.
    pub fn cancel_open_with(&mut self) -> (was_open: bool)
        ensures
            was_open == old(self).open_with is Some,
            final(self).open_with is None,
            final(self).selected == old(self).selected,
            final(self).entries == old(self).entries,
            final(self).preview_dismissed == old(self).preview_dismissed,
            final(self).op_error == old(self).op_error,
            final(self).next_ticket == old(self).next_ticket,
    {
        self.open_with.take().is_some()
    }

    /// The size of the listed file at `path`, shown under its preview.
    pub fn entry_size(&self, path: &String) -> (r: Option<u64>)
        ensures
            match find_entry(self.entries@, path@) {
                Some(i) => r == Some(self.entries@[i].size),
                None => r is None,
            },
    {
        match self.entry_position(path) {
            Some(i) => Some(self.entries[i].size),
            None => None,
        }
    }
}

/// Once the preview of the single selection is dismissed, there is no
/// preview while the selection stays the same.
pub proof fn law_dismissed_preview_stays_closed(entries: Seq<FsEntry>, selected: Seq<String>)
    ensures
        ({
            let d = single_selection_spec(selected);
            &&& dismissal_after(d, single_selection_spec(selected)) == d
            &&& preview_target_spec(entries, d, single_selection_spec(selected)) is None
        }),
{
}

/// A previewed file is the single selection, is listed, is neither a
/// directory nor a broken symlink, and is a supported image.
pub proof fn law_preview_is_selected_image(
    entries: Seq<FsEntry>,
    dismissed: Option<Seq<char>>,
    selected: Seq<String>,
)
    ensures
        preview_target_spec(entries, dismissed, single_selection_spec(selected)) matches Some(p)
            ==> {
            &&& selected.len() == 1 && selected[0]@ == p
            &&& find_entry(entries, p) matches Some(i) && !entries[i].is_dir
                && !entries[i].is_broken_symlink
            &&& is_supported_image_spec(p)
        },
{
}

proof fn lemma_ticket_later(t: u64, k: nat)
    ensures
        ticket_later(t, k) as int == (t as int + k) % 0x1_0000_0000_0000_0000,
    decreases k,
{
    if k > 0 {
        lemma_ticket_later(t, (k - 1) as nat);
    }
}

/// The result of a search begun before later `begin_open_with` calls (fewer
/// than 2^64 of them) never reaches the later dialog: that dialog's ticket
/// differs from the earlier search's, so finishing the earlier search
/// leaves it as it is. A dialog that was closed stays closed.
pub proof fn law_superseded_search_is_dropped(
    earlier: u64,
    k: nat,
    later: OpenWithState,
    apps: Vec<DesktopApp>,
)
    requires
        0 < k < 0x1_0000_0000_0000_0000,
        later.ticket == ticket_later(earlier, k),
    ensures
        finished_dialog(Some(later), earlier, apps) == Some(later),
        finished_dialog(None, earlier, apps) is None,
{
    lemma_ticket_later(earlier, k);
}

/// A dialog still loading lists no applications, whatever search finishes.
pub proof fn law_dialog_stays_consistent(
    dialog: Option<OpenWithState>,
    ticket: u64,
    apps: Vec<DesktopApp>,
)
    requires
        dialog_consistent(dialog),
    ensures
        dialog_consistent(finished_dialog(dialog, ticket, apps)),
{
}

/// A dismissal ends as soon as the single selection is not the dismissed
/// file: with nothing or several files selected, or another file selected,
/// no dismissal is left; while the dismissed file stays selected, it is
/// kept as it was.
pub proof fn law_dismissal_ends_with_selection(dismissed: Option<Seq<char>>, selected: Seq<String>)
    ensures
        selected.len() != 1 ==> dismissal_after(dismissed, single_selection_spec(selected)) is None,
        selected.len() == 1 ==> match dismissed {
            Some(d) => if same_path(d, selected[0]@) {
                dismissal_after(dismissed, single_selection_spec(selected)) == dismissed
            } else {
                dismissal_after(dismissed, single_selection_spec(selected)) is None
            },
            None => dismissal_after(dismissed, single_selection_spec(selected)) is None,
        },
{
}

} // verus!
