//! Application state: the open closet, the drawer being edited, the
//! dialog shown over it, and the status-bar message.
//!
//! The terminal itself — key decoding, rendering, the clipboard — is
//! an external collaborator; this module holds the state and the
//! decisions, on plain values.

use vstd::prelude::*;
use crate::closed_drawer::{spec_opens, SlotV};
use crate::content::{Entry, EntryV, OpenDrawer};
use crate::error::CoreError;
use crate::open_closet::{stack_closed_to, OpenCloset};
use crate::ser_closet::{spec_closet, spec_load, ClosetV, MIN_SLOTS};

verus! {

/// Launch options the command line hands over: whether to prompt for a
/// drawer right away, and whether values start hidden.
pub struct Args {
    pub open: bool,
    pub hide: bool,
}

/// An action the user can trigger from a key or the menu.
#[derive(Debug, Clone, Copy, PartialEq, Eq, Structural)]
pub enum Action {
    Back,
    NewDrawer,
    OpenDrawer,
    SaveDrawer,
    CloseShallowDrawer,
    CloseDeepDrawer,
    Help,
    Quit,
    MoveLineUp,
    MoveLineDown,
    ToggleHiding,
    OpenAllValues,
    CloseAllValues,
    Copy,
    Cut,
    Paste,
    ConfirmEntryRemoval,
    NewEntry,
    RemoveLine,
    Search,
    OpenPasswordChangeDialog,
}

/// A menu over the rest of the screen: a list of actions, one
/// selected.
pub struct Menu {
    pub items: Vec<Action>,
    pub selected: usize,
}

impl Menu {
    /// An empty menu.
    pub fn new() -> (r: Menu)
        ensures
            r.items@ == Seq::<Action>::empty(),
            r.selected == 0,
    {
        Menu { items: Vec::new(), selected: 0 }
    }

    /// Append an action.
    pub fn add_item(&mut self, action: Action)
        ensures
            final(self).items@ == old(self).items@.push(action),
            final(self).selected == old(self).selected,
    {
        self.items.push(action);
    }

    /// Move the selection, falling back to the top when out of range.
    pub fn select(&mut self, idx: usize)
        ensures
            final(self).items@ == old(self).items@,
            final(self).selected == if idx < old(self).items@.len() {
                idx as int
            } else {
                0
            },
    {
        if idx < self.items.len() {
            self.selected = idx;
        } else {
            self.selected = 0;
        }
    }
}

/// What a password dialog is being shown for.
#[derive(Debug, Clone, Copy, PartialEq, Eq, Structural)]
pub enum PasswordDialogPurpose {
    NewDrawer,
    OpenDrawer,
    ChangeDrawerPassword,
}

/// A password prompt: its purpose and whether typed characters are
/// hidden.
pub struct PasswordDialog {
    pub purpose: PasswordDialogPurpose,
    pub hide_chars: bool,
}

/// The dialog displayed over the rest, if any.
pub enum Dialog {
    NoDialog,
    Menu(Menu),
    Help,
    Password(PasswordDialog),
}

impl Dialog {
    /// Whether any dialog is shown.
    pub open spec fn spec_is_some(&self) -> bool {
        !(self is NoDialog)
    }
}

/// Where the focus is inside an open drawer's entry list.
pub enum DrawerFocus {
    NoneSelected,
    NameSelected { line: usize },
    ValueSelected { line: usize },
    NameEdit { line: usize, input: String },
    ValueEdit { line: usize, input: String },
    SearchEdit { input: String },
    PendingRemoval { line: usize },
}

/// The entry line a focus points at, if any.
pub open spec fn spec_focus_line(f: &DrawerFocus) -> Option<usize> {
    match f {
        DrawerFocus::NoneSelected => None,
        DrawerFocus::NameSelected { line } => Some(*line),
        DrawerFocus::ValueSelected { line } => Some(*line),
        DrawerFocus::NameEdit { line, .. } => Some(*line),
        DrawerFocus::ValueEdit { line, .. } => Some(*line),
        DrawerFocus::SearchEdit { .. } => None,
        DrawerFocus::PendingRemoval { line } => Some(*line),
    }
}

impl DrawerFocus {
    /// The entry line the focus points at, if any.
    pub fn line(&self) -> (r: Option<usize>)
        ensures
            r == spec_focus_line(self),
    {
        match self {
            DrawerFocus::NameSelected { line } => Some(*line),
            DrawerFocus::ValueSelected { line } => Some(*line),
            DrawerFocus::NameEdit { line, .. } => Some(*line),
            DrawerFocus::ValueEdit { line, .. } => Some(*line),
            DrawerFocus::PendingRemoval { line } => Some(*line),
            _ => None,
        }
    }
}

/// The state of the drawer being edited: the drawer itself and the
/// focus within it.
pub struct DrawerState {
    pub drawer: OpenDrawer,
    pub focus: DrawerFocus,
}

/// How closing the focused input transforms the drawer state: the
/// focus leaves edit mode, everything but the edited entry is kept,
/// and the typed text is committed to the entry unless discarded.
pub open spec fn spec_input_closed(
    pre: DrawerState,
    post: DrawerState,
    discard: bool,
    r: bool,
) -> bool {
    &&& r == (pre.focus is NameEdit || pre.focus is ValueEdit || pre.focus is SearchEdit)
    &&& post.drawer.password@ == pre.drawer.password@
    &&& post.drawer.drawer_idx == pre.drawer.drawer_idx
    &&& post.drawer.open_id == pre.drawer.open_id
    &&& post.drawer.bucket == pre.drawer.bucket
    &&& post.drawer.content.closet == pre.drawer.content.closet
    &&& post.drawer.content.settings == pre.drawer.content.settings
    &&& post.drawer.wf() == pre.drawer.wf()
    &&& !(post.focus is NameEdit) && !(post.focus is ValueEdit) && !(post.focus is SearchEdit)
    &&& post.drawer.content@.entries.len() == pre.drawer.content@.entries.len()
    &&& (discard ==> post.drawer.content@.entries == pre.drawer.content@.entries)
    &&& (!(pre.focus is NameEdit) && !(pre.focus is ValueEdit)
        ==> post.drawer.content@.entries == pre.drawer.content@.entries)
    &&& (!discard ==> (pre.focus matches DrawerFocus::NameEdit { line, input } ==> {
        &&& post.focus == (DrawerFocus::NameSelected { line })
        &&& (line < pre.drawer.content@.entries.len() ==> post.drawer.content@.entries
            == pre.drawer.content@.entries.update(
            line as int,
            EntryV {
                name: input@,
                value: pre.drawer.content@.entries[line as int].value,
            },
        ))
        &&& (line >= pre.drawer.content@.entries.len() ==> post.drawer.content@.entries
            == pre.drawer.content@.entries)
    }))
    &&& (!discard ==> (pre.focus matches DrawerFocus::ValueEdit { line, input } ==> {
        &&& post.focus == (DrawerFocus::ValueSelected { line })
        &&& (line < pre.drawer.content@.entries.len() ==> post.drawer.content@.entries
            == pre.drawer.content@.entries.update(
            line as int,
            EntryV {
                name: pre.drawer.content@.entries[line as int].name,
                value: input@,
            },
        ))
        &&& (line >= pre.drawer.content@.entries.len() ==> post.drawer.content@.entries
            == pre.drawer.content@.entries)
    }))
}

impl DrawerState {
    /// Wrap a freshly taken drawer, nothing focused.
    pub fn new(drawer: OpenDrawer) -> (r: DrawerState)
        ensures
            r.drawer == drawer,
            r.focus is NoneSelected,
    {
        DrawerState { drawer, focus: DrawerFocus::NoneSelected }
    }

    /// If an entry field is being edited, close the edit: commit the
    /// typed text unless `discard` asks to throw it away.  Returns
    /// whether there was an input to close.
    pub fn close_input(&mut self, discard: bool) -> (r: bool)
        ensures
            spec_input_closed(*old(self), *final(self), discard, r),
    {
        let mut focus = DrawerFocus::NoneSelected;
        std::mem::swap(&mut focus, &mut self.focus);
        match focus {
            DrawerFocus::NameEdit { line, input } => {
                let ghost iv = input@;
                if !discard && line < self.drawer.content.entries.len() {
                    let value = self.drawer.content.entries[line].value.clone();
                    self.drawer.content.entries[line] = Entry { name: input, value };
                    proof {
                        assert(self.drawer.content@.entries =~= old(self).drawer.content@.entries.update(
                            line as int,
                            EntryV {
                                name: iv,
                                value: old(self).drawer.content@.entries[line as int].value,
                            },
                        ));
                    }
                }
                self.focus = DrawerFocus::NameSelected { line };
                true
            },
            DrawerFocus::ValueEdit { line, input } => {
                let ghost iv = input@;
                if !discard && line < self.drawer.content.entries.len() {
                    let name = self.drawer.content.entries[line].name.clone();
                    self.drawer.content.entries[line] = Entry { name, value: input };
                    proof {
                        assert(self.drawer.content@.entries =~= old(self).drawer.content@.entries.update(
                            line as int,
                            EntryV {
                                name: old(self).drawer.content@.entries[line as int].name,
                                value: iv,
                            },
                        ));
                    }
                }
                self.focus = DrawerFocus::ValueSelected { line };
                true
            },
            DrawerFocus::SearchEdit { input: _ } => {
                self.focus = DrawerFocus::NoneSelected;
                true
            },
            other => {
                self.focus = other;
                false
            },
        }
    }
}

/// The message shown in the status bar.
pub struct Message {
    pub text: String,
    pub error: bool,
}

/// What the shell must do after an action was applied: the state has
/// already changed; any outside effect is named here and performed by
/// the shell.
pub enum CmdResult {
    /// Nothing to do outside; keep going.
    Stay,
    /// Leave the application.
    Quit,
    /// Write these bytes over the closet file, atomically.
    Persist(Vec<u8>),
    /// Put the focused cell's text on the clipboard.
    CopyCell,
    /// Cut the focused input's selection to the clipboard.
    CutInput,
    /// Paste the clipboard into the focused input.
    PasteInput,
}

/// The whole application state.
pub struct AppState {
    pub open_closet: OpenCloset,
    pub drawer_state: Option<DrawerState>,
    /// the dialog (help, menu, etc.) displayed over the rest, if any
    pub dialog: Dialog,
    /// The message (error or info) displayed in the status bar
    pub message: Option<Message>,
    /// whether to hide unselected values
    pub hide_values: bool,
    /// number of drawers created during this session
    pub created_drawers: usize,
}

impl AppState {
    /// Well-formedness: the open closet is well formed and a held
    /// drawer can be pushed back into it.
    pub open spec fn wf(&self) -> bool {
        &&& self.open_closet.wf()
        &&& self.drawer_state matches Some(ds) ==> ds.drawer.wf() && ds.drawer.drawer_idx
            <= self.open_closet.top().slots.len()
    }

    /// Fresh state over an open closet.  When launched with `open` on
    /// an existing file, the password dialog is up immediately.
    pub fn new(open_closet: OpenCloset, args: &Args) -> (r: AppState)
        requires
            open_closet.wf(),
        ensures
            r.wf(),
            r.drawer_state is None,
            r.message is None,
            r.hide_values == args.hide,
            r.created_drawers == 0,
            r.open_closet == open_closet,
            (args.open && !open_closet.just_created) <==> r.dialog is Password,
            !(args.open && !open_closet.just_created) <==> r.dialog is NoDialog,
            r.dialog matches Dialog::Password(p) ==> p.purpose is OpenDrawer && p.hide_chars,
    {
        let dialog = if args.open && !open_closet.is_just_created() {
            Dialog::Password(
                PasswordDialog { purpose: PasswordDialogPurpose::OpenDrawer, hide_chars: true },
            )
        } else {
            Dialog::NoDialog
        };
        AppState {
            open_closet,
            drawer_state: None,
            dialog,
            message: None,
            hide_values: args.hide,
            created_drawers: 0,
        }
    }

    /// How deep the user is: the entered drawer levels, plus one when
    /// a drawer is held open for editing.
    pub fn depth(&self) -> (r: usize)
        requires
            self.open_closet.wf(),
        ensures
            r == self.open_closet.spec_depth() - 1 + if self.drawer_state is Some {
                1int
            } else {
                0int
            },
    {
        self.open_closet.depth() - 1 + if self.drawer_state.is_some() {
            1
        } else {
            0
        }
    }

    /// Show an error in the status bar.
    pub fn set_error(&mut self, error: String)
        ensures
            final(self).message matches Some(m) && m.text@ == error@ && m.error,
            final(self).open_closet == old(self).open_closet,
            final(self).drawer_state == old(self).drawer_state,
            final(self).dialog == old(self).dialog,
            final(self).hide_values == old(self).hide_values,
            final(self).created_drawers == old(self).created_drawers,
            final(self).wf() == old(self).wf(),
    {
        self.message = Some(Message { text: error, error: true });
    }

    /// Show an informational note in the status bar.
    pub fn set_info(&mut self, info: String)
        ensures
            final(self).message matches Some(m) && m.text@ == info@ && !m.error,
            final(self).open_closet == old(self).open_closet,
            final(self).drawer_state == old(self).drawer_state,
            final(self).dialog == old(self).dialog,
            final(self).hide_values == old(self).hide_values,
            final(self).created_drawers == old(self).created_drawers,
            final(self).wf() == old(self).wf(),
    {
        self.message = Some(Message { text: info, error: false });
    }

    /// Whether the focus sits on an entry's name or value.
    pub fn is_on_entry_value(&self) -> (r: bool)
        ensures
            r == (self.drawer_state matches Some(ds) && (ds.focus is NameEdit
                || ds.focus is ValueEdit)),
    {
        match &self.drawer_state {
            Some(ds) => matches!(ds.focus, DrawerFocus::NameEdit { .. })
                || matches!(ds.focus, DrawerFocus::ValueEdit { .. }),
            None => false,
        }
    }

    /// Whether some text input — an entry field or the search — has
    /// the focus.
    pub fn has_input(&self) -> (r: bool)
        ensures
            r == (self.drawer_state matches Some(ds) && (ds.focus is NameEdit
                || ds.focus is ValueEdit || ds.focus is SearchEdit)),
    {
        match &self.drawer_state {
            Some(ds) => matches!(ds.focus, DrawerFocus::NameEdit { .. })
                || matches!(ds.focus, DrawerFocus::ValueEdit { .. })
                || matches!(ds.focus, DrawerFocus::SearchEdit { .. }),
            None => false,
        }
    }

    /// Ask for confirmation before removing the focused entry: the
    /// focus marks the pending removal and a small menu proposes to
    /// confirm or go back.
    pub fn propose_entry_removal(&mut self)
        ensures
            final(self).open_closet == old(self).open_closet,
            final(self).wf() == old(self).wf(),
            (old(self).drawer_state matches Some(ds) && spec_focus_line(&ds.focus) is Some) ==> {
                &&& final(self).drawer_state matches Some(ds2)
                &&& ds2.focus == (DrawerFocus::PendingRemoval {
                    line: spec_focus_line(&old(self).drawer_state->Some_0.focus)->Some_0,
                })
                &&& final(self).dialog matches Dialog::Menu(m) && m.items@ == seq![
                    Action::ConfirmEntryRemoval,
                    Action::Back,
                ] && m.selected == 1
            },
            !(old(self).drawer_state matches Some(ds) && spec_focus_line(&ds.focus) is Some)
                ==> final(self).drawer_state == old(self).drawer_state && final(self).dialog
                == old(self).dialog,
    {
        if let Some(ds) = &mut self.drawer_state {
            if let Some(line) = ds.focus.line() {
                ds.focus = DrawerFocus::PendingRemoval { line };
                let mut menu = Menu::new();
                menu.add_item(Action::ConfirmEntryRemoval);
                menu.add_item(Action::Back);
                menu.select(1);
                proof {
                    assert(menu.items@ =~= seq![Action::ConfirmEntryRemoval, Action::Back]);
                }
                self.dialog = Dialog::Menu(menu);
            }
        }
    }

    /// Withdraw a pending entry removal: the focus returns to the
    /// entry's name and the confirmation menu goes away.
    pub fn cancel_entry_removal(&mut self)
        ensures
            final(self).open_closet == old(self).open_closet,
            final(self).wf() == old(self).wf(),
            (old(self).drawer_state matches Some(ds) && ds.focus matches
                DrawerFocus::PendingRemoval { line }) ==> {
                &&& final(self).drawer_state matches Some(ds2)
                &&& ds2.focus == (DrawerFocus::NameSelected {
                    line: old(self).drawer_state->Some_0.focus->PendingRemoval_line,
                })
                &&& final(self).dialog is NoDialog
            },
            !(old(self).drawer_state matches Some(ds) && ds.focus is PendingRemoval) ==> final(self).drawer_state == old(self).drawer_state && final(self).dialog == old(self).dialog,
    {
        if let Some(ds) = &mut self.drawer_state {
            if let DrawerFocus::PendingRemoval { line } = &ds.focus {
                let line = *line;
                ds.focus = DrawerFocus::NameSelected { line };
                self.dialog = Dialog::NoDialog;
            }
        }
    }

    /// Whether an entry's removal is being confirmed.
    pub fn is_pending_removal(&self) -> (r: bool)
        ensures
            r == (self.drawer_state matches Some(ds) && ds.focus is PendingRemoval),
    {
        match &self.drawer_state {
            Some(ds) => matches!(ds.focus, DrawerFocus::PendingRemoval { .. }),
            None => false,
        }
    }

    /// If there's an open drawer input (entry name or value), close
    /// it, keeping the input content if required.
    ///
    /// Return true if there was such input.
    pub fn close_drawer_input(&mut self, discard: bool) -> (r: bool)
        requires
            old(self).wf(),
        ensures
            final(self).wf(),
            old(self).drawer_state is None ==> r == false,
            final(self).open_closet == old(self).open_closet,
            final(self).drawer_state is Some <==> old(self).drawer_state is Some,
            final(self).dialog == old(self).dialog,
            final(self).message == old(self).message,
            final(self).hide_values == old(self).hide_values,
            final(self).created_drawers == old(self).created_drawers,
            old(self).drawer_state matches Some(ds) ==> (final(self).drawer_state matches Some(
                ds2,
            ) && spec_input_closed(ds, ds2, discard, r)),
    {
        match &mut self.drawer_state {
            Some(ds) => ds.close_input(discard),
            None => false,
        }
    }

    /// Push back the open drawer, if any, into the closet (entering
    /// it), and clear the drawer state.
    pub fn push_back_drawer(&mut self)
        requires
            old(self).wf(),
        ensures
            final(self).wf(),
            final(self).drawer_state is None,
            old(self).drawer_state is None ==> final(self).open_closet == old(self).open_closet,
            old(self).drawer_state is Some ==> final(self).open_closet.spec_depth() == old(self).open_closet.spec_depth() + 1,
            old(self).drawer_state matches Some(ds) ==> final(self).open_closet.open_views()
                == old(self).open_closet.open_views().push(ds.drawer@) && final(self).open_closet.top() == ds.drawer.content.closet@ && final(self).open_closet.closet_views() == old(self).open_closet.closet_views().push(
                ds.drawer.content.closet@,
            ),
            final(self).dialog == old(self).dialog,
            final(self).message == old(self).message,
            final(self).hide_values == old(self).hide_values,
            final(self).created_drawers == old(self).created_drawers,
    {
        self.close_drawer_input(true);
        let drawer_state = self.drawer_state.take();
        if let Some(ds) = drawer_state {
            let ghost dv = ds.drawer@;
            let ghost dcv = ds.drawer.content.closet@;
            proof {
                match old(self).drawer_state {
                    Some(pre_ds) => {
                        assert(dv =~= pre_ds.drawer@);
                        assert(dcv == pre_ds.drawer.content.closet@);
                    },
                    None => {},
                }
            }
            self.open_closet.push_back(ds.drawer);
            proof {
                assert(self.open_closet.top() == self.open_closet.closet_views().last());
            }
        }
    }

    /// Save the content of the edited cell if any, then save the whole
    /// closet; the returned bytes are what the file boundary must
    /// write atomically.  When `reopen_if_open`, the drawers that were
    /// open are reopened with their retained passphrases, so editing
    /// can continue.  With no open drawer there is nothing to save and
    /// no bytes come back.
    pub fn save(&mut self, reopen_if_open: bool) -> (r: Result<Option<Vec<u8>>, CoreError>)
        requires
            old(self).wf(),
        ensures
            final(self).wf(),
            r matches Ok(b) ==> (b is Some <==> old(self).drawer_state is Some),
            r matches Ok(Some(bytes)) ==> exists|c: ClosetV|
                {
                    &&& bytes@ == #[trigger] spec_closet(c)
                    &&& spec_load(bytes@) == Ok::<ClosetV, CoreError>(c)
                    &&& crate::ser_closet::closet_wf(c)
                    &&& c.salt == old(self).open_closet.closet_views()[0].salt
                    &&& c.slots.len() >= old(self).open_closet.closet_views()[0].slots.len()
                    &&& c.slots.len() >= MIN_SLOTS
                },
            !reopen_if_open ==> (r matches Ok(Some(bytes)) ==> final(self).open_closet.spec_depth() == 1 && final(self).drawer_state is None && bytes@
                == spec_closet(final(self).open_closet.closet_views()[0])),
            r matches Err(e) ==> e == CoreError::Aead || e == CoreError::Internal,
            r == Err::<Option<Vec<u8>>, CoreError>(CoreError::Aead)
                ==> !crate::closed_drawer::pass_ok(
                old(self).drawer_state->Some_0.drawer.password@,
            ) || exists|i: int|
                0 <= i < old(self).open_closet.open_views().len() && !crate::closed_drawer::pass_ok(
                    (#[trigger] old(self).open_closet.open_views()[i]).password,
                ),
            old(self).open_closet.spec_depth() == 1 && old(self).drawer_state is Some && !(old(self).drawer_state->Some_0.focus is NameEdit) && !(old(self).drawer_state->Some_0.focus is ValueEdit) && crate::closed_drawer::pass_ok(
                old(self).drawer_state->Some_0.drawer.password@,
            ) && crate::content::spec_content(
                crate::content::spec_cleaned(old(self).drawer_state->Some_0.drawer.content@),
            ).len() <= crate::bucket::spec_bucket_size(crate::bucket::MAX_BUCKET_IDX as nat)
                ==> r is Ok,
            old(self).drawer_state is Some ==> (r matches Ok(Some(bytes)) ==> exists|
                c: ClosetV,
                closed: ClosetV,
                d: crate::content::OpenDrawerV,
            |
                #![trigger spec_closet(c), stack_closed_to(
                    old(self).open_closet.closet_views().push(d.content.closet),
                    old(self).open_closet.open_views().push(d),
                    closed,
                )]
                {
                    &&& bytes@ == spec_closet(c)
                    &&& d.password == old(self).drawer_state->Some_0.drawer.password@
                    &&& d.drawer_idx == old(self).drawer_state->Some_0.drawer.drawer_idx as int
                    &&& (!(old(self).drawer_state->Some_0.focus is NameEdit) && !(old(self).drawer_state->Some_0.focus is ValueEdit) ==> d.content
                        == crate::content::spec_cleaned(
                        old(self).drawer_state->Some_0.drawer.content@,
                    ))
                    &&& stack_closed_to(
                        old(self).open_closet.closet_views().push(d.content.closet),
                        old(self).open_closet.open_views().push(d),
                        closed,
                    )
                    &&& c.salt == closed.salt
                    &&& c.slots.len() >= closed.slots.len()
                    &&& forall|i: int|
                        0 <= i < c.slots.len() ==> (i < closed.slots.len() && c.slots[i]
                            == closed.slots[i]) || crate::ser_closet::spec_decoy_shape(
                            #[trigger] c.slots[i],
                        )
                }),
            reopen_if_open && old(self).open_closet.spec_depth() == 1 && old(self).drawer_state is Some && r is Ok ==> (final(self).drawer_state matches Some(ds2)
                && ds2.drawer.password@ == old(self).drawer_state->Some_0.drawer.password@),
    {
        self.close_drawer_input(false);
        let drawer_state = self.drawer_state.take();
        let mut ds = match drawer_state {
            None => {
                return Ok(None);
            },
            Some(ds) => ds,
        };
        let passwords: Vec<String> = if reopen_if_open {
            collect_passwords(&self.open_closet, &ds.drawer)
        } else {
            Vec::new()
        };
        ds.drawer.content.remove_empty_entries();
        let ghost drawer_v = ds.drawer@;
        proof {
            match old(self).drawer_state {
                Some(pre_ds) => {
                    assert(drawer_v.password == pre_ds.drawer.password@);
                    if !(pre_ds.focus is NameEdit) && !(pre_ds.focus is ValueEdit) {
                        assert(drawer_v.content =~= crate::content::spec_cleaned(
                            pre_ds.drawer.content@,
                        ));
                    }
                },
                None => {},
            }
        }
        self.open_closet.push_back(ds.drawer);
        let ghost pre_call_closets = self.open_closet.closet_views();
        let ghost pre_call_opens = self.open_closet.open_views();
        let ghost pre_call_top = self.open_closet.top();
        let ghost pre_call_depth = self.open_closet.spec_depth();
        proof {
            assert(pre_call_closets == old(self).open_closet.closet_views().push(
                drawer_v.content.closet,
            ));
            assert(pre_call_opens == old(self).open_closet.open_views().push(drawer_v));
            assert(self.open_closet.top() == self.open_closet.closet_views().last());
            assert(pre_call_top == drawer_v.content.closet);
            assert(crate::open_closet::content_with_closet(
                pre_call_opens.last().content,
                pre_call_top,
            ) =~= drawer_v.content);
        }
        let bytes = match self.open_closet.close_and_save() {
            Err(e) => {
                proof {
                    if e == CoreError::Aead {
                        let k = choose|k: int|
                            0 <= k < pre_call_opens.len() && !crate::closed_drawer::pass_ok(
                                (#[trigger] pre_call_opens[k]).password,
                            );
                        if k < pre_call_opens.len() - 1 {
                            assert(pre_call_opens[k] == old(self).open_closet.open_views()[k]);
                        } else {
                            assert(pre_call_opens[k] == drawer_v);
                        }
                    }
                    if pre_call_depth == 2 && crate::closed_drawer::pass_ok(
                        pre_call_opens[0].password,
                    ) && crate::content::spec_content(
                        crate::open_closet::content_with_closet(
                            pre_call_opens[0].content,
                            pre_call_top,
                        ),
                    ).len() <= crate::bucket::spec_bucket_size(
                        crate::bucket::MAX_BUCKET_IDX as nat,
                    ) {
                        assert(false);
                    }
                }
                return Err(e);
            },
            Ok(b) => b,
        };
        let ghost saved_c = self.open_closet.closet_views()[0];
        let ghost closed_g = choose|closed: ClosetV|
            {
                &&& #[trigger] stack_closed_to(pre_call_closets, pre_call_opens, closed)
                &&& closed.salt == saved_c.salt
                &&& saved_c.slots.len() >= closed.slots.len()
                &&& forall|i: int|
                    0 <= i < saved_c.slots.len() ==> (i < closed.slots.len() && saved_c.slots[i]
                        == closed.slots[i]) || crate::ser_closet::spec_decoy_shape(
                        #[trigger] saved_c.slots[i],
                    )
            };
        proof {
            assert(self.open_closet.closets@[0].wf());
            assert(crate::ser_closet::closet_wf(saved_c));
            assert(stack_closed_to(
                old(self).open_closet.closet_views().push(drawer_v.content.closet),
                old(self).open_closet.open_views().push(drawer_v),
                closed_g,
            ));
        }
        let ghost hyp = reopen_if_open && old(self).open_closet.spec_depth() == 1 && old(self).drawer_state is Some;
        let ghost sealed_pair = choose|s: SlotV, pad: Seq<u8>|
            {
                &&& #[trigger] crate::closed_drawer::is_sealed_with(
                    s,
                    pre_call_closets[0].salt,
                    pre_call_opens[0].password,
                    crate::open_closet::content_with_closet(
                        pre_call_opens[0].content,
                        pre_call_closets.last(),
                    ),
                    pad,
                )
                &&& exists|i: int|
                    0 <= i < saved_c.slots.len() && (#[trigger] saved_c.slots[i]) == s
            };
        let ghost slot_i = choose|i: int|
            0 <= i < saved_c.slots.len() && (#[trigger] saved_c.slots[i]) == sealed_pair.0;
        proof {
            if hyp {
                assert(pre_call_depth == 2);
                assert(crate::open_closet::saved_keeps_seal(
                    pre_call_closets,
                    pre_call_opens,
                    saved_c,
                ));
                assert(pre_call_opens.len() == 1);
                assert(pre_call_opens[0] == drawer_v);
                assert(pre_call_closets[0] == old(self).open_closet.closet_views()[0]);
                assert(pre_call_closets.last() == pre_call_top);
                assert(crate::open_closet::content_with_closet(
                    pre_call_opens[0].content,
                    pre_call_closets.last(),
                ) == drawer_v.content);
                assert(crate::closed_drawer::is_sealed_with(
                    sealed_pair.0,
                    pre_call_closets[0].salt,
                    drawer_v.password,
                    drawer_v.content,
                    sealed_pair.1,
                ));
                assert(saved_c.slots[slot_i] == sealed_pair.0);
                assert(saved_c.salt == pre_call_closets[0].salt);
            }
        }
        if reopen_if_open {
            let mut taken: Option<OpenDrawer> = None;
            let mut i: usize = 0;
            let mut scanning: bool = true;
            proof {
                if hyp {
                    assert(passwords@.len() == 1);
                    assert(passwords@[0]@ == drawer_v.password);
                }
            }
            while scanning && i < passwords.len()
                invariant
                    i <= passwords@.len(),
                    self.open_closet.wf(),
                    self.drawer_state is None,
                    taken matches Some(d) ==> d.wf() && d.drawer_idx
                        <= self.open_closet.top().slots.len(),
                    hyp ==> passwords@.len() == 1 && passwords@[0]@ == drawer_v.password,
                    hyp && i == 0 ==> scanning && taken is None
                        && self.open_closet.closet_views() == seq![saved_c],
                    hyp && i == 1 ==> (taken matches Some(dk) && dk.password@
                        == drawer_v.password),
                    hyp ==> crate::closed_drawer::is_sealed_with(
                        sealed_pair.0,
                        saved_c.salt,
                        drawer_v.password,
                        drawer_v.content,
                        sealed_pair.1,
                    ) && 0 <= slot_i < saved_c.slots.len() && saved_c.slots[slot_i]
                        == sealed_pair.0,
                decreases passwords@.len() - i,
            {
                if let Some(d) = taken.take() {
                    self.open_closet.push_back(d);
                }
                proof {
                    assert(self.open_closet.top() == self.open_closet.closet_views().last());
                }
                let ghost pre_take_top = self.open_closet.top();
                taken = self.open_closet.open_take_drawer(passwords[i].as_str());
                if taken.is_none() {
                    proof {
                        if hyp && i == 0 {
                            assert(pre_take_top == saved_c);
                            assert(!crate::closed_drawer::is_sealed_with(
                                pre_take_top.slots[slot_i],
                                pre_take_top.salt,
                                passwords@[0 as int]@,
                                drawer_v.content,
                                sealed_pair.1,
                            ));
                            assert(false);
                        }
                    }
                    scanning = false;
                }
                i = i + 1;
            }
            proof {
                if hyp {
                    assert(i == 1);
                }
            }
            match taken {
                Some(d) => {
                    let ghost gd = d;
                    self.drawer_state = Some(DrawerState::new(d));
                    proof {
                        assert(gd.wf() && gd.drawer_idx <= self.open_closet.top().slots.len());
                        assert(self.drawer_state matches Some(ds2) && ds2.drawer == gd);
                        assert(self.wf());
                    }
                },
                None => {},
            }
        }
        Ok(Some(bytes))
    }

    /// Apply a user action.  The status-bar message is cleared first,
    /// as on every keypress; pure transitions happen right here, on
    /// plain values; anything that must touch the outside — the file,
    /// the clipboard — comes back as a command for the shell to
    /// perform.
    #[verifier::rlimit(100)]
    pub fn on_action(&mut self, action: Action) -> (r: Result<CmdResult, CoreError>)
        requires
            old(self).wf(),
        ensures
            final(self).wf(),
            action == Action::Quit ==> (r matches Ok(c) && c is Quit),
            action == Action::Help ==> (r matches Ok(c) && c is Stay && final(self).dialog is Help),
            action == Action::NewDrawer ==> (final(self).dialog matches Dialog::Password(p)
                && p.purpose == PasswordDialogPurpose::NewDrawer),
            action == Action::OpenDrawer ==> (final(self).dialog matches Dialog::Password(p)
                && p.purpose == PasswordDialogPurpose::OpenDrawer),
            action == Action::OpenPasswordChangeDialog ==> (final(self).dialog matches
                Dialog::Password(p) && p.purpose == PasswordDialogPurpose::ChangeDrawerPassword),
            action == Action::ToggleHiding && !(old(self).dialog is Password) && old(self).drawer_state is Some ==> (final(self).drawer_state matches Some(ds2)
                && ds2.drawer.content.settings.hide_values == !old(self).drawer_state->Some_0.drawer.content.settings.hide_values),
            (action == Action::OpenAllValues || action == Action::CloseAllValues) && old(self).drawer_state is Some ==> (final(self).drawer_state matches Some(ds2)
                && ds2.drawer.content.settings.open_all_values == !old(self).drawer_state->Some_0.drawer.content.settings.open_all_values),
            (action == Action::MoveLineUp || action == Action::MoveLineDown) ==> (old(self).drawer_state matches Some(ds) ==> (final(self).drawer_state matches Some(ds2)
                && ds2.drawer.content@.entries.to_multiset()
                == ds.drawer.content@.entries.to_multiset())),
            action == Action::ConfirmEntryRemoval && old(self).drawer_state is Some && old(self).drawer_state->Some_0.focus is PendingRemoval && old(self).drawer_state->Some_0.focus->PendingRemoval_line < old(self).drawer_state->Some_0.drawer.content@.entries.len() ==> (final(self).drawer_state matches Some(ds2) && ds2.drawer.content@.entries == old(self).drawer_state->Some_0.drawer.content@.entries.remove(
                old(self).drawer_state->Some_0.focus->PendingRemoval_line as int,
            )),
            action == Action::NewEntry && old(self).drawer_state is Some ==> (final(self).drawer_state matches Some(ds2) && ds2.focus is NameEdit),
            action == Action::Search && old(self).drawer_state is Some ==> (final(self).drawer_state matches Some(ds2) && ds2.focus is SearchEdit),
            action == Action::SaveDrawer && old(self).drawer_state is None ==> (r matches Ok(c)
                && c is Stay && (final(self).message matches Some(m) && m.error)),
            (action == Action::SaveDrawer || action == Action::CloseShallowDrawer || action
                == Action::CloseDeepDrawer) ==> (r matches Ok(c) ==> (c matches
                CmdResult::Persist(bytes) ==> spec_load(bytes@) is Ok)),
            action == Action::Quit ==> final(self).open_closet == old(self).open_closet && final(self).drawer_state == old(self).drawer_state && final(self).dialog == old(self).dialog
                && final(self).message is None && final(self).hide_values == old(self).hide_values && final(self).created_drawers == old(self).created_drawers,
            (action == Action::Help || action == Action::NewDrawer || action == Action::OpenDrawer
                || action == Action::OpenPasswordChangeDialog) ==> final(self).open_closet == old(self).open_closet && final(self).drawer_state == old(self).drawer_state && final(self).message is None,
            (action == Action::SaveDrawer || action == Action::CloseShallowDrawer || action
                == Action::CloseDeepDrawer) ==> (r matches Ok(c) ==> (c is Stay || c is Persist)),
            action == Action::Copy ==> (r matches Ok(c) && (old(self).drawer_state is Some ==> c
                is CopyCell) && (old(self).drawer_state is None ==> c is Stay)),
            action == Action::Cut ==> (r matches Ok(c) && ((old(self).drawer_state is Some && (
            old(self).drawer_state->Some_0.focus is NameEdit
                || old(self).drawer_state->Some_0.focus is ValueEdit || old(self).drawer_state->Some_0.focus is SearchEdit)) ==> c is CutInput) && (!(old(self).drawer_state is Some && (old(self).drawer_state->Some_0.focus is NameEdit || old(self).drawer_state->Some_0.focus is ValueEdit || old(self).drawer_state->Some_0.focus is SearchEdit)) ==> c is Stay)),
            action == Action::Paste ==> (r matches Ok(c) && (old(self).drawer_state is Some ==> c
                is PasteInput) && (old(self).drawer_state is None ==> c is Stay)),
            (action == Action::Copy || action == Action::Cut || action == Action::Paste) ==> final(self).drawer_state == old(self).drawer_state && final(self).open_closet == old(self).open_closet,
            (action == Action::MoveLineUp || action == Action::MoveLineDown || action
                == Action::ToggleHiding || action == Action::OpenAllValues || action
                == Action::CloseAllValues || action == Action::ConfirmEntryRemoval || action
                == Action::NewEntry || action == Action::RemoveLine || action == Action::Search
                || action == Action::Copy || action == Action::Cut || action == Action::Paste)
                ==> final(self).open_closet == old(self).open_closet,
            (action == Action::MoveLineUp || action == Action::MoveLineDown || action
                == Action::ToggleHiding || action == Action::OpenAllValues || action
                == Action::CloseAllValues || action == Action::ConfirmEntryRemoval || action
                == Action::NewEntry || action == Action::RemoveLine || action == Action::Search
                || action == Action::Back || action == Action::Help || action
                == Action::NewDrawer || action == Action::OpenDrawer || action
                == Action::OpenPasswordChangeDialog) ==> (r matches Ok(c) && c is Stay),
            (action == Action::OpenAllValues || action == Action::CloseAllValues || action
                == Action::ConfirmEntryRemoval) ==> final(self).dialog is NoDialog,
            action == Action::ToggleHiding && !(old(self).dialog is Password) ==> final(self).dialog is NoDialog,
            action == Action::ConfirmEntryRemoval && old(self).drawer_state is Some && old(self).drawer_state->Some_0.focus is PendingRemoval && old(self).drawer_state->Some_0.focus->PendingRemoval_line < old(self).drawer_state->Some_0.drawer.content@.entries.len() ==> (final(self).drawer_state matches Some(ds2) && ds2.focus == (if old(self).drawer_state->Some_0.focus->PendingRemoval_line > 0 {
                DrawerFocus::NameSelected {
                    line: (old(self).drawer_state->Some_0.focus->PendingRemoval_line
                        - 1) as usize,
                }
            } else {
                DrawerFocus::NoneSelected
            })),
            (action == Action::MoveLineUp || action == Action::MoveLineDown) && old(self).drawer_state is Some && old(self).drawer_state->Some_0.focus is NameSelected && old(self).drawer_state->Some_0.focus->NameSelected_line < old(self).drawer_state->Some_0.drawer.content@.entries.len() ==> (final(self).drawer_state matches Some(ds2) && ds2.drawer.content@.entries == spec_swapped(
                old(self).drawer_state->Some_0.drawer.content@.entries,
                old(self).drawer_state->Some_0.focus->NameSelected_line as int,
                spec_move_dest(
                    action == Action::MoveLineUp,
                    old(self).drawer_state->Some_0.drawer.content@.entries.len() as int,
                    old(self).drawer_state->Some_0.focus->NameSelected_line as int,
                ),
            ) && ds2.focus == (DrawerFocus::NameSelected {
                line: spec_move_dest(
                    action == Action::MoveLineUp,
                    old(self).drawer_state->Some_0.drawer.content@.entries.len() as int,
                    old(self).drawer_state->Some_0.focus->NameSelected_line as int,
                ) as usize,
            })),
            (action == Action::MoveLineUp || action == Action::MoveLineDown) && old(self).drawer_state is Some && old(self).drawer_state->Some_0.focus is ValueSelected && old(self).drawer_state->Some_0.focus->ValueSelected_line < old(self).drawer_state->Some_0.drawer.content@.entries.len() ==> (final(self).drawer_state matches Some(ds2) && ds2.drawer.content@.entries == spec_swapped(
                old(self).drawer_state->Some_0.drawer.content@.entries,
                old(self).drawer_state->Some_0.focus->ValueSelected_line as int,
                spec_move_dest(
                    action == Action::MoveLineUp,
                    old(self).drawer_state->Some_0.drawer.content@.entries.len() as int,
                    old(self).drawer_state->Some_0.focus->ValueSelected_line as int,
                ),
            ) && ds2.focus == (DrawerFocus::ValueSelected {
                line: spec_move_dest(
                    action == Action::MoveLineUp,
                    old(self).drawer_state->Some_0.drawer.content@.entries.len() as int,
                    old(self).drawer_state->Some_0.focus->ValueSelected_line as int,
                ) as usize,
            })),
    {
        self.message = None;
        match action {
            Action::Back => {
                if self.is_pending_removal() {
                    self.cancel_entry_removal();
                } else if !matches!(self.dialog, Dialog::NoDialog) {
                    self.dialog = Dialog::NoDialog;
                } else if self.close_drawer_input(true) {
                } else {
                    let mut menu = Menu::new();
                    self.fill_menu(&mut menu);
                    self.dialog = Dialog::Menu(menu);
                }
                Ok(CmdResult::Stay)
            },
            Action::NewDrawer => {
                self.dialog = Dialog::Password(
                    PasswordDialog {
                        purpose: PasswordDialogPurpose::NewDrawer,
                        hide_chars: false,
                    },
                );
                Ok(CmdResult::Stay)
            },
            Action::OpenDrawer => {
                self.dialog = Dialog::Password(
                    PasswordDialog { purpose: PasswordDialogPurpose::OpenDrawer, hide_chars: true },
                );
                Ok(CmdResult::Stay)
            },
            Action::SaveDrawer => {
                if self.drawer_state.is_some() {
                    self.dialog = Dialog::NoDialog;
                    match self.save(true) {
                        Ok(Some(bytes)) => Ok(CmdResult::Persist(bytes)),
                        Ok(None) => Ok(CmdResult::Stay),
                        Err(e) => Err(e),
                    }
                } else {
                    self.set_error("no open drawer".to_string());
                    Ok(CmdResult::Stay)
                }
            },
            Action::CloseShallowDrawer | Action::CloseDeepDrawer => {
                self.dialog = Dialog::NoDialog;
                let saved = match self.save(true) {
                    Ok(b) => b,
                    Err(e) => {
                        return Err(e);
                    },
                };
                self.push_back_drawer();
                let closed = self.open_closet.close_deepest_drawer();
                match closed {
                    Ok(()) => (),
                    Err(_) => (),
                }
                match self.open_closet.take_deepest_open_drawer() {
                    Some(d) => {
                        let ghost gd = d;
                        self.drawer_state = Some(DrawerState::new(d));
                        proof {
                            assert(self.drawer_state matches Some(ds2) && ds2.drawer == gd);
                        }
                    },
                    None => {
                        self.drawer_state = None;
                    },
                }
                match saved {
                    Some(bytes) => Ok(CmdResult::Persist(bytes)),
                    None => Ok(CmdResult::Stay),
                }
            },
            Action::Help => {
                self.dialog = Dialog::Help;
                Ok(CmdResult::Stay)
            },
            Action::Quit => Ok(CmdResult::Quit),
            Action::MoveLineUp => {
                self.move_focused_line(true);
                Ok(CmdResult::Stay)
            },
            Action::MoveLineDown => {
                self.move_focused_line(false);
                Ok(CmdResult::Stay)
            },
            Action::ToggleHiding => {
                if let Dialog::Password(pd) = &mut self.dialog {
                    pd.hide_chars = !pd.hide_chars;
                    return Ok(CmdResult::Stay);
                }
                self.dialog = Dialog::NoDialog;
                if let Some(ds) = &mut self.drawer_state {
                    ds.drawer.content.settings.hide_values =
                        !ds.drawer.content.settings.hide_values;
                }
                Ok(CmdResult::Stay)
            },
            Action::OpenAllValues | Action::CloseAllValues => {
                self.dialog = Dialog::NoDialog;
                if let Some(ds) = &mut self.drawer_state {
                    ds.drawer.content.settings.open_all_values =
                        !ds.drawer.content.settings.open_all_values;
                }
                Ok(CmdResult::Stay)
            },
            Action::Copy => {
                self.dialog = Dialog::NoDialog;
                if self.drawer_state.is_some() {
                    Ok(CmdResult::CopyCell)
                } else {
                    self.set_error("you can only copy from an open drawer".to_string());
                    Ok(CmdResult::Stay)
                }
            },
            Action::Cut => {
                self.dialog = Dialog::NoDialog;
                if self.has_input() {
                    Ok(CmdResult::CutInput)
                } else {
                    self.set_error("you can only cut from an edited input".to_string());
                    Ok(CmdResult::Stay)
                }
            },
            Action::Paste => {
                self.dialog = Dialog::NoDialog;
                if self.drawer_state.is_some() {
                    Ok(CmdResult::PasteInput)
                } else {
                    self.set_error("nothing to paste into".to_string());
                    Ok(CmdResult::Stay)
                }
            },
            Action::ConfirmEntryRemoval => {
                self.dialog = Dialog::NoDialog;
                if let Some(ds) = &mut self.drawer_state {
                    if let DrawerFocus::PendingRemoval { line } = &ds.focus {
                        let line = *line;
                        if line < ds.drawer.content.entries.len() {
                            ds.drawer.content.entries.remove(line);
                            ds.focus = if line > 0 {
                                DrawerFocus::NameSelected { line: line - 1 }
                            } else {
                                DrawerFocus::NoneSelected
                            };
                        }
                    }
                }
                Ok(CmdResult::Stay)
            },
            Action::NewEntry => {
                if let Some(ds) = &mut self.drawer_state {
                    self.dialog = Dialog::NoDialog;
                    let idx = ds.drawer.content.empty_entry();
                    let input = ds.drawer.content.entries[idx].name.clone();
                    ds.focus = DrawerFocus::NameEdit { line: idx, input };
                }
                Ok(CmdResult::Stay)
            },
            Action::RemoveLine => {
                self.propose_entry_removal();
                Ok(CmdResult::Stay)
            },
            Action::Search => {
                if let Some(ds) = &mut self.drawer_state {
                    ds.focus = DrawerFocus::SearchEdit { input: String::new() };
                }
                Ok(CmdResult::Stay)
            },
            Action::OpenPasswordChangeDialog => {
                self.dialog = Dialog::Password(
                    PasswordDialog {
                        purpose: PasswordDialogPurpose::ChangeDrawerPassword,
                        hide_chars: false,
                    },
                );
                Ok(CmdResult::Stay)
            },
        }
    }

    /// Where a confirmed dialog acts: the held drawer's nested closet
    /// when a drawer is in hand — entering it first — else the deepest
    /// closet of the stack.
    pub open spec fn spec_dialog_target(&self) -> ClosetV {
        match self.drawer_state {
            Some(ds) => ds.drawer.content.closet@,
            None => self.open_closet.top(),
        }
    }

    /// Confirm the password dialog with the passphrase typed into it.
    /// What happens depends on the dialog's purpose: create a drawer,
    /// open one, or change the held drawer's passphrase.  On success
    /// the dialog goes away; on refusal it stays up and the error
    /// lands in the status bar.  Without a password dialog, nothing
    /// changes.
    #[verifier::rlimit(100)]
    pub fn confirm_password_dialog(&mut self, password: &str)
        requires
            old(self).wf(),
        ensures
            final(self).wf(),
            !(old(self).dialog is Password) ==> final(self).dialog == old(self).dialog && final(self).drawer_state == old(self).drawer_state && final(self).open_closet == old(self).open_closet,
            old(self).dialog is Password && old(self).dialog->Password_0.purpose is NewDrawer && final(self).dialog is NoDialog ==> (
            final(self).drawer_state matches Some(ds) && ds.drawer.password@ == password@
                && ds.drawer.content@.entries.len() == 0 && (old(self).created_drawers
                < usize::MAX ==> final(self).created_drawers == old(self).created_drawers + 1)),
            old(self).dialog is Password && old(self).dialog->Password_0.purpose is OpenDrawer && final(self).dialog is NoDialog ==> (
            final(self).drawer_state matches Some(ds) && ds.drawer.password@ == password@),
            old(self).dialog is Password && old(self).dialog->Password_0.purpose is NewDrawer
                && (exists|i: int|
                0 <= i < old(self).spec_dialog_target().slots.len() && spec_opens(
                    #[trigger] old(self).spec_dialog_target().slots[i],
                    old(self).spec_dialog_target().salt,
                    password@,
                )) ==> final(self).dialog is Password && (final(self).message matches Some(m)
                && m.error) && final(self).created_drawers == old(self).created_drawers,
            old(self).dialog is Password && old(self).dialog->Password_0.purpose is NewDrawer
                && (forall|i: int|
                0 <= i < old(self).spec_dialog_target().slots.len() ==> !spec_opens(
                    #[trigger] old(self).spec_dialog_target().slots[i],
                    old(self).spec_dialog_target().salt,
                    password@,
                )) && crate::closed_drawer::pass_ok(password@) && old(self).spec_dialog_target().slots.len() <= crate::ser_closet::MAX_SLOT_COUNT / 2 ==> final(self).dialog is NoDialog && (final(self).drawer_state matches Some(ds2)
                && ds2.drawer.password@ == password@ && ds2.drawer.content@.entries.len() == 0),
            old(self).dialog is Password && old(self).dialog->Password_0.purpose is OpenDrawer
                && (exists|i: int|
                0 <= i < old(self).spec_dialog_target().slots.len() && spec_opens(
                    #[trigger] old(self).spec_dialog_target().slots[i],
                    old(self).spec_dialog_target().salt,
                    password@,
                )) ==> final(self).dialog is NoDialog && (final(self).drawer_state matches Some(
                ds2,
            ) && ds2.drawer.password@ == password@),
            old(self).dialog is Password && old(self).dialog->Password_0.purpose is OpenDrawer
                && (forall|i: int|
                0 <= i < old(self).spec_dialog_target().slots.len() ==> !spec_opens(
                    #[trigger] old(self).spec_dialog_target().slots[i],
                    old(self).spec_dialog_target().salt,
                    password@,
                )) ==> final(self).dialog is Password && (final(self).message matches Some(m)
                && m.error),
            old(self).dialog is Password
                && old(self).dialog->Password_0.purpose is ChangeDrawerPassword && old(self).drawer_state is None ==> final(self).dialog is Password && final(self).drawer_state is None && (final(self).message matches Some(m) && m.error),
            old(self).dialog is Password
                && old(self).dialog->Password_0.purpose is ChangeDrawerPassword && old(self).drawer_state is Some && (exists|i: int|
                0 <= i < old(self).open_closet.top().slots.len() && spec_opens(
                    #[trigger] old(self).open_closet.top().slots[i],
                    old(self).open_closet.top().salt,
                    password@,
                )) ==> final(self).dialog is Password && (final(self).drawer_state matches Some(
                ds2,
            ) && ds2.drawer.password@ == old(self).drawer_state->Some_0.drawer.password@) && (
            final(self).message matches Some(m) && m.error),
            old(self).dialog is Password
                && old(self).dialog->Password_0.purpose is ChangeDrawerPassword && old(self).drawer_state is Some && (forall|i: int|
                0 <= i < old(self).open_closet.top().slots.len() ==> !spec_opens(
                    #[trigger] old(self).open_closet.top().slots[i],
                    old(self).open_closet.top().salt,
                    password@,
                )) && crate::closed_drawer::pass_ok(password@) ==> final(self).dialog is NoDialog && (final(self).drawer_state matches Some(ds2)
                && ds2.drawer.password@ == password@) && (final(self).message matches Some(m)
                && !m.error),
    {
        let purpose = match &self.dialog {
            Dialog::Password(pd) => pd.purpose,
            _ => {
                return ;
            },
        };
        match purpose {
            PasswordDialogPurpose::NewDrawer => {
                self.push_back_drawer();
                proof {
                    assert(self.open_closet.top() == old(self).spec_dialog_target());
                }
                match self.open_closet.create_take_drawer(password) {
                    Ok(drawer) => {
                        let ghost gd = drawer;
                        self.drawer_state = Some(DrawerState::new(drawer));
                        proof {
                            assert(self.drawer_state matches Some(ds2) && ds2.drawer == gd);
                        }
                        if self.created_drawers < usize::MAX {
                            self.created_drawers = self.created_drawers + 1;
                        }
                        self.dialog = Dialog::NoDialog;
                    },
                    Err(CoreError::DuplicatePassphrase) => {
                        self.set_error(
                            "this passphrase already opens a drawer".to_string(),
                        );
                    },
                    Err(_) => {
                        self.set_error("the drawer cannot be created".to_string());
                    },
                }
            },
            PasswordDialogPurpose::OpenDrawer => {
                self.push_back_drawer();
                proof {
                    assert(self.open_closet.top() == old(self).spec_dialog_target());
                }
                match self.open_closet.open_take_drawer(password) {
                    Some(mut drawer) => {
                        if self.hide_values {
                            drawer.content.settings.hide_values = true;
                        }
                        let ghost gd = drawer;
                        self.drawer_state = Some(DrawerState::new(drawer));
                        proof {
                            assert(self.drawer_state matches Some(ds2) && ds2.drawer == gd);
                        }
                        self.dialog = Dialog::NoDialog;
                    },
                    None => {
                        match self.open_closet.take_deepest_open_drawer() {
                            Some(d) => {
                                let ghost gd = d;
                                self.drawer_state = Some(DrawerState::new(d));
                                proof {
                                    assert(self.drawer_state matches Some(ds2) && ds2.drawer
                                        == gd);
                                }
                            },
                            None => {
                                self.drawer_state = None;
                            },
                        }
                        self.set_error("this passphrase opens no drawer".to_string());
                    },
                }
            },
            PasswordDialogPurpose::ChangeDrawerPassword => {
                match &mut self.drawer_state {
                    Some(ds) => {
                        match self.open_closet.change_password(
                            &mut ds.drawer,
                            password.to_owned(),
                        ) {
                            Ok(()) => {
                                self.message = Some(
                                    Message {
                                        text:
                                            "passphrase changed; save, then reopen to check".to_string(),
                                        error: false,
                                    },
                                );
                                self.dialog = Dialog::NoDialog;
                            },
                            Err(CoreError::DuplicatePassphrase) => {
                                self.message = Some(
                                    Message {
                                        text: "this passphrase already opens a drawer".to_string(),
                                        error: true,
                                    },
                                );
                            },
                            Err(_) => {
                                self.message = Some(
                                    Message {
                                        text: "the passphrase cannot be changed".to_string(),
                                        error: true,
                                    },
                                );
                            },
                        }
                    },
                    None => {
                        self.message = Some(
                            Message { text: "no open drawer".to_string(), error: true },
                        );
                    },
                }
            },
        }
    }

    /// Apply a pasted text.  Into a field being edited it goes whole,
    /// appended to the typed text; a selected name or value opens for
    /// editing with only the paste's first line as the text, since
    /// those fields are single-line; into the search it also goes
    /// first-line only.  The clipboard itself belongs to the shell;
    /// this carries the rule for what of the pasted text is used.
    pub fn paste_text(&mut self, pasted: &str)
        requires
            old(self).wf(),
        ensures
            final(self).wf(),
            final(self).open_closet == old(self).open_closet,
            old(self).drawer_state is None ==> final(self).drawer_state == old(self).drawer_state,
            old(self).drawer_state matches Some(ds) ==> (final(self).drawer_state matches Some(
                ds2,
            ) && ds2.drawer.content@.entries == ds.drawer.content@.entries && {
                &&& (ds.focus matches DrawerFocus::NameEdit { line, input } ==> ds2.focus
                    is NameEdit && ds2.focus->NameEdit_line == line && ds2.focus->NameEdit_input@
                    == input@ + pasted@)
                &&& (ds.focus matches DrawerFocus::ValueEdit { line, input } ==> ds2.focus
                    is ValueEdit && ds2.focus->ValueEdit_line == line
                    && ds2.focus->ValueEdit_input@ == input@ + pasted@)
                &&& (ds.focus matches DrawerFocus::NameSelected { line } ==> ds2.focus
                    is NameEdit && ds2.focus->NameEdit_line == line && vstd::utf8::encode_utf8(
                    ds2.focus->NameEdit_input@,
                ) == spec_line_prefix(vstd::utf8::encode_utf8(pasted@)))
                &&& (ds.focus matches DrawerFocus::ValueSelected { line } ==> ds2.focus
                    is ValueEdit && ds2.focus->ValueEdit_line == line && vstd::utf8::encode_utf8(
                    ds2.focus->ValueEdit_input@,
                ) == spec_line_prefix(vstd::utf8::encode_utf8(pasted@)))
                &&& (ds.focus matches DrawerFocus::SearchEdit { input } ==> ds2.focus
                    is SearchEdit && vstd::utf8::encode_utf8(ds2.focus->SearchEdit_input@)
                    == vstd::utf8::encode_utf8(input@) + spec_line_prefix(
                    vstd::utf8::encode_utf8(pasted@),
                ))
                &&& ((ds.focus is NoneSelected || ds.focus is PendingRemoval) ==> ds2.focus
                    == ds.focus)
            }),
    {
        match &mut self.drawer_state {
            None => {},
            Some(ds) => {
                let mut focus = DrawerFocus::NoneSelected;
                std::mem::swap(&mut focus, &mut ds.focus);
                match focus {
                    DrawerFocus::NameEdit { line, input } => {
                        let input = input.concat(pasted);
                        ds.focus = DrawerFocus::NameEdit { line, input };
                    },
                    DrawerFocus::ValueEdit { line, input } => {
                        let input = input.concat(pasted);
                        ds.focus = DrawerFocus::ValueEdit { line, input };
                    },
                    DrawerFocus::NameSelected { line } => {
                        ds.focus = DrawerFocus::NameEdit { line, input: first_line(pasted) };
                    },
                    DrawerFocus::ValueSelected { line } => {
                        ds.focus = DrawerFocus::ValueEdit { line, input: first_line(pasted) };
                    },
                    DrawerFocus::SearchEdit { input } => {
                        let tail = first_line(pasted);
                        let ghost tv = tail@;
                        let ghost iv = input@;
                        let input = input.concat(tail.as_str());
                        proof {
                            lemma_encode_utf8_concat(iv, tv);
                        }
                        ds.focus = DrawerFocus::SearchEdit { input };
                    },
                    other => {
                        ds.focus = other;
                    },
                }
            },
        }
    }

    /// Move the focused entry one line up or down, wrapping around;
    /// the order changes, the entries themselves do not.
    fn move_focused_line(&mut self, up: bool)
        requires
            old(self).wf(),
        ensures
            final(self).wf(),
            final(self).open_closet == old(self).open_closet,
            old(self).drawer_state is Some ==> (final(self).drawer_state matches Some(ds2) && old(self).drawer_state matches Some(ds) && ds2.drawer.content@.entries.to_multiset()
                == ds.drawer.content@.entries.to_multiset()),
            old(self).drawer_state is None ==> final(self).drawer_state is None,
            old(self).drawer_state is Some && old(self).drawer_state->Some_0.focus is NameSelected && old(self).drawer_state->Some_0.focus->NameSelected_line < old(self).drawer_state->Some_0.drawer.content@.entries.len() ==> (final(self).drawer_state matches Some(ds2) && ds2.drawer.content@.entries == spec_swapped(
                old(self).drawer_state->Some_0.drawer.content@.entries,
                old(self).drawer_state->Some_0.focus->NameSelected_line as int,
                spec_move_dest(
                    up,
                    old(self).drawer_state->Some_0.drawer.content@.entries.len() as int,
                    old(self).drawer_state->Some_0.focus->NameSelected_line as int,
                ),
            ) && ds2.focus == (DrawerFocus::NameSelected {
                line: spec_move_dest(
                    up,
                    old(self).drawer_state->Some_0.drawer.content@.entries.len() as int,
                    old(self).drawer_state->Some_0.focus->NameSelected_line as int,
                ) as usize,
            })),
            old(self).drawer_state is Some && old(self).drawer_state->Some_0.focus is ValueSelected && old(self).drawer_state->Some_0.focus->ValueSelected_line < old(self).drawer_state->Some_0.drawer.content@.entries.len() ==> (final(self).drawer_state matches Some(ds2) && ds2.drawer.content@.entries == spec_swapped(
                old(self).drawer_state->Some_0.drawer.content@.entries,
                old(self).drawer_state->Some_0.focus->ValueSelected_line as int,
                spec_move_dest(
                    up,
                    old(self).drawer_state->Some_0.drawer.content@.entries.len() as int,
                    old(self).drawer_state->Some_0.focus->ValueSelected_line as int,
                ),
            ) && ds2.focus == (DrawerFocus::ValueSelected {
                line: spec_move_dest(
                    up,
                    old(self).drawer_state->Some_0.drawer.content@.entries.len() as int,
                    old(self).drawer_state->Some_0.focus->ValueSelected_line as int,
                ) as usize,
            })),
    {
        if let Some(ds) = &mut self.drawer_state {
            let len = ds.drawer.content.entries.len();
            let moved = match &ds.focus {
                DrawerFocus::NameSelected { line } => Some((*line, true)),
                DrawerFocus::ValueSelected { line } => Some((*line, false)),
                _ => None,
            };
            if let Some((line, on_name)) = moved {
                if len > 0 && line < len {
                    let new_line = if up {
                        if line == 0 {
                            len - 1
                        } else {
                            line - 1
                        }
                    } else {
                        if line + 1 == len {
                            0
                        } else {
                            line + 1
                        }
                    };
                    let ghost before = ds.drawer.content.entries@;
                    let a = ds.drawer.content.entries[line].clone();
                    let b = ds.drawer.content.entries[new_line].clone();
                    ds.drawer.content.entries[line] = b;
                    ds.drawer.content.entries[new_line] = a;
                    proof {
                        let s1 = before.map_values(|e: Entry| e@);
                        let s2 = ds.drawer.content.entries@.map_values(|e: Entry| e@);
                        assert(s2 =~= s1.update(line as int, s1[new_line as int]).update(
                            new_line as int,
                            s1[line as int],
                        ));
                        lemma_swap_multiset(s1, s2, line as int, new_line as int);
                    }
                    ds.focus = if on_name {
                        DrawerFocus::NameSelected { line: new_line }
                    } else {
                        DrawerFocus::ValueSelected { line: new_line }
                    };
                }
            }
        }
    }

    /// The actions the menu offers, in order, for the current state.
    pub open spec fn spec_menu_actions(&self) -> Seq<Action> {
        let head = seq![Action::Back, Action::NewDrawer, Action::OpenDrawer];
        let tail = seq![Action::Help, Action::Quit];
        match self.drawer_state {
            Some(ds) => head + seq![
                Action::SaveDrawer,
                if self.open_closet.spec_depth() > 1 {
                    Action::CloseDeepDrawer
                } else {
                    Action::CloseShallowDrawer
                },
                Action::ToggleHiding,
                if ds.drawer.content.settings.open_all_values {
                    Action::CloseAllValues
                } else {
                    Action::OpenAllValues
                },
                Action::OpenPasswordChangeDialog,
            ] + tail,
            None => head + tail,
        }
    }

    /// Add the relevant possible actions to the menu.
    pub fn fill_menu(&self, menu: &mut Menu)
        requires
            self.wf(),
        ensures
            final(menu).items@ == old(menu).items@ + self.spec_menu_actions(),
            final(menu).selected == old(menu).selected,
    {
        menu.add_item(Action::Back);
        menu.add_item(Action::NewDrawer);
        menu.add_item(Action::OpenDrawer);
        if let Some(ds) = &self.drawer_state {
            menu.add_item(Action::SaveDrawer);
            if self.depth() > 1 {
                menu.add_item(Action::CloseDeepDrawer);
            } else {
                menu.add_item(Action::CloseShallowDrawer);
            }
            menu.add_item(Action::ToggleHiding);
            if ds.drawer.content.settings.open_all_values {
                menu.add_item(Action::CloseAllValues);
            } else {
                menu.add_item(Action::OpenAllValues);
            }
            menu.add_item(Action::OpenPasswordChangeDialog);
        }
        menu.add_item(Action::Help);
        menu.add_item(Action::Quit);
        proof {
            assert(menu.items@ =~= old(menu).items@ + self.spec_menu_actions());
        }
    }
}

/// The line a focused entry moves to: one step up or down, wrapping
/// around the ends.
pub open spec fn spec_move_dest(up: bool, len: int, l: int) -> int {
    if up {
        if l == 0 {
            len - 1
        } else {
            l - 1
        }
    } else {
        if l + 1 == len {
            0
        } else {
            l + 1
        }
    }
}

/// The sequence with the elements at `i` and `j` exchanged.
pub open spec fn spec_swapped<A>(s: Seq<A>, i: int, j: int) -> Seq<A> {
    s.update(i, s[j]).update(j, s[i])
}

/// Exchanging two positions of a sequence keeps its multiset.
proof fn lemma_swap_multiset<A>(s1: Seq<A>, s2: Seq<A>, i: int, j: int)
    requires
        0 <= i < s1.len(),
        0 <= j < s1.len(),
        s2 == s1.update(i, s1[j]).update(j, s1[i]),
    ensures
        s2.to_multiset() == s1.to_multiset(),
{
    vstd::seq_lib::to_multiset_update(s1, i, s1[j]);
    let t = s1.update(i, s1[j]);
    vstd::seq_lib::to_multiset_update(t, j, s1[i]);
    if i == j {
        assert(s2 =~= s1.update(j, s1[i]));
        assert(s2.to_multiset() =~= s1.to_multiset());
    } else {
        assert(t[j] == s1[j]);
        s1.to_multiset_ensures();
        assert(s1.contains(s1[i]));
        assert(s1.contains(s1[j]));
        assert(s1.to_multiset().count(s1[i]) > 0);
        assert(s1.to_multiset().count(s1[j]) > 0);
        assert(s2.to_multiset() =~= s1.to_multiset());
    }
}

/// Encoding distributes over concatenation of character sequences.
proof fn lemma_encode_utf8_concat(a: Seq<char>, b: Seq<char>)
    ensures
        vstd::utf8::encode_utf8(a + b) == vstd::utf8::encode_utf8(a) + vstd::utf8::encode_utf8(b),
    decreases a.len(),
{
    if a.len() == 0 {
        assert(a + b =~= b);
        assert(vstd::utf8::encode_utf8(a) =~= Seq::<u8>::empty());
        assert(vstd::utf8::encode_utf8(a) + vstd::utf8::encode_utf8(b)
            =~= vstd::utf8::encode_utf8(b));
    } else {
        assert((a + b)[0] == a[0]);
        assert((a + b).drop_first() =~= a.drop_first() + b);
        lemma_encode_utf8_concat(a.drop_first(), b);
        assert(vstd::utf8::encode_scalar(a[0] as u32) + (vstd::utf8::encode_utf8(a.drop_first())
            + vstd::utf8::encode_utf8(b)) =~= (vstd::utf8::encode_scalar(a[0] as u32)
            + vstd::utf8::encode_utf8(a.drop_first())) + vstd::utf8::encode_utf8(b));
    }
}

/// The bytes of a text up to its first line break: what a paste keeps
/// when the target is a single-line field.
pub open spec fn spec_line_prefix(b: Seq<u8>) -> Seq<u8>
    decreases b.len(),
{
    if b.len() == 0 {
        b
    } else if b[0] == 10 || b[0] == 13 {
        Seq::empty()
    } else {
        seq![b[0]] + spec_line_prefix(b.drop_first())
    }
}

/// The given text up to its first line break.
pub fn first_line(s: &str) -> (r: String)
    ensures
        vstd::utf8::encode_utf8(r@) == spec_line_prefix(vstd::utf8::encode_utf8(s@)),
{
    proof {
        vstd::utf8::encode_utf8_valid_utf8(s@);
    }
    let bytes = s.as_bytes_vec();
    let ghost b = bytes@;
    proof {
        assert(b.skip(0) =~= b);
        assert(b.take(0) + spec_line_prefix(b.skip(0)) =~= spec_line_prefix(b));
    }
    let mut i: usize = 0;
    while i < bytes.len() && bytes[i] != 10 && bytes[i] != 13
        invariant
            i <= bytes@.len(),
            b == bytes@,
            spec_line_prefix(b) == b.take(i as int) + spec_line_prefix(b.skip(i as int)),
        decreases bytes@.len() - i,
    {
        proof {
            assert(b.skip(i as int)[0] == b[i as int]);
            assert(b.skip(i as int).drop_first() =~= b.skip((i + 1) as int));
            assert(b.take((i + 1) as int) =~= b.take(i as int) + seq![b[i as int]]);
            assert(b.take(i as int) + (seq![b[i as int]] + spec_line_prefix(
                b.skip((i + 1) as int),
            )) =~= (b.take(i as int) + seq![b[i as int]]) + spec_line_prefix(
                b.skip((i + 1) as int),
            ));
        }
        i = i + 1;
    }
    proof {
        if i == b.len() {
            assert(b.skip(i as int) =~= Seq::<u8>::empty());
            assert(spec_line_prefix(b.skip(i as int)) =~= Seq::<u8>::empty());
        } else {
            assert(b.skip(i as int)[0] == b[i as int]);
            assert(spec_line_prefix(b.skip(i as int)) =~= Seq::<u8>::empty());
        }
        assert(spec_line_prefix(b) =~= b.take(i as int));
    }
    if i == bytes.len() {
        let r = s.to_owned();
        proof {
            assert(b.take(i as int) =~= b);
        }
        r
    } else {
        proof {
            vstd::utf8::is_char_boundary_iff_not_is_continuation_byte(
                vstd::utf8::encode_utf8(s@),
                i as int,
            );
        }
        let (head, _) = s.split_at(i);
        let r = head.to_owned();
        proof {
            assert(vstd::utf8::encode_utf8(r@) =~= b.take(i as int));
        }
        r
    }
}

/// The passphrases of every drawer on the stack, shallowest first,
/// ending with the drawer in hand: what a save-and-reopen needs to
/// find its way back down.
fn collect_passwords(oc: &OpenCloset, current: &OpenDrawer) -> (r: Vec<String>)
    ensures
        r@.len() == oc.open_drawers@.len() + 1,
        forall|i: int|
            0 <= i < oc.open_drawers@.len() ==> (#[trigger] r@[i])@ == oc.open_views()[i].password,
        r@[r@.len() - 1]@ == current.password@,
{
    let mut passwords: Vec<String> = Vec::new();
    let mut i: usize = 0;
    while i < oc.open_drawers.len()
        invariant
            i <= oc.open_drawers@.len(),
            passwords@.len() == i,
            forall|k: int|
                0 <= k < i ==> (#[trigger] passwords@[k])@ == oc.open_views()[k].password,
        decreases oc.open_drawers@.len() - i,
    {
        passwords.push(oc.open_drawers[i].password.clone());
        i = i + 1;
    }
    passwords.push(current.password.clone());
    passwords
}

} // verus!
