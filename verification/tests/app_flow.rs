//! The application-state layer: menus, messages, input commits, and
//! the save flow over plain values.

use safecloset::app_state::{
    Action, AppState, Args, CmdResult, Dialog, DrawerFocus, DrawerState, Menu,
    PasswordDialogPurpose,
};
use safecloset::bucket;
use safecloset::content::{DrawerContent, DrawerSettings, Entry};
use safecloset::open_closet::OpenCloset;
use safecloset::ser_closet::SerCloset;

fn fresh_state(open: bool) -> AppState {
    let closet = SerCloset::new("init").expect("closet creation");
    let oc = OpenCloset::create(closet, true);
    AppState::new(oc, &Args { open, hide: false })
}

#[test]
fn new_state_has_no_dialog_when_just_created() {
    let state = fresh_state(true);
    assert!(matches!(state.dialog, Dialog::NoDialog));
    assert_eq!(state.depth(), 0);
    assert_eq!(state.created_drawers, 0);
    assert!(state.message.is_none());
}

#[test]
fn new_state_prompts_for_password_on_existing_file() {
    let closet = SerCloset::new("init").expect("closet creation");
    let mut oc = OpenCloset::create(closet, true);
    let bytes = oc.close_and_save().expect("save");
    let loaded = SerCloset::load(&bytes).expect("load");
    let oc2 = OpenCloset::create(loaded, false);
    let state = AppState::new(oc2, &Args { open: true, hide: true });
    assert!(matches!(state.dialog, Dialog::Password(_)));
    assert!(state.hide_values);
}

#[test]
fn messages_show_in_the_status_bar() {
    let mut state = fresh_state(false);
    state.set_error("boom".to_string());
    let m = state.message.as_ref().expect("message");
    assert_eq!(m.text, "boom");
    assert!(m.error);
    state.set_info("fine".to_string());
    let m = state.message.as_ref().expect("message");
    assert_eq!(m.text, "fine");
    assert!(!m.error);
}

#[test]
fn menu_without_drawer_is_minimal() {
    let state = fresh_state(false);
    let mut menu = Menu::new();
    state.fill_menu(&mut menu);
    assert_eq!(
        menu.items,
        vec![Action::Back, Action::NewDrawer, Action::OpenDrawer, Action::Help, Action::Quit],
    );
}

#[test]
fn menu_with_open_drawer_offers_drawer_actions() {
    let mut state = fresh_state(false);
    let drawer = state.open_closet.create_take_drawer("alpha").expect("create");
    state.drawer_state = Some(DrawerState::new(drawer));
    let mut menu = Menu::new();
    state.fill_menu(&mut menu);
    assert_eq!(
        menu.items,
        vec![
            Action::Back,
            Action::NewDrawer,
            Action::OpenDrawer,
            Action::SaveDrawer,
            Action::CloseShallowDrawer,
            Action::ToggleHiding,
            Action::OpenAllValues,
            Action::OpenPasswordChangeDialog,
            Action::Help,
            Action::Quit,
        ],
    );
    assert_eq!(state.depth(), 1);
}

#[test]
fn closing_an_edit_commits_or_discards_the_input() {
    let mut state = fresh_state(false);
    let mut drawer = state.open_closet.create_take_drawer("alpha").expect("create");
    drawer.content.entries.push(Entry::new("old-name".to_string(), "val".to_string()));
    let mut ds = DrawerState::new(drawer);
    ds.focus = DrawerFocus::NameEdit { line: 0, input: "new-name".to_string() };
    assert!(ds.close_input(false));
    assert_eq!(ds.drawer.content.entries[0].name, "new-name");
    assert!(matches!(ds.focus, DrawerFocus::NameSelected { line: 0 }));

    ds.focus = DrawerFocus::ValueEdit { line: 0, input: "typo".to_string() };
    assert!(ds.close_input(true));
    assert_eq!(ds.drawer.content.entries[0].value, "val");
    assert!(!ds.close_input(true));
}

#[test]
fn app_save_produces_loadable_bytes_and_reopens() {
    let mut state = fresh_state(false);
    let mut drawer = state.open_closet.create_take_drawer("alpha").expect("create");
    drawer.content.entries.push(Entry::new("site".to_string(), "example".to_string()));
    drawer.content.entries.push(Entry::new(String::new(), String::new()));
    state.drawer_state = Some(DrawerState::new(drawer));
    let bytes = state.save(true).expect("save").expect("bytes");
    // The empty entry was stripped; the drawer is open again.
    let ds = state.drawer_state.as_ref().expect("drawer reopened");
    assert_eq!(ds.drawer.content.entries.len(), 1);
    assert_eq!(ds.drawer.password, "alpha");
    let loaded = SerCloset::load(&bytes).expect("load");
    let mut oc2 = OpenCloset::create(loaded, false);
    let back = oc2.open_take_drawer("alpha").expect("opens");
    assert_eq!(back.content.entries.len(), 1);
    assert_eq!(back.content.entries[0].name, "site");
}

#[test]
fn app_save_without_drawer_does_nothing() {
    let mut state = fresh_state(false);
    let saved = state.save(true).expect("save");
    assert!(saved.is_none());
}

#[test]
fn push_back_drawer_enters_the_drawer() {
    let mut state = fresh_state(false);
    let drawer = state.open_closet.create_take_drawer("alpha").expect("create");
    state.drawer_state = Some(DrawerState::new(drawer));
    assert_eq!(state.open_closet.depth(), 1);
    state.push_back_drawer();
    assert!(state.drawer_state.is_none());
    assert_eq!(state.open_closet.depth(), 2);
}

#[test]
fn empty_entries_are_found_or_added() {
    let mut content = DrawerContent {
        entries: Vec::new(),
        settings: DrawerSettings::default(),
        closet: SerCloset::new_nested(),
    };
    let line = content.empty_entry();
    assert_eq!(line, 0);
    assert_eq!(content.entries.len(), 1);
    content.entries[0] = Entry::new("a".to_string(), "b".to_string());
    content.entries.push(Entry::new(String::new(), String::new()));
    let line = content.empty_entry();
    assert_eq!(line, 1);
    assert_eq!(content.entries.len(), 2);

    content.remove_empty_entries();
    assert_eq!(content.entries.len(), 1);
    assert_eq!(content.entries[0].name, "a");
    assert!(Entry::default().is_empty());
    assert!(!content.entries[0].is_empty());
}

#[test]
fn entry_removal_is_proposed_and_cancelled() {
    let mut state = fresh_state(false);
    let mut drawer = state.open_closet.create_take_drawer("alpha").expect("create");
    drawer.content.entries.push(Entry::new("a".to_string(), "b".to_string()));
    let mut ds = DrawerState::new(drawer);
    ds.focus = DrawerFocus::ValueSelected { line: 0 };
    state.drawer_state = Some(ds);
    assert!(!state.is_pending_removal());

    state.propose_entry_removal();
    assert!(state.is_pending_removal());
    match &state.dialog {
        Dialog::Menu(m) => {
            assert_eq!(m.items, vec![Action::ConfirmEntryRemoval, Action::Back]);
            assert_eq!(m.selected, 1);
        },
        _ => panic!("a confirmation menu is expected"),
    }

    state.cancel_entry_removal();
    assert!(!state.is_pending_removal());
    assert!(matches!(state.dialog, Dialog::NoDialog));
    let ds = state.drawer_state.as_ref().expect("drawer still here");
    assert!(matches!(ds.focus, DrawerFocus::NameSelected { line: 0 }));
    assert_eq!(ds.drawer.content.entries.len(), 1);
}

#[test]
fn focus_lines_and_input_flags() {
    let mut state = fresh_state(false);
    let drawer = state.open_closet.create_take_drawer("alpha").expect("create");
    let mut ds = DrawerState::new(drawer);
    assert_eq!(ds.focus.line(), None);
    ds.focus = DrawerFocus::NameEdit { line: 3, input: "x".to_string() };
    assert_eq!(ds.focus.line(), Some(3));
    state.drawer_state = Some(ds);
    assert!(state.has_input());
    assert!(state.is_on_entry_value());
    state.drawer_state.as_mut().unwrap().focus = DrawerFocus::SearchEdit {
        input: String::new(),
    };
    assert!(state.has_input());
    assert!(!state.is_on_entry_value());
}

#[test]
fn actions_drive_the_state_machine() {
    let mut state = fresh_state(false);
    let mut drawer = state.open_closet.create_take_drawer("alpha").expect("create");
    drawer.content.entries.push(Entry::new("one".to_string(), "1".to_string()));
    drawer.content.entries.push(Entry::new("two".to_string(), "2".to_string()));
    state.drawer_state = Some(DrawerState::new(drawer));

    // Quit asks to leave; Help opens the help dialog.
    assert!(matches!(state.on_action(Action::Quit), Ok(CmdResult::Quit)));
    assert!(matches!(state.on_action(Action::Help), Ok(CmdResult::Stay)));
    assert!(matches!(state.dialog, Dialog::Help));

    // Back with a dialog open just closes the dialog.
    state.on_action(Action::Back).expect("back");
    assert!(matches!(state.dialog, Dialog::NoDialog));

    // Back with nothing open brings up the menu.
    state.on_action(Action::Back).expect("back");
    assert!(matches!(state.dialog, Dialog::Menu(_)));
    state.on_action(Action::Back).expect("back");

    // The password dialogs carry their purpose.
    state.on_action(Action::OpenPasswordChangeDialog).expect("dialog");
    match &state.dialog {
        Dialog::Password(p) => {
            assert_eq!(p.purpose, PasswordDialogPurpose::ChangeDrawerPassword)
        },
        _ => panic!("password dialog expected"),
    }
    state.on_action(Action::Back).expect("back");

    // Toggling the settings flips them.
    state.on_action(Action::ToggleHiding).expect("toggle");
    assert!(state.drawer_state.as_ref().unwrap().drawer.content.settings.hide_values);
    state.on_action(Action::OpenAllValues).expect("toggle");
    assert!(state.drawer_state.as_ref().unwrap().drawer.content.settings.open_all_values);

    // Moving a selected line swaps entries and follows the selection.
    state.drawer_state.as_mut().unwrap().focus = DrawerFocus::NameSelected { line: 0 };
    state.on_action(Action::MoveLineDown).expect("move");
    {
        let ds = state.drawer_state.as_ref().unwrap();
        assert_eq!(ds.drawer.content.entries[0].name, "two");
        assert_eq!(ds.drawer.content.entries[1].name, "one");
        assert!(matches!(ds.focus, DrawerFocus::NameSelected { line: 1 }));
    }

    // Removal goes through a confirmation.
    state.on_action(Action::RemoveLine).expect("propose");
    assert!(state.is_pending_removal());
    state.on_action(Action::ConfirmEntryRemoval).expect("confirm");
    {
        let ds = state.drawer_state.as_ref().unwrap();
        assert_eq!(ds.drawer.content.entries.len(), 1);
        assert_eq!(ds.drawer.content.entries[0].name, "two");
    }

    // Saving through an action hands the bytes out for the shell.
    match state.on_action(Action::SaveDrawer).expect("save") {
        CmdResult::Persist(bytes) => {
            assert!(SerCloset::load(&bytes).is_ok());
        },
        _ => panic!("bytes to persist expected"),
    }
}

#[test]
fn password_dialog_confirmation_creates_opens_and_changes() {
    let mut state = fresh_state(false);

    // Create a drawer through the dialog.
    state.on_action(Action::NewDrawer).expect("dialog");
    state.confirm_password_dialog("alpha");
    assert!(matches!(state.dialog, Dialog::NoDialog));
    assert_eq!(state.created_drawers, 1);
    {
        let ds = state.drawer_state.as_ref().expect("drawer in hand");
        assert_eq!(ds.drawer.password, "alpha");
        assert!(ds.drawer.content.entries.is_empty());
    }

    // Creating while a drawer is in hand creates inside it: the same
    // passphrase is no duplicate one level deeper.
    state.on_action(Action::NewDrawer).expect("dialog");
    state.confirm_password_dialog("alpha");
    assert!(matches!(state.dialog, Dialog::NoDialog));
    assert_eq!(state.created_drawers, 2);
    assert_eq!(state.depth(), 2);

    // Close everything; then the same passphrase at the top level is
    // a duplicate and is refused, with the dialog kept up.
    state.on_action(Action::CloseDeepDrawer).expect("close nested");
    state.on_action(Action::CloseShallowDrawer).expect("close outer");
    assert!(state.drawer_state.is_none());
    state.on_action(Action::NewDrawer).expect("dialog");
    state.confirm_password_dialog("alpha");
    assert!(matches!(state.dialog, Dialog::Password(_)));
    assert!(state.message.as_ref().expect("error shown").error);
    state.on_action(Action::Back).expect("close dialog");

    // A wrong passphrase opens nothing and says so.
    state.on_action(Action::OpenDrawer).expect("dialog");
    state.confirm_password_dialog("wrong");
    assert!(state.message.as_ref().expect("error shown").error);
    assert!(state.drawer_state.is_none());

    // The right one opens the drawer; changing to a fresh passphrase
    // succeeds.
    state.on_action(Action::OpenDrawer).expect("dialog");
    state.confirm_password_dialog("alpha");
    assert!(state.drawer_state.is_some());
    state.on_action(Action::OpenPasswordChangeDialog).expect("dialog");
    state.confirm_password_dialog("beta");
    assert!(matches!(state.dialog, Dialog::NoDialog));
    assert_eq!(state.drawer_state.as_ref().unwrap().drawer.password, "beta");
}

#[test]
fn paste_keeps_only_the_first_line_outside_multiline_edits() {
    let mut state = fresh_state(false);
    let mut drawer = state.open_closet.create_take_drawer("alpha").expect("create");
    drawer.content.entries.push(Entry::new("n".to_string(), "v".to_string()));
    let mut ds = DrawerState::new(drawer);
    ds.focus = DrawerFocus::NameSelected { line: 0 };
    state.drawer_state = Some(ds);

    // A selected cell opens for editing with the first line only.
    state.paste_text("first\nsecond");
    match &state.drawer_state.as_ref().unwrap().focus {
        DrawerFocus::NameEdit { line, input } => {
            assert_eq!(*line, 0);
            assert_eq!(input, "first");
        },
        _ => panic!("a name edit is expected"),
    }

    // Into a field already being edited the paste goes whole.
    state.drawer_state.as_mut().unwrap().focus = DrawerFocus::ValueEdit {
        line: 0,
        input: "v:".to_string(),
    };
    state.paste_text("first\nsecond");
    match &state.drawer_state.as_ref().unwrap().focus {
        DrawerFocus::ValueEdit { input, .. } => assert_eq!(input, "v:first\nsecond"),
        _ => panic!("a value edit is expected"),
    }

    // The search is single-line as well.
    state.drawer_state.as_mut().unwrap().focus = DrawerFocus::SearchEdit {
        input: "se".to_string(),
    };
    state.paste_text("arch\r\nrest");
    match &state.drawer_state.as_ref().unwrap().focus {
        DrawerFocus::SearchEdit { input } => assert_eq!(input, "search"),
        _ => panic!("a search edit is expected"),
    }
}

#[test]
fn bucket_schedule_doubles_from_the_base() {
    assert_eq!(bucket::bucket_size(0), 512);
    assert_eq!(bucket::bucket_size(1), 1024);
    assert_eq!(bucket::bucket_size(5), 512 << 5);
    assert!(bucket::is_valid_ct_len(512 + 16));
    assert!(bucket::is_valid_ct_len(2048 + 16));
    assert!(!bucket::is_valid_ct_len(512));
    assert!(!bucket::is_valid_ct_len(513 + 16));
    assert_eq!(bucket::bucket_of_ct_len(1024 + 16), 1);
}
