use notetaker::editor_core::command::EditorCommand;
use notetaker::editor_core::input_event::{Key, KeyPress, Mods};
use notetaker::editor_core::keybinds::{KeybindRegistry, KeybindResolveResult, Timestamp};
use notetaker::editor_core::lua_runtime::LuaRuntimeError;
use notetaker::editor_core::user_mode::UserMode;

fn ch(c: &str) -> KeyPress {
    KeyPress { key: Key::Character(c.to_string()), mods: Mods::empty() }
}

fn at(millis: u64) -> Timestamp {
    Timestamp { millis }
}

#[test]
fn parse_mode_short_and_long_names() {
    assert_eq!(KeybindRegistry::parse_mode("n").unwrap(), UserMode::Normal);
    assert_eq!(KeybindRegistry::parse_mode("normal").unwrap(), UserMode::Normal);
    assert_eq!(KeybindRegistry::parse_mode("v").unwrap(), UserMode::Visual);
    assert_eq!(KeybindRegistry::parse_mode("insert").unwrap(), UserMode::Insert);
    assert_eq!(KeybindRegistry::parse_mode("c").unwrap(), UserMode::Command);
    assert_eq!(KeybindRegistry::parse_mode("terminal").unwrap(), UserMode::Terminal);
}

#[test]
fn parse_mode_rejects_unknown_and_empty() {
    assert!(matches!(KeybindRegistry::parse_mode(""), Err(LuaRuntimeError::InvalidArg(0))));
    assert!(matches!(KeybindRegistry::parse_mode("Normal"), Err(LuaRuntimeError::InvalidArg(0))));
    assert!(matches!(KeybindRegistry::parse_mode("x"), Err(LuaRuntimeError::InvalidArg(0))));
}

#[test]
fn parse_command_names() {
    assert_eq!(KeybindRegistry::parse_command("undo").unwrap(), EditorCommand::Undo);
    assert_eq!(KeybindRegistry::parse_command("redo").unwrap(), EditorCommand::Redo);
    assert_eq!(KeybindRegistry::parse_command("workspace.open").unwrap(), EditorCommand::OpenWorkspace);
    assert_eq!(KeybindRegistry::parse_command("mode.cmdline").unwrap(), EditorCommand::EnterCmdlineMode);
    assert_eq!(KeybindRegistry::parse_command("buffer.split").unwrap(), EditorCommand::SplitBuffer);
    assert_eq!(
        KeybindRegistry::parse_command("buffer.op.delete_selection").unwrap(),
        EditorCommand::DeleteSelection
    );
}

#[test]
fn parse_command_rejects_unknown_and_empty() {
    assert!(matches!(KeybindRegistry::parse_command(""), Err(LuaRuntimeError::InvalidArg(2))));
    assert!(matches!(KeybindRegistry::parse_command("quit"), Err(LuaRuntimeError::InvalidArg(2))));
    assert!(matches!(KeybindRegistry::parse_command("buffer."), Err(LuaRuntimeError::InvalidArg(2))));
}

#[test]
fn parse_key_single_chars_and_names() {
    assert_eq!(KeybindRegistry::parse_key("a").unwrap(), Key::Character("a".to_string()));
    assert_eq!(KeybindRegistry::parse_key("é").unwrap(), Key::Character("é".to_string()));
    assert_eq!(KeybindRegistry::parse_key("Space").unwrap(), Key::Space);
    assert_eq!(KeybindRegistry::parse_key("Escape").unwrap(), Key::Escape);
    assert_eq!(KeybindRegistry::parse_key("F1").unwrap(), Key::F(1));
    assert_eq!(KeybindRegistry::parse_key("F12").unwrap(), Key::F(12));
    assert_eq!(KeybindRegistry::parse_key("Left").unwrap(), Key::Left);
}

#[test]
fn parse_key_rejects_unknown() {
    assert!(matches!(KeybindRegistry::parse_key(""), Err(LuaRuntimeError::InvalidArg(1))));
    assert!(matches!(KeybindRegistry::parse_key("F13"), Err(LuaRuntimeError::InvalidArg(1))));
    assert!(matches!(KeybindRegistry::parse_key("space"), Err(LuaRuntimeError::InvalidArg(1))));
}

#[test]
fn parse_token_with_mods() {
    let kp = KeybindRegistry::parse_token("CTRL-ALT-x").unwrap();
    assert_eq!(kp.key, Key::Character("x".to_string()));
    assert!(kp.mods.contains(Mods::CTRL));
    assert!(kp.mods.contains(Mods::ALT));
    assert!(!kp.mods.contains(Mods::SHIFT));
    assert!(!kp.mods.contains(Mods::SUPER));

    let plain = KeybindRegistry::parse_token("Enter").unwrap();
    assert_eq!(plain, KeyPress { key: Key::Enter, mods: Mods::empty() });
}

#[test]
fn parse_token_repeated_mod_counts_once() {
    let mut expected = Mods::empty();
    expected.with(Mods::SHIFT);
    let kp = KeybindRegistry::parse_token("SHIFT-SHIFT-Tab").unwrap();
    assert_eq!(kp, KeyPress { key: Key::Tab, mods: expected });
}

#[test]
fn parse_token_rejects_bad_parts() {
    assert!(matches!(KeybindRegistry::parse_token("HYPER-a"), Err(LuaRuntimeError::InvalidArg(1))));
    assert!(matches!(KeybindRegistry::parse_token("CTRL-"), Err(LuaRuntimeError::InvalidArg(1))));
    assert!(matches!(KeybindRegistry::parse_token(""), Err(LuaRuntimeError::InvalidArg(1))));
}

#[test]
fn parse_sequence_plain_chars() {
    let seq = KeybindRegistry::parse_sequence("dd").unwrap();
    assert_eq!(seq, vec![ch("d"), ch("d")]);
}

#[test]
fn parse_sequence_with_special_keys() {
    let mut ctrl = Mods::empty();
    ctrl.with(Mods::CTRL);
    let seq = KeybindRegistry::parse_sequence("<Space>f<CTRL-w>").unwrap();
    assert_eq!(
        seq,
        vec![
            KeyPress { key: Key::Space, mods: Mods::empty() },
            ch("f"),
            KeyPress { key: Key::Character("w".to_string()), mods: ctrl },
        ]
    );
}

#[test]
fn parse_sequence_rejects_empty_and_unclosed() {
    assert!(matches!(KeybindRegistry::parse_sequence(""), Err(LuaRuntimeError::InvalidArg(1))));
    assert!(matches!(KeybindRegistry::parse_sequence("a<CTRL-w"), Err(LuaRuntimeError::InvalidArg(1))));
    assert!(matches!(KeybindRegistry::parse_sequence("<Nope>"), Err(LuaRuntimeError::InvalidArg(1))));
}

#[test]
fn single_key_binding_matches() {
    let mut reg = KeybindRegistry::default();
    reg.register(UserMode::Normal, &[ch("u")], EditorCommand::Undo);
    assert_eq!(reg.resolve(UserMode::Normal, ch("u"), at(0)), KeybindResolveResult::Match(EditorCommand::Undo));
    // nothing stays pending after a full match
    assert_eq!(reg.check_pending_deadline(at(10_000)), None);
}

#[test]
fn binding_is_per_mode() {
    let mut reg = KeybindRegistry::default();
    reg.register(UserMode::Normal, &[ch("u")], EditorCommand::Undo);
    assert_eq!(reg.resolve(UserMode::Insert, ch("u"), at(0)), KeybindResolveResult::NoMatch);
}

#[test]
fn unknown_key_is_no_match() {
    let mut reg = KeybindRegistry::default();
    assert_eq!(reg.resolve(UserMode::Normal, ch("q"), at(0)), KeybindResolveResult::NoMatch);
    reg.register(UserMode::Normal, &[ch("u")], EditorCommand::Undo);
    assert_eq!(reg.resolve(UserMode::Normal, ch("q"), at(0)), KeybindResolveResult::NoMatch);
}

#[test]
fn rebinding_replaces_command() {
    let mut reg = KeybindRegistry::default();
    reg.register(UserMode::Normal, &[ch("u")], EditorCommand::Undo);
    reg.register(UserMode::Normal, &[ch("u")], EditorCommand::Redo);
    assert_eq!(reg.resolve(UserMode::Normal, ch("u"), at(0)), KeybindResolveResult::Match(EditorCommand::Redo));
}

#[test]
fn bound_prefix_waits_and_times_out() {
    let mut reg = KeybindRegistry::default();
    reg.register(UserMode::Normal, &[ch("d")], EditorCommand::Delete);
    reg.register(UserMode::Normal, &[ch("d"), ch("d")], EditorCommand::DeleteSelection);
    assert_eq!(
        reg.resolve(UserMode::Normal, ch("d"), at(1000)),
        KeybindResolveResult::MatchOrPending(EditorCommand::Delete)
    );
    // before the deadline nothing fires
    assert_eq!(reg.check_pending_deadline(at(1499)), None);
    // at the deadline the shorter binding fires, and only once
    assert_eq!(reg.check_pending_deadline(at(1500)), Some(EditorCommand::Delete));
    assert_eq!(reg.check_pending_deadline(at(2000)), None);
}

#[test]
fn bound_prefix_then_second_key_matches_longer_binding() {
    let mut reg = KeybindRegistry::default();
    reg.register(UserMode::Normal, &[ch("d")], EditorCommand::Delete);
    reg.register(UserMode::Normal, &[ch("d"), ch("d")], EditorCommand::DeleteSelection);
    assert_eq!(
        reg.resolve(UserMode::Normal, ch("d"), at(0)),
        KeybindResolveResult::MatchOrPending(EditorCommand::Delete)
    );
    assert_eq!(
        reg.resolve(UserMode::Normal, ch("d"), at(100)),
        KeybindResolveResult::Match(EditorCommand::DeleteSelection)
    );
    assert_eq!(reg.check_pending_deadline(at(10_000)), None);
}

#[test]
fn unbound_prefix_of_longer_binding_is_no_match() {
    // the first key of a two-key binding whose prefix is unbound resolves to
    // no match and keeps nothing pending
    let mut reg = KeybindRegistry::default();
    reg.register(UserMode::Normal, &[ch("g"), ch("g")], EditorCommand::MoveFocus);
    assert_eq!(reg.resolve(UserMode::Normal, ch("g"), at(0)), KeybindResolveResult::NoMatch);
    assert_eq!(reg.check_pending_deadline(at(10_000)), None);
}

#[test]
fn pending_continues_with_unknown_key_is_no_match_and_keeps_pending() {
    let mut reg = KeybindRegistry::default();
    reg.register(UserMode::Normal, &[ch("d")], EditorCommand::Delete);
    reg.register(UserMode::Normal, &[ch("d"), ch("d")], EditorCommand::DeleteSelection);
    reg.resolve(UserMode::Normal, ch("d"), at(0));
    assert_eq!(reg.resolve(UserMode::Normal, ch("x"), at(10)), KeybindResolveResult::NoMatch);
    // the earlier pending sequence is still there and fires at its deadline
    assert_eq!(reg.check_pending_deadline(at(500)), Some(EditorCommand::Delete));
}

#[test]
fn modifiers_distinguish_presses() {
    let mut reg = KeybindRegistry::default();
    let ctrl_w = KeybindRegistry::parse_token("CTRL-w").unwrap();
    reg.register(UserMode::Normal, &[ctrl_w.clone()], EditorCommand::SplitBuffer);
    assert_eq!(reg.resolve(UserMode::Normal, ch("w"), at(0)), KeybindResolveResult::NoMatch);
    assert_eq!(
        reg.resolve(UserMode::Normal, ctrl_w, at(0)),
        KeybindResolveResult::Match(EditorCommand::SplitBuffer)
    );
}
