use led_runtime::command::Command;
use led_runtime::config::{
    apply_settings, apply_toml, read_settings, ChordSetting, ConfigError, LoadedKeymap, Setting,
    SettingValue, Settings,
};
use led_runtime::keymap::Keymap;
use led_runtime::keys::parse_key;

fn load(source: &str) -> Result<LoadedKeymap, ConfigError> {
    let mut loaded = LoadedKeymap::new();
    apply_toml(&mut loaded, "/c/keys.toml", source)?;
    Ok(loaded)
}

fn loaded(source: &str) -> LoadedKeymap {
    match load(source) {
        Ok(l) => l,
        Err(e) => panic!("{}", e.message()),
    }
}

fn refused(source: &str) -> ConfigError {
    match load(source) {
        Ok(_) => panic!("loaded"),
        Err(e) => e,
    }
}

fn direct(k: &Keymap, key: &str) -> Option<Command> {
    k.lookup_direct(parse_key(key).unwrap())
}

fn chord(k: &Keymap, prefix: &str, key: &str) -> Option<Command> {
    k.lookup_chord(parse_key(prefix).unwrap(), parse_key(key).unwrap())
}

#[test]
fn missing_file_returns_defaults() {
    let keymap = LoadedKeymap::new().keymap;
    assert_eq!(direct(&keymap, "up"), Some(Command::CursorUp));
    assert_eq!(chord(&keymap, "ctrl+x", "ctrl+c"), Some(Command::Quit));
}

#[test]
fn user_overrides_merge_on_top_of_defaults() {
    let keymap = loaded(
        r#"
[keys]
"ctrl+q" = "quit"
"ctrl+w" = "next_tab"
"#,
    )
    .keymap;
    assert_eq!(direct(&keymap, "ctrl+q"), Some(Command::Quit));
    assert_eq!(direct(&keymap, "ctrl+w"), Some(Command::TabNext));
    assert_eq!(direct(&keymap, "up"), Some(Command::CursorUp));
    assert_eq!(chord(&keymap, "ctrl+x", "ctrl+s"), Some(Command::Save));
}

#[test]
fn user_override_replaces_default_binding() {
    let keymap = loaded(
        r#"
[keys]
"esc" = "save"
"#,
    )
    .keymap;
    assert_eq!(direct(&keymap, "esc"), Some(Command::Save));
}

#[test]
fn malformed_toml_errors() {
    let e = refused("[keys\n\"ctrl+q\" = \"quit\"\n");
    assert!(matches!(e, ConfigError::Toml { .. }), "got {e:?}");
    assert!(e.message().starts_with("parse /c/keys.toml: "));
}

#[test]
fn unknown_key_is_a_warning_not_a_fatal() {
    let l = loaded(
        r#"
[keys]
"ctrl+nope+bogus" = "quit"
"ctrl+q" = "quit"
"#,
    );
    assert_eq!(l.warnings.len(), 1);
    assert!(l.warnings[0].contains("ctrl+nope+bogus"), "{:?}", l.warnings);
    assert_eq!(direct(&l.keymap, "ctrl+q"), Some(Command::Quit));
}

#[test]
fn unknown_command_is_a_warning_not_a_fatal() {
    let l = loaded(
        r#"
[keys]
"ctrl+q" = "explode"
"ctrl+w" = "next_tab"
"#,
    );
    assert_eq!(l.warnings.len(), 1);
    assert!(l.warnings[0].contains("explode"), "{:?}", l.warnings);
    assert_eq!(direct(&l.keymap, "ctrl+w"), Some(Command::TabNext));
    assert_eq!(direct(&l.keymap, "ctrl+q"), None);
}

#[test]
fn non_string_binding_is_a_warning_not_a_fatal() {
    let l = loaded(
        r#"
[keys]
"ctrl+q" = 42
"#,
    );
    assert_eq!(l.warnings.len(), 1);
    assert!(l.warnings[0].contains("string"));
}

#[test]
fn legacy_config_loads_with_many_warnings() {
    let l = loaded(
        r#"
[keys]
"alt+," = "prev_issue"
"alt+." = "next_issue"
"ctrl+f" = "open_file_search"
"up" = "move_up"
"#,
    );
    assert_eq!(l.warnings.len(), 0);
    assert_eq!(direct(&l.keymap, "up"), Some(Command::CursorUp));
}

#[test]
fn empty_file_is_fine() {
    let keymap = loaded("").keymap;
    assert_eq!(chord(&keymap, "ctrl+x", "ctrl+c"), Some(Command::Quit));
}

#[test]
fn nested_chord_sub_table_parses() {
    let keymap = loaded(
        r#"
[keys."ctrl+x"]
"ctrl+s" = "save"
"k" = "kill_buffer"
"#,
    )
    .keymap;
    assert_eq!(chord(&keymap, "ctrl+x", "ctrl+s"), Some(Command::Save));
    assert_eq!(chord(&keymap, "ctrl+x", "k"), Some(Command::KillBuffer));
}

#[test]
fn unknown_chord_key_is_a_warning() {
    let l = loaded(
        r#"
[keys."ctrl+x"]
"ctrl+garbage+key" = "quit"
"ctrl+s" = "save"
"#,
    );
    assert_eq!(l.warnings.len(), 1);
    assert!(l.warnings[0].contains("ctrl+garbage+key"), "{:?}", l.warnings);
    assert_eq!(chord(&l.keymap, "ctrl+x", "ctrl+s"), Some(Command::Save));
}

#[test]
fn unknown_chord_command_is_a_warning() {
    let l = loaded(
        r#"
[keys."ctrl+x"]
"ctrl+s" = "explode"
"k" = "kill_buffer"
"#,
    );
    assert_eq!(l.warnings.len(), 1);
    assert!(l.warnings[0].contains("explode"), "{:?}", l.warnings);
    assert_eq!(chord(&l.keymap, "ctrl+x", "k"), Some(Command::KillBuffer));
}

#[test]
fn mix_of_direct_and_chord_under_keys_works() {
    let keymap = loaded(
        r#"
[keys]
"ctrl+q" = "quit"
"alt+a" = "save_all"

[keys."ctrl+x"]
"ctrl+s" = "save"
"#,
    )
    .keymap;
    assert_eq!(direct(&keymap, "ctrl+q"), Some(Command::Quit));
    assert_eq!(direct(&keymap, "alt+a"), Some(Command::SaveAll));
    assert_eq!(chord(&keymap, "ctrl+x", "ctrl+s"), Some(Command::Save));
}

#[test]
fn keys_must_be_a_table() {
    let e = refused("keys = 3\n");
    assert!(matches!(e, ConfigError::SchemaMismatch { .. }));
    assert_eq!(e.message(), "/c/keys.toml: `keys` must be a table");
}

#[test]
fn top_level_must_be_a_table() {
    let mut l = LoadedKeymap::new();
    let e = apply_settings(&mut l, "p", &Settings::NotATable).unwrap_err();
    assert_eq!(e.message(), "p: top level must be a TOML table");
}

#[test]
fn read_errors_name_the_file() {
    let e = ConfigError::Io { path: "p".to_string(), message: "no".to_string() };
    assert_eq!(e.message(), "read p: no");
}

#[test]
fn warnings_say_what_was_skipped() {
    let l = loaded(
        r#"
[keys]
"ctrl+q" = 42
"ctrl+w" = "explode"
"zz" = "quit"

[keys."ctrl+x"]
"a" = true
"b" = "explode"
"yy" = "quit"
"#,
    );
    assert_eq!(
        l.warnings,
        vec![
            "[keys] `ctrl+q`: value must be a string (direct) or a table (chord) (skipped)",
            "[keys] `ctrl+w` = `explode`: unknown command `explode` (skipped)",
            "[keys.\"ctrl+x\"] `a`: value must be a string (skipped)",
            "[keys.\"ctrl+x\"] `b` = `explode`: unknown command `explode` (skipped)",
            "[keys.\"ctrl+x\"] `yy`: unknown key `yy` (skipped)",
            "[keys] `zz`: unknown key `zz` (skipped)",
        ]
    );
}

#[test]
fn settings_are_read_entry_by_entry() {
    let s = match read_settings("[keys]\n\"a\" = \"quit\"\n\"b\" = { c = \"save\", d = 1 }\n") {
        Ok(Settings::Keys(s)) => s,
        _ => panic!("no settings"),
    };
    assert_eq!(s.len(), 2);
    assert_eq!(s[0].key, "a");
    assert!(matches!(&s[0].value, SettingValue::Command(c) if c == "quit"));
    assert_eq!(s[1].key, "b");
    let chords = match &s[1].value {
        SettingValue::Chords(c) => c,
        _ => panic!("no chords"),
    };
    assert_eq!(chords.len(), 2);
    assert_eq!(chords[0].key, "c");
    assert_eq!(chords[0].command.as_deref(), Some("save"));
    assert_eq!(chords[1].key, "d");
    assert_eq!(chords[1].command, None);
    assert!(matches!(read_settings("x = 1"), Ok(Settings::NoKeys)));
}

#[test]
fn the_last_setting_of_a_key_holds() {
    let setting = |name: &str| Setting {
        key: "ctrl+q".to_string(),
        value: SettingValue::Command(name.to_string()),
    };
    let mut l = LoadedKeymap::new();
    let s = Settings::Keys(vec![setting("quit"), setting("nonsense"), setting("save")]);
    assert!(apply_settings(&mut l, "p", &s).is_ok());
    assert_eq!(direct(&l.keymap, "ctrl+q"), Some(Command::Save));
    assert_eq!(l.warnings.len(), 1);
    let c = ChordSetting { key: "z".to_string(), command: Some("quit".to_string()) };
    let s = Settings::Keys(vec![Setting {
        key: "ctrl+v".to_string(),
        value: SettingValue::Chords(vec![c]),
    }]);
    assert!(apply_settings(&mut l, "p", &s).is_ok());
    assert_eq!(chord(&l.keymap, "ctrl+v", "z"), Some(Command::Quit));
}
