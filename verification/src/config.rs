//! Key bindings from a configuration file.
//!
//! The file has a `[keys]` table. A key has the name of a command, or a
//! table of the keys that may follow it:
//!
//! ```toml
//! [keys]
//! "ctrl+q" = "quit"
//!
//! [keys."ctrl+x"]
//! "ctrl+s" = "save"
//! ```

use vstd::prelude::*;

use crate::buffers;
use crate::chars::same_text;
use crate::command;
use crate::command::{parse_command, Command};
use crate::keymap;
use crate::keymap::{Keymap, KeymapView};
use crate::keys;
use crate::keys::{parse_key, KeyEvent};

verus! {

// ---------------------------------------------------------------------
// The file
// ---------------------------------------------------------------------

#[verifier::external_type_specification]
#[verifier::external_body]
pub struct ExTomlValue(toml::Value);

/// What a TOML value holds, as far as bindings can be made of it. The
/// entries of a table stand in the order in which it hands them out.
pub enum TomlTree {
    Text(Seq<char>),
    Table(Seq<(Seq<char>, TomlTree)>),
    Other,
}

/// What a `toml::Value` holds.
pub uninterp spec fn toml_tree(v: toml::Value) -> TomlTree;

/// What a source text parses to, or why it does not.
pub uninterp spec fn toml_parsed(source: Seq<char>) -> Result<TomlTree, Seq<char>>;

/// The outermost layer of a `toml::Value`.
pub enum TomlOpened {
    Text(String),
    Table(Vec<(String, toml::Value)>),
    Other,
}

pub open spec fn entry_trees(q: Seq<(String, toml::Value)>) -> Seq<(Seq<char>, TomlTree)> {
    Seq::new(q.len(), |i: int| (q[i].0@, toml_tree(q[i].1)))
}

/// `<toml::Value as FromStr>::from_str`: parses a source text. The result
/// depends on the text alone; what it is for a given text is not said. An
/// error comes as the text that its `Display` gives.
#[verifier::external_body]
fn parse_toml(source: &str) -> (r: Result<toml::Value, String>)
    ensures
        match r {
            Ok(v) => toml_parsed(source@) is Ok && toml_parsed(source@)->Ok_0 == toml_tree(v),
            Err(e) => toml_parsed(source@) is Err && toml_parsed(source@)->Err_0 == e@,
        },
{
    source.parse::<toml::Value>().map_err(|e| e.to_string())
}

/// The variants of `toml::Value`, and `toml::map::Map::into_iter` for a
/// table: a text is handed out as it is, a table entry by entry; of any
/// other value it is only said that it is neither.
#[verifier::external_body]
fn open_toml(v: toml::Value) -> (r: TomlOpened)
    ensures
        match r {
            TomlOpened::Text(s) => toml_tree(v) == TomlTree::Text(s@),
            TomlOpened::Table(q) => toml_tree(v) == TomlTree::Table(entry_trees(q@)),
            TomlOpened::Other => toml_tree(v) is Other,
        },
{
    match v {
        toml::Value::String(s) => TomlOpened::Text(s),
        toml::Value::Table(t) => TomlOpened::Table(t.into_iter().collect()),
        _ => TomlOpened::Other,
    }
}

// ---------------------------------------------------------------------
// The settings in it
// ---------------------------------------------------------------------

/// A second key and the name of its command, if it has one.
pub struct ChordSetting {
    pub key: String,
    pub command: Option<String>,
}

/// What a key is set to.
pub enum SettingValue {
    Command(String),
    Chords(Vec<ChordSetting>),
    Other,
}

pub struct Setting {
    pub key: String,
    pub value: SettingValue,
}

/// What a configuration file says.
pub enum Settings {
    NotATable,
    NoKeys,
    KeysNotATable,
    Keys(Vec<Setting>),
}

#[verifier::ext_equal]
pub struct ChordSettingView {
    pub key: Seq<char>,
    pub command: Option<Seq<char>>,
}

#[verifier::ext_equal]
pub enum SettingValueView {
    Command(Seq<char>),
    Chords(Seq<ChordSettingView>),
    Other,
}

#[verifier::ext_equal]
pub struct SettingView {
    pub key: Seq<char>,
    pub value: SettingValueView,
}

#[verifier::ext_equal]
pub enum SettingsView {
    NotATable,
    NoKeys,
    KeysNotATable,
    Keys(Seq<SettingView>),
}

impl View for ChordSetting {
    type V = ChordSettingView;

    open spec fn view(&self) -> ChordSettingView {
        ChordSettingView { key: self.key@, command: crate::kill::opt_text(self.command) }
    }
}

pub open spec fn chord_setting_views(s: Seq<ChordSetting>) -> Seq<ChordSettingView> {
    Seq::new(s.len(), |i: int| s[i]@)
}

impl View for SettingValue {
    type V = SettingValueView;

    open spec fn view(&self) -> SettingValueView {
        match self {
            SettingValue::Command(s) => SettingValueView::Command(s@),
            SettingValue::Chords(v) => SettingValueView::Chords(chord_setting_views(v@)),
            SettingValue::Other => SettingValueView::Other,
        }
    }
}

impl View for Setting {
    type V = SettingView;

    open spec fn view(&self) -> SettingView {
        SettingView { key: self.key@, value: self.value@ }
    }
}

pub open spec fn setting_views(s: Seq<Setting>) -> Seq<SettingView> {
    Seq::new(s.len(), |i: int| s[i]@)
}

impl View for Settings {
    type V = SettingsView;

    open spec fn view(&self) -> SettingsView {
        match self {
            Settings::NotATable => SettingsView::NotATable,
            Settings::NoKeys => SettingsView::NoKeys,
            Settings::KeysNotATable => SettingsView::KeysNotATable,
            Settings::Keys(v) => SettingsView::Keys(setting_views(v@)),
        }
    }
}

/// The second keys that a table holds.
pub open spec fn chord_settings(q: Seq<(Seq<char>, TomlTree)>) -> Seq<ChordSettingView> {
    Seq::new(
        q.len(),
        |i: int|
            ChordSettingView {
                key: q[i].0,
                command: match q[i].1 {
                    TomlTree::Text(s) => Some(s),
                    _ => None,
                },
            },
    )
}

/// What a value sets a key to.
pub open spec fn setting_value(t: TomlTree) -> SettingValueView {
    match t {
        TomlTree::Text(s) => SettingValueView::Command(s),
        TomlTree::Table(q) => SettingValueView::Chords(chord_settings(q)),
        TomlTree::Other => SettingValueView::Other,
    }
}

/// The settings that a table holds.
pub open spec fn key_settings(q: Seq<(Seq<char>, TomlTree)>) -> Seq<SettingView> {
    Seq::new(q.len(), |i: int| SettingView { key: q[i].0, value: setting_value(q[i].1) })
}

/// The first entry of a table with a name, from place `i` on.
pub open spec fn entry_from(q: Seq<(Seq<char>, TomlTree)>, name: Seq<char>, i: int) -> Option<
    TomlTree,
>
    decreases q.len() - i,
{
    if i < 0 || i >= q.len() {
        None
    } else if q[i].0 == name {
        Some(q[i].1)
    } else {
        entry_from(q, name, i + 1)
    }
}

/// What a whole file says.
pub open spec fn settings_in(t: TomlTree) -> SettingsView {
    match t {
        TomlTree::Table(q) => match entry_from(q, "keys"@, 0) {
            None => SettingsView::NoKeys,
            Some(TomlTree::Table(m)) => SettingsView::Keys(key_settings(m)),
            Some(_) => SettingsView::KeysNotATable,
        },
        _ => SettingsView::NotATable,
    }
}

fn read_chords(q: Vec<(String, toml::Value)>) -> (v: Vec<ChordSetting>)
    ensures
        chord_setting_views(v@) == chord_settings(entry_trees(q@)),
{
    let ghost m = entry_trees(q@);
    let ghost q0 = q@;
    let mut q = q;
    let mut v: Vec<ChordSetting> = Vec::new();
    assert(q0.subrange(0, q0.len() as int) =~= q0);
    let mut i: usize = q.len();
    while i > 0
        invariant
            i == q.len(),
            i <= q0.len(),
            m == entry_trees(q0),
            q@ == q0.subrange(0, i as int),
            v.len() == q0.len() - i,
            forall|j: int|
                0 <= j < v.len() ==> (#[trigger] v[j])@ == chord_settings(m)[q0.len() - 1 - j],
        decreases i,
    {
        let popped = q.pop();
        i = i - 1;
        assert(q@ =~= q0.subrange(0, i as int));
        if let Some(e) = popped {
            assert(e == q0[i as int]);
            let (key, value) = e;
            let command = match open_toml(value) {
                TomlOpened::Text(s) => Some(s),
                _ => None,
            };
            let ghost c = ChordSetting { key, command }@;
            assert(c =~= chord_settings(m)[i as int]);
            v.push(ChordSetting { key, command });
        }
    }
    let r = reversed_chords(v);
    assert(chord_setting_views(r@) =~= chord_settings(m));
    r
}

fn reversed_chords(v: Vec<ChordSetting>) -> (r: Vec<ChordSetting>)
    ensures
        r.len() == v.len(),
        forall|j: int| 0 <= j < r.len() ==> (#[trigger] r[j])@ == v[v.len() - 1 - j]@,
{
    let ghost v0 = v@;
    let mut v = v;
    let mut r: Vec<ChordSetting> = Vec::new();
    while v.len() > 0
        invariant
            v.len() + r.len() == v0.len(),
            v@ == v0.subrange(0, v.len() as int),
            forall|j: int| 0 <= j < r.len() ==> (#[trigger] r[j])@ == v0[v0.len() - 1 - j]@,
        decreases v.len(),
    {
        let ghost n = v.len() as int;
        let popped = v.pop();
        assert(v@ =~= v0.subrange(0, n - 1));
        if let Some(c) = popped {
            r.push(c);
        }
    }
    r
}

fn read_value(value: toml::Value) -> (r: SettingValue)
    ensures
        r@ == setting_value(toml_tree(value)),
{
    match open_toml(value) {
        TomlOpened::Text(s) => SettingValue::Command(s),
        TomlOpened::Table(q) => SettingValue::Chords(read_chords(q)),
        TomlOpened::Other => SettingValue::Other,
    }
}

fn reversed_settings(v: Vec<Setting>) -> (r: Vec<Setting>)
    ensures
        r.len() == v.len(),
        forall|j: int| 0 <= j < r.len() ==> (#[trigger] r[j])@ == v[v.len() - 1 - j]@,
{
    let ghost v0 = v@;
    let mut v = v;
    let mut r: Vec<Setting> = Vec::new();
    while v.len() > 0
        invariant
            v.len() + r.len() == v0.len(),
            v@ == v0.subrange(0, v.len() as int),
            forall|j: int| 0 <= j < r.len() ==> (#[trigger] r[j])@ == v0[v0.len() - 1 - j]@,
        decreases v.len(),
    {
        let ghost n = v.len() as int;
        let popped = v.pop();
        assert(v@ =~= v0.subrange(0, n - 1));
        if let Some(c) = popped {
            r.push(c);
        }
    }
    r
}

fn read_keys(q: Vec<(String, toml::Value)>) -> (v: Vec<Setting>)
    ensures
        setting_views(v@) == key_settings(entry_trees(q@)),
{
    let ghost m = entry_trees(q@);
    let ghost q0 = q@;
    let mut q = q;
    let mut v: Vec<Setting> = Vec::new();
    assert(q0.subrange(0, q0.len() as int) =~= q0);
    let mut i: usize = q.len();
    while i > 0
        invariant
            i == q.len(),
            i <= q0.len(),
            m == entry_trees(q0),
            q@ == q0.subrange(0, i as int),
            v.len() == q0.len() - i,
            forall|j: int|
                0 <= j < v.len() ==> (#[trigger] v[j])@ == key_settings(m)[q0.len() - 1 - j],
        decreases i,
    {
        let popped = q.pop();
        i = i - 1;
        assert(q@ =~= q0.subrange(0, i as int));
        if let Some(e) = popped {
            assert(e == q0[i as int]);
            let (key, value) = e;
            v.push(Setting { key, value: read_value(value) });
        }
    }
    let r = reversed_settings(v);
    assert(setting_views(r@) =~= key_settings(m));
    r
}

/// Takes the first entry named `keys` out of a table.
fn take_keys(q: Vec<(String, toml::Value)>) -> (r: Option<toml::Value>)
    ensures
        match r {
            Some(v) => entry_from(entry_trees(q@), "keys"@, 0) == Some(toml_tree(v)),
            None => entry_from(entry_trees(q@), "keys"@, 0) is None,
        },
{
    let ghost m = entry_trees(q@);
    let ghost q0 = q@;
    let mut q = q;
    let mut r: Option<toml::Value> = None;
    assert(q0.subrange(0, q0.len() as int) =~= q0);
    let mut i: usize = q.len();
    while i > 0
        invariant
            i == q.len(),
            i <= q0.len(),
            m == entry_trees(q0),
            q@ == q0.subrange(0, i as int),
            match r {
                Some(v) => entry_from(m, "keys"@, i as int) == Some(toml_tree(v)),
                None => entry_from(m, "keys"@, i as int) is None,
            },
        decreases i,
    {
        let popped = q.pop();
        i = i - 1;
        assert(q@ =~= q0.subrange(0, i as int));
        if let Some(e) = popped {
            assert(e == q0[i as int]);
            let (key, value) = e;
            if same_text(key.as_str(), "keys") {
                r = Some(value);
            }
        }
    }
    r
}

/// Reads the settings in a source text.
pub fn read_settings(source: &str) -> (r: Result<Settings, String>)
    ensures
        match r {
            Ok(s) => toml_parsed(source@) is Ok && s@ == settings_in(toml_parsed(source@)->Ok_0),
            Err(e) => toml_parsed(source@) is Err && toml_parsed(source@)->Err_0 == e@,
        },
{
    let value = match parse_toml(source) {
        Ok(v) => v,
        Err(e) => {
            return Err(e);
        },
    };
    let root = match open_toml(value) {
        TomlOpened::Table(q) => q,
        _ => {
            return Ok(Settings::NotATable);
        },
    };
    match take_keys(root) {
        None => Ok(Settings::NoKeys),
        Some(v) => match open_toml(v) {
            TomlOpened::Table(q) => Ok(Settings::Keys(read_keys(q))),
            _ => Ok(Settings::KeysNotATable),
        },
    }
}

// ---------------------------------------------------------------------
// Bindings from settings
// ---------------------------------------------------------------------

/// The bindings, and what was wrong with single settings. Settings that
/// make no sense are skipped.
pub struct LoadedKeymap {
    pub keymap: Keymap,
    pub warnings: Vec<String>,
}

pub struct LoadedView {
    pub keymap: KeymapView,
    pub warnings: Seq<Seq<char>>,
}

impl View for LoadedKeymap {
    type V = LoadedView;

    open spec fn view(&self) -> LoadedView {
        LoadedView { keymap: self.keymap@, warnings: buffers::string_views(self.warnings@) }
    }
}

/// Why a configuration was not loaded at all.
#[derive(Debug)]
pub enum ConfigError {
    /// The file is there but could not be read.
    Io { path: String, message: String },
    /// The file is no TOML.
    Toml { path: String, message: String },
    /// The file does not hold a table where there must be one.
    SchemaMismatch { path: String, message: String },
}

impl ConfigError {
    pub open spec fn text(&self) -> Seq<char> {
        match self {
            ConfigError::Io { path, message } => "read "@ + path@ + ": "@ + message@,
            ConfigError::Toml { path, message } => "parse "@ + path@ + ": "@ + message@,
            ConfigError::SchemaMismatch { path, message } => path@ + ": "@ + message@,
        }
    }

    /// The error in words.
    pub fn message(&self) -> (s: String)
        ensures
            s@ == self.text(),
    {
        match self {
            ConfigError::Io { path, message } => {
                let mut s = "read ".to_owned();
                s.push_str(path.as_str());
                s.push_str(": ");
                s.push_str(message.as_str());
                s
            },
            ConfigError::Toml { path, message } => {
                let mut s = "parse ".to_owned();
                s.push_str(path.as_str());
                s.push_str(": ");
                s.push_str(message.as_str());
                s
            },
            ConfigError::SchemaMismatch { path, message } => {
                let mut s = path.clone();
                s.push_str(": ");
                s.push_str(message.as_str());
                s
            },
        }
    }
}

/// `[keys] `key`: what (skipped)`
pub open spec fn key_warning(key: Seq<char>, what: Seq<char>) -> Seq<char> {
    "[keys] `"@ + key + "`: "@ + what + " (skipped)"@
}

/// `[keys] `key` = `name`: what (skipped)`
pub open spec fn command_warning(key: Seq<char>, name: Seq<char>, what: Seq<char>) -> Seq<char> {
    "[keys] `"@ + key + "` = `"@ + name + "`: "@ + what + " (skipped)"@
}

/// `[keys."key"] `second`: what (skipped)`
pub open spec fn chord_key_warning(key: Seq<char>, second: Seq<char>, what: Seq<char>) -> Seq<char> {
    "[keys.\""@ + key + "\"] `"@ + second + "`: "@ + what + " (skipped)"@
}

/// `[keys."key"] `second` = `name`: what (skipped)`
pub open spec fn chord_command_warning(
    key: Seq<char>,
    second: Seq<char>,
    name: Seq<char>,
    what: Seq<char>,
) -> Seq<char> {
    "[keys.\""@ + key + "\"] `"@ + second + "` = `"@ + name + "`: "@ + what + " (skipped)"@
}

fn warn_key(key: &str, what: &str) -> (s: String)
    ensures
        s@ == key_warning(key@, what@),
{
    let mut s = "[keys] `".to_owned();
    s.push_str(key);
    s.push_str("`: ");
    s.push_str(what);
    s.push_str(" (skipped)");
    s
}

fn warn_command(key: &str, name: &str, what: &str) -> (s: String)
    ensures
        s@ == command_warning(key@, name@, what@),
{
    let mut s = "[keys] `".to_owned();
    s.push_str(key);
    s.push_str("` = `");
    s.push_str(name);
    s.push_str("`: ");
    s.push_str(what);
    s.push_str(" (skipped)");
    s
}

fn warn_chord_key(key: &str, second: &str, what: &str) -> (s: String)
    ensures
        s@ == chord_key_warning(key@, second@, what@),
{
    let mut s = "[keys.\"".to_owned();
    s.push_str(key);
    s.push_str("\"] `");
    s.push_str(second);
    s.push_str("`: ");
    s.push_str(what);
    s.push_str(" (skipped)");
    s
}

fn warn_chord_command(key: &str, second: &str, name: &str, what: &str) -> (s: String)
    ensures
        s@ == chord_command_warning(key@, second@, name@, what@),
{
    let mut s = "[keys.\"".to_owned();
    s.push_str(key);
    s.push_str("\"] `");
    s.push_str(second);
    s.push_str("` = `");
    s.push_str(name);
    s.push_str("`: ");
    s.push_str(what);
    s.push_str(" (skipped)");
    s
}

pub open spec fn warned(l: LoadedView, w: Seq<char>) -> LoadedView {
    LoadedView { warnings: l.warnings.push(w), ..l }
}

/// One second key taken over.
pub open spec fn chord_applied(
    l: LoadedView,
    key: Seq<char>,
    prefix: KeyEvent,
    c: ChordSettingView,
) -> LoadedView {
    match c.command {
        None => warned(l, chord_key_warning(key, c.key, "value must be a string"@)),
        Some(name) => match keys::parsed_key(c.key) {
            None => warned(l, chord_key_warning(key, c.key, keys::unknown_key(c.key))),
            Some(second) => match command::named_command(name) {
                None => warned(
                    l,
                    chord_command_warning(key, c.key, name, command::unknown_command(name)),
                ),
                Some(cmd) => LoadedView {
                    keymap: KeymapView {
                        chords: keymap::with_chord(l.keymap.chords, prefix, second, cmd),
                        ..l.keymap
                    },
                    ..l
                },
            },
        },
    }
}

/// The first `n` second keys taken over.
pub open spec fn chords_applied(
    l: LoadedView,
    key: Seq<char>,
    prefix: KeyEvent,
    q: Seq<ChordSettingView>,
    n: int,
) -> LoadedView
    decreases n,
{
    if n <= 0 || n > q.len() {
        l
    } else {
        chord_applied(chords_applied(l, key, prefix, q, n - 1), key, prefix, q[n - 1])
    }
}

/// One setting taken over.
pub open spec fn setting_applied(l: LoadedView, s: SettingView) -> LoadedView {
    match keys::parsed_key(s.key) {
        None => warned(l, key_warning(s.key, keys::unknown_key(s.key))),
        Some(k) => match s.value {
            SettingValueView::Command(name) => match command::named_command(name) {
                None => warned(l, command_warning(s.key, name, command::unknown_command(name))),
                Some(cmd) => LoadedView {
                    keymap: KeymapView { direct: l.keymap.direct.insert(k, cmd), ..l.keymap },
                    ..l
                },
            },
            SettingValueView::Chords(q) => chords_applied(l, s.key, k, q, q.len() as int),
            SettingValueView::Other => warned(
                l,
                key_warning(s.key, "value must be a string (direct) or a table (chord)"@),
            ),
        },
    }
}

/// The first `n` settings taken over.
pub open spec fn settings_applied(l: LoadedView, q: Seq<SettingView>, n: int) -> LoadedView
    decreases n,
{
    if n <= 0 || n > q.len() {
        l
    } else {
        setting_applied(settings_applied(l, q, n - 1), q[n - 1])
    }
}

/// What becomes of the bindings under a file, or what is wrong with the
/// file as a whole.
pub open spec fn file_applied(l: LoadedView, s: SettingsView) -> Result<LoadedView, Seq<char>> {
    match s {
        SettingsView::NotATable => Err("top level must be a TOML table"@),
        SettingsView::NoKeys => Ok(l),
        SettingsView::KeysNotATable => Err("`keys` must be a table"@),
        SettingsView::Keys(q) => Ok(settings_applied(l, q, q.len() as int)),
    }
}

impl LoadedKeymap {
    /// The bindings that hold without a configuration.
    pub fn new() -> (l: LoadedKeymap)
        ensures
            l@.keymap.direct == keymap::default_direct(),
            l@.keymap.browser == keymap::default_browser(),
            l@.keymap.file_search == keymap::default_file_search(),
            l@.keymap.chords == Map::<KeyEvent, Map<KeyEvent, Command>>::empty().insert(
                keymap::ctrl_key(keys::KeyCode::Char('x')),
                keymap::default_chord(),
            ),
            l@.keymap.find_file == Map::<KeyEvent, Command>::empty().insert(
                keymap::plain_key(keys::KeyCode::Tab),
                Command::FindFileTabComplete,
            ),
            l@.warnings == Seq::<Seq<char>>::empty(),
    {
        let l = LoadedKeymap { keymap: keymap::default_keymap(), warnings: Vec::new() };
        assert(l@.warnings =~= Seq::<Seq<char>>::empty());
        l
    }

    fn warn(&mut self, w: String)
        ensures
            final(self)@ == warned(old(self)@, w@),
    {
        self.warnings.push(w);
        assert(self@.warnings =~= old(self)@.warnings.push(w@));
    }

    fn apply_chord(&mut self, key: &str, prefix: KeyEvent, c: &ChordSetting)
        ensures
            final(self)@ == chord_applied(old(self)@, key@, prefix, c@),
    {
        let name = match &c.command {
            Some(name) => name,
            None => {
                self.warn(warn_chord_key(key, c.key.as_str(), "value must be a string"));
                return;
            },
        };
        let second = match parse_key(c.key.as_str()) {
            Ok(k) => k,
            Err(e) => {
                self.warn(warn_chord_key(key, c.key.as_str(), e.as_str()));
                return;
            },
        };
        match parse_command(name.as_str()) {
            Ok(cmd) => self.keymap.insert_chord(prefix, second, cmd),
            Err(e) => self.warn(
                warn_chord_command(key, c.key.as_str(), name.as_str(), e.as_str()),
            ),
        }
    }

    fn apply_chords(&mut self, key: &str, prefix: KeyEvent, q: &Vec<ChordSetting>)
        ensures
            final(self)@ == chords_applied(
                old(self)@,
                key@,
                prefix,
                chord_setting_views(q@),
                q.len() as int,
            ),
    {
        let ghost l0 = self@;
        let ghost m = chord_setting_views(q@);
        let mut i: usize = 0;
        while i < q.len()
            invariant
                i <= q.len(),
                m == chord_setting_views(q@),
                self@ == chords_applied(l0, key@, prefix, m, i as int),
            decreases q.len() - i,
        {
            assert(m[i as int] == q[i as int]@);
            self.apply_chord(key, prefix, &q[i]);
            i = i + 1;
        }
    }

    fn apply_setting(&mut self, s: &Setting)
        ensures
            final(self)@ == setting_applied(old(self)@, s@),
    {
        let k = match parse_key(s.key.as_str()) {
            Ok(k) => k,
            Err(e) => {
                self.warn(warn_key(s.key.as_str(), e.as_str()));
                return;
            },
        };
        match &s.value {
            SettingValue::Command(name) => match parse_command(name.as_str()) {
                Ok(cmd) => self.keymap.insert_direct(k, cmd),
                Err(e) => self.warn(warn_command(s.key.as_str(), name.as_str(), e.as_str())),
            },
            SettingValue::Chords(q) => self.apply_chords(s.key.as_str(), k, q),
            SettingValue::Other => self.warn(
                warn_key(s.key.as_str(), "value must be a string (direct) or a table (chord)"),
            ),
        }
    }
}

/// Takes the settings of a file over into the bindings.
pub fn apply_settings(loaded: &mut LoadedKeymap, path: &str, settings: &Settings) -> (r: Result<
    (),
    ConfigError,
>)
    ensures
        match file_applied(old(loaded)@, settings@) {
            Ok(l) => r is Ok && final(loaded)@ == l,
            Err(m) => {
                &&& final(loaded)@ == old(loaded)@
                &&& r matches Err(ConfigError::SchemaMismatch { path: p, message })
                &&& p@ == path@
                &&& message@ == m
            },
        },
{
    let q = match settings {
        Settings::NotATable => {
            return Err(
                ConfigError::SchemaMismatch {
                    path: path.to_owned(),
                    message: "top level must be a TOML table".to_owned(),
                },
            );
        },
        Settings::NoKeys => {
            return Ok(());
        },
        Settings::KeysNotATable => {
            return Err(
                ConfigError::SchemaMismatch {
                    path: path.to_owned(),
                    message: "`keys` must be a table".to_owned(),
                },
            );
        },
        Settings::Keys(q) => q,
    };
    let ghost l0 = loaded@;
    let ghost m = setting_views(q@);
    let mut i: usize = 0;
    while i < q.len()
        invariant
            i <= q.len(),
            m == setting_views(q@),
            loaded@ == settings_applied(l0, m, i as int),
        decreases q.len() - i,
    {
        assert(m[i as int] == q[i as int]@);
        loaded.apply_setting(&q[i]);
        i = i + 1;
    }
    Ok(())
}

/// Takes the settings in a source text over into the bindings.
pub fn apply_toml(loaded: &mut LoadedKeymap, path: &str, source: &str) -> (r: Result<
    (),
    ConfigError,
>)
    ensures
        match toml_parsed(source@) {
            Err(m) => {
                &&& final(loaded)@ == old(loaded)@
                &&& r matches Err(ConfigError::Toml { path: p, message })
                &&& p@ == path@
                &&& message@ == m
            },
            Ok(t) => match file_applied(old(loaded)@, settings_in(t)) {
                Ok(l) => r is Ok && final(loaded)@ == l,
                Err(m) => {
                    &&& final(loaded)@ == old(loaded)@
                    &&& r matches Err(ConfigError::SchemaMismatch { path: p, message })
                    &&& p@ == path@
                    &&& message@ == m
                },
            },
        },
{
    match read_settings(source) {
        Err(message) => Err(ConfigError::Toml { path: path.to_owned(), message }),
        Ok(s) => apply_settings(loaded, path, &s),
    }
}

/// A key that no setting names keeps its command.
pub proof fn unnamed_keys_keep_their_commands(l: LoadedView, q: Seq<SettingView>, n: int, k: KeyEvent)
    requires
        0 <= n <= q.len(),
        forall|i: int| 0 <= i < n ==> keys::parsed_key((#[trigger] q[i]).key) != Some(k),
    ensures
        keymap::at_key(settings_applied(l, q, n).keymap.direct, k) == keymap::at_key(
            l.keymap.direct,
            k,
        ),
    decreases n,
{
    if n > 0 {
        unnamed_keys_keep_their_commands(l, q, n - 1, k);
        let s = q[n - 1];
        let before = settings_applied(l, q, n - 1);
        if let Some(p) = keys::parsed_key(s.key) {
            if let SettingValueView::Chords(c) = s.value {
                lemma_chords_leave_direct(before, s.key, p, c, c.len() as int);
            }
        }
    }
}

proof fn lemma_chords_leave_direct(
    l: LoadedView,
    key: Seq<char>,
    prefix: KeyEvent,
    q: Seq<ChordSettingView>,
    n: int,
)
    ensures
        chords_applied(l, key, prefix, q, n).keymap.direct == l.keymap.direct,
    decreases n,
{
    if 0 < n <= q.len() {
        lemma_chords_leave_direct(l, key, prefix, q, n - 1);
    }
}

/// A good setting is taken over whatever the others are: the command of a
/// key is that of the last setting that names the key and a command.
pub proof fn good_settings_are_taken_over(
    l: LoadedView,
    q: Seq<SettingView>,
    n: int,
    i: int,
    k: KeyEvent,
    cmd: Command,
)
    requires
        0 <= i < n <= q.len(),
        keys::parsed_key(q[i].key) == Some(k),
        q[i].value matches SettingValueView::Command(name) && command::named_command(name) == Some(
            cmd,
        ),
        forall|j: int| i < j < n ==> keys::parsed_key((#[trigger] q[j]).key) != Some(k),
    ensures
        keymap::at_key(settings_applied(l, q, n).keymap.direct, k) == Some(cmd),
    decreases n,
{
    if n - 1 > i {
        good_settings_are_taken_over(l, q, n - 1, i, k, cmd);
        let s = q[n - 1];
        let before = settings_applied(l, q, n - 1);
        if let Some(p) = keys::parsed_key(s.key) {
            if let SettingValueView::Chords(c) = s.value {
                lemma_chords_leave_direct(before, s.key, p, c, c.len() as int);
            }
        }
    }
}

/// The command of a chord.
pub open spec fn chord_in(m: KeymapView, prefix: KeyEvent, second: KeyEvent) -> Option<Command> {
    if m.chords.dom().contains(prefix) && m.chords[prefix].dom().contains(second) {
        Some(m.chords[prefix][second])
    } else {
        None
    }
}

proof fn lemma_chords(
    l: LoadedView,
    key: Seq<char>,
    prefix: KeyEvent,
    q: Seq<ChordSettingView>,
    n: int,
    p: KeyEvent,
    k: KeyEvent,
)
    requires
        0 <= n <= q.len(),
    ensures
        p != prefix || (forall|j: int|
            0 <= j < n ==> keys::parsed_key((#[trigger] q[j]).key) != Some(k)) ==> chord_in(
            chords_applied(l, key, prefix, q, n).keymap,
            p,
            k,
        ) == chord_in(l.keymap, p, k),
    decreases n,
{
    if n > 0 {
        lemma_chords(l, key, prefix, q, n - 1, p, k);
    }
}

proof fn lemma_good_chord(
    l: LoadedView,
    key: Seq<char>,
    prefix: KeyEvent,
    q: Seq<ChordSettingView>,
    n: int,
    i: int,
    k: KeyEvent,
    cmd: Command,
)
    requires
        0 <= i < n <= q.len(),
        keys::parsed_key(q[i].key) == Some(k),
        q[i].command matches Some(name) && command::named_command(name) == Some(cmd),
        forall|j: int| i < j < n ==> keys::parsed_key((#[trigger] q[j]).key) != Some(k),
    ensures
        chord_in(chords_applied(l, key, prefix, q, n).keymap, prefix, k) == Some(cmd),
    decreases n,
{
    if n - 1 > i {
        lemma_good_chord(l, key, prefix, q, n - 1, i, k, cmd);
    }
}

/// A good chord is taken over whatever else the file sets: a chord has the
/// command of the last setting that names both its keys and a command.
pub proof fn good_chords_are_taken_over(
    l: LoadedView,
    q: Seq<SettingView>,
    n: int,
    i: int,
    prefix: KeyEvent,
    c: Seq<ChordSettingView>,
    x: int,
    k: KeyEvent,
    cmd: Command,
)
    requires
        0 <= i < n <= q.len(),
        keys::parsed_key(q[i].key) == Some(prefix),
        q[i].value == SettingValueView::Chords(c),
        0 <= x < c.len(),
        keys::parsed_key(c[x].key) == Some(k),
        c[x].command matches Some(name) && command::named_command(name) == Some(cmd),
        forall|j: int| x < j < c.len() ==> keys::parsed_key((#[trigger] c[j]).key) != Some(k),
        forall|j: int| i < j < n ==> keys::parsed_key((#[trigger] q[j]).key) != Some(prefix),
    ensures
        chord_in(settings_applied(l, q, n).keymap, prefix, k) == Some(cmd),
    decreases n,
{
    let before = settings_applied(l, q, n - 1);
    let s = q[n - 1];
    if n - 1 > i {
        good_chords_are_taken_over(l, q, n - 1, i, prefix, c, x, k, cmd);
        if let Some(p) = keys::parsed_key(s.key) {
            if let SettingValueView::Chords(d) = s.value {
                lemma_chords(before, s.key, p, d, d.len() as int, prefix, k);
            }
        }
    } else {
        lemma_good_chord(before, s.key, prefix, c, c.len() as int, x, k, cmd);
    }
}

/// A setting that can be taken over.
pub open spec fn is_good(s: SettingView) -> bool {
    &&& keys::parsed_key(s.key) is Some
    &&& s.value matches SettingValueView::Command(name) && command::named_command(name) is Some
}

/// Each setting that cannot be taken over brings one warning and changes no
/// binding; one that can brings none.
pub proof fn bad_settings_are_warned_of(l: LoadedView, s: SettingView)
    ensures
        is_good(s) ==> setting_applied(l, s).warnings == l.warnings,
        !is_good(s) && !(s.value is Chords) ==> setting_applied(l, s).keymap == l.keymap
            && setting_applied(l, s).warnings.len() == l.warnings.len() + 1
            && setting_applied(l, s).warnings.drop_last() =~= l.warnings,
        keys::parsed_key(s.key) is None ==> setting_applied(l, s).keymap == l.keymap
            && setting_applied(l, s).warnings.len() == l.warnings.len() + 1,
{
}

proof fn lemma_good_file(l: LoadedView, q: Seq<SettingView>, n: int)
    requires
        0 <= n <= q.len(),
        forall|i: int| 0 <= i < n ==> is_good(#[trigger] q[i]),
    ensures
        settings_applied(l, q, n).warnings == l.warnings,
    decreases n,
{
    if n > 0 {
        lemma_good_file(l, q, n - 1);
        assert(is_good(q[n - 1]));
    }
}

/// A file without the table of keys changes nothing, one whose top level or
/// whose keys are no table is an error, and good keys bring no warning.
pub proof fn a_file_sets_its_keys(l: LoadedView, t: TomlTree, q: Seq<(Seq<char>, TomlTree)>, m: Seq<(Seq<char>, TomlTree)>, i: int)
    ensures
        !(t is Table) ==> file_applied(l, settings_in(t)) is Err,
        t == TomlTree::Table(q) && (forall|j: int| 0 <= j < q.len() ==> (#[trigger] q[j]).0
            != "keys"@) ==> file_applied(l, settings_in(t)) == Ok::<LoadedView, Seq<char>>(l),
        t == TomlTree::Table(q) && 0 <= i < q.len() && q[i].0 == "keys"@ && (forall|j: int|
            0 <= j < i ==> (#[trigger] q[j]).0 != "keys"@) ==> (q[i].1 == TomlTree::Table(m) ==> ({
            let r = file_applied(l, settings_in(t));
            let s = key_settings(m);
            &&& r == Ok::<LoadedView, Seq<char>>(settings_applied(l, s, s.len() as int))
            &&& s.len() == m.len()
            &&& forall|j: int|
                0 <= j < m.len() ==> (#[trigger] s[j]).key == m[j].0 && (m[j].1 matches
                    TomlTree::Text(x) ==> s[j].value == SettingValueView::Command(x))
            &&& (forall|j: int| 0 <= j < s.len() ==> is_good(#[trigger] s[j])) ==> r->Ok_0.warnings
                == l.warnings
        })) && (!(q[i].1 is Table) ==> file_applied(l, settings_in(t)) is Err),
{
    if t == TomlTree::Table(q) {
        if forall|j: int| 0 <= j < q.len() ==> (#[trigger] q[j]).0 != "keys"@ {
            lemma_entry(q, "keys"@, 0, q.len() as int);
        }
        if 0 <= i < q.len() && q[i].0 == "keys"@ && (forall|j: int|
            0 <= j < i ==> (#[trigger] q[j]).0 != "keys"@) {
            lemma_entry(q, "keys"@, 0, i);
            if q[i].1 == TomlTree::Table(m) {
                let s = key_settings(m);
                if forall|j: int| 0 <= j < s.len() ==> is_good(#[trigger] s[j]) {
                    lemma_good_file(l, s, s.len() as int);
                }
            }
        }
    }
}

proof fn lemma_entry(q: Seq<(Seq<char>, TomlTree)>, name: Seq<char>, a: int, i: int)
    requires
        0 <= a <= i <= q.len(),
        forall|j: int| a <= j < i ==> (#[trigger] q[j]).0 != name,
        i < q.len() ==> q[i].0 == name,
    ensures
        entry_from(q, name, a) == if i < q.len() {
            Some(q[i].1)
        } else {
            None
        },
    decreases i - a,
{
    if a < i {
        assert(q[a].0 != name);
        lemma_entry(q, name, a + 1, i);
    }
}

} // verus!
