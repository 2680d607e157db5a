//! Plugin settings, herdr's own `[ui]` labels, and where both live.

use vstd::prelude::*;
use vstd::string::*;

use crate::battery::Battery;
use crate::disk::Disk;
use crate::icons::{deciding, detected, named_tier, resolve, utf8_locale, IconSet, LocaleVars};
use crate::double::{as_u64, less_than, whole, Double};
use crate::number::{number_of, parse_number};
use crate::text::{
    as_opt_str, begins, chars_of, clone_opt, ends_with, find, finishes, glued, holds, index_of,
    is_letter, lemma_find, letter, lower, same, sorted, sorted_texts, split, split_on, starts_with,
    to_lower, to_opt_string, trim, trim_start, trimmed, trimmed_start,
};
use crate::views::{lemma_texts_push, opt_str, opt_text, strs, texts};

verus! {

broadcast use lemma_texts_push;

/// Status-surfacing strategy (`mode` in the plugin's `config.toml`).
#[derive(Debug, Clone, Copy, PartialEq, Eq, Structural)]
pub enum Mode {
    /// A "usage" pseudo-agent per space in the agents panel.
    AgentsPanel,
    /// Display-only metadata rendered inside the spaces card. The default.
    Sidebar,
}

impl Mode {
    /// herdr config table whose rows render this mode's `$usage` token.
    pub open spec fn table(self) -> Seq<char> {
        match self {
            Mode::Sidebar => "ui.sidebar.spaces"@,
            Mode::AgentsPanel => "ui.sidebar.agents"@,
        }
    }

    /// The rows herdr draws when that table is absent.
    pub open spec fn default_rows(self) -> Seq<Seq<char>> {
        match self {
            Mode::Sidebar => seq![
                "[\"state_icon\", \"workspace\"]"@,
                "[\"branch\", \"git_status\"]"@,
            ],
            Mode::AgentsPanel => seq![
                "[\"state_icon\", \"workspace\", \"tab\"]"@,
                "[\"agent\"]"@,
            ],
        }
    }

    /// The table and its default rows, together: a table header with the wrong
    /// defaults under it would silently drop rows off every card.
    pub fn sidebar_table(self) -> (r: (&'static str, &'static [&'static str]))
        ensures
            r.0@ == self.table(),
            strs(r.1@) == self.default_rows(),
    {
        match self {
            Mode::Sidebar => (
                "ui.sidebar.spaces",
                &["[\"state_icon\", \"workspace\"]", "[\"branch\", \"git_status\"]"],
            ),
            Mode::AgentsPanel => (
                "ui.sidebar.agents",
                &["[\"state_icon\", \"workspace\", \"tab\"]", "[\"agent\"]"],
            ),
        }
    }
}

/// How the narrow RAM cell renders its number (`ram_display`).
#[derive(Debug, Clone, Copy, PartialEq, Eq, Structural)]
pub enum RamDisplay {
    /// Percent of the machine's total, falling back to the compact absolute
    /// form when the total is unreadable.
    Percent,
    /// Always the compact absolute form (`513M` / `1.5G`), even when a percent
    /// could be computed.
    Absolute,
}

/// Plugin user config.
#[derive(Debug, Clone)]
pub struct Config {
    pub mode: Mode,
    pub interval_seconds: u64,
    pub window_title_totals: bool,
    /// Whether to show the battery cell at all.
    pub battery: bool,
    /// Glyph tier name as the user typed it.
    pub icons: String,
    pub ram_display: RamDisplay,
    /// Naming for the battery cell; empty means "name nothing".
    pub battery_label: Option<String>,
    /// Overrides for herdr's `[ui] cpu_label` / `ram_label`; empty means "name
    /// nothing".
    pub cpu_label: Option<String>,
    pub ram_label: Option<String>,
    /// Whether to show free disk space at all.
    pub disk: bool,
    /// Which drives get a cell, in the order they are drawn.
    pub disks: Vec<String>,
    /// Naming for the disk cells; empty means "name nothing".
    pub disk_label: Option<String>,
}

/// What a [`Config`] says, in plain characters.
pub struct ConfigView {
    pub mode: Mode,
    pub interval_seconds: u64,
    pub window_title_totals: bool,
    pub battery: bool,
    pub icons: Seq<char>,
    pub ram_display: RamDisplay,
    pub battery_label: Option<Seq<char>>,
    pub cpu_label: Option<Seq<char>>,
    pub ram_label: Option<Seq<char>>,
    pub disk: bool,
    pub disks: Seq<Seq<char>>,
    pub disk_label: Option<Seq<char>>,
}

impl View for Config {
    type V = ConfigView;

    open spec fn view(&self) -> ConfigView {
        ConfigView {
            mode: self.mode,
            interval_seconds: self.interval_seconds,
            window_title_totals: self.window_title_totals,
            battery: self.battery,
            icons: self.icons@,
            ram_display: self.ram_display,
            battery_label: opt_text(self.battery_label),
            cpu_label: opt_text(self.cpu_label),
            ram_label: opt_text(self.ram_label),
            disk: self.disk,
            disks: texts(self.disks@),
            disk_label: opt_text(self.disk_label),
        }
    }
}

/// The documented defaults: what a fresh install gets.
pub open spec fn default_config() -> ConfigView {
    ConfigView {
        mode: Mode::Sidebar,
        interval_seconds: 5,
        window_title_totals: true,
        battery: true,
        icons: "auto"@,
        ram_display: RamDisplay::Percent,
        battery_label: None,
        cpu_label: None,
        ram_label: None,
        disk: true,
        disks: seq!["/"@],
        disk_label: None,
    }
}

impl Default for Config {
    fn default() -> (r: Self)
        ensures
            r@ == default_config(),
    {
        let r = Config {
            mode: Mode::Sidebar,
            interval_seconds: 5,
            window_title_totals: true,
            battery: true,
            icons: "auto".to_owned(),
            ram_display: RamDisplay::Percent,
            battery_label: None,
            cpu_label: None,
            ram_label: None,
            disk: true,
            disks: default_disks(),
            disk_label: None,
        };
        r
    }
}

impl Config {
    /// The glyph tier this config selects, the host's own when it names none.
    ///
    /// Resolve once per refresh and pass the result down.
    pub fn icon_set<F: FnOnce() -> bool>(&self, vars: &LocaleVars, has_nerd_font: F) -> (r:
        IconSet)
        requires
            named_tier(Some(self@.icons)) is None && utf8_locale(deciding(*vars))
                ==> has_nerd_font.requires(()),
        ensures
            named_tier(Some(self@.icons)) matches Some(tier) ==> r == tier,
            named_tier(Some(self@.icons)) is None && utf8_locale(deciding(*vars))
                ==> exists|found: bool|
                has_nerd_font.ensures((), found) && r == #[trigger] detected(*vars, found),
            named_tier(Some(self@.icons)) is None && !utf8_locale(deciding(*vars)) ==> r
                == IconSet::Text,
    {
        resolve(Some(self.icons.as_str()), vars, has_nerd_font)
    }

    /// The machine-wide battery reading for one refresh cycle: what the host's
    /// probe answers, or `None` without asking it when the metric is off.
    pub fn battery_reading<F: FnOnce() -> Option<Battery>>(&self, probe: F) -> (r: Option<Battery>)
        requires
            self.battery ==> probe.requires(()),
        ensures
            self.battery ==> probe.ensures((), r),
            !self.battery ==> r is None,
    {
        if self.battery {
            probe()
        } else {
            None
        }
    }

    /// This refresh cycle's readings of the selected drives: what the host's
    /// probe answers for them, or none without asking it when the metric is off.
    pub fn disk_readings<F: FnOnce(&Vec<String>) -> Vec<Disk>>(&self, probe: F) -> (r: Vec<Disk>)
        requires
            self.disk ==> probe.requires((&self.disks,)),
        ensures
            self.disk ==> probe.ensures((&self.disks,), r),
            !self.disk ==> r@.len() == 0,
    {
        if self.disk {
            probe(&self.disks)
        } else {
            Vec::new()
        }
    }
}

/// The drive shown when the user has named none: the root filesystem.
pub fn default_disks() -> (r: Vec<String>)
    ensures
        texts(r@) == seq!["/"@],
{
    let mut r: Vec<String> = Vec::new();
    r.push("/".to_owned());
    assert(texts(r@) =~= seq!["/"@]);
    r
}

/// The same on a host that boots from a drive letter: the one named by the
/// environment, else `C:`.
pub fn system_disks(system_drive: Option<&str>) -> (r: Vec<String>)
    ensures
        texts(r@) == seq![
            match opt_str(system_drive) {
                Some(d) => if d.len() > 0 {
                    d
                } else {
                    "C:"@
                },
                None => "C:"@,
            },
        ],
{
    let mut r: Vec<String> = Vec::new();
    match non_empty_env(system_drive) {
        Some(d) => r.push(d),
        None => r.push("C:".to_owned()),
    }
    assert(texts(r@).len() == 1);
    r
}

// ---- one `key = value` line --------------------------------------------------------

pub open spec fn is_quote(c: char) -> bool {
    c == '"' || c == '\''
}

/// `s` without at most one leading and one trailing quote, matching or not.
pub open spec fn unquoted(s: Seq<char>) -> Seq<char> {
    let t = if s.len() > 0 && is_quote(s[0]) {
        s.drop_first()
    } else {
        s
    };
    if t.len() > 0 && is_quote(t.last()) {
        t.drop_last()
    } else {
        t
    }
}

/// The value of a right-hand side: what the quotes hold, or what stands before a
/// comment.
pub open spec fn value_text(rest: Seq<char>) -> Option<Seq<char>> {
    if rest.len() == 0 {
        None
    } else if is_quote(rest[0]) {
        let body = rest.drop_first();
        let end = find(body, rest[0]);
        Some(if end < body.len() {
            body.take(end)
        } else {
            unquoted(body)
        })
    } else {
        let bare = unquoted(trim(rest.take(find(rest, '#'))));
        if bare.len() > 0 {
            Some(bare)
        } else {
            None
        }
    }
}

pub open spec fn is_key_char(c: char) -> bool {
    is_letter(c) || c == '_'
}

/// The key and the value of a flat `key = value` line.
pub open spec fn key_value(line: Seq<char>) -> Option<(Seq<char>, Seq<char>)> {
    let eq = find(line, '=');
    let key = trim(line.take(eq));
    if eq < line.len() && key.len() > 0 && (forall|i: int|
        0 <= i < key.len() ==> is_key_char(#[trigger] key[i])) {
        match value_text(trim(line.skip(eq + 1))) {
            Some(value) => Some((key, value)),
            None => None,
        }
    } else {
        None
    }
}

/// Remove at most one leading and one trailing quote, independently.
pub fn strip_quotes(s: &str) -> (r: &str)
    ensures
        r@ == unquoted(s@),
{
    let cs = chars_of(s);
    let from: usize = if cs.len() > 0 && (cs[0] == '"' || cs[0] == '\'') {
        1
    } else {
        0
    };
    let to: usize = if cs.len() > from && (cs[cs.len() - 1] == '"' || cs[cs.len() - 1] == '\'') {
        cs.len() - 1
    } else {
        cs.len()
    };
    let r = s.substring_char(from, to);
    assert(r@ =~= unquoted(s@));
    r
}

/// The value of a `key = value` right-hand side.
///
/// An explicit `""` survives as an empty value: for a label that is a
/// meaningful setting.
pub fn value_of(rest: &str) -> (r: Option<&str>)
    ensures
        opt_str(r) == value_text(rest@),
{
    let cs = chars_of(rest);
    if cs.len() == 0 {
        return None;
    }
    let quote = cs[0];
    proof {
        lemma_find(rest@.drop_first(), quote);
        lemma_find(rest@, '#');
    }
    if quote == '"' || quote == '\'' {
        let body = rest.substring_char(1, cs.len());
        assert(body@ =~= rest@.drop_first());
        let end: usize = index_of(body, quote);
        if end < cs.len() - 1 {
            let value = body.substring_char(0, end);
            assert(value@ =~= body@.take(end as int));
            return Some(value);
        }
        return Some(strip_quotes(body));
    }
    let hash: usize = index_of(rest, '#');
    let live = rest.substring_char(0, hash);
    assert(live@ =~= rest@.take(hash as int));
    let bare = strip_quotes(trimmed(live));
    if bare.is_empty() {
        None
    } else {
        Some(bare)
    }
}

/// Split one flat `key = value` line into its key and value, unquoted and with
/// any inline comment removed.
pub fn parse_kv_line(line: &str) -> (r: Option<(&str, &str)>)
    ensures
        match r {
            Some((key, value)) => key_value(line@) == Some((key@, value@)),
            None => key_value(line@) is None,
        },
{
    let count: usize = chars_of(line).len();
    let eq: usize = index_of(line, '=');
    if eq == count {
        return None;
    }
    let before = line.substring_char(0, eq);
    let after = line.substring_char(eq + 1, count);
    assert(before@ =~= line@.take(eq as int));
    assert(after@ =~= line@.skip(eq + 1));
    let key = trimmed(before);
    let ks = chars_of(key);
    if ks.len() == 0 {
        return None;
    }
    let mut i: usize = 0;
    while i < ks.len()
        invariant
            i <= ks.len(),
            ks@ == key@,
            key@ == trim(line@.take(find(line@, '='))),
            forall|j: int| 0 <= j < i ==> is_key_char(#[trigger] ks@[j]),
        decreases ks.len() - i,
    {
        if !(letter(ks[i]) || ks[i] == '_') {
            assert(!is_key_char(key@[i as int]));
            return None;
        }
        i += 1;
    }
    match value_of(trimmed(after)) {
        Some(value) => Some((key, value)),
        None => None,
    }
}

// ---- the plugin's own file ------------------------------------------------------------

/// An owned copy of a non-empty string, and nothing for an empty one.
pub open spec fn unless_empty(value: Seq<char>) -> Option<Seq<char>> {
    if value.len() > 0 {
        Some(value)
    } else {
        None
    }
}

pub fn non_empty(value: &str) -> (r: Option<String>)
    ensures
        opt_text(r) == unless_empty(value@),
{
    if value.is_empty() {
        None
    } else {
        Some(value.to_owned())
    }
}

/// The drives among `parts`: trimmed, blanks dropped, repeats collapsed.
pub open spec fn drives(parts: Seq<Seq<char>>) -> Seq<Seq<char>>
    decreases parts.len(),
{
    if parts.len() == 0 {
        seq![]
    } else {
        let before = drives(parts.drop_last());
        let drive = trim(parts.last());
        if drive.len() == 0 || before.contains(drive) {
            before
        } else {
            before.push(drive)
        }
    }
}

/// Split a comma-separated list into drives, or `None` when it names none.
pub fn parse_disks(value: &str) -> (r: Option<Vec<String>>)
    ensures
        match r {
            Some(v) => texts(v@) == drives(split(value@, ',')) && v@.len() > 0,
            None => drives(split(value@, ',')).len() == 0,
        },
{
    let parts = split_on(value, ',');
    let mut found: Vec<String> = Vec::new();
    let mut i: usize = 0;
    assert(texts(found@) =~= drives(texts(parts@).take(0)));
    while i < parts.len()
        invariant
            i <= parts.len(),
            texts(found@) == drives(texts(parts@).take(i as int)),
        decreases parts.len() - i,
    {
        assert(texts(parts@).take(i + 1).drop_last() =~= texts(parts@).take(i as int));
        let drive = trimmed(parts[i].as_str());
        if !drive.is_empty() && !holds(&found, drive) {
            found.push(drive.to_owned());
        }
        i += 1;
    }
    assert(texts(parts@).take(i as int) =~= texts(parts@));
    if found.len() == 0 {
        None
    } else {
        Some(found)
    }
}

/// Upper bound on `interval_seconds`: three intervals are a status's lifetime,
/// and herdr refuses a lifetime above a day.
pub const MAX_INTERVAL_SECONDS: u64 = 28_800;

/// Whole seconds in the number `value` spells, when it is at least one: the
/// interval it sets, capped.
pub open spec fn interval_of(value: Seq<char>) -> Option<u64> {
    match number_of(value) {
        Some(n) => if n is NotANumber || less_than(n, whole(1)) {
            None
        } else if as_u64(n) < MAX_INTERVAL_SECONDS {
            Some(as_u64(n))
        } else {
            Some(MAX_INTERVAL_SECONDS)
        },
        None => None,
    }
}

fn interval_from(value: &str) -> (r: Option<u64>)
    ensures
        r == interval_of(value@),
{
    match parse_number(value) {
        Some(Double::NotANumber) => None,
        Some(n) => {
            let seconds: u64 = n.to_u64();
            if n.below(Double::from_whole(1)) {
                None
            } else if seconds < MAX_INTERVAL_SECONDS {
                Some(seconds)
            } else {
                Some(MAX_INTERVAL_SECONDS)
            }
        },
        None => None,
    }
}

/// What a recognised key changes; an unknown key, or a value a key does not
/// recognise, changes nothing.
pub open spec fn setting_applied(c: ConfigView, key: Seq<char>, value: Seq<char>) -> ConfigView {
    if key == "mode"@ {
        ConfigView {
            mode: if value == "sidebar"@ {
                Mode::Sidebar
            } else if value == "agents-panel"@ {
                Mode::AgentsPanel
            } else {
                c.mode
            },
            ..c
        }
    } else if key == "interval_seconds"@ {
        match interval_of(value) {
            Some(n) => ConfigView { interval_seconds: n, ..c },
            None => c,
        }
    } else if key == "window_title_totals"@ {
        ConfigView { window_title_totals: value != "false"@, ..c }
    } else if key == "ram_display"@ {
        let name = lower(trim(value));
        ConfigView {
            ram_display: if name == "gb"@ || name == "absolute"@ {
                RamDisplay::Absolute
            } else if name == "percent"@ {
                RamDisplay::Percent
            } else {
                c.ram_display
            },
            ..c
        }
    } else if key == "battery_label"@ {
        ConfigView { battery_label: Some(value), ..c }
    } else if key == "cpu_label"@ {
        ConfigView { cpu_label: Some(value), ..c }
    } else if key == "ram_label"@ {
        ConfigView { ram_label: Some(value), ..c }
    } else if key == "battery"@ {
        ConfigView { battery: value != "false"@, ..c }
    } else if key == "disk_label"@ {
        ConfigView { disk_label: Some(value), ..c }
    } else if key == "disk"@ {
        ConfigView { disk: value != "false"@, ..c }
    } else if key == "disks"@ {
        if drives(split(value, ',')).len() > 0 {
            ConfigView { disks: drives(split(value, ',')), ..c }
        } else {
            c
        }
    } else if key == "icons"@ {
        ConfigView { icons: value, ..c }
    } else {
        c
    }
}

/// What one line of the file changes.
pub open spec fn line_applied(c: ConfigView, line: Seq<char>) -> ConfigView {
    if starts_with(trim_start(line), "#"@) {
        c
    } else {
        match key_value(line) {
            Some((key, value)) => setting_applied(c, key, value),
            None => c,
        }
    }
}

/// What the lines of the file leave `base` at, read from the first to the last.
pub open spec fn lines_applied(base: ConfigView, lines: Seq<Seq<char>>) -> ConfigView
    decreases lines.len(),
{
    if lines.len() == 0 {
        base
    } else {
        line_applied(lines_applied(base, lines.drop_last()), lines.last())
    }
}

/// What a config text says.
pub open spec fn config_of(text: Seq<char>) -> ConfigView {
    lines_applied(default_config(), split(text, '\n'))
}

fn apply_setting(c: &mut Config, key: &str, value: &str)
    ensures
        final(c)@ == setting_applied(old(c)@, key@, value@),
{
    if same(key, "mode") {
        if same(value, "sidebar") {
            c.mode = Mode::Sidebar;
        } else if same(value, "agents-panel") {
            c.mode = Mode::AgentsPanel;
        }
    } else if same(key, "interval_seconds") {
        if let Some(n) = interval_from(value) {
            c.interval_seconds = n;
        }
    } else if same(key, "window_title_totals") {
        c.window_title_totals = !same(value, "false");
    } else if same(key, "ram_display") {
        let name = to_lower(trimmed(value));
        if same(name.as_str(), "gb") || same(name.as_str(), "absolute") {
            c.ram_display = RamDisplay::Absolute;
        } else if same(name.as_str(), "percent") {
            c.ram_display = RamDisplay::Percent;
        }
    } else if same(key, "battery_label") {
        c.battery_label = Some(value.to_owned());
    } else if same(key, "cpu_label") {
        c.cpu_label = Some(value.to_owned());
    } else if same(key, "ram_label") {
        c.ram_label = Some(value.to_owned());
    } else if same(key, "battery") {
        c.battery = !same(value, "false");
    } else if same(key, "disk_label") {
        c.disk_label = Some(value.to_owned());
    } else if same(key, "disk") {
        c.disk = !same(value, "false");
    } else if same(key, "disks") {
        if let Some(found) = parse_disks(value) {
            c.disks = found;
        }
    } else if same(key, "icons") {
        c.icons = value.to_owned();
    }
}

/// Read the plugin's flat `config.toml` text on top of `base`.
pub fn parse_config_from(base: Config, text: &str) -> (r: Config)
    ensures
        r@ == lines_applied(base@, split(text@, '\n')),
{
    let ghost start = base@;
    let mut c = base;
    let lines = split_on(text, '\n');
    let mut i: usize = 0;
    assert(texts(lines@).take(0) =~= seq![]);
    while i < lines.len()
        invariant
            i <= lines.len(),
            c@ == lines_applied(start, texts(lines@).take(i as int)),
        decreases lines.len() - i,
    {
        assert(texts(lines@).take(i + 1).drop_last() =~= texts(lines@).take(i as int));
        let line = lines[i].as_str();
        if !begins(trimmed_start(line), "#") {
            if let Some((key, value)) = parse_kv_line(line) {
                apply_setting(&mut c, key, value);
            }
        }
        i += 1;
    }
    assert(texts(lines@).take(i as int) =~= texts(lines@));
    c
}

/// Read the plugin's flat `config.toml` text, starting from the documented
/// defaults. Unknown keys are ignored.
pub fn parse_config(text: &str) -> (r: Config)
    ensures
        r@ == config_of(text@),
{
    parse_config_from(Config::default(), text)
}

/// Load the plugin's config from its text, or `base` as it is when it has none.
pub fn load_config_from(base: Config, file: Option<&str>) -> (r: Config)
    ensures
        r@ == match opt_str(file) {
            Some(text) => lines_applied(base@, split(text, '\n')),
            None => base@,
        },
{
    match file {
        Some(text) => parse_config_from(base, text),
        None => base,
    }
}

/// The plugin's config, or the defaults when its file could not be read.
pub fn load_config(file: Option<&str>) -> (r: Config)
    ensures
        r@ == match opt_str(file) {
            Some(text) => config_of(text),
            None => default_config(),
        },
{
    match file {
        Some(text) => parse_config(text),
        None => Config::default(),
    }
}

/// [`parse_config`], under the name other modules' tests use.
pub fn parse_config_for_test(text: &str) -> (r: Config)
    ensures
        r@ == config_of(text@),
{
    parse_config(text)
}

// ---- herdr's own labels ------------------------------------------------------------------

/// Default naming for each metric when nothing names it.
pub const DEFAULT_CPU_LABEL: &'static str = "cpu";

pub const DEFAULT_RAM_LABEL: &'static str = "ram";

pub const DEFAULT_BATTERY_LABEL: &'static str = "bat";

pub const DEFAULT_DISK_LABEL: &'static str = "disk";

/// Label tokens, each `None` until something actually names it: an explicit
/// label replaces an icon tier's glyph, so a chosen word must stay apart from a
/// default.
#[derive(Debug, Clone)]
pub struct Labels {
    cpu: Option<String>,
    ram: Option<String>,
    battery: Option<String>,
    disk: Option<String>,
}

/// What a [`Labels`] names, in plain characters.
pub struct LabelsView {
    pub cpu: Option<Seq<char>>,
    pub ram: Option<Seq<char>>,
    pub battery: Option<Seq<char>>,
    pub disk: Option<Seq<char>>,
}

impl View for Labels {
    type V = LabelsView;

    closed spec fn view(&self) -> LabelsView {
        LabelsView {
            cpu: opt_text(self.cpu),
            ram: opt_text(self.ram),
            battery: opt_text(self.battery),
            disk: opt_text(self.disk),
        }
    }
}

/// No metric named.
pub open spec fn no_labels() -> LabelsView {
    LabelsView { cpu: None, ram: None, battery: None, disk: None }
}

/// `over` where it names something, else `under`.
pub open spec fn named_over(over: Option<Seq<char>>, under: Option<Seq<char>>) -> Option<
    Seq<char>,
> {
    if over is Some {
        over
    } else {
        under
    }
}

/// `under` with the plugin's own labels on top, key by key.
pub open spec fn overridden(under: LabelsView, config: ConfigView) -> LabelsView {
    LabelsView {
        cpu: named_over(config.cpu_label, under.cpu),
        ram: named_over(config.ram_label, under.ram),
        battery: named_over(config.battery_label, under.battery),
        disk: named_over(config.disk_label, under.disk),
    }
}

/// A label as a word: one that names nothing falls back to `default`.
pub open spec fn word_for(label: Option<Seq<char>>, default: Seq<char>) -> Seq<char> {
    match label {
        Some(word) => if word.len() > 0 {
            word
        } else {
            default
        },
        None => default,
    }
}

impl Default for Labels {
    fn default() -> (r: Self)
        ensures
            r@ == no_labels(),
    {
        Labels { cpu: None, ram: None, battery: None, disk: None }
    }
}

impl Labels {
    /// Build a set of labels directly.
    pub fn new(
        cpu: Option<&str>,
        ram: Option<&str>,
        battery: Option<&str>,
        disk: Option<&str>,
    ) -> (r: Self)
        ensures
            r@ == (LabelsView {
                cpu: opt_str(cpu),
                ram: opt_str(ram),
                battery: opt_str(battery),
                disk: opt_str(disk),
            }),
    {
        Labels {
            cpu: to_opt_string(cpu),
            ram: to_opt_string(ram),
            battery: to_opt_string(battery),
            disk: to_opt_string(disk),
        }
    }

    /// The label set for this metric, or `None` when none was.
    pub fn cpu(&self) -> (r: Option<&str>)
        ensures
            opt_str(r) == self@.cpu,
    {
        as_opt_str(&self.cpu)
    }

    pub fn ram(&self) -> (r: Option<&str>)
        ensures
            opt_str(r) == self@.ram,
    {
        as_opt_str(&self.ram)
    }

    pub fn battery(&self) -> (r: Option<&str>)
        ensures
            opt_str(r) == self@.battery,
    {
        as_opt_str(&self.battery)
    }

    pub fn disk(&self) -> (r: Option<&str>)
        ensures
            opt_str(r) == self@.disk,
    {
        as_opt_str(&self.disk)
    }

    /// Apply the plugin config's own label overrides on top.
    ///
    /// Each key wins independently, so overriding one label does not detach the
    /// others.
    pub fn with_overrides(self, config: &Config) -> (r: Self)
        ensures
            r@ == overridden(self@, config@),
    {
        let mut labels = self;
        if config.cpu_label.is_some() {
            labels.cpu = clone_opt(&config.cpu_label);
        }
        if config.ram_label.is_some() {
            labels.ram = clone_opt(&config.ram_label);
        }
        if config.battery_label.is_some() {
            labels.battery = clone_opt(&config.battery_label);
        }
        if config.disk_label.is_some() {
            labels.disk = clone_opt(&config.disk_label);
        }
        labels
    }

    /// The word to print on surfaces that always spell one out.
    pub fn cpu_word(&self) -> (r: &str)
        ensures
            r@ == word_for(self@.cpu, DEFAULT_CPU_LABEL@),
    {
        match self.cpu() {
            Some(word) => if word.is_empty() {
                DEFAULT_CPU_LABEL
            } else {
                word
            },
            None => DEFAULT_CPU_LABEL,
        }
    }

    pub fn ram_word(&self) -> (r: &str)
        ensures
            r@ == word_for(self@.ram, DEFAULT_RAM_LABEL@),
    {
        match self.ram() {
            Some(word) => if word.is_empty() {
                DEFAULT_RAM_LABEL
            } else {
                word
            },
            None => DEFAULT_RAM_LABEL,
        }
    }
}

/// Name inside a leading `[...]` table header, up to the first `]`.
pub open spec fn section_of(line: Seq<char>) -> Option<Seq<char>> {
    let rest = line.drop_first();
    let end = find(rest, ']');
    if line.len() > 0 && line[0] == '[' && 0 < end < rest.len() {
        Some(rest.take(end))
    } else {
        None
    }
}

pub fn section_name(line: &str) -> (r: Option<&str>)
    ensures
        opt_str(r) == section_of(line@),
{
    let cs = chars_of(line);
    if cs.len() == 0 || cs[0] != '[' {
        return None;
    }
    let rest = line.substring_char(1, cs.len());
    assert(rest@ =~= line@.drop_first());
    let end: usize = index_of(rest, ']');
    if end == 0 || end == cs.len() - 1 {
        return None;
    }
    let inner = rest.substring_char(0, end);
    assert(inner@ =~= rest@.take(end as int));
    Some(inner)
}

/// What reading herdr's config has come to: the labels, and whether the lines
/// that follow stand in the `[ui]` table.
pub struct Reading {
    pub labels: LabelsView,
    pub in_ui: bool,
}

/// What one label line inside `[ui]` changes; an empty label reads as unset.
pub open spec fn label_applied(labels: LabelsView, key: Seq<char>, value: Seq<char>) -> LabelsView {
    if key == "cpu_label"@ {
        LabelsView { cpu: unless_empty(value), ..labels }
    } else if key == "ram_label"@ {
        LabelsView { ram: unless_empty(value), ..labels }
    } else if key == "battery_label"@ {
        LabelsView { battery: unless_empty(value), ..labels }
    } else if key == "disk_label"@ {
        LabelsView { disk: unless_empty(value), ..labels }
    } else {
        labels
    }
}

/// What one line of herdr's config changes.
pub open spec fn herdr_line(before: Reading, raw: Seq<char>) -> Reading {
    let line = trim(raw);
    if line.len() == 0 || starts_with(line, "#"@) {
        before
    } else {
        match section_of(line) {
            Some(section) => Reading { in_ui: trim(section) == "ui"@, ..before },
            None => match key_value(line) {
                Some((key, value)) => if before.in_ui {
                    Reading { labels: label_applied(before.labels, key, value), ..before }
                } else {
                    before
                },
                None => before,
            },
        }
    }
}

/// What the lines of herdr's config come to, read from the first to the last.
pub open spec fn herdr_lines(lines: Seq<Seq<char>>) -> Reading
    decreases lines.len(),
{
    if lines.len() == 0 {
        Reading { labels: no_labels(), in_ui: false }
    } else {
        herdr_line(herdr_lines(lines.drop_last()), lines.last())
    }
}

/// The labels herdr's config text sets.
pub open spec fn herdr_labels(text: Seq<char>) -> LabelsView {
    herdr_lines(split(text, '\n')).labels
}

/// Parse herdr's own `config.toml` text for its labels, reading them only inside
/// the `[ui]` table.
pub fn parse_herdr_labels(text: &str) -> (r: Labels)
    ensures
        r@ == herdr_labels(text@),
{
    let mut labels = Labels::default();
    let mut in_ui = false;
    let lines = split_on(text, '\n');
    let mut i: usize = 0;
    assert(texts(lines@).take(0) =~= seq![]);
    while i < lines.len()
        invariant
            i <= lines.len(),
            herdr_lines(texts(lines@).take(i as int)) == (Reading { labels: labels@, in_ui }),
        decreases lines.len() - i,
    {
        assert(texts(lines@).take(i + 1).drop_last() =~= texts(lines@).take(i as int));
        let line = trimmed(lines[i].as_str());
        if !line.is_empty() && !begins(line, "#") {
            if let Some(section) = section_name(line) {
                in_ui = same(trimmed(section), "ui");
            } else if in_ui {
                if let Some((key, value)) = parse_kv_line(line) {
                    if same(key, "cpu_label") {
                        labels.cpu = non_empty(value);
                    } else if same(key, "ram_label") {
                        labels.ram = non_empty(value);
                    } else if same(key, "battery_label") {
                        labels.battery = non_empty(value);
                    } else if same(key, "disk_label") {
                        labels.disk = non_empty(value);
                    }
                }
            }
        }
        i += 1;
    }
    assert(texts(lines@).take(i as int) =~= texts(lines@));
    labels
}

/// herdr's labels, or none when its config could not be read.
pub fn load_herdr_labels(file: Option<&str>) -> (r: Labels)
    ensures
        r@ == match opt_str(file) {
            Some(text) => herdr_labels(text),
            None => no_labels(),
        },
{
    match file {
        Some(text) => parse_herdr_labels(text),
        None => Labels::default(),
    }
}

/// [`parse_herdr_labels`], under the name other modules' tests use.
pub fn parse_herdr_labels_for_test(text: &str) -> (r: Labels)
    ensures
        r@ == herdr_labels(text@),
{
    parse_herdr_labels(text)
}

// ---- what the user decided ----------------------------------------------------------------

/// What the user has decided about the updater.
#[derive(Debug, Clone, Copy, PartialEq, Eq, Structural)]
pub enum Wanted {
    /// Nothing written yet: a fresh install. Treated as wanted.
    Undecided,
    /// The updater was switched on.
    Enabled,
    /// The updater was switched off: the one state that keeps it down across
    /// restarts.
    Disabled,
}

impl Wanted {
    /// Whether the updater should be running.
    pub fn wants_daemon(self) -> (r: bool)
        ensures
            r == (self != Wanted::Disabled),
    {
        self != Wanted::Disabled
    }
}

/// What was found where the decision marker is kept.
#[derive(Debug, Clone, Copy, PartialEq, Eq)]
pub enum Marker<'a> {
    /// No file.
    Absent,
    /// A file whose text cannot be read.
    Unreadable,
    /// A file with this text.
    Text(&'a str),
}

/// What the text of a decision marker says: `0` is off, anything else is on.
pub open spec fn text_decision(text: Seq<char>) -> Wanted {
    if trim(text) == "0"@ {
        Wanted::Disabled
    } else {
        Wanted::Enabled
    }
}

/// What the decision marker says: only an absent one is undecided, and one that
/// cannot be read is on, as a garbled one is.
pub open spec fn decision(marker: Marker) -> Wanted {
    match marker {
        Marker::Absent => Wanted::Undecided,
        Marker::Unreadable => Wanted::Enabled,
        Marker::Text(text) => text_decision(text@),
    }
}

/// Read the decision marker.
///
/// An unreadable or garbled marker resolves to the state the user is more likely
/// to want, and one that heals at the next switch.
pub fn read_wanted(marker: Marker) -> (r: Wanted)
    ensures
        r == decision(marker),
{
    match marker {
        Marker::Absent => Wanted::Undecided,
        Marker::Unreadable => Wanted::Enabled,
        Marker::Text(text) => if same(trimmed(text), "0") {
            Wanted::Disabled
        } else {
            Wanted::Enabled
        },
    }
}

// ---- environment and paths -----------------------------------------------------------------

/// Default plugin id when herdr does not inject one.
pub const DEFAULT_PLUGIN_ID: &'static str = "ez-corp.space-usage";

/// Pid file of the one-per-machine scheme: swept, but never honoured as a claim.
pub const LEGACY_PID_FILE: &'static str = "updater.pid";

/// An environment value, unset and empty both absent.
pub open spec fn env_value(value: Option<Seq<char>>) -> Option<Seq<char>> {
    match value {
        Some(v) => unless_empty(v),
        None => None,
    }
}

pub fn non_empty_env(value: Option<&str>) -> (r: Option<String>)
    ensures
        opt_text(r) == env_value(opt_str(value)),
{
    match value {
        Some(v) => non_empty(v),
        None => None,
    }
}

/// `name` inside `dir`, joined with `/`, which every host takes for a separator;
/// a `name` that begins with one stands for itself.
pub open spec fn in_dir(dir: Seq<char>, name: Seq<char>) -> Seq<char> {
    if dir.len() == 0 || starts_with(name, "/"@) {
        name
    } else if ends_with(dir, "/"@) {
        dir + name
    } else {
        dir + "/"@ + name
    }
}

/// The path of `name` inside `dir`.
pub fn join_path(dir: &str, name: &str) -> (r: String)
    ensures
        r@ == in_dir(dir@, name@),
{
    if dir.is_empty() || begins(name, "/") {
        name.to_owned()
    } else if finishes(dir, "/") {
        glued(dir, name)
    } else {
        glued(glued(dir, "/").as_str(), name)
    }
}

pub open spec fn id_of(env: Option<Seq<char>>) -> Seq<char> {
    match env_value(env) {
        Some(id) => id,
        None => DEFAULT_PLUGIN_ID@,
    }
}

/// Plugin id: the injected one, else the default.
pub fn plugin_id(env: Option<&str>) -> (r: String)
    ensures
        r@ == id_of(opt_str(env)),
{
    match non_empty_env(env) {
        Some(id) => id,
        None => DEFAULT_PLUGIN_ID.to_owned(),
    }
}

/// Durable state dir: the injected one, else `<tmpdir>/<id>`.
pub fn state_dir(env: Option<&str>, temp_dir: &str, id: &str) -> (r: String)
    ensures
        r@ == match env_value(opt_str(env)) {
            Some(dir) => dir,
            None => in_dir(temp_dir@, id@),
        },
{
    match non_empty_env(env) {
        Some(dir) => dir,
        None => join_path(temp_dir, id),
    }
}

/// User config dir: the injected one, else `<tmpdir>/<id>-config`.
pub fn config_dir(env: Option<&str>, temp_dir: &str, id: &str) -> (r: String)
    ensures
        r@ == match env_value(opt_str(env)) {
            Some(dir) => dir,
            None => in_dir(temp_dir@, id@ + "-config"@),
        },
{
    match non_empty_env(env) {
        Some(dir) => dir,
        None => join_path(temp_dir, glued(id, "-config").as_str()),
    }
}

/// Config base: the roaming application directory where the host has one, else
/// the XDG one, else `~/.config`.
pub open spec fn config_base(
    app_data: Option<Seq<char>>,
    xdg: Option<Seq<char>>,
    home: Option<Seq<char>>,
) -> Seq<char> {
    match (env_value(app_data), env_value(xdg)) {
        (Some(dir), _) => dir,
        (None, Some(dir)) => dir,
        (None, None) => in_dir(
            match home {
                Some(dir) => dir,
                None => ""@,
            },
            ".config"@,
        ),
    }
}

pub fn config_home(app_data: Option<&str>, xdg: Option<&str>, home: Option<&str>) -> (r: String)
    ensures
        r@ == config_base(opt_str(app_data), opt_str(xdg), opt_str(home)),
{
    if let Some(dir) = non_empty_env(app_data) {
        return dir;
    }
    if let Some(dir) = non_empty_env(xdg) {
        return dir;
    }
    match home {
        Some(dir) => join_path(dir, ".config"),
        None => join_path("", ".config"),
    }
}

/// Path to herdr's own config under a config base.
pub fn herdr_config_path(config_home: &str) -> (r: String)
    ensures
        r@ == in_dir(in_dir(config_home@, "herdr"@), "config.toml"@),
{
    join_path(join_path(config_home, "herdr").as_str(), "config.toml")
}

/// The pid file name one session key claims.
pub open spec fn claim_name(session_key: Seq<char>) -> Seq<char> {
    "updater-"@ + session_key + ".pid"@
}

pub fn pid_file_name(session_key: &str) -> (r: String)
    ensures
        r@ == claim_name(session_key@),
{
    glued(glued("updater-", session_key).as_str(), ".pid")
}

/// Updater single-instance pid file for one herdr session.
///
/// Keyed by session because the state dir is not: every session shares it, while
/// each runs its own server.
pub fn pid_file(state_dir: &str, session_key: &str) -> (r: String)
    ensures
        r@ == in_dir(state_dir@, claim_name(session_key@)),
{
    join_path(state_dir, pid_file_name(session_key).as_str())
}

/// Whether a file name is that of an updater pid file, of this scheme or the
/// legacy one.
pub open spec fn names_pid_file(name: Seq<char>) -> bool {
    name == LEGACY_PID_FILE@ || (starts_with(name, "updater-"@) && ends_with(name, ".pid"@))
}

pub fn is_pid_file(name: &str) -> (r: bool)
    ensures
        r == names_pid_file(name@),
{
    same(name, LEGACY_PID_FILE) || (begins(name, "updater-") && finishes(name, ".pid"))
}

/// The names among `names` that are pid files, in the order given.
pub open spec fn pid_names(names: Seq<Seq<char>>) -> Seq<Seq<char>>
    decreases names.len(),
{
    if names.len() == 0 {
        seq![]
    } else if names_pid_file(names.last()) {
        pid_names(names.drop_last()).push(names.last())
    } else {
        pid_names(names.drop_last())
    }
}

/// Every session's pid file among the names in a directory, the legacy one
/// among them, sorted so callers behave the same run to run.
pub fn pid_files(names: &Vec<String>) -> (r: Vec<String>)
    ensures
        sorted(texts(r@)),
        texts(r@).to_multiset() == pid_names(texts(names@)).to_multiset(),
{
    let mut found: Vec<String> = Vec::new();
    let mut i: usize = 0;
    assert(texts(found@) =~= pid_names(texts(names@).take(0)));
    while i < names.len()
        invariant
            i <= names.len(),
            texts(found@) == pid_names(texts(names@).take(i as int)),
        decreases names.len() - i,
    {
        assert(texts(names@).take(i + 1).drop_last() =~= texts(names@).take(i as int));
        if is_pid_file(names[i].as_str()) {
            found.push(names[i].clone());
        }
        i += 1;
    }
    assert(texts(names@).take(i as int) =~= texts(names@));
    sorted_texts(&found)
}

/// Marker recording what the user has decided about the updater.
pub fn enabled_flag(state_dir: &str) -> (r: String)
    ensures
        r@ == in_dir(state_dir@, "enabled"@),
{
    join_path(state_dir, "enabled")
}

/// Marker recording that first-time setup has run.
pub fn bootstrapped_flag(state_dir: &str) -> (r: String)
    ensures
        r@ == in_dir(state_dir@, "bootstrapped"@),
{
    join_path(state_dir, "bootstrapped")
}

} // verus!
