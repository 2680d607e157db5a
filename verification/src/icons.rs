//! Icon tiers: the glyph vocabulary a metric is rendered with.
//!
//! The sidebar row is only a few characters wide, so every glyph has to earn its
//! column. Four tiers ladder up by how much they assume about the user's font:
//!
//! | tier | cpu | ram | battery | needs |
//! |---|---|---|---|---|
//! | [`IconSet::Text`] | `cpu 26%` | `ram 8%` | `bat 74%` | nothing |
//! | [`IconSet::Unicode`] | `cpu ░26%` | `ram ░8%` | `bat ▓74%` | nothing |
//! | [`IconSet::NerdFont`] | glyph and number | | | a Nerd Font |
//! | [`IconSet::Emoji`] | `💻26%` | `🧠8%` | `🔋74%` | a colour emoji font |
//!
//! Naming a metric and gauging it are separate jobs. A tier names a metric with
//! a word or a picture, unless a label does; only the Unicode tier gauges it.

use vstd::prelude::*;
use vstd::string::*;

use crate::battery::{Battery, State};
use crate::double::{less_than, whole, Double};
use crate::text::{
    chars_of, contains, glued, has_text, int_digits, int_text, lower, same, to_lower, trim, trimmed,
};
use crate::units::{nothing, percent, Percent};
use crate::views::{opt_str, opt_text};

verus! {

/// Which glyph vocabulary to render metrics with.
#[derive(Debug, Clone, Copy, PartialEq, Eq, Structural)]
pub enum IconSet {
    /// Plain words: always renders, never needs a font.
    Text,
    /// Block glyphs present in the default mono fonts of every platform.
    Unicode,
    /// Nerd Font private-use glyphs.
    NerdFont,
    /// Emoji pictograms.
    Emoji,
}

// ---- glyph tables -------------------------------------------------------------------

/// Level gauge for the Unicode tier, low step first: an exclusive upper bound in
/// percent, and the glyph below it. The closing row makes the
/// table total.
pub const GAUGE_RAMP: [(u64, char); 4] = [
    (34, '░'),
    (67, '▒'),
    (90, '▓'),
    (u64::MAX, '█'),
];

/// Nerd Font battery family, low step first.
pub const NERD_BATTERY_RAMP: [(u64, char); 5] = [
    (15, '\u{f244}'),
    (40, '\u{f243}'),
    (65, '\u{f242}'),
    (90, '\u{f241}'),
    (u64::MAX, '\u{f240}'),
];

/// `nf-oct-cpu`.
pub const NERD_CPU: char = '\u{f4bc}';

/// `nf-md-memory`.
pub const NERD_RAM: char = '\u{efc5}';

/// `nf-fa-hdd_o`.
pub const NERD_DISK: char = '\u{f0a0}';

/// Personal computer.
pub const EMOJI_CPU: char = '💻';

/// Brain.
pub const EMOJI_RAM: char = '🧠';

/// Battery.
pub const EMOJI_BATTERY: char = '🔋';

/// Floppy disk.
pub const EMOJI_DISK: char = '💾';

/// Charge is climbing.
pub const MARK_CHARGING: char = '+';

/// On power but not climbing.
pub const MARK_STEADY: char = '=';

// ---- charge state ---------------------------------------------------------------------

/// Charge-direction suffix for a battery reading: the same in every tier, so
/// that switching tier changes the pictures and not the meaning of the line.
pub open spec fn mark_of(state: State) -> Seq<char> {
    match state {
        State::Charging => seq![MARK_CHARGING],
        State::Full | State::NotCharging => seq![MARK_STEADY],
        State::Discharging | State::Unknown => seq![],
    }
}

pub fn charge_mark(state: State) -> (r: Option<char>)
    ensures
        mark_of(state) == match r {
            Some(c) => seq![c],
            None => seq![],
        },
{
    match state {
        State::Charging => Some(MARK_CHARGING),
        State::Full => Some(MARK_STEADY),
        State::NotCharging => Some(MARK_STEADY),
        State::Discharging => None,
        State::Unknown => None,
    }
}

// ---- ramps ------------------------------------------------------------------------------

/// Whether a reading is below so many percent; one that is no number is below
/// every bound.
pub open spec fn under(reading: Percent, n: int) -> bool {
    reading.value is NotANumber || less_than(reading.value, whole(n))
}

/// The first glyph whose bound is above the reading, or the last one.
pub open spec fn ramp_step(ramp: Seq<(u64, char)>, reading: Percent) -> char
    decreases ramp.len(),
{
    if ramp.len() == 0 {
        ' '
    } else if under(reading, ramp[0].0 as int) || ramp.len() == 1 {
        ramp[0].1
    } else {
        ramp_step(ramp.drop_first(), reading)
    }
}

/// The gauge glyph for a level.
pub open spec fn gauge_of(reading: Percent) -> char {
    if under(reading, 34) {
        '░'
    } else if under(reading, 67) {
        '▒'
    } else if under(reading, 90) {
        '▓'
    } else {
        '█'
    }
}

/// The Nerd Font battery glyph for a charge.
pub open spec fn nerd_battery(reading: Percent) -> char {
    if under(reading, 15) {
        '\u{f244}'
    } else if under(reading, 40) {
        '\u{f243}'
    } else if under(reading, 65) {
        '\u{f242}'
    } else if under(reading, 90) {
        '\u{f241}'
    } else {
        '\u{f240}'
    }
}

/// The first glyph in `ramp` whose exclusive upper bound is above the reading.
///
/// A reading at or above every bound takes the last step, so every reading
/// matches: below nothing and past a hundred too.
pub fn ramp_pick(ramp: &[(u64, char)], percent: Percent) -> (r: char)
    ensures
        r == ramp_step(ramp@, percent),
{
    if ramp.len() == 0 {
        return ' ';
    }
    let mut i: usize = 0;
    assert(ramp@.skip(0) =~= ramp@);
    while i + 1 < ramp.len()
        invariant
            i < ramp.len(),
            ramp_step(ramp@, percent) == ramp_step(ramp@.skip(i as int), percent),
        decreases ramp.len() - i,
    {
        if is_under(percent, ramp[i].0) {
            return ramp[i].1;
        }
        assert(ramp@.skip(i as int).drop_first() =~= ramp@.skip(i + 1));
        i += 1;
    }
    ramp[i].1
}

fn is_under(percent: Percent, n: u64) -> (r: bool)
    ensures
        r == under(percent, n as int),
{
    match percent.value {
        Double::NotANumber => true,
        _ => percent.value.below(Double::from_whole(n)),
    }
}

fn gauge(percent: Percent) -> (r: char)
    ensures
        r == gauge_of(percent),
{
    proof {
        let r0 = GAUGE_RAMP@;
        assert(r0.drop_first() =~= seq![r0[1], r0[2], r0[3]]);
        assert(r0.drop_first().drop_first() =~= seq![r0[2], r0[3]]);
        assert(r0.drop_first().drop_first().drop_first() =~= seq![r0[3]]);
        reveal_with_fuel(ramp_step, 5);
    }
    ramp_pick(&GAUGE_RAMP, percent)
}

fn battery_glyph(percent: Percent) -> (r: char)
    ensures
        r == nerd_battery(percent),
{
    proof {
        let r0 = NERD_BATTERY_RAMP@;
        assert(r0.drop_first() =~= seq![r0[1], r0[2], r0[3], r0[4]]);
        assert(r0.drop_first().drop_first() =~= seq![r0[2], r0[3], r0[4]]);
        assert(r0.drop_first().drop_first().drop_first() =~= seq![r0[3], r0[4]]);
        assert(r0.drop_first().drop_first().drop_first().drop_first() =~= seq![r0[4]]);
        reveal_with_fuel(ramp_step, 6);
    }
    ramp_pick(&NERD_BATTERY_RAMP, percent)
}

// ---- metrics ------------------------------------------------------------------------------

/// The metrics a tier can draw.
#[derive(Debug, Clone, Copy, PartialEq, Eq, Structural)]
pub enum Metric {
    Cpu,
    Ram,
    Battery,
    Disk,
}

impl Metric {
    /// The word for this metric when nothing names it.
    pub open spec fn word(self) -> Seq<char> {
        match self {
            Metric::Cpu => "cpu"@,
            Metric::Ram => "ram"@,
            Metric::Battery => "bat"@,
            Metric::Disk => "disk"@,
        }
    }

    /// The Nerd Font glyph; the battery's tracks the charge.
    pub open spec fn nerd(self, reading: Percent) -> char {
        match self {
            Metric::Cpu => NERD_CPU,
            Metric::Ram => NERD_RAM,
            Metric::Battery => nerd_battery(reading),
            Metric::Disk => NERD_DISK,
        }
    }

    /// The emoji.
    pub open spec fn picture(self) -> char {
        match self {
            Metric::Cpu => EMOJI_CPU,
            Metric::Ram => EMOJI_RAM,
            Metric::Battery => EMOJI_BATTERY,
            Metric::Disk => EMOJI_DISK,
        }
    }

    pub fn default_word(self) -> (r: &'static str)
        ensures
            r@ == self.word(),
    {
        match self {
            Metric::Cpu => "cpu",
            Metric::Ram => "ram",
            Metric::Battery => "bat",
            Metric::Disk => "disk",
        }
    }

    pub fn nerd_glyph(self, percent: Percent) -> (r: char)
        ensures
            r == self.nerd(percent),
    {
        match self {
            Metric::Cpu => NERD_CPU,
            Metric::Ram => NERD_RAM,
            Metric::Battery => battery_glyph(percent),
            Metric::Disk => NERD_DISK,
        }
    }

    pub fn emoji(self) -> (r: char)
        ensures
            r == self.picture(),
    {
        match self {
            Metric::Cpu => EMOJI_CPU,
            Metric::Ram => EMOJI_RAM,
            Metric::Battery => EMOJI_BATTERY,
            Metric::Disk => EMOJI_DISK,
        }
    }
}

// ---- rendering ------------------------------------------------------------------------------

/// A label and the space behind it; an empty one leaves nothing.
pub open spec fn spaced(label: Seq<char>) -> Seq<char> {
    if label.len() == 0 {
        label
    } else {
        label + " "@
    }
}

/// The reading itself: the gauge of the Unicode tier, and the whole percent.
pub open spec fn level(set: IconSet, percent: Percent) -> Seq<char> {
    (if set == IconSet::Unicode {
        seq![gauge_of(percent)]
    } else {
        seq![]
    }) + int_digits(percent.whole()) + "%"@
}

/// What the tier puts in front of a number to name its metric: a word, or its
/// picture.
pub open spec fn tier_name(set: IconSet, metric: Metric, percent: Percent) -> Seq<char> {
    match set {
        IconSet::Text | IconSet::Unicode => metric.word() + " "@,
        IconSet::NerdFont => seq![metric.nerd(percent)] + " "@,
        IconSet::Emoji => seq![metric.picture()],
    }
}

/// What names a cell: the label where there is one, in place of the tier's own
/// naming.
pub open spec fn naming(
    set: IconSet,
    metric: Metric,
    label: Option<Seq<char>>,
    percent: Percent,
) -> Seq<char> {
    match label {
        Some(label) => spaced(label),
        None => tier_name(set, metric, percent),
    }
}

/// A metric under a word that leads the tier's own picture: the word is left out
/// where the tier draws the metric and the word is only its default.
pub open spec fn led_cell(
    set: IconSet,
    metric: Metric,
    label: Seq<char>,
    percent: Percent,
    mark: Seq<char>,
) -> Seq<char> {
    let drawn = set == IconSet::NerdFont || set == IconSet::Emoji;
    let word = if drawn && label == metric.word() {
        seq![]
    } else {
        spaced(label)
    };
    let picture = if drawn {
        tier_name(set, metric, percent)
    } else {
        seq![]
    };
    word + picture + level(set, percent) + mark
}

/// A label and the space behind it; an empty one leaves no stray space.
fn with_space(label: &str) -> (r: String)
    ensures
        r@ == spaced(label@),
{
    if label.is_empty() {
        label.to_owned()
    } else {
        glued(label, " ")
    }
}

impl IconSet {
    /// Render CPU load under a word: `cpu ░26%` in the Unicode tier.
    ///
    /// A word other than the default leads the picture of a glyph tier.
    pub fn cpu(self, label: &str, percent: Percent) -> (r: String)
        ensures
            r@ == led_cell(self, Metric::Cpu, label@, percent, seq![]),
    {
        self.render(Metric::Cpu, label, percent, None)
    }

    /// Render RAM use under a word: `ram ░8%` in the Unicode tier.
    pub fn ram(self, label: &str, percent: Percent) -> (r: String)
        ensures
            r@ == led_cell(self, Metric::Ram, label@, percent, seq![]),
    {
        self.render(Metric::Ram, label, percent, None)
    }

    /// Render a battery reading under a word: `bat ▓74%+` for 74% and charging in
    /// the Unicode tier.
    pub fn battery(self, label: &str, reading: Battery) -> (r: String)
        ensures
            r@ == led_cell(self, Metric::Battery, label@, reading.percent, mark_of(reading.state)),
    {
        self.render(Metric::Battery, label, reading.percent, charge_mark(reading.state))
    }

    /// Word, picture, number, mark: the one assembly every tier and metric goes
    /// through.
    fn render(self, metric: Metric, label: &str, percent: Percent, mark: Option<char>) -> (r:
        String)
        ensures
            r@ == led_cell(
                self,
                metric,
                label@,
                percent,
                match mark {
                    Some(c) => seq![c],
                    None => seq![],
                },
            ),
    {
        let names_metric = self.spells_out_the_word() || !same(label, metric.default_word());
        let mut out = if names_metric {
            with_space(label)
        } else {
            String::new()
        };
        let ghost word = out@;
        if !self.spells_out_the_word() {
            let picture = self.own_name(metric, percent);
            out.append(picture.as_str());
        }
        let body = self.level(percent);
        out.append(body.as_str());
        if let Some(c) = mark {
            out.push(c);
        }
        assert(out@ =~= led_cell(
            self,
            metric,
            label@,
            percent,
            match mark {
                Some(c) => seq![c],
                None => seq![],
            },
        ));
        out
    }

    /// Whether this tier spells the metric out in words rather than drawing it.
    pub fn spells_out_the_word(self) -> (r: bool)
        ensures
            r == (self == IconSet::Text || self == IconSet::Unicode),
    {
        match self {
            IconSet::Text => true,
            IconSet::Unicode => true,
            IconSet::NerdFont => false,
            IconSet::Emoji => false,
        }
    }

    /// The tier's own naming of a metric.
    ///
    /// A Nerd Font glyph is drawn edge to edge in its cell, so it takes a space;
    /// an emoji already occupies two columns.
    fn own_name(self, metric: Metric, percent: Percent) -> (r: String)
        ensures
            r@ == tier_name(self, metric, percent),
    {
        match self {
            IconSet::Text => glued(metric.default_word(), " "),
            IconSet::Unicode => glued(metric.default_word(), " "),
            IconSet::NerdFont => {
                let mut r = String::new();
                r.push(metric.nerd_glyph(percent));
                r.append(" ");
                assert(r@ =~= tier_name(self, metric, percent));
                r
            },
            IconSet::Emoji => {
                let mut r = String::new();
                r.push(metric.emoji());
                assert(r@ =~= tier_name(self, metric, percent));
                r
            },
        }
    }

    /// The gauge, where the tier has one, and the whole percent.
    fn level(self, percent: Percent) -> (r: String)
        ensures
            r@ == level(self, percent),
    {
        let mut r = String::new();
        if self == IconSet::Unicode {
            r.push(gauge(percent));
        }
        let n = int_text(percent.rounded() as i128);
        r.append(n.as_str());
        r.append("%");
        assert(r@ =~= level(self, percent));
        r
    }

    /// What names a cell: the label, in place of the tier's own naming.
    fn name(self, metric: Metric, label: Option<&str>, percent: Percent) -> (r: String)
        ensures
            r@ == naming(self, metric, opt_str(label), percent),
    {
        match label {
            Some(label) => with_space(label),
            None => self.own_name(metric, percent),
        }
    }

    /// A CPU cell: a label replaces the tier's naming, and an empty one names
    /// nothing.
    pub fn cpu_cell(self, label: Option<&str>, percent: Percent) -> (r: String)
        ensures
            r@ == naming(self, Metric::Cpu, opt_str(label), percent) + level(self, percent),
    {
        glued(self.name(Metric::Cpu, label, percent).as_str(), self.level(percent).as_str())
    }

    /// A RAM cell as a share of the machine.
    pub fn ram_cell(self, label: Option<&str>, percent: Percent) -> (r: String)
        ensures
            r@ == naming(self, Metric::Ram, opt_str(label), percent) + level(self, percent),
    {
        glued(self.name(Metric::Ram, label, percent).as_str(), self.level(percent).as_str())
    }

    /// A RAM cell as a figure: the tier names the metric but draws no gauge, for
    /// there is no level to measure.
    pub fn ram_absolute(self, label: Option<&str>, figure: &str) -> (r: String)
        ensures
            r@ == naming(self, Metric::Ram, opt_str(label), nothing()) + figure@,
    {
        glued(self.name(Metric::Ram, label, Percent::none()).as_str(), figure)
    }

    /// A battery cell.
    pub fn battery_cell(self, label: Option<&str>, reading: Battery) -> (r: String)
        ensures
            r@ == naming(self, Metric::Battery, opt_str(label), reading.percent) + level(
                self,
                reading.percent,
            ) + mark_of(reading.state),
    {
        let mut r = self.name(Metric::Battery, label, reading.percent);
        let body = self.level(reading.percent);
        r.append(body.as_str());
        if let Some(c) = charge_mark(reading.state) {
            r.push(c);
        }
        assert(r@ =~= naming(self, Metric::Battery, opt_str(label), reading.percent) + level(
            self,
            reading.percent,
        ) + mark_of(reading.state));
        r
    }

    /// A disk cell: the share used, then the size still free, with the mount in
    /// front of them where it has to be told apart.
    pub fn disk(self, label: Option<&str>, mount: Option<&str>, used: Percent, free: &str) -> (r:
        String)
        ensures
            r@ == disk_text(self, opt_str(label), opt_str(mount), used, free@),
    {
        let mut r = self.name(Metric::Disk, label, used);
        if let Some(m) = mount {
            r.append(m);
            r.append(" ");
        }
        let body = self.level(used);
        r.append(body.as_str());
        r.append(" ");
        r.append(free);
        assert(r@ =~= disk_text(self, opt_str(label), opt_str(mount), used, free@));
        r
    }
}

/// The text of a disk cell.
pub open spec fn disk_text(
    set: IconSet,
    label: Option<Seq<char>>,
    mount: Option<Seq<char>>,
    used: Percent,
    free: Seq<char>,
) -> Seq<char> {
    naming(set, Metric::Disk, label, used) + (match mount {
        Some(m) => m + " "@,
        None => seq![],
    }) + level(set, used) + " "@ + free
}

// ---- tier resolution --------------------------------------------------------------------------

/// The locale variables, in precedence order.
#[derive(Debug, Clone)]
pub struct LocaleVars {
    pub lc_all: Option<String>,
    pub lc_ctype: Option<String>,
    pub lang: Option<String>,
}

/// `s` without `-` and `_`.
pub open spec fn without_separators(s: Seq<char>) -> Seq<char>
    decreases s.len(),
{
    if s.len() == 0 {
        s
    } else if s.last() == '-' || s.last() == '_' {
        without_separators(s.drop_last())
    } else {
        without_separators(s.drop_last()).push(s.last())
    }
}

/// A configured tier name in its canonical spelling.
pub open spec fn folded(name: Seq<char>) -> Seq<char> {
    without_separators(lower(trim(name)))
}

/// The tier a configured name selects, if it names one.
pub open spec fn named_tier(configured: Option<Seq<char>>) -> Option<IconSet> {
    match configured {
        Some(name) => if folded(name) == "text"@ {
            Some(IconSet::Text)
        } else if folded(name) == "unicode"@ {
            Some(IconSet::Unicode)
        } else if folded(name) == "nerdfont"@ {
            Some(IconSet::NerdFont)
        } else if folded(name) == "emoji"@ {
            Some(IconSet::Emoji)
        } else {
            None
        },
        None => None,
    }
}

/// The variable that decides the locale: the first that is set and not empty.
pub open spec fn deciding(vars: LocaleVars) -> Option<Seq<char>> {
    let set = |v: Option<String>| opt_text(v) matches Some(s) && s.len() > 0;
    if set(vars.lc_all) {
        opt_text(vars.lc_all)
    } else if set(vars.lc_ctype) {
        opt_text(vars.lc_ctype)
    } else if set(vars.lang) {
        opt_text(vars.lang)
    } else {
        None
    }
}

/// Whether a locale names a UTF-8 charset, however it is spelt.
pub open spec fn utf8_locale(locale: Option<Seq<char>>) -> bool {
    locale matches Some(name) && (has_text(lower(name), "utf-8"@) || has_text(
        lower(name),
        "utf8"@,
    ))
}

/// The tier a host gets without being told: pictures where it can carry them and
/// a Nerd Font is there, else words. Never the gauge.
pub open spec fn detected(vars: LocaleVars, nerd_font: bool) -> IconSet {
    if utf8_locale(deciding(vars)) && nerd_font {
        IconSet::NerdFont
    } else {
        IconSet::Text
    }
}

/// Fold a configured tier name to its canonical spelling.
fn normalise_tier_name(name: &str) -> (r: String)
    ensures
        r@ == folded(name@),
{
    let plain = to_lower(trimmed(name));
    let cs = chars_of(plain.as_str());
    let mut r = String::new();
    let mut i: usize = 0;
    assert(cs@.take(0) =~= r@);
    while i < cs.len()
        invariant
            i <= cs.len(),
            r@ == without_separators(cs@.take(i as int)),
        decreases cs.len() - i,
    {
        assert(cs@.take(i + 1).drop_last() =~= cs@.take(i as int));
        if cs[i] != '-' && cs[i] != '_' {
            r.push(cs[i]);
        }
        i += 1;
    }
    assert(cs@.take(i as int) =~= cs@);
    r
}

/// Whether `locale` names a UTF-8 charset.
pub fn is_utf8_locale(locale: Option<&str>) -> (r: bool)
    ensures
        r == utf8_locale(opt_str(locale)),
{
    match locale {
        Some(name) => {
            let plain = to_lower(name);
            contains(plain.as_str(), "utf-8") || contains(plain.as_str(), "utf8")
        },
        None => false,
    }
}

fn deciding_locale(vars: &LocaleVars) -> (r: Option<&str>)
    ensures
        opt_str(r) == deciding(*vars),
{
    if let Some(v) = &vars.lc_all {
        if !v.as_str().is_empty() {
            return Some(v.as_str());
        }
    }
    if let Some(v) = &vars.lc_ctype {
        if !v.as_str().is_empty() {
            return Some(v.as_str());
        }
    }
    if let Some(v) = &vars.lang {
        if !v.as_str().is_empty() {
            return Some(v.as_str());
        }
    }
    None
}

/// The best tier this machine looks able to draw.
///
/// The locale gates the font probe: a terminal that cannot carry UTF-8 cannot
/// carry a Nerd Font glyph either, so there the probe is never run.
pub fn auto_detect<F: FnOnce() -> bool>(vars: &LocaleVars, has_nerd_font: F) -> (r: IconSet)
    requires
        utf8_locale(deciding(*vars)) ==> has_nerd_font.requires(()),
    ensures
        utf8_locale(deciding(*vars)) ==> exists|found: bool|
            has_nerd_font.ensures((), found) && r == #[trigger] detected(*vars, found),
        !utf8_locale(deciding(*vars)) ==> r == IconSet::Text,
{
    if is_utf8_locale(deciding_locale(vars)) {
        let found = has_nerd_font();
        assert(detected(*vars, found) == if found {
            IconSet::NerdFont
        } else {
            IconSet::Text
        });
        if found {
            IconSet::NerdFont
        } else {
            IconSet::Text
        }
    } else {
        IconSet::Text
    }
}

/// Pick the tier named by the plugin config, detecting one when it names none.
///
/// Case, surrounding space and separators do not matter, and a name that is no
/// tier's is no error: a typo in a cosmetic setting must not blank the sidebar.
pub fn resolve<F: FnOnce() -> bool>(
    configured: Option<&str>,
    vars: &LocaleVars,
    has_nerd_font: F,
) -> (r: IconSet)
    requires
        named_tier(opt_str(configured)) is None && utf8_locale(deciding(*vars))
            ==> has_nerd_font.requires(()),
    ensures
        named_tier(opt_str(configured)) matches Some(tier) ==> r == tier,
        named_tier(opt_str(configured)) is None && utf8_locale(deciding(*vars))
            ==> exists|found: bool|
            has_nerd_font.ensures((), found) && r == #[trigger] detected(*vars, found),
        named_tier(opt_str(configured)) is None && !utf8_locale(deciding(*vars)) ==> r
            == IconSet::Text,
{
    if let Some(configured) = configured {
        let name = normalise_tier_name(configured);
        let name = name.as_str();
        if same(name, "text") {
            return IconSet::Text;
        }
        if same(name, "unicode") {
            return IconSet::Unicode;
        }
        if same(name, "nerdfont") {
            return IconSet::NerdFont;
        }
        if same(name, "emoji") {
            return IconSet::Emoji;
        }
    }
    auto_detect(vars, has_nerd_font)
}

// ---- the blocks to paste -----------------------------------------------------------------------

/// The charge the battery's picture is shown at when it stands for the metric, in
/// percent.
pub const SAMPLE_CHARGE: u64 = 74;

/// What a tier calls a metric, as a label.
pub open spec fn tier_label(set: IconSet, metric: Metric) -> Seq<char> {
    match set {
        IconSet::Text | IconSet::Unicode => metric.word(),
        IconSet::NerdFont => seq![metric.nerd(percent(SAMPLE_CHARGE as int))],
        IconSet::Emoji => seq![metric.picture()],
    }
}

/// A `key = "value"` line.
pub open spec fn setting_line(key: Seq<char>, value: Seq<char>) -> Seq<char> {
    key + " = \""@ + value + "\""@
}

fn label_of(set: IconSet, metric: Metric) -> (r: String)
    ensures
        r@ == tier_label(set, metric),
{
    match set {
        IconSet::Text => metric.default_word().to_owned(),
        IconSet::Unicode => metric.default_word().to_owned(),
        IconSet::NerdFont => {
            let mut r = String::new();
            r.push(metric.nerd_glyph(Percent::new(SAMPLE_CHARGE)));
            assert(r@ =~= tier_label(set, metric));
            r
        },
        IconSet::Emoji => {
            let mut r = String::new();
            r.push(metric.emoji());
            assert(r@ =~= tier_label(set, metric));
            r
        },
    }
}

fn line_of(key: &str, value: &str) -> (r: String)
    ensures
        r@ == setting_line(key@, value@),
{
    let mut r = glued(key, " = \"");
    r.append(value);
    r.append("\"");
    r
}

/// The lines that give herdr's own header the naming of a tier.
pub open spec fn herdr_block(set: IconSet) -> Seq<Seq<char>> {
    seq![
        "[ui]"@,
        setting_line("cpu_label"@, tier_label(set, Metric::Cpu)),
        setting_line("ram_label"@, tier_label(set, Metric::Ram)),
    ]
}

/// The lines that give the plugin's own cells the same naming.
pub open spec fn plugin_block(set: IconSet) -> Seq<Seq<char>> {
    seq![
        setting_line("battery_label"@, tier_label(set, Metric::Battery)),
        setting_line("disk_label"@, tier_label(set, Metric::Disk)),
        setting_line("icons"@, "text"@),
    ]
}

/// The block to put into herdr's config so that its header is named the way the
/// tier names these rows, line by line.
pub fn herdr_ui_snippet(set: IconSet) -> (r: Vec<String>)
    ensures
        crate::views::texts(r@) == herdr_block(set),
{
    let mut r: Vec<String> = Vec::new();
    r.push("[ui]".to_owned());
    r.push(line_of("cpu_label", label_of(set, Metric::Cpu).as_str()));
    r.push(line_of("ram_label", label_of(set, Metric::Ram).as_str()));
    assert(crate::views::texts(r@) =~= herdr_block(set));
    r
}

/// The block to put into the plugin's config: herdr draws neither a battery nor
/// a disk, so their naming belongs here, line by line.
pub fn plugin_config_snippet(set: IconSet) -> (r: Vec<String>)
    ensures
        crate::views::texts(r@) == plugin_block(set),
{
    let mut r: Vec<String> = Vec::new();
    r.push(line_of("battery_label", label_of(set, Metric::Battery).as_str()));
    r.push(line_of("disk_label", label_of(set, Metric::Disk).as_str()));
    r.push(line_of("icons", "text"));
    assert(crate::views::texts(r@) =~= plugin_block(set));
    r
}

} // verus!
