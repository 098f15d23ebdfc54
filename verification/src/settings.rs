//! Preferences of the widget: display mode, pin, window position and the
//! thresholds of the guardian, and how they are read and written.

use vstd::prelude::*;
use crate::arith::{law_whole_arithmetic, lemma_whole_exact, lemma_whole_unique, of_whole};
use crate::num::{lemma_held_within, lemma_named_patterns, num, num_of, Num, EIGHTY, EIGHTY_FIVE, HUNDRED, HUNDRED_TWENTY, NINETY, ONE, THIRTY};
use crate::text::{chars_of, same_text, string_of, views};

verus! {

// --- Display modes -----------------------------------------------------------

#[derive(Clone, Copy, Debug, PartialEq, Eq, Structural)]
pub enum Mode {
    Dev,
    Mini,
    Charts,
    Procs,
}

pub open spec fn mode_text(mode: Mode) -> Seq<char> {
    match mode {
        Mode::Dev => "dev"@,
        Mode::Mini => "mini"@,
        Mode::Charts => "charts"@,
        Mode::Procs => "procs"@,
    }
}

/// The mode with the given name.
pub open spec fn mode_of(name: Seq<char>) -> Option<Mode> {
    if name == "dev"@ {
        Some(Mode::Dev)
    } else if name == "mini"@ {
        Some(Mode::Mini)
    } else if name == "charts"@ {
        Some(Mode::Charts)
    } else if name == "procs"@ {
        Some(Mode::Procs)
    } else {
        None
    }
}

impl Mode {
    pub fn name(self) -> (r: &'static str)
        ensures
            r@ == mode_text(self),
    {
        match self {
            Mode::Dev => "dev",
            Mode::Mini => "mini",
            Mode::Charts => "charts",
            Mode::Procs => "procs",
        }
    }

    pub fn named(name: &str) -> (r: Option<Mode>)
        ensures
            r == mode_of(name@),
    {
        if same_text(name, "dev") {
            Some(Mode::Dev)
        } else if same_text(name, "mini") {
            Some(Mode::Mini)
        } else if same_text(name, "charts") {
            Some(Mode::Charts)
        } else if same_text(name, "procs") {
            Some(Mode::Procs)
        } else {
            None
        }
    }
}

/// A mode is found again by its name, and only the four names name one.
pub proof fn law_mode_names(mode: Mode, name: Seq<char>)
    ensures
        mode_of(mode_text(mode)) == Some(mode),
        mode_of(name) == Some(mode) <==> name == mode_text(mode),
{
    reveal_strlit("dev");
    reveal_strlit("mini");
    reveal_strlit("charts");
    reveal_strlit("procs");
    assert("dev"@[0] == 'd' && "mini"@[0] == 'm' && "charts"@[0] == 'c' && "procs"@[0] == 'p');
}

// --- Thresholds --------------------------------------------------------------

/// Thresholds of the guardian: percent for CPU, RAM and GPU, degrees Celsius for
/// the temperature.
#[derive(Clone, Copy, Debug, PartialEq, Eq, Structural)]
pub struct Thresholds {
    pub cpu: Num,
    pub ram: Num,
    pub gpu: Num,
    pub temp: Num,
}

/// A value held within `low..=high`. What is not a number has no place on the scale
/// and gives way to the default.
pub open spec fn threshold_held(v: Num, low: Num, high: Num, default: Num) -> Num {
    if v.nan() {
        default
    } else {
        v.held_within(low, high)
    }
}

pub open spec fn percent_held(v: Num, default: Num) -> Num {
    threshold_held(v, num_of(ONE), num_of(HUNDRED), default)
}

pub open spec fn celsius_held(v: Num, default: Num) -> Num {
    threshold_held(v, num_of(THIRTY), num_of(HUNDRED_TWENTY), default)
}

fn hold(v: Num, low: Num, high: Num, default: Num) -> (r: Num)
    requires
        low.at_most(high),
    ensures
        r == threshold_held(v, low, high, default),
{
    if v.is_nan() {
        default
    } else {
        v.clamp(low, high)
    }
}

impl Thresholds {
    pub open spec fn held(self) -> Thresholds {
        Thresholds {
            cpu: percent_held(self.cpu, default_thresholds().cpu),
            ram: percent_held(self.ram, default_thresholds().ram),
            gpu: percent_held(self.gpu, default_thresholds().gpu),
            temp: celsius_held(self.temp, default_thresholds().temp),
        }
    }

    /// Percentages within 1 to 100 and degrees within 30 to 120.
    pub open spec fn sensible(self) -> bool {
        &&& sensible_percent(self.cpu)
        &&& sensible_percent(self.ram)
        &&& sensible_percent(self.gpu)
        &&& num_of(THIRTY).at_most(self.temp) && self.temp.at_most(num_of(HUNDRED_TWENTY))
    }

    /// The thresholds with the named one put to `value`, before holding them.
    pub open spec fn with(self, kind: Seq<char>, value: Num) -> Option<Thresholds> {
        if kind == "cpu"@ {
            Some(Thresholds { cpu: value, ..self })
        } else if kind == "ram"@ {
            Some(Thresholds { ram: value, ..self })
        } else if kind == "gpu"@ {
            Some(Thresholds { gpu: value, ..self })
        } else if kind == "temp"@ {
            Some(Thresholds { temp: value, ..self })
        } else {
            None
        }
    }

    /// The named threshold.
    pub open spec fn named(self, kind: Seq<char>) -> Option<Num> {
        if kind == "cpu"@ {
            Some(self.cpu)
        } else if kind == "ram"@ {
            Some(self.ram)
        } else if kind == "gpu"@ {
            Some(self.gpu)
        } else if kind == "temp"@ {
            Some(self.temp)
        } else {
            None
        }
    }

    /// Holds every threshold in its range, so that no value silences the guardian
    /// or sets it off without sense. A threshold that is not a number becomes the
    /// default.
    pub fn clamped(self) -> (r: Thresholds)
        ensures
            r == self.held(),
    {
        Thresholds {
            cpu: hold(self.cpu, num(ONE), num(HUNDRED), num(EIGHTY_FIVE)),
            ram: hold(self.ram, num(ONE), num(HUNDRED), num(NINETY)),
            gpu: hold(self.gpu, num(ONE), num(HUNDRED), num(NINETY)),
            temp: hold(self.temp, num(THIRTY), num(HUNDRED_TWENTY), num(EIGHTY)),
        }
    }

    /// Puts the threshold of the given name (`cpu`, `ram`, `gpu` or `temp`) to a
    /// value, held in its range. An unknown name changes nothing.
    pub fn set(&mut self, kind: &str, value: Num) -> (r: bool)
        ensures
            r == (old(self).with(kind@, value) is Some),
            *final(self) == (match old(self).with(kind@, value) {
                Some(changed) => changed.held(),
                None => *old(self),
            }),
    {
        if same_text(kind, "cpu") {
            self.cpu = value;
        } else if same_text(kind, "ram") {
            self.ram = value;
        } else if same_text(kind, "gpu") {
            self.gpu = value;
        } else if same_text(kind, "temp") {
            self.temp = value;
        } else {
            return false;
        }
        *self = self.clamped();
        true
    }

    /// The threshold of the given name.
    pub fn get(&self, kind: &str) -> (r: Option<Num>)
        ensures
            r == self.named(kind@),
    {
        if same_text(kind, "cpu") {
            Some(self.cpu)
        } else if same_text(kind, "ram") {
            Some(self.ram)
        } else if same_text(kind, "gpu") {
            Some(self.gpu)
        } else if same_text(kind, "temp") {
            Some(self.temp)
        } else {
            None
        }
    }
}

pub open spec fn sensible_percent(v: Num) -> bool {
    num_of(ONE).at_most(v) && v.at_most(num_of(HUNDRED))
}

pub open spec fn default_thresholds() -> Thresholds {
    Thresholds {
        cpu: num_of(EIGHTY_FIVE),
        ram: num_of(NINETY),
        gpu: num_of(NINETY),
        temp: num_of(EIGHTY),
    }
}

impl Default for Thresholds {
    fn default() -> (r: Thresholds)
        ensures
            r == default_thresholds(),
    {
        Thresholds {
            cpu: num(EIGHTY_FIVE),
            ram: num(NINETY),
            gpu: num(NINETY),
            temp: num(EIGHTY),
        }
    }
}

/// Whatever they were, held thresholds are sensible; sensible ones stay as they are,
/// and the defaults are sensible.
pub proof fn law_held_thresholds(t: Thresholds)
    ensures
        t.held().sensible(),
        t.sensible() ==> t.held() == t,
        t.held().held() == t.held(),
        default_thresholds().sensible(),
{
    let (one, hundred) = (num_of(ONE), num_of(HUNDRED));
    lemma_held_within(t.cpu, one, hundred);
    lemma_held_within(t.ram, one, hundred);
    lemma_held_within(t.gpu, one, hundred);
    lemma_held_within(t.temp, num_of(THIRTY), num_of(HUNDRED_TWENTY));
}

/// Setting a value by name puts exactly the named threshold to it, held in its
/// range, and leaves the other thresholds of a sensible set as they were.
pub proof fn law_set_changes_one(t: Thresholds, kind: Seq<char>, other: Seq<char>, value: Num)
    requires
        t.sensible(),
        t.named(kind) is Some,
    ensures
        t.with(kind, value)->0.held().named(kind) == Some(
            if kind == "temp"@ {
                celsius_held(value, default_thresholds().temp)
            } else {
                percent_held(value, default_thresholds().named(kind)->0)
            },
        ),
        other != kind ==> t.with(kind, value)->0.held().named(other) == t.named(other),
        t.with(kind, value)->0.held().sensible(),
{
    law_held_thresholds(t);
    law_held_thresholds(t.with(kind, value)->0);
    reveal_strlit("cpu");
    reveal_strlit("ram");
    reveal_strlit("gpu");
    reveal_strlit("temp");
    assert("cpu"@[0] == 'c' && "ram"@[0] == 'r' && "gpu"@[0] == 'g' && "temp"@[0] == 't');
}

// --- Settings ----------------------------------------------------------------

/// Preferences that outlive the program.
#[derive(Debug)]
pub struct Settings {
    /// Name of the last display mode.
    pub mode: String,
    /// Whether the window stays above all others.
    pub pinned: bool,
    /// Position of the window in physical pixels; without one the window starts
    /// in the upper right corner.
    pub x: Option<i32>,
    pub y: Option<i32>,
    pub thresholds: Thresholds,
}

/// The contents of [`Settings`].
pub struct SettingsView {
    pub mode: Seq<char>,
    pub pinned: bool,
    pub x: Option<i32>,
    pub y: Option<i32>,
    pub thresholds: Thresholds,
}

impl View for Settings {
    type V = SettingsView;

    open spec fn view(&self) -> SettingsView {
        SettingsView {
            mode: self.mode@,
            pinned: self.pinned,
            x: self.x,
            y: self.y,
            thresholds: self.thresholds,
        }
    }
}

impl Clone for Settings {
    fn clone(&self) -> (r: Settings)
        ensures
            r@ == self@,
    {
        Settings {
            mode: self.mode.clone(),
            pinned: self.pinned,
            x: self.x,
            y: self.y,
            thresholds: self.thresholds,
        }
    }
}

pub open spec fn default_settings() -> SettingsView {
    SettingsView {
        mode: "dev"@,
        pinned: true,
        x: None,
        y: None,
        thresholds: default_thresholds(),
    }
}

impl Default for Settings {
    fn default() -> (r: Settings)
        ensures
            r@ == default_settings(),
    {
        Settings {
            mode: "dev".to_owned(),
            pinned: true,
            x: None,
            y: None,
            thresholds: Thresholds::default(),
        }
    }
}

impl SettingsView {
    pub open spec fn cleaned(self) -> SettingsView {
        SettingsView {
            mode: if mode_of(self.mode) is Some {
                self.mode
            } else {
                "dev"@
            },
            thresholds: self.thresholds.held(),
            ..self
        }
    }
}

/// Cleaned settings name a mode and have sensible thresholds; cleaning them again
/// changes nothing.
pub proof fn law_cleaned_settings(s: SettingsView)
    ensures
        mode_of(s.cleaned().mode) is Some,
        s.cleaned().thresholds.sensible(),
        s.cleaned().cleaned() == s.cleaned(),
        default_settings().cleaned() == default_settings(),
{
    law_held_thresholds(s.thresholds);
    law_held_thresholds(default_thresholds());
    law_mode_names(Mode::Dev, "dev"@);
}

/// Where the settings file lies.
#[derive(Clone, Copy, Debug, PartialEq, Eq, Structural)]
pub enum Location {
    /// The path that the environment prescribes, as it stands.
    Prescribed,
    /// In the widget's folder under the application data.
    AppData,
    /// In the widget's folder under the current directory.
    Current,
}

/// What a settings file turned out to hold.
pub enum Parsed {
    Settings(Settings),
    /// Only thresholds, as earlier versions wrote them.
    Thresholds(Thresholds),
    Neither,
}

/// The keys of settings in a file.
pub open spec fn settings_key(key: Seq<char>) -> bool {
    key == "mode"@ || key == "pinned"@ || key == "x"@ || key == "y"@ || key == "thresholds"@
}

/// The keys of thresholds in a file.
pub open spec fn threshold_key(key: Seq<char>) -> bool {
    key == "cpu"@ || key == "ram"@ || key == "gpu"@ || key == "temp"@
}

/// Whether a file with the given keys holds thresholds and nothing of settings.
pub open spec fn thresholds_alone(keys: Seq<Seq<char>>) -> bool {
    &&& exists|i: int| 0 <= i < keys.len() && threshold_key(#[trigger] keys[i])
    &&& forall|i: int| 0 <= i < keys.len() ==> !settings_key(#[trigger] keys[i])
}

/// What a file with the given keys holds, which can be read as settings, as
/// thresholds, as both or as neither. Every key of settings may be missing, so that
/// thresholds alone can be read as settings too: they are thresholds.
pub open spec fn held_by(
    keys: Seq<Seq<char>>,
    settings: Option<Settings>,
    thresholds: Option<Thresholds>,
) -> Parsed {
    match (settings, thresholds) {
        (_, Some(t)) if thresholds_alone(keys) => Parsed::Thresholds(t),
        (Some(s), _) => Parsed::Settings(s),
        (None, Some(t)) => Parsed::Thresholds(t),
        (None, None) => Parsed::Neither,
    }
}

fn has_thresholds_alone(keys: &Vec<String>) -> (r: bool)
    ensures
        r == thresholds_alone(views(keys@)),
{
    let mut found: bool = false;
    let mut i: usize = 0;
    while i < keys.len()
        invariant
            i <= keys.len(),
            found == exists|k: int| 0 <= k < i && threshold_key(#[trigger] views(keys@)[k]),
            forall|k: int| 0 <= k < i ==> !settings_key(#[trigger] views(keys@)[k]),
        decreases keys.len() - i,
    {
        let key = keys[i].as_str();
        assert(views(keys@)[i as int] == key@);
        if same_text(key, "mode") || same_text(key, "pinned") || same_text(key, "x") || same_text(
            key,
            "y",
        ) || same_text(key, "thresholds") {
            return false;
        }
        if same_text(key, "cpu") || same_text(key, "ram") || same_text(key, "gpu") || same_text(
            key,
            "temp",
        ) {
            found = true;
        }
        i = i + 1;
    }
    found
}

impl Parsed {
    /// Tells what a file with the given keys holds, from what it was read as.
    pub fn of(keys: &Vec<String>, settings: Option<Settings>, thresholds: Option<Thresholds>) -> (r:
        Parsed)
        ensures
            r == held_by(views(keys@), settings, thresholds),
    {
        let alone = has_thresholds_alone(keys);
        match (settings, thresholds) {
            (_, Some(t)) if alone => Parsed::Thresholds(t),
            (Some(s), _) => Parsed::Settings(s),
            (None, Some(t)) => Parsed::Thresholds(t),
            (None, None) => Parsed::Neither,
        }
    }
}

pub open spec fn loaded(file: Option<Parsed>) -> SettingsView {
    match file {
        Some(Parsed::Settings(s)) => s@.cleaned(),
        Some(Parsed::Thresholds(t)) => SettingsView { thresholds: t.held(), ..default_settings() },
        _ => default_settings(),
    }
}

impl Settings {
    /// An unknown mode becomes `dev`; the thresholds are held in their ranges.
    pub fn sanitized(self) -> (r: Settings)
        ensures
            r@ == self@.cleaned(),
    {
        let mode = match Mode::named(self.mode.as_str()) {
            Some(_) => self.mode,
            None => "dev".to_owned(),
        };
        Settings {
            mode,
            pinned: self.pinned,
            x: self.x,
            y: self.y,
            thresholds: self.thresholds.clamped(),
        }
    }

    /// Chooses the file from what the environment sets: a prescribed path first,
    /// then the application data, else the current directory.
    pub fn path(prescribed: bool, app_data: bool) -> (r: Location)
        ensures
            r == (if prescribed {
                Location::Prescribed
            } else if app_data {
                Location::AppData
            } else {
                Location::Current
            }),
    {
        if prescribed {
            Location::Prescribed
        } else if app_data {
            Location::AppData
        } else {
            Location::Current
        }
    }

    /// The settings to start with. A file that cannot be read, or that holds
    /// neither settings nor thresholds, gives the defaults.
    pub fn load(file: Option<Parsed>) -> (r: Settings)
        ensures
            r@ == loaded(file),
    {
        match file {
            Some(Parsed::Settings(s)) => s.sanitized(),
            Some(Parsed::Thresholds(t)) => {
                let base = Settings::default();
                Settings {
                    mode: base.mode,
                    pinned: base.pinned,
                    x: base.x,
                    y: base.y,
                    thresholds: t.clamped(),
                }
            },
            _ => Settings::default(),
        }
    }
}

/// Whatever a settings file holds, the settings read from it name a mode and have
/// sensible thresholds.
pub proof fn law_loaded_settings_are_valid(file: Option<Parsed>)
    ensures
        mode_of(loaded(file).mode) is Some,
        loaded(file).thresholds.sensible(),
{
    law_cleaned_settings(default_settings());
    match file {
        Some(Parsed::Settings(s)) => {
            law_cleaned_settings(s@);
        },
        Some(Parsed::Thresholds(t)) => {
            law_held_thresholds(t);
        },
        _ => {},
    }
}

/// A file with thresholds alone, as earlier versions wrote them, keeps them: they are
/// held in their ranges, and all else is the default.
pub proof fn law_thresholds_alone_are_rescued(
    keys: Seq<Seq<char>>,
    settings: Option<Settings>,
    thresholds: Thresholds,
)
    requires
        thresholds_alone(keys),
    ensures
        loaded(Some(held_by(keys, settings, Some(thresholds)))) == (SettingsView {
            thresholds: thresholds.held(),
            ..default_settings()
        }),
{
}

/// The text without the byte order marks at its start.
pub open spec fn unmarked(text: Seq<char>) -> Seq<char>
    decreases text.len(),
{
    if text.len() > 0 && text[0] == '\u{feff}' {
        unmarked(text.drop_first())
    } else {
        text
    }
}

/// Drops the byte order marks that some editors put in front of a file.
pub fn without_marks(text: &str) -> (r: String)
    ensures
        r@ == unmarked(text@),
{
    let chars = chars_of(text);
    let mut from: usize = 0;
    assert(chars@.skip(0) == chars@);
    while from < chars.len() && chars[from] == '\u{feff}'
        invariant
            from <= chars.len(),
            unmarked(chars@.skip(from as int)) == unmarked(chars@),
        decreases chars.len() - from,
    {
        assert(chars@.skip(from as int).drop_first() == chars@.skip(from + 1));
        from = from + 1;
    }
    assert(chars@.subrange(from as int, chars@.len() as int) == chars@.skip(from as int));
    string_of(&chars, from, chars.len())
}

// --- Writing the settings ----------------------------------------------------

/// One step of writing the settings file.
#[derive(Clone, Copy, Debug, PartialEq, Eq, Structural)]
pub enum SaveStep {
    /// Make the folder of the file.
    MakeFolder,
    /// Write the settings into a second file beside it.
    WriteTemp,
    /// Look whether the file exists.
    LookForOld,
    /// Remove the file.
    RemoveOld,
    /// Move the second file to the place of the file.
    MoveTemp,
    Done,
    Failed,
}

pub open spec fn following(step: SaveStep, yes: bool) -> SaveStep {
    match step {
        SaveStep::MakeFolder if yes => SaveStep::WriteTemp,
        SaveStep::WriteTemp if yes => SaveStep::LookForOld,
        SaveStep::LookForOld => if yes {
            SaveStep::RemoveOld
        } else {
            SaveStep::MoveTemp
        },
        SaveStep::RemoveOld if yes => SaveStep::MoveTemp,
        SaveStep::MoveTemp if yes => SaveStep::Done,
        SaveStep::Done => SaveStep::Done,
        _ => SaveStep::Failed,
    }
}

impl Settings {
    /// The step after `step`, which went well or, for the look at the file, found
    /// it (`yes`). The first failure ends the saving.
    pub fn save(step: SaveStep, yes: bool) -> (r: SaveStep)
        ensures
            r == following(step, yes),
    {
        match step {
            SaveStep::MakeFolder if yes => SaveStep::WriteTemp,
            SaveStep::WriteTemp if yes => SaveStep::LookForOld,
            SaveStep::LookForOld => if yes {
                SaveStep::RemoveOld
            } else {
                SaveStep::MoveTemp
            },
            SaveStep::RemoveOld if yes => SaveStep::MoveTemp,
            SaveStep::MoveTemp if yes => SaveStep::Done,
            SaveStep::Done => SaveStep::Done,
            _ => SaveStep::Failed,
        }
    }
}

/// The two files as a save finds and leaves them: the settings file and the one
/// beside it.
pub struct Files {
    pub file: Option<Seq<char>>,
    pub temp: Option<Seq<char>>,
}

/// What the files hold after a step that went well, or of which only a part was
/// done: a write may end anywhere in the text, a removal or a move is done or not.
pub open spec fn stepped(before: Files, after: Files, step: SaveStep, text: Seq<char>, yes: bool) -> bool {
    match step {
        SaveStep::WriteTemp => after.file == before.file && (yes ==> after.temp == Some(text)),
        SaveStep::LookForOld => after == before && yes == (before.file is Some),
        SaveStep::RemoveOld => after.temp == before.temp && (if yes {
            after.file is None
        } else {
            after.file == before.file
        }),
        SaveStep::MoveTemp => if yes {
            after.file == before.temp && after.temp is None
        } else {
            after == before
        },
        _ => after == before,
    }
}

/// A course of a save: the steps, how each went, and the files before each step
/// and at the end.
pub open spec fn save_course(steps: Seq<SaveStep>, yes: Seq<bool>, files: Seq<Files>, text: Seq<char>) -> bool {
    &&& steps.len() > 0
    &&& steps[0] == SaveStep::MakeFolder
    &&& yes.len() == steps.len()
    &&& files.len() == steps.len() + 1
    &&& forall|i: int|
        0 <= i < steps.len() - 1 ==> #[trigger] steps[i + 1] == following(steps[i], yes[i])
    &&& forall|i: int|
        0 <= i < steps.len() ==> stepped(#[trigger] files[i], files[i + 1], steps[i], text, yes[i])
}

/// Nothing has been removed in the first `n` steps.
pub open spec fn nothing_removed(steps: Seq<SaveStep>, yes: Seq<bool>, n: int) -> bool {
    forall|i: int| 0 <= i < n && (#[trigger] steps[i]) == SaveStep::RemoveOld ==> !yes[i]
}

proof fn lemma_save_course(steps: Seq<SaveStep>, yes: Seq<bool>, files: Seq<Files>, text: Seq<char>, i: int)
    requires
        save_course(steps, yes, files, text),
        0 <= i < steps.len(),
    ensures
        match steps[i] {
            SaveStep::MakeFolder | SaveStep::WriteTemp => files[i].file == files[0].file,
            SaveStep::LookForOld | SaveStep::RemoveOld => files[i].file == files[0].file
                && files[i].temp == Some(text),
            SaveStep::MoveTemp => files[i].file is None && files[i].temp == Some(text),
            SaveStep::Done => files[i].file == Some(text) && files[i].temp is None,
            SaveStep::Failed => files[i].file == files[0].file || files[i].file is None,
        },
        nothing_removed(steps, yes, i) && steps[i] != SaveStep::Done ==> files[i].file
            == files[0].file,
    decreases i,
{
    if i > 0 {
        lemma_save_course(steps, yes, files, text, i - 1);
        assert(steps[(i - 1) + 1] == following(steps[i - 1], yes[i - 1]));
        assert(stepped(files[i - 1], files[(i - 1) + 1], steps[i - 1], text, yes[i - 1]));
    }
}

/// However far a save comes, and wherever it is cut off, the settings file is as
/// it was, gone, or whole with the new text. A save that is done leaves the new text
/// and no second file. As long as the old file has not been removed, a save that is
/// not done leaves the settings file as it was.
pub proof fn law_save_never_leaves_half_a_file(
    steps: Seq<SaveStep>,
    yes: Seq<bool>,
    files: Seq<Files>,
    text: Seq<char>,
)
    requires
        save_course(steps, yes, files, text),
    ensures
        files.last().file == files[0].file || files.last().file is None || files.last().file == Some(
            text,
        ),
        following(steps.last(), yes.last()) == SaveStep::Done ==> files.last().file == Some(text)
            && files.last().temp is None,
        nothing_removed(steps, yes, steps.len() as int) && following(steps.last(), yes.last())
            != SaveStep::Done ==> files.last().file == files[0].file,
{
    let n = steps.len() - 1;
    lemma_save_course(steps, yes, files, text, n);
    assert(stepped(files[n], files[n + 1], steps[n], text, yes[n]));
}

/// The thresholds to start with: 85 percent of CPU use, 90 percent of memory and of GPU
/// use, 80 degrees.
pub proof fn law_default_thresholds()
    ensures
        default_thresholds().cpu == of_whole(85),
        default_thresholds().ram == of_whole(90),
        default_thresholds().gpu == of_whole(90),
        default_thresholds().temp == of_whole(80),
{
    lemma_named_patterns();
    lemma_whole_unique(num_of(EIGHTY_FIVE), 85);
    lemma_whole_unique(num_of(NINETY), 90);
    lemma_whole_unique(num_of(EIGHTY), 80);
}

/// Whole thresholds are held within 1 to 100 percent, and within 30 to 120 degrees:
/// inside they stay, outside they go to the nearer end. What is not a number becomes
/// the default.
pub proof fn law_thresholds_are_held(t: Thresholds, n: nat)
    requires
        n < 0x20_0000_0000_0000,
    ensures
        ({
            let percent = of_whole(
                if n < 1 {
                    1
                } else if n > 100 {
                    100
                } else {
                    n
                },
            );
            let celsius = of_whole(
                if n < 30 {
                    30
                } else if n > 120 {
                    120
                } else {
                    n
                },
            );
            let held = t.held();
            &&& t.cpu == of_whole(n) ==> held.cpu == percent
            &&& t.ram == of_whole(n) ==> held.ram == percent
            &&& t.gpu == of_whole(n) ==> held.gpu == percent
            &&& t.temp == of_whole(n) ==> held.temp == celsius
            &&& t.cpu.nan() ==> held.cpu == of_whole(85)
            &&& t.ram.nan() ==> held.ram == of_whole(90)
            &&& t.gpu.nan() ==> held.gpu == of_whole(90)
            &&& t.temp.nan() ==> held.temp == of_whole(80)
        }),
{
    law_default_thresholds();
    lemma_named_patterns();
    lemma_whole_unique(num_of(ONE), 1);
    lemma_whole_unique(num_of(HUNDRED), 100);
    lemma_whole_unique(num_of(THIRTY), 30);
    lemma_whole_unique(num_of(HUNDRED_TWENTY), 120);
    law_whole_arithmetic(n, 1);
    law_whole_arithmetic(100, n);
    law_whole_arithmetic(n, 30);
    law_whole_arithmetic(120, n);
    lemma_whole_exact(n);
}

/// Cleaning keeps the pin and the position, a mode that is known and thresholds that are
/// sensible; an unknown mode becomes `dev`.
pub proof fn law_cleaning_keeps_what_is_valid(s: SettingsView)
    ensures
        s.cleaned().pinned == s.pinned,
        s.cleaned().x == s.x,
        s.cleaned().y == s.y,
        s.mode == "dev"@ || s.mode == "mini"@ || s.mode == "charts"@ || s.mode == "procs"@
            ==> s.cleaned().mode == s.mode,
        !(s.mode == "dev"@ || s.mode == "mini"@ || s.mode == "charts"@ || s.mode == "procs"@)
            ==> s.cleaned().mode == "dev"@,
        s.thresholds.sensible() ==> s.cleaned().thresholds == s.thresholds,
{
    law_held_thresholds(s.thresholds);
}

/// Valid settings are read as they were written. Where there is no file, or it holds
/// neither settings nor thresholds, the widget starts in the mode `dev`, pinned, without
/// a position and with the default thresholds.
pub proof fn law_settings_are_read_back(s: Settings, keys: Seq<Seq<char>>)
    ensures
        mode_of(s@.mode) is Some && s@.thresholds.sensible() ==> loaded(Some(Parsed::Settings(s)))
            == s@,
        forall|t: Option<Thresholds>|
            (exists|i: int| 0 <= i < keys.len() && settings_key(#[trigger] keys[i]))
                ==> #[trigger] held_by(keys, Some(s), t) == Parsed::Settings(s),
        loaded(None).mode == "dev"@ && loaded(None).pinned && loaded(None).x is None && loaded(
            None,
        ).y is None && loaded(None).thresholds == default_thresholds(),
        loaded(Some(Parsed::Neither)) == loaded(None),
{
    law_held_thresholds(s@.thresholds);
}

/// The keys of a settings file.
pub proof fn law_keys(key: Seq<char>)
    ensures
        settings_key(key) <==> seq!["mode"@, "pinned"@, "x"@, "y"@, "thresholds"@].contains(key),
        threshold_key(key) <==> seq!["cpu"@, "ram"@, "gpu"@, "temp"@].contains(key),
{
    let s = seq!["mode"@, "pinned"@, "x"@, "y"@, "thresholds"@];
    assert(s[0] == "mode"@ && s[1] == "pinned"@ && s[2] == "x"@ && s[3] == "y"@ && s[4]
        == "thresholds"@);
    let t = seq!["cpu"@, "ram"@, "gpu"@, "temp"@];
    assert(t[0] == "cpu"@ && t[1] == "ram"@ && t[2] == "gpu"@ && t[3] == "temp"@);
}

/// The marks in front of a text go, all of them, and nothing else does.
pub proof fn law_marks_are_dropped(marks: Seq<char>, text: Seq<char>)
    requires
        forall|i: int| 0 <= i < marks.len() ==> #[trigger] marks[i] == '\u{feff}',
        text.len() > 0 ==> text[0] != '\u{feff}',
    ensures
        unmarked(marks + text) == text,
    decreases marks.len(),
{
    if marks.len() == 0 {
        assert(marks + text == text);
    } else {
        let rest = marks.drop_first();
        assert(marks[0] == '\u{feff}');
        assert forall|i: int| 0 <= i < rest.len() implies #[trigger] rest[i] == '\u{feff}' by {
            assert(marks[i + 1] == '\u{feff}');
        }
        assert((marks + text).drop_first() == rest + text);
        law_marks_are_dropped(rest, text);
    }
}

/// A save whose steps all go well is done, whether there was a file before or not; the
/// first step that fails ends it.
pub proof fn law_save_comes_to_an_end(old_file: bool)
    ensures
        ({
            let a = following(SaveStep::MakeFolder, true);
            let b = following(a, true);
            let c = following(b, old_file);
            let d = if old_file {
                following(c, true)
            } else {
                c
            };
            &&& a == SaveStep::WriteTemp
            &&& b == SaveStep::LookForOld
            &&& old_file ==> c == SaveStep::RemoveOld
            &&& d == SaveStep::MoveTemp
            &&& following(d, true) == SaveStep::Done
        }),
        forall|step: SaveStep|
            step != SaveStep::LookForOld && step != SaveStep::Done ==> #[trigger] following(
                step,
                false,
            ) == SaveStep::Failed,
{
}

} // verus!
