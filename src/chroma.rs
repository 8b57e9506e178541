use vstd::prelude::*;
use crate::color::{hex_text, hue_is_zero, is_gray, parse_hex_color, HslColor};
use crate::difficulty::{keyed, key_for, SpinDifficulty, CHROMA_KEY};
use crate::error::{IntegrationError, ParseFault, ParsingError};
use crate::number::{decimal_text, decimal_units, in_i64, int_value, is_word, parse_int, units_text, Decimal};
use crate::sort::{is_time_ascending, lemma_sorted_by_time, sort_by_time, sorted_by_time, Timed};
use crate::speeds::passes;
use crate::srtb::{lookup, upsert, without, RawSrtbFile};
use crate::text::{chars_of, is_blank_or_comment, line_words, lines_view, words_view, lower_seq, split_line_words, string_of};

verus! {

/// The seven lanes of chroma triggers.
#[derive(Debug, Clone, Copy, PartialEq, Eq, Hash, Structural)]
pub enum ChromaNoteType {
    NoteA,
    NoteB,
    Beat,
    SpinLeft,
    SpinRight,
    Scratch,
    Ancillary,
}

/// The lane that a (case-folded) name stands for.
pub open spec fn note_named(s: Seq<char>) -> Option<ChromaNoteType> {
    if s == "notea"@ {
        Some(ChromaNoteType::NoteA)
    } else if s == "noteb"@ {
        Some(ChromaNoteType::NoteB)
    } else if s == "beat"@ {
        Some(ChromaNoteType::Beat)
    } else if s == "spinleft"@ || s == "leftspin"@ {
        Some(ChromaNoteType::SpinLeft)
    } else if s == "spinright"@ || s == "rightspin"@ {
        Some(ChromaNoteType::SpinRight)
    } else if s == "scratch"@ {
        Some(ChromaNoteType::Scratch)
    } else if s == "ancillary"@ || s == "highlights"@ {
        Some(ChromaNoteType::Ancillary)
    } else {
        None
    }
}

pub open spec fn lane_index(n: ChromaNoteType) -> int {
    match n {
        ChromaNoteType::NoteA => 0,
        ChromaNoteType::NoteB => 1,
        ChromaNoteType::Beat => 2,
        ChromaNoteType::SpinLeft => 3,
        ChromaNoteType::SpinRight => 4,
        ChromaNoteType::Scratch => 5,
        ChromaNoteType::Ancillary => 6,
    }
}

pub open spec fn lane_at(i: int) -> ChromaNoteType {
    if i == 0 {
        ChromaNoteType::NoteA
    } else if i == 1 {
        ChromaNoteType::NoteB
    } else if i == 2 {
        ChromaNoteType::Beat
    } else if i == 3 {
        ChromaNoteType::SpinLeft
    } else if i == 4 {
        ChromaNoteType::SpinRight
    } else if i == 5 {
        ChromaNoteType::Scratch
    } else {
        ChromaNoteType::Ancillary
    }
}

/// The name that chroma text uses for a lane.
pub open spec fn chroma_name(n: ChromaNoteType) -> Seq<char> {
    match n {
        ChromaNoteType::NoteA => "NoteA"@,
        ChromaNoteType::NoteB => "NoteB"@,
        ChromaNoteType::Beat => "Beat"@,
        ChromaNoteType::SpinLeft => "SpinLeft"@,
        ChromaNoteType::SpinRight => "SpinRight"@,
        ChromaNoteType::Scratch => "Scratch"@,
        ChromaNoteType::Ancillary => "Ancillary"@,
    }
}

/// The name shown to users for a lane.
pub open spec fn shown_name(n: ChromaNoteType) -> Seq<char> {
    match n {
        ChromaNoteType::NoteA => "Note A"@,
        ChromaNoteType::NoteB => "Note B"@,
        ChromaNoteType::Beat => "Beat"@,
        ChromaNoteType::SpinLeft => "Left Spin"@,
        ChromaNoteType::SpinRight => "Right Spin"@,
        ChromaNoteType::Scratch => "Scratch"@,
        ChromaNoteType::Ancillary => "Highlights"@,
    }
}

impl ChromaNoteType {
    /// The lane of a word that is already case folded.
    pub fn from_word(w: &Vec<char>) -> (r: Option<ChromaNoteType>)
        ensures
            r == note_named(w@),
    {
        if is_word(w, "notea") {
            Some(ChromaNoteType::NoteA)
        } else if is_word(w, "noteb") {
            Some(ChromaNoteType::NoteB)
        } else if is_word(w, "beat") {
            Some(ChromaNoteType::Beat)
        } else if is_word(w, "spinleft") || is_word(w, "leftspin") {
            Some(ChromaNoteType::SpinLeft)
        } else if is_word(w, "spinright") || is_word(w, "rightspin") {
            Some(ChromaNoteType::SpinRight)
        } else if is_word(w, "scratch") {
            Some(ChromaNoteType::Scratch)
        } else if is_word(w, "ancillary") || is_word(w, "highlights") {
            Some(ChromaNoteType::Ancillary)
        } else {
            None
        }
    }

    /// The lane of a name, in any case.
    pub fn from_str(note: &str) -> (r: Result<ChromaNoteType, ParsingError>)
        ensures
            match r {
                Ok(n) => note_named(lower_seq(note@)) == Some(n),
                Err(e) => note_named(lower_seq(note@)) is None && (e matches ParsingError::InvalidNote(s) && s@ == note@),
            },
    {
        let chars = chars_of(note);
        let mut low: Vec<char> = Vec::new();
        let mut i: usize = 0;
        while i < chars.len()
            invariant
                i <= chars.len(),
                chars@ == note@,
                low@ == lower_seq(chars@.subrange(0, i as int)),
            decreases chars.len() - i,
        {
            low.push(crate::text::lower_char(chars[i]));
            assert(low@ =~= lower_seq(chars@.subrange(0, i + 1)));
            i = i + 1;
        }
        assert(chars@.subrange(0, i as int) =~= chars@);
        match ChromaNoteType::from_word(&low) {
            Some(n) => Ok(n),
            None => Err(ParsingError::InvalidNote(note.to_owned())),
        }
    }

    /// The name that chroma text uses for the lane.
    pub fn to_str_chroma(self) -> (r: &'static str)
        ensures
            r@ == chroma_name(self),
    {
        match self {
            ChromaNoteType::NoteA => "NoteA",
            ChromaNoteType::NoteB => "NoteB",
            ChromaNoteType::Beat => "Beat",
            ChromaNoteType::SpinLeft => "SpinLeft",
            ChromaNoteType::SpinRight => "SpinRight",
            ChromaNoteType::Scratch => "Scratch",
            ChromaNoteType::Ancillary => "Ancillary",
        }
    }

    /// The name shown to users for the lane.
    pub fn to_shown_str(self) -> (r: &'static str)
        ensures
            r@ == shown_name(self),
    {
        match self {
            ChromaNoteType::NoteA => "Note A",
            ChromaNoteType::NoteB => "Note B",
            ChromaNoteType::Beat => "Beat",
            ChromaNoteType::SpinLeft => "Left Spin",
            ChromaNoteType::SpinRight => "Right Spin",
            ChromaNoteType::Scratch => "Scratch",
            ChromaNoteType::Ancillary => "Highlights",
        }
    }

    fn index(self) -> (r: usize)
        ensures
            r as int == lane_index(self),
            lane_at(r as int) == self,
    {
        match self {
            ChromaNoteType::NoteA => 0,
            ChromaNoteType::NoteB => 1,
            ChromaNoteType::Beat => 2,
            ChromaNoteType::SpinLeft => 3,
            ChromaNoteType::SpinRight => 4,
            ChromaNoteType::Scratch => 5,
            ChromaNoteType::Ancillary => 6,
        }
    }
}

/// A color change of one lane: from `start_color` at `time` to `end_color`
/// `duration` later (at once when the duration is 0).
#[derive(Debug, Clone, Copy, PartialEq, Eq, Structural)]
pub struct ChromaTrigger {
    pub time: Decimal,
    pub duration: Decimal,
    pub start_color: HslColor,
    pub end_color: HslColor,
}

impl Timed for ChromaTrigger {
    open spec fn time_spec(&self) -> int {
        self.time.units as int
    }

    fn time(&self) -> (r: i64) {
        self.time.units
    }
}

/// The trigger with a gray end taking over the hue of the other end, so that
/// a fade from or to white, black or gray does not swing through red.
pub open spec fn smoothed(t: ChromaTrigger) -> ChromaTrigger {
    let s = if hue_is_zero(t.start_color.hue_of) && !hue_is_zero(t.end_color.hue_of) && is_gray(t.start_color.base) {
        HslColor { hue_of: t.end_color.hue_of, ..t.start_color }
    } else {
        t.start_color
    };
    let e = if hue_is_zero(t.end_color.hue_of) && !hue_is_zero(s.hue_of) && is_gray(t.end_color.base) {
        HslColor { hue_of: s.hue_of, ..t.end_color }
    } else {
        t.end_color
    };
    ChromaTrigger { start_color: s, end_color: e, ..t }
}

impl ChromaTrigger {
    /// Gives a gray end the hue of the other end (see `smoothed`).
    pub fn ensure_smooth_transition(&mut self)
        ensures
            *final(self) == smoothed(*old(self)),
    {
        if self.start_color.hue_is_zero() && !self.end_color.hue_is_zero() && self.start_color.is_hueless() {
            self.start_color.hue_of = self.end_color.hue_of;
        }
        if self.end_color.hue_is_zero() && !self.start_color.hue_is_zero() && self.end_color.is_hueless() {
            self.end_color.hue_of = self.start_color.hue_of;
        }
    }
}

/// The chroma triggers of one chart difficulty, lane by lane.
#[derive(Debug, Clone)]
pub struct ChromaTriggersData {
    pub note_a: Vec<ChromaTrigger>,
    pub note_b: Vec<ChromaTrigger>,
    pub beat: Vec<ChromaTrigger>,
    pub spin_left: Vec<ChromaTrigger>,
    pub spin_right: Vec<ChromaTrigger>,
    pub scratch: Vec<ChromaTrigger>,
    pub ancillary: Vec<ChromaTrigger>,
}

impl ChromaTriggersData {
    /// The lanes in the order of `lane_index`.
    pub open spec fn lanes(&self) -> Seq<Seq<ChromaTrigger>> {
        seq![self.note_a@, self.note_b@, self.beat@, self.spin_left@, self.spin_right@, self.scratch@, self.ancillary@]
    }

    /// No trigger in any lane.
    pub fn new() -> (r: ChromaTriggersData)
        ensures
            r.lanes() == Seq::new(7, |i: int| Seq::<ChromaTrigger>::empty()),
    {
        let r = ChromaTriggersData {
            note_a: Vec::new(),
            note_b: Vec::new(),
            beat: Vec::new(),
            spin_left: Vec::new(),
            spin_right: Vec::new(),
            scratch: Vec::new(),
            ancillary: Vec::new(),
        };
        assert(r.lanes() =~= Seq::new(7, |i: int| Seq::<ChromaTrigger>::empty()));
        r
    }

    /// The triggers of a lane.
    pub fn lane(&self, n: ChromaNoteType) -> (r: &Vec<ChromaTrigger>)
        ensures
            r@ == self.lanes()[lane_index(n)],
    {
        match n {
            ChromaNoteType::NoteA => &self.note_a,
            ChromaNoteType::NoteB => &self.note_b,
            ChromaNoteType::Beat => &self.beat,
            ChromaNoteType::SpinLeft => &self.spin_left,
            ChromaNoteType::SpinRight => &self.spin_right,
            ChromaNoteType::Scratch => &self.scratch,
            ChromaNoteType::Ancillary => &self.ancillary,
        }
    }

    /// Appends a trigger to a lane.
    pub fn push(&mut self, n: ChromaNoteType, t: ChromaTrigger)
        ensures
            final(self).lanes() == old(self).lanes().update(lane_index(n), old(self).lanes()[lane_index(n)].push(t)),
    {
        match n {
            ChromaNoteType::NoteA => self.note_a.push(t),
            ChromaNoteType::NoteB => self.note_b.push(t),
            ChromaNoteType::Beat => self.beat.push(t),
            ChromaNoteType::SpinLeft => self.spin_left.push(t),
            ChromaNoteType::SpinRight => self.spin_right.push(t),
            ChromaNoteType::Scratch => self.scratch.push(t),
            ChromaNoteType::Ancillary => self.ancillary.push(t),
        }
        assert(final(self).lanes() =~= old(self).lanes().update(lane_index(n), old(self).lanes()[lane_index(n)].push(t)));
    }
}

/// A character that a color variable name may hold: an ASCII letter or
/// digit, `-` or `_`.
pub open spec fn is_name_char(c: char) -> bool {
    ('a' <= c && c <= 'z') || ('A' <= c && c <= 'Z') || ('0' <= c && c <= '9') || c == '-' || c == '_'
}

/// `s` holds `default` somewhere.
pub open spec fn contains_default(s: Seq<char>) -> bool {
    exists|i: int| 0 <= i && i + 7 <= s.len() && #[trigger] s.subrange(i, i + 7) == "default"@
}

/// A name that a color variable may not have: one that holds `default`, or a
/// character other than ASCII letters and digits, `-` and `_`.
pub open spec fn is_bad_name(s: Seq<char>) -> bool {
    contains_default(s) || exists|i: int| 0 <= i < s.len() && !is_name_char(#[trigger] s[i])
}

/// Relies on `regex::Regex::new` and `regex::Regex::is_match`: the pattern
/// `(default)|([^a-zA-Z0-9\-_]+)` is valid, and it matches somewhere in a text
/// exactly when the text holds `default` or a character outside ASCII
/// letters, digits, `-` and `_`.
#[verifier::external_body]
fn is_bad_variable_name(name: &str) -> (r: bool)
    ensures
        r == is_bad_name(name@),
{
    regex::Regex::new(r"(default)|([^a-zA-Z0-9\-_]+)").unwrap().is_match(name)
}

/// The running state of a chroma text read: the lanes, the color each lane
/// was last started with, and the color variables in the order they were set.
pub struct ChromaState {
    pub lanes: Seq<Seq<ChromaTrigger>>,
    pub defaults: Seq<Option<HslColor>>,
    pub vars: Seq<(Seq<char>, HslColor)>,
}

pub open spec fn initial_state() -> ChromaState {
    ChromaState {
        lanes: Seq::new(7, |i: int| Seq::<ChromaTrigger>::empty()),
        defaults: Seq::new(7, |i: int| None::<HslColor>),
        vars: seq![],
    }
}

/// The color last set for a variable.
pub open spec fn var_lookup(vars: Seq<(Seq<char>, HslColor)>, name: Seq<char>) -> Option<HslColor>
    decreases vars.len(),
{
    if vars.len() == 0 {
        None
    } else if vars.last().0 == name {
        Some(vars.last().1)
    } else {
        var_lookup(vars.drop_last(), name)
    }
}

/// A color written as `#rrggbb` or as a variable.
pub open spec fn plain_color(st: ChromaState, w: Seq<char>) -> Result<HslColor, ParseFault> {
    if w.len() > 0 && w[0] == '#' {
        match parse_hex_color(w) {
            Ok(c) => Ok(HslColor { base: c, hue_of: c }),
            Err(e) => Err(ParseFault::ColorError(e)),
        }
    } else {
        match var_lookup(st.vars, w) {
            Some(c) => Ok(c),
            None => Err(ParseFault::ColorVariableNotFound(w)),
        }
    }
}

pub open spec fn default_of(st: ChromaState, n: ChromaNoteType) -> Result<HslColor, ParseFault> {
    match st.defaults[lane_index(n)] {
        Some(c) => Ok(c),
        None => Err(ParseFault::NoDefaultColorForNote(shown_name(n))),
    }
}

/// A color written as `default<lane>` (the color that lane was last started
/// with), `#rrggbb` or a variable.
pub open spec fn note_default_color(st: ChromaState, w: Seq<char>) -> Result<HslColor, ParseFault> {
    if w.len() >= 7 && w.take(7) == "default"@ {
        match note_named(w.skip(7)) {
            None => Err(ParseFault::InvalidNote(w.skip(7))),
            Some(n) => default_of(st, n),
        }
    } else {
        plain_color(st, w)
    }
}

/// A color of a trigger on `lane`: `default` is the color that lane was last
/// started with; otherwise as `note_default_color`.
pub open spec fn lane_color(st: ChromaState, lane: ChromaNoteType, w: Seq<char>) -> Result<HslColor, ParseFault> {
    if w == "default"@ {
        default_of(st, lane)
    } else {
        note_default_color(st, w)
    }
}

/// A time of the text, moved on by the offset of the current repeat pass.
pub open spec fn time_at(w: Seq<char>, off: int) -> Result<int, ParseFault> {
    match decimal_units(w) {
        Some(u) => if in_i64(u + off) {
            Ok(u + off)
        } else {
            Err(ParseFault::InvalidFloat(w))
        },
        None => Err(ParseFault::InvalidFloat(w)),
    }
}

pub open spec fn note_word(w: Seq<char>) -> Result<ChromaNoteType, ParseFault> {
    match note_named(w) {
        Some(n) => Ok(n),
        None => Err(ParseFault::InvalidNote(w)),
    }
}

pub open spec fn trig(time: int, duration: int, a: HslColor, b: HslColor) -> ChromaTrigger {
    ChromaTrigger { time: Decimal { units: time as i64 }, duration: Decimal { units: duration as i64 }, start_color: a, end_color: b }
}

pub open spec fn with_trigger(st: ChromaState, n: ChromaNoteType, t: ChromaTrigger) -> ChromaState {
    ChromaState { lanes: st.lanes.update(lane_index(n), st.lanes[lane_index(n)].push(t)), ..st }
}

pub open spec fn last_end(st: ChromaState, n: ChromaNoteType) -> HslColor {
    st.lanes[lane_index(n)].last().end_color
}

/// `Start <lane> <color>`.
pub open spec fn start_step(st: ChromaState, ws: Seq<Seq<char>>) -> Result<ChromaState, ParseFault> {
    if ws.len() < 3 {
        Err(ParseFault::MissingArguments)
    } else {
        match note_word(ws[1]) {
            Err(e) => Err(e),
            Ok(n) => match plain_color(st, ws[2]) {
                Err(e) => Err(e),
                Ok(c) => {
                    let st1 = with_trigger(st, n, trig(0, 0, c, c));
                    Ok(ChromaState { defaults: st1.defaults.update(lane_index(n), Some(c)), ..st1 })
                },
            },
        }
    }
}

/// `Set <name> <color>`: the name is checked before the color.
pub open spec fn set_step(st: ChromaState, ws: Seq<Seq<char>>) -> Result<ChromaState, ParseFault> {
    if ws.len() < 3 {
        Err(ParseFault::MissingArguments)
    } else if is_bad_name(ws[1]) {
        Err(ParseFault::InvalidColorVariableName(ws[1]))
    } else {
        match parse_hex_color(ws[2]) {
            Err(e) => Err(ParseFault::ColorError(e)),
            Ok(c) => Ok(ChromaState { vars: st.vars.push((ws[1], HslColor { base: c, hue_of: c })), ..st }),
        }
    }
}

/// `Instant <lane> <time> <color>`.
pub open spec fn instant_step(st: ChromaState, ws: Seq<Seq<char>>, off: int) -> Result<ChromaState, ParseFault> {
    if ws.len() < 4 {
        Err(ParseFault::MissingArguments)
    } else {
        match note_word(ws[1]) {
            Err(e) => Err(e),
            Ok(n) => match time_at(ws[2], off) {
                Err(e) => Err(e),
                Ok(t) => match lane_color(st, n, ws[3]) {
                    Err(e) => Err(e),
                    Ok(c) => Ok(with_trigger(st, n, trig(t, 0, c, c))),
                },
            },
        }
    }
}

/// Both lanes must hold a trigger; the error names the first lane that holds none.
pub open spec fn both_started(st: ChromaState, a: ChromaNoteType, b: ChromaNoteType) -> Result<(), ParseFault> {
    if st.lanes[lane_index(a)].len() == 0 {
        Err(ParseFault::NoTriggerForNote(shown_name(a)))
    } else if st.lanes[lane_index(b)].len() == 0 {
        Err(ParseFault::NoTriggerForNote(shown_name(b)))
    } else {
        Ok(())
    }
}

/// `Swap Instant <time> <laneA> <laneB>`: each lane takes the other's last color.
pub open spec fn swap_instant_step(st: ChromaState, ws: Seq<Seq<char>>, off: int) -> Result<ChromaState, ParseFault> {
    if ws.len() < 5 {
        Err(ParseFault::MissingArguments)
    } else {
        match time_at(ws[2], off) {
            Err(e) => Err(e),
            Ok(t) => match note_word(ws[3]) {
                Err(e) => Err(e),
                Ok(a) => match note_word(ws[4]) {
                    Err(e) => Err(e),
                    Ok(b) => match both_started(st, a, b) {
                        Err(e) => Err(e),
                        Ok(_) => {
                            let ca = last_end(st, a);
                            let cb = last_end(st, b);
                            Ok(with_trigger(with_trigger(st, a, trig(t, 0, cb, cb)), b, trig(t, 0, ca, ca)))
                        },
                    },
                },
            },
        }
    }
}

/// `Swap Flash <start> <end> <laneA> <laneB> <color>`: both lanes flash the
/// color and settle on the other's last color.
pub open spec fn swap_flash_step(st: ChromaState, ws: Seq<Seq<char>>, off: int) -> Result<ChromaState, ParseFault> {
    if ws.len() < 7 {
        Err(ParseFault::MissingArguments)
    } else {
        match time_at(ws[2], off) {
            Err(e) => Err(e),
            Ok(s) => match time_at(ws[3], off) {
                Err(e) => Err(e),
                Ok(e) => match note_word(ws[4]) {
                    Err(f) => Err(f),
                    Ok(a) => match note_word(ws[5]) {
                        Err(f) => Err(f),
                        Ok(b) => match plain_color(st, ws[6]) {
                            Err(f) => Err(f),
                            Ok(c) => match both_started(st, a, b) {
                                Err(f) => Err(f),
                                Ok(_) => if !in_i64(e - s) {
                                    Err(ParseFault::InvalidFloat(ws[3]))
                                } else {
                                    let ca = last_end(st, a);
                                    let cb = last_end(st, b);
                                    Ok(with_trigger(with_trigger(st, a, trig(s, e - s, c, cb)), b, trig(s, e - s, c, ca)))
                                },
                            },
                        },
                    },
                },
            },
        }
    }
}

/// `<lane> <start> <end> <startColor> <endColor>`, smoothed; a first word
/// that names no lane is an unknown command.
pub open spec fn ranged_step(st: ChromaState, ws: Seq<Seq<char>>, off: int) -> Result<ChromaState, ParseFault> {
    match note_named(ws[0]) {
        None => Err(ParseFault::UnrecognizedCommand(ws[0])),
        Some(n) => if ws.len() < 5 {
            Err(ParseFault::MissingArguments)
        } else {
            match time_at(ws[1], off) {
                Err(f) => Err(f),
                Ok(s) => match time_at(ws[2], off) {
                    Err(f) => Err(f),
                    Ok(e) => match lane_color(st, n, ws[3]) {
                        Err(f) => Err(f),
                        Ok(a) => match lane_color(st, n, ws[4]) {
                            Err(f) => Err(f),
                            Ok(b) => if !in_i64(e - s) {
                                Err(ParseFault::InvalidFloat(ws[2]))
                            } else {
                                Ok(with_trigger(st, n, smoothed(trig(s, e - s, a, b))))
                            },
                        },
                    },
                },
            }
        },
    }
}

/// What a line that is neither blank nor a repeat marker does to the state.
#[verifier::opaque]
pub open spec fn chroma_step(st: ChromaState, ws: Seq<Seq<char>>, off: int) -> Result<ChromaState, ParseFault> {
    if ws[0] == "start"@ {
        start_step(st, ws)
    } else if ws[0] == "set"@ {
        set_step(st, ws)
    } else if ws[0] == "instant"@ {
        instant_step(st, ws, off)
    } else if ws[0] == "swap"@ {
        if ws.len() < 2 {
            Err(ParseFault::MissingArguments)
        } else if ws[1] == "instant"@ {
            swap_instant_step(st, ws, off)
        } else if ws[1] == "flash"@ {
            swap_flash_step(st, ws, off)
        } else {
            Err(ParseFault::UnrecognizedCommand(ws[1]))
        }
    } else {
        ranged_step(st, ws, off)
    }
}

/// `r` is what `s` says, with the error as text.
pub open spec fn agrees<T>(r: Result<T, ParsingError>, s: Result<T, ParseFault>) -> bool {
    match r {
        Ok(x) => s == Ok::<T, ParseFault>(x),
        Err(e) => s == Err::<T, ParseFault>(e@),
    }
}

fn copy_word(w: &Vec<char>) -> (r: Vec<char>)
    ensures
        r@ == w@,
{
    let mut r: Vec<char> = Vec::new();
    let mut i: usize = 0;
    while i < w.len()
        invariant
            i <= w.len(),
            r@ == w@.subrange(0, i as int),
        decreases w.len() - i,
    {
        r.push(w[i]);
        i = i + 1;
    }
    assert(w@.subrange(0, i as int) =~= w@);
    r
}

fn same_word(a: &Vec<char>, b: &Vec<char>) -> (r: bool)
    ensures
        r == (a@ == b@),
{
    if a.len() != b.len() {
        return false;
    }
    let mut i: usize = 0;
    while i < a.len()
        invariant
            a@.len() == b@.len(),
            i <= a.len(),
            forall|j: int| 0 <= j < i ==> a@[j] == b@[j],
        decreases a.len() - i,
    {
        if a[i] != b[i] {
            return false;
        }
        i = i + 1;
    }
    assert(a@ =~= b@);
    true
}

/// Whether `w` starts with `default`, and the rest of it.
fn after_default(w: &Vec<char>) -> (r: Option<Vec<char>>)
    ensures
        r.is_some() == (w@.len() >= 7 && w@.take(7) == "default"@),
        r.is_some() ==> r.unwrap()@ == w@.skip(7),
{
    let lit = "default";
    proof {
        reveal_strlit("default");
    }
    if w.len() < 7 {
        return None;
    }
    let mut i: usize = 0;
    while i < 7
        invariant
            w@.len() >= 7,
            lit@ == "default"@,
            lit@.len() == 7,
            i <= 7,
            forall|j: int| 0 <= j < i ==> w@[j] == lit@[j],
        decreases 7 - i,
    {
        if w[i] != lit.get_char(i) {
            assert(w@.take(7)[i as int] != lit@[i as int]);
            return None;
        }
        i = i + 1;
    }
    assert(w@.take(7) =~= lit@);
    let mut r: Vec<char> = Vec::new();
    let mut k: usize = 7;
    while k < w.len()
        invariant
            7 <= k <= w.len(),
            r@ == w@.subrange(7, k as int),
        decreases w.len() - k,
    {
        r.push(w[k]);
        k = k + 1;
    }
    Some(r)
}

fn note_word_exec(w: &Vec<char>) -> (r: Result<ChromaNoteType, ParsingError>)
    ensures
        agrees(r, note_word(w@)),
{
    match ChromaNoteType::from_word(w) {
        Some(n) => Ok(n),
        None => Err(ParsingError::InvalidNote(string_of(w))),
    }
}

fn time_at_exec(w: &Vec<char>, off: i128) -> (r: Result<Decimal, ParsingError>)
    requires
        -0x1_0000_0000_0000_0000_0000_0000 < off < 0x1_0000_0000_0000_0000_0000_0000,
    ensures
        match r {
            Ok(d) => time_at(w@, off as int) == Ok::<int, ParseFault>(d.units as int),
            Err(e) => time_at(w@, off as int) == Err::<int, ParseFault>(e@),
        },
{
    match Decimal::parse(w) {
        None => Err(ParsingError::InvalidFloat(string_of(w))),
        Some(d) => {
            let t: i128 = (d.units as i128) + off;
            if t < (i64::MIN as i128) || t > (i64::MAX as i128) {
                Err(ParsingError::InvalidFloat(string_of(w)))
            } else {
                Ok(Decimal { units: t as i64 })
            }
        },
    }
}

fn copy_vec<T: Copy>(v: &Vec<T>) -> (r: Vec<T>)
    ensures
        r@ == v@,
{
    let mut r: Vec<T> = Vec::new();
    let mut i: usize = 0;
    while i < v.len()
        invariant
            i <= v.len(),
            r@ == v@.subrange(0, i as int),
        decreases v.len() - i,
    {
        r.push(v[i]);
        assert(r@ =~= v@.subrange(0, i + 1));
        i = i + 1;
    }
    assert(v@.subrange(0, i as int) =~= v@);
    r
}

/// The color variables, with their names as sequences.
spec fn vars_view(v: Seq<(Vec<char>, HslColor)>) -> Seq<(Seq<char>, HslColor)> {
    v.map_values(|p: (Vec<char>, HslColor)| (p.0@, p.1))
}

/// The parser's running state (see `ChromaState`).
struct ChromaParser {
    data: ChromaTriggersData,
    defaults: Vec<Option<HslColor>>,
    vars: Vec<(Vec<char>, HslColor)>,
}

impl ChromaParser {
    spec fn state(&self) -> ChromaState {
        ChromaState {
            lanes: self.data.lanes(),
            defaults: self.defaults@,
            vars: vars_view(self.vars@),
        }
    }

    spec fn wf(&self) -> bool {
        self.defaults@.len() == 7
    }

    fn new() -> (r: ChromaParser)
        ensures
            r.wf(),
            r.state() == initial_state(),
    {
        let data = ChromaTriggersData::new();
        let mut defaults: Vec<Option<HslColor>> = Vec::new();
        let mut i: usize = 0;
        while i < 7
            invariant
                i <= 7,
                defaults@ == Seq::new(i as nat, |j: int| None::<HslColor>),
            decreases 7 - i,
        {
            defaults.push(None);
            assert(defaults@ =~= Seq::new((i + 1) as nat, |j: int| None::<HslColor>));
            i = i + 1;
        }
        let r = ChromaParser { data, defaults, vars: Vec::new() };
        assert(r.state().vars =~= Seq::<(Seq<char>, HslColor)>::empty());
        r
    }

    fn duplicate(&self) -> (r: ChromaParser)
        requires
            self.wf(),
        ensures
            r.wf(),
            r.state() == self.state(),
    {
        let data = ChromaTriggersData {
            note_a: copy_vec(&self.data.note_a),
            note_b: copy_vec(&self.data.note_b),
            beat: copy_vec(&self.data.beat),
            spin_left: copy_vec(&self.data.spin_left),
            spin_right: copy_vec(&self.data.spin_right),
            scratch: copy_vec(&self.data.scratch),
            ancillary: copy_vec(&self.data.ancillary),
        };
        let mut vars: Vec<(Vec<char>, HslColor)> = Vec::new();
        let mut i: usize = 0;
        while i < self.vars.len()
            invariant
                i <= self.vars@.len(),
                vars_view(vars@) =~= vars_view(self.vars@.subrange(0, i as int)),
            decreases self.vars.len() - i,
        {
            let w = copy_word(&self.vars[i].0);
            let ghost before = vars@;
            vars.push((w, self.vars[i].1));
            assert(vars_view(vars@) =~= vars_view(before).push((self.vars@[i as int].0@, self.vars@[i as int].1)));
            assert(vars_view(self.vars@.subrange(0, i + 1)) =~= vars_view(self.vars@.subrange(0, i as int)).push((self.vars@[i as int].0@, self.vars@[i as int].1)));
            assert(vars_view(vars@) =~= vars_view(self.vars@.subrange(0, i + 1)));
            i = i + 1;
        }
        assert(self.vars@.subrange(0, i as int) =~= self.vars@);
        let r = ChromaParser { data, defaults: copy_vec(&self.defaults), vars };
        assert(r.state().lanes =~= self.state().lanes);
        r
    }

    fn var_color(&self, w: &Vec<char>) -> (r: Option<HslColor>)
        ensures
            r == var_lookup(self.state().vars, w@),
    {
        let ghost vs = self.state().vars;
        let mut i: usize = self.vars.len();
        assert(vs.subrange(0, i as int) =~= vs);
        while i > 0
            invariant
                i <= self.vars@.len(),
                vs == self.state().vars,
                vs.len() == self.vars@.len(),
                var_lookup(vs, w@) == var_lookup(vs.subrange(0, i as int), w@),
            decreases i,
        {
            let ghost pre = vs.subrange(0, i as int);
            assert(pre.last() == (self.vars@[i - 1].0@, self.vars@[i - 1].1));
            if same_word(&self.vars[i - 1].0, w) {
                return Some(self.vars[i - 1].1);
            }
            assert(pre.drop_last() =~= vs.subrange(0, i - 1));
            i = i - 1;
        }
        None
    }

    fn plain_color(&self, w: &Vec<char>) -> (r: Result<HslColor, ParsingError>)
        ensures
            agrees(r, plain_color(self.state(), w@)),
    {
        if w.len() > 0 && w[0] == '#' {
            let text = string_of(w);
            match HslColor::from_hex_rgb(text.as_str()) {
                Ok(c) => Ok(c),
                Err(e) => Err(ParsingError::ColorError(e)),
            }
        } else {
            match self.var_color(w) {
                Some(c) => Ok(c),
                None => Err(ParsingError::ColorVariableNotFound(string_of(w))),
            }
        }
    }

    fn default_of(&self, n: ChromaNoteType) -> (r: Result<HslColor, ParsingError>)
        requires
            self.wf(),
        ensures
            agrees(r, default_of(self.state(), n)),
    {
        match self.defaults[n.index()] {
            Some(c) => Ok(c),
            None => Err(ParsingError::NoDefaultColorForNote(n.to_shown_str().to_owned())),
        }
    }

    fn lane_color(&self, lane: ChromaNoteType, w: &Vec<char>) -> (r: Result<HslColor, ParsingError>)
        requires
            self.wf(),
        ensures
            agrees(r, lane_color(self.state(), lane, w@)),
    {
        if is_word(w, "default") {
            return self.default_of(lane);
        }
        match after_default(w) {
            Some(rest) => match ChromaNoteType::from_word(&rest) {
                None => Err(ParsingError::InvalidNote(string_of(&rest))),
                Some(n) => self.default_of(n),
            },
            None => self.plain_color(w),
        }
    }

    fn last_end(&self, n: ChromaNoteType) -> (r: Option<HslColor>)
        ensures
            r.is_some() == (self.state().lanes[lane_index(n)].len() > 0),
            r.is_some() ==> r.unwrap() == last_end(self.state(), n),
    {
        let lane = self.data.lane(n);
        if lane.len() == 0 {
            None
        } else {
            Some(lane[lane.len() - 1].end_color)
        }
    }

    fn add(&mut self, n: ChromaNoteType, t: ChromaTrigger)
        requires
            old(self).wf(),
        ensures
            final(self).wf(),
            final(self).state() == with_trigger(old(self).state(), n, t),
    {
        self.data.push(n, t);
    }
}

pub open spec fn off_ok(off: i128) -> bool {
    -0x1_0000_0000_0000_0000_0000_0000 < off < 0x1_0000_0000_0000_0000_0000_0000
}

pub open spec fn step_agrees(r: Result<(), ParsingError>, s: Result<ChromaState, ParseFault>, after: ChromaState) -> bool {
    match r {
        Ok(_) => s == Ok::<ChromaState, ParseFault>(after),
        Err(e) => s == Err::<ChromaState, ParseFault>(e@),
    }
}

impl ChromaParser {
    fn start_step(&mut self, ws: &Vec<Vec<char>>) -> (r: Result<(), ParsingError>)
        requires
            old(self).wf(),
        ensures
            final(self).wf(),
            step_agrees(r, start_step(old(self).state(), words_view(*ws)), final(self).state()),
    {
        let ghost wv = words_view(*ws);
        assert(forall|k: int| 0 <= k < ws@.len() ==> #[trigger] wv[k] == ws@[k]@);
        if ws.len() < 3 {
            return Err(ParsingError::MissingArguments);
        }
        let n = match note_word_exec(&ws[1]) {
            Ok(n) => n,
            Err(e) => {
                return Err(e);
            },
        };
        let c = match self.plain_color(&ws[2]) {
            Ok(c) => c,
            Err(e) => {
                return Err(e);
            },
        };
        self.add(n, ChromaTrigger { time: Decimal { units: 0 }, duration: Decimal { units: 0 }, start_color: c, end_color: c });
        self.defaults.set(n.index(), Some(c));
        proof {
            assert(trig(0, 0, c, c) == (ChromaTrigger { time: Decimal { units: 0 }, duration: Decimal { units: 0 }, start_color: c, end_color: c }));
        }
        Ok(())
    }

    fn set_step(&mut self, ws: &Vec<Vec<char>>) -> (r: Result<(), ParsingError>)
        requires
            old(self).wf(),
        ensures
            final(self).wf(),
            step_agrees(r, set_step(old(self).state(), words_view(*ws)), final(self).state()),
    {
        let ghost wv = words_view(*ws);
        assert(forall|k: int| 0 <= k < ws@.len() ==> #[trigger] wv[k] == ws@[k]@);
        if ws.len() < 3 {
            return Err(ParsingError::MissingArguments);
        }
        let name = string_of(&ws[1]);
        if is_bad_variable_name(name.as_str()) {
            return Err(ParsingError::InvalidColorVariableName(name));
        }
        let hex = string_of(&ws[2]);
        let c = match HslColor::from_hex_rgb(hex.as_str()) {
            Ok(c) => c,
            Err(e) => {
                return Err(ParsingError::ColorError(e));
            },
        };
        self.vars.push((copy_word(&ws[1]), c));
        proof {
            assert(self.state().vars =~= old(self).state().vars.push((wv[1], c)));
        }
        Ok(())
    }

    fn instant_step(&mut self, ws: &Vec<Vec<char>>, off: i128) -> (r: Result<(), ParsingError>)
        requires
            old(self).wf(),
            off_ok(off),
        ensures
            final(self).wf(),
            step_agrees(r, instant_step(old(self).state(), words_view(*ws), off as int), final(self).state()),
    {
        let ghost wv = words_view(*ws);
        assert(forall|k: int| 0 <= k < ws@.len() ==> #[trigger] wv[k] == ws@[k]@);
        if ws.len() < 4 {
            return Err(ParsingError::MissingArguments);
        }
        let n = match note_word_exec(&ws[1]) {
            Ok(n) => n,
            Err(e) => {
                return Err(e);
            },
        };
        let t = match time_at_exec(&ws[2], off) {
            Ok(t) => t,
            Err(e) => {
                return Err(e);
            },
        };
        let c = match self.lane_color(n, &ws[3]) {
            Ok(c) => c,
            Err(e) => {
                return Err(e);
            },
        };
        self.add(n, ChromaTrigger { time: t, duration: Decimal { units: 0 }, start_color: c, end_color: c });
        Ok(())
    }

    fn swap_instant_step(&mut self, ws: &Vec<Vec<char>>, off: i128) -> (r: Result<(), ParsingError>)
        requires
            old(self).wf(),
            off_ok(off),
        ensures
            final(self).wf(),
            step_agrees(r, swap_instant_step(old(self).state(), words_view(*ws), off as int), final(self).state()),
    {
        let ghost wv = words_view(*ws);
        assert(forall|k: int| 0 <= k < ws@.len() ==> #[trigger] wv[k] == ws@[k]@);
        if ws.len() < 5 {
            return Err(ParsingError::MissingArguments);
        }
        let t = match time_at_exec(&ws[2], off) {
            Ok(t) => t,
            Err(e) => {
                return Err(e);
            },
        };
        let a = match note_word_exec(&ws[3]) {
            Ok(n) => n,
            Err(e) => {
                return Err(e);
            },
        };
        let b = match note_word_exec(&ws[4]) {
            Ok(n) => n,
            Err(e) => {
                return Err(e);
            },
        };
        let ca = self.last_end(a);
        let cb = self.last_end(b);
        if ca.is_none() {
            return Err(ParsingError::NoTriggerForNote(a.to_shown_str().to_owned()));
        }
        if cb.is_none() {
            return Err(ParsingError::NoTriggerForNote(b.to_shown_str().to_owned()));
        }
        let ca = ca.unwrap();
        let cb = cb.unwrap();
        self.add(a, ChromaTrigger { time: t, duration: Decimal { units: 0 }, start_color: cb, end_color: cb });
        self.add(b, ChromaTrigger { time: t, duration: Decimal { units: 0 }, start_color: ca, end_color: ca });
        Ok(())
    }

    fn swap_flash_step(&mut self, ws: &Vec<Vec<char>>, off: i128) -> (r: Result<(), ParsingError>)
        requires
            old(self).wf(),
            off_ok(off),
        ensures
            final(self).wf(),
            step_agrees(r, swap_flash_step(old(self).state(), words_view(*ws), off as int), final(self).state()),
    {
        let ghost wv = words_view(*ws);
        assert(forall|k: int| 0 <= k < ws@.len() ==> #[trigger] wv[k] == ws@[k]@);
        if ws.len() < 7 {
            return Err(ParsingError::MissingArguments);
        }
        let s = match time_at_exec(&ws[2], off) {
            Ok(t) => t,
            Err(e) => {
                return Err(e);
            },
        };
        let e = match time_at_exec(&ws[3], off) {
            Ok(t) => t,
            Err(e) => {
                return Err(e);
            },
        };
        let a = match note_word_exec(&ws[4]) {
            Ok(n) => n,
            Err(e) => {
                return Err(e);
            },
        };
        let b = match note_word_exec(&ws[5]) {
            Ok(n) => n,
            Err(e) => {
                return Err(e);
            },
        };
        let c = match self.plain_color(&ws[6]) {
            Ok(c) => c,
            Err(e) => {
                return Err(e);
            },
        };
        let ca = self.last_end(a);
        let cb = self.last_end(b);
        if ca.is_none() {
            return Err(ParsingError::NoTriggerForNote(a.to_shown_str().to_owned()));
        }
        if cb.is_none() {
            return Err(ParsingError::NoTriggerForNote(b.to_shown_str().to_owned()));
        }
        let ca = ca.unwrap();
        let cb = cb.unwrap();
        let d = match e.units.checked_sub(s.units) {
            Some(d) => d,
            None => {
                return Err(ParsingError::InvalidFloat(string_of(&ws[3])));
            },
        };
        self.add(a, ChromaTrigger { time: s, duration: Decimal { units: d }, start_color: c, end_color: cb });
        self.add(b, ChromaTrigger { time: s, duration: Decimal { units: d }, start_color: c, end_color: ca });
        Ok(())
    }

    fn ranged_step(&mut self, ws: &Vec<Vec<char>>, off: i128) -> (r: Result<(), ParsingError>)
        requires
            old(self).wf(),
            off_ok(off),
            ws@.len() > 0,
        ensures
            final(self).wf(),
            step_agrees(r, ranged_step(old(self).state(), words_view(*ws), off as int), final(self).state()),
    {
        let ghost wv = words_view(*ws);
        assert(forall|k: int| 0 <= k < ws@.len() ==> #[trigger] wv[k] == ws@[k]@);
        let n = match ChromaNoteType::from_word(&ws[0]) {
            Some(n) => n,
            None => {
                return Err(ParsingError::UnrecognizedCommand(string_of(&ws[0])));
            },
        };
        if ws.len() < 5 {
            return Err(ParsingError::MissingArguments);
        }
        let s = match time_at_exec(&ws[1], off) {
            Ok(t) => t,
            Err(e) => {
                return Err(e);
            },
        };
        let e = match time_at_exec(&ws[2], off) {
            Ok(t) => t,
            Err(e) => {
                return Err(e);
            },
        };
        let a = match self.lane_color(n, &ws[3]) {
            Ok(c) => c,
            Err(e) => {
                return Err(e);
            },
        };
        let b = match self.lane_color(n, &ws[4]) {
            Ok(c) => c,
            Err(e) => {
                return Err(e);
            },
        };
        let d = match e.units.checked_sub(s.units) {
            Some(d) => d,
            None => {
                return Err(ParsingError::InvalidFloat(string_of(&ws[2])));
            },
        };
        let mut t = ChromaTrigger { time: s, duration: Decimal { units: d }, start_color: a, end_color: b };
        t.ensure_smooth_transition();
        self.add(n, t);
        Ok(())
    }

    /// Carries out a line that is neither blank nor a repeat marker.
    fn step(&mut self, ws: &Vec<Vec<char>>, off: i128) -> (r: Result<(), ParsingError>)
        requires
            old(self).wf(),
            off_ok(off),
            ws@.len() > 0,
        ensures
            final(self).wf(),
            step_agrees(r, chroma_step(old(self).state(), words_view(*ws), off as int), final(self).state()),
    {
        let ghost wv = words_view(*ws);
        assert(forall|k: int| 0 <= k < ws@.len() ==> #[trigger] wv[k] == ws@[k]@);
        reveal(chroma_step);
        if is_word(&ws[0], "start") {
            self.start_step(ws)
        } else if is_word(&ws[0], "set") {
            self.set_step(ws)
        } else if is_word(&ws[0], "instant") {
            self.instant_step(ws, off)
        } else if is_word(&ws[0], "swap") {
            if ws.len() < 2 {
                Err(ParsingError::MissingArguments)
            } else if is_word(&ws[1], "instant") {
                self.swap_instant_step(ws, off)
            } else if is_word(&ws[1], "flash") {
                self.swap_flash_step(ws, off)
            } else {
                Err(ParsingError::UnrecognizedCommand(string_of(&ws[1])))
            }
        } else {
            self.ranged_step(ws, off)
        }
    }
}

/// A `Repeat <count> interval <interval>` line: its count and interval, or
/// what is wrong with it; `nested` when a repeat is already open.
pub open spec fn repeat_header(ws: Seq<Seq<char>>, nested: bool) -> Result<(i32, Decimal), ParseFault> {
    if ws.len() < 4 {
        Err(ParseFault::MissingArguments)
    } else if ws[2] != "interval"@ {
        Err(ParseFault::InvalidRepeatCommand)
    } else if nested {
        Err(ParseFault::NoNestedRepeats)
    } else if int_value(ws[1]) is None {
        Err(ParseFault::InvalidInt(ws[1]))
    } else if decimal_units(ws[3]) is None {
        Err(ParseFault::InvalidFloat(ws[3]))
    } else {
        Ok((int_value(ws[1]).unwrap() as i32, Decimal { units: decimal_units(ws[3]).unwrap() as i64 }))
    }
}

/// Carries out the lines from `i` of a repeat's body, with times moved on by
/// `off`, up to the `EndRepeat` that closes it. Gives the state and the line
/// of that `EndRepeat` (the number of lines if there is none).
pub open spec fn run_body(ls: Seq<Seq<Seq<char>>>, i: int, st: ChromaState, off: int) -> Result<(ChromaState, int), (int, ParseFault)>
    decreases ls.len() - i,
{
    if i < 0 || i >= ls.len() {
        Ok((st, ls.len() as int))
    } else if is_blank_or_comment(ls[i]) {
        run_body(ls, i + 1, st, off)
    } else if ls[i][0] == "endrepeat"@ {
        Ok((st, i))
    } else if ls[i][0] == "repeat"@ {
        match repeat_header(ls[i], true) {
            Err(e) => Err((i, e)),
            Ok(_) => Err((i, ParseFault::NoNestedRepeats)),
        }
    } else {
        match chroma_step(st, ls[i], off) {
            Err(e) => Err((i, e)),
            Ok(st1) => run_body(ls, i + 1, st1, off),
        }
    }
}

/// Passes `k` to `n - 1` over a repeat's body that starts at line `b`.
pub open spec fn run_passes(ls: Seq<Seq<Seq<char>>>, b: int, st: ChromaState, k: nat, n: nat, interval: int) -> Result<ChromaState, (int, ParseFault)>
    decreases n - k,
{
    if k >= n {
        Ok(st)
    } else {
        match run_body(ls, b, st, k * interval) {
            Err(e) => Err(e),
            Ok((st1, _)) => run_passes(ls, b, st1, k + 1, n, interval),
        }
    }
}

/// Carries out the lines from `i` on. A repeat's body is carried out once
/// to find its end and check it; with a count below 1 what it did is then
/// dropped, and otherwise the remaining passes follow.
pub open spec fn run_top(ls: Seq<Seq<Seq<char>>>, i: int, st: ChromaState) -> Result<ChromaState, (int, ParseFault)>
    decreases ls.len() - i,
{
    if i < 0 || i >= ls.len() {
        Ok(st)
    } else if is_blank_or_comment(ls[i]) {
        run_top(ls, i + 1, st)
    } else if ls[i][0] == "endrepeat"@ {
        Err((i, ParseFault::UnexpectedEndRepeat))
    } else if ls[i][0] == "repeat"@ {
        match repeat_header(ls[i], false) {
            Err(e) => Err((i, e)),
            Ok((count, interval)) => match run_body(ls, i + 1, st, 0) {
                Err(e) => Err(e),
                Ok((st1, e)) => if e <= i || e >= ls.len() {
                    Err((i, ParseFault::UnclosedRepeat))
                } else if count < 1 {
                    run_top(ls, e + 1, st)
                } else {
                    match run_passes(ls, i + 1, st1, 1, passes(count), interval.units as int) {
                        Err(x) => Err(x),
                        Ok(st2) => run_top(ls, e + 1, st2),
                    }
                },
            },
        }
    } else {
        match chroma_step(st, ls[i], 0) {
            Err(e) => Err((i, e)),
            Ok(st1) => run_top(ls, i + 1, st1),
        }
    }
}

/// The lanes that a chroma text describes, each in ascending order of time,
/// or the first line that is wrong and why.
pub open spec fn chroma_of(text: Seq<char>) -> Result<Seq<Seq<ChromaTrigger>>, (int, ParseFault)> {
    match run_top(line_words(text), 0, initial_state()) {
        Ok(st) => Ok(st.lanes.map_values(|l: Seq<ChromaTrigger>| sorted_by_time(l))),
        Err(e) => Err(e),
    }
}

fn read_repeat_header(ws: &Vec<Vec<char>>, nested: bool) -> (r: Result<(i32, Decimal), ParsingError>)
    ensures
        agrees(r, repeat_header(words_view(*ws), nested)),
{
    let ghost wv = words_view(*ws);
    assert(forall|k: int| 0 <= k < ws@.len() ==> #[trigger] wv[k] == ws@[k]@);
    if ws.len() < 4 {
        return Err(ParsingError::MissingArguments);
    }
    if !is_word(&ws[2], "interval") {
        return Err(ParsingError::InvalidRepeatCommand);
    }
    if nested {
        return Err(ParsingError::NoNestedRepeats);
    }
    let count = match parse_int(&ws[1]) {
        Some(c) => c,
        None => {
            return Err(ParsingError::InvalidInt(string_of(&ws[1])));
        },
    };
    let interval = match Decimal::parse(&ws[3]) {
        Some(d) => d,
        None => {
            return Err(ParsingError::InvalidFloat(string_of(&ws[3])));
        },
    };
    Ok((count, interval))
}

fn is_blank_or_comment_exec(ws: &Vec<Vec<char>>) -> (r: bool)
    ensures
        r == is_blank_or_comment(words_view(*ws)),
{
    let ghost wv = words_view(*ws);
    assert(forall|k: int| 0 <= k < ws@.len() ==> #[trigger] wv[k] == ws@[k]@);
    ws.len() == 0 || (ws[0].len() > 0 && ws[0][0] == '#')
}

impl ChromaParser {
    fn run_body(&mut self, ls: &Vec<Vec<Vec<char>>>, start: usize, off: i128) -> (r: Result<usize, (usize, ParsingError)>)
        requires
            old(self).wf(),
            off_ok(off),
            start <= ls.len(),
        ensures
            final(self).wf(),
            match r {
                Ok(e) => run_body(lines_view(ls@), start as int, old(self).state(), off as int) == Ok::<(ChromaState, int), (int, ParseFault)>((final(self).state(), e as int)) && start <= e <= ls.len(),
                Err((n, f)) => run_body(lines_view(ls@), start as int, old(self).state(), off as int) == Err::<(ChromaState, int), (int, ParseFault)>((n as int, f@)),
            },
    {
        let ghost lv = lines_view(ls@);
        let ghost goal = run_body(lv, start as int, self.state(), off as int);
        let mut i: usize = start;
        while i < ls.len()
            invariant
                start <= i <= ls.len(),
                self.wf(),
                off_ok(off),
                lv == lines_view(ls@),
                goal == run_body(lv, i as int, self.state(), off as int),
                goal == run_body(lines_view(ls@), start as int, old(self).state(), off as int),
            decreases ls.len() - i,
        {
            assert(lv[i as int] == words_view(ls@[i as int]));
            let ws = &ls[i];
            if is_blank_or_comment_exec(ws) {
                i = i + 1;
            } else {
                assert(ws@[0]@ == lv[i as int][0]);
                if is_word(&ws[0], "endrepeat") {
                    return Ok(i);
                } else if is_word(&ws[0], "repeat") {
                    match read_repeat_header(ws, true) {
                        Err(e) => {
                            return Err((i, e));
                        },
                        Ok(_) => {
                            return Err((i, ParsingError::NoNestedRepeats));
                        },
                    }
                } else {
                    match self.step(ws, off) {
                        Err(e) => {
                            return Err((i, e));
                        },
                        Ok(_) => {
                            i = i + 1;
                        },
                    }
                }
            }
        }
        Ok(i)
    }

    fn run_top(&mut self, ls: &Vec<Vec<Vec<char>>>) -> (r: Result<(), (usize, ParsingError)>)
        requires
            old(self).wf(),
        ensures
            final(self).wf(),
            match r {
                Ok(_) => run_top(lines_view(ls@), 0, old(self).state()) == Ok::<ChromaState, (int, ParseFault)>(final(self).state()),
                Err((n, f)) => run_top(lines_view(ls@), 0, old(self).state()) == Err::<ChromaState, (int, ParseFault)>((n as int, f@)),
            },
    {
        let ghost lv = lines_view(ls@);
        let ghost goal = run_top(lv, 0, self.state());
        let mut i: usize = 0;
        while i < ls.len()
            invariant
                i <= ls.len(),
                self.wf(),
                lv == lines_view(ls@),
                goal == run_top(lv, i as int, self.state()),
                goal == run_top(lines_view(ls@), 0, old(self).state()),
            decreases ls.len() - i,
        {
            assert(lv[i as int] == words_view(ls@[i as int]));
            let ws = &ls[i];
            if is_blank_or_comment_exec(ws) {
                i = i + 1;
            } else {
                assert(ws@[0]@ == lv[i as int][0]);
                if is_word(&ws[0], "endrepeat") {
                    return Err((i, ParsingError::UnexpectedEndRepeat));
                } else if is_word(&ws[0], "repeat") {
                    let (count, interval) = match read_repeat_header(ws, false) {
                        Err(e) => {
                            return Err((i, e));
                        },
                        Ok(h) => h,
                    };
                    let ghost st_i = self.state();
                    let end = if count < 1 {
                        let mut scratch = self.duplicate();
                        match scratch.run_body(ls, i + 1, 0) {
                            Err(e) => {
                                return Err(e);
                            },
                            Ok(e) => e,
                        }
                    } else {
                        match self.run_body(ls, i + 1, 0) {
                            Err(e) => {
                                return Err(e);
                            },
                            Ok(e) => e,
                        }
                    };
                    if end >= ls.len() {
                        return Err((i, ParsingError::UnclosedRepeat));
                    }
                    if count >= 1 {
                        let n: i32 = count;
                        let mut k: i32 = 1;
                        let ghost pgoal = run_passes(lv, i + 1, self.state(), 1, passes(count), interval.units as int);
                        assert(goal == match pgoal {
                            Err(x) => Err(x),
                            Ok(st2) => run_top(lv, end + 1, st2),
                        });
                        while k < n
                            invariant
                                1 <= k <= n,
                                n as nat == passes(count),
                                i + 1 <= ls.len(),
                                self.wf(),
                                lv == lines_view(ls@),
                                pgoal == run_passes(lv, i + 1, self.state(), k as nat, passes(count), interval.units as int),
                                goal == run_top(lines_view(ls@), 0, old(self).state()),
                                end < ls.len(),
                                goal == match pgoal {
                                    Err(x) => Err(x),
                                    Ok(st2) => run_top(lv, end + 1, st2),
                                },
                            decreases n - k,
                        {
                            proof {
                                let a = k as int;
                                let b = interval.units as int;
                                assert(-0x8000_0000_0000_0000_0000_0000 <= a * b <= 0x8000_0000_0000_0000_0000_0000) by (nonlinear_arith)
                                    requires
                                        0 <= a < 0x8000_0000,
                                        -0x8000_0000_0000_0000 <= b < 0x8000_0000_0000_0000,
                                ;
                            }
                            let off: i128 = (k as i128) * (interval.units as i128);
                            match self.run_body(ls, i + 1, off) {
                                Err(e) => {
                                    return Err(e);
                                },
                                Ok(_) => {},
                            }
                            k = k + 1;
                        }
                    }
                    i = end + 1;
                } else {
                    match self.step(ws, 0) {
                        Err(e) => {
                            return Err((i, e));
                        },
                        Ok(_) => {
                            i = i + 1;
                        },
                    }
                }
            }
        }
        Ok(())
    }
}

/// Reads chroma text (see the directives of `chroma_step` and the repeats
/// of `run_top`); each lane comes out in ascending order of time.
pub fn text_to_chroma(content: &str) -> (r: Result<ChromaTriggersData, IntegrationError>)
    ensures
        match r {
            Ok(d) => chroma_of(content@) == Ok::<Seq<Seq<ChromaTrigger>>, (int, ParseFault)>(d.lanes()),
            Err(IntegrationError::ParsingError(n, e)) => chroma_of(content@) == Err::<Seq<Seq<ChromaTrigger>>, (int, ParseFault)>((n as int, e@)),
            Err(_) => false,
        },
{
    let chars = chars_of(content);
    let ls = split_line_words(&chars);
    assert(lines_view(ls@) =~= line_words(content@));
    let mut p = ChromaParser::new();
    match p.run_top(&ls) {
        Err((n, e)) => Err(IntegrationError::ParsingError(n, e)),
        Ok(_) => {
            let d = &p.data;
            let r = ChromaTriggersData {
                note_a: sort_by_time(&d.note_a),
                note_b: sort_by_time(&d.note_b),
                beat: sort_by_time(&d.beat),
                spin_left: sort_by_time(&d.spin_left),
                spin_right: sort_by_time(&d.spin_right),
                scratch: sort_by_time(&d.scratch),
                ancillary: sort_by_time(&d.ancillary),
            };
            assert(r.lanes() =~= p.state().lanes.map_values(|l: Seq<ChromaTrigger>| sorted_by_time(l)));
            Ok(r)
        },
    }
}

/// A chroma trigger with its lane.
#[derive(Debug, Clone, Copy, PartialEq, Eq, Structural)]
pub struct LaneTrigger {
    pub lane: ChromaNoteType,
    pub trigger: ChromaTrigger,
}

impl Timed for LaneTrigger {
    open spec fn time_spec(&self) -> int {
        self.trigger.time.units as int
    }

    fn time(&self) -> (r: i64) {
        self.trigger.time.units
    }
}

pub open spec fn tag(n: ChromaNoteType, lane: Seq<ChromaTrigger>) -> Seq<LaneTrigger> {
    lane.map_values(|t: ChromaTrigger| LaneTrigger { lane: n, trigger: t })
}

/// The triggers of the first `k` lanes, lane after lane, each with its lane.
pub open spec fn tagged(lanes: Seq<Seq<ChromaTrigger>>, k: nat) -> Seq<LaneTrigger>
    decreases k,
{
    if k == 0 {
        seq![]
    } else {
        tagged(lanes, (k - 1) as nat) + tag(lane_at(k - 1), lanes[k - 1])
    }
}

/// One line of chroma text for a trigger: `Start` for one at time 0 that
/// takes no time, `Instant` for another that takes no time, and the lane's
/// own line `<lane> <start> <end> <startColor> <endColor>` for the rest.
pub open spec fn chroma_line_text(x: LaneTrigger) -> Seq<char> {
    let t = x.trigger;
    let name = chroma_name(x.lane);
    if t.time.units == 0 && t.duration.units == 0 {
        "Start "@ + name + " "@ + hex_text(t.start_color.base) + "\n"@
    } else if t.duration.units == 0 {
        "Instant "@ + name + " "@ + decimal_text(t.time.units as int, true) + " "@ + hex_text(t.end_color.base) + "\n"@
    } else {
        name + " "@ + decimal_text(t.time.units as int, true) + " "@ + decimal_text(t.time.units + t.duration.units, true) + " "@
            + hex_text(t.start_color.base) + " "@ + hex_text(t.end_color.base) + "\n"@
    }
}

pub open spec fn chroma_text(s: Seq<LaneTrigger>) -> Seq<char>
    decreases s.len(),
{
    if s.len() == 0 {
        seq![]
    } else {
        chroma_text(s.drop_last()) + chroma_line_text(s.last())
    }
}

fn tag_lane(out: &mut Vec<LaneTrigger>, lane: &Vec<ChromaTrigger>, n: ChromaNoteType)
    ensures
        final(out)@ == old(out)@ + tag(n, lane@),
{
    let mut i: usize = 0;
    while i < lane.len()
        invariant
            i <= lane.len(),
            out@ == old(out)@ + tag(n, lane@.subrange(0, i as int)),
        decreases lane.len() - i,
    {
        out.push(LaneTrigger { lane: n, trigger: lane[i] });
        assert(out@ =~= old(out)@ + tag(n, lane@.subrange(0, i + 1)));
        i = i + 1;
    }
    assert(lane@.subrange(0, i as int) =~= lane@);
}

fn line_text(x: LaneTrigger) -> (r: String)
    ensures
        r@ == chroma_line_text(x),
{
    let t = x.trigger;
    let name = x.lane.to_str_chroma();
    let mut s = String::new();
    if t.time.units == 0 && t.duration.units == 0 {
        s.append("Start ");
        s.append(name);
        s.append(" ");
        s.append(t.start_color.base.hex().as_str());
    } else if t.duration.units == 0 {
        s.append("Instant ");
        s.append(name);
        s.append(" ");
        s.append(t.time.to_text(true).as_str());
        s.append(" ");
        s.append(t.end_color.base.hex().as_str());
    } else {
        s.append(name);
        s.append(" ");
        s.append(t.time.to_text(true).as_str());
        s.append(" ");
        s.append(units_text((t.time.units as i128) + (t.duration.units as i128), true).as_str());
        s.append(" ");
        s.append(t.start_color.base.hex().as_str());
        s.append(" ");
        s.append(t.end_color.base.hex().as_str());
    }
    s.append("\n");
    s
}

/// Writes chroma text: the triggers of all lanes in ascending order of time
/// (lane by lane for equal times), one line each.
pub fn chroma_to_text(data: &ChromaTriggersData) -> (r: String)
    ensures
        r@ == chroma_text(sorted_by_time(tagged(data.lanes(), 7))),
{
    let mut all: Vec<LaneTrigger> = Vec::new();
    tag_lane(&mut all, &data.note_a, ChromaNoteType::NoteA);
    tag_lane(&mut all, &data.note_b, ChromaNoteType::NoteB);
    tag_lane(&mut all, &data.beat, ChromaNoteType::Beat);
    tag_lane(&mut all, &data.spin_left, ChromaNoteType::SpinLeft);
    tag_lane(&mut all, &data.spin_right, ChromaNoteType::SpinRight);
    tag_lane(&mut all, &data.scratch, ChromaNoteType::Scratch);
    tag_lane(&mut all, &data.ancillary, ChromaNoteType::Ancillary);
    proof {
        reveal_with_fuel(tagged, 8);
        assert(all@ =~= tagged(data.lanes(), 7));
    }
    let sorted = sort_by_time(&all);
    let mut out = String::new();
    let mut k: usize = 0;
    while k < sorted.len()
        invariant
            k <= sorted.len(),
            out@ == chroma_text(sorted@.subrange(0, k as int)),
        decreases sorted.len() - k,
    {
        let line = line_text(sorted[k]);
        out.append(line.as_str());
        proof {
            let p = sorted@.subrange(0, k + 1);
            assert(p.drop_last() =~= sorted@.subrange(0, k as int));
        }
        k = k + 1;
    }
    assert(sorted@.subrange(0, k as int) =~= sorted@);
    out
}

/// The container key of the chroma triggers of a difficulty.
pub fn make_key(diff: SpinDifficulty) -> (r: String)
    ensures
        r@ == key_for(CHROMA_KEY@, diff),
{
    keyed(CHROMA_KEY, diff)
}

/// Stores chroma triggers in charts, and takes them out again.
pub struct ChromaIntegrator;

impl ChromaIntegrator {
    /// The extension of chroma text files.
    pub fn file_extension(&self) -> (r: String)
        ensures
            r@ == "chroma"@,
    {
        "chroma".to_owned()
    }

    /// Stores the JSON text of a difficulty's chroma triggers under its key,
    /// replacing what was there.
    pub fn store_value(&self, chart: &mut RawSrtbFile, value: &str, diff: SpinDifficulty)
        ensures
            final(chart).entries() == upsert(old(chart).entries(), key_for(CHROMA_KEY@, diff), value@),
            final(chart).same_but_strings(old(chart)),
    {
        let key = make_key(diff);
        chart.set_large_string_value(key.as_str(), value);
    }

    /// The JSON text stored under the key of `diff`; `MissingData` if there is none.
    pub fn stored_value(&self, chart: &RawSrtbFile, diff: SpinDifficulty) -> (r: Result<String, IntegrationError>)
        ensures
            match lookup(chart.entries(), key_for(CHROMA_KEY@, diff)) {
                Some(v) => r is Ok && r.unwrap()@ == v,
                None => r matches Err(IntegrationError::MissingData),
            },
    {
        let key = make_key(diff);
        match chart.get_large_string_value(key.as_str()) {
            Some(v) => Ok(v),
            None => Err(IntegrationError::MissingData),
        }
    }

    /// Deletes the entry under the key of `diff`, if there is one.
    pub fn remove(&self, chart: &mut RawSrtbFile, diff: SpinDifficulty) -> (r: Result<(), IntegrationError>)
        ensures
            r is Ok,
            final(chart).entries() == without(old(chart).entries(), key_for(CHROMA_KEY@, diff)),
            final(chart).same_but_strings(old(chart)),
    {
        let key = make_key(diff);
        chart.remove_large_string_value(key.as_str());
        Ok(())
    }
}

/// A swap with a lane that holds no trigger yet fails with `NoTriggerForNote`
/// for that lane, whether it is `Swap Instant` or `Swap Flash`.
pub proof fn lemma_swap_needs_triggers(st: ChromaState, ws: Seq<Seq<char>>, off: int, a: ChromaNoteType, b: ChromaNoteType)
    requires
        ws.len() >= 2,
        ws[0] == "swap"@,
        st.lanes[lane_index(a)].len() == 0 || st.lanes[lane_index(b)].len() == 0,
        ws[1] == "instant"@ ==> ws.len() >= 5 && time_at(ws[2], off) is Ok && note_named(ws[3]) == Some(a) && note_named(ws[4]) == Some(b),
        ws[1] == "flash"@ ==> ws.len() >= 7 && time_at(ws[2], off) is Ok && time_at(ws[3], off) is Ok && note_named(ws[4]) == Some(a)
            && note_named(ws[5]) == Some(b) && plain_color(st, ws[6]) is Ok,
        ws[1] == "instant"@ || ws[1] == "flash"@,
    ensures
        chroma_step(st, ws, off) == Err::<ChromaState, ParseFault>(ParseFault::NoTriggerForNote(empty_lane_name(st, a, b))),
{
    reveal(chroma_step);
    reveal_strlit("swap");
    reveal_strlit("start");
    reveal_strlit("set");
    reveal_strlit("instant");
    reveal_strlit("flash");
    assert("swap"@[1] != "start"@[1]);
    assert(ws[0] != "start"@);
    assert("swap"@.len() != "set"@.len());
    assert(ws[0] != "set"@);
    assert(ws[0] != "instant"@);
    if ws[1] == "instant"@ {
        assert(ws[1] != "flash"@);
    }
}

/// Every lane read from any chroma text is in ascending order of time.
pub proof fn lemma_chroma_lanes_ascending(text: Seq<char>)
    ensures
        match chroma_of(text) {
            Ok(ls) => forall|i: int| 0 <= i < ls.len() ==> is_time_ascending(#[trigger] ls[i]),
            Err(_) => true,
        },
{
    match run_top(line_words(text), 0, initial_state()) {
        Ok(st) => {
            let ls = st.lanes.map_values(|l: Seq<ChromaTrigger>| sorted_by_time(l));
            assert forall|i: int| 0 <= i < ls.len() implies is_time_ascending(#[trigger] ls[i]) by {
                lemma_sorted_by_time(st.lanes[i]);
            }
        },
        Err(_) => {},
    }
}

/// The lane that a failing swap names: the first of the two that holds no trigger.
pub open spec fn empty_lane_name(st: ChromaState, a: ChromaNoteType, b: ChromaNoteType) -> Seq<char> {
    if st.lanes[lane_index(a)].len() == 0 {
        shown_name(a)
    } else {
        shown_name(b)
    }
}

/// A well-formed `Swap Instant` or `Swap Flash` line (outside a repeat) with
/// lanes `a` and `b`.
pub open spec fn is_swap_line(st: ChromaState, ws: Seq<Seq<char>>, a: ChromaNoteType, b: ChromaNoteType) -> bool {
    &&& ws.len() >= 2
    &&& ws[0] == "swap"@
    &&& ws[1] == "instant"@ || ws[1] == "flash"@
    &&& ws[1] == "instant"@ ==> ws.len() >= 5 && time_at(ws[2], 0) is Ok && note_named(ws[3]) == Some(a) && note_named(ws[4]) == Some(b)
    &&& ws[1] == "flash"@ ==> ws.len() >= 7 && time_at(ws[2], 0) is Ok && time_at(ws[3], 0) is Ok
        && note_named(ws[4]) == Some(a) && note_named(ws[5]) == Some(b) && plain_color(st, ws[6]) is Ok
}

/// Reading a text on from line `i` in state `st`: if line `i` swaps a lane
/// that holds no trigger in `st`, the whole read fails there with
/// `NoTriggerForNote`, and no triggers come out.
pub proof fn lemma_swap_fails_in_text(ls: Seq<Seq<Seq<char>>>, i: int, st: ChromaState, a: ChromaNoteType, b: ChromaNoteType)
    requires
        0 <= i < ls.len(),
        is_swap_line(st, ls[i], a, b),
        st.lanes[lane_index(a)].len() == 0 || st.lanes[lane_index(b)].len() == 0,
    ensures
        run_top(ls, i, st) == Err::<ChromaState, (int, ParseFault)>((i, ParseFault::NoTriggerForNote(empty_lane_name(st, a, b)))),
{
    reveal_strlit("swap");
    reveal_strlit("repeat");
    reveal_strlit("endrepeat");
    let ws = ls[i];
    assert(ws[0][0] == 's');
    assert(!is_blank_or_comment(ws));
    assert("swap"@[0] != "repeat"@[0]);
    assert(ws[0] != "repeat"@);
    assert("swap"@[0] != "endrepeat"@[0]);
    assert(ws[0] != "endrepeat"@);
    lemma_swap_needs_triggers(st, ws, 0, a, b);
}

proof fn lemma_blank_prefix(ls: Seq<Seq<Seq<char>>>, j: int, i: int, st: ChromaState)
    requires
        0 <= j <= i <= ls.len(),
        forall|k: int| j <= k < i ==> is_blank_or_comment(#[trigger] ls[k]),
    ensures
        run_top(ls, j, st) == run_top(ls, i, st),
    decreases i - j,
{
    if j < i {
        lemma_blank_prefix(ls, j + 1, i, st);
    }
}

/// A chroma text whose first line with a command swaps two lanes fails on
/// that line with `NoTriggerForNote`, since no lane holds a trigger yet.
pub proof fn lemma_swap_before_any_trigger(text: Seq<char>, i: int, a: ChromaNoteType, b: ChromaNoteType)
    requires
        0 <= i < line_words(text).len(),
        forall|k: int| 0 <= k < i ==> is_blank_or_comment(#[trigger] line_words(text)[k]),
        is_swap_line(initial_state(), line_words(text)[i], a, b),
    ensures
        chroma_of(text) == Err::<Seq<Seq<ChromaTrigger>>, (int, ParseFault)>((i, ParseFault::NoTriggerForNote(shown_name(a)))),
{
    let ls = line_words(text);
    let st = initial_state();
    assert(st.lanes[lane_index(a)].len() == 0);
    lemma_blank_prefix(ls, 0, i, st);
    lemma_swap_fails_in_text(ls, i, st, a, b);
}

} // verus!
