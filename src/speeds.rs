use vstd::prelude::*;
use crate::difficulty::{keyed, key_for, SpinDifficulty, SPEEDS_KEY};
use crate::error::{IntegrationError, ParseFault, ParsingError};
use crate::number::{bool_value, decimal_text, decimal_units, is_number_char, lemma_decimal_round_trip, lemma_decimal_text_chars, int_value, in_i64, is_word, parse_bool, parse_int, Decimal};
use crate::sort::{is_time_ascending, lemma_sorted_by_time, sort_by_time, sorted_by_time, Timed};
use crate::srtb::{lookup, upsert, without, RawSrtbFile};
use crate::text::{chars_of, is_blank_or_comment, is_space, lines_view, words_view, lemma_lines_cons, lemma_lower_same, lemma_words_cons, lemma_words_single, line_words, lines, lower_seq, split_line_words, string_of, words};

verus! {

/// A change of track speed at a point in time.
#[derive(Debug, Clone, Copy, PartialEq, Eq, Structural)]
pub struct SpeedTrigger {
    pub time: Decimal,
    pub speed_multiplier: Decimal,
    /// Whether the speed moves gradually towards the next trigger's.
    pub interpolate: bool,
}

impl Timed for SpeedTrigger {
    open spec fn time_spec(&self) -> int {
        self.time.units as int
    }

    fn time(&self) -> (r: i64) {
        self.time.units
    }
}

/// The speed triggers of one chart difficulty.
#[derive(Debug, Clone)]
pub struct SpeedTriggersData {
    pub triggers: Vec<SpeedTrigger>,
}

/// What one line of speed text says.
#[derive(Debug, Clone, Copy, PartialEq, Eq)]
pub enum SpeedLine {
    /// Blank, or a comment.
    Skip,
    /// `Repeat <count> interval <interval>`.
    Repeat(i32, Decimal),
    EndRepeat,
    Trigger(SpeedTrigger),
}

/// What the words of one (case-folded) line of speed text say.
pub open spec fn speed_line(ws: Seq<Seq<char>>) -> Result<SpeedLine, ParseFault> {
    if is_blank_or_comment(ws) {
        Ok(SpeedLine::Skip)
    } else if ws[0] == "repeat"@ {
        if ws.len() < 4 {
            Err(ParseFault::MissingArguments)
        } else if ws[2] != "interval"@ {
            Err(ParseFault::InvalidRepeatCommand)
        } else if int_value(ws[1]) is None {
            Err(ParseFault::InvalidInt(ws[1]))
        } else if decimal_units(ws[3]) is None {
            Err(ParseFault::InvalidFloat(ws[3]))
        } else {
            Ok(SpeedLine::Repeat(int_value(ws[1]).unwrap() as i32, Decimal { units: decimal_units(ws[3]).unwrap() as i64 }))
        }
    } else if ws[0] == "endrepeat"@ {
        Ok(SpeedLine::EndRepeat)
    } else if ws.len() < 2 {
        Err(ParseFault::MissingArguments)
    } else if decimal_units(ws[0]) is None {
        Err(ParseFault::InvalidFloat(ws[0]))
    } else if decimal_units(ws[1]) is None {
        Err(ParseFault::InvalidFloat(ws[1]))
    } else if ws.len() >= 3 && bool_value(ws[2]) is None {
        Err(ParseFault::InvalidBool(ws[2]))
    } else {
        Ok(SpeedLine::Trigger(SpeedTrigger {
            time: Decimal { units: decimal_units(ws[0]).unwrap() as i64 },
            speed_multiplier: Decimal { units: decimal_units(ws[1]).unwrap() as i64 },
            interpolate: ws.len() >= 3 && bool_value(ws[2]).unwrap(),
        }))
    }
}

fn read_speed_line(ws: &Vec<Vec<char>>) -> (r: Result<SpeedLine, ParsingError>)
    ensures
        match r {
            Ok(l) => speed_line(words_view(*ws)) == Ok::<SpeedLine, ParseFault>(l),
            Err(e) => speed_line(words_view(*ws)) == Err::<SpeedLine, ParseFault>(e@),
        },
{
    let ghost wv = words_view(*ws);
    assert(wv.len() == ws@.len());
    assert(forall|k: int| 0 <= k < ws@.len() ==> #[trigger] wv[k] == ws@[k]@);
    if ws.len() == 0 || (ws[0].len() > 0 && ws[0][0] == '#') {
        return Ok(SpeedLine::Skip);
    }
    if is_word(&ws[0], "repeat") {
        if ws.len() < 4 {
            return Err(ParsingError::MissingArguments);
        }
        if !is_word(&ws[2], "interval") {
            return Err(ParsingError::InvalidRepeatCommand);
        }
        let count = match parse_int(&ws[1]) {
            Some(c) => c,
            None => {
                return Err(ParsingError::InvalidInt(string_of(&ws[1])));
            },
        };
        let interval = match Decimal::parse(&ws[3]) {
            Some(d) => d,
            None => {
                return Err(ParsingError::InvalidFloat(string_of(&ws[3])));
            },
        };
        return Ok(SpeedLine::Repeat(count, interval));
    }
    if is_word(&ws[0], "endrepeat") {
        return Ok(SpeedLine::EndRepeat);
    }
    if ws.len() < 2 {
        return Err(ParsingError::MissingArguments);
    }
    let time = match Decimal::parse(&ws[0]) {
        Some(d) => d,
        None => {
            return Err(ParsingError::InvalidFloat(string_of(&ws[0])));
        },
    };
    let speed_multiplier = match Decimal::parse(&ws[1]) {
        Some(d) => d,
        None => {
            return Err(ParsingError::InvalidFloat(string_of(&ws[1])));
        },
    };
    let interpolate = if ws.len() >= 3 {
        match parse_bool(&ws[2]) {
            Some(b) => b,
            None => {
                return Err(ParsingError::InvalidBool(string_of(&ws[2])));
            },
        }
    } else {
        false
    };
    Ok(SpeedLine::Trigger(SpeedTrigger { time, speed_multiplier, interpolate }))
}

/// A trigger of the expanded text with the line it came from; its time may
/// be out of range.
pub struct Leaf {
    pub line: int,
    pub time: int,
    pub speed_multiplier: Decimal,
    pub interpolate: bool,
}

/// The records of `body`, later by `d`.
pub open spec fn shifted(body: Seq<Leaf>, d: int) -> Seq<Leaf> {
    body.map_values(|l: Leaf| Leaf { time: l.time + d, ..l })
}

/// `n` passes over `body`, the k-th (from 0) later by `k * interval`.
pub open spec fn repeated(body: Seq<Leaf>, n: nat, interval: int) -> Seq<Leaf>
    decreases n,
{
    if n == 0 {
        seq![]
    } else {
        repeated(body, (n - 1) as nat, interval) + shifted(body, (n - 1) * interval)
    }
}

/// How many passes a repeat makes: its count, none when that is below 1.
pub open spec fn passes(count: i32) -> nat {
    if count < 1 {
        0
    } else {
        count as nat
    }
}

pub open spec fn all_in_range(s: Seq<Leaf>) -> bool {
    forall|k: int| 0 <= k < s.len() ==> in_i64(#[trigger] s[k].time)
}

pub open spec fn after(
    acc: Seq<Leaf>,
    r: Result<(Seq<Leaf>, int), (int, ParseFault)>,
) -> Result<(Seq<Leaf>, int), (int, ParseFault)> {
    match r {
        Ok((s, j)) => Ok((acc + s, j)),
        Err(e) => Err(e),
    }
}

/// Reads the lines from `i` on; `open` is the line of the innermost repeat
/// that is still open. Gives the expanded triggers, in the order in which the
/// text produces them, and the line after the `EndRepeat` that closes `open`
/// (or the number of lines).
pub open spec fn read_items(ls: Seq<Seq<Seq<char>>>, i: int, open: Option<int>) -> Result<(Seq<Leaf>, int), (int, ParseFault)>
    decreases ls.len() - i,
{
    if i < 0 || i >= ls.len() {
        match open {
            Some(h) => Err((h, ParseFault::UnclosedRepeat)),
            None => Ok((seq![], i)),
        }
    } else {
        match speed_line(ls[i]) {
            Err(e) => Err((i, e)),
            Ok(SpeedLine::Skip) => read_items(ls, i + 1, open),
            Ok(SpeedLine::Trigger(t)) => after(
                seq![Leaf { line: i, time: t.time.units as int, speed_multiplier: t.speed_multiplier, interpolate: t.interpolate }],
                read_items(ls, i + 1, open),
            ),
            Ok(SpeedLine::EndRepeat) => match open {
                None => Err((i, ParseFault::UnexpectedEndRepeat)),
                Some(_) => Ok((seq![], i + 1)),
            },
            Ok(SpeedLine::Repeat(count, interval)) => match read_items(ls, i + 1, Some(i)) {
                Err(e) => Err(e),
                Ok((body, j)) => {
                    let e = repeated(body, passes(count), interval.units as int);
                    if !(i < j <= ls.len()) {
                        Err((i, ParseFault::UnclosedRepeat))
                    } else if !all_in_range(e) {
                        Err((i, ParseFault::InvalidFloat(ls[i][3])))
                    } else {
                        after(e, read_items(ls, j, open))
                    }
                },
            },
        }
    }
}

pub open spec fn trigger_of(l: Leaf) -> SpeedTrigger {
    SpeedTrigger { time: Decimal { units: l.time as i64 }, speed_multiplier: l.speed_multiplier, interpolate: l.interpolate }
}

/// The speed triggers that a text describes, in ascending order of time, or
/// the first line that is wrong and why.
pub open spec fn speeds_of(text: Seq<char>) -> Result<Seq<SpeedTrigger>, (int, ParseFault)> {
    match read_items(line_words(text), 0, None) {
        Ok((leaves, _)) => Ok(sorted_by_time(leaves.map_values(|l: Leaf| trigger_of(l)))),
        Err(e) => Err(e),
    }
}

#[derive(Clone, Copy)]
struct SpeedLeaf {
    line: usize,
    trigger: SpeedTrigger,
}

spec fn leaf_view(l: SpeedLeaf) -> Leaf {
    Leaf { line: l.line as int, time: l.trigger.time.units as int, speed_multiplier: l.trigger.speed_multiplier, interpolate: l.trigger.interpolate }
}

spec fn leaves_view(v: Seq<SpeedLeaf>) -> Seq<Leaf> {
    v.map_values(|l: SpeedLeaf| leaf_view(l))
}

proof fn lemma_repeated_len(body: Seq<Leaf>, n: nat, interval: int)
    ensures
        repeated(body, n, interval).len() == n * body.len(),
    decreases n,
{
    if n > 0 {
        assert(shifted(body, (n - 1) * interval).len() == body.len());
        lemma_repeated_len(body, (n - 1) as nat, interval);
        let m = (n - 1) as nat;
        assert(n * body.len() == m * body.len() + body.len()) by (nonlinear_arith)
            requires
                m == n - 1,
        ;
    } else {
        assert(n * body.len() == 0) by (nonlinear_arith)
            requires
                n == 0,
        ;
    }
}

proof fn lemma_repeated_prefix(body: Seq<Leaf>, k: nat, n: nat, interval: int)
    requires
        k <= n,
    ensures
        repeated(body, n, interval).subrange(0, (k * body.len()) as int) == repeated(body, k, interval),
    decreases n,
{
    lemma_repeated_len(body, n, interval);
    lemma_repeated_len(body, k, interval);
    if k < n {
        lemma_repeated_prefix(body, k, (n - 1) as nat, interval);
        lemma_repeated_len(body, (n - 1) as nat, interval);
        assert(k * body.len() <= (n - 1) * body.len()) by (nonlinear_arith)
            requires
                k <= n - 1,
        ;
        assert(repeated(body, n, interval).subrange(0, (k * body.len()) as int) =~= repeated(body, (n - 1) as nat, interval).subrange(0, (k * body.len()) as int));
    } else {
        assert(repeated(body, n, interval).subrange(0, (k * body.len()) as int) =~= repeated(body, n, interval));
    }
}

/// `n` passes over `body`, or `None` when a time leaves the range of `i64`.
fn repeat_body(body: &Vec<SpeedLeaf>, count: i32, interval: Decimal) -> (r: Option<Vec<SpeedLeaf>>)
    ensures
        match r {
            Some(v) => leaves_view(v@) == repeated(leaves_view(body@), passes(count), interval.units as int) && all_in_range(leaves_view(v@)),
            None => !all_in_range(repeated(leaves_view(body@), passes(count), interval.units as int)),
        },
{
    let n: i32 = if count < 1 { 0 } else { count };
    let ghost bv = leaves_view(body@);
    let ghost iv = interval.units as int;
    let mut out: Vec<SpeedLeaf> = Vec::new();
    let mut k: i32 = 0;
    while k < n
        invariant
            0 <= k <= n,
            n as nat == passes(count),
            bv == leaves_view(body@),
            iv == interval.units as int,
            leaves_view(out@) == repeated(bv, k as nat, iv),
            all_in_range(leaves_view(out@)),
        decreases n - k,
    {
        proof {
            let a = k as int;
            let b = interval.units as int;
            assert(-0x8000_0000_0000_0000_0000_0000_0000 < a * b < 0x8000_0000_0000_0000_0000_0000_0000) by (nonlinear_arith)
                requires
                    0 <= a < 0x8000_0000,
                    -0x8000_0000_0000_0000 <= b < 0x8000_0000_0000_0000,
            ;
        }
        let shift: i128 = (k as i128) * (interval.units as i128);
        let mut j: usize = 0;
        let ghost base = leaves_view(out@);
        while j < body.len()
            invariant
                0 <= k < n,
                n as nat == passes(count),
                bv == leaves_view(body@),
                iv == interval.units as int,
                shift == k * iv,
                -0x8000_0000_0000_0000_0000_0000_0000 < shift < 0x8000_0000_0000_0000_0000_0000_0000,
                j <= body@.len(),
                base == repeated(bv, k as nat, iv),
                leaves_view(out@) == base + shifted(bv, shift as int).subrange(0, j as int),
                all_in_range(leaves_view(out@)),
                decreases body.len() - j,
        {
            let l = body[j];
            let t: i128 = (l.trigger.time.units as i128) + shift;
            proof {
                assert(shifted(bv, shift as int)[j as int].time == t);
            }
            if t < (i64::MIN as i128) || t > (i64::MAX as i128) {
                proof {
                    let whole = repeated(bv, passes(count), iv);
                    let pre = repeated(bv, (k + 1) as nat, iv);
                    lemma_repeated_prefix(bv, (k + 1) as nat, passes(count), iv);
                    lemma_repeated_len(bv, k as nat, iv);
                    lemma_repeated_len(bv, (k + 1) as nat, iv);
                    lemma_repeated_len(bv, passes(count), iv);
                    let at = k * bv.len() + j;
                    assert((k + 1) * bv.len() == k * bv.len() + bv.len()) by (nonlinear_arith);
                    assert(pre[at] == shifted(bv, shift as int)[j as int]);
                    assert((k + 1) * bv.len() <= passes(count) * bv.len()) by (nonlinear_arith)
                        requires
                            k + 1 <= passes(count),
                    ;
                    assert(whole[at] == pre[at]);
                    assert(!in_i64(whole[at].time));
                }
                return None;
            }
            let moved = SpeedLeaf { line: l.line, trigger: SpeedTrigger { time: Decimal { units: t as i64 }, ..l.trigger } };
            proof {
                assert(leaf_view(moved) == shifted(bv, shift as int)[j as int]);
                assert(leaves_view(out@.push(moved)) =~= leaves_view(out@).push(leaf_view(moved)));
                assert(shifted(bv, shift as int).subrange(0, j + 1) =~= shifted(bv, shift as int).subrange(0, j as int).push(leaf_view(moved)));
            }
            out.push(moved);
            j = j + 1;
        }
        proof {
            assert(shifted(bv, shift as int).subrange(0, j as int) =~= shifted(bv, shift as int));
            assert(repeated(bv, (k + 1) as nat, iv) == base + shifted(bv, k * iv));
        }
        k = k + 1;
    }
    Some(out)
}

pub open spec fn opt_int(o: Option<usize>) -> Option<int> {
    match o {
        Some(h) => Some(h as int),
        None => None,
    }
}

fn read_items_exec(ls: &Vec<Vec<Vec<char>>>, start: usize, open: Option<usize>) -> (r: Result<(Vec<SpeedLeaf>, usize), (usize, ParsingError)>)
    requires
        start <= ls.len(),
        open.is_some() ==> open.unwrap() < start,
    ensures
        match r {
            Ok((v, j)) => {
                &&& read_items(lines_view(ls@), start as int, opt_int(open)) == Ok::<(Seq<Leaf>, int), (int, ParseFault)>((leaves_view(v@), j as int))
                &&& start <= j <= ls.len()
                &&& open.is_some() ==> j > start
            },
            Err((n, e)) => read_items(lines_view(ls@), start as int, opt_int(open)) == Err::<(Seq<Leaf>, int), (int, ParseFault)>((n as int, e@)),
        },
    decreases ls.len() - start,
{
    let ghost lv = lines_view(ls@);
    let ghost o = opt_int(open);
    let mut acc: Vec<SpeedLeaf> = Vec::new();
    let mut i: usize = start;
    assert(read_items(lv, start as int, o) == after(leaves_view(acc@), read_items(lv, start as int, o))) by {
        match read_items(lv, start as int, o) {
            Ok((s, j)) => {
                assert(leaves_view(acc@) + s =~= s);
            },
            Err(_) => {},
        }
    }
    while i < ls.len()
        invariant
            start <= i <= ls.len(),
            open.is_some() ==> open.unwrap() < start,
            lv == lines_view(ls@),
            o == opt_int(open),
            read_items(lv, start as int, o) == after(leaves_view(acc@), read_items(lv, i as int, o)),
        decreases ls.len() - i,
    {
        assert(lv[i as int] == words_view(ls@[i as int]));
        let ghost before = leaves_view(acc@);
        match read_speed_line(&ls[i]) {
            Err(e) => {
                return Err((i, e));
            },
            Ok(SpeedLine::Skip) => {
                i = i + 1;
            },
            Ok(SpeedLine::Trigger(t)) => {
                let leaf = SpeedLeaf { line: i, trigger: t };
                acc.push(leaf);
                proof {
                    assert(leaves_view(acc@) =~= before + seq![leaf_view(leaf)]);
                    match read_items(lv, i + 1, o) {
                        Ok((s, j)) => {
                            assert(before + (seq![leaf_view(leaf)] + s) =~= (before + seq![leaf_view(leaf)]) + s);
                        },
                        Err(_) => {},
                    }
                }
                i = i + 1;
            },
            Ok(SpeedLine::EndRepeat) => {
                match open {
                    None => {
                        return Err((i, ParsingError::UnexpectedEndRepeat));
                    },
                    Some(_) => {
                        return Ok((acc, i + 1));
                    },
                }
            },
            Ok(SpeedLine::Repeat(count, interval)) => {
                let (body, j) = match read_items_exec(ls, i + 1, Some(i)) {
                    Err(e) => {
                        return Err(e);
                    },
                    Ok(x) => x,
                };
                match repeat_body(&body, count, interval) {
                    None => {
                        assert(ls@[i as int]@.len() >= 4);
                        assert(lv[i as int][3] == ls@[i as int]@[3]@);
                        return Err((i, ParsingError::InvalidFloat(string_of(&ls[i][3]))));
                    },
                    Some(e) => {
                        let mut e = e;
                        let ghost ev = leaves_view(e@);
                        acc.append(&mut e);
                        proof {
                            assert(leaves_view(acc@) =~= before + ev);
                            match read_items(lv, j as int, o) {
                                Ok((s, j2)) => {
                                    assert(before + (ev + s) =~= (before + ev) + s);
                                },
                                Err(_) => {},
                            }
                        }
                        i = j;
                    },
                }
            },
        }
    }
    match open {
        Some(h) => Err((h, ParsingError::UnclosedRepeat)),
        None => {
            proof {
                assert(leaves_view(acc@) + Seq::<Leaf>::empty() =~= leaves_view(acc@));
            }
            Ok((acc, i))
        },
    }
}

/// Reads speed trigger text: one trigger per line as `<time> <multiplier>
/// [<interpolate>]`, blocks between `Repeat <count> interval <interval>` and
/// `EndRepeat` (which may nest) taken `count` times (none for a count below
/// 1) with their times moved on by the interval each pass, blank lines and `#` comments skipped, words
/// in any case. The triggers come out in ascending order of time.
pub fn text_to_speeds(data: &str) -> (r: Result<SpeedTriggersData, IntegrationError>)
    ensures
        match r {
            Ok(d) => speeds_of(data@) == Ok::<Seq<SpeedTrigger>, (int, ParseFault)>(d.triggers@),
            Err(IntegrationError::ParsingError(n, e)) => speeds_of(data@) == Err::<Seq<SpeedTrigger>, (int, ParseFault)>((n as int, e@)),
            Err(_) => false,
        },
{
    let chars = chars_of(data);
    let ls = split_line_words(&chars);
    assert(lines_view(ls@) =~= line_words(data@));
    match read_items_exec(&ls, 0, None) {
        Err((n, e)) => Err(IntegrationError::ParsingError(n, e)),
        Ok((leaves, _)) => {
            let mut triggers: Vec<SpeedTrigger> = Vec::new();
            let mut k: usize = 0;
            while k < leaves.len()
                invariant
                    k <= leaves.len(),
                    triggers@ == leaves_view(leaves@).subrange(0, k as int).map_values(|l: Leaf| trigger_of(l)),
                decreases leaves.len() - k,
            {
                triggers.push(leaves[k].trigger);
                proof {
                    assert(trigger_of(leaf_view(leaves@[k as int])) == leaves@[k as int].trigger);
                    assert(triggers@ =~= leaves_view(leaves@).subrange(0, k + 1).map_values(|l: Leaf| trigger_of(l)));
                }
                k = k + 1;
            }
            assert(leaves_view(leaves@).subrange(0, k as int) =~= leaves_view(leaves@));
            Ok(SpeedTriggersData { triggers: sort_by_time(&triggers) })
        },
    }
}

pub open spec fn bool_text(b: bool) -> Seq<char> {
    if b {
        "true"@
    } else {
        "false"@
    }
}

/// The words of a line of speed text: `<time> <multiplier> <interpolate>`.
pub open spec fn speed_line_body(t: SpeedTrigger) -> Seq<char> {
    decimal_text(t.time.units as int, false) + " "@ + decimal_text(t.speed_multiplier.units as int, false) + " "@
        + bool_text(t.interpolate)
}

/// One line of speed text, with its newline.
pub open spec fn speed_line_text(t: SpeedTrigger) -> Seq<char> {
    speed_line_body(t) + "\n"@
}

/// The speed text of a list of triggers, one line each.
pub open spec fn speeds_text(s: Seq<SpeedTrigger>) -> Seq<char>
    decreases s.len(),
{
    if s.len() == 0 {
        seq![]
    } else {
        speeds_text(s.drop_last()) + speed_line_text(s.last())
    }
}

fn bool_str(b: bool) -> (r: &'static str)
    ensures
        r@ == bool_text(b),
{
    if b {
        "true"
    } else {
        "false"
    }
}

/// Writes speed text, one line per trigger in the order given.
#[verifier::rlimit(50)]
pub fn speeds_to_text(data: &SpeedTriggersData) -> (r: String)
    ensures
        r@ == speeds_text(data.triggers@),
{
    let mut out = String::new();
    let mut k: usize = 0;
    while k < data.triggers.len()
        invariant
            k <= data.triggers.len(),
            out@ == speeds_text(data.triggers@.subrange(0, k as int)),
        decreases data.triggers.len() - k,
    {
        let t = data.triggers[k];
        let a = t.time.to_text(false);
        let b = t.speed_multiplier.to_text(false);
        out.append(a.as_str());
        out.append(" ");
        out.append(b.as_str());
        out.append(" ");
        out.append(bool_str(t.interpolate));
        out.append("\n");
        proof {
            let p = data.triggers@.subrange(0, k + 1);
            assert(p.drop_last() =~= data.triggers@.subrange(0, k as int));
            assert(out@ =~= speeds_text(p));
        }
        k = k + 1;
    }
    assert(data.triggers@.subrange(0, k as int) =~= data.triggers@);
    out
}

/// The JSON object of one trigger, as the game reads it.
pub open spec fn speed_json_item(t: SpeedTrigger) -> Seq<char> {
    "{\"Time\":"@ + decimal_text(t.time.units as int, true) + ",\"SpeedMultiplier\":"@
        + decimal_text(t.speed_multiplier.units as int, true) + ",\"InterpolateToNextTrigger\":"@
        + bool_text(t.interpolate) + "}"@
}

/// The JSON objects of the triggers, separated by commas.
pub open spec fn speed_json_items(s: Seq<SpeedTrigger>) -> Seq<char>
    decreases s.len(),
{
    if s.len() == 0 {
        seq![]
    } else if s.len() == 1 {
        speed_json_item(s[0])
    } else {
        speed_json_items(s.drop_last()) + ","@ + speed_json_item(s.last())
    }
}

/// The JSON text under which a chart stores its speed triggers.
pub open spec fn speeds_json(s: Seq<SpeedTrigger>) -> Seq<char> {
    "{\"Triggers\":["@ + speed_json_items(s) + "]}"@
}

/// Writes the JSON text of a list of speed triggers.
#[verifier::rlimit(50)]
pub fn speeds_to_json_text(data: &SpeedTriggersData) -> (r: String)
    ensures
        r@ == speeds_json(data.triggers@),
{
    let mut out = String::new();
    out.append("{\"Triggers\":[");
    let ghost head = out@;
    let mut k: usize = 0;
    while k < data.triggers.len()
        invariant
            k <= data.triggers.len(),
            head == "{\"Triggers\":["@,
            out@ == head + speed_json_items(data.triggers@.subrange(0, k as int)),
        decreases data.triggers.len() - k,
    {
        let t = data.triggers[k];
        if k > 0 {
            out.append(",");
        }
        let a = t.time.to_text(true);
        let b = t.speed_multiplier.to_text(true);
        out.append("{\"Time\":");
        out.append(a.as_str());
        out.append(",\"SpeedMultiplier\":");
        out.append(b.as_str());
        out.append(",\"InterpolateToNextTrigger\":");
        out.append(bool_str(t.interpolate));
        out.append("}");
        proof {
            let p = data.triggers@.subrange(0, k + 1);
            assert(p.drop_last() =~= data.triggers@.subrange(0, k as int));
            if k == 0 {
                assert(data.triggers@.subrange(0, 0) =~= Seq::<SpeedTrigger>::empty());
            }
            assert(out@ =~= head + speed_json_items(p));
        }
        k = k + 1;
    }
    out.append("]}");
    assert(data.triggers@.subrange(0, k as int) =~= data.triggers@);
    out
}

/// The container key of the speed triggers of a difficulty.
pub fn make_key(diff: SpinDifficulty) -> (r: String)
    ensures
        r@ == key_for(SPEEDS_KEY@, diff),
{
    keyed(SPEEDS_KEY, diff)
}

/// Stores speed triggers in charts, and takes them out again.
pub struct SpeedsIntegrator;

impl SpeedsIntegrator {
    /// The extension of speed text files.
    pub fn file_extension(&self) -> (r: String)
        ensures
            r@ == "speeds"@,
    {
        "speeds".to_owned()
    }

    /// Reads speed text and stores its triggers, as JSON, under the key of
    /// `diff`, replacing what was there.
    pub fn integrate(&self, chart: &mut RawSrtbFile, data: &str, diff: SpinDifficulty) -> (r: Result<(), IntegrationError>)
        ensures
            match speeds_of(data@) {
                Ok(t) => r is Ok && final(chart).entries() == upsert(old(chart).entries(), key_for(SPEEDS_KEY@, diff), speeds_json(t)),
                Err((n, e)) => r matches Err(IntegrationError::ParsingError(m, f)) && m as int == n && f@ == e && *final(chart) == *old(chart),
            },
            final(chart).same_but_strings(old(chart)),
    {
        let full_data = match text_to_speeds(data) {
            Ok(d) => d,
            Err(e) => {
                return Err(e);
            },
        };
        let key = make_key(diff);
        let value = speeds_to_json_text(&full_data);
        chart.set_large_string_value(key.as_str(), value.as_str());
        Ok(())
    }

    /// The JSON text stored under the key of `diff`; `MissingData` if there is none.
    pub fn stored_value(&self, chart: &RawSrtbFile, diff: SpinDifficulty) -> (r: Result<String, IntegrationError>)
        ensures
            match lookup(chart.entries(), key_for(SPEEDS_KEY@, diff)) {
                Some(v) => r is Ok && r.unwrap()@ == v,
                None => r matches Err(IntegrationError::MissingData),
            },
    {
        let key = make_key(diff);
        match chart.get_large_string_value(key.as_str()) {
            Some(v) => Ok(v),
            None => Err(IntegrationError::MissingData),
        }
    }

    /// Deletes the entry under the key of `diff`, if there is one.
    pub fn remove(&self, chart: &mut RawSrtbFile, diff: SpinDifficulty) -> (r: Result<(), IntegrationError>)
        ensures
            r is Ok,
            final(chart).entries() == without(old(chart).entries(), key_for(SPEEDS_KEY@, diff)),
            final(chart).same_but_strings(old(chart)),
    {
        let key = make_key(diff);
        chart.remove_large_string_value(key.as_str());
        Ok(())
    }
}

proof fn lemma_speeds_text_front(l: Seq<SpeedTrigger>)
    requires
        l.len() > 0,
    ensures
        speeds_text(l) == speed_line_text(l[0]) + speeds_text(l.drop_first()),
    decreases l.len(),
{
    if l.len() == 1 {
        assert(l.drop_last() =~= Seq::<SpeedTrigger>::empty());
        assert(l.drop_first() =~= Seq::<SpeedTrigger>::empty());
        assert(speeds_text(l) =~= speed_line_text(l[0]) + speeds_text(l.drop_first()));
    } else {
        lemma_speeds_text_front(l.drop_last());
        assert(l.drop_last().drop_first() =~= l.drop_first().drop_last());
        assert(l.drop_first().last() == l.last());
        assert(speeds_text(l) =~= speed_line_text(l[0]) + speeds_text(l.drop_first()));
    }
}

proof fn lemma_body_facts(t: SpeedTrigger)
    ensures
        forall|i: int| 0 <= i < speed_line_body(t).len() ==> #[trigger] speed_line_body(t)[i] != '\n',
        words(lower_seq(speed_line_body(t))) == seq![
            decimal_text(t.time.units as int, false),
            decimal_text(t.speed_multiplier.units as int, false),
            bool_text(t.interpolate),
        ],
{
    reveal_strlit(" ");
    reveal_strlit("\n");
    reveal_strlit("true");
    reveal_strlit("false");
    let a = decimal_text(t.time.units as int, false);
    let b = decimal_text(t.speed_multiplier.units as int, false);
    let c = bool_text(t.interpolate);
    lemma_decimal_text_chars(t.time.units, false);
    lemma_decimal_text_chars(t.speed_multiplier.units, false);
    let body = speed_line_body(t);
    assert(body =~= a + seq![' '] + (b + seq![' '] + c));
    assert(forall|i: int| 0 <= i < a.len() ==> is_number_char(#[trigger] a[i]));
    assert(forall|i: int| 0 <= i < b.len() ==> is_number_char(#[trigger] b[i]));
    assert(forall|i: int| 0 <= i < c.len() ==> 'a' <= #[trigger] c[i] && c[i] <= 'z');
    assert forall|i: int| 0 <= i < body.len() implies #[trigger] body[i] != '\n' && !('A' <= body[i] && body[i] <= 'Z') by {
        if i < a.len() {
            assert(body[i] == a[i]);
        } else if i == a.len() {
        } else if i < a.len() + 1 + b.len() {
            assert(body[i] == b[i - a.len() - 1]);
        } else if i == a.len() + 1 + b.len() {
        } else {
            assert(body[i] == c[i - a.len() - 2 - b.len()]);
        }
    }
    lemma_lower_same(body);
    assert forall|i: int| 0 <= i < a.len() implies !is_space(#[trigger] a[i]) by {
        assert(is_number_char(a[i]));
    }
    assert forall|i: int| 0 <= i < b.len() implies !is_space(#[trigger] b[i]) by {
        assert(is_number_char(b[i]));
    }
    assert forall|i: int| 0 <= i < c.len() implies !is_space(#[trigger] c[i]) by {
        assert('a' <= c[i] && c[i] <= 'z');
    }
    lemma_words_cons(a, b + seq![' '] + c);
    lemma_words_cons(b, c);
    lemma_words_single(c);
    assert(seq![a] + (seq![b] + seq![c]) =~= seq![a, b, c]);
}

proof fn lemma_line_reads_back(t: SpeedTrigger)
    ensures
        speed_line(words(lower_seq(speed_line_body(t)))) == Ok::<SpeedLine, ParseFault>(SpeedLine::Trigger(t)),
{
    reveal_strlit("repeat");
    reveal_strlit("endrepeat");
    reveal_strlit("true");
    reveal_strlit("false");
    lemma_body_facts(t);
    let ws = words(lower_seq(speed_line_body(t)));
    let a = decimal_text(t.time.units as int, false);
    lemma_decimal_text_chars(t.time.units, false);
    lemma_decimal_round_trip(t.time.units, false);
    lemma_decimal_round_trip(t.speed_multiplier.units, false);
    assert(ws[0] == a);
    assert(a[0] != '#');
    assert(a[0] != "repeat"@[0]);
    assert(a != "repeat"@);
    assert(a[0] != "endrepeat"@[0]);
    assert(a != "endrepeat"@);
    assert("true"@ != "false"@);
    assert(bool_value(bool_text(t.interpolate)) == Some(t.interpolate));
}

pub open spec fn leaves_from(l: Seq<SpeedTrigger>, i: int) -> Seq<Leaf> {
    Seq::new((l.len() - i) as nat, |k: int| Leaf {
        line: i + k,
        time: l[i + k].time.units as int,
        speed_multiplier: l[i + k].speed_multiplier,
        interpolate: l[i + k].interpolate,
    })
}

proof fn lemma_lines_of_text(l: Seq<SpeedTrigger>)
    ensures
        lines(speeds_text(l)) == l.map_values(|t: SpeedTrigger| speed_line_body(t)),
    decreases l.len(),
{
    if l.len() == 0 {
        assert(lines(speeds_text(l)) =~= l.map_values(|t: SpeedTrigger| speed_line_body(t)));
    } else {
        lemma_speeds_text_front(l);
        lemma_body_facts(l[0]);
        reveal_strlit("\n");
        lemma_lines_of_text(l.drop_first());
        assert(speed_line_text(l[0]) =~= speed_line_body(l[0]) + seq!['\n']);
        lemma_lines_cons(speed_line_body(l[0]), speeds_text(l.drop_first()));
        assert(speeds_text(l) =~= speed_line_body(l[0]) + seq!['\n'] + speeds_text(l.drop_first()));
        assert(lines(speeds_text(l)) =~= l.map_values(|t: SpeedTrigger| speed_line_body(t)));
    }
}

proof fn lemma_read_back(l: Seq<SpeedTrigger>, ls: Seq<Seq<Seq<char>>>, i: int)
    requires
        0 <= i <= l.len(),
        ls.len() == l.len(),
        forall|k: int| 0 <= k < l.len() ==> #[trigger] speed_line(ls[k]) == Ok::<SpeedLine, ParseFault>(SpeedLine::Trigger(l[k])),
    ensures
        read_items(ls, i, None) == Ok::<(Seq<Leaf>, int), (int, ParseFault)>((leaves_from(l, i), l.len() as int)),
    decreases l.len() - i,
{
    if i == l.len() {
        assert(leaves_from(l, i) =~= Seq::<Leaf>::empty());
    } else {
        lemma_read_back(l, ls, i + 1);
        assert(speed_line(ls[i]) == Ok::<SpeedLine, ParseFault>(SpeedLine::Trigger(l[i])));
        let leaf = Leaf { line: i, time: l[i].time.units as int, speed_multiplier: l[i].speed_multiplier, interpolate: l[i].interpolate };
        assert(seq![leaf] + leaves_from(l, i + 1) =~= leaves_from(l, i));
    }
}

/// Writing speed triggers as text and reading that text back gives the same
/// triggers, as many times each, in ascending order of time (triggers at the
/// same time in the order they were written).
pub proof fn lemma_speeds_round_trip(l: Seq<SpeedTrigger>)
    ensures
        speeds_of(speeds_text(l)) == Ok::<Seq<SpeedTrigger>, (int, ParseFault)>(sorted_by_time(l)),
        is_time_ascending(sorted_by_time(l)),
        sorted_by_time(l).to_multiset() == l.to_multiset(),
{
    let text = speeds_text(l);
    lemma_lines_of_text(l);
    let ls = line_words(text);
    assert forall|k: int| 0 <= k < l.len() implies #[trigger] speed_line(ls[k]) == Ok::<SpeedLine, ParseFault>(SpeedLine::Trigger(l[k])) by {
        assert(lines(text)[k] == speed_line_body(l[k]));
        lemma_line_reads_back(l[k]);
    }
    lemma_read_back(l, ls, 0);
    assert(leaves_from(l, 0).map_values(|x: Leaf| trigger_of(x)) =~= l);
    lemma_sorted_by_time(l);
}

/// The speed triggers read from any text come in ascending order of time.
pub proof fn lemma_speeds_ascending(text: Seq<char>)
    ensures
        match speeds_of(text) {
            Ok(l) => is_time_ascending(l),
            Err(_) => true,
        },
{
    match read_items(line_words(text), 0, None) {
        Ok((leaves, _)) => {
            lemma_sorted_by_time(leaves.map_values(|l: Leaf| trigger_of(l)));
        },
        Err(_) => {},
    }
}

} // verus!
