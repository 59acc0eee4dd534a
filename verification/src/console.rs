//! Rendering of log messages for a console.

use crate::dict::Dict;
use crate::options::text_option;
use crate::text::{
    char_vec, concat, decimal, decimal_text, digit, digit_char, push_repeated, repeated,
};
use vstd::prelude::*;
use vstd::utf8::encode_utf8;

verus! {

/// Label alignment.
#[derive(PartialEq, Eq, Structural, Clone, Copy)]
pub enum Align {
    Left,
    Right,
}

impl Default for Align {
    fn default() -> (r: Align)
        ensures
            r is Left,
    {
        Align::Left
    }
}

/// Label style.
#[derive(PartialEq, Eq, Structural, Clone, Copy)]
pub struct LabelStyle {
    pub width: usize,
    pub margin: usize,
    pub align: Align,
}

/// The config of a console exporter.
pub struct ConsoleConfig {
    pub colors: u8,
    pub max_length: usize,
    pub levels: Option<Dict<u8>>,
    pub show_diff: bool,
    pub show_time: String,
    pub label: Option<LabelStyle>,
}

impl Default for ConsoleConfig {
    fn default() -> (r: ConsoleConfig)
        ensures
            r.colors == 0,
            r.max_length == 10240,
            r.levels is None,
            !r.show_diff,
            r.show_time@ == "yyyy-MM-dd hh:mm:ss "@,
            r.label is None,
    {
        ConsoleConfig {
            colors: 0,
            max_length: 10240,
            levels: None,
            show_diff: false,
            show_time: "yyyy-MM-dd hh:mm:ss ".to_owned(),
            label: None,
        }
    }
}

/// The kinds of log messages.
#[derive(PartialEq, Eq, Structural, Clone, Copy)]
pub enum LoggerType {
    Error,
    Warn,
    Info,
    Debug,
}

/// The letter of a kind.
pub open spec fn letter_of(kind: LoggerType) -> char {
    match kind {
        LoggerType::Error => 'E',
        LoggerType::Warn => 'W',
        LoggerType::Info => 'I',
        LoggerType::Debug => 'D',
    }
}

/// The letter of a kind.
pub fn type_char(kind: LoggerType) -> (r: char)
    ensures
        r == letter_of(kind),
{
    match kind {
        LoggerType::Error => 'E',
        LoggerType::Warn => 'W',
        LoggerType::Info => 'I',
        LoggerType::Debug => 'D',
    }
}

/// `value` with spaces behind it, up to `width` characters.
pub open spec fn padded_end(value: Seq<char>, width: int) -> Seq<char> {
    if value.len() >= width {
        value
    } else {
        value + repeated(' ', (width - value.len()) as nat)
    }
}

/// `value` with spaces before it, up to `width` characters.
pub open spec fn padded_start(value: Seq<char>, width: int) -> Seq<char> {
    if value.len() >= width {
        value
    } else {
        repeated(' ', (width - value.len()) as nat) + value
    }
}

/// `value` with spaces behind it, up to `width` characters.
pub fn pad_end(value: &str, width: usize) -> (r: String)
    ensures
        r@ == padded_end(value@, width as int),
{
    let current = value.unicode_len();
    let mut out = value.to_owned();
    if current < width {
        push_repeated(&mut out, ' ', width - current);
    }
    out
}

/// `value` with spaces before it, up to `width` characters.
pub fn pad_start(value: &str, width: usize) -> (r: String)
    ensures
        r@ == padded_start(value@, width as int),
{
    let current = value.unicode_len();
    let mut out = String::new();
    if current < width {
        push_repeated(&mut out, ' ', width - current);
        assert(out@ =~= repeated(' ', (width - current) as nat));
    }
    let ghost before = out@;
    out.append(value);
    if current >= width {
        assert(before + value@ =~= value@);
    }
    out
}

/// A fraction of a second in milliseconds, without the zeros at its end.
pub open spec fn fraction_text(millis: int) -> Seq<char> {
    if millis % 10 != 0 {
        seq![digit(millis / 100), digit(millis / 10 % 10), digit(millis % 10)]
    } else if millis % 100 != 0 {
        seq![digit(millis / 100), digit(millis / 10 % 10)]
    } else {
        seq![digit(millis / 100)]
    }
}

/// A duration: milliseconds below a second, else seconds with the decimals that are needed.
pub open spec fn duration_text(ms: nat) -> Seq<char> {
    if ms < 1000 {
        decimal_text(ms) + "ms"@
    } else if ms % 1000 == 0 {
        decimal_text(ms / 1000) + "s"@
    } else {
        decimal_text(ms / 1000) + "."@ + fraction_text((ms % 1000) as int) + "s"@
    }
}

/// From here on the decimals of a duration are a matter of rounding.
pub const EXACT_DURATION: u64 = 1_000_000_000_000_000;

/// The notation of a duration in milliseconds, none where it is too long to be written exactly.
pub fn format_duration(ms: u64) -> (r: Option<String>)
    ensures
        r is Some <==> ms < EXACT_DURATION,
        r matches Some(text) ==> text@ == duration_text(ms as nat),
{
    if ms >= EXACT_DURATION {
        return None;
    }
    if ms < 1000 {
        return Some(concat(decimal(ms).as_str(), "ms"));
    }
    let mut out = decimal(ms / 1000);
    let rest: u64 = ms % 1000;
    if rest != 0 {
        let ghost whole = out@;
        out.append(".");
        let ghost start = out@;
        out.push(digit_char((rest / 100) as u8));
        if rest % 100 != 0 {
            out.push(digit_char((rest / 10 % 10) as u8));
            if rest % 10 != 0 {
                out.push(digit_char((rest % 10) as u8));
            }
        }
        assert(out@ =~= start + fraction_text(rest as int));
    }
    out.append("s");
    Some(out)
}

/// A duration, marked as the time since the last message.
pub fn diff_label(duration: &str) -> (r: String)
    ensures
        r@ == " +"@ + duration@,
{
    concat(" +", duration)
}

/// `text` with `indent` spaces at the beginning of every line but the first.
pub open spec fn indented(text: Seq<char>, indent: nat) -> Seq<char>
    decreases text.len(),
{
    if text.len() == 0 {
        Seq::empty()
    } else {
        let before = indented(text.drop_last(), indent).push(text.last());
        if text.last() == '\n' {
            before + repeated(' ', indent)
        } else {
            before
        }
    }
}

/// `text` with `indent` spaces at the beginning of every line but the first.
pub fn indent_lines(text: &str, indent: usize) -> (r: String)
    ensures
        r@ == indented(text@, indent as nat),
{
    let chars = char_vec(text);
    let mut out = String::new();
    let mut i: usize = 0;
    assert(chars@.take(0) =~= Seq::<char>::empty());
    while i < chars.len()
        invariant
            i <= chars@.len(),
            out@ == indented(chars@.take(i as int), indent as nat),
        decreases chars@.len() - i,
    {
        assert(chars@.take(i + 1).drop_last() =~= chars@.take(i as int));
        out.push(chars[i]);
        if chars[i] == '\n' {
            push_repeated(&mut out, ' ', indent);
        }
        i += 1;
    }
    assert(chars@.take(i as int) =~= text@);
    out
}

/// The parts of a message that the logger has formatted and painted.
pub struct Painted {
    /// The time template.
    pub time: String,
    /// The name of the logger.
    pub label: String,
    /// The arguments.
    pub message: String,
    /// The time since the last message, if it is shown.
    pub diff: Option<String>,
}

/// A console exporter: the config, and the time of the last message.
pub struct ConsoleExporter {
    pub config: ConsoleConfig,
    pub timestamp: u64,
}

/// The margin round a label.
pub open spec fn margin_of(label: Option<LabelStyle>) -> nat {
    match label {
        Some(style) => style.margin as nat,
        None => 1,
    }
}

/// The number of characters that the painted label is padded to: the painting does not count.
pub open spec fn pad_of(label: Option<LabelStyle>, painted: nat, name: nat) -> int {
    match label {
        Some(style) => style.width + painted - name,
        None => 0,
    }
}

/// Whether the label stands on the right.
pub open spec fn is_right(label: Option<LabelStyle>) -> bool {
    match label {
        Some(style) => style.align is Right,
        None => false,
    }
}

/// How far the further lines of a message are moved in.
pub open spec fn indent_of(config: ConsoleConfig) -> nat {
    let time: nat = encode_utf8(config.show_time@).len();
    let width: nat = match config.label {
        Some(style) => if style.align is Right {
            style.width as nat + margin_of(config.label)
        } else {
            0
        },
        None => 0,
    };
    3 + margin_of(config.label) + time + width
}

/// The prefix of a message: the letter of its kind in brackets.
pub open spec fn prefix_of(kind: LoggerType) -> Seq<char> {
    "["@.push(letter_of(kind)) + "]"@
}

/// A rendered message.
pub open spec fn rendered(
    config: ConsoleConfig,
    kind: LoggerType,
    name: Seq<char>,
    painted: Painted,
) -> Seq<char> {
    let space = repeated(' ', margin_of(config.label));
    let time = if config.show_time@.len() == 0 {
        Seq::empty()
    } else {
        painted.time@
    };
    let pad = pad_of(config.label, painted.label@.len(), name.len());
    let head = if is_right(config.label) {
        time + padded_start(painted.label@, pad) + space + prefix_of(kind) + space
    } else {
        time + prefix_of(kind) + space + padded_end(painted.label@, pad) + space
    };
    let body = head + indented(painted.message@, indent_of(config));
    match painted.diff {
        Some(diff) => body + diff@,
        None => body,
    }
}

impl ConsoleExporter {
    /// An exporter that counts times from `now`.
    pub fn new(config: ConsoleConfig, now: u64) -> (r: ConsoleExporter)
        ensures
            r.config == config,
            r.timestamp == now,
    {
        ConsoleExporter { config, timestamp: now }
    }

    /// Sets the time that the next message is compared with.
    pub fn set_timestamp(&mut self, ts: u64)
        ensures
            final(self).config == old(self).config,
            final(self).timestamp == ts,
    {
        self.timestamp = ts;
    }

    /// The milliseconds since the last message that are shown with a message of the time `ts`, if
    /// any.
    pub open spec fn shown_diff(self, ts: u64) -> Option<u64> {
        if self.config.show_diff && self.timestamp != 0 {
            Some(
                (if ts >= self.timestamp {
                    ts - self.timestamp
                } else {
                    0
                }) as u64,
            )
        } else {
            None
        }
    }

    /// The milliseconds since the last message that are shown with a message of the time `ts`, if
    /// any.
    pub fn diff(&self, ts: u64) -> (r: Option<u64>)
        ensures
            r == self.shown_diff(ts),
    {
        if self.config.show_diff && self.timestamp != 0 {
            Some(
                if ts >= self.timestamp {
                    ts - self.timestamp
                } else {
                    0
                },
            )
        } else {
            None
        }
    }

    /// What is shown of the time since the last message, with a message of the time `ts`; none where
    /// nothing is shown or the duration is too long to be written exactly.
    pub fn diff_text(&self, ts: u64) -> (r: Option<String>)
        ensures
            text_option(r) == (match self.shown_diff(ts) {
                Some(ms) => if ms < EXACT_DURATION {
                    Some(" +"@ + duration_text(ms as nat))
                } else {
                    None
                },
                None => None,
            }),
    {
        match self.diff(ts) {
            Some(ms) => match format_duration(ms) {
                Some(duration) => Some(diff_label(duration.as_str())),
                None => None,
            },
            None => None,
        }
    }

    /// Renders a message of the time `ts`.
    pub fn render(&mut self, kind: LoggerType, name: &str, ts: u64, painted: &Painted) -> (r:
        String)
        requires
            painted.diff is Some <==> old(self).config.show_diff && old(self).timestamp != 0,
            indent_of(old(self).config) <= usize::MAX,
            0 <= pad_of(old(self).config.label, painted.label@.len(), name@.len()) <= usize::MAX,
            old(self).config.label matches Some(style) ==> style.width + painted.label@.len()
                <= usize::MAX,
        ensures
            r@ == rendered(old(self).config, kind, name@, *painted),
            final(self).config == old(self).config,
            final(self).timestamp == ts,
    {
        let ghost config = self.config;
        let margin: usize = match &self.config.label {
            Some(style) => style.margin,
            None => 1,
        };
        let mut space = String::new();
        push_repeated(&mut space, ' ', margin);
        assert(space@ =~= repeated(' ', margin_of(config.label)));
        let mut prefix = "[".to_owned();
        prefix.push(type_char(kind));
        prefix.append("]");
        let mut output = String::new();
        let time_bytes: usize = self.config.show_time.as_str().len();
        let mut indent: usize = 3 + margin;
        if !self.config.show_time.as_str().is_empty() {
            indent += time_bytes;
            output.append(painted.time.as_str());
            assert(output@ =~= painted.time@);
        } else {
            assert(config.show_time@ =~= Seq::<char>::empty());
            proof {
                lemma_empty_utf8();
            }
        }
        let ghost time = output@;
        let painted_len: usize = painted.label.as_str().unicode_len();
        let pad: usize = match &self.config.label {
            Some(style) => style.width + painted_len - name.unicode_len(),
            None => 0,
        };
        let mut right: bool = false;
        if let Some(style) = &self.config.label {
            if let Align::Right = style.align {
                right = true;
                indent += style.width + margin;
            }
        }
        if right {
            output.append(pad_start(painted.label.as_str(), pad).as_str());
            output.append(space.as_str());
            output.append(prefix.as_str());
            output.append(space.as_str());
        } else {
            output.append(prefix.as_str());
            output.append(space.as_str());
            output.append(pad_end(painted.label.as_str(), pad).as_str());
            output.append(space.as_str());
        }
        assert(indent == indent_of(config));
        output.append(indent_lines(painted.message.as_str(), indent).as_str());
        if let Some(diff) = &painted.diff {
            output.append(diff.as_str());
        }
        self.timestamp = ts;
        output
    }
}

proof fn lemma_empty_utf8()
    ensures
        encode_utf8(Seq::<char>::empty()).len() == 0,
{
}

} // verus!
