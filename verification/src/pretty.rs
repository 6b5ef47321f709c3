//! The renderer: from a change tree to indented, optionally styled text.

use vstd::prelude::*;
use vstd::string::*;
use crate::diff::{Diff, DiffLogger};
use crate::text::{indent, indented, int_string, int_text, digit_text, join, joined, nat_string, nat_text, texts};
use crate::tree::{height, lemma_fields_height, lemma_items_height};
use crate::types::{
    entries_model, fields_model, lemma_entries_model, lemma_fields_model, lemma_notes_model,
    lemma_values_model, notes_model, values_model, Change, Content, Delta, Entry, FieldChange,
    FieldContentChange, Header, Instant, Json, Note, Value, ValueChange,
};

verus! {

/// Whether the text carries ANSI escape sequences.
#[derive(Debug, Clone, Copy, PartialEq, Eq, Structural)]
pub enum Style {
    Plain,
    Ansi,
}

/// How to render: the style, and the offset of local time from UTC in
/// seconds (east positive) in which instants are shown.
#[derive(Debug, Clone, Copy, PartialEq, Eq, Structural)]
pub struct Format {
    pub style: Style,
    pub offset: i32,
}

/// `text` in the style that the SGR parameter `code` selects.
pub open spec fn painted(style: Style, code: Seq<char>, text: Seq<char>) -> Seq<char> {
    match style {
        Style::Plain => text,
        Style::Ansi => "\u{1b}["@ + code + "m"@ + text + "\u{1b}[0m"@,
    }
}

/// The colors of the report.
#[derive(Debug, Clone, Copy, PartialEq, Eq, Structural)]
pub enum Tint {
    Red,
    Green,
    Yellow,
    BrightBlack,
}

/// The SGR parameter that sets a color as the foreground.
pub open spec fn foreground_code(tint: Tint) -> Seq<char> {
    match tint {
        Tint::Red => "31"@,
        Tint::Green => "32"@,
        Tint::Yellow => "33"@,
        Tint::BrightBlack => "90"@,
    }
}

/// The SGR parameter that sets a color as the background.
pub open spec fn background_code(tint: Tint) -> Seq<char> {
    match tint {
        Tint::Red => "41"@,
        Tint::Green => "42"@,
        Tint::Yellow => "43"@,
        Tint::BrightBlack => "100"@,
    }
}

/// Calls `colored::Color::to_fg_str` on the color of that name. Nothing
/// is proved of it: the contract gives the parameter that colored has for
/// each of the four colors.
#[verifier::external_body]
fn foreground(tint: Tint) -> (r: String)
    ensures
        r@ == foreground_code(tint),
{
    let color = match tint {
        Tint::Red => colored::Color::Red,
        Tint::Green => colored::Color::Green,
        Tint::Yellow => colored::Color::Yellow,
        Tint::BrightBlack => colored::Color::BrightBlack,
    };
    color.to_fg_str().into_owned()
}

/// Calls `colored::Color::to_bg_str` on the color of that name. Nothing
/// is proved of it: the contract gives the parameter that colored has for
/// each of the four colors.
#[verifier::external_body]
fn background(tint: Tint) -> (r: String)
    ensures
        r@ == background_code(tint),
{
    let color = match tint {
        Tint::Red => colored::Color::Red,
        Tint::Green => colored::Color::Green,
        Tint::Yellow => colored::Color::Yellow,
        Tint::BrightBlack => colored::Color::BrightBlack,
    };
    color.to_bg_str().into_owned()
}

/// Styles `text` with the SGR parameter `code`.
pub fn paint(style: Style, code: &str, text: &str) -> (r: String)
    ensures
        r@ == painted(style, code@, text@),
{
    match style {
        Style::Plain => String::from_str(text),
        Style::Ansi => {
            let mut s: String = String::from_str("\u{1b}[");
            s.append(code);
            s.append("m");
            s.append(text);
            s.append("\u{1b}[0m");
            s
        },
    }
}

/// A bracketed list of header texts.
pub open spec fn header_list(xs: Seq<Seq<char>>, style: Style) -> Seq<char> {
    painted(style, foreground_code(Tint::BrightBlack), "\u{25D6}"@) + painted(
        style,
        background_code(Tint::BrightBlack),
        joined(xs, ", "@),
    ) + painted(style, foreground_code(Tint::BrightBlack), "\u{25D7}"@)
}

/// Renders header texts as a bracketed, comma-separated list.
pub fn headers(xs: Vec<String>, style: Style) -> (r: String)
    ensures
        r@ == header_list(texts(xs@), style),
{
    let edge: String = foreground(Tint::BrightBlack);
    let fill: String = background(Tint::BrightBlack);
    let mut s: String = paint(style, edge.as_str(), "\u{25D6}");
    let inner: String = join(&xs, ", ");
    let body: String = paint(style, fill.as_str(), inner.as_str());
    s.append(body.as_str());
    let close: String = paint(style, edge.as_str(), "\u{25D7}");
    s.append(close.as_str());
    s
}

/// A number below 100 in two digits.
pub open spec fn two(n: nat) -> Seq<char> {
    if n < 10 {
        "0"@ + digit_text(n)
    } else {
        nat_text(n)
    }
}

/// Writes a number in at least two digits.
fn two_digits(n: u128) -> (r: String)
    ensures
        r@ == two(n as nat),
{
    if n < 10 {
        let mut s: String = String::from_str("0");
        let d: String = nat_string(n);
        s.append(d.as_str());
        s
    } else {
        nat_string(n)
    }
}

/// The time of day of an instant at the given offset, as `HH:MM:SS`. The
/// nanoseconds do not enter: within a leap second the time shown is that
/// of the second before it.
pub open spec fn clock_text(t: Instant, offset: i32) -> Seq<char> {
    let second_of_day = (t.seconds + offset) % 86400;
    two((second_of_day / 3600) as nat) + ":"@ + two(((second_of_day / 60) % 60) as nat) + ":"@ + two(
        (second_of_day % 60) as nat,
    )
}

/// The whole seconds from `before` to `after`, rounded toward zero.
pub open spec fn elapsed(before: Instant, after: Instant) -> int {
    let nanos = (after.seconds - before.seconds) * 1_000_000_000 + (after.nanos - before.nanos);
    if nanos >= 0 {
        nanos / 1_000_000_000
    } else {
        -((-nanos) / 1_000_000_000)
    }
}

/// Whether `after` is later than `before`.
pub open spec fn later(before: Instant, after: Instant) -> bool {
    (after.seconds - before.seconds) * 1_000_000_000 + (after.nanos - before.nanos) > 0
}

/// The length of a span of whole seconds, whichever way it runs: as
/// hours and minutes from one hour on, as minutes and seconds from one
/// minute on, else as seconds. A span that runs backwards is written as
/// the span of the same length that runs forwards; its direction shows
/// in the style of the difference.
pub open spec fn span_text(s: int) -> Seq<char> {
    let length = if s < 0 {
        -s
    } else {
        s
    };
    if length >= 3600 {
        nat_text((length / 3600) as nat) + ":"@ + two(((length / 60) % 60) as nat) + " hours"@
    } else if length >= 60 {
        nat_text((length / 60) as nat) + ":"@ + two((length % 60) as nat) + " minutes"@
    } else {
        nat_text(length as nat) + " seconds"@
    }
}

/// Renders the length of a span of whole seconds.
pub fn span_string(s: i128) -> (r: String)
    ensures
        r@ == span_text(s as int),
{
    let length: u128 = if s < 0 {
        ((-(s + 1)) as u128) + 1
    } else {
        s as u128
    };
    if length >= 3600 {
        let mut out: String = nat_string(length / 3600);
        out.append(":");
        let m: String = two_digits((length / 60) % 60);
        out.append(m.as_str());
        out.append(" hours");
        out
    } else if length >= 60 {
        let mut out: String = nat_string(length / 60);
        out.append(":");
        let m: String = two_digits(length % 60);
        out.append(m.as_str());
        out.append(" minutes");
        out
    } else {
        let mut out: String = nat_string(length);
        out.append(" seconds");
        out
    }
}

/// A span of time in whole seconds.
#[derive(Debug, Clone, Copy, PartialEq, Eq, Structural)]
pub struct Span {
    pub seconds: i128,
}

/// The span from `before` to `after`, and whether `after` is the later.
pub fn span_between(before: &Instant, after: &Instant) -> (r: (Span, bool))
    ensures
        r.0.seconds == elapsed(*before, *after),
        r.1 == later(*before, *after),
{
    let nanos: i128 = (after.seconds as i128 - before.seconds as i128) * 1_000_000_000 + (after.nanos as i128
        - before.nanos as i128);
    if nanos >= 0 {
        (Span { seconds: nanos / 1_000_000_000 }, nanos > 0)
    } else {
        (Span { seconds: -((-nanos) / 1_000_000_000) }, false)
    }
}

/// A change with its difference behind it, the difference in green where
/// the value grew and in red where it did not.
pub open spec fn numeric_text(change: Seq<char>, difference: Seq<char>, is_positive: bool, style: Style) -> Seq<
    char,
> {
    change + " | "@ + painted(
        style,
        foreground_code(
            if is_positive {
                Tint::Green
            } else {
                Tint::Red
            },
        ),
        difference,
    )
}

/// What can be rendered as text.
pub trait PrettyLog {
    /// The text that `pretty` returns.
    spec fn text(&self, format: Format) -> Seq<char>;

    fn pretty(&self, format: &Format) -> (r: String)
        ensures
            r@ == self.text(*format),
    ;
}

impl PrettyLog for bool {
    open spec fn text(&self, format: Format) -> Seq<char> {
        if *self {
            "true"@
        } else {
            "false"@
        }
    }

    fn pretty(&self, format: &Format) -> (r: String) {
        if *self {
            String::from_str("true")
        } else {
            String::from_str("false")
        }
    }
}

impl PrettyLog for String {
    open spec fn text(&self, format: Format) -> Seq<char> {
        "\""@ + self@ + "\""@
    }

    fn pretty(&self, format: &Format) -> (r: String) {
        let mut s: String = String::from_str("\"");
        s.append(self.as_str());
        s.append("\"");
        s
    }
}

impl PrettyLog for Instant {
    open spec fn text(&self, format: Format) -> Seq<char> {
        clock_text(*self, format.offset)
    }

    fn pretty(&self, format: &Format) -> (r: String) {
        let local: i128 = self.seconds as i128 + format.offset as i128;
        let shifted: i128 = local + 86400 * 0x4000_0000_0000_0000;
        let second_of_day: u128 = (shifted as u128) % 86400;
        assert(second_of_day as int == (self.seconds + format.offset) % 86400);
        let mut s: String = two_digits(second_of_day / 3600);
        s.append(":");
        let m: String = two_digits((second_of_day / 60) % 60);
        s.append(m.as_str());
        s.append(":");
        let sec: String = two_digits(second_of_day % 60);
        s.append(sec.as_str());
        s
    }
}

impl<T: PrettyLog> PrettyLog for Change<T> {
    open spec fn text(&self, format: Format) -> Seq<char> {
        self.before.text(format) + " -> "@ + self.after.text(format)
    }

    fn pretty(&self, format: &Format) -> (r: String) {
        let mut s: String = self.before.pretty(format);
        s.append(" -> ");
        let after: String = self.after.pretty(format);
        s.append(after.as_str());
        s
    }
}

/// Renders a change with its difference behind it.
pub fn pretty_numeric<T: PrettyLog, C: PrettyLog>(change: &Change<T>, diff: C, is_positive: bool, format: &Format) -> (r:
    String)
    ensures
        r@ == numeric_text(change.text(*format), diff.text(*format), is_positive, format.style),
{
    let mut s: String = change.pretty(format);
    s.append(" | ");
    let difference: String = diff.pretty(format);
    let code: String = foreground(
        if is_positive {
            Tint::Green
        } else {
            Tint::Red
        },
    );
    let styled: String = paint(format.style, code.as_str(), difference.as_str());
    s.append(styled.as_str());
    s
}

impl PrettyLog for i128 {
    open spec fn text(&self, format: Format) -> Seq<char> {
        int_text(*self as int)
    }

    fn pretty(&self, format: &Format) -> (r: String) {
        int_string(*self)
    }
}

/// The difference of two integers: whether it lies below zero, and its
/// size.
#[derive(Debug, Clone, Copy, PartialEq, Eq, Structural)]
pub struct Difference {
    pub negative: bool,
    pub size: u128,
}

impl Difference {
    /// The difference as a number.
    pub open spec fn value(self) -> int {
        if self.negative {
            -(self.size as int)
        } else {
            self.size as int
        }
    }
}

/// The difference `after - before`.
pub fn difference(before: i128, after: i128) -> (r: Difference)
    ensures
        r.value() == after - before,
        r.negative == (after < before),
{
    if after >= before {
        if before >= 0 || after < 0 {
            Difference { negative: false, size: (after - before) as u128 }
        } else {
            Difference { negative: false, size: (after as u128) + (((-(before + 1)) as u128) + 1) }
        }
    } else {
        if after >= 0 || before < 0 {
            Difference { negative: true, size: (before - after) as u128 }
        } else {
            Difference { negative: true, size: (before as u128) + (((-(after + 1)) as u128) + 1) }
        }
    }
}

impl PrettyLog for Difference {
    open spec fn text(&self, format: Format) -> Seq<char> {
        int_text(self.value())
    }

    fn pretty(&self, format: &Format) -> (r: String) {
        if self.negative && self.size > 0 {
            let mut s: String = String::from_str("-");
            let m: String = nat_string(self.size);
            s.append(m.as_str());
            s
        } else {
            nat_string(self.size)
        }
    }
}

impl PrettyLog for Span {
    open spec fn text(&self, format: Format) -> Seq<char> {
        span_text(self.seconds as int)
    }

    fn pretty(&self, format: &Format) -> (r: String) {
        span_string(self.seconds)
    }
}

/// The text that serde_json writes for a JSON string with this content:
/// the content between double quotes, with the characters escaped that
/// JSON wants escaped.
pub uninterp spec fn json_quoted(text: Seq<char>) -> Seq<char>;

/// Calls serde_json's `Display` of `Value::String` through `to_string`.
/// Nothing is proved of it: the contract only names what serde_json
/// writes for a text.
#[verifier::external_body]
fn quote(text: &str) -> (r: String)
    ensures
        r@ == json_quoted(text@),
{
    serde_json::Value::String(text.to_owned()).to_string()
}

/// The flat form of a raw value: `null`, `true` or `false`, a number in
/// decimal, a text as a JSON string, an array or an object in compact
/// JSON.
pub open spec fn raw_text(v: Json) -> Seq<char>
    decreases v,
{
    match v {
        Json::Null => "null"@,
        Json::Bool(b) => if b {
            "true"@
        } else {
            "false"@
        },
        Json::Number(n) => int_text(n as int),
        Json::Decimal(s) => s,
        Json::Text(s) => json_quoted(s),
        Json::Array(xs) => "["@ + raw_items(xs) + "]"@,
        Json::Object(fs) => "{"@ + raw_fields(fs) + "}"@,
    }
}

/// The flat forms of the items with a comma between each two.
pub open spec fn raw_items(xs: Seq<Json>) -> Seq<char>
    decreases xs,
{
    if xs.len() == 0 {
        Seq::empty()
    } else if xs.len() == 1 {
        raw_text(xs.last())
    } else {
        raw_items(xs.drop_last()) + ","@ + raw_text(xs.last())
    }
}

/// The fields as `"name":value` with a comma between each two.
pub open spec fn raw_fields(fs: Seq<(Seq<char>, Json)>) -> Seq<char>
    decreases fs,
{
    if fs.len() == 0 {
        Seq::empty()
    } else if fs.len() == 1 {
        json_quoted(fs.last().0) + ":"@ + raw_text(fs.last().1)
    } else {
        raw_fields(fs.drop_last()) + ","@ + json_quoted(fs.last().0) + ":"@ + raw_text(fs.last().1)
    }
}

impl PrettyLog for Value {
    open spec fn text(&self, format: Format) -> Seq<char> {
        raw_text(self@)
    }

    fn pretty(&self, format: &Format) -> (r: String) {
        raw_string(self)
    }
}

/// Writes the flat form of a raw value.
pub fn raw_string(v: &Value) -> (r: String)
    ensures
        r@ == raw_text(v@),
    decreases height(v@),
{
    match v {
        Value::Null => String::from_str("null"),
        Value::Bool(b) => if *b {
            String::from_str("true")
        } else {
            String::from_str("false")
        },
        Value::Number(n) => int_string(*n),
        Value::Decimal(s) => s.clone(),
        Value::String(s) => quote(s.as_str()),
        Value::Array(xs) => {
            let ghost items = values_model(xs@);
            proof {
                lemma_values_model(xs@);
            }
            let mut out: String = String::from_str("[");
            let mut i: usize = 0;
            while i < xs.len()
                invariant
                    i <= xs.len(),
                    v@ == Json::Array(items),
                    items == values_model(xs@),
                    items.len() == xs.len(),
                    forall|j: int| 0 <= j < xs.len() ==> (#[trigger] items[j]) == xs@[j]@,
                    out@ == "["@ + raw_items(items.take(i as int)),
                decreases xs.len() - i,
            {
                proof {
                    lemma_items_height(items, i as int);
                    assert(items.take(i + 1).drop_last() =~= items.take(i as int));
                }
                let ghost before = out@;
                if i > 0 {
                    out.append(",");
                }
                let item: String = raw_string(&xs[i]);
                out.append(item.as_str());
                proof {
                    let sofar = raw_items(items.take(i as int));
                    if i > 0 {
                        assert(out@ =~= "["@ + (sofar + ","@ + item@));
                    } else {
                        assert(out@ =~= "["@ + item@);
                    }
                }
                i += 1;
            }
            proof {
                assert(items.take(xs.len() as int) =~= items);
            }
            out.append("]");
            out
        },
        Value::Object(fs) => {
            let ghost fields = fields_model(fs@);
            proof {
                lemma_fields_model(fs@);
            }
            let mut out: String = String::from_str("{");
            let mut i: usize = 0;
            while i < fs.len()
                invariant
                    i <= fs.len(),
                    v@ == Json::Object(fields),
                    fields == fields_model(fs@),
                    fields.len() == fs.len(),
                    forall|j: int| 0 <= j < fs.len() ==> (#[trigger] fields[j]) == (fs@[j].name@, fs@[j].value@),
                    out@ == "{"@ + raw_fields(fields.take(i as int)),
                decreases fs.len() - i,
            {
                proof {
                    lemma_fields_height(fields, i as int);
                    assert(fields.take(i + 1).drop_last() =~= fields.take(i as int));
                }
                if i > 0 {
                    out.append(",");
                }
                let name: String = quote(fs[i].name.as_str());
                out.append(name.as_str());
                out.append(":");
                let item: String = raw_string(&fs[i].value);
                out.append(item.as_str());
                proof {
                    let sofar = raw_fields(fields.take(i as int));
                    if i > 0 {
                        assert(out@ =~= "{"@ + (sofar + ","@ + name@ + ":"@ + item@));
                    } else {
                        assert(out@ =~= "{"@ + (name@ + ":"@ + item@));
                    }
                }
                i += 1;
            }
            proof {
                assert(fields.take(fs.len() as int) =~= fields);
            }
            out.append("}");
            out
        },
    }
}

/// The text of a change.
pub open spec fn delta_text(d: Delta, format: Format) -> Seq<char>
    decreases d, 0nat,
{
    match d {
        Delta::Entries(es) => entries_text(es, es.len(), format),
        Delta::Value(a, b) => raw_text(a) + " -> "@ + raw_text(b),
        Delta::Number(a, b) => numeric_text(
            int_text(a as int) + " -> "@ + int_text(b as int),
            int_text(b - a),
            b > a,
            format.style,
        ),
        Delta::Date(a, b) => numeric_text(
            clock_text(a, format.offset) + " -> "@ + clock_text(b, format.offset),
            span_text(elapsed(a, b)),
            later(a, b),
            format.style,
        ),
        Delta::Text(a, b) => "\""@ + a + "\""@ + " -> "@ + ("\""@ + b + "\""@),
        Delta::Bool(a, b) => a.text(format) + " -> "@ + b.text(format),
    }
}

/// The texts of the first `n` entries, each with its later lines shifted
/// two spaces to the right, one below the other.
pub open spec fn entries_text(es: Seq<Entry>, n: nat, format: Format) -> Seq<char>
    decreases es, n,
{
    if n == 0 || n > es.len() {
        Seq::empty()
    } else if n == 1 {
        indented(entry_text(es[0], format))
    } else {
        entries_text(es, (n - 1) as nat, format) + "\n"@ + indented(entry_text(es[n - 1], format))
    }
}

/// The mark of a field and its name: `~` for a modified field, `-` for a
/// deleted and `+` for a new one, in yellow, red and green.
pub open spec fn label_text(e: Entry, style: Style) -> Seq<char> {
    match e.content {
        Content::Diff(_) => painted(style, foreground_code(Tint::Yellow), "~ "@ + e.name),
        Content::Deleted(_) => painted(style, foreground_code(Tint::Red), "- "@ + e.name),
        Content::New(_) => painted(style, foreground_code(Tint::Green), "+ "@ + e.name),
    }
}

/// The text of a field change: its label, its headers where it has any,
/// and its content behind a colon. Without content there is no colon; a
/// composite with fields starts on a line of its own; other content
/// follows after a space.
pub open spec fn entry_text(e: Entry, format: Format) -> Seq<char>
    decreases e, 0nat,
{
    let head = label_text(e, format.style) + (if e.headers.len() == 0 {
        Seq::empty()
    } else {
        header_list(note_texts(e.headers, e.headers.len(), format), format.style)
    });
    let body = content_text(e.content, format);
    if body.len() == 0 {
        head
    } else if e.content matches Content::Diff(d) && !d.is_leaf() {
        head + ":"@ + "\n"@ + body
    } else {
        head + ":"@ + " "@ + body
    }
}

/// The texts of the first `n` headers' changes.
pub open spec fn note_texts(hs: Seq<Note>, n: nat, format: Format) -> Seq<Seq<char>>
    decreases hs, n,
{
    if n == 0 || n > hs.len() {
        Seq::empty()
    } else {
        note_texts(hs, (n - 1) as nat, format).push(delta_text(hs[n - 1].content, format))
    }
}

/// The text of a field's content: a raw value flat, a change as such.
pub open spec fn content_text(c: Content, format: Format) -> Seq<char>
    decreases c, 0nat,
{
    match c {
        Content::Diff(d) => delta_text(d, format),
        Content::Deleted(v) => raw_text(v),
        Content::New(v) => raw_text(v),
    }
}

/// The text of an optional change: empty where there is none.
pub open spec fn option_text(c: Option<Delta>, format: Format) -> Seq<char> {
    match c {
        Some(d) => delta_text(d, format),
        None => Seq::empty(),
    }
}

/// Renders a change.
fn pretty_change(c: &ValueChange, format: &Format) -> (r: String)
    ensures
        r@ == delta_text(c@, *format),
    decreases c, 0nat,
{
    match c {
        ValueChange::Entries(elems) => {
            proof {
                lemma_entries_model(elems@);
            }
            pretty_entries(elems, elems.len(), format)
        },
        ValueChange::Value(ch) => ch.pretty(format),
        ValueChange::Number(ch) => pretty_numeric(
            ch,
            difference(ch.before, ch.after),
            ch.after > ch.before,
            format,
        ),
        ValueChange::Date(ch) => {
            let between: (Span, bool) = span_between(&ch.before, &ch.after);
            pretty_numeric(ch, between.0, between.1, format)
        },
        ValueChange::String(ch) => ch.pretty(format),
        ValueChange::Bool(ch) => ch.pretty(format),
    }
}

/// Renders the first `n` field changes, one below the other.
fn pretty_entries(es: &Vec<FieldChange>, n: usize, format: &Format) -> (r: String)
    requires
        n <= es.len(),
    ensures
        r@ == entries_text(entries_model(es@), n as nat, *format),
    decreases es, n,
{
    proof {
        lemma_entries_model(es@);
    }
    if n == 0 {
        String::new()
    } else {
        let mut out: String = pretty_entries(es, n - 1, format);
        if n > 1 {
            out.append("\n");
        }
        let item: String = indent(pretty_field(&es[n - 1], format));
        proof {
            if n == 1 {
                assert(out@ + item@ =~= item@);
            }
        }
        out.append(item.as_str());
        out
    }
}

/// Renders the changes of the first `n` headers.
fn header_texts(hs: &Vec<Header>, n: usize, format: &Format) -> (r: Vec<String>)
    requires
        n <= hs.len(),
    ensures
        texts(r@) == note_texts(notes_model(hs@), n as nat, *format),
    decreases hs, n,
{
    proof {
        lemma_notes_model(hs@);
    }
    if n == 0 {
        let r: Vec<String> = Vec::new();
        assert(texts(r@) =~= Seq::<Seq<char>>::empty());
        r
    } else {
        let mut out: Vec<String> = header_texts(hs, n - 1, format);
        let ghost before = out@;
        let item: String = pretty_change(&hs[n - 1].content, format);
        out.push(item);
        assert(texts(out@) =~= texts(before).push(item@));
        out
    }
}

/// Renders the headers of a field as a bracketed list, or as nothing
/// where there are none.
fn print_headers(vs: &Vec<Header>, format: &Format) -> (r: String)
    ensures
        r@ == (if vs.len() == 0 {
            Seq::<char>::empty()
        } else {
            header_list(note_texts(notes_model(vs@), vs.len() as nat, *format), format.style)
        }),
    decreases vs, vs.len() + 1,
{
    if vs.len() == 0 {
        return String::new();
    }
    headers(header_texts(vs, vs.len(), format), format.style)
}

/// Renders the content of a field change.
fn pretty_content(c: &FieldContentChange, format: &Format) -> (r: String)
    ensures
        r@ == content_text(c@, *format),
    decreases c, 0nat,
{
    match c {
        FieldContentChange::Diff(d) => pretty_change(d, format),
        FieldContentChange::Deleted(x) => x.pretty(format),
        FieldContentChange::New(x) => x.pretty(format),
    }
}

/// Renders a field change: label, headers, and the content behind a
/// colon.
fn pretty_field(e: &FieldChange, format: &Format) -> (r: String)
    ensures
        r@ == entry_text(e@, *format),
    decreases e, 0nat,
{
    proof {
        lemma_notes_model(e.headers@);
    }
    let new_line: bool = match &e.content {
        FieldContentChange::Diff(v) => !v.is_leaf(),
        _ => false,
    };
    let mut mark: String = match &e.content {
        FieldContentChange::Diff(_) => String::from_str("~ "),
        FieldContentChange::Deleted(_) => String::from_str("- "),
        FieldContentChange::New(_) => String::from_str("+ "),
    };
    mark.append(e.name.as_str());
    let code: String = match &e.content {
        FieldContentChange::Diff(_) => foreground(Tint::Yellow),
        FieldContentChange::Deleted(_) => foreground(Tint::Red),
        FieldContentChange::New(_) => foreground(Tint::Green),
    };
    let mut out: String = paint(format.style, code.as_str(), mark.as_str());
    let notes: String = print_headers(&e.headers, format);
    out.append(notes.as_str());
    let value: String = pretty_content(&e.content, format);
    if value.as_str().unicode_len() == 0 {
        return out;
    }
    out.append(":");
    if new_line {
        out.append("\n");
    } else {
        out.append(" ");
    }
    out.append(value.as_str());
    out
}

impl PrettyLog for ValueChange {
    open spec fn text(&self, format: Format) -> Seq<char> {
        delta_text(self@, format)
    }

    fn pretty(&self, format: &Format) -> (r: String) {
        pretty_change(self, format)
    }
}

impl PrettyLog for FieldContentChange {
    open spec fn text(&self, format: Format) -> Seq<char> {
        content_text(self@, format)
    }

    fn pretty(&self, format: &Format) -> (r: String) {
        pretty_content(self, format)
    }
}

impl PrettyLog for Header {
    open spec fn text(&self, format: Format) -> Seq<char> {
        delta_text(self@.content, format)
    }

    fn pretty(&self, format: &Format) -> (r: String) {
        pretty_change(&self.content, format)
    }
}

impl PrettyLog for FieldChange {
    open spec fn text(&self, format: Format) -> Seq<char> {
        entry_text(self@, format)
    }

    fn pretty(&self, format: &Format) -> (r: String) {
        pretty_field(self, format)
    }
}

impl<T: PrettyLog> PrettyLog for Option<T> {
    open spec fn text(&self, format: Format) -> Seq<char> {
        match self {
            Some(v) => v.text(format),
            None => Seq::empty(),
        }
    }

    fn pretty(&self, format: &Format) -> (r: String) {
        match self {
            Some(v) => v.pretty(format),
            None => String::new(),
        }
    }
}

impl DiffLogger {
    /// The rendered change from `prev` to `next`: empty where the two
    /// are equal.
    pub fn diff<T: Diff>(&self, prev: &T, next: &T, format: &Format) -> (r: String)
        ensures
            r@ == option_text(prev.delta(next, self@), *format),
    {
        let change: Option<ValueChange> = prev.diff_value(next, self);
        change.pretty(format)
    }
}

} // verus!
