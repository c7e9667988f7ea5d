//! Console-style formatting: log levels, ANSI colors, separators and
//! indentation, and the text written for values, objects and format
//! templates.
use vstd::prelude::*;

use crate::text::{chars_of, join, push_char};

verus! {

/// The largest indentation level that has its own indentation text.
pub const MAX_INDENTATION_LEVEL: usize = 4;

/// The depth from which objects and arrays are no longer expanded.
pub const MAX_EXPANSION_DEPTH: usize = 4;

// ---------------------------------------------------------------------------
// Colors.
// ---------------------------------------------------------------------------

/// The ANSI escape sequence at index `i` of the color table; entries that
/// no color uses are empty, so that a masked-out color writes nothing.
pub open spec fn color_text(i: int) -> Seq<char> {
    if i == 1 {
        "\x1b[0m"@
    } else if i == 2 {
        "\x1b[1m"@
    } else if i == 31 {
        "\x1b[30m"@
    } else if i == 32 {
        "\x1b[31m"@
    } else if i == 33 {
        "\x1b[32m"@
    } else if i == 34 {
        "\x1b[33m"@
    } else if i == 35 {
        "\x1b[34m"@
    } else if i == 36 {
        "\x1b[35m"@
    } else if i == 37 {
        "\x1b[36m"@
    } else if i == 38 {
        "\x1b[37m"@
    } else {
        ""@
    }
}

fn color_lookup(i: usize) -> (r: &'static str)
    requires
        i < 39,
    ensures
        r@ == color_text(i as int),
{
    match i {
        1 => "\x1b[0m",
        2 => "\x1b[1m",
        31 => "\x1b[30m",
        32 => "\x1b[31m",
        33 => "\x1b[32m",
        34 => "\x1b[33m",
        35 => "\x1b[34m",
        36 => "\x1b[35m",
        37 => "\x1b[36m",
        38 => "\x1b[37m",
        _ => "",
    }
}

/// A terminal color; each has the index of its escape sequence in the
/// color table (its SGR code plus one, so that index 0 is empty).
#[allow(non_camel_case_types)]
#[derive(Debug, Clone, Copy, PartialEq, Eq, Structural)]
pub enum Color {
    RESET,
    BOLD,
    BLACK,
    RED,
    GREEN,
    YELLOW,
    BLUE,
    MAGENTA,
    CYAN,
    WHITE,
}

/// The index of a color's escape sequence in the color table.
pub open spec fn color_index(c: Color) -> usize {
    match c {
        Color::RESET => 1,
        Color::BOLD => 2,
        Color::BLACK => 31,
        Color::RED => 32,
        Color::GREEN => 33,
        Color::YELLOW => 34,
        Color::BLUE => 35,
        Color::MAGENTA => 36,
        Color::CYAN => 37,
        Color::WHITE => 38,
    }
}

/// What writing color `c` under mask `enabled` appends: the table entry at
/// the color's index masked by `enabled` (all of the escape sequence when
/// `enabled` is all ones, nothing when it is zero).
pub open spec fn masked_color(c: Color, enabled: usize) -> Seq<char> {
    color_text((color_index(c) & enabled) as int)
}

proof fn lemma_and_le(a: usize, b: usize)
    ensures
        a & b <= a,
{
    assert(a & b <= a) by (bit_vector);
}

impl Color {
    /// The number that stands for the color: its SGR code plus one, which
    /// is also the index of its escape sequence in the color table.
    pub fn index(self) -> (r: usize)
        ensures
            r == color_index(self),
    {
        match self {
            Color::RESET => 1,
            Color::BOLD => 2,
            Color::BLACK => 31,
            Color::RED => 32,
            Color::GREEN => 33,
            Color::YELLOW => 34,
            Color::BLUE => 35,
            Color::MAGENTA => 36,
            Color::CYAN => 37,
            Color::WHITE => 38,
        }
    }

    /// Appends the escape sequence of this color, masked by `enabled`.
    pub fn push(self, value: &mut String, enabled: usize)
        ensures
            final(value)@ == old(value)@ + masked_color(self, enabled),
    {
        let i = self.index() & enabled;
        proof {
            lemma_and_le(color_index(self), enabled);
        }
        value.append(color_lookup(i));
    }

    /// Appends the reset sequence, masked by `enabled`.
    pub fn reset(value: &mut String, enabled: usize)
        ensures
            final(value)@ == old(value)@ + masked_color(Color::RESET, enabled),
    {
        Color::RESET.push(value, enabled);
    }
}

// ---------------------------------------------------------------------------
// Log levels.
// ---------------------------------------------------------------------------

/// The severity of a log record.
#[derive(Debug, Clone, Copy, PartialEq, Eq, Structural)]
pub enum LogLevel {
    Trace,
    Debug,
    Info,
    Warn,
    Error,
    Fatal,
}

/// The name of a level.
pub open spec fn level_name(l: LogLevel) -> Seq<char> {
    match l {
        LogLevel::Trace => "TRACE"@,
        LogLevel::Debug => "DEBUG"@,
        LogLevel::Info => "INFO"@,
        LogLevel::Warn => "WARN"@,
        LogLevel::Error => "ERROR"@,
        LogLevel::Fatal => "FATAL"@,
    }
}

/// The level named `s`; any other text means `Info`.
pub open spec fn level_of_name(s: Seq<char>) -> LogLevel {
    if s == "TRACE"@ {
        LogLevel::Trace
    } else if s == "DEBUG"@ {
        LogLevel::Debug
    } else if s == "INFO"@ {
        LogLevel::Info
    } else if s == "WARN"@ {
        LogLevel::Warn
    } else if s == "ERROR"@ {
        LogLevel::Error
    } else if s == "FATAL"@ {
        LogLevel::Fatal
    } else {
        LogLevel::Info
    }
}

/// Whether two string slices hold the same characters.
fn str_eq(a: &str, b: &str) -> (r: bool)
    ensures
        r == (a@ == b@),
{
    let x = chars_of(a);
    let y = chars_of(b);
    if x.len() != y.len() {
        return false;
    }
    let mut i: usize = 0;
    while i < x.len()
        invariant
            x@ == a@,
            y@ == b@,
            x.len() == y.len(),
            i <= x.len(),
            forall|j: int| 0 <= j < i ==> x@[j] == y@[j],
        decreases x.len() - i,
    {
        if x[i] != y[i] {
            return false;
        }
        i += 1;
    }
    assert(x@ =~= y@);
    true
}

/// The number that stands for a level: one bit each, from `Trace` (0) on.
pub open spec fn level_value(l: LogLevel) -> u8 {
    match l {
        LogLevel::Trace => 0,
        LogLevel::Debug => 1,
        LogLevel::Info => 2,
        LogLevel::Warn => 4,
        LogLevel::Error => 8,
        LogLevel::Fatal => 16,
    }
}

impl LogLevel {
    /// The number that stands for the level.
    pub fn value(&self) -> (r: u8)
        ensures
            r == level_value(*self),
    {
        match self {
            LogLevel::Trace => 0,
            LogLevel::Debug => 1,
            LogLevel::Info => 2,
            LogLevel::Warn => 4,
            LogLevel::Error => 8,
            LogLevel::Fatal => 16,
        }
    }

    /// The name of the level, in capitals.
    pub fn to_string(&self) -> (r: String)
        ensures
            r@ == level_name(*self),
    {
        match self {
            LogLevel::Trace => "TRACE".to_owned(),
            LogLevel::Debug => "DEBUG".to_owned(),
            LogLevel::Info => "INFO".to_owned(),
            LogLevel::Warn => "WARN".to_owned(),
            LogLevel::Error => "ERROR".to_owned(),
            LogLevel::Fatal => "FATAL".to_owned(),
        }
    }

    /// The level with the given name; an unknown name gives `Info`.
    pub fn from_str(s: &str) -> (r: Self)
        ensures
            r == level_of_name(s@),
    {
        if str_eq(s, "TRACE") {
            LogLevel::Trace
        } else if str_eq(s, "DEBUG") {
            LogLevel::Debug
        } else if str_eq(s, "INFO") {
            LogLevel::Info
        } else if str_eq(s, "WARN") {
            LogLevel::Warn
        } else if str_eq(s, "ERROR") {
            LogLevel::Error
        } else if str_eq(s, "FATAL") {
            LogLevel::Fatal
        } else {
            LogLevel::Info
        }
    }
}

/// Reading back the name of a level gives that level.
pub proof fn law_level_name_round_trip(l: LogLevel)
    ensures
        level_of_name(level_name(l)) == l,
{
    reveal_strlit("TRACE");
    reveal_strlit("DEBUG");
    reveal_strlit("INFO");
    reveal_strlit("WARN");
    reveal_strlit("ERROR");
    reveal_strlit("FATAL");
    match l {
        LogLevel::Trace => {},
        LogLevel::Debug => {
            assert("DEBUG"@[0] != "TRACE"@[0]);
        },
        LogLevel::Info => {
            assert("INFO"@[0] != "TRACE"@[0]);
            assert("INFO"@[0] != "DEBUG"@[0]);
        },
        LogLevel::Warn => {
            assert("WARN"@[0] != "TRACE"@[0]);
            assert("WARN"@[0] != "DEBUG"@[0]);
            assert("WARN"@[0] != "INFO"@[0]);
        },
        LogLevel::Error => {
            assert("ERROR"@[0] != "TRACE"@[0]);
            assert("ERROR"@[0] != "DEBUG"@[0]);
            assert("ERROR"@[0] != "INFO"@[0]);
            assert("ERROR"@[0] != "WARN"@[0]);
        },
        LogLevel::Fatal => {
            assert("FATAL"@[0] != "TRACE"@[0]);
            assert("FATAL"@[0] != "DEBUG"@[0]);
            assert("FATAL"@[0] != "INFO"@[0]);
            assert("FATAL"@[0] != "WARN"@[0]);
            assert("FATAL"@[0] != "ERROR"@[0]);
        },
    }
}

// ---------------------------------------------------------------------------
// Options, masks, separators and indentation.
// ---------------------------------------------------------------------------

/// The switches that decide how values are written: whether escape
/// sequences for colors are written, and which line breaks separate the
/// members of an expanded object.
pub struct FormatOptions {
    pub color: bool,
    pub newline: bool,
}

impl FormatOptions {
    /// Options with the given switches.
    pub fn new(color: bool, newline: bool) -> (r: Self)
        ensures
            r.color == color,
            r.newline == newline,
    {
        FormatOptions { color, newline }
    }
}

/// All ones (`!0`) when `condition` holds, zero otherwise.
pub open spec fn mask_of(condition: bool) -> usize {
    if condition {
        !0usize
    } else {
        0
    }
}

/// A mask of all ones when `condition` holds and zero otherwise.
pub fn bitmask(condition: bool) -> (r: usize)
    ensures
        r == mask_of(condition),
{
    if condition {
        !0usize
    } else {
        0
    }
}

/// The masks for writing at `depth`: the color mask, the mask of "not at
/// the root", and 1 or 0 for "not at the root".
pub fn get_masks(options: &FormatOptions, depth: usize) -> (r: (usize, usize, usize))
    ensures
        r.0 == mask_of(options.color),
        r.1 == mask_of(depth != 0),
        r.2 == (if depth != 0 {
            1usize
        } else {
            0usize
        }),
{
    let color_enabled_mask = bitmask(options.color);
    let not_root_mask = bitmask(depth != 0);
    let not_root: usize = if depth != 0 {
        1
    } else {
        0
    };
    (color_enabled_mask, not_root_mask, not_root)
}

/// The separator written before an object member: an optional comma, then
/// nothing, a carriage return, a space or a line feed, after whether the
/// object is indented and whether line feeds are used.
pub open spec fn separator_text(add_comma: bool, has_indentation: bool, newline: bool) -> Seq<
    char,
> {
    if !newline && !has_indentation {
        if add_comma {
            ","@
        } else {
            ""@
        }
    } else if !newline && has_indentation {
        if add_comma {
            ",\r"@
        } else {
            "\r"@
        }
    } else if newline && !has_indentation {
        if add_comma {
            ", "@
        } else {
            " "@
        }
    } else {
        if add_comma {
            ",\n"@
        } else {
            "\n"@
        }
    }
}

/// Appends the separator between object members.
pub fn write_sep(result: &mut String, add_comma: bool, has_indentation: bool, newline: bool)
    ensures
        final(result)@ == old(result)@ + separator_text(add_comma, has_indentation, newline),
{
    let sep = if !newline && !has_indentation {
        if add_comma {
            ","
        } else {
            ""
        }
    } else if !newline && has_indentation {
        if add_comma {
            ",\r"
        } else {
            "\r"
        }
    } else if newline && !has_indentation {
        if add_comma {
            ", "
        } else {
            " "
        }
    } else {
        if add_comma {
            ",\n"
        } else {
            "\n"
        }
    };
    result.append(sep);
}

/// The indentation of nesting level `depth`.
pub open spec fn indentation_text(depth: int) -> Seq<char> {
    if depth == 0 {
        ""@
    } else if depth == 1 {
        "  "@
    } else if depth == 2 {
        "    "@
    } else if depth == 3 {
        "        "@
    } else {
        "                "@
    }
}

/// Appends the indentation of nesting level `depth`.
pub fn push_indentation(result: &mut String, depth: usize)
    requires
        depth <= MAX_INDENTATION_LEVEL,
    ensures
        final(result)@ == old(result)@ + indentation_text(depth as int),
{
    let text = if depth == 0 {
        ""
    } else if depth == 1 {
        "  "
    } else if depth == 2 {
        "    "
    } else if depth == 3 {
        "        "
    } else {
        "                "
    };
    result.append(text);
}

/// A single quote when `n` is 1, nothing when it is 0.
pub open spec fn quote_text(n: int) -> Seq<char> {
    if n == 1 {
        "'"@
    } else {
        ""@
    }
}

fn quote_lookup(n: usize) -> (r: &'static str)
    requires
        n < 2,
    ensures
        r@ == quote_text(n as int),
{
    if n == 1 {
        "'"
    } else {
        ""
    }
}

// ---------------------------------------------------------------------------
// Strings.
// ---------------------------------------------------------------------------

/// Appends a string value: in green and single quotes below the root, as
/// it is at the root.
pub fn format_raw_string_inner(
    result: &mut String,
    value: String,
    not_root_mask: usize,
    color_enabled_mask: usize,
    not_root: usize,
)
    requires
        not_root < 2,
    ensures
        final(result)@ == old(result)@ + masked_color(
            Color::GREEN,
            not_root_mask & color_enabled_mask,
        ) + quote_text(not_root as int) + value@ + quote_text(not_root as int),
{
    Color::GREEN.push(result, not_root_mask & color_enabled_mask);
    result.append(quote_lookup(not_root));
    result.append(value.as_str());
    result.append(quote_lookup(not_root));
}

/// Appends a string value written at the root: the text itself.
pub fn format_raw_string(result: &mut String, value: String, options: &FormatOptions)
    ensures
        final(result)@ == old(result)@ + masked_color(Color::GREEN, 0) + quote_text(0)
            + value@ + quote_text(0),
{
    let (color_enabled_mask, not_root_mask, not_root) = get_masks(options, 0);
    proof {
        assert(0usize & color_enabled_mask == 0usize) by (bit_vector);
    }
    format_raw_string_inner(result, value, not_root_mask, color_enabled_mask, not_root);
}

/// `s` with every line feed turned into a carriage return.
pub open spec fn newlines_to_carriage_returns(s: Seq<char>) -> Seq<char> {
    s.map_values(|c: char| if c == '\n' {
        '\r'
    } else {
        c
    })
}

/// Turns every line feed of `result` into a carriage return.
pub fn replace_newline_with_carriage_return(result: &mut String)
    ensures
        final(result)@ == newlines_to_carriage_returns(old(result)@),
{
    let chars = chars_of(result.as_str());
    let mut out = String::new();
    let mut i: usize = 0;
    while i < chars.len()
        invariant
            chars@ == old(result)@,
            i <= chars.len(),
            out@ == newlines_to_carriage_returns(chars@.take(i as int)),
        decreases chars.len() - i,
    {
        let c = chars[i];
        if c == '\n' {
            push_char(&mut out, '\r');
        } else {
            push_char(&mut out, c);
        }
        assert(newlines_to_carriage_returns(chars@.take(i + 1)) =~= newlines_to_carriage_returns(
            chars@.take(i as int),
        ).push(if c == '\n' {
            '\r'
        } else {
            c
        }));
        i += 1;
    }
    assert(chars@.take(chars@.len() as int) == chars@);
    *result = out;
}

// ---------------------------------------------------------------------------
// Integers.
// ---------------------------------------------------------------------------

/// The decimal digits of `n`, most significant first.
pub open spec fn decimal_digits(n: nat) -> Seq<char>
    decreases n,
{
    if n < 10 {
        seq![(('0' as int) + n) as char]
    } else {
        decimal_digits(n / 10).push((('0' as int) + n % 10) as char)
    }
}

/// The decimal text of `n`: a minus sign for a negative number, then the
/// digits of its magnitude.
pub open spec fn decimal_text(n: int) -> Seq<char> {
    if n < 0 {
        seq!['-'] + decimal_digits((-n) as nat)
    } else {
        decimal_digits(n as nat)
    }
}

/// `itoa::Buffer::format` (into a fresh buffer): the contract claims that the
/// text is the integer's decimal representation, with a leading `-` for a
/// negative number and no leading zeros.
#[verifier::external_body]
fn format_integer(n: i128) -> (r: String)
    ensures
        r@ == decimal_text(n as int),
{
    let mut buffer = itoa::Buffer::new();
    buffer.format(n).to_owned()
}

// ---------------------------------------------------------------------------
// Values.
// ---------------------------------------------------------------------------

/// What the writer reads of a value that is written without looking into
/// it. A floating-point number comes as the text that stands for it.
pub enum ScalarValue {
    /// `null`, or an uninitialized value.
    Null,
    Undefined,
    Bool(bool),
    /// A big integer, as the 64-bit integer that it converts to.
    BigInt(i64),
    Int(i32),
    /// A floating-point number, as its text.
    Float(String),
    Str(String),
    /// A symbol, by its description.
    Symbol(String),
    /// A function or a constructor: its name (empty when it has none) and
    /// whether it is a class.
    Function { name: String, is_class: bool },
    /// A value of any other type: nothing is written for it.
    Other,
}

/// What `format_scalar` writes before the final reset.
pub open spec fn scalar_text(value: ScalarValue, color_mask: usize, depth: int) -> Seq<char> {
    match value {
        ScalarValue::Null => masked_color(Color::BOLD, color_mask) + "null"@,
        ScalarValue::Undefined => masked_color(Color::BLACK, color_mask) + "undefined"@,
        ScalarValue::Bool(b) => masked_color(Color::YELLOW, color_mask) + (if b {
            "true"@
        } else {
            "false"@
        }),
        ScalarValue::BigInt(n) => masked_color(Color::YELLOW, color_mask) + decimal_text(n as int)
            + seq!['n'],
        ScalarValue::Int(n) => masked_color(Color::YELLOW, color_mask) + decimal_text(n as int),
        ScalarValue::Float(t) => masked_color(Color::YELLOW, color_mask) + t@,
        ScalarValue::Str(t) => {
            let not_root: int = if depth != 0 {
                1
            } else {
                0
            };
            masked_color(Color::GREEN, mask_of(depth != 0) & color_mask) + quote_text(not_root)
                + t@ + quote_text(not_root)
        },
        ScalarValue::Symbol(d) => masked_color(Color::YELLOW, color_mask) + "Symbol("@ + d@
            + seq![')'],
        ScalarValue::Function { name, is_class } => masked_color(Color::CYAN, color_mask) + (
        if is_class {
            "[class: "@
        } else {
            "[function: "@
        }) + (if name@.len() == 0 {
            "(anonymous)"@
        } else {
            name@
        }) + seq![']'],
        ScalarValue::Other => Seq::empty(),
    }
}

/// Appends a value that is written without looking into it, at `depth`,
/// followed by the (masked) reset sequence.
pub fn format_scalar(result: &mut String, value: ScalarValue, options: &FormatOptions, depth: usize)
    ensures
        final(result)@ == old(result)@ + scalar_text(value, mask_of(options.color), depth as int)
            + masked_color(Color::RESET, mask_of(options.color)),
{
    let ghost v = value;
    let (color_enabled_mask, not_root_mask, not_root) = get_masks(options, depth);
    match value {
        ScalarValue::Null => {
            Color::BOLD.push(result, color_enabled_mask);
            result.append("null");
        },
        ScalarValue::Undefined => {
            Color::BLACK.push(result, color_enabled_mask);
            result.append("undefined");
        },
        ScalarValue::Bool(b) => {
            Color::YELLOW.push(result, color_enabled_mask);
            result.append(if b {
                "true"
            } else {
                "false"
            });
        },
        ScalarValue::BigInt(n) => {
            Color::YELLOW.push(result, color_enabled_mask);
            result.append(format_integer(n as i128).as_str());
            push_char(result, 'n');
        },
        ScalarValue::Int(n) => {
            Color::YELLOW.push(result, color_enabled_mask);
            result.append(format_integer(n as i128).as_str());
        },
        ScalarValue::Float(t) => {
            Color::YELLOW.push(result, color_enabled_mask);
            result.append(t.as_str());
        },
        ScalarValue::Str(t) => {
            format_raw_string_inner(result, t, not_root_mask, color_enabled_mask, not_root);
        },
        ScalarValue::Symbol(d) => {
            Color::YELLOW.push(result, color_enabled_mask);
            result.append("Symbol(");
            result.append(d.as_str());
            push_char(result, ')');
        },
        ScalarValue::Function { name, is_class } => {
            Color::CYAN.push(result, color_enabled_mask);
            result.append(if is_class {
                "[class: "
            } else {
                "[function: "
            });
            if name.as_str().is_empty() {
                result.append("(anonymous)");
            } else {
                result.append(name.as_str());
            }
            push_char(result, ']');
        },
        ScalarValue::Other => {},
    }
    proof {
        assert(old(result)@ + scalar_text(v, mask_of(options.color), depth as int) == old(
            result,
        )@ + scalar_text(v, mask_of(options.color), depth as int));
    }
    Color::reset(result, color_enabled_mask);
}

proof fn lemma_mask_and(c: bool, x: usize)
    ensures
        mask_of(c) & x == (if c {
            x
        } else {
            0
        }),
        (mask_of(c) > 0) == c,
{
    assert(!0usize > 0usize) by (bit_vector);
    if c {
        assert(!0usize & x == x) by (bit_vector);
    } else {
        assert(0usize & x == 0) by (bit_vector);
    }
}

// ---------------------------------------------------------------------------
// Promises.
// ---------------------------------------------------------------------------

/// The state of a promise.
#[derive(Debug, Clone, Copy, PartialEq, Eq, Structural)]
pub enum PromiseStatus {
    Pending,
    Resolved,
    Rejected,
}

/// Whether a promise at `depth` is written over several indented lines:
/// only a settled one near the root is.
pub open spec fn promise_indented(status: PromiseStatus, depth: int) -> bool {
    depth < 2 && status != PromiseStatus::Pending
}

/// What is written of a promise before its settled value.
pub open spec fn promise_open_text(
    status: PromiseStatus,
    options: FormatOptions,
    depth: int,
) -> Seq<char> {
    let indented = promise_indented(status, depth);
    let color_mask = mask_of(options.color);
    "Promise {"@ + separator_text(false, indented, options.newline) + indentation_text(
        if indented {
            depth + 1
        } else {
            0
        },
    ) + match status {
        PromiseStatus::Pending => masked_color(Color::CYAN, color_mask) + "<pending>"@
            + masked_color(Color::RESET, color_mask),
        PromiseStatus::Resolved => Seq::empty(),
        PromiseStatus::Rejected => masked_color(Color::RED, color_mask) + "<rejected> "@
            + masked_color(Color::RESET, color_mask),
    }
}

/// What is written of a promise after its settled value.
pub open spec fn promise_close_text(
    status: PromiseStatus,
    options: FormatOptions,
    depth: int,
) -> Seq<char> {
    let indented = promise_indented(status, depth);
    separator_text(false, indented, options.newline) + indentation_text(
        if indented {
            depth
        } else {
            0
        },
    ) + seq!['}']
}

/// Appends the opening of a promise at `depth`: `Promise {`, the separator
/// and indentation, and the `<pending>` marker or the `<rejected>` prefix.
/// A settled value is written after it, one level deeper.
pub fn write_promise_open(
    result: &mut String,
    status: PromiseStatus,
    options: &FormatOptions,
    depth: usize,
)
    requires
        depth < usize::MAX,
    ensures
        final(result)@ == old(result)@ + promise_open_text(status, *options, depth as int),
{
    let (color_enabled_mask, _, _) = get_masks(options, 0);
    let is_pending = status == PromiseStatus::Pending;
    result.append("Promise {");
    let apply_indentation = bitmask(depth < 2 && !is_pending);
    write_sep(result, false, apply_indentation > 0, options.newline);
    proof {
        lemma_mask_and(depth < 2 && !is_pending, (depth + 1) as usize);
    }
    push_indentation(result, apply_indentation & (depth + 1));
    match status {
        PromiseStatus::Pending => {
            Color::CYAN.push(result, color_enabled_mask);
            result.append("<pending>");
            Color::reset(result, color_enabled_mask);
        },
        PromiseStatus::Resolved => {},
        PromiseStatus::Rejected => {
            Color::RED.push(result, color_enabled_mask);
            result.append("<rejected> ");
            Color::reset(result, color_enabled_mask);
        },
    }
}

/// Appends the closing of a promise at `depth`.
pub fn write_promise_close(
    result: &mut String,
    status: PromiseStatus,
    options: &FormatOptions,
    depth: usize,
)
    ensures
        final(result)@ == old(result)@ + promise_close_text(status, *options, depth as int),
{
    let is_pending = status == PromiseStatus::Pending;
    let apply_indentation = bitmask(depth < 2 && !is_pending);
    write_sep(result, false, apply_indentation > 0, options.newline);
    proof {
        lemma_mask_and(depth < 2 && !is_pending, depth);
    }
    push_indentation(result, apply_indentation & depth);
    push_char(result, '}');
}

// ---------------------------------------------------------------------------
// Objects: markers, errors, dates, regular expressions, class names.
// ---------------------------------------------------------------------------

/// Appends the marker of an object met again while it is being written.
pub fn write_circular(result: &mut String, color_enabled_mask: usize)
    ensures
        final(result)@ == old(result)@ + masked_color(Color::CYAN, color_enabled_mask)
            + "[Circular]"@ + masked_color(Color::RESET, color_enabled_mask),
{
    Color::CYAN.push(result, color_enabled_mask);
    result.append("[Circular]");
    Color::reset(result, color_enabled_mask);
}

/// Appends the marker of an array or object too deep to be expanded, then
/// the reset sequence.
pub fn write_collapsed_object(result: &mut String, is_object: bool, color_enabled_mask: usize)
    ensures
        final(result)@ == old(result)@ + masked_color(Color::CYAN, color_enabled_mask) + (
        if is_object {
            "[Object]"@
        } else {
            "[Array]"@
        }) + masked_color(Color::RESET, color_enabled_mask),
{
    Color::CYAN.push(result, color_enabled_mask);
    result.append(if is_object {
        "[Object]"
    } else {
        "[Array]"
    });
    Color::reset(result, color_enabled_mask);
}

/// Appends a date by its ISO text, in magenta.
pub fn write_date(result: &mut String, iso: &str, color_enabled_mask: usize)
    ensures
        final(result)@ == old(result)@ + masked_color(Color::MAGENTA, color_enabled_mask) + iso@
            + masked_color(Color::RESET, color_enabled_mask),
{
    Color::MAGENTA.push(result, color_enabled_mask);
    result.append(iso);
    Color::reset(result, color_enabled_mask);
}

/// Appends a regular expression as `/source/flags`, in red.
pub fn write_regexp(result: &mut String, source: &str, flags: &str, color_enabled_mask: usize)
    ensures
        final(result)@ == old(result)@ + masked_color(Color::RED, color_enabled_mask) + seq!['/']
            + source@ + seq!['/'] + flags@ + masked_color(Color::RESET, color_enabled_mask),
{
    Color::RED.push(result, color_enabled_mask);
    push_char(result, '/');
    result.append(source);
    push_char(result, '/');
    result.append(flags);
    Color::reset(result, color_enabled_mask);
}

/// A character of the Unicode `White_Space` property, which `str::trim`
/// removes.
pub open spec fn is_white_space(c: char) -> bool {
    let u = c as u32;
    ||| (0x09 <= u && u <= 0x0d)
    ||| u == 0x20
    ||| u == 0x85
    ||| u == 0xa0
    ||| u == 0x1680
    ||| (0x2000 <= u && u <= 0x200a)
    ||| u == 0x2028
    ||| u == 0x2029
    ||| u == 0x202f
    ||| u == 0x205f
    ||| u == 0x3000
}

fn is_white_space_exec(c: char) -> (r: bool)
    ensures
        r == is_white_space(c),
{
    let u = c as u32;
    (0x09 <= u && u <= 0x0d) || u == 0x20 || u == 0x85 || u == 0xa0 || u == 0x1680 || (0x2000 <= u
        && u <= 0x200a) || u == 0x2028 || u == 0x2029 || u == 0x202f || u == 0x205f || u == 0x3000
}

/// `s` without leading and trailing white space.
pub open spec fn trim_white_space(s: Seq<char>) -> Seq<char>
    decreases s.len(),
{
    if s.len() > 0 && is_white_space(s[0]) {
        trim_white_space(s.drop_first())
    } else if s.len() > 0 && is_white_space(s.last()) {
        trim_white_space(s.drop_last())
    } else {
        s
    }
}

/// `s` with each line feed replaced by `sep`.
pub open spec fn replace_line_feeds(s: Seq<char>, sep: Seq<char>) -> Seq<char>
    decreases s.len(),
{
    if s.len() == 0 {
        s
    } else if s.last() == '\n' {
        replace_line_feeds(s.drop_last(), sep) + sep
    } else {
        replace_line_feeds(s.drop_last(), sep).push(s.last())
    }
}

/// The line break before each line of a stack trace.
pub open spec fn line_break_text(newline: bool) -> Seq<char> {
    if newline {
        "\n"@
    } else {
        "\r"@
    }
}

/// What is written of a stack trace at indentation level `level`: the
/// trace is trimmed once as a whole, then each of its lines comes after a
/// line break and the indentation (see `law_stack_text_per_line`).
pub open spec fn stack_text(stack: Seq<char>, newline: bool, level: int) -> Seq<char> {
    let lead = line_break_text(newline) + indentation_text(level);
    lead + replace_line_feeds(trim_white_space(stack), lead)
}

/// The lines of `s`, split at each line feed (as `str::split('\n')`
/// splits: `s` with `k` line feeds has `k + 1` lines).
pub open spec fn lines_of(s: Seq<char>) -> Seq<Seq<char>>
    decreases s.len(),
{
    if s.len() == 0 {
        seq![Seq::<char>::empty()]
    } else if s.last() == '\n' {
        lines_of(s.drop_last()).push(Seq::empty())
    } else {
        let p = lines_of(s.drop_last());
        p.update(p.len() - 1, p.last().push(s.last()))
    }
}

/// Each line after `lead`, in order.
pub open spec fn lines_text(lines: Seq<Seq<char>>, lead: Seq<char>) -> Seq<char>
    decreases lines.len(),
{
    if lines.len() == 0 {
        Seq::empty()
    } else {
        lines_text(lines.drop_last(), lead) + lead + lines.last()
    }
}

proof fn lemma_lines_text(s: Seq<char>, lead: Seq<char>)
    ensures
        lines_of(s).len() >= 1,
        lead + replace_line_feeds(s, lead) == lines_text(lines_of(s), lead),
    decreases s.len(),
{
    if s.len() == 0 {
        let l = lines_of(s);
        assert(l.drop_last() =~= Seq::<Seq<char>>::empty());
        assert(lines_text(l.drop_last(), lead) == Seq::<char>::empty());
        assert(lines_text(l, lead) == lines_text(l.drop_last(), lead) + lead + l.last());
        assert(lead + replace_line_feeds(s, lead) =~= Seq::<char>::empty() + lead + Seq::<char>::empty());
    } else {
        let t = s.drop_last();
        lemma_lines_text(t, lead);
        let p = lines_of(t);
        if s.last() == '\n' {
            let l = p.push(Seq::<char>::empty());
            assert(lines_of(s) == l);
            assert(l.drop_last() =~= p);
            assert(lines_text(l, lead) == lines_text(l.drop_last(), lead) + lead + l.last());
            assert(replace_line_feeds(s, lead) == replace_line_feeds(t, lead) + lead);
            assert(lead + replace_line_feeds(s, lead) =~= (lead + replace_line_feeds(t, lead)) + lead
                + Seq::<char>::empty());
        } else {
            let l = p.update(p.len() - 1, p.last().push(s.last()));
            assert(lines_of(s) == l);
            assert(l.drop_last() =~= p.drop_last());
            assert(lines_text(l, lead) == lines_text(l.drop_last(), lead) + lead + l.last());
            assert(replace_line_feeds(s, lead) == replace_line_feeds(t, lead).push(s.last()));
            assert(lines_text(p, lead) == lines_text(p.drop_last(), lead) + lead + p.last());
            assert(lead + replace_line_feeds(s, lead) =~= (lines_text(p.drop_last(), lead) + lead
                + p.last()).push(s.last()));
            assert(lines_text(l, lead) =~= lines_text(p.drop_last(), lead) + lead + p.last().push(
                s.last(),
            ));
        }
    }
}

/// What is written of a stack trace is, for each line of the trace trimmed
/// as a whole, the line break, the indentation of `level` and the line.
pub proof fn law_stack_text_per_line(stack: Seq<char>, newline: bool, level: int)
    ensures
        stack_text(stack, newline, level) == lines_text(
            lines_of(trim_white_space(stack)),
            line_break_text(newline) + indentation_text(level),
        ),
{
    lemma_lines_text(
        trim_white_space(stack),
        line_break_text(newline) + indentation_text(level),
    );
}

proof fn lemma_trim_white_space_bounds(s: Seq<char>, lo: int, hi: int)
    requires
        0 <= lo <= hi <= s.len(),
        forall|i: int| 0 <= i < lo ==> #[trigger] is_white_space(s[i]),
        forall|i: int| hi <= i < s.len() ==> #[trigger] is_white_space(s[i]),
        lo < hi ==> !is_white_space(s[lo]) && !is_white_space(s[hi - 1]),
    ensures
        trim_white_space(s) == s.subrange(lo, hi),
    decreases s.len(),
{
    if s.len() > 0 && is_white_space(s[0]) {
        assert(lo > 0 || lo == hi);
        if lo > 0 {
            assert forall|i: int| 0 <= i < lo - 1 implies #[trigger] is_white_space(
                s.drop_first()[i],
            ) by {
                assert(s.drop_first()[i] == s[i + 1]);
            }
            assert forall|i: int| hi - 1 <= i < s.len() - 1 implies #[trigger] is_white_space(
                s.drop_first()[i],
            ) by {
                assert(s.drop_first()[i] == s[i + 1]);
            }
            lemma_trim_white_space_bounds(s.drop_first(), lo - 1, hi - 1);
            assert(s.drop_first().subrange(lo - 1, hi - 1) == s.subrange(lo, hi));
        } else {
            assert forall|i: int| 0 <= i < s.len() - 1 implies #[trigger] is_white_space(
                s.drop_first()[i],
            ) by {
                assert(s.drop_first()[i] == s[i + 1]);
            }
            lemma_trim_white_space_bounds(s.drop_first(), 0, 0);
            assert(s.drop_first().subrange(0, 0) == s.subrange(lo, hi));
        }
    } else if s.len() > 0 && is_white_space(s.last()) {
        assert(hi < s.len() || lo == hi);
        if lo == hi {
            assert(lo == 0);
            assert forall|i: int| 0 <= i < s.len() - 1 implies #[trigger] is_white_space(
                s.drop_last()[i],
            ) by {
                assert(s.drop_last()[i] == s[i]);
                if i < hi {
                    assert(is_white_space(s[i]));
                }
            }
            lemma_trim_white_space_bounds(s.drop_last(), 0, 0);
            assert(s.drop_last().subrange(0, 0) == s.subrange(lo, hi));
        } else {
            assert forall|i: int| 0 <= i < lo implies #[trigger] is_white_space(s.drop_last()[i]) by {
                assert(s.drop_last()[i] == s[i]);
            }
            assert forall|i: int| hi <= i < s.len() - 1 implies #[trigger] is_white_space(
                s.drop_last()[i],
            ) by {
                assert(s.drop_last()[i] == s[i]);
            }
            lemma_trim_white_space_bounds(s.drop_last(), lo, hi);
            assert(s.drop_last().subrange(lo, hi) == s.subrange(lo, hi));
        }
    } else {
        if lo > 0 {
            assert(is_white_space(s[0]));
        }
        if hi < s.len() {
            assert(is_white_space(s[s.len() - 1]));
        }
        assert(s.subrange(lo, hi) == s);
    }
}

/// Appends an error: its name, `: `, its message, then (in the color of
/// the stack) its stack trace, trimmed once as a whole, each of its lines on
/// a line of its own.
pub fn write_error(
    result: &mut String,
    name: &str,
    message: &str,
    stack: Option<String>,
    options: &FormatOptions,
    depth: usize,
)
    requires
        stack is Some ==> depth < MAX_INDENTATION_LEVEL,
    ensures
        final(result)@ == old(result)@ + name@ + ": "@ + message@ + masked_color(
            Color::BLACK,
            mask_of(options.color),
        ) + (match stack {
            Some(st) => stack_text(st@, options.newline, depth + 1),
            None => Seq::empty(),
        }) + masked_color(Color::RESET, mask_of(options.color)),
{
    let (color_enabled_mask, _, _) = get_masks(options, depth);
    result.append(name);
    result.append(": ");
    result.append(message);
    Color::BLACK.push(result, color_enabled_mask);
    let ghost before_stack = result@;
    match stack {
        Some(st) => {
            let chars = chars_of(st.as_str());
            let mut lo: usize = 0;
            while lo < chars.len() && is_white_space_exec(chars[lo])
                invariant
                    lo <= chars.len(),
                    forall|i: int| 0 <= i < lo ==> #[trigger] is_white_space(chars@[i]),
                decreases chars.len() - lo,
            {
                lo += 1;
            }
            let mut hi: usize = chars.len();
            while hi > lo && is_white_space_exec(chars[hi - 1])
                invariant
                    lo <= hi <= chars.len(),
                    forall|i: int| hi <= i < chars.len() ==> #[trigger] is_white_space(chars@[i]),
                decreases hi - lo,
            {
                hi -= 1;
            }
            proof {
                if lo < hi && lo > 0 {
                    assert(!is_white_space(chars@[lo as int]));
                }
                lemma_trim_white_space_bounds(chars@, lo as int, hi as int);
            }
            let ghost lines = chars@.subrange(lo as int, hi as int);
            let ghost lead = line_break_text(options.newline) + indentation_text(depth + 1);
            let mut k: usize = lo;
            write_line_start(result, options.newline, depth + 1);
            while k < hi
                invariant
                    lo <= k <= hi <= chars.len(),
                    depth < MAX_INDENTATION_LEVEL,
                    lines == chars@.subrange(lo as int, hi as int),
                    lead == line_break_text(options.newline) + indentation_text(depth + 1),
                    result@ == before_stack + lead + replace_line_feeds(
                        lines.take(k - lo),
                        lead,
                    ),
                decreases hi - k,
            {
                let c = chars[k];
                assert(lines.take(k + 1 - lo).drop_last() == lines.take(k - lo));
                assert(lines.take(k + 1 - lo).last() == c);
                if c == '\n' {
                    write_line_start(result, options.newline, depth + 1);
                } else {
                    push_char(result, c);
                }
                k += 1;
            }
            assert(lines.take(hi - lo) == lines);
        },
        None => {},
    }
    Color::reset(result, color_enabled_mask);
}

fn write_line_start(result: &mut String, newline: bool, level: usize)
    requires
        level <= MAX_INDENTATION_LEVEL,
    ensures
        final(result)@ == old(result)@ + line_break_text(newline) + indentation_text(level as int),
{
    result.append(if newline {
        "\n"
    } else {
        "\r"
    });
    push_indentation(result, level);
}

/// How an object is written, by the name of its class.
#[derive(Debug, Clone, PartialEq, Eq)]
pub enum ObjectClass {
    /// A `Date`: written by its ISO text.
    Date,
    /// A `RegExp`: written by its source and flags.
    RegExp,
    /// A plain object (no class name, an empty one, or `Object`): its
    /// members are written without a prefix.
    Plain,
    /// An object of another class: its members are written after the
    /// class name.
    Named(String),
}

/// The class of an object by its class name.
pub open spec fn object_class_of(name: Option<Seq<char>>) -> Option<Seq<char>> {
    match name {
        None => None,
        Some(n) => if n.len() == 0 || n == "Object"@ {
            None
        } else {
            Some(n)
        },
    }
}

/// Sorts an object by its class name.
pub fn classify_object(class_name: Option<String>) -> (r: ObjectClass)
    ensures
        class_name matches Some(n) && n@ == "Date"@ ==> r == ObjectClass::Date,
        class_name matches Some(n) && n@ == "RegExp"@ ==> r == ObjectClass::RegExp,
        !(class_name matches Some(n) && (n@ == "Date"@ || n@ == "RegExp"@)) ==> (match r {
            ObjectClass::Plain => object_class_of(
                match class_name {
                    Some(n) => Some(n@),
                    None => None,
                },
            ) is None,
            ObjectClass::Named(n) => object_class_of(
                match class_name {
                    Some(c) => Some(c@),
                    None => None,
                },
            ) == Some(n@),
            _ => false,
        }),
{
    proof {
        reveal_strlit("Date");
        reveal_strlit("RegExp");
        assert("Date"@.len() != "RegExp"@.len());
    }
    match class_name {
        None => ObjectClass::Plain,
        Some(n) => {
            if str_eq(n.as_str(), "Date") {
                ObjectClass::Date
            } else if str_eq(n.as_str(), "RegExp") {
                ObjectClass::RegExp
            } else if n.as_str().is_empty() || str_eq(n.as_str(), "Object") {
                ObjectClass::Plain
            } else {
                ObjectClass::Named(n)
            }
        },
    }
}

/// Whether a class name is one of the typed-array classes (or `Buffer`),
/// whose objects are written as arrays.
pub open spec fn is_typed_array_name(name: Seq<char>) -> bool {
    ||| name == "Int8Array"@
    ||| name == "Uint8Array"@
    ||| name == "Uint8ClampedArray"@
    ||| name == "Int16Array"@
    ||| name == "Uint16Array"@
    ||| name == "Int32Array"@
    ||| name == "Uint32Array"@
    ||| name == "Int64Array"@
    ||| name == "Uint64Array"@
    ||| name == "Float32Array"@
    ||| name == "Float64Array"@
    ||| name == "Buffer"@
}

/// Appends the class name that prefixes the members of an object, and
/// answers whether the class is a typed array.
pub fn write_class_name(result: &mut String, class_name: &str) -> (r: bool)
    ensures
        final(result)@ == old(result)@ + class_name@ + seq![' '],
        r == is_typed_array_name(class_name@),
{
    result.append(class_name);
    push_char(result, ' ');
    str_eq(class_name, "Int8Array") || str_eq(class_name, "Uint8Array") || str_eq(
        class_name,
        "Uint8ClampedArray",
    ) || str_eq(class_name, "Int16Array") || str_eq(class_name, "Uint16Array") || str_eq(
        class_name,
        "Int32Array",
    ) || str_eq(class_name, "Uint32Array") || str_eq(class_name, "Int64Array") || str_eq(
        class_name,
        "Uint64Array",
    ) || str_eq(class_name, "Float32Array") || str_eq(class_name, "Float64Array") || str_eq(
        class_name,
        "Buffer",
    )
}

// ---------------------------------------------------------------------------
// Members of objects and arrays.
// ---------------------------------------------------------------------------

/// Appends the opening bracket of an array or brace of an object.
pub fn write_object_open(result: &mut String, is_array: bool)
    ensures
        final(result)@ == old(result)@ + seq![
            if is_array {
                '['
            } else {
                '{'
            },
        ],
{
    push_char(
        result,
        if is_array {
            '['
        } else {
            '{'
        },
    );
}

/// Whether the members of an object at `depth` go on indented lines of
/// their own: only those of objects (not arrays) near the root do.
pub open spec fn members_indented(is_array: bool, depth: int) -> bool {
    !is_array && depth < 2
}

/// What is written before the value of a member: the separator (with a
/// comma after the first member), the indentation, an extra space when
/// deeper than the indentation levels go, and, for an object, the key and
/// `: ` (numeric keys in green and single quotes).
pub open spec fn member_prefix_text(
    key: Seq<char>,
    not_first: bool,
    is_array: bool,
    depth: int,
    numeric_key: bool,
    options: FormatOptions,
) -> Seq<char> {
    let indented = members_indented(is_array, depth);
    separator_text(not_first, indented, options.newline) + indentation_text(
        if indented {
            depth + 1
        } else {
            0
        },
    ) + (if depth > MAX_INDENTATION_LEVEL - 1 {
        seq![' ']
    } else {
        Seq::empty()
    }) + (if is_array {
        Seq::empty()
    } else {
        key_text(key, numeric_key, options.color)
    })
}

/// What is written of the key of an object member: numeric keys in green
/// (when colors are on) and single quotes, then `: `.
pub open spec fn key_text(key: Seq<char>, numeric_key: bool, color: bool) -> Seq<char> {
    let key_mask = mask_of(color) & mask_of(numeric_key);
    let quote = quote_text(
        if numeric_key {
            1
        } else {
            0
        },
    );
    masked_color(Color::GREEN, key_mask) + quote + key + quote + masked_color(
        Color::RESET,
        key_mask,
    ) + seq![':', ' ']
}

fn write_key(result: &mut String, key: &str, numeric_key: bool, color: bool)
    ensures
        final(result)@ == old(result)@ + key_text(key@, numeric_key, color),
{
    let key_mask = bitmask(color) & bitmask(numeric_key);
    let quote: usize = if numeric_key {
        1
    } else {
        0
    };
    Color::GREEN.push(result, key_mask);
    result.append(quote_lookup(quote));
    result.append(key);
    result.append(quote_lookup(quote));
    Color::reset(result, key_mask);
    push_char(result, ':');
    push_char(result, ' ');
}

/// Appends what stands before the value of a member of an object or an
/// array at `depth`.
#[verifier::spinoff_prover]
pub fn write_member_prefix(
    result: &mut String,
    key: &str,
    not_first: bool,
    is_array: bool,
    depth: usize,
    numeric_key: bool,
    options: &FormatOptions,
)
    requires
        depth < usize::MAX,
    ensures
        final(result)@ == old(result)@ + member_prefix_text(
            key@,
            not_first,
            is_array,
            depth as int,
            numeric_key,
            *options,
        ),
{
    let apply_indentation = bitmask(!is_array && depth < 2);
    proof {
        lemma_mask_and(!is_array && depth < 2, (depth + 1) as usize);
    }
    write_sep(result, not_first, apply_indentation > 0, options.newline);
    push_indentation(result, apply_indentation & (depth + 1));
    if depth > MAX_INDENTATION_LEVEL - 1 {
        push_char(result, ' ');
    }
    if !is_array {
        write_key(result, key, numeric_key, options.color);
    }
}

/// Appends the note that ends a long object or array: how many of its
/// `length` members, from `index` on, are not written.
pub fn write_more_items(result: &mut String, length: usize, index: usize)
    requires
        index <= length,
    ensures
        final(result)@ == old(result)@ + "... "@ + decimal_text(length - index) + " more items"@,
{
    result.append("... ");
    result.append(format_integer((length - index) as i128).as_str());
    result.append(" more items");
}

/// What closes an object or an array: when members were written, a line
/// break and the indentation of `depth` (indented members) or a space
/// (other members); then the closing bracket or brace.
pub open spec fn object_close_text(
    any_member: bool,
    is_array: bool,
    depth: int,
    newline: bool,
) -> Seq<char> {
    let indented = members_indented(is_array, depth);
    (if any_member && indented {
        line_break_text(newline) + indentation_text(depth)
    } else if any_member {
        seq![' ']
    } else {
        Seq::empty()
    }) + seq![
        if is_array {
            ']'
        } else {
            '}'
        },
    ]
}

/// Appends the closing of an object or an array at `depth`.
pub fn write_object_close(
    result: &mut String,
    any_member: bool,
    is_array: bool,
    depth: usize,
    newline: bool,
)
    ensures
        final(result)@ == old(result)@ + object_close_text(any_member, is_array, depth as int, newline),
{
    let indented = !is_array && depth < 2;
    if any_member && indented {
        write_line_start(result, newline, depth);
    } else if any_member {
        push_char(result, ' ');
    }
    push_char(
        result,
        if is_array {
            ']'
        } else {
            '}'
        },
    );
}

// ---------------------------------------------------------------------------
// Format templates.
// ---------------------------------------------------------------------------

/// A substitution of a format template, which takes the next argument.
#[derive(Debug, Clone, Copy, PartialEq, Eq, Structural)]
pub enum Directive {
    /// `%s`: the argument coerced to a string.
    Str,
    /// `%d`: the argument converted by `Number`.
    Number,
    /// `%i`: the argument converted by `parseInt`.
    Int,
    /// `%f`: the argument converted by `parseFloat`.
    Float,
    /// `%j`: the argument as JSON (`undefined` when it has none).
    Json,
    /// `%O`: the argument written with all its own properties.
    ObjectAll,
    /// `%o`: the argument written as an object.
    Object,
}

/// The substitution that `%` followed by `c` asks for, if any.
pub open spec fn directive_of(c: char) -> Option<Directive> {
    if c == 's' {
        Some(Directive::Str)
    } else if c == 'd' {
        Some(Directive::Number)
    } else if c == 'i' {
        Some(Directive::Int)
    } else if c == 'f' {
        Some(Directive::Float)
    } else if c == 'j' {
        Some(Directive::Json)
    } else if c == 'O' {
        Some(Directive::ObjectAll)
    } else if c == 'o' {
        Some(Directive::Object)
    } else {
        None
    }
}

fn directive_for(c: char) -> (r: Option<Directive>)
    ensures
        r == directive_of(c),
{
    if c == 's' {
        Some(Directive::Str)
    } else if c == 'd' {
        Some(Directive::Number)
    } else if c == 'i' {
        Some(Directive::Int)
    } else if c == 'f' {
        Some(Directive::Float)
    } else if c == 'j' {
        Some(Directive::Json)
    } else if c == 'O' {
        Some(Directive::ObjectAll)
    } else if c == 'o' {
        Some(Directive::Object)
    } else {
        None
    }
}

/// A piece of an expanded template: a character, or the place of an
/// argument.
#[derive(Debug, Clone, Copy, PartialEq, Eq, Structural)]
pub enum TemplateToken {
    /// A character, by its code point.
    Literal(u32),
    Arg(Directive),
}

/// The character `c`, kept as it is.
pub open spec fn single_literal(c: char) -> Seq<TemplateToken> {
    seq![TemplateToken::Literal(c as u32)]
}

/// A `%` followed by `n`, kept as they are.
pub open spec fn literal_pair(n: char) -> Seq<TemplateToken> {
    seq![TemplateToken::Literal('%' as u32), TemplateToken::Literal(n as u32)]
}

/// How the characters of a format template from index `i` on expand when
/// `available` arguments are left: while an argument is left, `%` and one
/// of `s d i f j O o` take it, `%c` is dropped and `%%` gives `%`; any
/// other `%` pair, and every `%` pair once no argument is left, stays as it
/// is, as does every other character (a `%` at the end included).
pub open spec fn template_tokens_from(s: Seq<char>, i: int, available: nat) -> Seq<
    TemplateToken,
>
    decreases s.len() - i,
{
    if i < 0 || i >= s.len() {
        Seq::empty()
    } else if s[i] == '%' && i + 1 < s.len() {
        let n = s[i + 1];
        if available == 0 {
            literal_pair(n) + template_tokens_from(s, i + 2, 0)
        } else {
            match directive_of(n) {
                Some(d) => seq![TemplateToken::Arg(d)] + template_tokens_from(
                    s,
                    i + 2,
                    (available - 1) as nat,
                ),
                None => if n == 'c' {
                    template_tokens_from(s, i + 2, available)
                } else if n == '%' {
                    seq![TemplateToken::Literal('%' as u32)] + template_tokens_from(s, i + 2, available)
                } else {
                    literal_pair(n) + template_tokens_from(s, i + 2, available)
                },
            }
        }
    } else {
        single_literal(s[i]) + template_tokens_from(s, i + 1, available)
    }
}

/// How a whole format template expands when `available` arguments follow it.
pub open spec fn template_tokens(s: Seq<char>, available: nat) -> Seq<TemplateToken> {
    template_tokens_from(s, 0, available)
}

/// The characters of `t`, as template tokens.
pub open spec fn char_tokens(t: Seq<char>) -> Seq<TemplateToken>
    decreases t.len(),
{
    if t.len() == 0 {
        Seq::empty()
    } else {
        char_tokens(t.drop_last()).push(TemplateToken::Literal(t.last() as u32))
    }
}

/// The tokens of literal texts interleaved with substitutions:
/// `texts[0] dirs[0] texts[1] ... dirs[n-1] texts[n]`.
pub open spec fn interleaved(texts: Seq<Seq<char>>, dirs: Seq<Directive>) -> Seq<TemplateToken>
    decreases dirs.len(),
{
    if dirs.len() == 0 {
        char_tokens(texts.last())
    } else {
        interleaved(texts.drop_last(), dirs.drop_last()) + seq![TemplateToken::Arg(dirs.last())]
            + char_tokens(texts.last())
    }
}

/// The character sequences of a sequence of strings.
pub open spec fn string_views(v: Seq<String>) -> Seq<Seq<char>> {
    v.map_values(|t: String| t@)
}

/// A parsed format template: literal texts, with the substitutions that
/// stand between them (one fewer than the texts).
pub struct FormatTemplate {
    pub texts: Vec<String>,
    pub directives: Vec<Directive>,
}

proof fn lemma_interleaved_push_char(
    texts: Seq<Seq<char>>,
    cur: Seq<char>,
    dirs: Seq<Directive>,
    c: char,
)
    requires
        texts.len() == dirs.len(),
    ensures
        interleaved(texts.push(cur.push(c)), dirs) == interleaved(texts.push(cur), dirs).push(
            TemplateToken::Literal(c as u32),
        ),
{
    assert(cur.push(c).drop_last() == cur);
    if dirs.len() > 0 {
        assert(texts.push(cur.push(c)).drop_last() == texts);
        assert(texts.push(cur).drop_last() == texts);
    }
}

proof fn lemma_interleaved_push_arg(
    texts: Seq<Seq<char>>,
    cur: Seq<char>,
    dirs: Seq<Directive>,
    d: Directive,
)
    requires
        texts.len() == dirs.len(),
    ensures
        interleaved(texts.push(cur).push(Seq::empty()), dirs.push(d)) == interleaved(
            texts.push(cur),
            dirs,
        ) + seq![TemplateToken::Arg(d)],
{
    assert(texts.push(cur).push(Seq::<char>::empty()).drop_last() == texts.push(cur));
    assert(dirs.push(d).drop_last() == dirs);

}

proof fn lemma_append_one(done: Seq<TemplateToken>, t: TemplateToken)
    ensures
        done + seq![t] == done.push(t),
{
    assert(done + seq![t] =~= done.push(t));
}

proof fn lemma_append_single(done: Seq<TemplateToken>, c: char)
    ensures
        done + single_literal(c) == done.push(TemplateToken::Literal(c as u32)),
{
    assert(done + single_literal(c) =~= done.push(TemplateToken::Literal(c as u32)));
}

proof fn lemma_append_pair(done: Seq<TemplateToken>, n: char)
    ensures
        done + literal_pair(n) == done.push(TemplateToken::Literal('%' as u32)).push(
            TemplateToken::Literal(n as u32),
        ),
{
    assert(done + literal_pair(n) =~= done.push(TemplateToken::Literal('%' as u32)).push(
        TemplateToken::Literal(n as u32),
    ));
}

proof fn lemma_concat_assoc(a: Seq<TemplateToken>, b: Seq<TemplateToken>, c: Seq<TemplateToken>)
    ensures
        a + (b + c) == (a + b) + c,
{
    assert(a + (b + c) =~= (a + b) + c);
}

/// How many arguments a sequence of template tokens takes.
pub open spec fn arg_count(t: Seq<TemplateToken>) -> nat
    decreases t.len(),
{
    if t.len() == 0 {
        0
    } else {
        arg_count(t.drop_last()) + (if t.last() is Arg {
            1nat
        } else {
            0nat
        })
    }
}

proof fn lemma_arg_count_concat(a: Seq<TemplateToken>, b: Seq<TemplateToken>)
    ensures
        arg_count(a + b) == arg_count(a) + arg_count(b),
    decreases b.len(),
{
    if b.len() == 0 {
        assert(a + b =~= a);
    } else {
        lemma_arg_count_concat(a, b.drop_last());
        assert((a + b).drop_last() =~= a + b.drop_last());
        assert((a + b).last() == b.last());
    }
}

proof fn lemma_arg_count_small(c: char, n: char, d: Directive)
    ensures
        arg_count(single_literal(c)) == 0,
        arg_count(literal_pair(n)) == 0,
        arg_count(seq![TemplateToken::Arg(d)]) == 1,
{
    assert(arg_count(Seq::<TemplateToken>::empty()) == 0);
    assert(single_literal(c).drop_last() =~= Seq::<TemplateToken>::empty());
    assert(single_literal(c).last() == TemplateToken::Literal(c as u32));
    assert(arg_count(single_literal(c)) == 0);
    assert(single_literal('%').drop_last() =~= Seq::<TemplateToken>::empty());
    assert(single_literal('%').last() == TemplateToken::Literal('%' as u32));
    assert(arg_count(single_literal('%')) == 0);
    assert(literal_pair(n).drop_last() =~= single_literal('%'));
    assert(literal_pair(n).last() == TemplateToken::Literal(n as u32));
    assert(seq![TemplateToken::Arg(d)].drop_last() =~= Seq::<TemplateToken>::empty());
}

proof fn lemma_arg_count_chars(t: Seq<char>)
    ensures
        arg_count(char_tokens(t)) == 0,
    decreases t.len(),
{
    if t.len() > 0 {
        lemma_arg_count_chars(t.drop_last());
        assert(char_tokens(t).drop_last() == char_tokens(t.drop_last()));
    }
}

proof fn lemma_arg_count_interleaved(texts: Seq<Seq<char>>, dirs: Seq<Directive>)
    requires
        texts.len() == dirs.len() + 1,
    ensures
        arg_count(interleaved(texts, dirs)) == dirs.len(),
    decreases dirs.len(),
{
    lemma_arg_count_chars(texts.last());
    if dirs.len() > 0 {
        lemma_arg_count_interleaved(texts.drop_last(), dirs.drop_last());
        let a = interleaved(texts.drop_last(), dirs.drop_last());
        let one = seq![TemplateToken::Arg(dirs.last())];
        lemma_arg_count_concat(a + one, char_tokens(texts.last()));
        lemma_arg_count_concat(a, one);
        lemma_arg_count_small('%', '%', dirs.last());
    }
}

proof fn lemma_arg_count_template(s: Seq<char>, i: int, available: nat)
    ensures
        arg_count(template_tokens_from(s, i, available)) <= available,
    decreases s.len() - i,
{
    if 0 <= i < s.len() {
        if s[i] == '%' && i + 1 < s.len() {
            let n = s[i + 1];
            lemma_arg_count_small('%', n, Directive::Str);
            if available == 0 {
                lemma_arg_count_template(s, i + 2, 0);
                lemma_arg_count_concat(literal_pair(n), template_tokens_from(s, i + 2, 0));
            } else {
                match directive_of(n) {
                    Some(d) => {
                        lemma_arg_count_template(s, i + 2, (available - 1) as nat);
                        lemma_arg_count_small('%', n, d);
                        lemma_arg_count_concat(
                            seq![TemplateToken::Arg(d)],
                            template_tokens_from(s, i + 2, (available - 1) as nat),
                        );
                    },
                    None => {
                        lemma_arg_count_template(s, i + 2, available);
                        lemma_arg_count_concat(
                            single_literal('%'),
                            template_tokens_from(s, i + 2, available),
                        );
                        lemma_arg_count_concat(
                            literal_pair(n),
                            template_tokens_from(s, i + 2, available),
                        );
                    },
                }
            }
        } else {
            lemma_arg_count_template(s, i + 1, available);
            lemma_arg_count_small(s[i], s[i], Directive::Str);
            lemma_arg_count_concat(single_literal(s[i]), template_tokens_from(s, i + 1, available));
        }
    }
}

/// A template never takes more arguments than follow it.
pub proof fn law_template_takes_at_most_available(s: Seq<char>, available: nat, texts: Seq<Seq<char>>, dirs: Seq<Directive>)
    requires
        texts.len() == dirs.len() + 1,
        interleaved(texts, dirs) == template_tokens(s, available),
    ensures
        dirs.len() <= available,
{
    lemma_arg_count_interleaved(texts, dirs);
    lemma_arg_count_template(s, 0, available);
}

/// Splits a format template, followed by `available` arguments, into its
/// literal texts and the substitutions between them.
#[verifier::spinoff_prover]
pub fn parse_template(fmt: &str, available: usize) -> (r: FormatTemplate)
    ensures
        r.texts.len() == r.directives.len() + 1,
        interleaved(string_views(r.texts@), r.directives@) == template_tokens(
            fmt@,
            available as nat,
        ),
        r.directives.len() <= available,
{
    let chars = chars_of(fmt);
    let ghost s = chars@;
    let mut texts: Vec<String> = Vec::new();
    let mut directives: Vec<Directive> = Vec::new();
    let mut cur = String::new();
    let mut left: usize = available;
    let mut i: usize = 0;
    assert(char_tokens(cur@) == Seq::<TemplateToken>::empty());
    while i < chars.len()
        invariant
            chars@ == s,
            i <= chars.len(),
            texts.len() == directives.len(),
            interleaved(string_views(texts@).push(cur@), directives@) + template_tokens_from(
                s,
                i as int,
                left as nat,
            ) == template_tokens(s, available as nat),
        decreases chars.len() - i,
    {
        let ghost views = string_views(texts@);
        let ghost done = interleaved(views.push(cur@), directives@);
        let c = chars[i];
        if c == '%' && i + 1 < chars.len() {
            let n = chars[i + 1];
            let ghost tail = template_tokens_from(s, i + 2, left as nat);
            let ghost here = template_tokens_from(s, i as int, left as nat);
            assert(s[i as int] == '%' && s[i + 1] == n);
            let d = directive_for(n);
            if left > 0 && d.is_some() {
                let dir = d.unwrap();
                assert(here == seq![TemplateToken::Arg(dir)] + template_tokens_from(s, i + 2, (left - 1) as nat));
                proof {
                    lemma_interleaved_push_arg(views, cur@, directives@, dir);
                    lemma_concat_assoc(done, seq![TemplateToken::Arg(dir)], template_tokens_from(s, i + 2, (left - 1) as nat));
                }
                texts.push(cur);
                cur = String::new();
                directives.push(dir);
                left -= 1;
                proof {
                    assert(string_views(texts@) =~= views.push(texts@.last()@));
                    assert(cur@ == Seq::<char>::empty());
                }
            } else if left > 0 && n == 'c' {
                assert(here == tail);
            } else if left > 0 && n == '%' {
                assert(here == seq![TemplateToken::Literal('%' as u32)] + tail);
                proof {
                    lemma_interleaved_push_char(views, cur@, directives@, '%');
                    lemma_concat_assoc(done, seq![TemplateToken::Literal('%' as u32)], tail);
                    lemma_append_one(done, TemplateToken::Literal('%' as u32));
                }
                push_char(&mut cur, '%');
            } else {
                proof {
                    if left == 0 {
                        assert(here == literal_pair(n) + template_tokens_from(s, i + 2, 0));
                    } else {
                        assert(directive_of(n) is None);
                        assert(n != 'c' && n != '%');
                        assert(here == literal_pair(n) + tail);
                    }
                }
                proof {
                    lemma_interleaved_push_char(views, cur@, directives@, '%');
                    lemma_interleaved_push_char(views, cur@.push('%'), directives@, n);
                    lemma_concat_assoc(done, literal_pair(n), tail);
                    lemma_append_pair(done, n);
                }
                push_char(&mut cur, '%');
                push_char(&mut cur, n);
            }
            i += 2;
        } else {
            proof {
                assert(s[i as int] == c);
                assert(!(s[i as int] == '%' && i + 1 < s.len()));
                assert(template_tokens_from(s, i as int, left as nat) == single_literal(c)
                    + template_tokens_from(s, i + 1, left as nat));
                lemma_interleaved_push_char(views, cur@, directives@, c);
                lemma_concat_assoc(done, single_literal(c), template_tokens_from(s, i + 1, left as nat));
                lemma_append_single(done, c);
            }
            push_char(&mut cur, c);
            i += 1;
        }
    }
    assert(template_tokens_from(s, i as int, left as nat) == Seq::<TemplateToken>::empty());
    let ghost views = string_views(texts@);
    texts.push(cur);
    assert(string_views(texts@) =~= views.push(texts@.last()@));
    proof {
        law_template_takes_at_most_available(
            s,
            available as nat,
            string_views(texts@),
            directives@,
        );
    }
    FormatTemplate { texts, directives }
}

// ---------------------------------------------------------------------------
// Console calls.
// ---------------------------------------------------------------------------

/// How an argument is converted by the engine before it is written.
#[derive(Debug, Clone, Copy, PartialEq, Eq, Structural)]
pub enum Conversion {
    /// The argument as it is.
    AsIs,
    /// Through `Number`.
    Number,
    /// Through `parseInt`.
    ParseInt,
    /// Through `parseFloat`.
    ParseFloat,
}

/// How the argument taken by a substitution is written.
#[derive(Debug, Clone, Copy, PartialEq, Eq, Structural)]
pub enum ArgAction {
    /// Its text as a string, as it is.
    WriteCoerced,
    /// Its JSON text (`undefined` when it has none).
    WriteJson,
    /// Converted, then written as a value, with colors on or off, and with
    /// all its own properties or only the enumerable string ones.
    Format { conversion: Conversion, color: bool, all_properties: bool },
}

/// How the argument of a substitution is written. Values written through a
/// conversion or as objects are written without colors.
pub open spec fn substitution_action(d: Directive) -> ArgAction {
    match d {
        Directive::Str => ArgAction::WriteCoerced,
        Directive::Json => ArgAction::WriteJson,
        Directive::Number => ArgAction::Format {
            conversion: Conversion::Number,
            color: false,
            all_properties: false,
        },
        Directive::Int => ArgAction::Format {
            conversion: Conversion::ParseInt,
            color: false,
            all_properties: false,
        },
        Directive::Float => ArgAction::Format {
            conversion: Conversion::ParseFloat,
            color: false,
            all_properties: false,
        },
        Directive::ObjectAll => ArgAction::Format {
            conversion: Conversion::AsIs,
            color: false,
            all_properties: true,
        },
        Directive::Object => ArgAction::Format {
            conversion: Conversion::AsIs,
            color: false,
            all_properties: false,
        },
    }
}

/// Whether a substitution switches colors off for the rest of the call
/// (every one but `%s` and `%j` does).
pub open spec fn turns_color_off(d: Directive) -> bool {
    d != Directive::Str && d != Directive::Json
}

/// How each substitution writes its argument: `%j` as JSON text, `%s` as
/// the coerced string, `%d`, `%i` and `%f` through `Number`, `parseInt` and
/// `parseFloat`, `%o` and `%O` as they are (`%O` with all its own
/// properties); every value written as a value is written without colors.
pub proof fn law_substitution_actions(d: Directive)
    ensures
        (substitution_action(d) == ArgAction::WriteJson) <==> d == Directive::Json,
        (substitution_action(d) == ArgAction::WriteCoerced) <==> d == Directive::Str,
        d == Directive::Number ==> substitution_action(d) == (ArgAction::Format {
            conversion: Conversion::Number,
            color: false,
            all_properties: false,
        }),
        d == Directive::Int ==> substitution_action(d) == (ArgAction::Format {
            conversion: Conversion::ParseInt,
            color: false,
            all_properties: false,
        }),
        d == Directive::Float ==> substitution_action(d) == (ArgAction::Format {
            conversion: Conversion::ParseFloat,
            color: false,
            all_properties: false,
        }),
        d == Directive::Object ==> substitution_action(d) == (ArgAction::Format {
            conversion: Conversion::AsIs,
            color: false,
            all_properties: false,
        }),
        d == Directive::ObjectAll ==> substitution_action(d) == (ArgAction::Format {
            conversion: Conversion::AsIs,
            color: false,
            all_properties: true,
        }),
{
}

/// While an argument is left, `%` followed by `s`, `d`, `i`, `f`, `j`, `o`
/// or `O` takes it for the matching substitution; `%c` is dropped and `%%`
/// gives one `%`, neither taking an argument.
pub proof fn law_template_letters(s: Seq<char>, i: int, available: nat)
    requires
        0 <= i,
        i + 1 < s.len(),
        s[i] == '%',
        available > 0,
    ensures
        s[i + 1] == 's' ==> template_tokens_from(s, i, available)[0] == TemplateToken::Arg(
            Directive::Str,
        ),
        s[i + 1] == 'd' ==> template_tokens_from(s, i, available)[0] == TemplateToken::Arg(
            Directive::Number,
        ),
        s[i + 1] == 'i' ==> template_tokens_from(s, i, available)[0] == TemplateToken::Arg(
            Directive::Int,
        ),
        s[i + 1] == 'f' ==> template_tokens_from(s, i, available)[0] == TemplateToken::Arg(
            Directive::Float,
        ),
        s[i + 1] == 'j' ==> template_tokens_from(s, i, available)[0] == TemplateToken::Arg(
            Directive::Json,
        ),
        s[i + 1] == 'o' ==> template_tokens_from(s, i, available)[0] == TemplateToken::Arg(
            Directive::Object,
        ),
        s[i + 1] == 'O' ==> template_tokens_from(s, i, available)[0] == TemplateToken::Arg(
            Directive::ObjectAll,
        ),
        s[i + 1] == 'c' ==> template_tokens_from(s, i, available) == template_tokens_from(
            s,
            i + 2,
            available,
        ),
        s[i + 1] == '%' ==> template_tokens_from(s, i, available)[0] == TemplateToken::Literal(
            '%' as u32,
        ),
{
}

fn action_for(d: Directive) -> (r: ArgAction)
    ensures
        r == substitution_action(d),
{
    match d {
        Directive::Str => ArgAction::WriteCoerced,
        Directive::Json => ArgAction::WriteJson,
        Directive::Number => ArgAction::Format {
            conversion: Conversion::Number,
            color: false,
            all_properties: false,
        },
        Directive::Int => ArgAction::Format {
            conversion: Conversion::ParseInt,
            color: false,
            all_properties: false,
        },
        Directive::Float => ArgAction::Format {
            conversion: Conversion::ParseFloat,
            color: false,
            all_properties: false,
        },
        Directive::ObjectAll => ArgAction::Format {
            conversion: Conversion::AsIs,
            color: false,
            all_properties: true,
        },
        Directive::Object => ArgAction::Format {
            conversion: Conversion::AsIs,
            color: false,
            all_properties: false,
        },
    }
}

/// An argument that is written on its own after the template: whether a
/// space goes before it, and whether colors are on.
#[derive(Debug, Clone, Copy, PartialEq, Eq, Structural)]
pub struct RestArg {
    pub space: bool,
    pub color: bool,
}

/// How the arguments of a console call are written: the leading template,
/// when the first argument is one, with how each of its substitutions
/// writes the argument it takes, then each remaining argument.
pub struct ConsolePlan {
    pub template: Option<FormatTemplate>,
    pub substitutions: Vec<ArgAction>,
    pub rest: Vec<RestArg>,
}

/// The actions of the substitutions `dirs`.
pub open spec fn substitution_plan(dirs: Seq<Directive>) -> Seq<ArgAction> {
    Seq::new(dirs.len(), |i: int| substitution_action(dirs[i]))
}

/// Whether one of the substitutions `dirs` switches colors off.
pub open spec fn any_turns_color_off(dirs: Seq<Directive>) -> bool {
    exists|i: int| 0 <= i < dirs.len() && turns_color_off(#[trigger] dirs[i])
}

/// The arguments from index `used` to `n`, written on their own: each but
/// the very first argument of the call after a space, all with colors as
/// `color` says.
pub open spec fn rest_plan(used: nat, n: nat, color: bool) -> Seq<RestArg> {
    Seq::new((n - used) as nat, |j: int| RestArg { space: used + j != 0, color })
}

/// Plans a console call of `n_args` arguments whose first argument is the
/// string `first` (when it is a string) with colors as `color` says: the
/// first argument is a template when it is a string and other arguments
/// follow; its substitutions take the following arguments in order (see
/// `template_tokens`); the colors are off for the remaining arguments once
/// a substitution other than `%s` and `%j` was made.
pub fn console_plan(first: Option<&str>, n_args: usize, color: bool) -> (plan: ConsolePlan)
    ensures
        (plan.template is Some) == (first is Some && n_args > 1),
        plan.template matches Some(t) ==> {
            &&& t.texts.len() == t.directives.len() + 1
            &&& interleaved(string_views(t.texts@), t.directives@) == template_tokens(
                first.unwrap()@,
                (n_args - 1) as nat,
            )
            &&& t.directives.len() <= n_args - 1
            &&& plan.substitutions@ == substitution_plan(t.directives@)
            &&& forall|i: int|
                0 <= i < t.directives.len() ==> ((plan.substitutions@[i] == ArgAction::WriteJson)
                    <==> (#[trigger] t.directives@[i] == Directive::Json))
                    && ((plan.substitutions@[i] == ArgAction::WriteCoerced) <==> (t.directives@[i]
                    == Directive::Str))
            &&& plan.rest@ == rest_plan(
                (1 + t.directives.len()) as nat,
                n_args as nat,
                color && !any_turns_color_off(t.directives@),
            )
        },
        plan.template is None ==> plan.substitutions@.len() == 0 && plan.rest@ == rest_plan(
            0,
            n_args as nat,
            color,
        ),
{
    let mut template: Option<FormatTemplate> = None;
    let mut substitutions: Vec<ArgAction> = Vec::new();
    let mut used: usize = 0;
    let mut rest_color = color;
    if let Some(text) = first {
        if n_args > 1 {
            let t = parse_template(text, n_args - 1);
            let mut i: usize = 0;
            while i < t.directives.len()
                invariant
                    i <= t.directives.len(),
                    substitutions@ == substitution_plan(t.directives@.take(i as int)),
                    rest_color == (color && !any_turns_color_off(t.directives@.take(i as int))),
                decreases t.directives.len() - i,
            {
                let d = t.directives[i];
                substitutions.push(action_for(d));
                if d != Directive::Str && d != Directive::Json {
                    rest_color = false;
                }
                proof {
                    let prev = t.directives@.take(i as int);
                    let next = t.directives@.take(i + 1);
                    assert(next == prev.push(d));
                    assert(substitutions@ =~= substitution_plan(next));
                    if any_turns_color_off(prev) {
                        let j = choose|j: int| 0 <= j < prev.len() && turns_color_off(prev[j]);
                        assert(next[j] == prev[j]);
                    }
                    if turns_color_off(d) {
                        assert(next[i as int] == d);
                    }
                    if any_turns_color_off(next) && !turns_color_off(d) {
                        let j = choose|j: int| 0 <= j < next.len() && turns_color_off(next[j]);
                        assert(j < i);
                        assert(prev[j] == next[j]);
                    }
                }
                i += 1;
            }
            assert(t.directives@.take(i as int) == t.directives@);
            used = 1 + t.directives.len();
            template = Some(t);
        }
    }
    proof {
        if let Some(t) = &template {
            assert forall|i: int| 0 <= i < t.directives.len() implies ((substitutions@[i]
                == ArgAction::WriteJson) <==> (#[trigger] t.directives@[i] == Directive::Json))
                && ((substitutions@[i] == ArgAction::WriteCoerced) <==> (t.directives@[i]
                == Directive::Str)) by {
                law_substitution_actions(t.directives@[i]);
            }
        }
    }
    assert(used <= n_args);
    let mut rest: Vec<RestArg> = Vec::new();
    let mut k: usize = used;
    while k < n_args
        invariant
            used <= k <= n_args,
            rest@ =~= rest_plan(used as nat, k as nat, rest_color),
        decreases n_args - k,
    {
        rest.push(RestArg { space: k != 0, color: rest_color });
        k += 1;
        assert(rest@ =~= rest_plan(used as nat, k as nat, rest_color));
    }
    assert(rest@ =~= rest_plan(used as nat, n_args as nat, rest_color));
    ConsolePlan { template, substitutions, rest }
}

/// The expanded template: its first text, then each substituted text
/// followed by the next text.
pub open spec fn template_text(texts: Seq<Seq<char>>, subs: Seq<Seq<char>>) -> Seq<char>
    decreases subs.len(),
{
    if subs.len() == 0 {
        if texts.len() > 0 {
            texts[0]
        } else {
            Seq::empty()
        }
    } else {
        template_text(texts.drop_last(), subs.drop_last()) + subs.last() + texts.last()
    }
}

/// The remaining arguments' texts, each after a space where the plan puts
/// one.
pub open spec fn rest_text(rest: Seq<RestArg>, args: Seq<Seq<char>>) -> Seq<char>
    decreases args.len(),
{
    if args.len() == 0 || rest.len() == 0 {
        Seq::empty()
    } else {
        rest_text(rest.drop_last(), args.drop_last()) + (if rest.last().space {
            seq![' ']
        } else {
            Seq::empty()
        }) + args.last()
    }
}

/// What a console call writes, given its plan, the texts written for the
/// arguments that the template's substitutions take, and the texts written
/// for the remaining arguments: the expanded template (when there is one),
/// then the remaining arguments.
pub open spec fn console_call_text(
    template: Option<Seq<Seq<char>>>,
    subs: Seq<Seq<char>>,
    rest: Seq<RestArg>,
    args: Seq<Seq<char>>,
) -> Seq<char> {
    (match template {
        Some(texts) => template_text(texts, subs),
        None => Seq::empty(),
    }) + rest_text(rest, args)
}

/// Writes a console call after `result`: the plan's template texts with
/// the substituted texts between them, then each remaining argument's text
/// after a space where the plan puts one.
pub fn write_console_call(
    result: &mut String,
    plan: &ConsolePlan,
    substituted: &Vec<String>,
    rest_texts: &Vec<String>,
)
    requires
        plan.template matches Some(t) ==> t.texts.len() == substituted.len() + 1,
        rest_texts.len() == plan.rest.len(),
    ensures
        final(result)@ == old(result)@ + console_call_text(
            match plan.template {
                Some(t) => Some(string_views(t.texts@)),
                None => None,
            },
            string_views(substituted@),
            plan.rest@,
            string_views(rest_texts@),
        ),
{
    let ghost start = result@;
    let ghost subs = string_views(substituted@);
    let ghost args = string_views(rest_texts@);
    match &plan.template {
        Some(t) => {
            let ghost texts = string_views(t.texts@);
            result.append(t.texts[0].as_str());
            assert(subs.take(0) =~= Seq::<Seq<char>>::empty());
            assert(template_text(texts.take(1), subs.take(0)) == texts[0]);
            let mut i: usize = 0;
            while i < substituted.len()
                invariant
                    i <= substituted.len(),
                    t.texts.len() == substituted.len() + 1,
                    texts == string_views(t.texts@),
                    subs == string_views(substituted@),
                    result@ == start + template_text(texts.take(i + 1), subs.take(i as int)),
                decreases substituted.len() - i,
            {
                result.append(substituted[i].as_str());
                result.append(t.texts[i + 1].as_str());
                proof {
                    assert(texts.take(i + 2).drop_last() =~= texts.take(i + 1));
                    assert(subs.take(i + 1).drop_last() =~= subs.take(i as int));
                    assert(template_text(texts.take(i + 2), subs.take(i + 1)) == template_text(
                        texts.take(i + 1),
                        subs.take(i as int),
                    ) + subs[i as int] + texts[i + 1]);
                }
                i += 1;
            }
            assert(texts.take(i + 1) =~= texts);
            assert(subs.take(i as int) =~= subs);
        },
        None => {
            assert(result@ =~= start + Seq::<char>::empty());
        },
    }
    let ghost mid = result@;
    let mut j: usize = 0;
    while j < rest_texts.len()
        invariant
            j <= rest_texts.len(),
            rest_texts.len() == plan.rest.len(),
            args == string_views(rest_texts@),
            result@ == mid + rest_text(plan.rest@.take(j as int), args.take(j as int)),
        decreases rest_texts.len() - j,
    {
        if plan.rest[j].space {
            push_char(result, ' ');
        }
        result.append(rest_texts[j].as_str());
        proof {
            assert(plan.rest@.take(j + 1).drop_last() =~= plan.rest@.take(j as int));
            assert(args.take(j + 1).drop_last() =~= args.take(j as int));
            assert(rest_text(plan.rest@.take(j + 1), args.take(j + 1)) == rest_text(
                plan.rest@.take(j as int),
                args.take(j as int),
            ) + (if plan.rest@[j as int].space {
                seq![' ']
            } else {
                Seq::empty()
            }) + args[j as int]);
        }
        j += 1;
    }
    assert(plan.rest@.take(j as int) =~= plan.rest@);
    assert(args.take(j as int) =~= args);
}

proof fn lemma_rest_plan_drop_last(n: nat, color: bool)
    requires
        n > 0,
    ensures
        rest_plan(0, n, color).drop_last() == rest_plan(0, (n - 1) as nat, color),
{
    assert(rest_plan(0, n, color).drop_last() =~= rest_plan(0, (n - 1) as nat, color));
}

/// A console call without a template writes its arguments' texts joined
/// by single spaces.
pub proof fn law_plain_call_joins_arguments(args: Seq<Seq<char>>, color: bool)
    ensures
        rest_text(rest_plan(0, args.len(), color), args) == join(args, seq![' ']),
    decreases args.len(),
{
    if args.len() > 0 {
        let n = args.len();
        lemma_rest_plan_drop_last(n, color);
        law_plain_call_joins_arguments(args.drop_last(), color);
        if n == 1 {
            assert(rest_text(rest_plan(0, 0, color), args.drop_last()) == Seq::<char>::empty());
            assert(Seq::<char>::empty() + Seq::<char>::empty() + args.last() =~= args[0]);
        }
    }
}

} // verus!
