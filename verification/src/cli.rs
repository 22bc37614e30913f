//! The command line of the viewer: `[-w COLUMNS] [--no-color] [--html] [-h] [FILE]`,
//! or `--serve [--port PORT] [--recurse] PATH...` for the preview server.
use vstd::prelude::*;

use crate::paths::chars_equal;
use crate::terminal::RenderOptions;
use crate::text::{chars_of, push_all, push_str, starts_with, string_from_chars};

verus! {

/// Why a command line was refused.
#[derive(Debug, Clone, PartialEq, Eq)]
pub enum CliError {
    /// A flag that needs a value came last.
    MissingValue(&'static str),
    /// A width that is not a number of at least 20 columns.
    InvalidWidth(String),
    /// A port that is not a number from 1 to 65535.
    InvalidPort(String),
    /// A flag that the viewer does not know.
    UnknownArgument(String),
    /// More than one input file outside serve mode.
    TooManyInputs,
    /// `--serve` without a file or directory to serve.
    MissingServeInput,
    /// `--serve PORT`, the form that `--serve FILE --port PORT` replaced.
    LegacyServePort(String),
}

/// What the viewer prints.
#[derive(Debug, Clone, Copy, PartialEq, Eq, Structural)]
pub enum OutputFormat {
    /// Text for the terminal.
    Terminal,
    /// A standalone HTML page.
    Html,
}

/// The port the preview server listens on when `--port` is not given.
pub const DEFAULT_PORT: u16 = 8080;

/// A parsed command line.
#[derive(Debug, Clone, PartialEq, Eq)]
pub struct Cli {
    /// The file to render (the first input); standard input when absent.
    pub input: Option<String>,
    /// Every input, in order: the files or directory to serve.
    pub inputs: Vec<String>,
    pub options: RenderOptions,
    /// Whether help was asked for.
    pub help: bool,
    /// What to print.
    pub output: OutputFormat,
    /// The port to serve the inputs on, in serve mode.
    pub serve: Option<u16>,
    /// Whether a served directory is searched below its top level.
    pub recurse: bool,
}

/// A command line as mathematical values.
pub struct CliSpec {
    pub inputs: Seq<Seq<char>>,
    pub color: bool,
    pub width: nat,
    pub help: bool,
    pub html: bool,
    pub serve: bool,
    pub port: nat,
    pub recurse: bool,
}

/// Why a command line is refused, as mathematical values.
pub enum CliFailure {
    MissingValue(Seq<char>),
    InvalidWidth(Seq<char>),
    InvalidPort(Seq<char>),
    UnknownArgument(Seq<char>),
    TooManyInputs,
    MissingServeInput,
    LegacyServePort(Seq<char>),
}

pub enum CliOutcome {
    Parsed(CliSpec),
    Failed(CliFailure),
}

pub open spec fn is_digit(c: char) -> bool {
    '0' <= c <= '9'
}

pub open spec fn digit_value(c: char) -> nat {
    ((c as u32) - ('0' as u32)) as nat
}

/// The number written by a string of decimal digits.
pub open spec fn digits_value(s: Seq<char>) -> nat
    decreases s.len(),
{
    if s.len() == 0 {
        0
    } else {
        digits_value(s.drop_last()) * 10 + digit_value(s.last())
    }
}

pub open spec fn all_digits(s: Seq<char>) -> bool {
    forall|i: int| 0 <= i < s.len() ==> is_digit(#[trigger] s[i])
}

/// `str::parse::<usize>`: an optional `+`, then at least one ASCII digit,
/// with a value that fits in `usize`.
pub open spec fn unsigned_digits(s: Seq<char>) -> Seq<char> {
    if s.len() > 0 && s[0] == '+' {
        s.drop_first()
    } else {
        s
    }
}

pub open spec fn parse_usize(s: Seq<char>) -> Option<nat> {
    let d = unsigned_digits(s);
    if d.len() > 0 && all_digits(d) && digits_value(d) <= usize::MAX {
        Some(digits_value(d))
    } else {
        None
    }
}

/// A width of at least 20 columns.
pub open spec fn width_value(s: Seq<char>) -> Option<nat> {
    match parse_usize(s) {
        Some(n) => if n >= 20 {
            Some(n)
        } else {
            None
        },
        None => None,
    }
}

/// `str::trim_start_matches`: removes `prefix` from the start as often as it occurs.
pub open spec fn strip_prefixes(s: Seq<char>, prefix: Seq<char>) -> Seq<char>
    decreases s.len(),
{
    if prefix.len() > 0 && starts_with(s, prefix) {
        strip_prefixes(s.skip(prefix.len() as int), prefix)
    } else {
        s
    }
}

pub open spec fn flag_short_help() -> Seq<char> {
    seq!['-', 'h']
}

pub open spec fn flag_help() -> Seq<char> {
    seq!['-', '-', 'h', 'e', 'l', 'p']
}

pub open spec fn flag_no_color() -> Seq<char> {
    seq!['-', '-', 'n', 'o', '-', 'c', 'o', 'l', 'o', 'r']
}

pub open spec fn flag_short_width() -> Seq<char> {
    seq!['-', 'w']
}

pub open spec fn flag_width() -> Seq<char> {
    seq!['-', '-', 'w', 'i', 'd', 't', 'h']
}

pub open spec fn flag_width_eq() -> Seq<char> {
    seq!['-', '-', 'w', 'i', 'd', 't', 'h', '=']
}

pub open spec fn flag_html() -> Seq<char> {
    seq!['-', '-', 'h', 't', 'm', 'l']
}

pub open spec fn flag_serve() -> Seq<char> {
    seq!['-', '-', 's', 'e', 'r', 'v', 'e']
}

pub open spec fn flag_port() -> Seq<char> {
    seq!['-', '-', 'p', 'o', 'r', 't']
}

pub open spec fn flag_port_eq() -> Seq<char> {
    seq!['-', '-', 'p', 'o', 'r', 't', '=']
}

pub open spec fn flag_recurse() -> Seq<char> {
    seq!['-', '-', 'r', 'e', 'c', 'u', 'r', 's', 'e']
}

/// A port from 1 to 65535 (`str::parse::<u16>`, with 0 refused).
pub open spec fn port_value(s: Seq<char>) -> Option<nat> {
    match parse_usize(s) {
        Some(n) => if 1 <= n <= 65535 {
            Some(n)
        } else {
            None
        },
        None => None,
    }
}

/// An argument that reads as a bare port number: one or more digits.
pub open spec fn is_port_number(s: Seq<char>) -> bool {
    s.len() > 0 && all_digits(s)
}

pub open spec fn initial_cli() -> CliSpec {
    CliSpec {
        inputs: Seq::empty(),
        color: true,
        width: 88,
        help: false,
        html: false,
        serve: false,
        port: DEFAULT_PORT as nat,
        recurse: false,
    }
}

/// Reads `args[i..]` into `st`, one argument (or a flag and its value) at a time.
pub open spec fn parse_args(args: Seq<Seq<char>>, i: int, st: CliSpec) -> CliOutcome
    decreases args.len() - i,
{
    if i < 0 || i >= args.len() {
        CliOutcome::Parsed(st)
    } else {
        let a = args[i];
        if a == flag_short_help() || a == flag_help() {
            parse_args(args, i + 1, CliSpec { help: true, ..st })
        } else if a == flag_no_color() {
            parse_args(args, i + 1, CliSpec { color: false, ..st })
        } else if a == flag_short_width() || a == flag_width() {
            if i + 1 >= args.len() {
                CliOutcome::Failed(CliFailure::MissingValue(flag_width()))
            } else {
                match width_value(args[i + 1]) {
                    Some(w) => parse_args(args, i + 2, CliSpec { width: w, ..st }),
                    None => CliOutcome::Failed(CliFailure::InvalidWidth(args[i + 1])),
                }
            }
        } else if starts_with(a, flag_width_eq()) {
            let v = strip_prefixes(a, flag_width_eq());
            match width_value(v) {
                Some(w) => parse_args(args, i + 1, CliSpec { width: w, ..st }),
                None => CliOutcome::Failed(CliFailure::InvalidWidth(v)),
            }
        } else if a == flag_html() {
            parse_args(args, i + 1, CliSpec { html: true, ..st })
        } else if a == flag_serve() {
            if i + 1 < args.len() && is_port_number(args[i + 1]) {
                CliOutcome::Failed(CliFailure::LegacyServePort(args[i + 1]))
            } else {
                parse_args(args, i + 1, CliSpec { serve: true, ..st })
            }
        } else if a == flag_port() {
            if i + 1 >= args.len() {
                CliOutcome::Failed(CliFailure::MissingValue(flag_port()))
            } else {
                match port_value(args[i + 1]) {
                    Some(p) => parse_args(args, i + 2, CliSpec { port: p, ..st }),
                    None => CliOutcome::Failed(CliFailure::InvalidPort(args[i + 1])),
                }
            }
        } else if starts_with(a, flag_port_eq()) {
            let v = a.skip(flag_port_eq().len() as int);
            match port_value(v) {
                Some(p) => parse_args(args, i + 1, CliSpec { port: p, ..st }),
                None => CliOutcome::Failed(CliFailure::InvalidPort(v)),
            }
        } else if a == flag_recurse() {
            parse_args(args, i + 1, CliSpec { recurse: true, ..st })
        } else if starts_with(a, seq!['-']) {
            CliOutcome::Failed(CliFailure::UnknownArgument(a))
        } else {
            parse_args(args, i + 1, CliSpec { inputs: st.inputs.push(a), ..st })
        }
    }
}

/// The checks made once every argument is read: one input at most outside
/// serve mode, at least one in serve mode (unless help was asked for); the
/// port is kept only in serve mode.
pub open spec fn finish_cli(st: CliSpec) -> CliOutcome {
    if !st.serve && st.inputs.len() > 1 {
        CliOutcome::Failed(CliFailure::TooManyInputs)
    } else if st.serve && st.inputs.len() == 0 && !st.help {
        CliOutcome::Failed(CliFailure::MissingServeInput)
    } else {
        CliOutcome::Parsed(
            CliSpec { port: if st.serve { st.port } else { DEFAULT_PORT as nat }, ..st },
        )
    }
}

/// What a whole command line reads as.
pub open spec fn cli_outcome(args: Seq<Seq<char>>) -> CliOutcome {
    match parse_args(args, 0, initial_cli()) {
        CliOutcome::Parsed(st) => finish_cli(st),
        CliOutcome::Failed(e) => CliOutcome::Failed(e),
    }
}

pub open spec fn args_view(args: Seq<&str>) -> Seq<Seq<char>> {
    args.map_values(|a: &str| a@)
}

pub open spec fn strings_view(v: Seq<String>) -> Seq<Seq<char>> {
    v.map_values(|s: String| s@)
}

pub open spec fn cli_view(c: Cli) -> CliSpec {
    CliSpec {
        inputs: strings_view(c.inputs@),
        color: c.options.color,
        width: c.options.width as nat,
        help: c.help,
        html: c.output == OutputFormat::Html,
        serve: c.serve is Some,
        port: match c.serve {
            Some(p) => p as nat,
            None => DEFAULT_PORT as nat,
        },
        recurse: c.recurse,
    }
}

/// `input` is the first of the inputs.
pub open spec fn first_input(c: Cli) -> bool {
    if c.inputs@.len() > 0 {
        c.input matches Some(s) && s@ == c.inputs@[0]@
    } else {
        c.input is None
    }
}

pub open spec fn failure_view(e: CliError) -> CliFailure {
    match e {
        CliError::MissingValue(f) => CliFailure::MissingValue(f@),
        CliError::InvalidWidth(v) => CliFailure::InvalidWidth(v@),
        CliError::InvalidPort(v) => CliFailure::InvalidPort(v@),
        CliError::UnknownArgument(a) => CliFailure::UnknownArgument(a@),
        CliError::TooManyInputs => CliFailure::TooManyInputs,
        CliError::MissingServeInput => CliFailure::MissingServeInput,
        CliError::LegacyServePort(p) => CliFailure::LegacyServePort(p@),
    }
}

/// The message that describes a refused command line.
pub open spec fn failure_message(e: CliFailure) -> Seq<char> {
    match e {
        CliFailure::MissingValue(f) => "missing value for "@ + f,
        CliFailure::InvalidWidth(v) => "invalid width: "@ + v,
        CliFailure::InvalidPort(v) => "invalid port: "@ + v,
        CliFailure::UnknownArgument(a) => "unknown argument: "@ + a,
        CliFailure::TooManyInputs => "expected at most one input file"@,
        CliFailure::MissingServeInput => "--serve needs a Markdown file or directory"@,
        CliFailure::LegacyServePort(p) => "`--serve "@ + p
            + "` is no longer accepted: `--serve PORT` was replaced by `--serve FILE --port PORT`"@,
    }
}

impl CliError {
    /// The text that describes the error.
    pub fn message(&self) -> (m: String)
        ensures
            m@ == failure_message(failure_view(*self)),
    {
        let mut out: Vec<char> = Vec::new();
        match self {
            CliError::MissingValue(flag) => {
                push_str(&mut out, "missing value for ");
                push_str(&mut out, flag);
            },
            CliError::InvalidWidth(value) => {
                push_str(&mut out, "invalid width: ");
                push_str(&mut out, value.as_str());
            },
            CliError::InvalidPort(value) => {
                push_str(&mut out, "invalid port: ");
                push_str(&mut out, value.as_str());
            },
            CliError::UnknownArgument(arg) => {
                push_str(&mut out, "unknown argument: ");
                push_str(&mut out, arg.as_str());
            },
            CliError::TooManyInputs => {
                push_str(&mut out, "expected at most one input file");
            },
            CliError::MissingServeInput => {
                push_str(&mut out, "--serve needs a Markdown file or directory");
            },
            CliError::LegacyServePort(port) => {
                push_str(&mut out, "`--serve ");
                push_str(&mut out, port.as_str());
                push_str(
                    &mut out,
                    "` is no longer accepted: `--serve PORT` was replaced by `--serve FILE --port PORT`",
                );
            },
        }
        assert(out@ =~= failure_message(failure_view(*self)));
        string_from_chars(out.as_slice())
    }
}

pub proof fn lemma_digits_value_grows(s: Seq<char>, i: int, j: int)
    requires
        0 <= i <= j <= s.len(),
    ensures
        digits_value(s.take(i)) <= digits_value(s.take(j)),
    decreases j - i,
{
    if i < j {
        lemma_digits_value_grows(s, i, j - 1);
        assert(s.take(j).drop_last() == s.take(j - 1));
    }
}

/// `str::parse::<usize>`.
pub fn parse_usize_chars(s: &[char]) -> (r: Option<usize>)
    ensures
        match r {
            Some(n) => parse_usize(s@) == Some(n as nat),
            None => parse_usize(s@) is None,
        },
{
    let start: usize = if s.len() > 0 && s[0] == '+' {
        1
    } else {
        0
    };
    let ghost d = unsigned_digits(s@);
    assert(d == s@.subrange(start as int, s@.len() as int));
    if start == s.len() {
        return None;
    }
    let mut i: usize = start;
    while i < s.len()
        invariant
            start <= i <= s@.len(),
            d == s@.subrange(start as int, s@.len() as int),
            d == unsigned_digits(s@),
            forall|k: int| start <= k < i ==> is_digit(#[trigger] s@[k]),
        decreases s@.len() - i,
    {
        if !('0' <= s[i] && s[i] <= '9') {
            assert(d[i - start] == s@[i as int]);
            assert(!is_digit(d[i - start]));
            return None;
        }
        i = i + 1;
    }
    assert forall|k: int| 0 <= k < d.len() implies is_digit(#[trigger] d[k]) by {
        assert(d[k] == s@[start + k]);
    }
    let mut v: usize = 0;
    let mut j: usize = start;
    while j < s.len()
        invariant
            start <= j <= s@.len(),
            d == s@.subrange(start as int, s@.len() as int),
            d == unsigned_digits(s@),
            all_digits(d),
            v as nat == digits_value(d.take(j - start)),
        decreases s@.len() - j,
    {
        assert(d.take(j + 1 - start).drop_last() == d.take(j - start));
        assert(d[j - start] == s@[j as int]);
        let dv = ((s[j] as u32) - ('0' as u32)) as usize;
        assert(dv as nat == digit_value(d[j - start]));
        assert(digits_value(d.take(j + 1 - start)) == digits_value(d.take(j - start)) * 10 + dv);
        match v.checked_mul(10) {
            Some(m) => match m.checked_add(dv) {
                Some(x) => {
                    v = x;
                },
                None => {
                    proof {
                        lemma_digits_value_grows(d, j + 1 - start, d.len() as int);
                        assert(d.take(d.len() as int) == d);
                    }
                    return None;
                },
            },
            None => {
                proof {
                    lemma_digits_value_grows(d, j + 1 - start, d.len() as int);
                    assert(d.take(d.len() as int) == d);
                }
                return None;
            },
        }
        j = j + 1;
    }
    assert(d.take(d.len() as int) == d);
    Some(v)
}

fn parse_width(value: &[char]) -> (r: Result<usize, CliError>)
    ensures
        match r {
            Ok(w) => width_value(value@) == Some(w as nat),
            Err(e) => width_value(value@) is None && failure_view(e) == CliFailure::InvalidWidth(
                value@,
            ),
        },
{
    match parse_usize_chars(value) {
        Some(w) => {
            if w < 20 {
                Err(CliError::InvalidWidth(string_from_chars(value)))
            } else {
                Ok(w)
            }
        },
        None => Err(CliError::InvalidWidth(string_from_chars(value))),
    }
}

/// `s` with every leading copy of `prefix` removed.
pub(crate) fn strip_prefixes_chars(s: &[char], prefix: &[char]) -> (r: Vec<char>)
    requires
        prefix@.len() > 0,
    ensures
        r@ == strip_prefixes(s@, prefix@),
{
    let mut start: usize = 0;
    let mut rest: Vec<char> = Vec::new();
    push_all(&mut rest, s);
    assert(s@.skip(0) == s@);
    while chars_start_with_at(rest.as_slice(), prefix)
        invariant
            prefix@.len() > 0,
            strip_prefixes(s@, prefix@) == strip_prefixes(rest@, prefix@),
        decreases rest@.len(),
    {
        let mut next: Vec<char> = Vec::new();
        let mut k: usize = prefix.len();
        while k < rest.len()
            invariant
                prefix@.len() <= k <= rest@.len(),
                next@ == rest@.subrange(prefix@.len() as int, k as int),
            decreases rest@.len() - k,
        {
            next.push(rest[k]);
            k = k + 1;
            assert(next@ =~= rest@.subrange(prefix@.len() as int, k as int));
        }
        assert(next@ =~= rest@.skip(prefix@.len() as int));
        rest = next;
    }
    rest
}

fn chars_start_with_at(s: &[char], prefix: &[char]) -> (b: bool)
    ensures
        b == starts_with(s@, prefix@),
{
    crate::text::chars_start_with(s, prefix)
}

/// A port from 1 to 65535.
fn parse_port(value: &[char]) -> (r: Result<u16, CliError>)
    ensures
        match r {
            Ok(p) => port_value(value@) == Some(p as nat),
            Err(e) => port_value(value@) is None && failure_view(e) == CliFailure::InvalidPort(
                value@,
            ),
        },
{
    match parse_usize_chars(value) {
        Some(p) => {
            if p < 1 || p > 65535 {
                Err(CliError::InvalidPort(string_from_chars(value)))
            } else {
                Ok(p as u16)
            }
        },
        None => Err(CliError::InvalidPort(string_from_chars(value))),
    }
}

/// Whether an argument is one or more ASCII digits.
fn is_port_number_chars(s: &[char]) -> (b: bool)
    ensures
        b == is_port_number(s@),
{
    if s.len() == 0 {
        return false;
    }
    let mut i: usize = 0;
    while i < s.len()
        invariant
            i <= s@.len(),
            forall|k: int| 0 <= k < i ==> is_digit(#[trigger] s@[k]),
        decreases s@.len() - i,
    {
        if !('0' <= s[i] && s[i] <= '9') {
            assert(!is_digit(s@[i as int]));
            return false;
        }
        i = i + 1;
    }
    true
}

/// The usage text.
pub fn help() -> (h: &'static str)
    ensures
        h@ == HELP@,
{
    HELP
}

pub const HELP: &'static str = "Usage: markview [OPTIONS] [FILE]\n       markview --serve [--port PORT] [--recurse] PATH...\n\nReads FILE or stdin and renders Markdown for the terminal, or as HTML.\nWith --serve, previews Markdown files, or a directory of them, in a browser.\n\nOptions:\n  -w, --width <COLUMNS>  Wrap text to a target width (minimum 20, default 88)\n      --no-color         Disable ANSI styling\n      --html             Print a standalone HTML page\n      --serve            Serve the given files or directory on localhost\n      --port <PORT>      Port to serve on (1 to 65535, default 8080)\n      --recurse          Serve Markdown files in subdirectories too\n  -h, --help             Show this help\n";

fn literal(s: &str) -> (v: Vec<char>)
    ensures
        v@ == s@,
{
    chars_of(s)
}

/// The command line read so far, from the parser's locals.
pub open spec fn parse_state(
    inputs: Seq<String>,
    options: RenderOptions,
    help: bool,
    html: bool,
    serve: bool,
    port: u16,
    recurse: bool,
) -> CliSpec {
    CliSpec {
        inputs: strings_view(inputs),
        color: options.color,
        width: options.width as nat,
        help,
        html,
        serve,
        port: port as nat,
        recurse,
    }
}

/// The flags, as characters.
struct Flags {
    short_help: Vec<char>,
    long_help: Vec<char>,
    no_color: Vec<char>,
    short_width: Vec<char>,
    long_width: Vec<char>,
    width_eq: Vec<char>,
    html: Vec<char>,
    serve: Vec<char>,
    port: Vec<char>,
    port_eq: Vec<char>,
    recurse: Vec<char>,
    dash: Vec<char>,
}

impl Flags {
    spec fn valid(&self) -> bool {
        &&& self.short_help@ == flag_short_help()
        &&& self.long_help@ == flag_help()
        &&& self.no_color@ == flag_no_color()
        &&& self.short_width@ == flag_short_width()
        &&& self.long_width@ == flag_width()
        &&& self.width_eq@ == flag_width_eq()
        &&& self.html@ == flag_html()
        &&& self.serve@ == flag_serve()
        &&& self.port@ == flag_port()
        &&& self.port_eq@ == flag_port_eq()
        &&& self.recurse@ == flag_recurse()
        &&& self.dash@ == seq!['-']
    }

    fn new() -> (f: Flags)
        ensures
            f.valid(),
    {
        let f = Flags {
            short_help: literal("-h"),
            long_help: literal("--help"),
            no_color: literal("--no-color"),
            short_width: literal("-w"),
            long_width: literal("--width"),
            width_eq: literal("--width="),
            html: literal("--html"),
            serve: literal("--serve"),
            port: literal("--port"),
            port_eq: literal("--port="),
            recurse: literal("--recurse"),
            dash: literal("-"),
        };
        proof {
            reveal_strlit("-h");
            reveal_strlit("--help");
            reveal_strlit("--no-color");
            reveal_strlit("-w");
            reveal_strlit("--width");
            reveal_strlit("--width=");
            reveal_strlit("--html");
            reveal_strlit("--serve");
            reveal_strlit("--port");
            reveal_strlit("--port=");
            reveal_strlit("--recurse");
            reveal_strlit("-");
            assert(f.short_help@ =~= flag_short_help());
            assert(f.long_help@ =~= flag_help());
            assert(f.no_color@ =~= flag_no_color());
            assert(f.short_width@ =~= flag_short_width());
            assert(f.long_width@ =~= flag_width());
            assert(f.width_eq@ =~= flag_width_eq());
            assert(f.html@ =~= flag_html());
            assert(f.serve@ =~= flag_serve());
            assert(f.port@ =~= flag_port());
            assert(f.port_eq@ =~= flag_port_eq());
            assert(f.recurse@ =~= flag_recurse());
            assert(f.dash@ =~= seq!['-']);
        }
        f
    }
}

/// `s[k..]`.
fn chars_after(s: &[char], k: usize) -> (r: Vec<char>)
    requires
        k <= s@.len(),
    ensures
        r@ == s@.skip(k as int),
{
    let mut r: Vec<char> = Vec::new();
    let mut i: usize = k;
    while i < s.len()
        invariant
            k <= i <= s@.len(),
            r@ == s@.subrange(k as int, i as int),
        decreases s@.len() - i,
    {
        r.push(s[i]);
        i = i + 1;
        assert(r@ =~= s@.subrange(k as int, i as int));
    }
    assert(r@ =~= s@.skip(k as int));
    r
}

impl Cli {
    /// Reads the viewer's arguments (without the program name). `-h` and
    /// `--help` ask for help, `--no-color` turns styling off, `-w N`,
    /// `--width N` and `--width=N` set the width (at least 20), `--html`
    /// asks for an HTML page, `--serve` serves the inputs on the port that
    /// `--port N` or `--port=N` gives (1 to 65535), `--recurse` serves a
    /// directory's subdirectories too, other arguments are inputs, and
    /// anything else starting with `-` is refused.
    pub fn parse(args: &[&str]) -> (r: Result<Cli, CliError>)
        ensures
            match r {
                Ok(c) => cli_outcome(args_view(args@)) == CliOutcome::Parsed(cli_view(c))
                    && first_input(c),
                Err(e) => cli_outcome(args_view(args@)) == CliOutcome::Failed(failure_view(e)),
            },
    {
        let ghost all = args_view(args@);
        let f = Flags::new();
        let mut options = RenderOptions { color: true, width: 88 };
        let mut inputs: Vec<String> = Vec::new();
        let mut input: Option<String> = None;
        let mut help = false;
        let mut html = false;
        let mut serve = false;
        let mut port: u16 = DEFAULT_PORT;
        let mut recurse = false;
        let mut i: usize = 0;
        assert(strings_view(inputs@) =~= Seq::<Seq<char>>::empty());
        while i < args.len()
            invariant
                i <= args@.len(),
                all == args_view(args@),
                f.valid(),
                parse_args(all, 0, initial_cli()) == parse_args(
                    all,
                    i as int,
                    parse_state(inputs@, options, help, html, serve, port, recurse),
                ),
                if inputs@.len() > 0 {
                    input matches Some(s) && s@ == inputs@[0]@
                } else {
                    input is None
                },
            decreases args@.len() - i,
        {
            let a = chars_of(args[i]);
            assert(a@ == all[i as int]);
            if chars_equal(a.as_slice(), f.short_help.as_slice()) || chars_equal(
                a.as_slice(),
                f.long_help.as_slice(),
            ) {
                help = true;
                i = i + 1;
            } else if chars_equal(a.as_slice(), f.no_color.as_slice()) {
                options.color = false;
                i = i + 1;
            } else if chars_equal(a.as_slice(), f.short_width.as_slice()) || chars_equal(
                a.as_slice(),
                f.long_width.as_slice(),
            ) {
                if i + 1 >= args.len() {
                    proof {
                        reveal_strlit("--width");
                        assert("--width"@ =~= flag_width());
                    }
                    return Err(CliError::MissingValue("--width"));
                }
                let value = chars_of(args[i + 1]);
                assert(value@ == all[i + 1]);
                options.width = parse_width(value.as_slice())?;
                i = i + 2;
            } else if crate::text::chars_start_with(a.as_slice(), f.width_eq.as_slice()) {
                let value = strip_prefixes_chars(a.as_slice(), f.width_eq.as_slice());
                options.width = parse_width(value.as_slice())?;
                i = i + 1;
            } else if chars_equal(a.as_slice(), f.html.as_slice()) {
                html = true;
                i = i + 1;
            } else if chars_equal(a.as_slice(), f.serve.as_slice()) {
                if i + 1 < args.len() {
                    let next = chars_of(args[i + 1]);
                    assert(next@ == all[i + 1]);
                    if is_port_number_chars(next.as_slice()) {
                        return Err(CliError::LegacyServePort(string_from_chars(next.as_slice())));
                    }
                }
                serve = true;
                i = i + 1;
            } else if chars_equal(a.as_slice(), f.port.as_slice()) {
                if i + 1 >= args.len() {
                    proof {
                        reveal_strlit("--port");
                        assert("--port"@ =~= flag_port());
                    }
                    return Err(CliError::MissingValue("--port"));
                }
                let value = chars_of(args[i + 1]);
                assert(value@ == all[i + 1]);
                port = parse_port(value.as_slice())?;
                i = i + 2;
            } else if crate::text::chars_start_with(a.as_slice(), f.port_eq.as_slice()) {
                let value = chars_after(a.as_slice(), f.port_eq.len());
                port = parse_port(value.as_slice())?;
                i = i + 1;
            } else if chars_equal(a.as_slice(), f.recurse.as_slice()) {
                recurse = true;
                i = i + 1;
            } else if crate::text::chars_start_with(a.as_slice(), f.dash.as_slice()) {
                return Err(CliError::UnknownArgument(string_from_chars(a.as_slice())));
            } else {
                let ghost before = inputs@;
                if inputs.len() == 0 {
                    input = Some(string_from_chars(a.as_slice()));
                }
                inputs.push(string_from_chars(a.as_slice()));
                assert(strings_view(inputs@) =~= strings_view(before).push(a@));
                i = i + 1;
            }
        }
        let ghost st = parse_state(inputs@, options, help, html, serve, port, recurse);
        if !serve && inputs.len() > 1 {
            return Err(CliError::TooManyInputs);
        }
        if serve && inputs.len() == 0 && !help {
            return Err(CliError::MissingServeInput);
        }
        let output = if html {
            OutputFormat::Html
        } else {
            OutputFormat::Terminal
        };
        let c = Cli {
            input,
            inputs,
            options,
            help,
            output,
            serve: if serve {
                Some(port)
            } else {
                None
            },
            recurse,
        };
        assert(cli_view(c) == CliSpec {
            port: if st.serve { st.port } else { DEFAULT_PORT as nat },
            ..st
        });
        Ok(c)
    }
}

} // verus!
