//! Command-line options as plain values, and the settings they resolve to.
use vstd::prelude::*;
use crate::settings::LogLevel;
use crate::ast::{eq_ascii_case, eq_ignore_ascii_case};
use crate::text::{chars_of, string_of, trailing_end};
use crate::write::push_str;

verus! {

/// The log level flags: verbose, quiet, silent.
#[derive(Debug, Clone, Copy, Default)]
pub struct LogLevelArgs {
    pub verbose: bool,
    pub quiet: bool,
    pub silent: bool,
}

impl LogLevelArgs {
    /// The log level the flags select: silent wins over quiet, which wins over verbose.
    pub open spec fn level(self) -> LogLevel {
        if self.silent {
            LogLevel::Silent
        } else if self.quiet {
            LogLevel::Quiet
        } else if self.verbose {
            LogLevel::Verbose
        } else {
            LogLevel::Default
        }
    }

    /// Returns the log level the flags select.
    pub fn log_level(&self) -> (l: LogLevel)
        ensures
            l == self.level(),
    {
        if self.silent {
            LogLevel::Silent
        } else if self.quiet {
            LogLevel::Quiet
        } else if self.verbose {
            LogLevel::Verbose
        } else {
            LogLevel::Default
        }
    }
}

/// The format of help and version output.
#[derive(Debug, Clone, Copy, PartialEq, Eq, Structural)]
pub enum HelpFormat {
    Text,
    Json,
}

/// Returns what a pair of opposite flags (`--x` and `--no-x`) asks for: yes, no, or nothing
/// when neither is given. The parser never lets both be given.
pub fn resolve_bool_arg(yes: bool, no: bool) -> (r: Option<bool>)
    requires
        !(yes && no),
    ensures
        r == if yes {
            Some(true)
        } else if no {
            Some(false)
        } else {
            None::<bool>
        },
{
    if yes {
        Some(true)
    } else if no {
        Some(false)
    } else {
        None
    }
}

/// The options of the language server.
#[derive(Debug, Clone, Copy)]
pub struct ServerCommand {
    pub preview: bool,
    pub no_preview: bool,
}

impl ServerCommand {
    /// Returns whether preview mode was asked for, or refused, if either was.
    pub fn resolve_preview(self) -> (r: Option<bool>)
        requires
            !(self.preview && self.no_preview),
        ensures
            r == if self.preview {
                Some(true)
            } else if self.no_preview {
                Some(false)
            } else {
                None::<bool>
            },
    {
        resolve_bool_arg(self.preview, self.no_preview)
    }
}

/// The options of the `explain` command.
#[derive(Debug, Clone)]
pub struct ExplainCommand {
    /// The rules to explain, as written; all of them when empty.
    pub rules: Vec<String>,
    /// Show a short summary of each explanation.
    pub summary: bool,
    /// Show the names of the categories.
    pub list_categories: bool,
    pub output_format: HelpFormat,
}

/// The parser of `--config` arguments: a path to a configuration file, or a TOML
/// `<KEY> = <VALUE>` pair overriding one option.
#[derive(Debug, Clone, Copy)]
pub struct ConfigArgumentParser;

/// Why a `--config` argument that is no configuration file was refused.
#[derive(Debug, Clone)]
pub enum InvalidConfigFlagReason {
    /// It is not valid TOML; the parser's message.
    InvalidToml(String),
    /// It is valid TOML but no valid configuration option; the parser's message.
    ValidTomlButInvalidFortitudeSchema(String),
    /// It sets `extend`, which a `--config` argument cannot.
    ExtendPassedViaConfigFlag,
}

/// The description of a reason.
pub open spec fn reason_description(r: InvalidConfigFlagReason) -> Seq<char> {
    match r {
        InvalidConfigFlagReason::InvalidToml(_) => "The supplied argument is not valid TOML"@,
        InvalidConfigFlagReason::ValidTomlButInvalidFortitudeSchema(_) =>
            "Could not parse the supplied argument as a `fortitude.toml` configuration option"@,
        InvalidConfigFlagReason::ExtendPassedViaConfigFlag => "Cannot include `extend` in a --config flag value"@,
    }
}

impl InvalidConfigFlagReason {
    /// Returns the description of the reason.
    pub fn description(&self) -> (s: &'static str)
        ensures
            s@ == reason_description(*self),
    {
        match self {
            InvalidConfigFlagReason::InvalidToml(_) => "The supplied argument is not valid TOML",
            InvalidConfigFlagReason::ValidTomlButInvalidFortitudeSchema(_) =>
                "Could not parse the supplied argument as a `fortitude.toml` configuration option",
            InvalidConfigFlagReason::ExtendPassedViaConfigFlag => "Cannot include `extend` in a --config flag value",
        }
    }
}

/// Whether `c` is ASCII whitespace (as `u8::is_ascii_whitespace`).
pub open spec fn is_ascii_ws(c: char) -> bool {
    c == ' ' || c == '\t' || c == '\n' || c == '\x0C' || c == '\r'
}

/// `s` without ASCII whitespace at its start.
pub open spec fn trim_ascii_start(s: Seq<char>) -> Seq<char>
    decreases s.len(),
{
    if s.len() > 0 && is_ascii_ws(s[0]) {
        trim_ascii_start(s.drop_first())
    } else {
        s
    }
}

/// `s` without ASCII whitespace at its end.
pub open spec fn trim_ascii_end(s: Seq<char>) -> Seq<char>
    decreases s.len(),
{
    if s.len() > 0 && is_ascii_ws(s.last()) {
        trim_ascii_end(s.drop_last())
    } else {
        s
    }
}

/// The position of the first `=` in `s`, if any.
pub open spec fn first_equals(s: Seq<char>) -> Option<int> {
    if exists|i: int| 0 <= i < s.len() && s[i] == '=' {
        Some(choose|i: int| 0 <= i < s.len() && s[i] == '=' && forall|j: int| 0 <= j < i ==> s[j] != '=')
    } else {
        None
    }
}

/// The key and value of a `<KEY> = <VALUE>` argument: the text before its first `=` without
/// surrounding ASCII whitespace, and the text after it without leading ASCII whitespace.
pub open spec fn key_value(s: Seq<char>) -> Option<(Seq<char>, Seq<char>)> {
    match first_equals(s) {
        Some(i) => Some((trim_ascii_end(trim_ascii_start(s.take(i))), trim_ascii_start(s.skip(i + 1)))),
        None => None,
    }
}

fn is_ascii_ws_exec(c: char) -> (b: bool)
    ensures
        b == is_ascii_ws(c),
{
    c == ' ' || c == '\t' || c == '\n' || c == '\x0C' || c == '\r'
}

fn trim_ascii_chars(s: &[char], start: bool, end: bool) -> (r: Vec<char>)
    ensures
        r@ == if start && end {
            trim_ascii_end(trim_ascii_start(s@))
        } else if start {
            trim_ascii_start(s@)
        } else {
            s@
        },
{
    let mut a: usize = 0;
    assert(s@.skip(0) =~= s@);
    if start {
        while a < s.len() && is_ascii_ws_exec(s[a])
            invariant
                a <= s@.len(),
                trim_ascii_start(s@) == trim_ascii_start(s@.skip(a as int)),
            decreases s@.len() - a,
        {
            assert(s@.skip(a as int).drop_first() =~= s@.skip(a + 1));
            a = a + 1;
        }
    }
    let rest = crate::text::tail_from(s, a);
    let mut e = rest.len();
    assert(rest@.take(e as int) =~= rest@);
    if start && end {
        while e > 0 && is_ascii_ws_exec(rest[e - 1])
            invariant
                e <= rest@.len(),
                trim_ascii_end(rest@) == trim_ascii_end(rest@.take(e as int)),
            decreases e,
        {
            assert(rest@.take(e as int).drop_last() =~= rest@.take(e - 1));
            e = e - 1;
        }
    }
    crate::text::head_of(rest.as_slice(), e)
}

/// Returns the key and value of a `<KEY> = <VALUE>` argument (see [`key_value`]), if it has
/// an `=`.
pub fn config_flag_key_value(value: &str) -> (r: Option<(String, String)>)
    ensures
        match r {
            Some((k, v)) => key_value(value@) == Some((k@, v@)),
            None => key_value(value@) is None,
        },
{
    let cs = chars_of(value);
    let mut i: usize = 0;
    while i < cs.len()
        invariant
            i <= cs@.len(),
            cs@ == value@,
            forall|j: int| 0 <= j < i ==> cs@[j] != '=',
        decreases cs@.len() - i,
    {
        if cs[i] == '=' {
            proof {
                let w = choose|w: int| 0 <= w < cs@.len() && cs@[w] == '=' && forall|j: int| 0 <= j < w ==> cs@[j] != '=';
                if w < i {
                } else if w > i {
                    assert(cs@[i as int] != '=');
                }
                assert(w == i);
            }
            let head = crate::text::head_of(cs.as_slice(), i);
            let tail = crate::text::tail_from(cs.as_slice(), i + 1);
            let k = trim_ascii_chars(head.as_slice(), true, true);
            let v = trim_ascii_chars(tail.as_slice(), true, false);
            return Some((string_of(k.as_slice()), string_of(v.as_slice())));
        }
        i = i + 1;
    }
    None
}

/// The indentation that lines the tip's later lines up with its first.
pub open spec fn tip_indent() -> Seq<char> {
    "       "@
}

/// The start of every tip for a refused `--config` argument.
pub open spec fn base_tip() -> Seq<char> {
    "A `--config` flag must either be a path to a `.toml` configuration file\n"@ + tip_indent()
        + "or a TOML `<KEY> = <VALUE>` pair overriding a specific configuration\n"@ + tip_indent() + "option"@
}

/// The choices listed for the table `key` with the fields `fields`, one per line.
pub open spec fn field_choices(key: Seq<char>, fields: Seq<String>) -> Seq<char>
    decreases fields.len(),
{
    if fields.len() == 0 {
        Seq::empty()
    } else {
        let line = "- `"@ + key + "."@ + fields.last()@ + "`"@;
        if fields.len() == 1 {
            line
        } else {
            field_choices(key, fields.drop_last()) + "\n"@ + line
        }
    }
}

/// What the tip adds for the argument `value`, whose path extension is `extension`: for a
/// `.toml` path without `=`, that it is no configuration file; for a `<KEY> = <VALUE>`
/// argument whose key names a table (with the fields `table_fields`) and whose value is no
/// inline table, the table's subkeys; for another one, the reason and the parser's message.
pub open spec fn tip_addition(
    value: Seq<char>,
    extension: Option<String>,
    reason: InvalidConfigFlagReason,
    table_fields: Option<Vec<String>>,
    underlying: Seq<char>,
) -> Seq<char> {
    if extension matches Some(e) && eq_ascii_case(e@, "toml"@) {
        if first_equals(value) is None {
            "\n\nIt looks like you were trying to pass a path to a configuration file.\nThe path `"@ + value
                + "` does not point to a configuration file"@
        } else {
            Seq::empty()
        }
    } else {
        match key_value(value) {
            Some((key, rhs)) => match table_fields {
                Some(fields) if !(rhs.len() > 0 && rhs[0] == '{') => "\n\n`"@ + key
                    + "` is a table of configuration options.\nDid you want to override one of the table's subkeys?\n\nPossible choices:\n\n"@
                    + field_choices(key, fields@),
                _ => "\n\n"@ + reason_description(reason) + ":\n\n"@ + underlying,
            },
            None => Seq::empty(),
        }
    }
}

/// `s` without whitespace at its end.
pub open spec fn trim_end_ws(s: Seq<char>) -> Seq<char> {
    s.take(trailing_end(s) as int)
}

fn push_field_choices(out: &mut Vec<char>, key: &str, fields: &Vec<String>)
    ensures
        final(out)@ == old(out)@ + field_choices(key@, fields@),
{
    let mut i: usize = 0;
    let ghost start = old(out)@;
    assert(fields@.take(0) =~= Seq::<String>::empty());
    while i < fields.len()
        invariant
            i <= fields@.len(),
            out@ == start + field_choices(key@, fields@.take(i as int)),
        decreases fields@.len() - i,
    {
        let ghost before = out@;
        if i > 0 {
            push_str(out, "\n");
        }
        push_str(out, "- `");
        push_str(out, key);
        push_str(out, ".");
        push_str(out, fields[i].as_str());
        push_str(out, "`");
        proof {
            let t = fields@.take(i + 1);
            assert(t.drop_last() =~= fields@.take(i as int));
            assert(t.last() == fields@[i as int]);
            if i > 0 {
                assert(out@ =~= start + field_choices(key@, t));
            } else {
                assert(out@ =~= start + field_choices(key@, t));
            }
        }
        i = i + 1;
    }
    assert(fields@.take(i as int) =~= fields@);
}

fn first_is_brace(s: &str) -> (b: bool)
    ensures
        b == (s@.len() > 0 && s@[0] == '{'),
{
    let cs = chars_of(s);
    cs.len() > 0 && cs[0] == '{'
}

/// Returns the tip shown for a refused `--config` argument `value` (see [`base_tip`] and
/// [`tip_addition`]), without trailing whitespace. `extension` is the extension of `value`
/// read as a path, `table_fields` the fields of the option table that the argument's key
/// names, if it names one, and `underlying` the TOML parser's message.
pub fn config_flag_tip(
    value: &str,
    extension: Option<String>,
    reason: &InvalidConfigFlagReason,
    table_fields: Option<Vec<String>>,
    underlying: &str,
) -> (tip: String)
    ensures
        tip@ == trim_end_ws(base_tip() + tip_addition(value@, extension, *reason, table_fields, underlying@)),
{
    let mut out: Vec<char> = Vec::new();
    push_str(&mut out, "A `--config` flag must either be a path to a `.toml` configuration file\n");
    push_str(&mut out, "       ");
    push_str(&mut out, "or a TOML `<KEY> = <VALUE>` pair overriding a specific configuration\n");
    push_str(&mut out, "       ");
    push_str(&mut out, "option");
    let ghost base = out@;
    assert(base =~= base_tip());
    let is_toml = match &extension {
        Some(e) => eq_ignore_ascii_case(e.as_str(), "toml"),
        None => false,
    };
    let kv = config_flag_key_value(value);
    if is_toml {
        if kv.is_none() {
            push_str(&mut out, "\n\nIt looks like you were trying to pass a path to a configuration file.\nThe path `");
            push_str(&mut out, value);
            push_str(&mut out, "` does not point to a configuration file");
        }
    } else {
        match kv {
            Some((key, rhs)) => {
                let table = match &table_fields {
                    Some(fields) => !first_is_brace(rhs.as_str()),
                    None => false,
                };
                if table {
                    push_str(&mut out, "\n\n`");
                    push_str(&mut out, key.as_str());
                    push_str(
                        &mut out,
                        "` is a table of configuration options.\nDid you want to override one of the table's subkeys?\n\nPossible choices:\n\n",
                    );
                    match &table_fields {
                        Some(fields) => push_field_choices(&mut out, key.as_str(), fields),
                        None => {},
                    }
                } else {
                    push_str(&mut out, "\n\n");
                    push_str(&mut out, reason.description());
                    push_str(&mut out, ":\n\n");
                    push_str(&mut out, underlying);
                }
            },
            None => {},
        }
    }
    let ghost full = out@;
    assert(full =~= base_tip() + tip_addition(value@, extension, *reason, table_fields, underlying@));
    let mut e = out.len();
    proof {
        crate::text::lemma_trailing_end_pub(full);
    }
    assert(full.take(e as int) =~= full);
    while e > 0 && crate::text::is_whitespace(out[e - 1])
        invariant
            e <= full.len(),
            out@ == full,
            trailing_end(full) == trailing_end(full.take(e as int)),
        decreases e,
    {
        assert(full.take(e as int).drop_last() =~= full.take(e - 1));
        e = e - 1;
    }
    proof {
        if e > 0 {
            assert(trailing_end(full.take(e as int)) == e);
        }
    }
    let trimmed = crate::text::head_of(out.as_slice(), e);
    string_of(trimmed.as_slice())
}

} // verus!
