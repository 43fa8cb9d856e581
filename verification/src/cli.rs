//! Command-line arguments: the commands, the options of `analyze`, the demo
//! data set and the usage text.
use vstd::prelude::*;
use crate::analyzer::{str_views, AnalyzeOptions};
use crate::error::{AppError, ErrorView};
use crate::export::{infer_format_from_path, infer_format_spec};
use crate::model::{parse_format_spec, parse_level_spec, FilterView, LogFilter, LogLevel, OutputFormat};
use crate::text::{chars_of, copy_str, int_error_message, int_error_text, opt_text_view, parse_unsigned, parse_unsigned_chars, str_equals, lemma_parse_unsigned_bound};

verus! {

#[derive(Debug, Clone)]
pub enum Command {
    Analyze(Config),
    Demo,
    Help,
}

#[derive(Debug, Clone)]
pub struct Config {
    pub input: String,
    pub output: Option<String>,
    pub format: OutputFormat,
    pub options: AnalyzeOptions,
}

/// A configuration with its strings taken as characters.
pub struct ConfigView {
    pub input: Seq<char>,
    pub output: Option<Seq<char>>,
    pub format: OutputFormat,
    pub threads: usize,
    pub top_n: usize,
    pub slow_threshold_ms: u64,
    pub filter: FilterView,
}

pub enum CommandView {
    Analyze(ConfigView),
    Demo,
    Help,
}

impl View for Config {
    type V = ConfigView;

    open spec fn view(&self) -> ConfigView {
        ConfigView {
            input: self.input@,
            output: opt_text_view(self.output),
            format: self.format,
            threads: self.options.threads,
            top_n: self.options.top_n,
            slow_threshold_ms: self.options.slow_threshold_ms,
            filter: self.options.filter@,
        }
    }
}

impl View for Command {
    type V = CommandView;

    open spec fn view(&self) -> CommandView {
        match self {
            Command::Analyze(c) => CommandView::Analyze(c@),
            Command::Demo => CommandView::Demo,
            Command::Help => CommandView::Help,
        }
    }
}

/// The options of `analyze` read so far.
pub struct ArgsView {
    pub input: Option<Seq<char>>,
    pub output: Option<Seq<char>>,
    pub format: Option<OutputFormat>,
    pub threads: usize,
    pub top_n: usize,
    pub slow_threshold_ms: u64,
    pub min_level: Option<LogLevel>,
    pub service: Option<Seq<char>>,
    pub keyword: Option<Seq<char>>,
}

/// The options before any argument is read.
pub open spec fn default_args() -> ArgsView {
    ArgsView {
        input: None,
        output: None,
        format: None,
        threads: 4,
        top_n: 5,
        slow_threshold_ms: 500,
        min_level: None,
        service: None,
        keyword: None,
    }
}

/// The error for a flag given last, without its value.
pub open spec fn needs_value(flag: Seq<char>) -> ErrorView {
    ErrorView::InvalidArgument("flag `"@ + flag + "` needs a value"@)
}

/// What reading `text` as a positive integer no larger than `max` gives.
pub open spec fn positive_spec(text: Seq<char>, name: Seq<char>, max: nat) -> Result<nat, ErrorView> {
    match parse_unsigned(text, max) {
        Err(e) => Err(ErrorView::Parse(int_error_text(e))),
        Ok(v) => if v == 0 {
            Err(ErrorView::InvalidArgument(name + " must be positive"@))
        } else {
            Ok(v)
        },
    }
}

/// The flags that take a value.
pub open spec fn takes_value(a: Seq<char>) -> bool {
    ||| a == "--out"@ || a == "-o"@
    ||| a == "--format"@ || a == "-f"@
    ||| a == "--threads"@ || a == "-t"@
    ||| a == "--top"@
    ||| a == "--slow"@
    ||| a == "--level"@ || a == "-l"@
    ||| a == "--service"@ || a == "-s"@
    ||| a == "--keyword"@ || a == "-k"@
}

/// The options after `flag` with the value `v`.
pub open spec fn apply_flag(st: ArgsView, flag: Seq<char>, v: Seq<char>) -> Result<ArgsView, ErrorView> {
    if flag == "--out"@ || flag == "-o"@ {
        Ok(ArgsView { output: Some(v), ..st })
    } else if flag == "--format"@ || flag == "-f"@ {
        match parse_format_spec(v) {
            Ok(f) => Ok(ArgsView { format: Some(f), ..st }),
            Err(e) => Err(e),
        }
    } else if flag == "--threads"@ || flag == "-t"@ {
        match positive_spec(v, "threads"@, usize::MAX as nat) {
            Ok(n) => Ok(ArgsView { threads: n as usize, ..st }),
            Err(e) => Err(e),
        }
    } else if flag == "--top"@ {
        match positive_spec(v, "top"@, usize::MAX as nat) {
            Ok(n) => Ok(ArgsView { top_n: n as usize, ..st }),
            Err(e) => Err(e),
        }
    } else if flag == "--slow"@ {
        match positive_spec(v, "slow"@, u64::MAX as nat) {
            Ok(n) => Ok(ArgsView { slow_threshold_ms: n as u64, ..st }),
            Err(e) => Err(e),
        }
    } else if flag == "--level"@ || flag == "-l"@ {
        match parse_level_spec(v) {
            Ok(l) => Ok(ArgsView { min_level: Some(l), ..st }),
            Err(e) => Err(e),
        }
    } else if flag == "--service"@ || flag == "-s"@ {
        Ok(ArgsView { service: Some(v), ..st })
    } else if flag == "--keyword"@ || flag == "-k"@ {
        Ok(ArgsView { keyword: Some(v), ..st })
    } else {
        Ok(st)
    }
}

/// The report format: the one asked for, else the one the output file's
/// extension names, else text.
pub open spec fn resolve_format(asked: Option<OutputFormat>, output: Option<Seq<char>>) -> OutputFormat {
    match asked {
        Some(f) => f,
        None => match output {
            Some(p) => match infer_format_spec(p) {
                Some(f) => f,
                None => OutputFormat::Text,
            },
            None => OutputFormat::Text,
        },
    }
}

/// The configuration the options make once all arguments are read.
pub open spec fn finish_args(st: ArgsView) -> Result<ConfigView, ErrorView> {
    match st.input {
        None => Err(ErrorView::InvalidArgument("missing input file: rlog analyze <FILE>"@)),
        Some(input) => Ok(ConfigView {
            input,
            output: st.output,
            format: resolve_format(st.format, st.output),
            threads: st.threads,
            top_n: st.top_n,
            slow_threshold_ms: st.slow_threshold_ms,
            filter: FilterView { min_level: st.min_level, service: st.service, keyword: st.keyword },
        }),
    }
}

/// What the arguments of `analyze` from position `i` on make of the options
/// `st`: a flag that takes a value reads the next argument; another argument
/// that starts with `-` is an unknown flag; any other is the input file, of
/// which there is one.
pub open spec fn analyze_from(st: ArgsView, args: Seq<Seq<char>>, i: int) -> Result<ConfigView, ErrorView>
    decreases args.len() - i,
{
    if i < 0 || i >= args.len() {
        finish_args(st)
    } else {
        let a = args[i];
        if takes_value(a) {
            if i + 1 >= args.len() {
                Err(needs_value(a))
            } else {
                match apply_flag(st, a, args[i + 1]) {
                    Ok(next) => analyze_from(next, args, i + 2),
                    Err(e) => Err(e),
                }
            }
        } else if a.len() > 0 && a[0] == '-' {
            Err(ErrorView::InvalidArgument("unknown flag `"@ + a + "`"@))
        } else if st.input is Some {
            Err(ErrorView::InvalidArgument("multiple input files are not supported; unexpected `"@ + a + "`"@))
        } else {
            analyze_from(ArgsView { input: Some(a), ..st }, args, i + 1)
        }
    }
}

/// What the command line `args` (the program name left out) asks for.
pub open spec fn args_spec(args: Seq<Seq<char>>) -> Result<CommandView, ErrorView> {
    if args.len() == 0 {
        Ok(CommandView::Help)
    } else {
        let c = args[0];
        if c == "help"@ || c == "--help"@ || c == "-h"@ {
            Ok(CommandView::Help)
        } else if c == "demo"@ {
            Ok(CommandView::Demo)
        } else if c == "analyze"@ || c == "run"@ {
            match analyze_from(default_args(), args.drop_first(), 0) {
                Ok(config) => Ok(CommandView::Analyze(config)),
                Err(e) => Err(e),
            }
        } else {
            Err(ErrorView::InvalidArgument("unknown command `"@ + c + "`; use `help` to see usage"@))
        }
    }
}

/// The options of `analyze` while the arguments are read.
struct ArgState {
    input: Option<String>,
    output: Option<String>,
    format: Option<OutputFormat>,
    threads: usize,
    top_n: usize,
    slow_threshold_ms: u64,
    min_level: Option<LogLevel>,
    service: Option<String>,
    keyword: Option<String>,
}

impl View for ArgState {
    type V = ArgsView;

    closed spec fn view(&self) -> ArgsView {
        ArgsView {
            input: opt_text_view(self.input),
            output: opt_text_view(self.output),
            format: self.format,
            threads: self.threads,
            top_n: self.top_n,
            slow_threshold_ms: self.slow_threshold_ms,
            min_level: self.min_level,
            service: opt_text_view(self.service),
            keyword: opt_text_view(self.keyword),
        }
    }
}

/// Reads the command line `args`, the program name left out.
pub fn parse_args(args: Vec<String>) -> (r: Result<Command, AppError>)
    ensures
        match args_spec(str_views(args@)) {
            Ok(c) => r matches Ok(x) && x@ == c,
            Err(e) => r matches Err(x) && x@ == e,
        },
{
    if args.len() == 0 {
        return Ok(Command::Help);
    }
    let ghost views = str_views(args@);
    let mut args = args;
    let command = args.remove(0);
    assert(str_views(args@) =~= views.drop_first());
    let c = command.as_str();
    if str_equals(c, "help") || str_equals(c, "--help") || str_equals(c, "-h") {
        Ok(Command::Help)
    } else if str_equals(c, "demo") {
        Ok(Command::Demo)
    } else if str_equals(c, "analyze") || str_equals(c, "run") {
        parse_analyze(args)
    } else {
        let mut msg = copy_str("unknown command `");
        msg.append(c);
        msg.append("`; use `help` to see usage");
        Err(AppError::InvalidArgument(msg))
    }
}

fn is_value_flag(a: &str) -> (r: bool)
    ensures
        r == takes_value(a@),
{
    str_equals(a, "--out") || str_equals(a, "-o") || str_equals(a, "--format") || str_equals(a, "-f")
        || str_equals(a, "--threads") || str_equals(a, "-t") || str_equals(a, "--top") || str_equals(a, "--slow")
        || str_equals(a, "--level") || str_equals(a, "-l") || str_equals(a, "--service") || str_equals(a, "-s")
        || str_equals(a, "--keyword") || str_equals(a, "-k")
}

fn starts_with_dash(a: &str) -> (r: bool)
    ensures
        r == (a@.len() > 0 && a@[0] == '-'),
{
    let v = chars_of(a);
    v.len() > 0 && v[0] == '-'
}

fn set_flag(st: &mut ArgState, flag: &str, value: String) -> (r: Result<(), AppError>)
    ensures
        match apply_flag(old(st)@, flag@, value@) {
            Ok(next) => r is Ok && final(st)@ == next,
            Err(e) => r matches Err(x) && x@ == e,
        },
{
    if str_equals(flag, "--out") || str_equals(flag, "-o") {
        st.output = Some(value);
    } else if str_equals(flag, "--format") || str_equals(flag, "-f") {
        match OutputFormat::parse_name(value.as_str()) {
            Ok(f) => st.format = Some(f),
            Err(e) => return Err(e),
        }
    } else if str_equals(flag, "--threads") || str_equals(flag, "-t") {
        match parse_positive_usize(value.as_str(), "threads") {
            Ok(n) => st.threads = n,
            Err(e) => return Err(e),
        }
    } else if str_equals(flag, "--top") {
        match parse_positive_usize(value.as_str(), "top") {
            Ok(n) => st.top_n = n,
            Err(e) => return Err(e),
        }
    } else if str_equals(flag, "--slow") {
        match parse_positive_u64(value.as_str(), "slow") {
            Ok(n) => st.slow_threshold_ms = n,
            Err(e) => return Err(e),
        }
    } else if str_equals(flag, "--level") || str_equals(flag, "-l") {
        match LogLevel::parse_name(value.as_str()) {
            Ok(l) => st.min_level = Some(l),
            Err(e) => return Err(e),
        }
    } else if str_equals(flag, "--service") || str_equals(flag, "-s") {
        st.service = Some(value);
    } else if str_equals(flag, "--keyword") || str_equals(flag, "-k") {
        st.keyword = Some(value);
    }
    Ok(())
}

/// Reads the arguments of `analyze`.
fn parse_analyze(args: Vec<String>) -> (r: Result<Command, AppError>)
    ensures
        match analyze_from(default_args(), str_views(args@), 0) {
            Ok(c) => r matches Ok(x) && x@ == CommandView::Analyze(c),
            Err(e) => r matches Err(x) && x@ == e,
        },
{
    let ghost views = str_views(args@);
    let mut st = ArgState {
        input: None,
        output: None,
        format: None,
        threads: 4,
        top_n: 5,
        slow_threshold_ms: 500,
        min_level: None,
        service: None,
        keyword: None,
    };
    let n = args.len();
    let mut i: usize = 0;
    while i < n
        invariant
            n == args@.len(),
            views == str_views(args@),
            0 <= i <= n,
            analyze_from(default_args(), views, 0) == analyze_from(st@, views, i as int),
        decreases n - i,
    {
        let a = args[i].as_str();
        assert(a@ == views[i as int]);
        if is_value_flag(a) {
            let value = match next_value(&args, i + 1, a) {
                Ok(v) => v,
                Err(e) => return Err(e),
            };
            match set_flag(&mut st, a, value) {
                Ok(()) => {},
                Err(e) => return Err(e),
            }
            i += 2;
        } else if starts_with_dash(a) {
            let mut msg = copy_str("unknown flag `");
            msg.append(a);
            msg.append("`");
            return Err(AppError::InvalidArgument(msg));
        } else if st.input.is_some() {
            let mut msg = copy_str("multiple input files are not supported; unexpected `");
            msg.append(a);
            msg.append("`");
            return Err(AppError::InvalidArgument(msg));
        } else {
            st.input = Some(copy_str(a));
            i += 1;
        }
    }
    let format = choose_format(st.format, &st.output);
    match st.input {
        None => Err(AppError::InvalidArgument(copy_str("missing input file: rlog analyze <FILE>"))),
        Some(input) => Ok(
            Command::Analyze(
                Config {
                    input,
                    output: st.output,
                    format,
                    options: AnalyzeOptions {
                        threads: st.threads,
                        top_n: st.top_n,
                        slow_threshold_ms: st.slow_threshold_ms,
                        filter: LogFilter { min_level: st.min_level, service: st.service, keyword: st.keyword },
                    },
                },
            ),
        ),
    }
}

/// The report format: the one asked for, else the one the output file's
/// extension names, else text.
pub fn choose_format(asked: Option<OutputFormat>, output: &Option<String>) -> (r: OutputFormat)
    ensures
        r == resolve_format(asked, opt_text_view(*output)),
{
    match asked {
        Some(f) => f,
        None => match output {
            Some(p) => match infer_format_from_path(p.as_str()) {
                Some(f) => f,
                None => OutputFormat::Text,
            },
            None => OutputFormat::Text,
        },
    }
}

/// The argument at `i`, the value of `flag`.
fn next_value(args: &Vec<String>, i: usize, flag: &str) -> (r: Result<String, AppError>)
    ensures
        i < args@.len() ==> (r matches Ok(v) && v@ == args@[i as int]@),
        i >= args@.len() ==> (r matches Err(e) && e@ == needs_value(flag@)),
{
    if i < args.len() {
        Ok(copy_str(args[i].as_str()))
    } else {
        let mut msg = copy_str("flag `");
        msg.append(flag);
        msg.append("` needs a value");
        Err(AppError::InvalidArgument(msg))
    }
}

/// Reads `text` as a positive integer no larger than `max`.
fn parse_positive(text: &str, name: &str, max: u64) -> (r: Result<u64, AppError>)
    ensures
        match positive_spec(text@, name@, max as nat) {
            Ok(v) => r matches Ok(x) && x == v,
            Err(e) => r matches Err(x) && x@ == e,
        },
{
    let v = chars_of(text);
    assert(v@.subrange(0, v@.len() as int) =~= v@);
    proof {
        lemma_parse_unsigned_bound(text@, max as nat);
    }
    match parse_unsigned_chars(v.as_slice(), 0, v.len(), max) {
        Err(e) => Err(AppError::Parse(int_error_message(e))),
        Ok(value) => {
            if value == 0 {
                let mut msg = copy_str(name);
                msg.append(" must be positive");
                Err(AppError::InvalidArgument(msg))
            } else {
                Ok(value)
            }
        },
    }
}

fn parse_positive_usize(text: &str, name: &str) -> (r: Result<usize, AppError>)
    ensures
        match positive_spec(text@, name@, usize::MAX as nat) {
            Ok(v) => r matches Ok(x) && x == v,
            Err(e) => r matches Err(x) && x@ == e,
        },
{
    proof {
        lemma_parse_unsigned_bound(text@, usize::MAX as nat);
    }
    match parse_positive(text, name, usize::MAX as u64) {
        Ok(v) => Ok(v as usize),
        Err(e) => Err(e),
    }
}

fn parse_positive_u64(text: &str, name: &str) -> (r: Result<u64, AppError>)
    ensures
        match positive_spec(text@, name@, u64::MAX as nat) {
            Ok(v) => r matches Ok(x) && x == v,
            Err(e) => r matches Err(x) && x@ == e,
        },
{
    parse_positive(text, name, u64::MAX)
}

/// The demo data set: normal, error, slow and debug records.
pub open spec fn demo_spec() -> Seq<Seq<char>> {
    seq![
        "time=2026-06-01T10:00:01 service=auth level=INFO latency=32 msg=\"login page opened\""@,
        "time=2026-06-01T10:00:02 service=auth level=ERROR latency=145 msg=\"login failed\""@,
        "time=2026-06-01T10:00:03 service=order level=WARN latency=610 msg=\"slow query\""@,
        "time=2026-06-01T10:00:04 service=payment level=ERROR latency=830 msg=\"payment timeout\""@,
        "time=2026-06-01T10:00:05 service=search level=DEBUG latency=11 msg=\"cache hit\""@,
        "time=2026-06-01T10:00:06 service=order level=INFO latency=78 msg=\"order created\""@,
        "time=2026-06-01T10:00:07 service=payment level=WARN latency=540 msg=\"retry payment gateway\""@,
    ]
}

/// The built-in demo data set.
pub fn demo_lines() -> (r: Vec<String>)
    ensures
        str_views(r@) == demo_spec(),
{
    let mut v: Vec<String> = Vec::new();
    v.push(copy_str("time=2026-06-01T10:00:01 service=auth level=INFO latency=32 msg=\"login page opened\""));
    v.push(copy_str("time=2026-06-01T10:00:02 service=auth level=ERROR latency=145 msg=\"login failed\""));
    v.push(copy_str("time=2026-06-01T10:00:03 service=order level=WARN latency=610 msg=\"slow query\""));
    v.push(copy_str("time=2026-06-01T10:00:04 service=payment level=ERROR latency=830 msg=\"payment timeout\""));
    v.push(copy_str("time=2026-06-01T10:00:05 service=search level=DEBUG latency=11 msg=\"cache hit\""));
    v.push(copy_str("time=2026-06-01T10:00:06 service=order level=INFO latency=78 msg=\"order created\""));
    v.push(copy_str("time=2026-06-01T10:00:07 service=payment level=WARN latency=540 msg=\"retry payment gateway\""));
    assert(str_views(v@) =~= demo_spec());
    v
}

/// The usage text.
pub open spec fn usage_spec() -> Seq<char> {
    "Rust Log Lab\n\nUSAGE:\n  cargo run -- analyze <FILE> [options]\n  cargo run -- demo\n\nOPTIONS:\n  -o, --out <FILE>       Write report to file\n  -f, --format <FORMAT>  text | json | csv, default text\n  -t, --threads <N>      Worker thread count, default 4\n      --top <N>          Number of top items to display, default 5\n      --slow <MS>        Slow request threshold, default 500\n  -l, --level <LEVEL>    Minimum level: DEBUG/INFO/WARN/ERROR/FATAL\n  -s, --service <NAME>   Keep only one service\n  -k, --keyword <TEXT>   Keep only records containing keyword\n\nLOG FORMAT:\n  service=auth level=ERROR latency=120 msg=\"login failed\"\n"@
}

pub fn usage() -> (r: &'static str)
    ensures
        r@ == usage_spec(),
{
    "Rust Log Lab\n\nUSAGE:\n  cargo run -- analyze <FILE> [options]\n  cargo run -- demo\n\nOPTIONS:\n  -o, --out <FILE>       Write report to file\n  -f, --format <FORMAT>  text | json | csv, default text\n  -t, --threads <N>      Worker thread count, default 4\n      --top <N>          Number of top items to display, default 5\n      --slow <MS>        Slow request threshold, default 500\n  -l, --level <LEVEL>    Minimum level: DEBUG/INFO/WARN/ERROR/FATAL\n  -s, --service <NAME>   Keep only one service\n  -k, --keyword <TEXT>   Keep only records containing keyword\n\nLOG FORMAT:\n  service=auth level=ERROR latency=120 msg=\"login failed\"\n"
}

} // verus!
