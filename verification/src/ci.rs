//! The CI memory monitor: its command line and the decisions it takes on
//! each sample of the watched process.
use vstd::prelude::*;
use std::collections::VecDeque;
use crate::export::{CheckResult, FormatType};
use crate::text::{parse_decimal, parse_unsigned, text_eq};
use crate::types::HeapBlock;
use vstd::arithmetic::div_mod::{lemma_div_by_multiple, lemma_div_is_ordered_by_denominator};

verus! {

/// The process the monitor watches.
#[derive(Debug)]
pub enum CiTarget {
    /// Launch `command` with `args` and watch it.
    Spawn { command: String, args: Vec<String> },
    /// Watch the running process with this id.
    AttachPid(u32),
    /// Watch the running process whose name matches.
    AttachName(String),
}

/// The parsed command line of the CI monitor.
#[derive(Debug)]
pub struct CiArgs {
    pub target: CiTarget,
    /// Memory limit in bytes (given in MiB on the command line).
    pub max_memory: Option<u64>,
    pub leak_check: bool,
    /// How long to watch, in seconds.
    pub duration_secs: Option<u64>,
    pub format: Option<FormatType>,
    pub output: Option<String>,
    pub diff_only: bool,
    /// Bytes per second. Fail if the rolling-window growth rate exceeds this.
    pub growth_rate: Option<u64>,
    /// Milliseconds between samples.
    pub sample_interval: Option<u64>,
}

/// Errors of the CI monitor.
#[derive(Debug)]
pub enum AppError {
    InvalidArg(String),
    MissingArg(String),
    ProcessNotFound(String),
    Other(String),
}

/// A target as character sequences.
pub enum TargetModel {
    Spawn { command: Seq<char>, args: Seq<Seq<char>> },
    AttachPid(u32),
    AttachName(Seq<char>),
}

/// Parsed arguments as character sequences; the target is `None` while
/// parsing has not met one yet.
pub struct ArgsModel {
    pub target: Option<TargetModel>,
    pub max_memory: Option<u64>,
    pub leak_check: bool,
    pub duration_secs: Option<u64>,
    pub format: Option<FormatType>,
    pub output: Option<Seq<char>>,
    pub diff_only: bool,
    pub growth_rate: Option<u64>,
    pub sample_interval: Option<u64>,
}

/// An error as a kind and a message.
pub enum ErrorModel {
    InvalidArg(Seq<char>),
    MissingArg(Seq<char>),
    ProcessNotFound(Seq<char>),
    Other(Seq<char>),
}

/// How parsing a command line ends: with arguments, with an error, or with a
/// memory limit that does not fit in `u64` bytes.
pub enum ParseOutcome {
    Parsed(ArgsModel),
    Failed(ErrorModel),
    Overflows,
}

/// The characters of each string.
pub open spec fn strings_view(s: Seq<String>) -> Seq<Seq<char>> {
    s.map_values(|x: String| x@)
}

impl View for CiTarget {
    type V = TargetModel;

    open spec fn view(&self) -> TargetModel {
        match self {
            CiTarget::Spawn { command, args } => TargetModel::Spawn {
                command: command@,
                args: strings_view(args@),
            },
            CiTarget::AttachPid(pid) => TargetModel::AttachPid(*pid),
            CiTarget::AttachName(name) => TargetModel::AttachName(name@),
        }
    }
}

impl View for AppError {
    type V = ErrorModel;

    open spec fn view(&self) -> ErrorModel {
        match self {
            AppError::InvalidArg(m) => ErrorModel::InvalidArg(m@),
            AppError::MissingArg(m) => ErrorModel::MissingArg(m@),
            AppError::ProcessNotFound(m) => ErrorModel::ProcessNotFound(m@),
            AppError::Other(m) => ErrorModel::Other(m@),
        }
    }
}

/// The characters of an optional string.
pub open spec fn opt_view(s: Option<String>) -> Option<Seq<char>> {
    match s {
        Some(x) => Some(x@),
        None => None,
    }
}

/// The model of an optional target.
pub open spec fn opt_target_view(t: Option<CiTarget>) -> Option<TargetModel> {
    match t {
        Some(x) => Some(x@),
        None => None,
    }
}

impl View for CiArgs {
    type V = ArgsModel;

    open spec fn view(&self) -> ArgsModel {
        ArgsModel {
            target: Some(self.target@),
            max_memory: self.max_memory,
            leak_check: self.leak_check,
            duration_secs: self.duration_secs,
            format: self.format,
            output: opt_view(self.output),
            diff_only: self.diff_only,
            growth_rate: self.growth_rate,
            sample_interval: self.sample_interval,
        }
    }
}

/// Nothing parsed yet.
pub open spec fn initial_model() -> ArgsModel {
    ArgsModel {
        target: None,
        max_memory: None,
        leak_check: false,
        duration_secs: None,
        format: None,
        output: None,
        diff_only: false,
        growth_rate: None,
        sample_interval: None,
    }
}

/// The parsed arguments, with an empty process name as target when none was given.
pub open spec fn finish(st: ArgsModel) -> ArgsModel {
    ArgsModel {
        target: Some(
            match st.target {
                Some(t) => t,
                None => TargetModel::AttachName(Seq::empty()),
            },
        ),
        ..st
    }
}

/// Bytes in a mebibyte.
pub open spec fn mib() -> nat {
    1048576
}

/// Parsing `args` from position `i` on, with `st` parsed so far. Each flag
/// that takes a value fails when the value is missing or malformed; `--spawn`
/// takes the rest of the line; a bare word names the target, and a second
/// bare word is an error.
pub open spec fn parse_from(args: Seq<Seq<char>>, i: int, st: ArgsModel) -> ParseOutcome
    decreases args.len() - i,
{
    if i < 0 || i >= args.len() {
        ParseOutcome::Parsed(finish(st))
    } else {
        let a = args[i];
        let has_value = i + 1 < args.len();
        if a == "--max-memory"@ {
            if !has_value {
                ParseOutcome::Failed(ErrorModel::MissingArg("--max-memory"@))
            } else {
                match parse_unsigned(args[i + 1], u64::MAX as nat) {
                    None => ParseOutcome::Failed(ErrorModel::InvalidArg("invalid --max-memory"@)),
                    Some(v) => if v * mib() > u64::MAX {
                        ParseOutcome::Overflows
                    } else {
                        parse_from(args, i + 2, ArgsModel { max_memory: Some((v * mib()) as u64), ..st })
                    },
                }
            }
        } else if a == "--leak-check"@ {
            parse_from(args, i + 1, ArgsModel { leak_check: true, ..st })
        } else if a == "--diff-only"@ {
            parse_from(args, i + 1, ArgsModel { diff_only: true, ..st })
        } else if a == "--duration"@ {
            if !has_value {
                ParseOutcome::Failed(ErrorModel::MissingArg("--duration"@))
            } else {
                match parse_unsigned(args[i + 1], u64::MAX as nat) {
                    None => ParseOutcome::Failed(ErrorModel::InvalidArg("invalid --duration"@)),
                    Some(v) => parse_from(args, i + 2, ArgsModel { duration_secs: Some(v as u64), ..st }),
                }
            }
        } else if a == "--pid"@ {
            if !has_value {
                ParseOutcome::Failed(ErrorModel::MissingArg("--pid"@))
            } else {
                match parse_unsigned(args[i + 1], u32::MAX as nat) {
                    None => ParseOutcome::Failed(ErrorModel::InvalidArg("invalid --pid"@)),
                    Some(v) => parse_from(
                        args,
                        i + 2,
                        ArgsModel { target: Some(TargetModel::AttachPid(v as u32)), ..st },
                    ),
                }
            }
        } else if a == "--spawn"@ {
            if !has_value {
                ParseOutcome::Failed(ErrorModel::MissingArg("--spawn"@))
            } else {
                ParseOutcome::Parsed(
                    finish(
                        ArgsModel {
                            target: Some(
                                TargetModel::Spawn { command: args[i + 1], args: args.skip(i + 2) },
                            ),
                            ..st
                        },
                    ),
                )
            }
        } else if a == "--format"@ {
            if !has_value {
                ParseOutcome::Failed(ErrorModel::MissingArg("--format"@))
            } else if args[i + 1] == "json"@ {
                parse_from(args, i + 2, ArgsModel { format: Some(FormatType::Json), ..st })
            } else if args[i + 1] == "junit"@ {
                parse_from(args, i + 2, ArgsModel { format: Some(FormatType::Junit), ..st })
            } else if args[i + 1] == "csv"@ {
                parse_from(args, i + 2, ArgsModel { format: Some(FormatType::CSV), ..st })
            } else {
                ParseOutcome::Failed(ErrorModel::InvalidArg("Unknown format: "@ + args[i + 1]))
            }
        } else if a == "--output"@ {
            if !has_value {
                ParseOutcome::Failed(ErrorModel::MissingArg("--output"@))
            } else {
                parse_from(args, i + 2, ArgsModel { output: Some(args[i + 1]), ..st })
            }
        } else if a == "--growth-rate"@ {
            if !has_value {
                ParseOutcome::Failed(ErrorModel::MissingArg("--growth-rate"@))
            } else {
                match parse_unsigned(args[i + 1], u64::MAX as nat) {
                    None => ParseOutcome::Failed(
                        ErrorModel::InvalidArg("invalid --growth-rate: expected bytes per second"@),
                    ),
                    Some(v) => parse_from(args, i + 2, ArgsModel { growth_rate: Some(v as u64), ..st }),
                }
            }
        } else if a == "--sample-interval"@ {
            if !has_value {
                ParseOutcome::Failed(ErrorModel::MissingArg("--sample-interval"@))
            } else {
                match parse_unsigned(args[i + 1], u64::MAX as nat) {
                    Some(v) => if v > 0 {
                        parse_from(args, i + 2, ArgsModel { sample_interval: Some(v as u64), ..st })
                    } else {
                        ParseOutcome::Failed(
                            ErrorModel::InvalidArg(
                                "invalid --sample-interval: expected a positive number of milliseconds"@,
                            ),
                        )
                    },
                    None => ParseOutcome::Failed(
                        ErrorModel::InvalidArg(
                            "invalid --sample-interval: expected a positive number of milliseconds"@,
                        ),
                    ),
                }
            }
        } else if st.target is None {
            parse_from(args, i + 1, ArgsModel { target: Some(TargetModel::AttachName(a)), ..st })
        } else {
            ParseOutcome::Failed(ErrorModel::InvalidArg("Unknown argument: "@ + a))
        }
    }
}

/// How parsing the monitor's command line `args` ends; the first two words
/// (the program and the `ci` subcommand) are skipped.
pub open spec fn ci_args_outcome(args: Seq<Seq<char>>) -> ParseOutcome {
    parse_from(args, 2, initial_model())
}

/// The model of the parsing state held in the parser's locals.
pub open spec fn locals_model(
    target: Option<CiTarget>,
    max_memory: Option<u64>,
    leak_check: bool,
    duration_secs: Option<u64>,
    format: Option<FormatType>,
    output: Option<String>,
    diff_only: bool,
    growth_rate: Option<u64>,
    sample_interval: Option<u64>,
) -> ArgsModel {
    ArgsModel {
        target: opt_target_view(target),
        max_memory,
        leak_check,
        duration_secs,
        format,
        output: opt_view(output),
        diff_only,
        growth_rate,
        sample_interval,
    }
}

fn invalid(msg: &str) -> (r: AppError)
    ensures
        r@ == ErrorModel::InvalidArg(msg@),
{
    AppError::InvalidArg(String::from_str(msg))
}

fn missing(msg: &str) -> (r: AppError)
    ensures
        r@ == ErrorModel::MissingArg(msg@),
{
    AppError::MissingArg(String::from_str(msg))
}

/// Copies of `args[from..]`.
fn tail_strings(args: &[String], from: usize) -> (v: Vec<String>)
    requires
        from <= args@.len(),
    ensures
        strings_view(v@) == strings_view(args@).skip(from as int),
{
    let mut v: Vec<String> = Vec::new();
    let mut j: usize = from;
    while j < args.len()
        invariant
            from <= j <= args@.len(),
            v@ == args@.subrange(from as int, j as int),
        decreases args@.len() - j,
    {
        v.push(args[j].clone());
        j = j + 1;
        assert(v@ =~= args@.subrange(from as int, j as int));
    }
    assert(v@ =~= args@.skip(from as int));
    assert(strings_view(v@) =~= strings_view(args@).skip(from as int));
    v
}

/// The arguments held in the parser's locals, with an empty process name as
/// target when none was given.
fn finish_args(
    target: Option<CiTarget>,
    max_memory: Option<u64>,
    leak_check: bool,
    duration_secs: Option<u64>,
    format: Option<FormatType>,
    output: Option<String>,
    diff_only: bool,
    growth_rate: Option<u64>,
    sample_interval: Option<u64>,
) -> (r: CiArgs)
    ensures
        r@ == finish(
            locals_model(
                target,
                max_memory,
                leak_check,
                duration_secs,
                format,
                output,
                diff_only,
                growth_rate,
                sample_interval,
            ),
        ),
{
    let target = match target {
        Some(t) => t,
        None => CiTarget::AttachName(String::new()),
    };
    CiArgs {
        target,
        max_memory,
        leak_check,
        duration_secs,
        format,
        output,
        diff_only,
        growth_rate,
        sample_interval,
    }
}

/// Parses the monitor's command line, or returns `None` where a `--max-memory`
/// value in MiB does not fit in `u64` bytes.
pub fn try_parse_ci_args(args: &[String]) -> (r: Option<Result<CiArgs, AppError>>)
    ensures
        match r {
            None => ci_args_outcome(strings_view(args@)) is Overflows,
            Some(Ok(a)) => ci_args_outcome(strings_view(args@)) == ParseOutcome::Parsed(a@),
            Some(Err(e)) => ci_args_outcome(strings_view(args@)) == ParseOutcome::Failed(e@),
        },
{
    let ghost sv = strings_view(args@);
    let mut max_memory: Option<u64> = None;
    let mut leak_check = false;
    let mut diff_only = false;
    let mut duration_secs: Option<u64> = None;
    let mut target: Option<CiTarget> = None;
    let mut format: Option<FormatType> = None;
    let mut output: Option<String> = None;
    let mut growth_rate: Option<u64> = None;
    let mut sample_interval: Option<u64> = None;
    let n = args.len();
    let mut i: usize = 2;
    while i < n
        invariant
            n == args@.len(),
            sv == strings_view(args@),
            2 <= i,
            ci_args_outcome(sv) == parse_from(
                sv,
                i as int,
                locals_model(
                    target,
                    max_memory,
                    leak_check,
                    duration_secs,
                    format,
                    output,
                    diff_only,
                    growth_rate,
                    sample_interval,
                ),
            ),
        decreases n - i,
    {
        let a = args[i].as_str();
        let has_value = i + 1 < n;
        assert(sv[i as int] == a@);
        if text_eq(a, "--max-memory") {
            if !has_value {
                return Some(Err(missing("--max-memory")));
            }
            assert(sv[i + 1] == args@[i + 1]@);
            match parse_decimal(args[i + 1].as_str(), u64::MAX) {
                Some(mb) => {
                    if mb > u64::MAX / 1048576 {
                        return None;
                    }
                    max_memory = Some(mb * 1048576);
                    i = i + 2;
                },
                None => {
                    return Some(Err(invalid("invalid --max-memory")));
                },
            }
        } else if text_eq(a, "--leak-check") {
            leak_check = true;
            i = i + 1;
        } else if text_eq(a, "--diff-only") {
            diff_only = true;
            i = i + 1;
        } else if text_eq(a, "--duration") {
            if !has_value {
                return Some(Err(missing("--duration")));
            }
            assert(sv[i + 1] == args@[i + 1]@);
            match parse_decimal(args[i + 1].as_str(), u64::MAX) {
                Some(v) => {
                    duration_secs = Some(v);
                    i = i + 2;
                },
                None => {
                    return Some(Err(invalid("invalid --duration")));
                },
            }
        } else if text_eq(a, "--pid") {
            if !has_value {
                return Some(Err(missing("--pid")));
            }
            assert(sv[i + 1] == args@[i + 1]@);
            match parse_decimal(args[i + 1].as_str(), u32::MAX as u64) {
                Some(v) => {
                    target = Some(CiTarget::AttachPid(v as u32));
                    i = i + 2;
                },
                None => {
                    return Some(Err(invalid("invalid --pid")));
                },
            }
        } else if text_eq(a, "--spawn") {
            if !has_value {
                return Some(Err(missing("--spawn")));
            }
            assert(sv[i + 1] == args@[i + 1]@);
            let command = args[i + 1].clone();
            let rest = tail_strings(args, i + 2);
            let r = finish_args(
                Some(CiTarget::Spawn { command, args: rest }),
                max_memory,
                leak_check,
                duration_secs,
                format,
                output,
                diff_only,
                growth_rate,
                sample_interval,
            );
            return Some(Ok(r));
        } else if text_eq(a, "--format") {
            if !has_value {
                return Some(Err(missing("--format")));
            }
            assert(sv[i + 1] == args@[i + 1]@);
            let v = args[i + 1].as_str();
            if text_eq(v, "json") {
                format = Some(FormatType::Json);
            } else if text_eq(v, "junit") {
                format = Some(FormatType::Junit);
            } else if text_eq(v, "csv") {
                format = Some(FormatType::CSV);
            } else {
                let mut msg = String::from_str("Unknown format: ");
                msg.append(v);
                return Some(Err(AppError::InvalidArg(msg)));
            }
            i = i + 2;
        } else if text_eq(a, "--output") {
            if !has_value {
                return Some(Err(missing("--output")));
            }
            assert(sv[i + 1] == args@[i + 1]@);
            output = Some(args[i + 1].clone());
            i = i + 2;
        } else if text_eq(a, "--growth-rate") {
            if !has_value {
                return Some(Err(missing("--growth-rate")));
            }
            assert(sv[i + 1] == args@[i + 1]@);
            match parse_decimal(args[i + 1].as_str(), u64::MAX) {
                Some(v) => {
                    growth_rate = Some(v);
                    i = i + 2;
                },
                None => {
                    return Some(Err(invalid("invalid --growth-rate: expected bytes per second")));
                },
            }
        } else if text_eq(a, "--sample-interval") {
            if !has_value {
                return Some(Err(missing("--sample-interval")));
            }
            assert(sv[i + 1] == args@[i + 1]@);
            match parse_decimal(args[i + 1].as_str(), u64::MAX) {
                Some(v) => {
                    if v == 0 {
                        return Some(
                            Err(
                                invalid(
                                    "invalid --sample-interval: expected a positive number of milliseconds",
                                ),
                            ),
                        );
                    }
                    sample_interval = Some(v);
                    i = i + 2;
                },
                None => {
                    return Some(
                        Err(
                            invalid(
                                "invalid --sample-interval: expected a positive number of milliseconds",
                            ),
                        ),
                    );
                },
            }
        } else {
            if target.is_none() {
                target = Some(CiTarget::AttachName(a.to_owned()));
                i = i + 1;
            } else {
                let mut msg = String::from_str("Unknown argument: ");
                msg.append(a);
                return Some(Err(AppError::InvalidArg(msg)));
            }
        }
    }
    let r = finish_args(
        target,
        max_memory,
        leak_check,
        duration_secs,
        format,
        output,
        diff_only,
        growth_rate,
        sample_interval,
    );
    Some(Ok(r))
}

/// Parses the monitor's command line: skips the first two words, then reads
/// flags with their values, a `--spawn` command line, or a bare process name.
pub fn parse_ci_args(args: &[String]) -> (r: Result<CiArgs, AppError>)
    requires
        !(ci_args_outcome(strings_view(args@)) is Overflows),
    ensures
        match r {
            Ok(a) => ci_args_outcome(strings_view(args@)) == ParseOutcome::Parsed(a@),
            Err(e) => ci_args_outcome(strings_view(args@)) == ParseOutcome::Failed(e@),
        },
{
    match try_parse_ci_args(args) {
        Some(r) => r,
        None => {
            proof {
                assert(false);
            }
            Err(AppError::Other(String::new()))
        },
    }
}


/// How far back, in seconds, the rolling window looks when the growth rate
/// is computed.
pub const GROWTH_WINDOW_SECS: u64 = 5;

/// Nanoseconds in a second.
pub const NANOS_PER_SEC: u128 = 1_000_000_000;

/// The time from `earlier` to `now`, both in nanoseconds on one clock; zero
/// when `earlier` is the later one.
pub open spec fn elapsed_since(now: int, earlier: int) -> int {
    if now >= earlier {
        now - earlier
    } else {
        0
    }
}

/// The time from `earlier` to `now` in nanoseconds, zero when `earlier` is
/// the later one.
pub fn nanos_between(now: u128, earlier: u128) -> (e: u128)
    ensures
        e == elapsed_since(now as int, earlier as int),
{
    if now >= earlier {
        now - earlier
    } else {
        0
    }
}

/// The growth rate in bytes per second between a sample of `oldest` bytes
/// and one of `newest` bytes taken `elapsed_nanos` later: none under a
/// second, and a shrinking heap grows at zero.
pub open spec fn growth_rate_of(elapsed_nanos: int, oldest: int, newest: int) -> Option<u64> {
    if elapsed_nanos < NANOS_PER_SEC {
        None
    } else {
        let delta = if newest >= oldest {
            newest - oldest
        } else {
            0
        };
        Some((delta * NANOS_PER_SEC / elapsed_nanos) as u64)
    }
}

/// The growth rate in bytes per second, rounded down, from `oldest` to
/// `newest` bytes over `elapsed_nanos` nanoseconds; `None` under a second.
pub fn growth_rate_over(elapsed_nanos: u128, oldest: u64, newest: u64) -> (r: Option<u64>)
    ensures
        r == growth_rate_of(elapsed_nanos as int, oldest as int, newest as int),
        r matches Some(v) ==> v <= (if newest >= oldest {
            newest - oldest
        } else {
            0
        }),
{
    if elapsed_nanos < NANOS_PER_SEC {
        return None;
    }
    let delta: u64 = if newest >= oldest {
        newest - oldest
    } else {
        0
    };
    assert((delta as int) * 1_000_000_000 <= u64::MAX * 1_000_000_000) by (nonlinear_arith)
        requires
            delta <= u64::MAX,
    ;
    let scaled: u128 = (delta as u128) * NANOS_PER_SEC;
    let q: u128 = scaled / elapsed_nanos;
    proof {
        lemma_div_is_ordered_by_denominator(scaled as int, NANOS_PER_SEC as int, elapsed_nanos as int);
        lemma_div_by_multiple(delta as int, NANOS_PER_SEC as int);
    }
    Some(q as u64)
}

/// The rolling-window growth rate of `samples` (oldest first, each a time
/// in nanoseconds and a byte count) at time `now`: none with fewer than two
/// samples or when the oldest is under a second old; otherwise the growth
/// from the oldest to the newest sample per second.
pub fn compute_growth_rate(samples: &VecDeque<(u128, u64)>, now: u128) -> (r: Option<u64>)
    ensures
        samples@.len() < 2 ==> r is None,
        samples@.len() >= 2 ==> r == growth_rate_of(
            elapsed_since(now as int, samples@[0].0 as int),
            samples@[0].1 as int,
            samples@[samples@.len() - 1].1 as int,
        ),
{
    let n = samples.len();
    if n < 2 {
        return None;
    }
    let oldest = samples[0];
    let newest = samples[n - 1];
    let elapsed = nanos_between(now, oldest.0);
    growth_rate_over(elapsed, oldest.1, newest.1)
}

/// A heap that did not grow has a growth rate of zero once a second has
/// passed, whatever it shrank by.
pub proof fn lemma_shrinking_heap_rate_zero(elapsed_nanos: int, oldest: int, newest: int)
    requires
        elapsed_nanos >= NANOS_PER_SEC,
        newest <= oldest,
    ensures
        growth_rate_of(elapsed_nanos, oldest, newest) == Some(0u64),
{
}

/// `--spawn` ends the monitor's own flags: the word after it is the command
/// and every word after that, flags included, is an argument of the command.
pub proof fn lemma_spawn_takes_rest(args: Seq<Seq<char>>, i: int, st: ArgsModel)
    requires
        0 <= i,
        i + 1 < args.len(),
        args[i] == "--spawn"@,
    ensures
        parse_from(args, i, st) == ParseOutcome::Parsed(
            finish(
                ArgsModel {
                    target: Some(TargetModel::Spawn { command: args[i + 1], args: args.skip(i + 2) }),
                    ..st
                },
            ),
        ),
{
    reveal_strlit("--spawn");
    reveal_strlit("--max-memory");
    reveal_strlit("--leak-check");
    reveal_strlit("--diff-only");
    reveal_strlit("--duration");
    reveal_strlit("--pid");
}

/// The window length in nanoseconds.
pub open spec fn window_nanos() -> int {
    GROWTH_WINDOW_SECS * NANOS_PER_SEC
}

/// The index of the first sample of `s`, from `j` on, taken at most
/// `GROWTH_WINDOW_SECS` before `now`; `s.len()` when there is none.
pub open spec fn window_start(s: Seq<(u128, u64)>, now: int, j: int) -> int
    decreases s.len() - j,
{
    if j < 0 || j >= s.len() {
        s.len() as int
    } else if elapsed_since(now, s[j].0 as int) <= window_nanos() {
        j
    } else {
        window_start(s, now, j + 1)
    }
}

proof fn lemma_window_start_step(s: Seq<(u128, u64)>, now: int, j: int)
    requires
        0 <= j <= s.len(),
    ensures
        j <= window_start(s, now, j) <= s.len(),
    decreases s.len() - j,
{
    if j < s.len() && elapsed_since(now, s[j].0 as int) > window_nanos() {
        lemma_window_start_step(s, now, j + 1);
    }
}

/// A flag that takes a value.
pub open spec fn takes_value(a: Seq<char>) -> bool {
    ||| a == "--max-memory"@
    ||| a == "--duration"@
    ||| a == "--pid"@
    ||| a == "--spawn"@
    ||| a == "--format"@
    ||| a == "--output"@
    ||| a == "--growth-rate"@
    ||| a == "--sample-interval"@
}

/// A word that is none of the monitor's flags.
pub open spec fn is_bare_word(a: Seq<char>) -> bool {
    &&& a != "--max-memory"@
    &&& a != "--leak-check"@
    &&& a != "--diff-only"@
    &&& a != "--duration"@
    &&& a != "--pid"@
    &&& a != "--spawn"@
    &&& a != "--format"@
    &&& a != "--output"@
    &&& a != "--growth-rate"@
    &&& a != "--sample-interval"@
}

/// A bare word names the process to attach to when no target was given
/// yet, wherever it stands among the flags; once a target is set, a bare
/// word is an unknown argument.
pub proof fn lemma_bare_word(args: Seq<Seq<char>>, i: int, st: ArgsModel)
    requires
        0 <= i < args.len(),
        is_bare_word(args[i]),
    ensures
        st.target is None ==> parse_from(args, i, st) == parse_from(
            args,
            i + 1,
            ArgsModel { target: Some(TargetModel::AttachName(args[i])), ..st },
        ),
        st.target is Some ==> parse_from(args, i, st) == ParseOutcome::Failed(
            ErrorModel::InvalidArg("Unknown argument: "@ + args[i]),
        ),
{
}

/// A flag that takes a value, met as the last word, fails as a missing
/// argument naming the flag.
pub proof fn lemma_missing_value(args: Seq<Seq<char>>, i: int, st: ArgsModel)
    requires
        0 <= i,
        i + 1 == args.len(),
        takes_value(args[i]),
    ensures
        parse_from(args, i, st) == ParseOutcome::Failed(ErrorModel::MissingArg(args[i])),
{
    reveal_strlit("--max-memory");
    reveal_strlit("--leak-check");
    reveal_strlit("--diff-only");
    reveal_strlit("--duration");
    reveal_strlit("--pid");
    reveal_strlit("--spawn");
    reveal_strlit("--format");
    reveal_strlit("--output");
    reveal_strlit("--growth-rate");
    reveal_strlit("--sample-interval");
}

/// `--format` takes "json", "junit" or "csv" and goes on after its value;
/// any other value fails, naming it.
pub proof fn lemma_format_value(args: Seq<Seq<char>>, i: int, st: ArgsModel)
    requires
        0 <= i,
        i + 1 < args.len(),
        args[i] == "--format"@,
    ensures
        parse_from(args, i, st) == if args[i + 1] == "json"@ {
            parse_from(args, i + 2, ArgsModel { format: Some(FormatType::Json), ..st })
        } else if args[i + 1] == "junit"@ {
            parse_from(args, i + 2, ArgsModel { format: Some(FormatType::Junit), ..st })
        } else if args[i + 1] == "csv"@ {
            parse_from(args, i + 2, ArgsModel { format: Some(FormatType::CSV), ..st })
        } else {
            ParseOutcome::Failed(ErrorModel::InvalidArg("Unknown format: "@ + args[i + 1]))
        },
{
    reveal_strlit("--max-memory");
    reveal_strlit("--leak-check");
    reveal_strlit("--diff-only");
    reveal_strlit("--duration");
    reveal_strlit("--pid");
    reveal_strlit("--spawn");
    reveal_strlit("--format");
    reveal_strlit("--output");
    reveal_strlit("--growth-rate");
    reveal_strlit("--sample-interval");
}

/// `--sample-interval` takes a positive `u64` and goes on after it; zero or
/// anything that is not a `u64` fails as an invalid argument.
pub proof fn lemma_sample_interval_value(args: Seq<Seq<char>>, i: int, st: ArgsModel)
    requires
        0 <= i,
        i + 1 < args.len(),
        args[i] == "--sample-interval"@,
    ensures
        parse_from(args, i, st) == match parse_unsigned(args[i + 1], u64::MAX as nat) {
            Some(v) => if v > 0 {
                parse_from(args, i + 2, ArgsModel { sample_interval: Some(v as u64), ..st })
            } else {
                ParseOutcome::Failed(
                    ErrorModel::InvalidArg(
                        "invalid --sample-interval: expected a positive number of milliseconds"@,
                    ),
                )
            },
            None => ParseOutcome::Failed(
                ErrorModel::InvalidArg("invalid --sample-interval: expected a positive number of milliseconds"@),
            ),
        },
{
    reveal_strlit("--max-memory");
    reveal_strlit("--leak-check");
    reveal_strlit("--diff-only");
    reveal_strlit("--duration");
    reveal_strlit("--pid");
    reveal_strlit("--spawn");
    reveal_strlit("--format");
    reveal_strlit("--output");
    reveal_strlit("--growth-rate");
    reveal_strlit("--sample-interval");
}

/// Adds a sample of `bytes` taken at time `now` (nanoseconds) to the rolling
/// window and drops, oldest first, the samples taken more than
/// `GROWTH_WINDOW_SECS` before `now`: the window keeps everything from the
/// first sample that is recent enough.
pub fn record_growth_sample(samples: &mut VecDeque<(u128, u64)>, now: u128, bytes: u64)
    ensures
        ({
            let pushed = old(samples)@.push((now, bytes));
            final(samples)@ == pushed.skip(window_start(pushed, now as int, 0))
        }),
{
    samples.push_back((now, bytes));
    let ghost pushed = samples@;
    assert(pushed == old(samples)@.push((now, bytes)));
    let window: u128 = (GROWTH_WINDOW_SECS as u128) * NANOS_PER_SEC;
    let ghost mut k: int = 0;
    proof {
        lemma_window_start_step(pushed, now as int, 0);
    }
    loop
        invariant
            0 <= k <= pushed.len(),
            samples@ == pushed.skip(k),
            window == window_nanos(),
            window_start(pushed, now as int, 0) == window_start(pushed, now as int, k),
        ensures
            samples@ == pushed.skip(window_start(pushed, now as int, 0)),
        decreases samples@.len(),
    {
        if samples.len() == 0 {
            proof {
                assert(pushed.skip(k).len() == 0);
                assert(k == pushed.len());
            }
            break;
        }
        let front = samples[0];
        let age = nanos_between(now, front.0);
        proof {
            assert(front == pushed[k]);
        }
        if age <= window {
            break;
        }
        samples.pop_front();
        proof {
            assert(samples@ =~= pushed.skip(k + 1));
            k = k + 1;
        }
    }
}

/// What the monitor observed of the watched process on one tick.
pub struct Sample {
    /// Nanoseconds since monitoring started.
    pub elapsed_nanos: u128,
    /// The process is still running (and, when it was spawned, has not exited).
    pub running: bool,
    /// The process's memory in bytes, when it could be read.
    pub memory: Option<u64>,
    /// How many bytes the heap grew since the baseline, when both the
    /// baseline and this tick's heap walk are at hand.
    pub heap_growth: Option<i64>,
    /// The rolling-window growth rate in bytes per second, when one was computed.
    pub growth_rate: Option<u64>,
}

/// What the monitor does after a tick.
#[derive(Debug, Clone, Copy, PartialEq, Eq, Structural)]
pub enum Verdict {
    /// Sample again after the interval.
    Continue,
    /// Stop watching: the duration is over or the process has gone.
    Finished,
    /// Stop: the process uses more memory than the limit.
    MemoryExceeded { limit: u64, current: u64 },
    /// Stop: the heap grew since the baseline.
    LeakDetected { growth: i64 },
    /// Stop: the heap grows faster than the limit.
    GrowthExceeded { limit: u64, rate: u64 },
}

/// The monitor's decision on a tick, in the order it checks: the duration,
/// the process still running, the memory limit, a leak against the baseline,
/// then the growth-rate limit.
pub open spec fn verdict_of(args: CiArgs, s: Sample) -> Verdict {
    if args.duration_secs is Some && s.elapsed_nanos >= args.duration_secs.unwrap() * NANOS_PER_SEC {
        Verdict::Finished
    } else if !s.running {
        Verdict::Finished
    } else if args.max_memory is Some && s.memory is Some && s.memory.unwrap() > args.max_memory.unwrap() {
        Verdict::MemoryExceeded { limit: args.max_memory.unwrap(), current: s.memory.unwrap() }
    } else if args.leak_check && s.heap_growth is Some && s.heap_growth.unwrap() > 0 {
        Verdict::LeakDetected { growth: s.heap_growth.unwrap() }
    } else if args.growth_rate is Some && s.growth_rate is Some && s.growth_rate.unwrap()
        > args.growth_rate.unwrap() {
        Verdict::GrowthExceeded { limit: args.growth_rate.unwrap(), rate: s.growth_rate.unwrap() }
    } else {
        Verdict::Continue
    }
}

/// A leak is reported only when leak checking is on and the heap grew, by
/// the growth observed: a heap that stayed the same or shrank is no leak.
pub proof fn lemma_leak_only_on_growth(args: CiArgs, s: Sample)
    ensures
        verdict_of(args, s) is LeakDetected ==> verdict_of(args, s)->growth > 0,
        verdict_of(args, s) is LeakDetected ==> args.leak_check,
        verdict_of(args, s) is LeakDetected ==> s.heap_growth == Some(verdict_of(args, s)->growth),
        s.heap_growth is None ==> !(verdict_of(args, s) is LeakDetected),
        s.heap_growth is Some && s.heap_growth.unwrap() <= 0 ==> !(verdict_of(args, s) is LeakDetected),
{
}

/// With leak checking on, a running process whose heap grew is reported as
/// leaking by that growth, unless the duration is over or the memory limit
/// was broken first.
pub proof fn lemma_growth_is_reported(args: CiArgs, s: Sample)
    requires
        args.leak_check,
        s.running,
        s.heap_growth is Some,
        s.heap_growth.unwrap() > 0,
        args.duration_secs is None || s.elapsed_nanos < args.duration_secs.unwrap() * 1_000_000_000,
        args.max_memory is None || s.memory is None || s.memory.unwrap() <= args.max_memory.unwrap(),
    ensures
        verdict_of(args, s) == (Verdict::LeakDetected { growth: s.heap_growth.unwrap() }),
{
}

/// Decides what the monitor does after observing `s`.
pub fn judge_sample(args: &CiArgs, s: &Sample) -> (v: Verdict)
    ensures
        v == verdict_of(*args, *s),
        v is LeakDetected ==> v->growth > 0 && s.heap_growth == Some(v->growth),
{
    if let Some(d) = args.duration_secs {
        if s.elapsed_nanos >= (d as u128) * NANOS_PER_SEC {
            return Verdict::Finished;
        }
    }
    if !s.running {
        return Verdict::Finished;
    }
    if let Some(limit) = args.max_memory {
        if let Some(m) = s.memory {
            if m > limit {
                return Verdict::MemoryExceeded { limit, current: m };
            }
        }
    }
    if args.leak_check {
        if let Some(g) = s.heap_growth {
            if g > 0 {
                return Verdict::LeakDetected { growth: g };
            }
        }
    }
    if let Some(limit) = args.growth_rate {
        if let Some(r) = s.growth_rate {
            if r > limit {
                return Verdict::GrowthExceeded { limit, rate: r };
            }
        }
    }
    Verdict::Continue
}

impl Verdict {
    /// The exit code the verdict stands for: 2 for a broken limit, 0 otherwise.
    pub fn exit_code(&self) -> (code: i32)
        ensures
            code == match *self {
                Verdict::Continue | Verdict::Finished => 0i32,
                _ => 2i32,
            },
    {
        match self {
            Verdict::Continue | Verdict::Finished => 0,
            _ => 2,
        }
    }
}

/// `--diff-only` is given without `--leak-check`, which it needs.
pub fn diff_only_needs_leak_check(args: &CiArgs) -> (r: bool)
    ensures
        r == (args.diff_only && !args.leak_check),
{
    args.diff_only && !args.leak_check
}

/// The blocks `b` does not hold.
pub open spec fn not_in(b: Seq<HeapBlock>) -> spec_fn(HeapBlock) -> bool {
    |x: HeapBlock| !b.contains(x)
}

/// Whether `blocks` holds `x`.
fn holds_block(blocks: &Vec<HeapBlock>, x: HeapBlock) -> (r: bool)
    ensures
        r == blocks@.contains(x),
{
    let mut i: usize = 0;
    while i < blocks.len()
        invariant
            i <= blocks@.len(),
            forall|j: int| 0 <= j < i ==> blocks@[j] != x,
        decreases blocks@.len() - i,
    {
        if blocks[i] == x {
            return true;
        }
        i = i + 1;
    }
    false
}

/// The blocks to report: with `--diff-only` and a baseline, those of
/// `current` that the baseline does not hold, in their order; otherwise all.
pub fn report_blocks(current: Vec<HeapBlock>, baseline: Option<&Vec<HeapBlock>>, diff_only: bool) -> (r: Vec<HeapBlock>)
    ensures
        r@ == match baseline {
            Some(b) => if diff_only {
                current@.filter(not_in(b@))
            } else {
                current@
            },
            None => current@,
        },
{
    match baseline {
        Some(b) => {
            if !diff_only {
                return current;
            }
            let mut r: Vec<HeapBlock> = Vec::new();
            let mut i: usize = 0;
            while i < current.len()
                invariant
                    i <= current@.len(),
                    r@ == current@.take(i as int).filter(not_in(b@)),
                decreases current@.len() - i,
            {
                let x = current[i];
                proof {
                    current@.take(i as int).lemma_filter_push(x, not_in(b@));
                    assert(current@.take(i + 1) =~= current@.take(i as int).push(x));
                }
                if !holds_block(b, x) {
                    r.push(x);
                }
                i = i + 1;
            }
            proof {
                assert(current@.take(current@.len() as int) =~= current@);
            }
            r
        },
        None => current,
    }
}

/// The file a report goes to: `output` when given, otherwise `heap_dump`
/// with the format's extension.
pub fn report_path(output: &Option<String>, format: FormatType) -> (path: String)
    ensures
        path@ == match output {
            Some(o) => o@,
            None => match format {
                FormatType::Json => "heap_dump.json"@,
                FormatType::CSV => "heap_dump.csv"@,
                FormatType::Junit => "heap_dump.xml"@,
            },
        },
{
    match output {
        Some(o) => o.clone(),
        None => match format {
            FormatType::Json => String::from_str("heap_dump.json"),
            FormatType::CSV => String::from_str("heap_dump.csv"),
            FormatType::Junit => String::from_str("heap_dump.xml"),
        },
    }
}

/// The exit code after an export: a failed export turns success into 1 and
/// leaves a failure code as it is.
pub fn exit_after_export(code: i32, exported: bool) -> (r: i32)
    ensures
        r == if !exported && code == 0 {
            1i32
        } else {
            code
        },
{
    if !exported && code == 0 {
        1
    } else {
        code
    }
}

/// How a process name matched the running processes.
pub enum FuzzyMatch {
    /// Exactly one process matched.
    Found(u32),
    /// No process matched.
    NotFound,
    /// Several processes matched, with these ids.
    Ambiguous(Vec<u32>),
}

/// The process id a name resolves to: the one match, or an error naming
/// the process when none or several matched.
pub fn resolve_name(name: &String, found: FuzzyMatch) -> (r: Result<u32, AppError>)
    ensures
        match found {
            FuzzyMatch::Found(pid) => r == Ok::<u32, AppError>(pid),
            FuzzyMatch::NotFound => r matches Err(e) && e@ == ErrorModel::ProcessNotFound(name@),
            FuzzyMatch::Ambiguous(_) => r matches Err(e) && e@ == ErrorModel::InvalidArg(
                "'"@ + name@ + "' matches multiple processes \u{2014} use --pid for an exact match"@,
            ),
        },
{
    match found {
        FuzzyMatch::Found(pid) => Ok(pid),
        FuzzyMatch::NotFound => Err(AppError::ProcessNotFound(name.clone())),
        FuzzyMatch::Ambiguous(_) => {
            let mut msg = String::from_str("'");
            msg.append(name.as_str());
            msg.append("' matches multiple processes \u{2014} use --pid for an exact match");
            Err(AppError::InvalidArg(msg))
        },
    }
}

/// A check result as plain values: name, passed, message.
pub open spec fn result_view(r: CheckResult) -> (Seq<char>, bool, Option<Seq<char>>) {
    (
        r.name@,
        r.passed,
        match r.message {
            Some(m) => Some(m@),
            None => None,
        },
    )
}

/// The CI checks that ran, in the order the monitor applies them, each
/// passed unless `verdict` is its breach: "max-memory" when a memory limit
/// was set, "leak-check" when leak checking was on, "growth-rate" when a
/// growth-rate limit was set. The check names and the failure messages are
/// this library's own choice: nothing else fixes which checks the JUnit
/// report lists.
pub open spec fn checks_of(args: CiArgs, verdict: Verdict) -> Seq<(Seq<char>, bool, Option<Seq<char>>)> {
    let memory = if args.max_memory is Some {
        seq![
            if verdict is MemoryExceeded {
                ("max-memory"@, false, Some("memory limit exceeded"@))
            } else {
                ("max-memory"@, true, None)
            },
        ]
    } else {
        Seq::empty()
    };
    let leak = if args.leak_check {
        seq![
            if verdict is LeakDetected {
                ("leak-check"@, false, Some("memory leak detected"@))
            } else {
                ("leak-check"@, true, None)
            },
        ]
    } else {
        Seq::empty()
    };
    let growth = if args.growth_rate is Some {
        seq![
            if verdict is GrowthExceeded {
                ("growth-rate"@, false, Some("heap growth rate exceeded"@))
            } else {
                ("growth-rate"@, true, None)
            },
        ]
    } else {
        Seq::empty()
    };
    memory + leak + growth
}

fn check_result(name: &str, failed: bool, message: &str) -> (r: CheckResult)
    ensures
        result_view(r) == if failed {
            (name@, false, Some(message@))
        } else {
            (name@, true, None::<Seq<char>>)
        },
{
    if failed {
        CheckResult {
            name: String::from_str(name),
            passed: false,
            message: Some(String::from_str(message)),
        }
    } else {
        CheckResult { name: String::from_str(name), passed: true, message: None }
    }
}

/// The results of the CI checks that ran, for the JUnit report (names and
/// messages as `checks_of` chooses them).
pub fn check_results(args: &CiArgs, verdict: Verdict) -> (results: Vec<CheckResult>)
    ensures
        results@.map_values(|r: CheckResult| result_view(r)) == checks_of(*args, verdict),
{
    let mut results: Vec<CheckResult> = Vec::new();
    if args.max_memory.is_some() {
        let failed = match verdict {
            Verdict::MemoryExceeded { .. } => true,
            _ => false,
        };
        results.push(check_result("max-memory", failed, "memory limit exceeded"));
    }
    if args.leak_check {
        let failed = match verdict {
            Verdict::LeakDetected { .. } => true,
            _ => false,
        };
        results.push(check_result("leak-check", failed, "memory leak detected"));
    }
    if args.growth_rate.is_some() {
        let failed = match verdict {
            Verdict::GrowthExceeded { .. } => true,
            _ => false,
        };
        results.push(check_result("growth-rate", failed, "heap growth rate exceeded"));
    }
    assert(results@.map_values(|r: CheckResult| result_view(r)) =~= checks_of(*args, verdict));
    results
}

} // verus!
