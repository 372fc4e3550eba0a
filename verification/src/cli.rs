//! The command line of the solver: the instance and solution paths followed by
//! option/value pairs. Integer options are read here; the floating-point options
//! are checked against the syntax of `f64` and reported by the position of their
//! text, for the caller to convert.
use vstd::prelude::*;
use vstd::utf8::encode_utf8;
use crate::text::{parse_unsigned, parse_i64, is_float_text, parse_unsigned_text, parse_i64_text, is_float_text_exec};

verus! {

/// The options of the command line.
#[derive(Clone, Copy, PartialEq, Eq, Structural)]
pub enum CliOption {
    TimeLimit,
    NbIter,
    Seed,
    Vehicles,
    Round,
    Log,
    NbGranular,
    Mu,
    Lambda,
    NbElite,
    NbClose,
    NbIterPenaltyManagement,
    NbIterTraces,
    TargetFeasible,
    PenaltyIncrease,
    PenaltyDecrease,
}

/// The word that names an option on the command line.
pub open spec fn option_word(o: CliOption) -> Seq<u8> {
    match o {
        CliOption::TimeLimit => seq![45u8, 116u8],  // -t
        CliOption::NbIter => seq![45u8, 105u8, 116u8],  // -it
        CliOption::Seed => seq![45u8, 115u8, 101u8, 101u8, 100u8],  // -seed
        CliOption::Vehicles => seq![45u8, 118u8, 101u8, 104u8],  // -veh
        CliOption::Round => seq![45u8, 114u8, 111u8, 117u8, 110u8, 100u8],  // -round
        CliOption::Log => seq![45u8, 108u8, 111u8, 103u8],  // -log
        CliOption::NbGranular => seq![45u8, 110u8, 98u8, 71u8, 114u8, 97u8, 110u8, 117u8, 108u8, 97u8, 114u8],  // -nbGranular
        CliOption::Mu => seq![45u8, 109u8, 117u8],  // -mu
        CliOption::Lambda => seq![45u8, 108u8, 97u8, 109u8, 98u8, 100u8, 97u8],  // -lambda
        CliOption::NbElite => seq![45u8, 110u8, 98u8, 69u8, 108u8, 105u8, 116u8, 101u8],  // -nbElite
        CliOption::NbClose => seq![45u8, 110u8, 98u8, 67u8, 108u8, 111u8, 115u8, 101u8],  // -nbClose
        CliOption::NbIterPenaltyManagement => seq![45u8, 110u8, 98u8, 73u8, 116u8, 101u8, 114u8, 80u8, 101u8, 110u8, 97u8, 108u8, 116u8, 121u8, 77u8, 97u8, 110u8, 97u8, 103u8, 101u8, 109u8, 101u8, 110u8, 116u8],  // -nbIterPenaltyManagement
        CliOption::NbIterTraces => seq![45u8, 110u8, 98u8, 73u8, 116u8, 101u8, 114u8, 84u8, 114u8, 97u8, 99u8, 101u8, 115u8],  // -nbIterTraces
        CliOption::TargetFeasible => seq![45u8, 116u8, 97u8, 114u8, 103u8, 101u8, 116u8, 70u8, 101u8, 97u8, 115u8, 105u8, 98u8, 108u8, 101u8],  // -targetFeasible
        CliOption::PenaltyIncrease => seq![45u8, 112u8, 101u8, 110u8, 97u8, 108u8, 116u8, 121u8, 73u8, 110u8, 99u8, 114u8, 101u8, 97u8, 115u8, 101u8],  // -penaltyIncrease
        CliOption::PenaltyDecrease => seq![45u8, 112u8, 101u8, 110u8, 97u8, 108u8, 116u8, 121u8, 68u8, 101u8, 99u8, 114u8, 101u8, 97u8, 115u8, 101u8],  // -penaltyDecrease
    }
}

/// The option that a word names, if any.
pub open spec fn recognized(w: Seq<u8>) -> Option<CliOption> {
    if w == option_word(CliOption::TimeLimit) {
        Some(CliOption::TimeLimit)
    } else if w == option_word(CliOption::NbIter) {
        Some(CliOption::NbIter)
    } else if w == option_word(CliOption::Seed) {
        Some(CliOption::Seed)
    } else if w == option_word(CliOption::Vehicles) {
        Some(CliOption::Vehicles)
    } else if w == option_word(CliOption::Round) {
        Some(CliOption::Round)
    } else if w == option_word(CliOption::Log) {
        Some(CliOption::Log)
    } else if w == option_word(CliOption::NbGranular) {
        Some(CliOption::NbGranular)
    } else if w == option_word(CliOption::Mu) {
        Some(CliOption::Mu)
    } else if w == option_word(CliOption::Lambda) {
        Some(CliOption::Lambda)
    } else if w == option_word(CliOption::NbElite) {
        Some(CliOption::NbElite)
    } else if w == option_word(CliOption::NbClose) {
        Some(CliOption::NbClose)
    } else if w == option_word(CliOption::NbIterPenaltyManagement) {
        Some(CliOption::NbIterPenaltyManagement)
    } else if w == option_word(CliOption::NbIterTraces) {
        Some(CliOption::NbIterTraces)
    } else if w == option_word(CliOption::TargetFeasible) {
        Some(CliOption::TargetFeasible)
    } else if w == option_word(CliOption::PenaltyIncrease) {
        Some(CliOption::PenaltyIncrease)
    } else if w == option_word(CliOption::PenaltyDecrease) {
        Some(CliOption::PenaltyDecrease)
    } else {
        None
    }
}

/// Recognizes the option that a word names.
fn recognize(w: &[u8]) -> (r: Option<CliOption>)
    ensures
        r == recognized(w@),
{
    let word: [u8; 2] = [45, 116];
    proof {
        assert(word@ =~= option_word(CliOption::TimeLimit));
    }
    if same_bytes(w, word.as_slice()) {
        return Some(CliOption::TimeLimit);
    }
    let word: [u8; 3] = [45, 105, 116];
    proof {
        assert(word@ =~= option_word(CliOption::NbIter));
    }
    if same_bytes(w, word.as_slice()) {
        return Some(CliOption::NbIter);
    }
    let word: [u8; 5] = [45, 115, 101, 101, 100];
    proof {
        assert(word@ =~= option_word(CliOption::Seed));
    }
    if same_bytes(w, word.as_slice()) {
        return Some(CliOption::Seed);
    }
    let word: [u8; 4] = [45, 118, 101, 104];
    proof {
        assert(word@ =~= option_word(CliOption::Vehicles));
    }
    if same_bytes(w, word.as_slice()) {
        return Some(CliOption::Vehicles);
    }
    let word: [u8; 6] = [45, 114, 111, 117, 110, 100];
    proof {
        assert(word@ =~= option_word(CliOption::Round));
    }
    if same_bytes(w, word.as_slice()) {
        return Some(CliOption::Round);
    }
    let word: [u8; 4] = [45, 108, 111, 103];
    proof {
        assert(word@ =~= option_word(CliOption::Log));
    }
    if same_bytes(w, word.as_slice()) {
        return Some(CliOption::Log);
    }
    let word: [u8; 11] = [45, 110, 98, 71, 114, 97, 110, 117, 108, 97, 114];
    proof {
        assert(word@ =~= option_word(CliOption::NbGranular));
    }
    if same_bytes(w, word.as_slice()) {
        return Some(CliOption::NbGranular);
    }
    let word: [u8; 3] = [45, 109, 117];
    proof {
        assert(word@ =~= option_word(CliOption::Mu));
    }
    if same_bytes(w, word.as_slice()) {
        return Some(CliOption::Mu);
    }
    let word: [u8; 7] = [45, 108, 97, 109, 98, 100, 97];
    proof {
        assert(word@ =~= option_word(CliOption::Lambda));
    }
    if same_bytes(w, word.as_slice()) {
        return Some(CliOption::Lambda);
    }
    let word: [u8; 8] = [45, 110, 98, 69, 108, 105, 116, 101];
    proof {
        assert(word@ =~= option_word(CliOption::NbElite));
    }
    if same_bytes(w, word.as_slice()) {
        return Some(CliOption::NbElite);
    }
    let word: [u8; 8] = [45, 110, 98, 67, 108, 111, 115, 101];
    proof {
        assert(word@ =~= option_word(CliOption::NbClose));
    }
    if same_bytes(w, word.as_slice()) {
        return Some(CliOption::NbClose);
    }
    let word: [u8; 24] = [45, 110, 98, 73, 116, 101, 114, 80, 101, 110, 97, 108, 116, 121, 77, 97, 110, 97, 103, 101, 109, 101, 110, 116];
    proof {
        assert(word@ =~= option_word(CliOption::NbIterPenaltyManagement));
    }
    if same_bytes(w, word.as_slice()) {
        return Some(CliOption::NbIterPenaltyManagement);
    }
    let word: [u8; 13] = [45, 110, 98, 73, 116, 101, 114, 84, 114, 97, 99, 101, 115];
    proof {
        assert(word@ =~= option_word(CliOption::NbIterTraces));
    }
    if same_bytes(w, word.as_slice()) {
        return Some(CliOption::NbIterTraces);
    }
    let word: [u8; 15] = [45, 116, 97, 114, 103, 101, 116, 70, 101, 97, 115, 105, 98, 108, 101];
    proof {
        assert(word@ =~= option_word(CliOption::TargetFeasible));
    }
    if same_bytes(w, word.as_slice()) {
        return Some(CliOption::TargetFeasible);
    }
    let word: [u8; 16] = [45, 112, 101, 110, 97, 108, 116, 121, 73, 110, 99, 114, 101, 97, 115, 101];
    proof {
        assert(word@ =~= option_word(CliOption::PenaltyIncrease));
    }
    if same_bytes(w, word.as_slice()) {
        return Some(CliOption::PenaltyIncrease);
    }
    let word: [u8; 16] = [45, 112, 101, 110, 97, 108, 116, 121, 68, 101, 99, 114, 101, 97, 115, 101];
    proof {
        assert(word@ =~= option_word(CliOption::PenaltyDecrease));
    }
    if same_bytes(w, word.as_slice()) {
        return Some(CliOption::PenaltyDecrease);
    }
    None
}

/// Whether two byte strings are equal.
fn same_bytes(a: &[u8], b: &[u8]) -> (r: bool)
    ensures
        r == (a@ == b@),
{
    if a.len() != b.len() {
        return false;
    }
    let mut i: usize = 0;
    while i < a.len()
        invariant
            a@.len() == b@.len(),
            i <= a@.len(),
            forall|k: int| 0 <= k < i ==> a@[k] == b@[k],
        decreases a@.len() - i,
    {
        if a[i] != b[i] {
            return false;
        }
        i = i + 1;
    }
    proof {
        assert(a@ =~= b@);
    }
    true
}

/// The settings that the command line can change. The floating-point options are
/// held as the position, in the arguments, of the text that gives their value.
#[derive(Clone, Copy)]
pub struct CliSettings {
    /// Granular search parameter, limits the number of moves in the RI local search.
    pub nb_granular: usize,
    /// Minimum population size.
    pub mu: usize,
    /// Number of solutions created before reaching the maximum population size.
    pub lambda: usize,
    /// Number of elite individuals.
    pub nb_elite: usize,
    /// Number of closest individuals considered for the diversity contribution.
    pub nb_close: usize,
    /// Number of iterations between penalty updates.
    pub nb_iter_penalty_management: usize,
    /// Random seed.
    pub seed: u64,
    /// Number of iterations without improvement until termination.
    pub nb_iter: usize,
    /// Number of iterations between traces display.
    pub nb_iter_traces: usize,
    /// Number of vehicles. `None` lets the algorithm compute a reasonable bound.
    pub nb_veh: Option<usize>,
    pub verbose: bool,
    pub is_rounding_integer: bool,
    /// Position of the time limit text (`-t`).
    pub time_limit_arg: Option<usize>,
    /// Position of the target feasible ratio text (`-targetFeasible`).
    pub target_feasible_arg: Option<usize>,
    /// Position of the penalty increase text (`-penaltyIncrease`).
    pub penalty_increase_arg: Option<usize>,
    /// Position of the penalty decrease text (`-penaltyDecrease`).
    pub penalty_decrease_arg: Option<usize>,
}

/// The settings before any option is read (the defaults of the algorithm).
pub open spec fn default_settings() -> CliSettings {
    CliSettings {
        nb_granular: 20,
        mu: 25,
        lambda: 40,
        nb_elite: 5,
        nb_close: 4,
        nb_iter_penalty_management: 100,
        seed: 0,
        nb_iter: 20000,
        nb_iter_traces: 500,
        nb_veh: None,
        verbose: true,
        is_rounding_integer: true,
        time_limit_arg: None,
        target_feasible_arg: None,
        penalty_increase_arg: None,
        penalty_decrease_arg: None,
    }
}

/// Why a command line was refused.
#[derive(Clone, Copy, PartialEq, Eq, Structural)]
pub enum CliError {
    /// The number of arguments is not odd, or not between 3 and 35.
    ArgumentCount,
    /// The argument at this position names no option.
    UnknownOption(usize),
    /// The value at this position cannot be read as the option needs.
    BadValue(usize),
}

/// The settings after an option is given the text `val` (at position `at`), or
/// `None` when the text does not parse as the option requires.
pub open spec fn apply_option(st: CliSettings, o: CliOption, val: Seq<u8>, at: int) -> Option<
    CliSettings,
> {
    let unsigned = parse_unsigned(val, usize::MAX as int);
    let flag = parse_i64(val);
    match o {
        CliOption::TimeLimit => if is_float_text(val) {
            Some(CliSettings { time_limit_arg: Some(at as usize), ..st })
        } else {
            None
        },
        CliOption::TargetFeasible => if is_float_text(val) {
            Some(CliSettings { target_feasible_arg: Some(at as usize), ..st })
        } else {
            None
        },
        CliOption::PenaltyIncrease => if is_float_text(val) {
            Some(CliSettings { penalty_increase_arg: Some(at as usize), ..st })
        } else {
            None
        },
        CliOption::PenaltyDecrease => if is_float_text(val) {
            Some(CliSettings { penalty_decrease_arg: Some(at as usize), ..st })
        } else {
            None
        },
        CliOption::Seed => match parse_unsigned(val, u64::MAX as int) {
            Some(v) => Some(CliSettings { seed: v as u64, ..st }),
            None => None,
        },
        CliOption::Round => match flag {
            Some(v) => Some(CliSettings { is_rounding_integer: v != 0, ..st }),
            None => None,
        },
        CliOption::Log => match flag {
            Some(v) => Some(CliSettings { verbose: v != 0, ..st }),
            None => None,
        },
        _ => match unsigned {
            Some(v) => Some(
                match o {
                    CliOption::NbIter => CliSettings { nb_iter: v as usize, ..st },
                    CliOption::Vehicles => CliSettings { nb_veh: Some(v as usize), ..st },
                    CliOption::NbGranular => CliSettings { nb_granular: v as usize, ..st },
                    CliOption::Mu => CliSettings { mu: v as usize, ..st },
                    CliOption::Lambda => CliSettings { lambda: v as usize, ..st },
                    CliOption::NbElite => CliSettings { nb_elite: v as usize, ..st },
                    CliOption::NbClose => CliSettings { nb_close: v as usize, ..st },
                    CliOption::NbIterPenaltyManagement => CliSettings {
                        nb_iter_penalty_management: v as usize,
                        ..st
                    },
                    _ => CliSettings { nb_iter_traces: v as usize, ..st },
                },
            ),
            None => None,
        },
    }
}

/// Reads the option/value pairs from position `i` on, each pair in turn; the first
/// unknown option or unreadable value ends the reading with an error.
pub open spec fn parse_options(st: CliSettings, args: Seq<Seq<u8>>, i: int) -> Result<
    CliSettings,
    CliError,
>
    decreases args.len() - i,
{
    if i < 0 || i + 1 >= args.len() {
        Ok(st)
    } else {
        match recognized(args[i]) {
            None => Err(CliError::UnknownOption(i as usize)),
            Some(o) => match apply_option(st, o, args[i + 1], i + 1) {
                None => Err(CliError::BadValue((i + 1) as usize)),
                Some(next) => parse_options(next, args, i + 2),
            },
        }
    }
}

/// The settings that a command line (with the program name first) gives.
pub open spec fn parse_command_line(args: Seq<Seq<u8>>) -> Result<CliSettings, CliError> {
    if args.len() % 2 != 1 || args.len() > 35 || args.len() < 3 {
        Err(CliError::ArgumentCount)
    } else {
        parse_options(default_settings(), args, 3)
    }
}

/// The bytes of each argument.
pub open spec fn arg_bytes(args: Seq<String>) -> Seq<Seq<u8>> {
    args.map_values(|a: String| encode_utf8(a@))
}

/// Gives an option the text `val` (at position `at`).
fn apply_option_exec(st: CliSettings, o: CliOption, val: &[u8], at: usize) -> (r: Option<
    CliSettings,
>)
    ensures
        r == apply_option(st, o, val@, at as int),
{
    match o {
        CliOption::TimeLimit => if is_float_text_exec(val) {
            Some(CliSettings { time_limit_arg: Some(at), ..st })
        } else {
            None
        },
        CliOption::TargetFeasible => if is_float_text_exec(val) {
            Some(CliSettings { target_feasible_arg: Some(at), ..st })
        } else {
            None
        },
        CliOption::PenaltyIncrease => if is_float_text_exec(val) {
            Some(CliSettings { penalty_increase_arg: Some(at), ..st })
        } else {
            None
        },
        CliOption::PenaltyDecrease => if is_float_text_exec(val) {
            Some(CliSettings { penalty_decrease_arg: Some(at), ..st })
        } else {
            None
        },
        CliOption::Seed => match parse_unsigned_text(val, u64::MAX) {
            Some(v) => Some(CliSettings { seed: v, ..st }),
            None => None,
        },
        CliOption::Round => match parse_i64_text(val) {
            Some(v) => Some(CliSettings { is_rounding_integer: v != 0, ..st }),
            None => None,
        },
        CliOption::Log => match parse_i64_text(val) {
            Some(v) => Some(CliSettings { verbose: v != 0, ..st }),
            None => None,
        },
        _ => match parse_unsigned_text(val, usize::MAX as u64) {
            Some(v) => {
                let v: usize = v as usize;
                Some(
                    match o {
                        CliOption::NbIter => CliSettings { nb_iter: v, ..st },
                        CliOption::Vehicles => CliSettings { nb_veh: Some(v), ..st },
                        CliOption::NbGranular => CliSettings { nb_granular: v, ..st },
                        CliOption::Mu => CliSettings { mu: v, ..st },
                        CliOption::Lambda => CliSettings { lambda: v, ..st },
                        CliOption::NbElite => CliSettings { nb_elite: v, ..st },
                        CliOption::NbClose => CliSettings { nb_close: v, ..st },
                        CliOption::NbIterPenaltyManagement => CliSettings {
                            nb_iter_penalty_management: v,
                            ..st
                        },
                        _ => CliSettings { nb_iter_traces: v, ..st },
                    },
                )
            },
            None => None,
        },
    }
}

/// A command line that was read successfully.
pub struct CommandLine {
    pub settings: CliSettings,
    /// Instance path.
    pub path_instance: String,
    /// Solution path.
    pub path_solution: String,
}

impl CommandLine {
    /// Reads the command line (including the program name in `args[0]`)
    /// and extracts the possible options.
    pub fn parse(args: &[String]) -> (r: Result<CommandLine, CliError>)
        ensures
            match r {
                Ok(cl) => {
                    &&& parse_command_line(arg_bytes(args@)) == Ok::<CliSettings, CliError>(
                        cl.settings,
                    )
                    &&& cl.path_instance@ == args@[1]@
                    &&& cl.path_solution@ == args@[2]@
                },
                Err(e) => parse_command_line(arg_bytes(args@)) == Err::<CliSettings, CliError>(e),
            },
    {
        let ghost bytes: Seq<Seq<u8>> = arg_bytes(args@);
        let n: usize = args.len();
        if n % 2 != 1 || n > 35 || n < 3 {
            return Err(CliError::ArgumentCount);
        }
        let mut settings = CliSettings {
            nb_granular: 20,
            mu: 25,
            lambda: 40,
            nb_elite: 5,
            nb_close: 4,
            nb_iter_penalty_management: 100,
            seed: 0,
            nb_iter: 20000,
            nb_iter_traces: 500,
            nb_veh: None,
            verbose: true,
            is_rounding_integer: true,
            time_limit_arg: None,
            target_feasible_arg: None,
            penalty_increase_arg: None,
            penalty_decrease_arg: None,
        };
        let mut i: usize = 3;
        while i < n
            invariant
                n == args@.len(),
                n % 2 == 1,
                3 <= n <= 35,
                3 <= i <= n,
                i % 2 == 1,
                bytes == arg_bytes(args@),
                parse_command_line(bytes) == parse_options(settings, bytes, i as int),
            decreases n - i,
        {
            let option: &[u8] = args[i].as_str().as_bytes();
            let value: &[u8] = args[i + 1].as_str().as_bytes();
            proof {
                assert(option@ == bytes[i as int]);
                assert(value@ == bytes[i + 1]);
            }
            match recognize(option) {
                None => {
                    return Err(CliError::UnknownOption(i));
                },
                Some(o) => match apply_option_exec(settings, o, value, i + 1) {
                    None => {
                        return Err(CliError::BadValue(i + 1));
                    },
                    Some(next) => {
                        settings = next;
                    },
                },
            }
            i = i + 2;
        }
        Ok(
            CommandLine {
                settings,
                path_instance: args[1].clone(),
                path_solution: args[2].clone(),
            },
        )
    }
}


// Laws of the command line: each option word, followed by a value, changes exactly
// the setting it names and nothing else; an unreadable value is refused at its
// position.

/// `-t` followed by a floating-point text records the position of that text in
/// `time_limit_arg` and changes no other setting; any other value is refused.
pub proof fn lemma_option_time_limit(st: CliSettings, args: Seq<Seq<u8>>, i: int)
    requires
        0 <= i,
        i + 1 < args.len(),
        args[i] == seq![45u8, 116u8],
    ensures
        is_float_text(args[i + 1]) ==> parse_options(st, args, i) == parse_options(
            (CliSettings { time_limit_arg: Some((i + 1) as usize), ..st }),
            args,
            i + 2,
        ),
        !is_float_text(args[i + 1]) ==> parse_options(st, args, i) == Err::<CliSettings, CliError>(
            CliError::BadValue((i + 1) as usize),
        ),
{
    assert(args[i] =~= option_word(CliOption::TimeLimit));
    assert(recognized(args[i]) == Some(CliOption::TimeLimit));
}

/// `-it` followed by an unsigned integer `v` sets `nb_iter` to `v` and changes no other
/// setting; any other value is refused.
pub proof fn lemma_option_nb_iter(st: CliSettings, args: Seq<Seq<u8>>, i: int)
    requires
        0 <= i,
        i + 1 < args.len(),
        args[i] == seq![45u8, 105u8, 116u8],
    ensures
        parse_unsigned(args[i + 1], usize::MAX as int) matches Some(v) ==> parse_options(st, args, i) == parse_options(
            (CliSettings { nb_iter: v as usize, ..st }),
            args,
            i + 2,
        ),
        parse_unsigned(args[i + 1], usize::MAX as int) is None ==> parse_options(st, args, i) == Err::<CliSettings, CliError>(
            CliError::BadValue((i + 1) as usize),
        ),
{
    assert(args[i] =~= option_word(CliOption::NbIter));
    assert(recognized(args[i]) == Some(CliOption::NbIter));
}

/// `-seed` followed by an unsigned 64-bit integer `v` sets the seed to `v` and
/// changes no other setting; any other value is refused.
pub proof fn lemma_option_seed(st: CliSettings, args: Seq<Seq<u8>>, i: int)
    requires
        0 <= i,
        i + 1 < args.len(),
        args[i] == seq![45u8, 115u8, 101u8, 101u8, 100u8],
    ensures
        parse_unsigned(args[i + 1], u64::MAX as int) matches Some(v) ==> parse_options(st, args, i) == parse_options(
            (CliSettings { seed: v as u64, ..st }),
            args,
            i + 2,
        ),
        parse_unsigned(args[i + 1], u64::MAX as int) is None ==> parse_options(st, args, i) == Err::<CliSettings, CliError>(
            CliError::BadValue((i + 1) as usize),
        ),
{
    assert(args[i] =~= option_word(CliOption::Seed));
    assert(recognized(args[i]) == Some(CliOption::Seed));
}

/// `-veh` followed by an unsigned integer `v` sets the fleet size to `v` and changes
/// no other setting; any other value is refused.
pub proof fn lemma_option_vehicles(st: CliSettings, args: Seq<Seq<u8>>, i: int)
    requires
        0 <= i,
        i + 1 < args.len(),
        args[i] == seq![45u8, 118u8, 101u8, 104u8],
    ensures
        parse_unsigned(args[i + 1], usize::MAX as int) matches Some(v) ==> parse_options(st, args, i) == parse_options(
            (CliSettings { nb_veh: Some(v as usize), ..st }),
            args,
            i + 2,
        ),
        parse_unsigned(args[i + 1], usize::MAX as int) is None ==> parse_options(st, args, i) == Err::<CliSettings, CliError>(
            CliError::BadValue((i + 1) as usize),
        ),
{
    assert(args[i] =~= option_word(CliOption::Vehicles));
    assert(recognized(args[i]) == Some(CliOption::Vehicles));
}

/// `-round` followed by an integer `v` sets `is_rounding_integer` to whether `v` is nonzero and changes
/// no other setting; any other value is refused.
pub proof fn lemma_option_round(st: CliSettings, args: Seq<Seq<u8>>, i: int)
    requires
        0 <= i,
        i + 1 < args.len(),
        args[i] == seq![45u8, 114u8, 111u8, 117u8, 110u8, 100u8],
    ensures
        parse_i64(args[i + 1]) matches Some(v) ==> parse_options(st, args, i) == parse_options(
            (CliSettings { is_rounding_integer: v != 0, ..st }),
            args,
            i + 2,
        ),
        parse_i64(args[i + 1]) is None ==> parse_options(st, args, i) == Err::<CliSettings, CliError>(
            CliError::BadValue((i + 1) as usize),
        ),
{
    assert(args[i] =~= option_word(CliOption::Round));
    assert(recognized(args[i]) == Some(CliOption::Round));
}

/// `-log` followed by an integer `v` sets `verbose` to whether `v` is nonzero and changes
/// no other setting; any other value is refused.
pub proof fn lemma_option_log(st: CliSettings, args: Seq<Seq<u8>>, i: int)
    requires
        0 <= i,
        i + 1 < args.len(),
        args[i] == seq![45u8, 108u8, 111u8, 103u8],
    ensures
        parse_i64(args[i + 1]) matches Some(v) ==> parse_options(st, args, i) == parse_options(
            (CliSettings { verbose: v != 0, ..st }),
            args,
            i + 2,
        ),
        parse_i64(args[i + 1]) is None ==> parse_options(st, args, i) == Err::<CliSettings, CliError>(
            CliError::BadValue((i + 1) as usize),
        ),
{
    assert(args[i] =~= option_word(CliOption::Log));
    assert(recognized(args[i]) == Some(CliOption::Log));
}

/// `-nbGranular` followed by an unsigned integer `v` sets `nb_granular` to `v` and changes no other
/// setting; any other value is refused.
pub proof fn lemma_option_nb_granular(st: CliSettings, args: Seq<Seq<u8>>, i: int)
    requires
        0 <= i,
        i + 1 < args.len(),
        args[i] == seq![45u8, 110u8, 98u8, 71u8, 114u8, 97u8, 110u8, 117u8, 108u8, 97u8, 114u8],
    ensures
        parse_unsigned(args[i + 1], usize::MAX as int) matches Some(v) ==> parse_options(st, args, i) == parse_options(
            (CliSettings { nb_granular: v as usize, ..st }),
            args,
            i + 2,
        ),
        parse_unsigned(args[i + 1], usize::MAX as int) is None ==> parse_options(st, args, i) == Err::<CliSettings, CliError>(
            CliError::BadValue((i + 1) as usize),
        ),
{
    assert(args[i] =~= option_word(CliOption::NbGranular));
    assert(recognized(args[i]) == Some(CliOption::NbGranular));
}

/// `-mu` followed by an unsigned integer `v` sets `mu` to `v` and changes no other
/// setting; any other value is refused.
pub proof fn lemma_option_mu(st: CliSettings, args: Seq<Seq<u8>>, i: int)
    requires
        0 <= i,
        i + 1 < args.len(),
        args[i] == seq![45u8, 109u8, 117u8],
    ensures
        parse_unsigned(args[i + 1], usize::MAX as int) matches Some(v) ==> parse_options(st, args, i) == parse_options(
            (CliSettings { mu: v as usize, ..st }),
            args,
            i + 2,
        ),
        parse_unsigned(args[i + 1], usize::MAX as int) is None ==> parse_options(st, args, i) == Err::<CliSettings, CliError>(
            CliError::BadValue((i + 1) as usize),
        ),
{
    assert(args[i] =~= option_word(CliOption::Mu));
    assert(recognized(args[i]) == Some(CliOption::Mu));
}

/// `-lambda` followed by an unsigned integer `v` sets `lambda` to `v` and changes no other
/// setting; any other value is refused.
pub proof fn lemma_option_lambda(st: CliSettings, args: Seq<Seq<u8>>, i: int)
    requires
        0 <= i,
        i + 1 < args.len(),
        args[i] == seq![45u8, 108u8, 97u8, 109u8, 98u8, 100u8, 97u8],
    ensures
        parse_unsigned(args[i + 1], usize::MAX as int) matches Some(v) ==> parse_options(st, args, i) == parse_options(
            (CliSettings { lambda: v as usize, ..st }),
            args,
            i + 2,
        ),
        parse_unsigned(args[i + 1], usize::MAX as int) is None ==> parse_options(st, args, i) == Err::<CliSettings, CliError>(
            CliError::BadValue((i + 1) as usize),
        ),
{
    assert(args[i] =~= option_word(CliOption::Lambda));
    assert(recognized(args[i]) == Some(CliOption::Lambda));
}

/// `-nbElite` followed by an unsigned integer `v` sets `nb_elite` to `v` and changes no other
/// setting; any other value is refused.
pub proof fn lemma_option_nb_elite(st: CliSettings, args: Seq<Seq<u8>>, i: int)
    requires
        0 <= i,
        i + 1 < args.len(),
        args[i] == seq![45u8, 110u8, 98u8, 69u8, 108u8, 105u8, 116u8, 101u8],
    ensures
        parse_unsigned(args[i + 1], usize::MAX as int) matches Some(v) ==> parse_options(st, args, i) == parse_options(
            (CliSettings { nb_elite: v as usize, ..st }),
            args,
            i + 2,
        ),
        parse_unsigned(args[i + 1], usize::MAX as int) is None ==> parse_options(st, args, i) == Err::<CliSettings, CliError>(
            CliError::BadValue((i + 1) as usize),
        ),
{
    assert(args[i] =~= option_word(CliOption::NbElite));
    assert(recognized(args[i]) == Some(CliOption::NbElite));
}

/// `-nbClose` followed by an unsigned integer `v` sets `nb_close` to `v` and changes no other
/// setting; any other value is refused.
pub proof fn lemma_option_nb_close(st: CliSettings, args: Seq<Seq<u8>>, i: int)
    requires
        0 <= i,
        i + 1 < args.len(),
        args[i] == seq![45u8, 110u8, 98u8, 67u8, 108u8, 111u8, 115u8, 101u8],
    ensures
        parse_unsigned(args[i + 1], usize::MAX as int) matches Some(v) ==> parse_options(st, args, i) == parse_options(
            (CliSettings { nb_close: v as usize, ..st }),
            args,
            i + 2,
        ),
        parse_unsigned(args[i + 1], usize::MAX as int) is None ==> parse_options(st, args, i) == Err::<CliSettings, CliError>(
            CliError::BadValue((i + 1) as usize),
        ),
{
    assert(args[i] =~= option_word(CliOption::NbClose));
    assert(recognized(args[i]) == Some(CliOption::NbClose));
}

/// `-nbIterPenaltyManagement` followed by an unsigned integer `v` sets `nb_iter_penalty_management` to `v` and changes no other
/// setting; any other value is refused.
pub proof fn lemma_option_nb_iter_penalty_management(st: CliSettings, args: Seq<Seq<u8>>, i: int)
    requires
        0 <= i,
        i + 1 < args.len(),
        args[i] == seq![45u8, 110u8, 98u8, 73u8, 116u8, 101u8, 114u8, 80u8, 101u8, 110u8, 97u8, 108u8, 116u8, 121u8, 77u8, 97u8, 110u8, 97u8, 103u8, 101u8, 109u8, 101u8, 110u8, 116u8],
    ensures
        parse_unsigned(args[i + 1], usize::MAX as int) matches Some(v) ==> parse_options(st, args, i) == parse_options(
            (CliSettings { nb_iter_penalty_management: v as usize, ..st }),
            args,
            i + 2,
        ),
        parse_unsigned(args[i + 1], usize::MAX as int) is None ==> parse_options(st, args, i) == Err::<CliSettings, CliError>(
            CliError::BadValue((i + 1) as usize),
        ),
{
    assert(args[i] =~= option_word(CliOption::NbIterPenaltyManagement));
    assert(recognized(args[i]) == Some(CliOption::NbIterPenaltyManagement));
}

/// `-nbIterTraces` followed by an unsigned integer `v` sets `nb_iter_traces` to `v` and changes no other
/// setting; any other value is refused.
pub proof fn lemma_option_nb_iter_traces(st: CliSettings, args: Seq<Seq<u8>>, i: int)
    requires
        0 <= i,
        i + 1 < args.len(),
        args[i] == seq![45u8, 110u8, 98u8, 73u8, 116u8, 101u8, 114u8, 84u8, 114u8, 97u8, 99u8, 101u8, 115u8],
    ensures
        parse_unsigned(args[i + 1], usize::MAX as int) matches Some(v) ==> parse_options(st, args, i) == parse_options(
            (CliSettings { nb_iter_traces: v as usize, ..st }),
            args,
            i + 2,
        ),
        parse_unsigned(args[i + 1], usize::MAX as int) is None ==> parse_options(st, args, i) == Err::<CliSettings, CliError>(
            CliError::BadValue((i + 1) as usize),
        ),
{
    assert(args[i] =~= option_word(CliOption::NbIterTraces));
    assert(recognized(args[i]) == Some(CliOption::NbIterTraces));
}

/// `-targetFeasible` followed by a floating-point text records the position of that text in
/// `target_feasible_arg` and changes no other setting; any other value is refused.
pub proof fn lemma_option_target_feasible(st: CliSettings, args: Seq<Seq<u8>>, i: int)
    requires
        0 <= i,
        i + 1 < args.len(),
        args[i] == seq![45u8, 116u8, 97u8, 114u8, 103u8, 101u8, 116u8, 70u8, 101u8, 97u8, 115u8, 105u8, 98u8, 108u8, 101u8],
    ensures
        is_float_text(args[i + 1]) ==> parse_options(st, args, i) == parse_options(
            (CliSettings { target_feasible_arg: Some((i + 1) as usize), ..st }),
            args,
            i + 2,
        ),
        !is_float_text(args[i + 1]) ==> parse_options(st, args, i) == Err::<CliSettings, CliError>(
            CliError::BadValue((i + 1) as usize),
        ),
{
    assert(args[i] =~= option_word(CliOption::TargetFeasible));
    assert(recognized(args[i]) == Some(CliOption::TargetFeasible));
}

/// `-penaltyIncrease` followed by a floating-point text records the position of that text in
/// `penalty_increase_arg` and changes no other setting; any other value is refused.
pub proof fn lemma_option_penalty_increase(st: CliSettings, args: Seq<Seq<u8>>, i: int)
    requires
        0 <= i,
        i + 1 < args.len(),
        args[i] == seq![45u8, 112u8, 101u8, 110u8, 97u8, 108u8, 116u8, 121u8, 73u8, 110u8, 99u8, 114u8, 101u8, 97u8, 115u8, 101u8],
    ensures
        is_float_text(args[i + 1]) ==> parse_options(st, args, i) == parse_options(
            (CliSettings { penalty_increase_arg: Some((i + 1) as usize), ..st }),
            args,
            i + 2,
        ),
        !is_float_text(args[i + 1]) ==> parse_options(st, args, i) == Err::<CliSettings, CliError>(
            CliError::BadValue((i + 1) as usize),
        ),
{
    assert(args[i] =~= option_word(CliOption::PenaltyIncrease));
    assert(recognized(args[i]) == Some(CliOption::PenaltyIncrease));
}

/// `-penaltyDecrease` followed by a floating-point text records the position of that text in
/// `penalty_decrease_arg` and changes no other setting; any other value is refused.
pub proof fn lemma_option_penalty_decrease(st: CliSettings, args: Seq<Seq<u8>>, i: int)
    requires
        0 <= i,
        i + 1 < args.len(),
        args[i] == seq![45u8, 112u8, 101u8, 110u8, 97u8, 108u8, 116u8, 121u8, 68u8, 101u8, 99u8, 114u8, 101u8, 97u8, 115u8, 101u8],
    ensures
        is_float_text(args[i + 1]) ==> parse_options(st, args, i) == parse_options(
            (CliSettings { penalty_decrease_arg: Some((i + 1) as usize), ..st }),
            args,
            i + 2,
        ),
        !is_float_text(args[i + 1]) ==> parse_options(st, args, i) == Err::<CliSettings, CliError>(
            CliError::BadValue((i + 1) as usize),
        ),
{
    assert(args[i] =~= option_word(CliOption::PenaltyDecrease));
    assert(recognized(args[i]) == Some(CliOption::PenaltyDecrease));
}

} // verus!
