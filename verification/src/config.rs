//! Transition styles and the command line.
use vstd::prelude::*;

use crate::text::chars_of;

verus! {

/// How the view moves from one slide to the next.
#[derive(Debug, Clone, Copy, PartialEq, Eq, Structural)]
pub enum TransitionType {
    /// Compute-shader blur with a feedback buffer.
    Smooth,
    /// An immediate cut.
    Instant,
    /// The new slide slides in.
    Slide,
    /// Stable-fluids advection of the previous slide.
    Fluid,
}

/// The transition style that a `--transition-type` value names.
pub open spec fn transition_from_name(s: Seq<char>) -> Option<TransitionType> {
    if s == "smooth"@ {
        Some(TransitionType::Smooth)
    } else if s == "instant"@ {
        Some(TransitionType::Instant)
    } else if s == "slide"@ {
        Some(TransitionType::Slide)
    } else if s == "fluid"@ {
        Some(TransitionType::Fluid)
    } else {
        None
    }
}

/// The transition style used when the command line names none.
pub open spec fn default_transition_spec() -> TransitionType {
    TransitionType::Fluid
}

/// The transition style used when the command line names none.
pub fn default_transition_type() -> (r: TransitionType)
    ensures
        r == default_transition_spec(),
{
    TransitionType::Fluid
}

/// The transition time when the command line gives none, in milliseconds.
pub const DEFAULT_TRANSITION_DURATION_MS: u32 = 500;

/// The blur radius of smooth transitions when the command line gives none, in pixels.
pub const DEFAULT_BLUR_RADIUS: u32 = 20;

/// Whether the window keeps redrawing while no transition runs: the
/// feedback-based styles animate continuously.
pub open spec fn redraws_while_idle_spec(t: TransitionType) -> bool {
    t == TransitionType::Smooth || t == TransitionType::Fluid
}

/// Whether the window keeps redrawing while no transition runs.
pub fn redraws_while_idle(t: TransitionType) -> (r: bool)
    ensures
        r == redraws_while_idle_spec(t),
{
    match t {
        TransitionType::Smooth | TransitionType::Fluid => true,
        _ => false,
    }
}

/// Whether frames are composed through the feedback buffer (smooth and fluid)
/// rather than drawn directly.
pub fn uses_feedback(t: TransitionType) -> (r: bool)
    ensures
        r == (t == TransitionType::Smooth || t == TransitionType::Fluid),
{
    redraws_while_idle(t)
}

/// Options for showing a deck, as the command line gives them. The numeric
/// options hold the text of the last value given, which reads as a number.
pub struct RunOptions {
    pub slides_path: String,
    pub transition_type: TransitionType,
    pub transition_duration: Option<String>,
    pub blur_radius: Option<String>,
}

/// What the command line asks for.
pub enum Command {
    /// Print the usage text (no deck given, or `--help` anywhere).
    ShowUsage,
    /// `init` without a path.
    InitMissingPath,
    /// Create the example deck at `path`.
    Init { path: String },
    /// `--transition-type` without a known style after it.
    InvalidTransitionType,
    /// A numeric option as the last argument.
    MissingValue,
    /// A numeric option followed by text that is not a number.
    InvalidNumber,
    /// An argument that is no known option.
    UnknownOption { option: String },
    /// Show the deck with these options.
    Run(RunOptions),
}

/// The value of [`RunOptions`].
pub struct RunView {
    pub slides_path: Seq<char>,
    pub transition_type: TransitionType,
    pub transition_duration: Option<Seq<char>>,
    pub blur_radius: Option<Seq<char>>,
}

/// The value of a [`Command`].
pub enum CommandView {
    ShowUsage,
    InitMissingPath,
    Init(Seq<char>),
    InvalidTransitionType,
    MissingValue,
    InvalidNumber,
    UnknownOption(Seq<char>),
    Run(RunView),
}

pub open spec fn opt_text(o: Option<String>) -> Option<Seq<char>> {
    match o {
        Some(s) => Some(s@),
        None => None,
    }
}

impl View for RunOptions {
    type V = RunView;

    open spec fn view(&self) -> RunView {
        RunView {
            slides_path: self.slides_path@,
            transition_type: self.transition_type,
            transition_duration: opt_text(self.transition_duration),
            blur_radius: opt_text(self.blur_radius),
        }
    }
}

impl View for Command {
    type V = CommandView;

    open spec fn view(&self) -> CommandView {
        match self {
            Command::ShowUsage => CommandView::ShowUsage,
            Command::InitMissingPath => CommandView::InitMissingPath,
            Command::Init { path } => CommandView::Init(path@),
            Command::InvalidTransitionType => CommandView::InvalidTransitionType,
            Command::MissingValue => CommandView::MissingValue,
            Command::InvalidNumber => CommandView::InvalidNumber,
            Command::UnknownOption { option } => CommandView::UnknownOption(option@),
            Command::Run(o) => CommandView::Run(o@),
        }
    }
}

/// The options from argument `i` on, read left to right, the later of two
/// values for one option winning.
pub open spec fn options_spec(args: Seq<Seq<char>>, numeric: Seq<bool>, i: int, acc: RunView) -> CommandView
    decreases args.len() - i,
{
    if i >= args.len() || i < 0 {
        CommandView::Run(acc)
    } else if args[i] == "--transition-type"@ {
        if i + 1 < args.len() && transition_from_name(args[i + 1]) is Some {
            options_spec(
                args,
                numeric,
                i + 2,
                RunView { transition_type: transition_from_name(args[i + 1])->0, ..acc },
            )
        } else {
            CommandView::InvalidTransitionType
        }
    } else if args[i] == "--transition-duration"@ {
        if i + 1 >= args.len() {
            CommandView::MissingValue
        } else if !numeric[i + 1] {
            CommandView::InvalidNumber
        } else {
            options_spec(
                args,
                numeric,
                i + 2,
                RunView { transition_duration: Some(args[i + 1]), ..acc },
            )
        }
    } else if args[i] == "--blur-radius"@ {
        if i + 1 >= args.len() {
            CommandView::MissingValue
        } else if !numeric[i + 1] {
            CommandView::InvalidNumber
        } else {
            options_spec(args, numeric, i + 2, RunView { blur_radius: Some(args[i + 1]), ..acc })
        }
    } else {
        CommandView::UnknownOption(args[i])
    }
}

/// What the argument list asks for. `numeric[i]` tells whether `args[i]`
/// reads as a number.
pub open spec fn parse_args_spec(args: Seq<Seq<char>>, numeric: Seq<bool>) -> CommandView {
    if args.len() < 2 || args.contains("--help"@) {
        CommandView::ShowUsage
    } else if args[1] == "init"@ {
        if args.len() > 2 {
            CommandView::Init(args[2])
        } else {
            CommandView::InitMissingPath
        }
    } else {
        options_spec(
            args,
            numeric,
            2,
            RunView {
                slides_path: args[1],
                transition_type: default_transition_spec(),
                transition_duration: None,
                blur_radius: None,
            },
        )
    }
}

/// The texts of the arguments.
pub open spec fn arg_texts(args: Seq<String>) -> Seq<Seq<char>> {
    args.map_values(|a: String| a@)
}

/// Whether the characters of `v` are those of `lit`.
fn is_literal(v: &Vec<char>, lit: &str) -> (r: bool)
    ensures
        r == (v@ == lit@),
{
    let l = chars_of(lit);
    if v.len() != l.len() {
        return false;
    }
    let mut i: usize = 0;
    while i < v.len()
        invariant
            0 <= i <= v.len(),
            v.len() == l.len(),
            l@ == lit@,
            forall|j: int| 0 <= j < i ==> v@[j] == l@[j],
        decreases v.len() - i,
    {
        if v[i] != l[i] {
            return false;
        }
        i += 1;
    }
    assert(v@ =~= l@);
    true
}

/// The transition style that a `--transition-type` value names.
pub fn transition_type_from_name(name: &Vec<char>) -> (r: Option<TransitionType>)
    ensures
        r == transition_from_name(name@),
{
    if is_literal(name, "smooth") {
        Some(TransitionType::Smooth)
    } else if is_literal(name, "instant") {
        Some(TransitionType::Instant)
    } else if is_literal(name, "slide") {
        Some(TransitionType::Slide)
    } else if is_literal(name, "fluid") {
        Some(TransitionType::Fluid)
    } else {
        None
    }
}

/// Reads the program's argument list (`args[0]` is the program's name):
/// `<slides-folder> [--transition-type <type>] [--transition-duration <sec>]
/// [--blur-radius <px>]`, or `init <path>`, or `--help`. `numeric[i]` tells
/// whether `args[i]` reads as a number; the caller reads the numbers.
pub fn parse_args(args: &Vec<String>, numeric: &Vec<bool>) -> (r: Command)
    requires
        numeric.len() == args.len(),
    ensures
        r@ == parse_args_spec(arg_texts(args@), numeric@),
{
    let ghost av = arg_texts(args@);
    let mut chars: Vec<Vec<char>> = Vec::new();
    let mut i: usize = 0;
    while i < args.len()
        invariant
            0 <= i <= args.len(),
            av == arg_texts(args@),
            chars.len() == i,
            forall|j: int| 0 <= j < i ==> #[trigger] chars[j]@ == av[j],
        decreases args.len() - i,
    {
        chars.push(chars_of(args[i].as_str()));
        i += 1;
    }
    let mut k: usize = 0;
    while k < chars.len()
        invariant
            0 <= k <= chars.len(),
            av == arg_texts(args@),
            chars.len() == av.len(),
            forall|j: int| 0 <= j < chars.len() ==> #[trigger] chars[j]@ == av[j],
            forall|j: int| 0 <= j < k ==> av[j] != "--help"@,
        decreases chars.len() - k,
    {
        if is_literal(&chars[k], "--help") {
            assert(av[k as int] == "--help"@);
            assert(av.contains("--help"@));
            assert(parse_args_spec(av, numeric@) == CommandView::ShowUsage);
            return Command::ShowUsage;
        }
        k += 1;
    }
    if args.len() < 2 {
        return Command::ShowUsage;
    }
    if is_literal(&chars[1], "init") {
        if args.len() > 2 {
            return Command::Init { path: args[2].clone() };
        } else {
            return Command::InitMissingPath;
        }
    }
    let mut opts = RunOptions {
        slides_path: args[1].clone(),
        transition_type: default_transition_type(),
        transition_duration: None,
        blur_radius: None,
    };
    let ghost start = RunView {
        slides_path: av[1],
        transition_type: default_transition_spec(),
        transition_duration: None,
        blur_radius: None,
    };
    assert(opts@ == start);
    assert(!av.contains("--help"@));
    assert(av[1] != "init"@);
    assert(parse_args_spec(av, numeric@) == options_spec(av, numeric@, 2, start));
    let mut i: usize = 2;
    while i < args.len()
        invariant
            2 <= i,
            chars.len() == av.len(),
            av.len() == args.len(),
            numeric.len() == args.len(),
            av == arg_texts(args@),
            forall|j: int| 0 <= j < chars.len() ==> #[trigger] chars[j]@ == av[j],
            options_spec(av, numeric@, i as int, opts@) == options_spec(av, numeric@, 2, start),
            parse_args_spec(av, numeric@) == options_spec(av, numeric@, 2, start),
        decreases args.len() - i,
    {
        assert(chars[i as int]@ == av[i as int]);
        if i + 1 < args.len() {
            assert(chars[i + 1]@ == av[i + 1]);
        }
        if is_literal(&chars[i], "--transition-type") {
            if i + 1 < args.len() {
                match transition_type_from_name(&chars[i + 1]) {
                    Some(t) => {
                        opts.transition_type = t;
                    },
                    None => {
                        return Command::InvalidTransitionType;
                    },
                }
            } else {
                return Command::InvalidTransitionType;
            }
        } else if is_literal(&chars[i], "--transition-duration") {
            if i + 1 >= args.len() {
                return Command::MissingValue;
            }
            if !numeric[i + 1] {
                return Command::InvalidNumber;
            }
            opts.transition_duration = Some(args[i + 1].clone());
        } else if is_literal(&chars[i], "--blur-radius") {
            if i + 1 >= args.len() {
                return Command::MissingValue;
            }
            if !numeric[i + 1] {
                return Command::InvalidNumber;
            }
            opts.blur_radius = Some(args[i + 1].clone());
        } else {
            return Command::UnknownOption { option: args[i].clone() };
        }
        i += 2;
    }
    Command::Run(opts)
}

} // verus!

verus! {

/// Reading the options goes through `args` and then through what follows as
/// if it had started there with what it found in `args`.
proof fn lemma_options_append(
    args: Seq<Seq<char>>,
    numeric: Seq<bool>,
    ext: Seq<Seq<char>>,
    next: Seq<bool>,
    i: int,
    acc: RunView,
)
    requires
        numeric.len() == args.len(),
        next.len() == ext.len(),
        0 <= i <= args.len(),
        options_spec(args, numeric, i, acc) is Run,
    ensures
        options_spec(args + ext, numeric + next, i, acc) == options_spec(
            args + ext,
            numeric + next,
            args.len() as int,
            options_spec(args, numeric, i, acc)->Run_0,
        ),
    decreases args.len() - i,
{
    let all = args + ext;
    let nums = numeric + next;
    if i < args.len() {
        assert(all[i] == args[i]);
        assert(i + 1 < args.len());
        assert(all[i + 1] == args[i + 1]);
        assert(nums[i + 1] == numeric[i + 1]);
        lemma_options_append(args, numeric, ext, next, i + 2, if args[i] == "--transition-type"@ {
            RunView { transition_type: transition_from_name(args[i + 1])->0, ..acc }
        } else if args[i] == "--transition-duration"@ {
            RunView { transition_duration: Some(args[i + 1]), ..acc }
        } else {
            RunView { blur_radius: Some(args[i + 1]), ..acc }
        });
    }
}

/// The options that the command line gives for showing a deck.
proof fn lemma_append_option(
    args: Seq<Seq<char>>,
    numeric: Seq<bool>,
    flag: Seq<char>,
    value: Seq<char>,
    value_numeric: bool,
)
    requires
        numeric.len() == args.len(),
        parse_args_spec(args, numeric) is Run,
        flag != "--help"@,
        value != "--help"@,
    ensures
        parse_args_spec(args + seq![flag, value], numeric + seq![false, value_numeric])
            == options_spec(
            args + seq![flag, value],
            numeric + seq![false, value_numeric],
            args.len() as int,
            parse_args_spec(args, numeric)->Run_0,
        ),
{
    let all = args + seq![flag, value];
    let nums = numeric + seq![false, value_numeric];
    assert(args.len() >= 2);
    assert(!args.contains("--help"@));
    assert(!all.contains("--help"@)) by {
        if all.contains("--help"@) {
            let j = choose|j: int| 0 <= j < all.len() && all[j] == "--help"@;
            if j < args.len() {
                assert(args[j] == all[j]);
            }
        }
    }
    assert(all[1] == args[1]);
    assert(all[2] == args[2] || args.len() == 2);
    lemma_options_append(
        args,
        numeric,
        seq![flag, value],
        seq![false, value_numeric],
        2,
        RunView {
            slides_path: args[1],
            transition_type: default_transition_spec(),
            transition_duration: None,
            blur_radius: None,
        },
    );
}

/// The options are independent of one another and of their order, the last
/// value of each winning: adding `--transition-type t` at the end of a command
/// line that shows a deck changes only the transition style, to the one `t`
/// names; the deck, the duration and the blur radius stay as they were.
pub proof fn lemma_transition_type_option(
    args: Seq<Seq<char>>,
    numeric: Seq<bool>,
    t: Seq<char>,
    t_numeric: bool,
)
    requires
        numeric.len() == args.len(),
        parse_args_spec(args, numeric) is Run,
        transition_from_name(t) is Some,
    ensures
        ({
            let r = parse_args_spec(args, numeric)->Run_0;
            parse_args_spec(args + seq!["--transition-type"@, t], numeric + seq![false, t_numeric])
                == CommandView::Run(
                RunView {
                    slides_path: r.slides_path,
                    transition_type: transition_from_name(t)->0,
                    transition_duration: r.transition_duration,
                    blur_radius: r.blur_radius,
                },
            )
        }),
{
    reveal_strlit("--help");
    reveal_strlit("--transition-type");
    reveal_strlit("smooth");
    reveal_strlit("instant");
    reveal_strlit("slide");
    reveal_strlit("fluid");
    assert(t != "--help"@) by {
        if t == "smooth"@ {
            assert(t[0] != "--help"@[0]);
        } else {
            assert(t.len() != "--help"@.len());
        }
    }
    assert("--transition-type"@ != "--help"@) by {
        assert("--help"@.len() != "--transition-type"@.len());
    }
    lemma_append_option(args, numeric, "--transition-type"@, t, t_numeric);
    let r = parse_args_spec(args, numeric)->Run_0;
    let all = args + seq!["--transition-type"@, t];
    let nums = numeric + seq![false, t_numeric];
    let n = args.len() as int;
    assert(all[n] == "--transition-type"@);
    assert(all[n + 1] == t);
    let r2 = RunView { transition_type: transition_from_name(t)->0, ..r };
    assert(options_spec(all, nums, n + 2, r2) == CommandView::Run(r2));
    assert(options_spec(all, nums, n, r) == options_spec(all, nums, n + 2, r2));
}

/// Adding `--transition-duration v`, with `v` a number, at the end of a command
/// line that shows a deck changes only the duration, to `v`; the deck, the
/// transition style and the blur radius stay as they were.
pub proof fn lemma_transition_duration_option(args: Seq<Seq<char>>, numeric: Seq<bool>, v: Seq<char>)
    requires
        numeric.len() == args.len(),
        parse_args_spec(args, numeric) is Run,
        v != "--help"@,
    ensures
        ({
            let r = parse_args_spec(args, numeric)->Run_0;
            parse_args_spec(args + seq!["--transition-duration"@, v], numeric + seq![false, true])
                == CommandView::Run(
                RunView {
                    slides_path: r.slides_path,
                    transition_type: r.transition_type,
                    transition_duration: Some(v),
                    blur_radius: r.blur_radius,
                },
            )
        }),
{
    reveal_strlit("--help");
    reveal_strlit("--transition-duration");
    reveal_strlit("--transition-type");
    assert("--transition-duration"@ != "--help"@) by {
        assert("--help"@.len() != "--transition-duration"@.len());
    }
    assert("--transition-duration"@ != "--transition-type"@) by {
        assert("--transition-duration"@.len() != "--transition-type"@.len());
    }
    lemma_append_option(args, numeric, "--transition-duration"@, v, true);
    let r = parse_args_spec(args, numeric)->Run_0;
    let all = args + seq!["--transition-duration"@, v];
    let nums = numeric + seq![false, true];
    let n = args.len() as int;
    assert(all[n] == "--transition-duration"@);
    assert(all[n + 1] == v);
    assert(nums[n + 1]);
    let r2 = RunView { transition_duration: Some(v), ..r };
    assert(options_spec(all, nums, n + 2, r2) == CommandView::Run(r2));
    assert(options_spec(all, nums, n, r) == options_spec(all, nums, n + 2, r2));
}

/// Adding `--blur-radius v`, with `v` a number, at the end of a command line
/// that shows a deck changes only the blur radius, to `v`; the deck, the
/// transition style and the duration stay as they were.
pub proof fn lemma_blur_radius_option(args: Seq<Seq<char>>, numeric: Seq<bool>, v: Seq<char>)
    requires
        numeric.len() == args.len(),
        parse_args_spec(args, numeric) is Run,
        v != "--help"@,
    ensures
        ({
            let r = parse_args_spec(args, numeric)->Run_0;
            parse_args_spec(args + seq!["--blur-radius"@, v], numeric + seq![false, true])
                == CommandView::Run(
                RunView {
                    slides_path: r.slides_path,
                    transition_type: r.transition_type,
                    transition_duration: r.transition_duration,
                    blur_radius: Some(v),
                },
            )
        }),
{
    reveal_strlit("--help");
    reveal_strlit("--blur-radius");
    reveal_strlit("--transition-duration");
    reveal_strlit("--transition-type");
    assert("--blur-radius"@ != "--help"@) by {
        assert("--help"@.len() != "--blur-radius"@.len());
    }
    assert("--blur-radius"@ != "--transition-type"@) by {
        assert("--blur-radius"@.len() != "--transition-type"@.len());
    }
    assert("--blur-radius"@ != "--transition-duration"@) by {
        assert("--blur-radius"@.len() != "--transition-duration"@.len());
    }
    lemma_append_option(args, numeric, "--blur-radius"@, v, true);
    let r = parse_args_spec(args, numeric)->Run_0;
    let all = args + seq!["--blur-radius"@, v];
    let nums = numeric + seq![false, true];
    let n = args.len() as int;
    assert(all[n] == "--blur-radius"@);
    assert(all[n + 1] == v);
    assert(nums[n + 1]);
    let r2 = RunView { blur_radius: Some(v), ..r };
    assert(options_spec(all, nums, n + 2, r2) == CommandView::Run(r2));
    assert(options_spec(all, nums, n, r) == options_spec(all, nums, n + 2, r2));
}

} // verus!
