//! The command line:
//!
//! ```text
//! vyges-vt-swap run   JOB  [-o OUT] [--json] [--fail-on-violation]
//! vyges-vt-swap check JOB
//! vyges-vt-swap demo
//! ```
//!
//! Common flags: -h/--help, -V/--version, -q/--quiet, -v/--verbose.
use vstd::prelude::*;

use crate::text::{str_eq, strs};

verus! {

/// The parsed command line.
pub struct Cli {
    /// The arguments that are not flags (the command, then its operands), in order.
    pub positionals: Vec<String>,
    /// The argument after `-o` (the last `-o` wins; `None` when `-o` ends the line).
    pub out: Option<String>,
    pub json: bool,
    pub fail_on_violation: bool,
    pub quiet: bool,
    pub verbose: bool,
    pub help: bool,
    pub version: bool,
    pub bug_report: bool,
    pub feature_request: bool,
    pub sponsor: bool,
    pub star: bool,
}

/// The characters of a [`Cli`].
pub struct CliView {
    pub positionals: Seq<Seq<char>>,
    pub out: Option<Seq<char>>,
    pub json: bool,
    pub fail_on_violation: bool,
    pub quiet: bool,
    pub verbose: bool,
    pub help: bool,
    pub version: bool,
    pub bug_report: bool,
    pub feature_request: bool,
    pub sponsor: bool,
    pub star: bool,
}

impl View for Cli {
    type V = CliView;

    open spec fn view(&self) -> CliView {
        CliView {
            positionals: strs(self.positionals@),
            out: match self.out {
                Some(o) => Some(o@),
                None => None,
            },
            json: self.json,
            fail_on_violation: self.fail_on_violation,
            quiet: self.quiet,
            verbose: self.verbose,
            help: self.help,
            version: self.version,
            bug_report: self.bug_report,
            feature_request: self.feature_request,
            sponsor: self.sponsor,
            star: self.star,
        }
    }
}

/// No flag given and no operand.
pub open spec fn empty_cli() -> CliView {
    CliView {
        positionals: Seq::empty(),
        out: None,
        json: false,
        fail_on_violation: false,
        quiet: false,
        verbose: false,
        help: false,
        version: false,
        bug_report: false,
        feature_request: false,
        sponsor: false,
        star: false,
    }
}

impl Default for Cli {
    fn default() -> (c: Cli)
        ensures
            c@ == empty_cli(),
    {
        let c = Cli {
            positionals: Vec::new(),
            out: None,
            json: false,
            fail_on_violation: false,
            quiet: false,
            verbose: false,
            help: false,
            version: false,
            bug_report: false,
            feature_request: false,
            sponsor: false,
            star: false,
        };
        assert(strs(c.positionals@) =~= Seq::<Seq<char>>::empty());
        c
    }
}

/// What one command-line word is.
#[derive(Debug, Clone, Copy, PartialEq, Eq, Structural)]
pub enum Word {
    /// `-o`: the next word names the output file.
    Out,
    Json,
    FailOnViolation,
    Quiet,
    Verbose,
    Help,
    Version,
    BugReport,
    FeatureRequest,
    Sponsor,
    Star,
    /// Anything else: a command or an operand.
    Positional,
}

/// What the command-line word `a` is.
pub open spec fn word_kind(a: Seq<char>) -> Word {
    if a == "-o"@ {
        Word::Out
    } else if a == "--json"@ {
        Word::Json
    } else if a == "--fail-on-violation"@ {
        Word::FailOnViolation
    } else if a == "-q"@ || a == "--quiet"@ {
        Word::Quiet
    } else if a == "-v"@ || a == "--verbose"@ {
        Word::Verbose
    } else if a == "-h"@ || a == "--help"@ {
        Word::Help
    } else if a == "-V"@ || a == "--version"@ {
        Word::Version
    } else if a == "--bug-report"@ {
        Word::BugReport
    } else if a == "--feature-request"@ {
        Word::FeatureRequest
    } else if a == "--sponsor"@ {
        Word::Sponsor
    } else if a == "--star"@ {
        Word::Star
    } else {
        Word::Positional
    }
}

/// What word `i` (`0 <= i < args.len()`) does to the command line `c` read so far, and where
/// reading goes on: `-o` takes the next word (or nothing at the end) and skips it; a flag
/// sets its switch; any other word is appended to the positionals.
pub open spec fn read_word(args: Seq<Seq<char>>, i: int, c: CliView) -> (int, CliView) {
    read_as(word_kind(args[i]), args, i, c)
}

/// What word `i`, being `w`, does to the command line `c`, and where reading goes on.
pub open spec fn read_as(w: Word, args: Seq<Seq<char>>, i: int, c: CliView) -> (int, CliView) {
    match w {
        Word::Out => if i + 1 < args.len() {
            (i + 2, CliView { out: Some(args[i + 1]), ..c })
        } else {
            (i + 1, CliView { out: None, ..c })
        },
        Word::Json => (i + 1, CliView { json: true, ..c }),
        Word::FailOnViolation => (i + 1, CliView { fail_on_violation: true, ..c }),
        Word::Quiet => (i + 1, CliView { quiet: true, ..c }),
        Word::Verbose => (i + 1, CliView { verbose: true, ..c }),
        Word::Help => (i + 1, CliView { help: true, ..c }),
        Word::Version => (i + 1, CliView { version: true, ..c }),
        Word::BugReport => (i + 1, CliView { bug_report: true, ..c }),
        Word::FeatureRequest => (i + 1, CliView { feature_request: true, ..c }),
        Word::Sponsor => (i + 1, CliView { sponsor: true, ..c }),
        Word::Star => (i + 1, CliView { star: true, ..c }),
        Word::Positional => (i + 1, CliView { positionals: c.positionals.push(args[i]), ..c }),
    }
}

/// The command line read from word `i` on, starting from what the words before gave (`c`).
pub open spec fn read_from(args: Seq<Seq<char>>, i: int, c: CliView) -> CliView
    decreases args.len() - i,
{
    if i < 0 || i >= args.len() {
        c
    } else {
        let (j, d) = read_word(args, i, c);
        if i < j {
            read_from(args, j, d)
        } else {
            d
        }
    }
}

/// A switch: a word that sets a flag and takes no operand.
pub open spec fn is_switch(w: Word) -> bool {
    w != Word::Out && w != Word::Positional
}

/// Word `j` of `a` and of `b` read alike: the same word, or two spellings of one switch that
/// do not stand right after `-o` (where a word is the output file, whatever it says).
pub open spec fn reads_alike(a: Seq<Seq<char>>, b: Seq<Seq<char>>, j: int) -> bool {
    ||| a[j] == b[j]
    ||| {
        &&& word_kind(a[j]) == word_kind(b[j])
        &&& is_switch(word_kind(a[j]))
        &&& (j == 0 || word_kind(a[j - 1]) != Word::Out)
    }
}

proof fn lemma_read_alike(a: Seq<Seq<char>>, b: Seq<Seq<char>>, i: int, c: CliView)
    requires
        a.len() == b.len(),
        forall|j: int| 0 <= j < a.len() ==> #[trigger] reads_alike(a, b, j),
    ensures
        read_from(a, i, c) == read_from(b, i, c),
    decreases a.len() - i,
{
    if 0 <= i < a.len() {
        assert(reads_alike(a, b, i));
        if i + 1 < a.len() {
            assert(reads_alike(a, b, i + 1));
        }
        assert(read_word(a, i, c) == read_word(b, i, c));
        let (j, d) = read_word(a, i, c);
        if i < j {
            lemma_read_alike(a, b, j, d);
        }
    }
}

/// The short and long spellings of a switch read alike (`-q`/`--quiet`, `-v`/`--verbose`,
/// `-h`/`--help`, `-V`/`--version`): two command lines whose words differ only in how their
/// switches are spelt, none of them right after `-o`, give the same command line.
pub proof fn lemma_switch_spellings(a: Seq<Seq<char>>, b: Seq<Seq<char>>)
    requires
        a.len() == b.len(),
        forall|j: int| 0 <= j < a.len() ==> #[trigger] reads_alike(a, b, j),
    ensures
        read_from(a, 0, empty_cli()) == read_from(b, 0, empty_cli()),
{
    lemma_read_alike(a, b, 0, empty_cli());
}

/// What the switch `w` does to a command line: it sets its flag (another word does nothing
/// here).
pub open spec fn with_switch(w: Word, c: CliView) -> CliView {
    match w {
        Word::Json => CliView { json: true, ..c },
        Word::FailOnViolation => CliView { fail_on_violation: true, ..c },
        Word::Quiet => CliView { quiet: true, ..c },
        Word::Verbose => CliView { verbose: true, ..c },
        Word::Help => CliView { help: true, ..c },
        Word::Version => CliView { version: true, ..c },
        Word::BugReport => CliView { bug_report: true, ..c },
        Word::FeatureRequest => CliView { feature_request: true, ..c },
        Word::Sponsor => CliView { sponsor: true, ..c },
        Word::Star => CliView { star: true, ..c },
        _ => c,
    }
}

/// Word by word, field by field: what reading a word does to a command line.
proof fn lemma_read_as_fields(x: Word, args: Seq<Seq<char>>, i: int, c: CliView)
    ensures
        read_as(x, args, i, c).0 == (if x == Word::Out && i + 1 < args.len() {
            i + 2
        } else {
            i + 1
        }),
        read_as(x, args, i, c).1.json == (c.json || x == Word::Json),
        read_as(x, args, i, c).1.fail_on_violation == (c.fail_on_violation || x == Word::FailOnViolation),
        read_as(x, args, i, c).1.quiet == (c.quiet || x == Word::Quiet),
        read_as(x, args, i, c).1.verbose == (c.verbose || x == Word::Verbose),
        read_as(x, args, i, c).1.help == (c.help || x == Word::Help),
        read_as(x, args, i, c).1.version == (c.version || x == Word::Version),
        read_as(x, args, i, c).1.bug_report == (c.bug_report || x == Word::BugReport),
        read_as(x, args, i, c).1.feature_request == (c.feature_request || x == Word::FeatureRequest),
        read_as(x, args, i, c).1.sponsor == (c.sponsor || x == Word::Sponsor),
        read_as(x, args, i, c).1.star == (c.star || x == Word::Star),
        read_as(x, args, i, c).1.out == (if x == Word::Out {
            if i + 1 < args.len() {
                Some(args[i + 1])
            } else {
                None
            }
        } else {
            c.out
        }),
        read_as(x, args, i, c).1.positionals == (if x == Word::Positional {
            c.positionals.push(args[i])
        } else {
            c.positionals
        }),
{
}

/// Field by field: what setting a switch's flag does to a command line.
proof fn lemma_with_switch_fields(w: Word, c: CliView)
    ensures
        with_switch(w, c).json == (c.json || w == Word::Json),
        with_switch(w, c).fail_on_violation == (c.fail_on_violation || w == Word::FailOnViolation),
        with_switch(w, c).quiet == (c.quiet || w == Word::Quiet),
        with_switch(w, c).verbose == (c.verbose || w == Word::Verbose),
        with_switch(w, c).help == (c.help || w == Word::Help),
        with_switch(w, c).version == (c.version || w == Word::Version),
        with_switch(w, c).bug_report == (c.bug_report || w == Word::BugReport),
        with_switch(w, c).feature_request == (c.feature_request || w == Word::FeatureRequest),
        with_switch(w, c).sponsor == (c.sponsor || w == Word::Sponsor),
        with_switch(w, c).star == (c.star || w == Word::Star),
        with_switch(w, c).out == c.out,
        with_switch(w, c).positionals == c.positionals,
{
}

/// Setting a flag before a word is read or after gives the same.
#[verifier::rlimit(40)]
proof fn lemma_switch_commutes(x: Word, w: Word, args: Seq<Seq<char>>, i: int, c: CliView)
    ensures
        read_as(x, args, i, with_switch(w, c)).0 == read_as(x, args, i, c).0,
        read_as(x, args, i, with_switch(w, c)).1 == with_switch(w, read_as(x, args, i, c).1),
{
    lemma_read_as_fields(x, args, i, c);
    lemma_read_as_fields(x, args, i, with_switch(w, c));
    lemma_with_switch_fields(w, c);
    lemma_with_switch_fields(w, read_as(x, args, i, c).1);
    let l = read_as(x, args, i, with_switch(w, c)).1;
    let r = with_switch(w, read_as(x, args, i, c).1);
    assert(l.positionals == r.positionals && l.out == r.out);
    assert(l.json == r.json && l.fail_on_violation == r.fail_on_violation && l.quiet == r.quiet
        && l.verbose == r.verbose && l.help == r.help && l.version == r.version);
    assert(l.bug_report == r.bug_report && l.feature_request == r.feature_request && l.sponsor
        == r.sponsor && l.star == r.star);
}

/// Reading the words of `a` from `p` on is reading those of `a` with `w` put in at `k`
/// (`k <= p`) from `p + 1` on.
proof fn lemma_read_shifted(a: Seq<Seq<char>>, k: int, w: Seq<char>, p: int, d: CliView)
    requires
        0 <= k <= p,
        k <= a.len(),
    ensures
        read_from(a.insert(k, w), p + 1, d) == read_from(a, p, d),
    decreases a.len() - p,
{
    let b = a.insert(k, w);
    if p < a.len() {
        assert(b[p + 1] == a[p]);
        if p + 1 < a.len() {
            assert(b[p + 2] == a[p + 1]);
        }
        assert(read_word(b, p + 1, d).1 == read_word(a, p, d).1);
        assert(read_word(b, p + 1, d).0 == read_word(a, p, d).0 + 1);
        let (j, e) = read_word(a, p, d);
        lemma_read_shifted(a, k, w, j, e);
    }
}

/// Reading from `i` (`i <= k`) with the switch `w` put in at `k`, where it does not stand
/// right after `-o`, is reading without it and then setting its flag.
proof fn lemma_switch_put_in(a: Seq<Seq<char>>, k: int, w: Seq<char>, i: int, c: CliView)
    requires
        0 <= i <= k <= a.len(),
        is_switch(word_kind(w)),
        k == 0 || word_kind(a[k - 1]) != Word::Out,
    ensures
        read_from(a.insert(k, w), i, c) == with_switch(word_kind(w), read_from(a, i, c)),
    decreases a.len() - i,
{
    let b = a.insert(k, w);
    let s = word_kind(w);
    if i == k {
        assert(b[k] == w);
        lemma_read_shifted(a, k, w, k, with_switch(s, c));
        lemma_switch_after(a, k, s, c);
    } else {
        assert(b[i] == a[i]);
        if i + 1 < k {
            assert(b[i + 1] == a[i + 1]);
        }
        assert(read_word(b, i, c) == read_word(a, i, c));
        let (j, d) = read_word(a, i, c);
        lemma_switch_put_in(a, k, w, j, d);
    }
}

/// Reading from `i` after setting a flag is setting it after reading.
proof fn lemma_switch_after(a: Seq<Seq<char>>, i: int, s: Word, c: CliView)
    ensures
        read_from(a, i, with_switch(s, c)) == with_switch(s, read_from(a, i, c)),
    decreases a.len() - i,
{
    if 0 <= i < a.len() {
        lemma_switch_commutes(word_kind(a[i]), s, a, i, c);
        let (j, d) = read_word(a, i, c);
        lemma_switch_after(a, j, s, d);
    }
}

/// A switch word put anywhere in a command line, but right after `-o`, sets its flag and
/// changes nothing else.
pub proof fn lemma_switch_anywhere(a: Seq<Seq<char>>, k: int, w: Seq<char>)
    requires
        0 <= k <= a.len(),
        is_switch(word_kind(w)),
        k == 0 || word_kind(a[k - 1]) != Word::Out,
    ensures
        read_from(a.insert(k, w), 0, empty_cli()) == with_switch(
            word_kind(w),
            read_from(a, 0, empty_cli()),
        ),
{
    lemma_switch_put_in(a, k, w, 0, empty_cli());
}

/// Where a switch stands does not matter, nor whether it is given twice: put in at `k1` or
/// at `k2` (neither right after `-o`), or put in at `k1` and again at `k2`, it gives the same
/// command line.
pub proof fn lemma_switch_moved_or_repeated(a: Seq<Seq<char>>, k1: int, k2: int, w: Seq<char>)
    requires
        0 <= k1 <= a.len(),
        0 <= k2 <= a.len(),
        is_switch(word_kind(w)),
        k1 == 0 || word_kind(a[k1 - 1]) != Word::Out,
        k2 == 0 || word_kind(a[k2 - 1]) != Word::Out,
    ensures
        read_from(a.insert(k1, w), 0, empty_cli()) == read_from(a.insert(k2, w), 0, empty_cli()),
        k2 == 0 || word_kind(a.insert(k1, w)[k2 - 1]) != Word::Out ==> read_from(
            a.insert(k1, w).insert(k2, w),
            0,
            empty_cli(),
        ) == read_from(a.insert(k1, w), 0, empty_cli()),
{
    lemma_switch_anywhere(a, k1, w);
    lemma_switch_anywhere(a, k2, w);
    let b = a.insert(k1, w);
    if k2 == 0 || word_kind(b[k2 - 1]) != Word::Out {
        lemma_switch_anywhere(b, k2, w);
    }
}

/// The spellings that name one switch.
pub proof fn lemma_switch_words()
    ensures
        word_kind("-q"@) == Word::Quiet && word_kind("--quiet"@) == Word::Quiet,
        word_kind("-v"@) == Word::Verbose && word_kind("--verbose"@) == Word::Verbose,
        word_kind("-h"@) == Word::Help && word_kind("--help"@) == Word::Help,
        word_kind("-V"@) == Word::Version && word_kind("--version"@) == Word::Version,
{
    reveal_strlit("-o");
    reveal_strlit("--json");
    reveal_strlit("--fail-on-violation");
    reveal_strlit("-q");
    reveal_strlit("--quiet");
    reveal_strlit("-v");
    reveal_strlit("--verbose");
    reveal_strlit("-h");
    reveal_strlit("--help");
    reveal_strlit("-V");
    reveal_strlit("--version");
    assert("-q"@[1] != "-o"@[1] && "-v"@[1] != "-o"@[1] && "-h"@[1] != "-o"@[1] && "-V"@[1]
        != "-o"@[1]);
    assert("-v"@[1] != "-q"@[1] && "-h"@[1] != "-q"@[1] && "-h"@[1] != "-v"@[1] && "-V"@[1]
        != "-q"@[1] && "-V"@[1] != "-v"@[1] && "-V"@[1] != "-h"@[1]);
    assert("--help"@[2] != "--json"@[2]);
    assert("--verbose"@[6] != "--version"@[6]);
    assert("--quiet"@.len() != "--fail-on-violation"@.len());
    assert("--verbose"@.len() != "--fail-on-violation"@.len());
    assert("--help"@.len() != "--fail-on-violation"@.len());
    assert("--version"@.len() != "--fail-on-violation"@.len());
}

/// What the command-line word `a` is, as [`word_kind`] states.
pub fn word_of(a: &str) -> (w: Word)
    ensures
        w == word_kind(a@),
{
    if str_eq(a, "-o") {
        Word::Out
    } else if str_eq(a, "--json") {
        Word::Json
    } else if str_eq(a, "--fail-on-violation") {
        Word::FailOnViolation
    } else if str_eq(a, "-q") || str_eq(a, "--quiet") {
        Word::Quiet
    } else if str_eq(a, "-v") || str_eq(a, "--verbose") {
        Word::Verbose
    } else if str_eq(a, "-h") || str_eq(a, "--help") {
        Word::Help
    } else if str_eq(a, "-V") || str_eq(a, "--version") {
        Word::Version
    } else if str_eq(a, "--bug-report") {
        Word::BugReport
    } else if str_eq(a, "--feature-request") {
        Word::FeatureRequest
    } else if str_eq(a, "--sponsor") {
        Word::Sponsor
    } else if str_eq(a, "--star") {
        Word::Star
    } else {
        Word::Positional
    }
}

/// Reads word `i` into `c`; returns where reading goes on.
fn apply_word(args: &[String], i: usize, c: &mut Cli) -> (j: usize)
    requires
        i < args.len(),
    ensures
        i < j <= args.len(),
        read_word(strs(args@), i as int, old(c)@) == (j as int, final(c)@),
{
    let ghost ws = strs(args@);
    assert(ws[i as int] == args@[i as int]@);
    let w = word_of(args[i].as_str());
    assert(read_word(ws, i as int, c@) == read_as(w, ws, i as int, c@));
    match w {
        Word::Out => {
            if i + 1 < args.len() {
                assert(ws[i + 1] == args@[i + 1]@);
                c.out = Some(args[i + 1].clone());
                i + 2
            } else {
                c.out = None;
                i + 1
            }
        },
        Word::Json => {
            c.json = true;
            i + 1
        },
        Word::FailOnViolation => {
            c.fail_on_violation = true;
            i + 1
        },
        Word::Quiet => {
            c.quiet = true;
            i + 1
        },
        Word::Verbose => {
            c.verbose = true;
            i + 1
        },
        Word::Help => {
            c.help = true;
            i + 1
        },
        Word::Version => {
            c.version = true;
            i + 1
        },
        Word::BugReport => {
            c.bug_report = true;
            i + 1
        },
        Word::FeatureRequest => {
            c.feature_request = true;
            i + 1
        },
        Word::Sponsor => {
            c.sponsor = true;
            i + 1
        },
        Word::Star => {
            c.star = true;
            i + 1
        },
        Word::Positional => {
            let w = args[i].clone();
            proof {
                assert(strs(c.positionals@.push(w)) =~= strs(c.positionals@).push(w@));
            }
            c.positionals.push(w);
            i + 1
        },
    }
}

/// Parse the command-line words (without the program name).
pub fn parse_cli(args: &[String]) -> (c: Cli)
    ensures
        c@ == read_from(strs(args@), 0, empty_cli()),
{
    let ghost ws = strs(args@);
    let mut c = Cli::default();
    let mut i: usize = 0;
    while i < args.len()
        invariant
            ws == strs(args@),
            i <= args.len(),
            read_from(ws, i as int, c@) == read_from(ws, 0, empty_cli()),
        decreases args.len() - i,
    {
        let ghost before = c@;
        let ghost i0 = i as int;
        i = apply_word(args, i, &mut c);
        assert(read_from(ws, i0, before) == read_from(ws, i as int, c@));
    }
    c
}

/// What the program does for a command line.
#[derive(Debug, Clone, PartialEq, Eq)]
pub enum Command {
    /// Show the bug-report link.
    BugReport,
    /// Show the feature-request link.
    FeatureRequest,
    /// Show the sponsor link.
    Sponsor,
    /// Show the repository link.
    Star,
    /// Print the version.
    Version,
    /// Print the usage text and exit with `code`: 0 when help was asked for, 2 when no
    /// command was given.
    Usage { code: i32 },
    /// Swap the built-in example.
    Demo,
    /// Validate the job at the path (`None`: the path is missing, a usage error).
    Check(Option<String>),
    /// Run the job at the path (`None`: the path is missing, a usage error).
    Run(Option<String>),
    /// An unknown command.
    Unknown(String),
}

/// The characters of a [`Command`].
pub enum CommandView {
    BugReport,
    FeatureRequest,
    Sponsor,
    Star,
    Version,
    Usage { code: int },
    Demo,
    Check(Option<Seq<char>>),
    Run(Option<Seq<char>>),
    Unknown(Seq<char>),
}

impl View for Command {
    type V = CommandView;

    open spec fn view(&self) -> CommandView {
        match self {
            Command::BugReport => CommandView::BugReport,
            Command::FeatureRequest => CommandView::FeatureRequest,
            Command::Sponsor => CommandView::Sponsor,
            Command::Star => CommandView::Star,
            Command::Version => CommandView::Version,
            Command::Usage { code } => CommandView::Usage { code: *code as int },
            Command::Demo => CommandView::Demo,
            Command::Check(p) => CommandView::Check(
                match p {
                    Some(x) => Some(x@),
                    None => None,
                },
            ),
            Command::Run(p) => CommandView::Run(
                match p {
                    Some(x) => Some(x@),
                    None => None,
                },
            ),
            Command::Unknown(c) => CommandView::Unknown(c@),
        }
    }
}

/// The second positional, if any.
pub open spec fn operand(c: CliView) -> Option<Seq<char>> {
    if c.positionals.len() > 1 {
        Some(c.positionals[1])
    } else {
        None
    }
}

/// What the program does: the link switches first (bug report, feature request, sponsor,
/// star), then the version; then the usage text when help is asked for or no command is
/// given; otherwise the command that the first positional names.
pub open spec fn command(c: CliView) -> CommandView {
    let cmd = if c.positionals.len() > 0 {
        c.positionals[0]
    } else {
        Seq::empty()
    };
    if c.bug_report {
        CommandView::BugReport
    } else if c.feature_request {
        CommandView::FeatureRequest
    } else if c.sponsor {
        CommandView::Sponsor
    } else if c.star {
        CommandView::Star
    } else if c.version {
        CommandView::Version
    } else if c.help || cmd.len() == 0 {
        CommandView::Usage { code: if cmd.len() == 0 && !c.help { 2 } else { 0 } }
    } else if cmd == "demo"@ {
        CommandView::Demo
    } else if cmd == "check"@ {
        CommandView::Check(operand(c))
    } else if cmd == "run"@ {
        CommandView::Run(operand(c))
    } else {
        CommandView::Unknown(cmd)
    }
}

/// What the program does for the command line `c`, as [`command`] states.
pub fn command_of(c: &Cli) -> (r: Command)
    ensures
        r@ == command(c@),
{
    if c.bug_report {
        return Command::BugReport;
    }
    if c.feature_request {
        return Command::FeatureRequest;
    }
    if c.sponsor {
        return Command::Sponsor;
    }
    if c.star {
        return Command::Star;
    }
    if c.version {
        return Command::Version;
    }
    let cmd = if c.positionals.len() > 0 {
        c.positionals[0].clone()
    } else {
        String::new()
    };
    assert(c.positionals.len() > 0 ==> strs(c.positionals@)[0] == c.positionals@[0]@);
    let empty = cmd.as_str().unicode_len() == 0;
    if c.help || empty {
        return Command::Usage { code: if empty && !c.help { 2 } else { 0 } };
    }
    let operand = if c.positionals.len() > 1 {
        assert(strs(c.positionals@)[1] == c.positionals@[1]@);
        Some(c.positionals[1].clone())
    } else {
        None
    };
    if str_eq(cmd.as_str(), "demo") {
        Command::Demo
    } else if str_eq(cmd.as_str(), "check") {
        Command::Check(operand)
    } else if str_eq(cmd.as_str(), "run") {
        Command::Run(operand)
    } else {
        Command::Unknown(cmd)
    }
}

} // verus!
