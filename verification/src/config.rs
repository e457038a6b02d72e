//! The simulator's configuration, read from the command line.
use vstd::prelude::*;

verus! {

use crate::text::{chars_of, parse_unsigned, parse_unsigned_spec, NumberError};
use crate::options::{
    declared_options, names_of, declare_flag, declare_option, parse_options, option_present,
    option_text, failure_message, text_view, texts_of, getopts_accepts, getopts_given,
    getopts_text, getopts_failure_text,
};

/// The cache geometry to simulate and the trace to run: `s` set index bits,
/// `e` lines per set and `b` block offset bits for L1 (or the only level),
/// the same for L2 when `multi` asks for a two-level hierarchy, and the trace
/// file.
pub struct Config {
    pub multi: bool,
    pub s: usize,
    pub e: usize,
    pub b: usize,
    pub l2_s: Option<usize>,
    pub l2_e: Option<usize>,
    pub l2_b: Option<usize>,
    pub trace_file: String,
}

/// A configuration as the contracts see it.
pub struct ConfigView {
    pub multi: bool,
    pub s: nat,
    pub e: nat,
    pub b: nat,
    pub l2_s: Option<nat>,
    pub l2_e: Option<nat>,
    pub l2_b: Option<nat>,
    pub trace_file: Seq<char>,
}

/// A count as the contracts see it.
pub open spec fn count_view(n: Option<usize>) -> Option<nat> {
    match n {
        Some(v) => Some(v as nat),
        None => None,
    }
}

impl View for Config {
    type V = ConfigView;

    open spec fn view(&self) -> ConfigView {
        ConfigView {
            multi: self.multi,
            s: self.s as nat,
            e: self.e as nat,
            b: self.b as nat,
            l2_s: count_view(self.l2_s),
            l2_e: count_view(self.l2_e),
            l2_b: count_view(self.l2_b),
            trace_file: self.trace_file@,
        }
    }
}

/// Why the command line does not give a configuration.
#[derive(Debug, PartialEq, Eq)]
pub enum ConfigError {
    /// The arguments do not match the declared options; the message says how.
    Options(String),
    /// A required option is missing: `s`, `E`, `b` or `t`.
    Missing(char),
    /// An option's argument is not a count.
    Number(NumberError),
    /// Two-level mode without all three L2 options.
    IncompleteHierarchy,
}

/// A count given on the command line: a decimal number that fits in `usize`.
pub open spec fn count_spec(text: Seq<char>) -> Result<nat, NumberError> {
    parse_unsigned_spec(text, 10, usize::MAX as nat)
}

/// An optional count: absent stays absent, present must read.
pub open spec fn optional_count_spec(text: Option<Seq<char>>) -> Result<Option<nat>, NumberError> {
    match text {
        None => Ok(None),
        Some(t) => match count_spec(t) {
            Ok(v) => Ok(Some(v)),
            Err(e) => Err(e),
        },
    }
}

/// The configuration that the option values give, or the first problem with
/// them, checked in this order: `s`, `E`, `b` present and counts, `t`
/// present, the L2 counts that are present, and in two-level mode all three
/// L2 counts present.
pub open spec fn config_spec(
    multi: bool,
    s: Option<Seq<char>>,
    e: Option<Seq<char>>,
    b: Option<Seq<char>>,
    t: Option<Seq<char>>,
    l2_s: Option<Seq<char>>,
    l2_e: Option<Seq<char>>,
    l2_b: Option<Seq<char>>,
) -> Result<ConfigView, ConfigError> {
    if s is None {
        Err(ConfigError::Missing('s'))
    } else if count_spec(s->0) is Err {
        Err(ConfigError::Number(count_spec(s->0)->Err_0))
    } else if e is None {
        Err(ConfigError::Missing('E'))
    } else if count_spec(e->0) is Err {
        Err(ConfigError::Number(count_spec(e->0)->Err_0))
    } else if b is None {
        Err(ConfigError::Missing('b'))
    } else if count_spec(b->0) is Err {
        Err(ConfigError::Number(count_spec(b->0)->Err_0))
    } else if t is None {
        Err(ConfigError::Missing('t'))
    } else if optional_count_spec(l2_s) is Err {
        Err(ConfigError::Number(optional_count_spec(l2_s)->Err_0))
    } else if optional_count_spec(l2_e) is Err {
        Err(ConfigError::Number(optional_count_spec(l2_e)->Err_0))
    } else if optional_count_spec(l2_b) is Err {
        Err(ConfigError::Number(optional_count_spec(l2_b)->Err_0))
    } else if multi && (l2_s is None || l2_e is None || l2_b is None) {
        Err(ConfigError::IncompleteHierarchy)
    } else {
        Ok(
            ConfigView {
                multi,
                s: count_spec(s->0)->Ok_0,
                e: count_spec(e->0)->Ok_0,
                b: count_spec(b->0)->Ok_0,
                l2_s: optional_count_spec(l2_s)->Ok_0,
                l2_e: optional_count_spec(l2_e)->Ok_0,
                l2_b: optional_count_spec(l2_b)->Ok_0,
                trace_file: t->0,
            },
        )
    }
}

/// `config` is the outcome that `expected` describes: the configuration it
/// gives, or the same error.
pub open spec fn outcome_is(
    config: Result<Config, ConfigError>,
    expected: Result<ConfigView, ConfigError>,
) -> bool {
    match expected {
        Ok(v) => config is Ok && config->Ok_0@ == v,
        Err(err) => config == Err::<Config, ConfigError>(err),
    }
}

/// Each field of an accepted configuration is what its own option gives: the
/// flag for `multi`, the count of its own text for `s`, `E`, `b` and each L2
/// count (absent when that option is), the trace file's text for `t`. And a
/// configuration is accepted exactly when `s`, `E`, `b` and `t` are given,
/// every count given reads, and two-level mode has all three L2 counts.
pub proof fn law_config_fields(
    multi: bool,
    s: Option<Seq<char>>,
    e: Option<Seq<char>>,
    b: Option<Seq<char>>,
    t: Option<Seq<char>>,
    l2_s: Option<Seq<char>>,
    l2_e: Option<Seq<char>>,
    l2_b: Option<Seq<char>>,
)
    ensures
        (config_spec(multi, s, e, b, t, l2_s, l2_e, l2_b) is Ok) == (s is Some && count_spec(s->0) is Ok
            && e is Some && count_spec(e->0) is Ok && b is Some && count_spec(b->0) is Ok && t is Some
            && (l2_s matches Some(x) ==> count_spec(x) is Ok) && (l2_e matches Some(x) ==> count_spec(x) is Ok)
            && (l2_b matches Some(x) ==> count_spec(x) is Ok) && (multi ==> (l2_s is Some && l2_e is Some
            && l2_b is Some))),
        config_spec(multi, s, e, b, t, l2_s, l2_e, l2_b) matches Ok(v) ==> {
            &&& v.multi == multi
            &&& Ok::<nat, NumberError>(v.s) == count_spec(s->0)
            &&& Ok::<nat, NumberError>(v.e) == count_spec(e->0)
            &&& Ok::<nat, NumberError>(v.b) == count_spec(b->0)
            &&& Some(v.trace_file) == t
            &&& (l2_s matches Some(x) ==> Ok::<Option<nat>, NumberError>(v.l2_s) == match count_spec(x) {
                Ok(n) => Ok::<Option<nat>, NumberError>(Some(n)),
                Err(err) => Err(err),
            })
            &&& (l2_e matches Some(x) ==> Ok::<Option<nat>, NumberError>(v.l2_e) == match count_spec(x) {
                Ok(n) => Ok::<Option<nat>, NumberError>(Some(n)),
                Err(err) => Err(err),
            })
            &&& (l2_b matches Some(x) ==> Ok::<Option<nat>, NumberError>(v.l2_b) == match count_spec(x) {
                Ok(n) => Ok::<Option<nat>, NumberError>(Some(n)),
                Err(err) => Err(err),
            })
            &&& (l2_s is None ==> v.l2_s is None)
            &&& (l2_e is None ==> v.l2_e is None)
            &&& (l2_b is None ==> v.l2_b is None)
        },
{
}

/// Reads a count: a decimal number that fits in `usize`, with an optional
/// leading `+`.
pub fn parse_count(text: &String) -> (count: Result<usize, NumberError>)
    ensures
        match count_spec(text@) {
            Ok(v) => count == Ok::<usize, NumberError>(v as usize),
            Err(e) => count == Err::<usize, NumberError>(e),
        },
{
    let chars = chars_of(text.as_str());
    let n = chars.len();
    assert(chars@.subrange(0, n as int) =~= text@);
    match parse_unsigned(&chars, 0, n, 10, usize::MAX as u64) {
        Ok(v) => {
            proof {
                lemma_read_bounded(chars@, v);
            }
            Ok(v as usize)
        },
        Err(e) => Err(e),
    }
}

/// A value read with bound `usize::MAX` fits in `usize`.
proof fn lemma_read_bounded(chars: Seq<char>, v: u64)
    requires
        parse_unsigned_spec(chars, 10, usize::MAX as nat) == Ok::<nat, NumberError>(v as nat),
    ensures
        v <= usize::MAX,
{
    lemma_parse_bounded(chars, 10, usize::MAX as nat);
}

/// Whatever reading digits gives stays within the bound.
proof fn lemma_read_digits_bounded(s: Seq<char>, radix: nat, max: nat)
    ensures
        crate::text::read_digits(s, radix, max) matches Ok(v) ==> v <= max,
    decreases s.len(),
{
    if s.len() > 0 {
        lemma_read_digits_bounded(s.drop_last(), radix, max);
    }
}

/// Whatever parsing gives stays within the bound.
proof fn lemma_parse_bounded(s: Seq<char>, radix: nat, max: nat)
    ensures
        parse_unsigned_spec(s, radix, max) matches Ok(v) ==> v <= max,
{
    if s.len() > 0 {
        lemma_read_digits_bounded(s, radix, max);
        lemma_read_digits_bounded(s.drop_first(), radix, max);
    }
}

/// Reads an optional count.
fn parse_optional_count(text: &Option<String>) -> (count: Result<Option<usize>, NumberError>)
    ensures
        match optional_count_spec(text_view(*text)) {
            Ok(v) => count is Ok && count_view(count->Ok_0) == v,
            Err(e) => count == Err::<Option<usize>, NumberError>(e),
        },
{
    match text {
        None => Ok(None),
        Some(t) => match parse_count(t) {
            Ok(v) => Ok(Some(v)),
            Err(e) => Err(e),
        },
    }
}

/// Builds the configuration from the option values found on the command
/// line, or reports the first problem with them.
pub fn build_config(
    multi: bool,
    s: Option<String>,
    e: Option<String>,
    b: Option<String>,
    t: Option<String>,
    l2_s: Option<String>,
    l2_e: Option<String>,
    l2_b: Option<String>,
) -> (config: Result<Config, ConfigError>)
    ensures
        outcome_is(
            config,
            config_spec(
                multi,
                text_view(s),
                text_view(e),
                text_view(b),
                text_view(t),
                text_view(l2_s),
                text_view(l2_e),
                text_view(l2_b),
            ),
        ),
{
    let s_count = match &s {
        None => { return Err(ConfigError::Missing('s')); },
        Some(text) => match parse_count(text) {
            Ok(v) => v,
            Err(err) => { return Err(ConfigError::Number(err)); },
        },
    };
    let e_count = match &e {
        None => { return Err(ConfigError::Missing('E')); },
        Some(text) => match parse_count(text) {
            Ok(v) => v,
            Err(err) => { return Err(ConfigError::Number(err)); },
        },
    };
    let b_count = match &b {
        None => { return Err(ConfigError::Missing('b')); },
        Some(text) => match parse_count(text) {
            Ok(v) => v,
            Err(err) => { return Err(ConfigError::Number(err)); },
        },
    };
    let trace_file = match t {
        None => { return Err(ConfigError::Missing('t')); },
        Some(text) => text,
    };
    let l2_s_count = match parse_optional_count(&l2_s) {
        Ok(v) => v,
        Err(err) => { return Err(ConfigError::Number(err)); },
    };
    let l2_e_count = match parse_optional_count(&l2_e) {
        Ok(v) => v,
        Err(err) => { return Err(ConfigError::Number(err)); },
    };
    let l2_b_count = match parse_optional_count(&l2_b) {
        Ok(v) => v,
        Err(err) => { return Err(ConfigError::Number(err)); },
    };
    if multi && (l2_s_count.is_none() || l2_e_count.is_none() || l2_b_count.is_none()) {
        return Err(ConfigError::IncompleteHierarchy);
    }
    Ok(
        Config {
            multi,
            s: s_count,
            e: e_count,
            b: b_count,
            l2_s: l2_s_count,
            l2_e: l2_e_count,
            l2_b: l2_b_count,
            trace_file,
        },
    )
}

/// The options of the simulator, in the order declared: short name, long
/// name, and whether an argument follows.
pub open spec fn simulator_option_table() -> Seq<(Seq<char>, Seq<char>, bool)> {
    seq![
        (Seq::empty(), seq!['m', 'u', 'l', 't', 'i'], false),
        (seq!['s'], Seq::empty(), true),
        (seq!['E'], Seq::empty(), true),
        (seq!['b'], Seq::empty(), true),
        (Seq::empty(), seq!['l', '2', '-', 's'], true),
        (Seq::empty(), seq!['l', '2', '-', 'E'], true),
        (Seq::empty(), seq!['l', '2', '-', 'b'], true),
        (seq!['t'], Seq::empty(), true),
    ]
}

/// The simulator's options: the flag `--multi`, and `-s`, `-E`, `-b`,
/// `--l2-s`, `--l2-E`, `--l2-b` and `-t`, which take an argument.
pub fn simulator_options() -> (options: getopts::Options)
    ensures
        declared_options(options) == simulator_option_table(),
{
    let mut opts = getopts::Options::new();
    proof {
        reveal_strlit("");
        reveal_strlit("multi");
        reveal_strlit("s");
        reveal_strlit("E");
        reveal_strlit("b");
        reveal_strlit("l2-s");
        reveal_strlit("l2-E");
        reveal_strlit("l2-b");
        reveal_strlit("t");
    }
    declare_flag(&mut opts, "", "multi", "Run a two-level cache hierarchy");
    declare_option(&mut opts, "s", "", "Number of L1 set index bits", "NUM");
    declare_option(&mut opts, "E", "", "L1 associativity (lines per set)", "NUM");
    declare_option(&mut opts, "b", "", "Number of L1 block bits", "NUM");
    declare_option(&mut opts, "", "l2-s", "Number of L2 set index bits", "NUM");
    declare_option(&mut opts, "", "l2-E", "L2 associativity (lines per set)", "NUM");
    declare_option(&mut opts, "", "l2-b", "Number of L2 block bits", "NUM");
    declare_option(&mut opts, "t", "", "Trace file", "FILE");
    assert(""@ =~= Seq::<char>::empty());
    assert("multi"@ =~= seq!['m', 'u', 'l', 't', 'i']);
    assert("s"@ =~= seq!['s']);
    assert("E"@ =~= seq!['E']);
    assert("b"@ =~= seq!['b']);
    assert("l2-s"@ =~= seq!['l', '2', '-', 's']);
    assert("l2-E"@ =~= seq!['l', '2', '-', 'E']);
    assert("l2-b"@ =~= seq!['l', '2', '-', 'b']);
    assert("t"@ =~= seq!['t']);
    assert(declared_options(opts) =~= simulator_option_table());
    opts
}

/// Reads the configuration from the command line `args`, whose first entry is
/// the program's name: `--multi`, `-s`, `-E`, `-b`, `--l2-s`, `--l2-E`,
/// `--l2-b` and `-t`, as `getopts` matches them, then `build_config` on the
/// values found.
pub fn parse_args_from(args: &[String]) -> (config: Result<Config, ConfigError>)
    requires
        args@.len() >= 1,
    ensures
        ({
            let rest = texts_of(args@.subrange(1, args@.len() as int));
            let table = simulator_option_table();
            &&& (config matches Err(ConfigError::Options(_))) == !getopts_accepts(table, rest)
            &&& config matches Err(ConfigError::Options(message)) ==> message@ == getopts_failure_text(
                table,
                rest,
            )
            &&& getopts_accepts(table, rest) ==> outcome_is(
                config,
                config_spec(
                    getopts_given(table, rest, "multi"@),
                    getopts_text(table, rest, "s"@),
                    getopts_text(table, rest, "E"@),
                    getopts_text(table, rest, "b"@),
                    getopts_text(table, rest, "t"@),
                    getopts_text(table, rest, "l2-s"@),
                    getopts_text(table, rest, "l2-E"@),
                    getopts_text(table, rest, "l2-b"@),
                ),
            )
        }),
{
    let opts = simulator_options();
    let ghost declared = declared_options(opts);
    let mut rest: Vec<String> = Vec::new();
    let mut i: usize = 1;
    while i < args.len()
        invariant
            1 <= i <= args@.len(),
            rest@.len() == i - 1,
            forall|k: int| 0 <= k < rest@.len() ==> (#[trigger] rest@[k])@ == args@[k + 1]@,
        decreases args@.len() - i,
    {
        rest.push(args[i].clone());
        i = i + 1;
    }
    assert(texts_of(rest@) =~= texts_of(args@.subrange(1, args@.len() as int)));
    match parse_options(&opts, rest.as_slice()) {
        Err(failure) => Err(ConfigError::Options(failure_message(&failure))),
        Ok(matches) => {
            proof {
                reveal_strlit("multi");
                reveal_strlit("s");
                reveal_strlit("E");
                reveal_strlit("b");
                reveal_strlit("l2-s");
                reveal_strlit("l2-E");
                reveal_strlit("l2-b");
                reveal_strlit("t");
                let names = names_of(declared);
                assert(declared[0].1 == "multi"@);
                assert(names.contains("multi"@));
                assert(declared[1].0 == "s"@);
                assert(names.contains("s"@));
                assert(declared[2].0 == "E"@);
                assert(names.contains("E"@));
                assert(declared[3].0 == "b"@);
                assert(names.contains("b"@));
                assert(declared[4].1 == "l2-s"@);
                assert(names.contains("l2-s"@));
                assert(declared[5].1 == "l2-E"@);
                assert(names.contains("l2-E"@));
                assert(declared[6].1 == "l2-b"@);
                assert(names.contains("l2-b"@));
                assert(declared[7].0 == "t"@);
                assert(names.contains("t"@));
            }
            let multi = option_present(&matches, "multi");
            let s = option_text(&matches, "s");
            let e = option_text(&matches, "E");
            let b = option_text(&matches, "b");
            let t = option_text(&matches, "t");
            let l2_s = option_text(&matches, "l2-s");
            let l2_e = option_text(&matches, "l2-E");
            let l2_b = option_text(&matches, "l2-b");
            build_config(multi, s, e, b, t, l2_s, l2_e, l2_b)
        },
    }
}

} // verus!
