//! The calls into `getopts` that reading the command line makes, each with
//! the contract that the crate's source shows for it.
use vstd::prelude::*;

verus! {

#[verifier::external_type_specification]
#[verifier::external_body]
pub struct ExOptions(getopts::Options);

#[verifier::external_type_specification]
#[verifier::external_body]
pub struct ExMatches(getopts::Matches);

#[verifier::external_type_specification]
#[verifier::external_body]
pub struct ExFail(getopts::Fail);

/// The options that a `getopts::Options` value declares, in order: short name, long
/// name, and whether the option takes an argument.
pub uninterp spec fn declared_options(options: getopts::Options) -> Seq<(Seq<char>, Seq<char>, bool)>;

/// The names that a `getopts::Matches` value can be asked about.
pub uninterp spec fn defined_names(matches: getopts::Matches) -> Set<Seq<char>>;

/// The texts of a list of strings.
pub open spec fn texts_of(args: Seq<String>) -> Seq<Seq<char>> {
    args.map_values(|a: String| a@)
}

/// An optional string as text.
pub open spec fn text_view(t: Option<String>) -> Option<Seq<char>> {
    match t {
        Some(v) => Some(v@),
        None => None,
    }
}

/// Whether `getopts` accepts the arguments `args` against options declared
/// as `declared` (each option optional, flags and options interleaved with
/// free arguments, the settings of `Options::new`).
pub uninterp spec fn getopts_accepts(
    declared: Seq<(Seq<char>, Seq<char>, bool)>,
    args: Seq<Seq<char>>,
) -> bool;

/// Whether the option called `name` occurs when `getopts` matches `args`
/// against options declared as `declared`.
pub uninterp spec fn getopts_given(
    declared: Seq<(Seq<char>, Seq<char>, bool)>,
    args: Seq<Seq<char>>,
    name: Seq<char>,
) -> bool;

/// The argument of the option called `name`, if it has one, when `getopts`
/// matches `args` against options declared as `declared`.
pub uninterp spec fn getopts_text(
    declared: Seq<(Seq<char>, Seq<char>, bool)>,
    args: Seq<Seq<char>>,
    name: Seq<char>,
) -> Option<Seq<char>>;

/// The message of the failure that `getopts` reports when it rejects `args`
/// against options declared as `declared`.
pub uninterp spec fn getopts_failure_text(
    declared: Seq<(Seq<char>, Seq<char>, bool)>,
    args: Seq<Seq<char>>,
) -> Seq<char>;

/// Whether a `getopts::Matches` value records the option called `name` as
/// given.
pub uninterp spec fn matches_given(matches: getopts::Matches, name: Seq<char>) -> bool;

/// The argument that a `getopts::Matches` value records for the option called
/// `name`, if any.
pub uninterp spec fn matches_text(matches: getopts::Matches, name: Seq<char>) -> Option<Seq<char>>;

/// The message that `Display` writes for a `getopts::Fail` value.
pub uninterp spec fn failure_text(failure: getopts::Fail) -> Seq<char>;

/// The names by which declared options can be asked about: each non-empty
/// short or long name.
pub open spec fn names_of(declared: Seq<(Seq<char>, Seq<char>, bool)>) -> Set<Seq<char>> {
    Set::new(
        |n: Seq<char>|
            n.len() > 0 && exists|k: int|
                0 <= k < declared.len() && ((#[trigger] declared[k]).0 == n || declared[k].1 == n),
    )
}

/// A short name that `getopts` accepts: empty or one single-byte character.
pub open spec fn valid_short_name(name: Seq<char>) -> bool {
    name.len() == 0 || (name.len() == 1 && (name[0] as u32) < 0x80)
}

/// `getopts::Options::new`: a set of options that declares nothing.
pub assume_specification[ getopts::Options::new ]() -> (options: getopts::Options)
    ensures
        declared_options(options) == Seq::<(Seq<char>, Seq<char>, bool)>::empty(),
;

/// `getopts::Options::optflag`: declares one more option, without an
/// argument. It panics unless the short name is empty or one byte long and
/// the long name is not one byte long; the contract asks for a long name of
/// other than one character, which is never one byte.
#[verifier::external_body]
pub(crate) fn declare_flag(options: &mut getopts::Options, short_name: &str, long_name: &str, desc: &str)
    requires
        valid_short_name(short_name@),
        long_name@.len() != 1,
    ensures
        declared_options(*final(options)) == declared_options(*old(options)).push(
            (short_name@, long_name@, false),
        ),
{
    options.optflag(short_name, long_name, desc);
}

/// `getopts::Options::optopt`: declares one more option, which takes an
/// argument. The names are checked as for `declare_flag`.
#[verifier::external_body]
pub(crate) fn declare_option(
    options: &mut getopts::Options,
    short_name: &str,
    long_name: &str,
    desc: &str,
    hint: &str,
)
    requires
        valid_short_name(short_name@),
        long_name@.len() != 1,
    ensures
        declared_options(*final(options)) == declared_options(*old(options)).push(
            (short_name@, long_name@, true),
        ),
{
    options.optopt(short_name, long_name, desc, hint);
}

/// `getopts::Options::parse`: matches the arguments against the declared
/// options. It panics on an option with neither a short nor a long name, or
/// with a short name of more than one byte. What it gives depends on the
/// declared options and the argument texts alone (hints and descriptions play
/// no part, and the options here keep the parsing style of `Options::new`):
/// whether it succeeds, the failure's message, and on success which options
/// the matches record as given and with what argument, for exactly the
/// declared names.
#[verifier::external_body]
pub(crate) fn parse_options(options: &getopts::Options, args: &[String]) -> (parsed: Result<getopts::Matches, getopts::Fail>)
    requires
        forall|k: int|
            0 <= k < declared_options(*options).len() ==> (#[trigger] declared_options(*options)[k]).0.len() > 0
                || declared_options(*options)[k].1.len() > 0,
        forall|k: int|
            0 <= k < declared_options(*options).len() ==> valid_short_name(
                (#[trigger] declared_options(*options)[k]).0,
            ),
    ensures
        (parsed is Ok) == getopts_accepts(declared_options(*options), texts_of(args@)),
        parsed matches Err(f) ==> failure_text(f) == getopts_failure_text(
            declared_options(*options),
            texts_of(args@),
        ),
        parsed matches Ok(m) ==> defined_names(m) == names_of(declared_options(*options)),
        parsed matches Ok(m) ==> forall|name: Seq<char>|
            #[trigger] defined_names(m).contains(name) ==> matches_given(m, name) == getopts_given(
                declared_options(*options),
                texts_of(args@),
                name,
            ) && matches_text(m, name) == getopts_text(
                declared_options(*options),
                texts_of(args@),
                name,
            ),
{
    options.parse(args)
}

/// `getopts::Matches::opt_present`: whether the named option was given. It
/// panics for a name that no option has.
#[verifier::external_body]
pub(crate) fn option_present(matches: &getopts::Matches, name: &str) -> (present: bool)
    requires
        defined_names(*matches).contains(name@),
    ensures
        present == matches_given(*matches, name@),
{
    matches.opt_present(name)
}

/// `getopts::Matches::opt_str`: the argument given to the named option, if
/// any. It panics for a name that no option has.
#[verifier::external_body]
pub(crate) fn option_text(matches: &getopts::Matches, name: &str) -> (text: Option<String>)
    requires
        defined_names(*matches).contains(name@),
    ensures
        text_view(text) == matches_text(*matches, name@),
{
    matches.opt_str(name)
}

/// `getopts::Fail`'s message, as its `Display` writes it.
#[verifier::external_body]
pub(crate) fn failure_message(failure: &getopts::Fail) -> (message: String)
    ensures
        message@ == failure_text(*failure),
{
    failure.to_string()
}

} // verus!
