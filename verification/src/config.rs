//! The build configuration and how it is read from parsed command-line
//! arguments.
use vstd::prelude::*;
use vstd::string::StringExecFns;
use clap::ArgMatches;
use crate::text::texts;

verus! {

/// What the generator is told: the toolchain, the kind of source files, the
/// name of the program, and which sources are tests.
#[derive(Debug)]
pub struct Config {
    /// The compiler executable.
    pub compiler: String,
    /// The extension of the source files: `c` or `cpp`.
    pub extension: String,
    /// The name of the program to link.
    pub program_name: String,
    /// The language standard, as the compiler's `-std=` takes it.
    pub standard: String,
    /// The optimisation level, without its leading `-`.
    pub opt_level: String,
    /// The files and path prefixes that mark a source as a test.
    pub tests: Vec<String>,
}

/// Why a set of arguments gives no configuration.
#[derive(Clone, Copy, Debug, PartialEq, Eq)]
pub enum ConfigError {
    /// No name was given for the program.
    MissingProgramName,
    /// No extension was given.
    MissingExtension,
    /// The extension is neither `c` nor `cpp`.
    UnsupportedExtension,
    /// No compiler was given and none follows from the extension.
    MissingCompiler,
    /// No language standard was given and none follows from the extension.
    MissingStandard,
    /// No optimisation level was given.
    MissingOptLevel,
    /// No test files or directories were given.
    MissingTests,
}

impl ConfigError {
    /// The message shown to the user. A missing compiler has none.
    pub fn message(&self) -> (out: String)
        ensures
            out@ == match *self {
                ConfigError::MissingProgramName => "You must provide a name for your executable"@,
                ConfigError::MissingExtension => "You must provide and file extension to search for"@,
                ConfigError::UnsupportedExtension => "Only C or C++ files are allowed (extension should be either c or cpp)"@,
                ConfigError::MissingCompiler => ""@,
                ConfigError::MissingStandard => "You must provide a language standard"@,
                ConfigError::MissingOptLevel => "You must provide an optimization level"@,
                ConfigError::MissingTests => "You must provide the test files or directories"@,
            },
    {
        match self {
            ConfigError::MissingProgramName => String::from_str(
                "You must provide a name for your executable",
            ),
            ConfigError::MissingExtension => String::from_str(
                "You must provide and file extension to search for",
            ),
            ConfigError::UnsupportedExtension => String::from_str(
                "Only C or C++ files are allowed (extension should be either c or cpp)",
            ),
            ConfigError::MissingCompiler => String::from_str(""),
            ConfigError::MissingStandard => String::from_str("You must provide a language standard"),
            ConfigError::MissingOptLevel => String::from_str("You must provide an optimization level"),
            ConfigError::MissingTests => String::from_str(
                "You must provide the test files or directories",
            ),
        }
    }
}

/// The matches that `clap` hands out for a parsed command line. What is
/// inside is read through `first_value` and `all_values` only.
#[verifier::external_type_specification]
#[verifier::external_body]
pub struct ExArgMatches<'a>(ArgMatches<'a>);

/// The values that `matches` holds for each argument that was matched, in
/// the order given, as text; bytes that are no UTF-8 stand as U+FFFD.
pub uninterp spec fn matched_values(matches: ArgMatches<'_>) -> Map<Seq<char>, Seq<Seq<char>>>;

/// `ArgMatches::value_of_lossy`: the first value of the argument `name`;
/// nothing where the argument was not matched or holds no value.
#[verifier::external_body]
fn first_value(matches: &ArgMatches<'_>, name: &str) -> (out: Option<String>)
    ensures
        out.is_some() == first(matched_values(*matches), name@).is_some(),
        out matches Some(value) ==> Some(value@) == first(matched_values(*matches), name@),
{
    match matches.value_of_lossy(name) {
        Some(value) => Some(value.into_owned()),
        None => None,
    }
}

/// `ArgMatches::values_of_lossy`: all values of the argument `name`, in
/// order; nothing where the argument was not matched.
#[verifier::external_body]
fn all_values(matches: &ArgMatches<'_>, name: &str) -> (out: Option<Vec<String>>)
    ensures
        out.is_some() == matched_values(*matches).dom().contains(name@),
        out matches Some(values) ==> texts(values@) == matched_values(*matches)[name@],
{
    matches.values_of_lossy(name)
}

/// The first value of the argument `name`, if it has one.
pub open spec fn first(values: Map<Seq<char>, Seq<Seq<char>>>, name: Seq<char>) -> Option<Seq<char>> {
    if values.dom().contains(name) && values[name].len() > 0 {
        Some(values[name][0])
    } else {
        None
    }
}

/// Whether `extension` is one of the two that the generator knows.
pub open spec fn supported(extension: Seq<char>) -> bool {
    extension == "c"@ || extension == "cpp"@
}

/// The first reason, in the order of the checks, why `values` give no
/// configuration; none where they give one.
pub open spec fn rejection(values: Map<Seq<char>, Seq<Seq<char>>>) -> Option<ConfigError> {
    if first(values, "bin"@).is_none() {
        Some(ConfigError::MissingProgramName)
    } else if first(values, "extension"@).is_none() {
        Some(ConfigError::MissingExtension)
    } else if !supported(first(values, "extension"@).unwrap()) {
        Some(ConfigError::UnsupportedExtension)
    } else if first(values, "compiler"@).is_none() {
        Some(ConfigError::MissingCompiler)
    } else if first(values, "std"@).is_none() {
        Some(ConfigError::MissingStandard)
    } else if first(values, "opt"@).is_none() {
        Some(ConfigError::MissingOptLevel)
    } else if !values.dom().contains("tests"@) {
        Some(ConfigError::MissingTests)
    } else {
        None
    }
}

impl Config {
    /// Whether this configuration holds what `values` give for each
    /// argument.
    pub open spec fn holds(&self, values: Map<Seq<char>, Seq<Seq<char>>>) -> bool {
        &&& Some(self.program_name@) == first(values, "bin"@)
        &&& Some(self.extension@) == first(values, "extension"@)
        &&& Some(self.compiler@) == first(values, "compiler"@)
        &&& Some(self.standard@) == first(values, "std"@)
        &&& Some(self.opt_level@) == first(values, "opt"@)
        &&& texts(self.tests@) == values["tests"@]
    }

    /// Reads the configuration from parsed arguments. The arguments are
    /// checked in a fixed order and the first failure is reported.
    pub fn from_matches(matches: &ArgMatches<'_>) -> (out: Result<Self, ConfigError>)
        ensures
            match out {
                Ok(config) => rejection(matched_values(*matches)).is_none() && config.holds(
                    matched_values(*matches),
                ) && supported(config.extension@),
                Err(error) => rejection(matched_values(*matches)) == Some(error),
            },
    {
        let program_name = match first_value(matches, "bin") {
            Some(value) => value,
            None => {
                return Err(ConfigError::MissingProgramName);
            },
        };
        let extension = match first_value(matches, "extension") {
            Some(value) => value,
            None => {
                return Err(ConfigError::MissingExtension);
            },
        };
        if !is_supported(&extension) {
            return Err(ConfigError::UnsupportedExtension);
        }
        let compiler = match first_value(matches, "compiler") {
            Some(value) => value,
            None => {
                return Err(ConfigError::MissingCompiler);
            },
        };
        let standard = match first_value(matches, "std") {
            Some(value) => value,
            None => {
                return Err(ConfigError::MissingStandard);
            },
        };
        let opt_level = match first_value(matches, "opt") {
            Some(value) => value,
            None => {
                return Err(ConfigError::MissingOptLevel);
            },
        };
        let tests = match all_values(matches, "tests") {
            Some(values) => values,
            None => {
                return Err(ConfigError::MissingTests);
            },
        };
        Ok(Config { compiler, extension, program_name, standard, opt_level, tests })
    }
}

/// Says whether `extension` is `c` or `cpp`.
pub fn is_supported(extension: &String) -> (yes: bool)
    ensures
        yes == supported(extension@),
{
    *extension == String::from_str("c") || *extension == String::from_str("cpp")
}

} // verus!
