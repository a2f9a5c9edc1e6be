use clap::{App, Arg, ArgMatches};
use makegen::config::{is_supported, Config, ConfigError};

fn matches_of(args: &[&str], with_defaults: bool) -> ArgMatches<'static> {
    let mut compiler = Arg::with_name("compiler").short("c").long("compiler").takes_value(true);
    let mut standard = Arg::with_name("std").long("std").takes_value(true);
    let mut opt = Arg::with_name("opt").long("opt").takes_value(true);
    let mut tests = Arg::with_name("tests").short("t").long("tests").takes_value(true).multiple(true);
    if with_defaults {
        compiler = compiler
            .default_value_if("extension", Some("c"), "gcc")
            .default_value_if("extension", Some("cpp"), "g++");
        standard = standard
            .default_value_if("extension", Some("c"), "c99")
            .default_value_if("extension", Some("cpp"), "c++11");
        opt = opt.default_value("O0");
        tests = tests.default_value("tests");
    }
    let mut line = vec!["makegen"];
    line.extend_from_slice(args);
    App::new("makegen")
        .arg(compiler)
        .arg(Arg::with_name("extension").short("e").long("extension").takes_value(true))
        .arg(Arg::with_name("bin").short("b").long("binary").takes_value(true))
        .arg(standard)
        .arg(opt)
        .arg(tests)
        .get_matches_from(line)
}

fn error_of(args: &[&str], with_defaults: bool) -> ConfigError {
    match Config::from_matches(&matches_of(args, with_defaults)) {
        Ok(_) => panic!("a configuration was read from {:?}", args),
        Err(error) => error,
    }
}

#[test]
fn defaults_follow_from_the_extension() {
    let config = Config::from_matches(&matches_of(&["-e", "c", "-b", "prog"], true)).unwrap();
    assert_eq!(config.compiler, "gcc");
    assert_eq!(config.extension, "c");
    assert_eq!(config.program_name, "prog");
    assert_eq!(config.standard, "c99");
    assert_eq!(config.opt_level, "O0");
    assert_eq!(config.tests, vec!["tests".to_string()]);
    let config = Config::from_matches(&matches_of(&["-e", "cpp", "-b", "app"], true)).unwrap();
    assert_eq!(config.compiler, "g++");
    assert_eq!(config.standard, "c++11");
}

#[test]
fn given_values_are_taken_as_they_are() {
    let args = [
        "--extension", "cpp", "--binary", "server", "--compiler", "clang++", "--std", "c++17", "--opt",
        "O3", "--tests", "tests", "bench", "check.cpp",
    ];
    let config = Config::from_matches(&matches_of(&args, true)).unwrap();
    assert_eq!(config.compiler, "clang++");
    assert_eq!(config.extension, "cpp");
    assert_eq!(config.program_name, "server");
    assert_eq!(config.standard, "c++17");
    assert_eq!(config.opt_level, "O3");
    assert_eq!(config.tests, vec!["tests".to_string(), "bench".to_string(), "check.cpp".to_string()]);
}

#[test]
fn missing_program_name_is_reported_first() {
    assert_eq!(error_of(&[], false), ConfigError::MissingProgramName);
    assert_eq!(error_of(&["-e", "rs"], true), ConfigError::MissingProgramName);
}

#[test]
fn missing_extension_is_reported() {
    assert_eq!(error_of(&["-b", "prog"], true), ConfigError::MissingExtension);
}

#[test]
fn other_extensions_are_refused() {
    assert_eq!(error_of(&["-b", "prog", "-e", "rs"], true), ConfigError::UnsupportedExtension);
    assert_eq!(error_of(&["-b", "prog", "-e", "C"], true), ConfigError::UnsupportedExtension);
    assert_eq!(error_of(&["-b", "prog", "-e", "cc"], true), ConfigError::UnsupportedExtension);
    assert_eq!(error_of(&["-b", "prog", "-e", ""], true), ConfigError::UnsupportedExtension);
}

#[test]
fn missing_values_without_defaults_are_reported_in_order() {
    assert_eq!(error_of(&["-b", "p", "-e", "c"], false), ConfigError::MissingCompiler);
    assert_eq!(error_of(&["-b", "p", "-e", "c", "-c", "cc"], false), ConfigError::MissingStandard);
    assert_eq!(
        error_of(&["-b", "p", "-e", "c", "-c", "cc", "--std", "c11"], false),
        ConfigError::MissingOptLevel
    );
    assert_eq!(
        error_of(&["-b", "p", "-e", "c", "-c", "cc", "--std", "c11", "--opt", "O1"], false),
        ConfigError::MissingTests
    );
    let args = ["-b", "p", "-e", "c", "-c", "cc", "--std", "c11", "--opt", "O1", "-t", "t"];
    let config = Config::from_matches(&matches_of(&args, false)).unwrap();
    assert_eq!(config.compiler, "cc");
    assert_eq!(config.tests, vec!["t".to_string()]);
}

#[test]
fn every_error_has_its_message() {
    assert_eq!(ConfigError::MissingProgramName.message(), "You must provide a name for your executable");
    assert_eq!(ConfigError::MissingExtension.message(), "You must provide and file extension to search for");
    assert_eq!(
        ConfigError::UnsupportedExtension.message(),
        "Only C or C++ files are allowed (extension should be either c or cpp)"
    );
    assert_eq!(ConfigError::MissingCompiler.message(), "");
    assert_eq!(ConfigError::MissingStandard.message(), "You must provide a language standard");
    assert_eq!(ConfigError::MissingOptLevel.message(), "You must provide an optimization level");
    assert_eq!(ConfigError::MissingTests.message(), "You must provide the test files or directories");
}

#[test]
fn only_c_and_cpp_are_supported() {
    assert!(is_supported(&"c".to_string()));
    assert!(is_supported(&"cpp".to_string()));
    assert!(!is_supported(&"h".to_string()));
    assert!(!is_supported(&"cp".to_string()));
    assert!(!is_supported(&"".to_string()));
}
