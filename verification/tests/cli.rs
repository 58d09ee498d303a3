//! The command line, the configuration, questions and exit codes.
use rip::cli::{
    accept_age, begin, completions_exit_code, config_from, config_home, config_path, confirm,
    consent, cwd_or, dispatch, env_abs, first_word, flags_hint, home_dir, is_subcommand,
    load_config, no_terminal, parse_age, parse_size, Answer, Asked, Config, ConfigRead, Consent,
    Fallback, First, Outcome, Phase, Setting, Shell,
};

fn argv(words: &[&str]) -> Vec<Vec<u8>> {
    words.iter().map(|w| w.as_bytes().to_vec()).collect()
}

// ---- the first word ----

#[test]
fn the_first_word_decides() {
    for words in [
        &["rip", "foo"][..],
        &["rip", "foo", "empty"][..],
        &["rip", "foo", "-f", "empty"][..],
        &["rip", "foo", "--config", "c", "empty"][..],
        &["rip", "--", "empty"][..],
        &["rip", "-f", "--", "-f"][..],
        &["rip", "--", "--", "x"][..],
        &["rip", "help"][..],
        &["rip", "-"][..],
        &["rip", ""][..],
        &["rip", "-v", "foo", "empty"][..],
    ] {
        assert!(matches!(first_word(&argv(words)), First::File), "{words:?}");
    }
    for words in [
        &["rip", "empty"][..],
        &["rip", "--config", "c", "empty"][..],
        &["rip", "--config=c", "list"][..],
        &["rip", "empty", "--config", "c"][..],
        &["rip", "restore", "--", "-x"][..],
        &["rip", "-h", "undo"][..],
        &["rip", "purge"][..],
    ] {
        assert!(matches!(first_word(&argv(words)), First::Subcommand), "{words:?}");
    }
    for words in [
        &["rip"][..],
        &["rip", "-f"][..],
        &["rip", "--completions", "fish"][..],
        &["rip", "--config"][..],
        &["rip", "--version"][..],
    ] {
        assert!(matches!(first_word(&argv(words)), First::Nothing), "{words:?}");
    }
    assert!(matches!(first_word(&vec![]), First::Nothing));
}

#[test]
fn flags_before_a_subcommand_are_refused_with_a_hint() {
    for (words, name) in [
        (&["rip", "-rf", "empty"][..], "empty"),
        (&["rip", "-v", "list"][..], "list"),
        (&["rip", "--config", "c", "-v", "empty"][..], "empty"),
        (&["rip", "-f", "empty"][..], "empty"),
    ] {
        match first_word(&argv(words)) {
            First::SubcommandAfterRmFlags(n) => {
                assert_eq!(n, name.as_bytes());
                let hint = flags_hint(&n);
                assert!(hint.ends_with(&format!("write: rip -- {name}")), "{hint}");
            }
            _ => panic!("{words:?}"),
        }
    }
    assert!(is_subcommand(b"undo") && !is_subcommand(b"und") && !is_subcommand(b"help"));
}

#[test]
fn non_utf8_operand_is_a_file() {
    let bad = vec![0x66, 0x6f, 0x80, 0x6f]; // "fo<0x80>o"
    assert!(matches!(first_word(&vec![b"rip".to_vec(), bad]), First::File));
}

#[test]
fn completions_flag_exits_success() {
    assert_eq!(completions_exit_code(), 0);
    assert_ne!(Shell::Bash, Shell::Zsh);
    assert_ne!(Shell::Zsh, Shell::Fish);
}

// ---- sizes ----

#[test]
fn parse_size_units_and_case() {
    assert_eq!(parse_size("500M").unwrap(), 500 * (1u64 << 20));
    assert_eq!(parse_size("50G").unwrap(), 50 * (1u64 << 30));
    assert_eq!(parse_size("1048576").unwrap(), 1_048_576);
    assert_eq!(parse_size("4KiB").unwrap(), 4 * 1024);
    assert_eq!(parse_size("4k").unwrap(), 4 * 1024);
    assert_eq!(parse_size("0B").unwrap(), 0);
    assert_eq!(parse_size("1T").unwrap(), 1u64 << 40);
}

#[test]
fn parse_size_rejects_si_units_with_hint() {
    let err = parse_size("5MB").unwrap_err();
    assert!(err.contains("5M"), "{err}");
    let err = parse_size("500kb").unwrap_err();
    assert!(err.contains("500K"), "{err}");
}

#[test]
fn parse_size_rejects_non_integer() {
    assert!(parse_size("1.5G").is_err());
}

#[test]
fn parse_size_overflow() {
    assert!(parse_size("99999999999999999999T").is_err());
}

#[test]
fn sizes_at_the_edges() {
    assert_eq!(parse_size(" 7 ").unwrap(), 7);
    assert_eq!(parse_size("18446744073709551615").unwrap(), u64::MAX);
    assert_eq!(
        parse_size("18446744073709551616").unwrap_err(),
        "invalid size \"18446744073709551616\": use a whole number with K, M, G or T"
    );
    assert_eq!(
        parse_size("20000000T").unwrap_err(),
        "size \"20000000T\" is too large"
    );
    assert_eq!(
        parse_size("").unwrap_err(),
        "invalid size \"\": use a whole number with K, M, G or T"
    );
    assert_eq!(
        parse_size("5\tx").unwrap_err(),
        "invalid size \"5\\tx\": unknown unit"
    );
    assert_eq!(
        parse_size("5Gb").unwrap_err(),
        "invalid size \"5Gb\": units are binary; write 5G"
    );
    assert!(parse_size("5kib").is_err());
    assert!(parse_size("+5").is_err());
}

// ---- ages ----

#[test]
fn ages() {
    let a = parse_age("30d").unwrap();
    assert_eq!((a.days, a.negative), (30, false));
    let a = parse_age("P1Y2M3DT4H").unwrap();
    assert_eq!((a.years, a.months, a.days, a.hours), (1, 2, 3, 4));
    let err = parse_age("-3d").unwrap_err();
    assert_eq!(err, "invalid duration \"-3d\": must not be negative");
    let err = parse_age("banana").unwrap_err();
    assert!(err.starts_with("invalid duration \"banana\": "), "{err}");
    let err = accept_age("x", Err("why".to_string())).unwrap_err();
    assert_eq!(err, "invalid duration \"x\": why");
}

// ---- configuration ----

fn path() -> Vec<u8> {
    b"/c/config.toml".to_vec()
}

fn load(text: &str) -> Result<Config, String> {
    load_config(true, path(), ConfigRead::Text(text.to_string()))
}

#[test]
fn config_missing_default_file_gives_defaults() {
    let cfg = load_config(false, path(), ConfigRead::Missing("gone".to_string())).unwrap();
    assert_eq!(cfg.fallback, Fallback::Copy);
    assert_eq!(cfg.copy_threshold, 500 << 20);
    assert_eq!(cfg.source, path());
}

#[test]
fn config_missing_explicit_file_is_an_error() {
    let err = load_config(true, path(), ConfigRead::Missing("gone".to_string())).unwrap_err();
    assert_eq!(err, "/c/config.toml: gone");
    let err = load_config(false, path(), ConfigRead::Failed("denied".to_string())).unwrap_err();
    assert_eq!(err, "/c/config.toml: denied");
}

#[test]
fn config_rejects_unknown_key() {
    assert_eq!(
        load("nonsense = 1\n").unwrap_err(),
        "/c/config.toml: unknown key nonsense"
    );
}

#[test]
fn config_rejects_bad_fallback_value() {
    assert_eq!(
        load("fallback = \"maybe\"\n").unwrap_err(),
        "/c/config.toml: invalid value for fallback: String(\"maybe\")"
    );
}

#[test]
fn config_rejects_non_string_copy_threshold() {
    assert_eq!(
        load("copy_threshold = 5\n").unwrap_err(),
        "/c/config.toml: invalid value for copy_threshold: Integer(5)"
    );
}

#[test]
fn config_rejects_bad_copy_threshold_unit() {
    assert_eq!(
        load("copy_threshold = \"5X\"\n").unwrap_err(),
        "/c/config.toml: copy_threshold: invalid size \"5X\": unknown unit"
    );
}

#[test]
fn config_valid_file_loads() {
    let cfg = load("fallback = \"refuse\"\ncopy_threshold = \"250M\"\n").unwrap();
    assert_eq!(cfg.fallback, Fallback::Refuse);
    assert_eq!(cfg.copy_threshold, 250 << 20);
}

#[test]
fn config_that_is_no_toml_is_an_error() {
    let err = load("fallback = ").unwrap_err();
    assert!(err.starts_with("/c/config.toml: "), "{err}");
    assert_eq!(load("").unwrap().copy_threshold, 500 << 20);
}

#[test]
fn settings_one_by_one() {
    let s = |key: &str, text: Option<&str>| Setting {
        key: key.to_string(),
        text: text.map(|t| t.to_string()),
        shown: "V".to_string(),
    };
    let cfg = config_from(path(), &vec![s("fallback", Some("refuse"))]).unwrap();
    assert_eq!(cfg.fallback, Fallback::Refuse);
    let cfg = config_from(
        path(),
        &vec![s("copy_threshold", Some("1K")), s("fallback", Some("copy"))],
    )
    .unwrap();
    assert_eq!((cfg.fallback, cfg.copy_threshold), (Fallback::Copy, 1024));
    assert!(config_from(path(), &vec![s("fallback", None)]).is_err());
    assert!(config_from(path(), &vec![s("", Some("copy"))]).is_err());
    assert_eq!(Config::default_at(path()).copy_threshold, 524_288_000);
}

// ---- the environment ----

#[test]
fn places_in_the_environment() {
    let v = |s: &str| Some(s.as_bytes().to_vec());
    assert_eq!(env_abs(v("/x")), v("/x"));
    assert_eq!(env_abs(v("x")), None);
    assert_eq!(env_abs(v("")), None);
    assert_eq!(home_dir(v("/home/u")), Ok(b"/home/u".to_vec()));
    assert_eq!(home_dir(None), Err("HOME is not set"));
    assert_eq!(home_dir(v("")), Err("HOME is not set"));
    assert_eq!(home_dir(v("u")), Err("HOME is not an absolute path"));
    assert_eq!(config_home(v("/c"), b"/home/u"), b"/c");
    assert_eq!(config_home(v("c"), b"/home/u"), b"/home/u/.config");
    assert_eq!(config_path(&None, b"/c"), b"/c/ripper/config.toml");
    assert_eq!(config_path(&v("mine"), b"/c"), b"mine");
    assert_eq!(cwd_or(v("/w"), v("/p")), (b"/w".to_vec(), false));
    assert_eq!(cwd_or(None, v("/p")), (b"/p".to_vec(), true));
    assert_eq!(cwd_or(None, v("p")), (b"/".to_vec(), true));
    assert_eq!(cwd_or(None, None), (b"/".to_vec(), true));
}

// ---- questions ----

#[test]
fn confirm_without_a_terminal_fails_clearly() {
    assert_eq!(confirm(None), Answer::NoTerminal);
    assert_eq!(
        no_terminal("proceed?", "-y"),
        "proceed? (no terminal to ask on; -y skips this question)"
    );
}

#[test]
fn only_a_clear_yes_is_one() {
    for yes in ["y", "Y", "yes", "Yes", " y \n"] {
        assert_eq!(confirm(Some(yes)), Answer::Yes, "{yes:?}");
    }
    for no in ["", "n", "YES", "yep", "no\n"] {
        assert_eq!(confirm(Some(no)), Answer::No, "{no:?}");
    }
    assert_eq!(consent(false, Answer::NoTerminal), Consent::Go);
    assert_eq!(consent(true, Answer::Yes), Consent::Go);
    assert_eq!(consent(true, Answer::No), Consent::Stop);
    assert_eq!(consent(true, Answer::NoTerminal), Consent::Fail);
    assert_eq!(consent(true, Answer::Failed), Consent::Fail);
}

// ---- exit codes ----

#[test]
fn exit_codes() {
    let asked = |completions: bool, command: bool, operands: bool, force: bool| Asked {
        completions,
        command,
        operands,
        force,
    };
    assert_eq!(begin(asked(true, false, false, false)), Phase::Completions);
    assert_eq!(dispatch(Phase::Completions, Outcome::Good), Phase::Exit(0));
    assert_eq!(begin(asked(false, false, false, true)), Phase::Exit(0));
    assert_eq!(begin(asked(false, false, false, false)), Phase::Usage);
    assert_eq!(dispatch(Phase::Usage, Outcome::Good), Phase::Exit(2));
    let mut at = begin(asked(false, true, false, false));
    for want in [Phase::Config, Phase::Context, Phase::Run] {
        assert_eq!(dispatch(at, Outcome::Error), Phase::Complain(2));
        at = dispatch(at, Outcome::Good);
        assert_eq!(at, want);
    }
    assert_eq!(dispatch(at, Outcome::Good), Phase::Exit(0));
    assert_eq!(dispatch(at, Outcome::Partial), Phase::Exit(1));
    assert_eq!(dispatch(at, Outcome::Error), Phase::Complain(1));
    assert_eq!(dispatch(Phase::Complain(1), Outcome::Good), Phase::Exit(1));
}
