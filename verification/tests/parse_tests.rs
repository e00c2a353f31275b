use optparse::optgroup::{HasArg, Occur, OptGroup, ParsingStyle};
use optparse::result_error::Fail;
use optparse::Options;

fn args(xs: &[&str]) -> Vec<String> {
    xs.iter().map(|s| s.to_string()).collect()
}

fn maybe_opt(opts: &mut Options, short: &str, long: &str) {
    opts.grps.push(OptGroup {
        short_name: short.to_string(),
        long_name: long.to_string(),
        hint: "VAL".to_string(),
        desc: "optional value".to_string(),
        hasarg: HasArg::Maybe,
        occur: Occur::Optional,
    });
}

#[test]
fn free_only_tokens_pass_through_verbatim() {
    let mut opts = Options::new();
    opts.optflag("a", "", "flag a");
    let m = opts.parse(&args(&["one", "two", "three"])).unwrap();
    assert_eq!(m.free, args(&["one", "two", "three"]));
    assert_eq!(m.args_end, None);
    assert!(!m.opt_present("a"));
}

#[test]
fn lone_dash_is_free() {
    let opts = Options::new();
    let m = opts.parse(&args(&["-"])).unwrap();
    assert_eq!(m.free, args(&["-"]));
}

#[test]
fn terminator_as_last_token_reports_none() {
    let opts = Options::new();
    let m = opts.parse(&args(&["a", "--"])).unwrap();
    assert_eq!(m.free, args(&["a"]));
    assert_eq!(m.args_end, None);
}

#[test]
fn terminator_in_middle_reports_split_point() {
    let mut opts = Options::new();
    opts.optflag("a", "", "flag a");
    let m = opts.parse(&args(&["x", "--", "-a", "y"])).unwrap();
    assert_eq!(m.free, args(&["x", "-a", "y"]));
    assert_eq!(m.args_end, Some(1));
    assert!(!m.opt_present("a"));
}

#[test]
fn terminator_first_captures_everything() {
    let mut opts = Options::new();
    opts.optflag("a", "", "flag a");
    let m = opts.parse(&args(&["--", "-a", "--b", "c"])).unwrap();
    assert_eq!(m.free, args(&["-a", "--b", "c"]));
    assert_eq!(m.args_end, Some(0));
}

#[test]
fn cluster_with_trailing_value_option() {
    let mut opts = Options::new();
    opts.optflag("a", "", "flag a");
    opts.optflag("b", "", "flag b");
    opts.optopt("o", "", "output", "X");
    let m = opts.parse(&args(&["-abo", "X"])).unwrap();
    assert!(m.opt_present("a"));
    assert!(m.opt_present("b"));
    assert_eq!(m.opt_str("o"), Some("X".to_string()));
    assert!(m.free.is_empty());
}

#[test]
fn cluster_with_inline_value() {
    let mut opts = Options::new();
    opts.optflag("a", "", "flag a");
    opts.optopt("o", "", "output", "X");
    let m = opts.parse(&args(&["-ao/usr/lib"])).unwrap();
    assert!(m.opt_present("a"));
    assert_eq!(m.opt_str("o"), Some("/usr/lib".to_string()));
}

#[test]
fn long_option_equals_and_following_value_agree() {
    let mut opts = Options::new();
    opts.optopt("", "name", "a name", "NAME");
    let m1 = opts.parse(&args(&["--name=value"])).unwrap();
    let m2 = opts.parse(&args(&["--name", "value"])).unwrap();
    assert_eq!(m1.opt_str("name"), Some("value".to_string()));
    assert_eq!(m2.opt_str("name"), Some("value".to_string()));
}

#[test]
fn long_option_value_may_contain_equals() {
    let mut opts = Options::new();
    opts.optopt("", "name", "a name", "NAME");
    let m = opts.parse(&args(&["--name=a=b"])).unwrap();
    assert_eq!(m.opt_str("name"), Some("a=b".to_string()));
}

#[test]
fn optional_value_long_consumes_free_looking_token() {
    let mut opts = Options::new();
    maybe_opt(&mut opts, "", "verbose");
    let m = opts.parse(&args(&["--verbose", "high"])).unwrap();
    assert_eq!(m.opt_str("verbose"), Some("high".to_string()));
    assert!(m.free.is_empty());
}

#[test]
fn optional_value_long_keeps_option_looking_token() {
    let mut opts = Options::new();
    maybe_opt(&mut opts, "", "verbose");
    opts.optflag("a", "", "flag a");
    let m = opts.parse(&args(&["--verbose", "-a"])).unwrap();
    assert!(m.opt_present("verbose"));
    assert_eq!(m.opt_str("verbose"), None);
    assert!(m.opt_present("a"));
}

#[test]
fn optional_value_long_takes_attached_value() {
    let mut opts = Options::new();
    maybe_opt(&mut opts, "", "verbose");
    let m = opts.parse(&args(&["--verbose=high"])).unwrap();
    assert_eq!(m.opt_str("verbose"), Some("high".to_string()));
}

#[test]
fn optional_value_short_never_consumes_next_token() {
    let mut opts = Options::new();
    maybe_opt(&mut opts, "v", "");
    let m = opts.parse(&args(&["-v", "word"])).unwrap();
    assert!(m.opt_present("v"));
    assert_eq!(m.opt_str("v"), None);
    assert_eq!(m.free, args(&["word"]));
}

#[test]
fn optional_value_short_takes_inline_rest() {
    let mut opts = Options::new();
    maybe_opt(&mut opts, "v", "");
    let m = opts.parse(&args(&["-vhigh"])).unwrap();
    assert_eq!(m.opt_str("v"), Some("high".to_string()));
}

#[test]
fn optopt_declared_option_may_be_absent() {
    let mut opts = Options::new();
    opts.optopt("o", "optional", "optional text option", "TEXT");
    opts.reqopt("m", "mandatory", "mandatory text option", "TEXT");

    let result = opts.parse(&args(&["--mandatory", "foo"]));
    assert!(result.is_ok());
    let m = result.unwrap();
    assert!(!m.opt_present("optional"));
    assert_eq!(m.opt_str("optional"), None);

    let result = opts.parse(&args(&["--optional", "foo"]));
    match result.unwrap_err() {
        Fail::OptionMissing(nm) => assert_eq!(nm, "mandatory"),
        other => panic!("unexpected failure: {}", other.to_string()),
    }
}

#[test]
fn optopt_declared_option_occurs_at_most_once() {
    let mut opts = Options::new();
    opts.optopt("o", "", "output", "FILE");
    let e = opts.parse(&args(&["-o", "x", "-o", "y"])).unwrap_err();
    match e {
        Fail::OptionDuplicated(nm) => assert_eq!(nm, "o"),
        other => panic!("unexpected failure: {}", other.to_string()),
    }
}

#[test]
fn non_ascii_short_option_parses() {
    let mut opts = Options::new();
    opts.optflag("\u{e9}", "", "accented flag");
    let m = opts.parse(&args(&["-\u{e9}"])).unwrap();
    assert!(m.opt_present("\u{e9}"));
}

#[test]
fn missing_required_option_fails() {
    let mut opts = Options::new();
    opts.reqopt("m", "mandatory", "must be given", "TEXT");
    let e = opts.parse(&args(&[])).unwrap_err();
    match e {
        Fail::OptionMissing(nm) => assert_eq!(nm, "mandatory"),
        other => panic!("unexpected failure: {}", other.to_string()),
    }
}

#[test]
fn duplicated_at_most_once_option_fails() {
    let mut opts = Options::new();
    opts.optflag("f", "", "a flag");
    let e = opts.parse(&args(&["-f", "-f"])).unwrap_err();
    match e {
        Fail::OptionDuplicated(nm) => assert_eq!(nm, "f"),
        other => panic!("unexpected failure: {}", other.to_string()),
    }
}

#[test]
fn unrecognized_option_fails() {
    let opts = Options::new();
    let e = opts.parse(&args(&["-x"])).unwrap_err();
    match e {
        Fail::UnrecognizedOption(nm) => assert_eq!(nm, "x"),
        other => panic!("unexpected failure: {}", other.to_string()),
    }
}

#[test]
fn unrecognized_long_option_fails() {
    let opts = Options::new();
    let e = opts.parse(&args(&["--nope"])).unwrap_err();
    match e {
        Fail::UnrecognizedOption(nm) => assert_eq!(nm, "nope"),
        other => panic!("unexpected failure: {}", other.to_string()),
    }
}

#[test]
fn argument_missing_fails() {
    let mut opts = Options::new();
    opts.optopt("o", "output", "output file", "FILE");
    let e = opts.parse(&args(&["--output"])).unwrap_err();
    match e {
        Fail::ArgumentMissing(nm) => assert_eq!(nm, "output"),
        other => panic!("unexpected failure: {}", other.to_string()),
    }
}

#[test]
fn unexpected_argument_fails() {
    let mut opts = Options::new();
    opts.optflag("h", "help", "help");
    let e = opts.parse(&args(&["--help=now"])).unwrap_err();
    match e {
        Fail::UnexpectedArgument(nm) => assert_eq!(nm, "help"),
        other => panic!("unexpected failure: {}", other.to_string()),
    }
}

#[test]
fn scanning_failure_precedes_validation_failure() {
    let mut opts = Options::new();
    opts.reqopt("m", "mandatory", "must be given", "TEXT");
    let e = opts.parse(&args(&["-x"])).unwrap_err();
    match e {
        Fail::UnrecognizedOption(nm) => assert_eq!(nm, "x"),
        other => panic!("unexpected failure: {}", other.to_string()),
    }
}

#[test]
fn failure_messages_render() {
    assert_eq!(
        Fail::ArgumentMissing("o".to_string()).to_string(),
        "Argument to option 'o' missing"
    );
    assert_eq!(
        Fail::UnrecognizedOption("x".to_string()).to_string(),
        "Unrecognized option: 'x'"
    );
    assert_eq!(
        Fail::OptionMissing("m".to_string()).to_string(),
        "Required option 'm' missing"
    );
    assert_eq!(
        Fail::OptionDuplicated("f".to_string()).to_string(),
        "Option 'f' given more than once"
    );
    assert_eq!(
        Fail::UnexpectedArgument("h".to_string()).to_string(),
        "Option 'h' does not take an argument"
    );
}

#[test]
fn repeated_parse_is_identical() {
    let mut opts = Options::new();
    opts.optflag("a", "all", "all");
    opts.optopt("o", "output", "output", "FILE");
    let input = args(&["-a", "--output=x", "free1", "--", "-z"]);
    let m1 = opts.parse(&input).unwrap();
    let m2 = opts.parse(&input).unwrap();
    assert_eq!(m1.free, m2.free);
    assert_eq!(m1.args_end, m2.args_end);
    assert_eq!(m1.opt_present("a"), m2.opt_present("a"));
    assert_eq!(m1.opt_str("o"), m2.opt_str("o"));
    assert_eq!(m1.opt_str("output"), m2.opt_str("output"));
}

#[test]
fn alias_queries_agree_for_both_names() {
    let mut opts = Options::new();
    opts.optflag("a", "all", "all");
    opts.optopt("o", "output", "output", "FILE");
    let m = opts.parse(&args(&["-a", "-o", "x"])).unwrap();
    assert_eq!(m.opt_present("a"), m.opt_present("all"));
    assert!(m.opt_present("all"));
    assert_eq!(m.opt_str("o"), m.opt_str("output"));
    assert_eq!(m.opt_str("output"), Some("x".to_string()));

    let m2 = opts.parse(&args(&["--all", "--output", "x"])).unwrap();
    assert!(m2.opt_present("a"));
    assert_eq!(m2.opt_str("o"), Some("x".to_string()));
}

#[test]
fn stop_at_first_free_copies_rest_verbatim() {
    let mut opts = Options::new();
    opts.optflag("a", "", "flag a");
    opts.parsing_style(ParsingStyle::StopAtFirstFree);
    let m = opts.parse(&args(&["-a", "free", "-a", "--x"])).unwrap();
    assert!(m.opt_present("a"));
    assert_eq!(m.free, args(&["free", "-a", "--x"]));
}

#[test]
fn long_only_mode_accepts_single_dash_long() {
    let mut opts = Options::new();
    opts.optopt("", "name", "a name", "NAME");
    opts.long_only(true);
    let m = opts.parse(&args(&["-name=value"])).unwrap();
    assert_eq!(m.opt_str("name"), Some("value".to_string()));
}

#[test]
fn capture_positions_count_top_level_tokens() {
    let mut opts = Options::new();
    opts.optflag("a", "", "flag a");
    opts.optopt("o", "", "output", "X");
    let m = opts.parse(&args(&["free", "-o", "val", "-a"])).unwrap();
    // positions: free=0, -o=1 (val does not count), -a=2
    assert_eq!(m.vals[1][0].0, 1);
    assert_eq!(m.vals[0][0].0, 2);
}

#[test]
fn default_and_cloned_registries_parse_alike() {
    let mut opts = Options::default();
    opts.optflag("a", "all", "everything");
    let copy = opts.clone();
    let input = args(&["-a", "rest"]);
    let m1 = opts.parse(&input).unwrap();
    let m2 = copy.parse(&input).unwrap();
    assert_eq!(m1.opt_present("a"), m2.opt_present("a"));
    assert_eq!(m1.free, m2.free);
}

#[test]
fn cloned_matches_answer_alike() {
    let mut opts = Options::new();
    opts.optopt("o", "", "output", "FILE");
    let m = opts.parse(&args(&["-o", "x", "free"])).unwrap();
    let c = m.clone();
    assert_eq!(m.free, c.free);
    assert_eq!(m.args_end, c.args_end);
    assert_eq!(m.opt_str("o"), c.opt_str("o"));
}

#[test]
fn empty_input_parses_empty() {
    let mut opts = Options::new();
    opts.optflag("a", "", "flag a");
    let m = opts.parse(&args(&[])).unwrap();
    assert!(m.free.is_empty());
    assert_eq!(m.args_end, None);
    assert!(!m.opt_present("a"));
}
