use optparse::global_fn::{each_split_within, is_arg, validate_names};
use optparse::optgroup::{HasArg, Name, Occur, OptGroup};
use optparse::width::{char_width, str_width};
use optparse::Options;

#[test]
fn usage_renders_aligned_rows() {
    let mut opts = Options::new();
    opts.optopt("o", "", "set output file name", "NAME");
    opts.optflag("h", "help", "print this help menu");
    let brief = "Usage: prog FILE [options]";
    let expected = "Usage: prog FILE [options]\n\
                    \n\
                    Options:\n\
                    \x20   -o NAME             set output file name\n\
                    \x20   -h, --help          print this help menu\n";
    assert_eq!(opts.usage(brief), expected);
}

#[test]
fn usage_reserves_short_column_only_when_some_short_exists() {
    let mut opts = Options::new();
    opts.optflag("", "alpha", "first");
    opts.optflag("", "beta", "second");
    let out = opts.usage("brief");
    // No option has a short name, so rows start right after the indent.
    assert!(out.contains("\n    --alpha "));
    assert!(out.contains("\n    --beta "));

    let mut opts2 = Options::new();
    opts2.optflag("a", "", "first");
    opts2.optflag("", "beta", "second");
    let out2 = opts2.usage("brief");
    // Now a short exists somewhere, so a long-only row reserves the column.
    assert!(out2.contains("\n    -a "));
    assert!(out2.contains("\n        --beta "));
}

#[test]
fn usage_long_prefix_pushes_description_to_next_line() {
    let mut opts = Options::new();
    opts.optopt(
        "o",
        "very-long-option-name",
        "the description",
        "ARGUMENT",
    );
    let out = opts.usage("brief");
    // Prefix is 24 columns or wider, so the description continues on
    // its own indented line.
    assert!(out.contains("ARGUMENT\n                        the description"));
}

#[test]
fn usage_optional_value_hint_is_bracketed() {
    let mut opts = Options::new();
    opts.grps.push(OptGroup {
        short_name: "v".to_string(),
        long_name: String::new(),
        hint: "LEVEL".to_string(),
        desc: "verbosity".to_string(),
        hasarg: HasArg::Maybe,
        occur: Occur::Optional,
    });
    let out = opts.usage("brief");
    assert!(out.contains("-v [LEVEL]"));
}

#[test]
fn usage_long_only_mode_renders_single_dash() {
    let mut opts = Options::new();
    opts.optflag("", "follow", "keep reading");
    opts.long_only(true);
    let out = opts.usage("brief");
    assert!(out.contains("\n    -follow "));
    assert!(!out.contains("--follow"));
}

#[test]
fn usage_with_format_hands_rows_to_formatter() {
    let mut opts = Options::new();
    opts.optflag("h", "help", "print help");
    let joined = opts.usage_with_format(|rows: Vec<String>| rows.join("|"));
    assert_eq!(joined, "    -h, --help          print help");
}

#[test]
fn wrap_keeps_lines_within_limit() {
    let desc = "one two three four five six seven eight nine ten eleven twelve";
    let rows = each_split_within(desc, 10);
    assert!(!rows.is_empty());
    for row in &rows {
        assert!(str_width(row) <= 10);
    }
}

#[test]
fn wrap_gives_overlong_word_its_own_row() {
    let rows = each_split_within("tiny incomprehensibilities end", 10);
    assert_eq!(
        rows,
        vec![
            "tiny".to_string(),
            "incomprehensibilities".to_string(),
            "end".to_string(),
        ]
    );
}

#[test]
fn wrap_greedy_packing() {
    let rows = each_split_within("a bb ccc dddd", 8);
    assert_eq!(rows, vec!["a bb ccc".to_string(), "dddd".to_string()]);
}

#[test]
fn wrap_preserves_author_line_breaks() {
    let rows = each_split_within("first line\nsecond line", 54);
    assert_eq!(rows, vec!["first line".to_string(), "second line".to_string()]);
}

#[test]
fn wrap_trims_and_collapses_whitespace() {
    let rows = each_split_within("  hello   world  ", 54);
    assert_eq!(rows, vec!["hello world".to_string()]);
}

#[test]
fn wrap_empty_description_gives_no_rows() {
    let rows = each_split_within("", 54);
    assert!(rows.is_empty());
}

#[test]
fn widths_of_characters() {
    assert_eq!(char_width('a'), 1);
    assert_eq!(char_width(' '), 1);
    assert_eq!(char_width('\n'), 0);
    assert_eq!(char_width('\u{4e00}'), 2);
    assert_eq!(char_width('\u{ff21}'), 2);
    assert_eq!(char_width('\u{300}'), 0);
}

#[test]
fn width_of_text_sums_characters() {
    assert_eq!(str_width(""), 0);
    assert_eq!(str_width("abc"), 3);
    assert_eq!(str_width("a\u{4e00}b"), 4);
}

#[test]
fn well_formedness_spots_bad_declarations() {
    let mut opts = Options::new();
    opts.optflag("a", "all", "everything");
    assert!(opts.is_well_formed());
    opts.grps.push(OptGroup {
        short_name: String::new(),
        long_name: "x".to_string(),
        hint: String::new(),
        desc: "one-character long name".to_string(),
        hasarg: HasArg::No,
        occur: Occur::Optional,
    });
    assert!(!opts.is_well_formed());
}

#[test]
fn validate_names_accepts_and_rejects_shapes() {
    assert!(validate_names("a", "alpha"));
    assert!(validate_names("", "alpha"));
    assert!(validate_names("a", ""));
    assert!(validate_names("", ""));
    // Names are counted in characters, not bytes.
    assert!(validate_names("\u{e9}", ""));
    assert!(validate_names("", "\u{e9}\u{e8}"));
    assert!(!validate_names("ab", "alpha"));
    assert!(!validate_names("a", "b"));
    assert!(!validate_names("a", "\u{e9}"));
}

#[test]
fn is_arg_recognizes_option_shapes() {
    assert!(is_arg("-a"));
    assert!(is_arg("--"));
    assert!(is_arg("--long"));
    assert!(!is_arg("-"));
    assert!(!is_arg("word"));
    assert!(!is_arg(""));
}

#[test]
fn name_round_trips_through_text() {
    let n = Name::from_str("x");
    assert_eq!(n.to_string(), "x");
    match n {
        Name::Short(c) => assert_eq!(c, 'x'),
        Name::Long(_) => panic!("one character should be a short name"),
    }
    let l = Name::from_str("xyz");
    assert_eq!(l.to_string(), "xyz");
    match l {
        Name::Long(s) => assert_eq!(s, "xyz"),
        Name::Short(_) => panic!("several characters should be a long name"),
    }
    // One character is short regardless of how many bytes encode it.
    match Name::from_str("\u{e9}") {
        Name::Short(c) => assert_eq!(c, '\u{e9}'),
        Name::Long(_) => panic!("one character should be a short name"),
    }
}
