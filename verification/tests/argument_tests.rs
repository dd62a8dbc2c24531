use chess_engine::interface::arguments::{ArgumentParser, Arguments, ParsedArgs};
use chess_engine::interface::text::build_argument_parser;

fn arguments_of(p: ParsedArgs) -> Arguments {
    match p {
        ParsedArgs::Arguments(a) => a,
        ParsedArgs::SubCommand(_) => panic!("expected arguments"),
    }
}

fn file_parser() -> ArgumentParser {
    let mut builder = ArgumentParser::builder();
    builder.add_positional_arg("source", true, false).unwrap();
    builder.add_named_arg("mode", vec!["-m", "--mode"], true, false).unwrap();
    builder.add_named_arg("tags", vec!["-t"], false, true).unwrap();
    builder.add_flag_arg("verbose", vec!["-v", "--verbose"]).unwrap();
    builder.build()
}

#[test]
fn subcommand_with_positional_argument() {
    let parser = build_argument_parser();
    match parser.parse("new 3").unwrap() {
        ParsedArgs::SubCommand(s) => {
            assert_eq!(s.name, "new");
            let a = arguments_of(*s.args);
            assert_eq!(a.get_arg("depth"), Some(String::from("3")));
            assert_eq!(a.get_arg("type"), None);
        },
        ParsedArgs::Arguments(_) => panic!("expected a subcommand"),
    }
}

#[test]
fn subcommand_without_words_gives_no_arguments() {
    let parser = build_argument_parser();
    match parser.parse("new").unwrap() {
        ParsedArgs::SubCommand(s) => {
            assert_eq!(s.name, "new");
            let a = arguments_of(*s.args);
            assert_eq!(a.get_arg("depth"), None);
        },
        ParsedArgs::Arguments(_) => panic!("expected a subcommand"),
    }
}

#[test]
fn quoted_words_stay_together() {
    let parser = build_argument_parser();
    match parser.parse("list 'all moves'").unwrap() {
        ParsedArgs::SubCommand(s) => {
            assert_eq!(s.name, "list");
            let a = arguments_of(*s.args);
            assert_eq!(a.get_arg("type"), Some(String::from("all moves")));
        },
        ParsedArgs::Arguments(_) => panic!("expected a subcommand"),
    }
}

#[test]
fn unclosed_quote_is_an_error() {
    let parser = build_argument_parser();
    match parser.parse("list 'moves") {
        Err(e) => assert_eq!(e.msg, "Could not parse input into valid argments: missing closing quote"),
        Ok(_) => panic!("expected an error"),
    }
}

#[test]
fn extra_word_is_unexpected() {
    let parser = build_argument_parser();
    match parser.parse("new 3 4") {
        Err(e) => assert_eq!(e.msg, "Unexpected argument encountered: 4."),
        Ok(_) => panic!("expected an error"),
    }
}

#[test]
fn empty_line_gives_no_arguments() {
    let parser = build_argument_parser();
    let a = arguments_of(parser.parse("   ").unwrap());
    assert_eq!(a.get_arg("depth"), None);
    assert!(!a.get_flag("x"));
}

#[test]
fn unknown_first_word_without_positionals_is_unexpected() {
    let parser = build_argument_parser();
    match parser.parse("castle") {
        Err(e) => assert_eq!(e.msg, "Unexpected argument encountered: castle."),
        Ok(_) => panic!("expected an error"),
    }
}

#[test]
fn positional_named_and_flags() {
    let parser = file_parser();
    let a = arguments_of(parser.parse("in.txt --verbose --mode fast -t x y").unwrap());
    assert_eq!(a.get_arg("source"), Some(String::from("in.txt")));
    assert_eq!(a.get_arg("mode"), Some(String::from("fast")));
    assert_eq!(a.get_narg("tags"), Some(vec![String::from("x"), String::from("y")]));
    assert!(a.get_flag("verbose"));
}

#[test]
fn the_key_ending_a_named_list_is_used_up() {
    let parser = file_parser();
    let a = arguments_of(parser.parse("in.txt -m fast -t x y --verbose").unwrap());
    assert_eq!(a.get_narg("tags"), Some(vec![String::from("x"), String::from("y")]));
    assert!(!a.get_flag("verbose"));
}

#[test]
fn the_key_ending_a_positional_list_is_used_up() {
    let mut builder = ArgumentParser::builder();
    builder.add_positional_arg("source", true, false).unwrap();
    builder.add_positional_arg("targets", false, true).unwrap();
    builder.add_named_arg("mode", vec!["-m"], true, false).unwrap();
    let parser = builder.build();
    match parser.parse("in.txt a.txt -m fast") {
        Err(e) => assert_eq!(e.msg, "Unexpected argument encountered: fast."),
        Ok(_) => panic!("expected an error"),
    }
}

#[test]
fn missing_required_named_argument() {
    let parser = file_parser();
    match parser.parse("in.txt") {
        Err(e) => assert_eq!(e.msg, "Some required arguments were not provided."),
        Ok(_) => panic!("expected an error"),
    }
}

#[test]
fn named_argument_without_value() {
    let parser = file_parser();
    match parser.parse("in.txt -t") {
        Err(e) => assert_eq!(e.msg, "No value was specified for named arg tags."),
        Ok(_) => panic!("expected an error"),
    }
}

#[test]
fn missing_required_positional_argument() {
    let mut builder = ArgumentParser::builder();
    builder.add_positional_arg("first", false, false).unwrap();
    builder.add_flag_arg("quiet", vec!["-q"]).unwrap();
    let mut other = ArgumentParser::builder();
    other.add_positional_arg("a", true, false).unwrap();
    other.add_positional_arg("b", true, false).unwrap();
    other.add_positional_arg("c", true, false).unwrap();
    let parser = other.build();
    match parser.parse("one") {
        Err(e) => assert_eq!(e.msg, "Some required positional arguments were not provided."),
        Ok(_) => panic!("expected an error"),
    }
    let optional = builder.build();
    let a = arguments_of(optional.parse("-q").unwrap());
    assert_eq!(a.get_arg("first"), None);
    assert!(!a.get_flag("quiet"));
}

#[test]
fn parse_words_reads_given_words() {
    let parser = build_argument_parser();
    let words = vec![String::from("suggest"), String::from("5")];
    match parser.parse_words(&words).unwrap() {
        ParsedArgs::SubCommand(s) => {
            assert_eq!(s.name, "suggest");
            assert_eq!(arguments_of(*s.args).get_arg("count"), Some(String::from("5")));
        },
        ParsedArgs::Arguments(_) => panic!("expected a subcommand"),
    }
}

#[test]
fn builder_refuses_positional_after_list() {
    let mut builder = ArgumentParser::builder();
    builder.add_positional_arg("all", true, true).unwrap();
    match builder.add_positional_arg("more", true, false) {
        Err(e) => assert_eq!(e.msg, "Additional positional arguments cannot be added after a positional narg."),
        Ok(_) => panic!("expected an error"),
    }
}

#[test]
fn builder_refuses_required_after_optional() {
    let mut builder = ArgumentParser::builder();
    builder.add_positional_arg("maybe", false, false).unwrap();
    match builder.add_positional_arg("must", true, false) {
        Err(e) => assert_eq!(e.msg, "Required positional arguments cannot be added after optional ones."),
        Ok(_) => panic!("expected an error"),
    }
    match builder.add_positional_arg("many", false, true) {
        Err(e) => assert_eq!(e.msg, "Positional narg arguments cannot be added after optional positional arguments."),
        Ok(_) => panic!("expected an error"),
    }
}

#[test]
fn builder_refuses_bad_keys() {
    let mut builder = ArgumentParser::builder();
    match builder.add_named_arg("x", vec![], false, false) {
        Err(e) => assert_eq!(e.msg, "Named arguments must supply at least one key."),
        Ok(_) => panic!("expected an error"),
    }
    match builder.add_flag_arg("y", vec![]) {
        Err(e) => assert_eq!(e.msg, "Flag arguments must supply at least one key."),
        Ok(_) => panic!("expected an error"),
    }
    builder.add_flag_arg("z", vec!["-z"]).unwrap();
    match builder.add_named_arg("w", vec!["-w", "-z"], false, false) {
        Err(e) => assert_eq!(e.msg, "Some of the provided keys already belong to other arguments."),
        Ok(_) => panic!("expected an error"),
    }
}

#[test]
fn empty_arguments_hold_nothing() {
    let a = Arguments::new();
    assert_eq!(a.get_arg("a"), None);
    assert_eq!(a.get_narg("a"), None);
    assert!(!a.get_flag("a"));
}
