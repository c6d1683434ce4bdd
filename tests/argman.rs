// Let's make sure ArgMan behaves the way is supposed to in a way that's simple to read

use rustlnd::argman;
use rustlnd::argman::{AccessError, ArgType, ParseError, ParseOutcome};
use rustlnd::table::Table;

#[test]
fn test_get_str_arg() {
    let raw_args = vec!["binname".to_string(), "-aaa=EXPECTED_STR".to_string()];
    let mut g_args = argman::ArgMan::new();
    g_args.add_arg_unset("-aaa", "Simple string arg");
    assert!(g_args.parse_args_vec(raw_args));
    assert_eq!(g_args.get("-aaa"), "EXPECTED_STR".to_string());
}

#[test]
fn test_help_returns_false() {
    let raw_args = vec!["binname".to_string(), "--help".to_string()];
    let mut g_args = argman::ArgMan::new();
    assert!(!g_args.parse_args_vec(raw_args));
}

#[test]
fn test_2_equals_returns_false() {
    let raw_args = vec!["binname".to_string(), "--aaa=bbb=ccc".to_string()];
    let mut g_args = argman::ArgMan::new();
    g_args.add_arg_unset("-aaa", "Simple string arg");
    assert!(!g_args.parse_args_vec(raw_args));
}

#[test]
fn test_set_0_equals_returns_false() {
    let raw_args = vec!["binname".to_string(), "-aaa".to_string()];
    let mut g_args = argman::ArgMan::new();
    g_args.add_arg_unset("-aaa", "Simple string arg");
    assert!(!g_args.parse_args_vec(raw_args));
}

#[test]
fn test_bool_0_equals_returs_true() {
    let raw_args = vec!["binname".to_string(), "-aaa".to_string()];
    let mut g_args = argman::ArgMan::new();
    g_args.add_arg_bool("-aaa", "0".to_string(), "Simple string arg");
    g_args.parse_args_vec(raw_args.clone());
    assert!(g_args.parse_args_vec(raw_args));
    assert_eq!(true, g_args.get_bool("-aaa"));
}

#[test]
fn test_unknown_argument_returns_false() {
    let raw_args = vec!["binname".to_string(), "-aaa=bbb".to_string()];
    let mut g_args = argman::ArgMan::new();
    assert!(!g_args.parse_args_vec(raw_args));
}

#[test]
fn argman_defined_default() {
    let raw_args = vec!["binname".to_string()];
    let mut g_args = argman::ArgMan::new();
    g_args.add_arg("-aaa", "mydefault".to_string().clone(), "Simple string arg");
    assert!(g_args.parse_args_vec(raw_args));
    assert_eq!("mydefault".to_string(), g_args.get("-aaa"));
}

#[test]
fn argman_changed_default() {
    let raw_args = vec!["binname".to_string(), "-aaa=notdefault".to_string()];
    let mut g_args = argman::ArgMan::new();
    let default_str = "mydefault".to_string();
    g_args.add_arg("-aaa", default_str.clone(), "Simple string arg");
    assert!(g_args.parse_args_vec(raw_args));
    assert_eq!("notdefault".to_string(), g_args.get("-aaa"));
}

#[test]
fn test_bool_invalid_format_selection() {
    let raw_args = vec!["binname".to_string(), "-aaa=bbb".to_string()];
    println!("{:?}", raw_args);
    let mut g_args = argman::ArgMan::new();
    g_args.add_arg_bool("-aaa", "0".to_string(), "Simple string arg");
    assert!(!g_args.parse_args_vec(raw_args));
}

fn str2bool(src: &str) -> bool {
    match src {
        "0" => return false,
        "1" => return true,
        _ => panic!("str2bool cannot parse {}", src),
    }
}

#[test]
fn test_get_bool_arg_default() {
    for default in vec!["0", "1"] {
        let raw_args = vec!["binname".to_string()];
        println!("{:?}", raw_args);
        let mut g_args = argman::ArgMan::new();
        g_args.add_arg_bool("-aaa", default.to_string(), "Simple string arg");
        assert!(g_args.parse_args_vec(raw_args));
        assert_eq!(g_args.get_bool("-aaa"), str2bool(default));
    }
}

#[test]
fn test_get_bool_arg_selection() {
    for default in vec!["0", "1"] {
        for selection in vec!["0", "1"] {
            let raw_args = vec!["binname".to_string(), format!("-aaa={}", selection).to_string()];
            println!("{:?}", raw_args);
            let mut g_args = argman::ArgMan::new();
            g_args.add_arg_bool("-aaa", default.to_string(), "Simple string arg");
            assert!(g_args.parse_args_vec(raw_args));
            assert_eq!(g_args.get_bool("-aaa"), str2bool(selection));
        }
    }
}

fn line(tokens: &[&str]) -> Vec<String> {
    tokens.iter().map(|t| t.to_string()).collect()
}

fn hosts() -> Table<String> {
    let mut m = Table::new();
    m.insert("main".to_string(), "localhost:8332".to_string());
    m
}

#[test]
fn undefined_name_is_reported() {
    let mut g_args = argman::ArgMan::new();
    assert!(g_args.parse_args_vec(line(&["binname"])));
    assert_eq!(g_args.check_access("-aaa", ArgType::ArgStr), Err(AccessError::NotDefined));
    assert_eq!(g_args.check_access("-aaa", ArgType::ArgBool), Err(AccessError::NotDefined));
    assert_eq!(g_args.check_access("-aaa", ArgType::ArgMultistr), Err(AccessError::NotDefined));
    assert_eq!(g_args.check_access("-aaa", ArgType::ArgMapStr), Err(AccessError::NotDefined));
}

#[test]
fn defined_unset_is_reported() {
    let mut g_args = argman::ArgMan::new();
    g_args.add_arg_unset("-aaa", "Simple string arg");
    assert!(g_args.parse_args_vec(line(&["binname"])));
    assert_eq!(g_args.check_access("-aaa", ArgType::ArgStr), Err(AccessError::NotSet));
}

#[test]
fn wrong_shape_is_reported() {
    let mut g_args = argman::ArgMan::new();
    g_args.add_arg_bool("-daemon", "0".to_string(), "Run in background");
    g_args.add_arg("-p2phost", "localhost:9999".to_string(), "p2p address");
    assert!(g_args.parse_args_vec(line(&["binname"])));
    assert_eq!(g_args.check_access("-daemon", ArgType::ArgStr), Err(AccessError::WrongShape));
    assert_eq!(g_args.check_access("-p2phost", ArgType::ArgBool), Err(AccessError::WrongShape));
    assert_eq!(g_args.check_access("-p2phost", ArgType::ArgMultistr), Err(AccessError::WrongShape));
    assert_eq!(g_args.check_access("-daemon", ArgType::ArgBool), Ok(()));
    assert_eq!(g_args.check_access("-p2phost", ArgType::ArgStr), Ok(()));
}

#[test]
fn scenario_daemon_flag() {
    let mut g_args = argman::ArgMan::new();
    g_args.add_arg_bool("-daemon", "0".to_string(), "Run in background");
    assert!(g_args.parse_args_vec(line(&["bin", "-daemon"])));
    assert!(g_args.get_bool("-daemon"));
}

#[test]
fn scenario_chain_default_and_given() {
    let mut g_args = argman::ArgMan::new();
    g_args.add_arg_multi("-chain", vec!["regtest".to_string()], "Selected chain");
    assert!(g_args.parse_args_vec(line(&["bin"])));
    assert_eq!(g_args.get_multi("-chain"), &vec!["regtest".to_string()]);

    let mut g_args = argman::ArgMan::new();
    g_args.add_arg_multi("-chain", vec!["regtest".to_string()], "Selected chain");
    assert!(g_args.parse_args_vec(line(&["bin", "-chain=main", "-chain=test"])));
    assert_eq!(g_args.get_multi("-chain"), &vec!["main".to_string(), "test".to_string()]);
}

#[test]
fn scenario_rpchost_category() {
    let mut g_args = argman::ArgMan::new();
    g_args.add_arg_with_category("-rpchost", hosts(), "bitcoind RPC host");
    assert!(g_args.parse_args_vec(line(&["bin", "main.-rpchost=1.2.3.4:8332"])));
    assert_eq!(g_args.get_by_category("main", "-rpchost"), "1.2.3.4:8332");
}

#[test]
fn scenario_rpchost_name_first_is_unknown() {
    let mut g_args = argman::ArgMan::new();
    g_args.add_arg_with_category("-rpchost", hosts(), "bitcoind RPC host");
    let outcome = g_args.parse_tokens(&line(&["bin", "-rpchost.main=1.2.3.4:8332"]));
    assert_eq!(outcome, ParseOutcome::Failed(ParseError::UnknownArgument, 1));
}

#[test]
fn scenario_p2phost_absent() {
    let mut g_args = argman::ArgMan::new();
    g_args.add_arg_unset("-p2phost", "p2p address");
    assert!(g_args.parse_args_vec(line(&["bin"])));
    assert!(g_args.is_none("-p2phost"));
    assert_eq!(g_args.check_access("-p2phost", ArgType::ArgStr), Err(AccessError::NotSet));
}

#[test]
fn scenario_two_equals_on_empty_registry() {
    let mut g_args = argman::ArgMan::new();
    let outcome = g_args.parse_tokens(&line(&["bin", "-x=1=2"]));
    assert_eq!(outcome, ParseOutcome::Failed(ParseError::TooManyEquals, 1));
}

#[test]
fn defaults_of_every_shape() {
    let mut g_args = argman::ArgMan::new();
    g_args.add_arg("-p2phost", "localhost:9999".to_string(), "p2p address");
    g_args.add_arg_bool("-daemon", "1".to_string(), "Run in background");
    g_args.add_arg_multi("-chain", vec!["regtest".to_string(), "main".to_string()], "chains");
    g_args.add_arg_with_category("-rpchost", hosts(), "bitcoind RPC host");
    g_args.add_arg_with_category("-rpcuser", Table::new(), "bitcoind RPC user");
    assert_eq!(g_args.parse_tokens(&line(&["bin"])), ParseOutcome::Ready);
    assert_eq!(g_args.get("-p2phost"), "localhost:9999");
    assert!(g_args.get_bool("-daemon"));
    assert_eq!(g_args.get_multi("-chain"), &vec!["regtest".to_string(), "main".to_string()]);
    assert_eq!(g_args.get_by_category("main", "-rpchost"), "localhost:8332");
    assert_eq!(g_args.check_access("-rpcuser", ArgType::ArgMapStr), Ok(()));
    assert!(!g_args.is_none("-chain"));
}

#[test]
fn last_occurrence_wins() {
    let mut g_args = argman::ArgMan::new();
    g_args.add_arg("-p2phost", "localhost:9999".to_string(), "p2p address");
    g_args.add_arg_bool("-daemon", "0".to_string(), "Run in background");
    let raw = line(&["bin", "-p2phost=a", "-daemon", "-p2phost=b", "-daemon=0", "-p2phost=c"]);
    assert!(g_args.parse_args_vec(raw));
    assert_eq!(g_args.get("-p2phost"), "c");
    assert!(!g_args.get_bool("-daemon"));
}

#[test]
fn list_values_keep_their_order() {
    let mut g_args = argman::ArgMan::new();
    g_args.add_arg_multi("-chain", vec!["regtest".to_string()], "chains");
    g_args.add_arg("-p2phost", "localhost:9999".to_string(), "p2p address");
    let raw = line(&["bin", "-chain=c", "-p2phost=x", "-chain=a", "-chain=b", "-chain=a"]);
    assert!(g_args.parse_args_vec(raw));
    let expected = vec!["c".to_string(), "a".to_string(), "b".to_string(), "a".to_string()];
    assert_eq!(g_args.get_multi("-chain"), &expected);
}

#[test]
fn category_values_by_category() {
    let mut g_args = argman::ArgMan::new();
    g_args.add_arg_with_category("-rpchost", hosts(), "bitcoind RPC host");
    g_args.add_arg_with_category("-rpcuser", Table::new(), "bitcoind RPC user");
    let raw = line(&["bin", "test.-rpchost=h1", "test.-rpchost=h2", "main.-rpcuser=alice"]);
    assert!(g_args.parse_args_vec(raw));
    assert_eq!(g_args.get_by_category("test", "-rpchost"), "h2");
    assert_eq!(g_args.get_by_category("main", "-rpcuser"), "alice");
}

#[test]
fn empty_value_and_empty_category() {
    let mut g_args = argman::ArgMan::new();
    g_args.add_arg("-p2phost", "localhost:9999".to_string(), "p2p address");
    g_args.add_arg_with_category("-rpcpass", Table::new(), "bitcoind RPC password");
    assert!(g_args.parse_args_vec(line(&["bin", "-p2phost=", ".-rpcpass=pw"])));
    assert_eq!(g_args.get("-p2phost"), "");
    assert_eq!(g_args.get_by_category("", "-rpcpass"), "pw");
}

#[test]
fn bare_token_on_each_shape() {
    let mut g_args = argman::ArgMan::new();
    g_args.add_arg_bool("-daemon", "0".to_string(), "Run in background");
    g_args.add_arg("-p2phost", "localhost:9999".to_string(), "p2p address");
    g_args.add_arg_multi("-chain", vec![], "chains");
    assert_eq!(
        g_args.parse_tokens(&line(&["bin", "-p2phost"])),
        ParseOutcome::Failed(ParseError::MissingValue, 1)
    );
    assert_eq!(
        g_args.parse_tokens(&line(&["bin", "-daemon", "-chain"])),
        ParseOutcome::Failed(ParseError::MissingValue, 2)
    );
    assert_eq!(g_args.parse_tokens(&line(&["bin", "-daemon"])), ParseOutcome::Ready);
    assert!(g_args.get_bool("-daemon"));
}

#[test]
fn every_parse_error() {
    let mut g_args = argman::ArgMan::new();
    g_args.add_arg_bool("-daemon", "0".to_string(), "Run in background");
    g_args.add_arg("-p2phost", "localhost:9999".to_string(), "p2p address");
    g_args.add_arg_with_category("-rpchost", hosts(), "bitcoind RPC host");
    let cases = vec![
        ("-p2phost=a=b", ParseError::TooManyEquals),
        ("a.b.-rpchost=x", ParseError::BadCategorySyntax),
        ("-nothere=1", ParseError::UnknownArgument),
        ("-p2phost", ParseError::MissingValue),
        ("-rpchost=x", ParseError::CategoryMismatch),
        ("main.-p2phost=x", ParseError::CategoryMismatch),
        ("-daemon=yes", ParseError::NotABool),
        ("-daemon=", ParseError::NotABool),
    ];
    for (token, error) in cases {
        let outcome = g_args.parse_tokens(&line(&["bin", token]));
        assert_eq!(outcome, ParseOutcome::Failed(error, 1), "{}", token);
    }
}

#[test]
fn error_keeps_earlier_tokens_and_skips_defaults() {
    let mut g_args = argman::ArgMan::new();
    g_args.add_arg("-p2phost", "localhost:9999".to_string(), "p2p address");
    g_args.add_arg_multi("-chain", vec!["regtest".to_string()], "chains");
    let outcome = g_args.parse_tokens(&line(&["bin", "-p2phost=a", "-bad", "-p2phost=b"]));
    assert_eq!(outcome, ParseOutcome::Failed(ParseError::UnknownArgument, 2));
    assert_eq!(g_args.get("-p2phost"), "a");
    assert_eq!(g_args.check_access("-chain", ArgType::ArgMultistr), Err(AccessError::NotSet));
}

#[test]
fn help_anywhere_changes_nothing() {
    let mut g_args = argman::ArgMan::new();
    g_args.add_arg("-p2phost", "localhost:9999".to_string(), "p2p address");
    let outcome = g_args.parse_tokens(&line(&["bin", "-p2phost=a", "-x=1=2", "--help"]));
    assert_eq!(outcome, ParseOutcome::HelpRequested);
    assert!(g_args.is_none("-p2phost"));
    assert_eq!(g_args.check_access("-p2phost", ArgType::ArgStr), Err(AccessError::NotSet));
}

#[test]
fn empty_command_line_is_ready() {
    let mut g_args = argman::ArgMan::new();
    g_args.add_arg("-p2phost", "localhost:9999".to_string(), "p2p address");
    assert_eq!(g_args.parse_tokens(&Vec::new()), ParseOutcome::Ready);
    assert_eq!(g_args.get("-p2phost"), "localhost:9999");
}

#[test]
fn redeclaring_replaces_and_drops_the_value() {
    let mut g_args = argman::ArgMan::new();
    g_args.add_arg("-aaa", "x".to_string(), "first");
    assert!(g_args.parse_args_vec(line(&["bin", "-aaa=given"])));
    assert_eq!(g_args.get("-aaa"), "given");
    g_args.add_arg_bool("-aaa", "1".to_string(), "second");
    assert!(g_args.is_none("-aaa"));
    assert_eq!(g_args.check_access("-aaa", ArgType::ArgStr), Err(AccessError::WrongShape));
    g_args.set_defaults();
    assert!(g_args.get_bool("-aaa"));
}

#[test]
fn usage_lists_every_option() {
    let mut g_args = argman::ArgMan::new();
    g_args.add_arg("-p2phost", "localhost:9999".to_string(), "p2p address");
    g_args.add_arg_unset("-rgb_color", "node color");
    g_args.add_arg_multi("-chain", vec![], "chains");
    let mut entries = g_args.usage_entries();
    entries.sort_by(|a, b| a.name.cmp(&b.name));
    assert_eq!(entries.len(), 3);
    assert_eq!(entries[0].name, "-chain");
    assert_eq!(entries[0].arg_type, ArgType::ArgMultistr);
    assert_eq!(entries[1].name, "-p2phost");
    assert_eq!(entries[1].description, "p2p address");
    assert_eq!(entries[1].default, Some("localhost:9999".to_string()));
    assert_eq!(entries[2].name, "-rgb_color");
    assert_eq!(entries[2].default, None);
}

#[test]
fn category_default_applies_only_to_an_option_never_given() {
    let mut g_args = argman::ArgMan::new();
    g_args.add_arg_with_category("-rpchost", hosts(), "bitcoind RPC host");
    assert!(g_args.parse_args_vec(line(&["bin", "test.-rpchost=h"])));
    assert_eq!(g_args.get_by_category("test", "-rpchost"), "h");
    assert!(!g_args.is_category_set("main", "-rpchost"));

    let mut g_args = argman::ArgMan::new();
    g_args.add_arg_with_category("-rpchost", hosts(), "bitcoind RPC host");
    assert!(g_args.parse_args_vec(line(&["bin"])));
    assert!(g_args.is_category_set("main", "-rpchost"));
    assert!(!g_args.is_category_set("test", "-rpchost"));
}
