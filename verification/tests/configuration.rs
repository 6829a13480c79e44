use pear::config::{
    config_path_from_args, flush_proxy_section, parse_usize_arg, Config, ConfigFile,
    ConfigSection, PartialProxy,
};
use pear::runtime::{default_max_connections, RuntimeConfig};
use pear::toml::{
    parse_bool, parse_key, parse_quoted_string, parse_string, parse_u16, parse_usize,
    strip_inline_comment,
};

fn strings(args: &[&str]) -> Vec<String> {
    args.iter().map(|arg| arg.to_string()).collect()
}

fn dir() -> Result<String, String> {
    Ok("/work".to_string())
}

fn defaults() -> Config {
    Config::default_values(&dir(), None).expect("defaults")
}

fn parse(args: &[&str], file: ConfigFile) -> Result<Option<Config>, String> {
    Config::parse(&strings(args), &dir(), None, &file).0
}

fn run(args: &[&str]) -> Config {
    parse(args, ConfigFile::Missing).expect("arguments").expect("no help")
}

fn refused(args: &[&str]) -> String {
    parse(args, ConfigFile::Missing).expect_err("arguments")
}

fn read(content: &str) -> Result<Config, String> {
    let mut config = defaults();
    config.apply_toml(content, "c.toml").map(|_| config)
}

#[test]
fn runtime_validation_rejects_zero_values() {
    let invalid = RuntimeConfig {
        keep_alive_timeout_secs: 0,
        keep_alive_max: 1,
        max_events: 1,
        max_connections: 1,
        max_request_size: 1,
    };
    assert!(invalid.validate().is_err());

    let invalid = RuntimeConfig {
        keep_alive_timeout_secs: 1,
        keep_alive_max: 0,
        max_events: 1,
        max_connections: 1,
        max_request_size: 1,
    };
    assert!(invalid.validate().is_err());
}

#[test]
fn each_zero_limit_is_named() {
    let ones = RuntimeConfig {
        keep_alive_timeout_secs: 1,
        keep_alive_max: 1,
        max_events: 1,
        max_connections: 1,
        max_request_size: 1,
    };
    assert_eq!(ones.validate(), Ok(()));
    assert_eq!(ones.keep_alive_timeout(), 1);
    let says = |limits: RuntimeConfig| limits.validate().unwrap_err();
    assert_eq!(
        says(RuntimeConfig { keep_alive_timeout_secs: 0, keep_alive_max: 0, ..ones }),
        "keep-alive timeout must be greater than 0"
    );
    assert_eq!(
        says(RuntimeConfig { keep_alive_max: 0, ..ones }),
        "keep-alive max must be greater than 0"
    );
    assert_eq!(
        says(RuntimeConfig { max_events: 0, ..ones }),
        "max-events must be greater than 0"
    );
    assert_eq!(
        says(RuntimeConfig { max_connections: 0, ..ones }),
        "max-connections must be greater than 0"
    );
    assert_eq!(
        says(RuntimeConfig { max_request_size: 0, ..ones }),
        "max-request-size must be greater than 0"
    );
}

#[test]
fn connections_follow_the_descriptor_limit() {
    assert_eq!(default_max_connections(None), 4096);
    assert_eq!(default_max_connections(Some(1024)), 896);
    assert_eq!(default_max_connections(Some(129)), 1);
    assert_eq!(default_max_connections(Some(128)), 1);
    assert_eq!(default_max_connections(Some(0)), 1);
    assert_eq!(default_max_connections(Some(1_000_000)), 16384);
    let mut limits = RuntimeConfig::default_values(Some(1024));
    assert_eq!(limits.keep_alive_timeout_secs, 5);
    assert_eq!(limits.keep_alive_max, 100);
    assert_eq!(limits.max_events, 256);
    assert_eq!(limits.max_connections, 896);
    assert_eq!(limits.max_request_size, 1024 * 1024);
    assert_eq!(limits.adjust_to_os_fd_limit(Some(1024)), None);
    assert_eq!(limits.adjust_to_os_fd_limit(None), None);
    assert_eq!(
        limits.adjust_to_os_fd_limit(Some(256)).as_deref(),
        Some("Warning: max_connections=896 exceeds OS file descriptor limit 256 (reserved 128), capping to 128")
    );
    assert_eq!(limits.max_connections, 128);
    assert_eq!(limits.adjust_to_os_fd_limit(Some(256)), None);
}

#[test]
fn comments_end_lines_outside_quotes() {
    assert_eq!(strip_inline_comment("a = 1 # b"), "a = 1 ");
    assert_eq!(strip_inline_comment("# all"), "");
    assert_eq!(strip_inline_comment("a = \"x # y\" # z"), "a = \"x # y\" ");
    assert_eq!(strip_inline_comment(r##"a = "\" # x" # y"##), r##"a = "\" # x" "##);
    assert_eq!(strip_inline_comment(r##"a = "\\" # y"##), r##"a = "\\" "##);
    assert_eq!(strip_inline_comment("plain"), "plain");
    let once = strip_inline_comment("a = \"#\" # b # c");
    assert_eq!(strip_inline_comment(&once), once);
}

#[test]
fn quoted_texts() {
    assert_eq!(parse_quoted_string("\"a\"").as_deref(), Some("a"));
    assert_eq!(parse_quoted_string("\"\"").as_deref(), Some(""));
    assert_eq!(parse_quoted_string("\""), None);
    assert_eq!(parse_quoted_string(""), None);
    assert_eq!(parse_quoted_string("a"), None);
    assert_eq!(parse_quoted_string("\"a"), None);
    assert_eq!(parse_quoted_string(r#""\"\\\n\r\t\x""#).as_deref(), Some("\"\\\n\r\t\\x"));
    assert_eq!(parse_quoted_string(r#""a\""#), None);
    assert_eq!(parse_quoted_string("\"a\"b\"").as_deref(), Some("a\"b"));
    assert_eq!(parse_key("\"/api\""), "/api");
    assert_eq!(parse_key("host"), "host");
    assert_eq!(parse_string("\"x\"", "f", 3).as_deref(), Ok("x"));
    assert_eq!(
        parse_string("x", "f", 3).unwrap_err(),
        "f:3: expected quoted string, got: x"
    );
}

#[test]
fn escaped_quotes_read_back() {
    let text = "a\"b\\c\nd\re\tf#g\\n\"";
    let written = "\"a\\\"b\\\\c\\nd\\re\\tf#g\\\\n\\\"\"";
    assert_eq!(parse_quoted_string(written).as_deref(), Some(text));
    assert_eq!(strip_inline_comment(written), written);
    let line = format!("root = {} # here", written);
    assert_eq!(read(&line).expect("file").root, text);
}

#[test]
fn plain_values() {
    assert_eq!(parse_bool("true", "f", 1), Ok(true));
    assert_eq!(parse_bool("false", "f", 1), Ok(false));
    assert_eq!(
        parse_bool("yes", "f", 12),
        Err("f:12: expected boolean, got: yes".to_string())
    );
    assert_eq!(parse_u16("8080", "f", 1), Ok(8080));
    assert_eq!(
        parse_u16("80800", "f", 1),
        Err("f:1: expected port number, got: 80800".to_string())
    );
    assert_eq!(parse_usize("1048576", "f", 1), Ok(1048576));
    assert_eq!(
        parse_usize("-1", "f", 1),
        Err("f:1: expected integer, got: -1".to_string())
    );
    assert_eq!(parse_usize_arg("7", "--max-events"), Ok(7));
    assert_eq!(
        parse_usize_arg("7x", "--max-events"),
        Err("Invalid value for --max-events: 7x".to_string())
    );
}

#[test]
fn whole_configuration_file() {
    let config = read(
        "host = \"0.0.0.0\"\nport = 9000 # here\nroot = \"./dist\"\nspa_fallback = false\n\
         keep_alive_timeout_secs = 7\nkeep_alive_max = 8\nmax_events = 9\n\
         max_connections = 10\nmax_request_size = 11\n\n\
         [[proxy]]\nprefix = \"/api\"\ntarget = \"http://127.0.0.1:3000\"\n\n\
         [[proxies]]\nprefix = \"/upload\"\nupstream = \"http://127.0.0.1:4000\"\n",
    )
    .expect("file");
    assert_eq!(config.host, "0.0.0.0");
    assert_eq!(config.port, 9000);
    assert_eq!(config.root, "./dist");
    assert!(!config.spa_fallback);
    assert_eq!(config.runtime.keep_alive_timeout_secs, 7);
    assert_eq!(config.runtime.keep_alive_max, 8);
    assert_eq!(config.runtime.max_events, 9);
    assert_eq!(config.runtime.max_connections, 10);
    assert_eq!(config.runtime.max_request_size, 11);
    assert_eq!(config.proxies.len(), 2);
    assert_eq!(config.proxies[0].prefix, "/api");
    assert_eq!(config.proxies[0].upstream.port, 3000);
    assert_eq!(config.proxies[1].prefix, "/upload");
    assert_eq!(config.proxies[1].upstream.port, 4000);
}

#[test]
fn two_ways_to_write_a_rule() {
    let one = read("[proxy]\n\"/api\" = \"http://h:1/b?q\"\n").expect("map").proxies;
    let two = read("[[proxy]]\r\nprefix=\"/api\"\r\ntarget=\"http://h:1/b?q\"").expect("list").proxies;
    assert_eq!(one.len(), 1);
    assert_eq!(format!("{:?}", one), format!("{:?}", two));
    let bare = read("[proxies]\n/x = \"http://h\"").expect("bare key").proxies;
    assert_eq!(bare[0].prefix, "/x");
}

#[test]
fn two_ways_to_write_many_rules() {
    let both = |pairs: &[(&str, &str)]| {
        let mut listed = String::new();
        let mut mapped = "[proxy]\n".to_string();
        for (prefix, target) in pairs {
            listed += &format!("[[proxy]]\nprefix = \"{}\"\ntarget = \"{}\"\n", prefix, target);
            mapped += &format!("\"{}\" = \"{}\"\n", prefix, target);
        }
        (read(&listed), read(&mapped))
    };
    let pairs = [("/a", "http://h:1/#x?k=v"), ("/b/#1", "https://k"), ("/a", "http://l:2")];
    let (listed, mapped) = both(&pairs);
    let (listed, mapped) = (listed.expect("list"), mapped.expect("map"));
    assert_eq!(format!("{:?}", listed), format!("{:?}", mapped));
    let prefixes: Vec<&str> = listed.proxies.iter().map(|rule| rule.prefix.as_str()).collect();
    assert_eq!(prefixes, ["/a", "/b/#1", "/a"]);
    assert_eq!(listed.proxies[2].upstream.port, 2);
    let (listed, mapped) = both(&[("/a", "http://h"), ("b", "http://h"), ("/c", "ftp://h")]);
    assert_eq!(listed.unwrap_err(), "Proxy prefix must start with '/': b");
    assert_eq!(mapped.unwrap_err(), "Proxy prefix must start with '/': b");
    let (listed, mapped) = both(&[]);
    assert!(listed.expect("nothing").proxies.is_empty());
    assert!(mapped.expect("nothing").proxies.is_empty());
}

#[test]
fn keys_with_two_names() {
    assert_eq!(read("dir = \"d\"").unwrap().root, "d");
    assert_eq!(read("keep_alive_timeout = 3").unwrap().runtime.keep_alive_timeout_secs, 3);
    assert_eq!(read("\"port\" = 3").unwrap().port, 3);
}

#[test]
fn problems_in_a_file_are_located() {
    let says = |content: &str| read(content).unwrap_err();
    assert_eq!(says("\n[server]"), "c.toml:2: unsupported TOML section: [server]");
    assert_eq!(says("host"), "c.toml:1: expected key = value, got: host");
    assert_eq!(says("colour = 1"), "c.toml:1: unsupported config key: colour");
    assert_eq!(says("host = x"), "c.toml:1: expected quoted string, got: x");
    assert_eq!(says("port = x"), "c.toml:1: expected port number, got: x");
    assert_eq!(says("root = x"), "c.toml:1: expected quoted string, got: x");
    assert_eq!(says("spa_fallback = 1"), "c.toml:1: expected boolean, got: 1");
    assert_eq!(says("keep_alive_timeout = x"), "c.toml:1: expected integer, got: x");
    assert_eq!(says("keep_alive_max = x"), "c.toml:1: expected integer, got: x");
    assert_eq!(says("max_events = x"), "c.toml:1: expected integer, got: x");
    assert_eq!(says("max_connections = x"), "c.toml:1: expected integer, got: x");
    assert_eq!(says("max_request_size = x"), "c.toml:1: expected integer, got: x");
    assert_eq!(says("[[proxy]]\nport = 1"), "c.toml:2: unsupported proxy key: port");
    assert_eq!(says("[[proxy]]\nprefix = 1"), "c.toml:2: expected quoted string, got: 1");
    assert_eq!(says("[[proxy]]\ntarget = 1"), "c.toml:2: expected quoted string, got: 1");
    assert_eq!(
        says("[[proxy]]\n[[proxy]]"),
        "c.toml:2: proxy section is missing prefix"
    );
    assert_eq!(
        says("[[proxy]]\nprefix = \"/a\"\n\n"),
        "c.toml:3: proxy section is missing target"
    );
    assert_eq!(says("[proxy]\n/a = b"), "c.toml:2: expected quoted string, got: b");
    assert_eq!(
        says("[proxy]\na = \"http://h\""),
        "Proxy prefix must start with '/': a"
    );
}

#[test]
fn a_section_is_ended_once() {
    let mut section = ConfigSection::Proxy(PartialProxy {
        prefix: Some("/a".to_string()),
        target: Some("http://h".to_string()),
    });
    let mut proxies = Vec::new();
    assert_eq!(flush_proxy_section(&mut section, &mut proxies, "f", 1), Ok(()));
    assert_eq!(proxies.len(), 1);
    assert!(matches!(section, ConfigSection::Root));
    assert_eq!(flush_proxy_section(&mut section, &mut proxies, "f", 2), Ok(()));
    assert_eq!(proxies.len(), 1);
}

#[test]
fn settings_stay_where_a_file_is_wrong_later() {
    let mut config = defaults();
    assert!(config.apply_toml("port = 1\nport = x\nport = 2", "f").is_err());
    assert_eq!(config.port, 1);
    assert!(config.apply_root_config("port", "3", "f", 1).is_ok());
    assert_eq!(config.port, 3);
}

#[test]
fn the_file_that_the_arguments_name() {
    let path = |args: &[&str]| config_path_from_args(&strings(args));
    assert_eq!(path(&[]), Ok(("config.toml".to_string(), false)));
    assert_eq!(path(&["-p", "1"]), Ok(("config.toml".to_string(), false)));
    assert_eq!(path(&["-c", "a", "--config", "b"]), Ok(("a".to_string(), true)));
    assert_eq!(path(&["x", "--config", "b"]), Ok(("b".to_string(), true)));
    assert_eq!(path(&["--config"]), Err("Missing value for --config".to_string()));
}

#[test]
fn the_file_may_be_missing_unless_it_is_asked_for() {
    assert_eq!(run(&[]).root, "/work");
    assert_eq!(
        refused(&["-c", "x.toml"]),
        "Config file not found: x.toml"
    );
    assert_eq!(
        parse(&[], ConfigFile::Unreadable("denied".to_string())).unwrap_err(),
        "Cannot read config 'config.toml': denied"
    );
    let lost = Err("gone".to_string());
    let outcome = Config::parse(&[], &lost, None, &ConfigFile::Missing);
    assert_eq!(outcome.0.unwrap_err(), "Cannot read current dir: gone");
    let file = ConfigFile::Content("port = 5".to_string());
    let read = Config::from_file_if_present("x", true, &dir(), None, &file).unwrap();
    assert_eq!(read.port, 5);
}

#[test]
fn defaults_of_the_command_line() {
    let config = run(&[]);
    assert_eq!(config.host, "127.0.0.1");
    assert_eq!(config.port, 8080);
    assert!(config.spa_fallback);
    assert!(config.proxies.is_empty());
    assert_eq!(config.runtime.max_connections, 4096);
}

#[test]
fn options_of_the_command_line() {
    let config = run(&[
        "-H", "h", "-p", "1", "-d", "d", "--no-spa", "--keep-alive-timeout", "2",
        "--keep-alive-max", "3", "--max-events", "4", "--max-connections", "5",
        "--max-request-size", "6", "--proxy", "/a=http://x", "--proxy", "/b=https://y",
    ]);
    assert_eq!(config.host, "h");
    assert_eq!(config.port, 1);
    assert_eq!(config.root, "d");
    assert!(!config.spa_fallback);
    assert_eq!(config.runtime.keep_alive_timeout_secs, 2);
    assert_eq!(config.runtime.keep_alive_max, 3);
    assert_eq!(config.runtime.max_events, 4);
    assert_eq!(config.runtime.max_connections, 5);
    assert_eq!(config.runtime.max_request_size, 6);
    assert_eq!(config.proxies[0].prefix, "/a");
    assert_eq!(config.proxies[1].prefix, "/b");
    let config = run(&["--host", "h", "--port", "1", "--dir", "d", "e"]);
    assert_eq!(config.host, "h");
    assert_eq!(config.port, 1);
    assert_eq!(config.root, "e");
    assert_eq!(run(&[""]).root, "");
}

#[test]
fn problems_on_the_command_line() {
    assert_eq!(refused(&["--host"]), "Missing value for --host");
    assert_eq!(refused(&["-p"]), "Missing value for --port");
    assert_eq!(refused(&["-d"]), "Missing value for --dir");
    assert_eq!(refused(&["-c"]), "Missing value for --config");
    assert_eq!(
        refused(&["--keep-alive-timeout"]),
        "Missing value for --keep-alive-timeout"
    );
    assert_eq!(refused(&["--keep-alive-max"]), "Missing value for --keep-alive-max");
    assert_eq!(refused(&["--max-events"]), "Missing value for --max-events");
    assert_eq!(refused(&["--max-connections"]), "Missing value for --max-connections");
    assert_eq!(refused(&["--max-request-size"]), "Missing value for --max-request-size");
    assert_eq!(refused(&["--proxy"]), "Missing value for --proxy");
    assert_eq!(refused(&["-p", "x"]), "Invalid port value: x");
    assert_eq!(refused(&["--max-events", "x"]), "Invalid value for --max-events: x");
    assert_eq!(refused(&["--nope"]), "Unknown option: --nope");
    assert_eq!(refused(&["-"]), "Unknown option: -");
    assert_eq!(refused(&["--proxy", "/a=b"]), "Proxy target must start with http:// or https://: b");
    assert_eq!(refused(&["--max-events", "0"]), "max-events must be greater than 0");
}

#[test]
fn help_ends_the_reading_of_arguments() {
    assert!(parse(&["-h", "--nope"], ConfigFile::Missing).unwrap().is_none());
    assert!(parse(&["x", "--help"], ConfigFile::Missing).unwrap().is_none());
    assert_eq!(run(&["-H", "-h"]).host, "-h");
}

#[test]
fn command_line_overrides_file_and_adds_rules() {
    let file = ConfigFile::Content(
        "port = 1\nroot = \"r\"\nmax_events = 2\n[proxy]\n/f = \"http://f\"".to_string(),
    );
    let config = parse(
        &["--port", "3", "d", "--max-events", "4", "--proxy", "/c=http://c"],
        file,
    )
    .unwrap()
    .unwrap();
    assert_eq!(config.port, 3);
    assert_eq!(config.root, "d");
    assert_eq!(config.runtime.max_events, 4);
    assert_eq!(config.proxies[0].prefix, "/f");
    assert_eq!(config.proxies[1].prefix, "/c");
}

#[test]
fn the_fallback_can_be_switched_off() {
    let off = || ConfigFile::Content("spa_fallback = false".to_string());
    let on = || ConfigFile::Content("spa_fallback = true".to_string());
    assert!(!parse(&[], off()).unwrap().unwrap().spa_fallback);
    assert!(parse(&[], on()).unwrap().unwrap().spa_fallback);
    assert!(!parse(&["--no-spa"], on()).unwrap().unwrap().spa_fallback);
    let value = parse(&["-H", "--no-spa"], on()).unwrap().unwrap();
    assert!(value.spa_fallback);
    assert_eq!(value.host, "--no-spa");
}

#[test]
fn limits_are_lowered_with_a_warning() {
    let args = strings(&["--max-connections", "5000"]);
    let (config, warning) = Config::parse(&args, &dir(), Some(1024), &ConfigFile::Missing);
    assert_eq!(config.unwrap().unwrap().runtime.max_connections, 896);
    assert_eq!(
        warning.as_deref(),
        Some("Warning: max_connections=5000 exceeds OS file descriptor limit 1024 (reserved 128), capping to 896")
    );
    let args = strings(&["--max-connections", "5000", "--max-events", "0"]);
    let (config, warning) = Config::parse(&args, &dir(), Some(1024), &ConfigFile::Missing);
    assert_eq!(config.unwrap_err(), "max-events must be greater than 0");
    assert!(warning.is_some());
}
