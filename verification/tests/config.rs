use yaskkserv2::command_line::{CommandLineArgs, Yaskkserv2CommandLine, Yaskkserv2MakeDictionaryCommandLine};
use yaskkserv2::config::{Config, GoogleTiming};
use yaskkserv2::config_file::{ConfigError, Yaskkserv2ConfigFile};
use yaskkserv2::error::SkkError;
use yaskkserv2::outside::fx_bytes_map_get;
use yaskkserv2::run_yaskkserv2;

fn no_args() -> CommandLineArgs {
    CommandLineArgs {
        dictionary: None,
        version: false,
        config_filename: None,
        no_daemonize: false,
        port: None,
        max_connections: None,
        listen_address: None,
        hostname_and_ip_address_for_protocol_3: None,
        google_timeout_milliseconds: None,
        google_cache_filename: None,
        google_cache_entries: None,
        google_cache_expire_seconds: None,
        max_server_completions: None,
        google_max_candidates_length: None,
        google_japanese_input: None,
        google_use_http: false,
        midashi_utf8: false,
        google_suggest: false,
    }
}

fn get(text: &str, key: &str) -> Option<String> {
    let m = Yaskkserv2ConfigFile::read_settings(text.as_bytes());
    fx_bytes_map_get(&m, key.as_bytes()).map(|v| String::from_utf8(v.clone()).unwrap())
}

#[test]
fn config_file_lines_test() {
    let text = "# comment\n  ; also a comment\n port = 1179\r\nmax-connections=8\nlisten-address =   \nx\nbad line\nport = 1180\nkey =  value with spaces\n=novalue\nlast = 1";
    assert_eq!(get(text, "port"), Some(String::from("1180")));
    assert_eq!(get(text, "max-connections"), Some(String::from("8")));
    assert_eq!(get(text, "listen-address"), Some(String::from(" ")));
    assert_eq!(get(text, "key"), Some(String::from("value with spaces")));
    assert_eq!(get(text, "last"), Some(String::from("1")));
    assert_eq!(get(text, "bad"), None);
    assert_eq!(get(text, "#"), None);
    assert_eq!(get(text, ""), None);
}

#[test]
fn config_file_unicode_white_space_test() {
    let text = "\u{3000}; comment after an ideographic space\nport\u{3000}=\u{00a0}1179\nkey\u{2003}=\u{2003}\u{3000}\nname = \u{3042}\u{3044}\n";
    assert_eq!(get(text, "; comment after an ideographic space"), None);
    assert_eq!(get(text, "port"), Some(String::from("1179")));
    assert_eq!(get(text, "key"), Some(String::from("\u{3000}")));
    assert_eq!(get(text, "name"), Some(String::from("\u{3042}\u{3044}")));
    let (r, c) = validate("google-suggest =\u{3000}enable\u{2028}\n");
    assert_eq!(r, Ok(()));
    assert!(c.is_google_suggest_enabled);
}

fn validate(text: &str) -> (Result<(), ConfigError>, Config) {
    let m = Yaskkserv2ConfigFile::read_settings(text.as_bytes());
    let mut config_file = Yaskkserv2ConfigFile::new(&Config::new());
    let r = config_file.validate_and_set_config(&m, true, true);
    (r, config_file.get_config())
}

#[test]
fn config_file_validate_test() {
    let (r, c) = validate("port = 1179\nmax-connections = 8\ngoogle-japanese-input = last\ngoogle-suggest = Enable\ngoogle-cache-entries = +5\nmax-server-completions = 100\n");
    assert_eq!(r, Ok(()));
    assert_eq!(c.port, b"1179".to_vec());
    assert_eq!(c.max_connections, 8);
    assert_eq!(c.google_timing, GoogleTiming::Last);
    assert!(c.is_google_suggest_enabled);
    assert_eq!(c.google_cache_entries, 5);
    assert_eq!(c.max_server_completions, 100);
    assert_eq!(validate("port = 65536\n").0, Err(ConfigError::IllegalPortNumber));
    assert_eq!(validate("port = 1179 x\n").0, Err(ConfigError::IllegalPortNumber));
    assert_eq!(validate("max-connections = 1025\n").0, Err(ConfigError::IllegalMaxConnectionRange));
    assert_eq!(validate("hostname-and-ip-address-for-protocol-3 = a b\n").0, Err(ConfigError::IllegalHostnameIp));
    assert_eq!(validate("google-timeout-milliseconds = 300001\n").0, Err(ConfigError::IllegalTimeoutMilliseconds));
    assert_eq!(validate("google-cache-entries = 0\n").0, Err(ConfigError::IllegalCacheEntries));
    assert_eq!(validate("google-cache-expire-seconds = 3153600001\n").0, Err(ConfigError::IllegalExpireSeconds));
    assert_eq!(validate("google-max-candidates-length = 1025\n").0, Err(ConfigError::IllegalCandidatesLength));
    assert_eq!(validate("max-server-completions = -1\n").0, Err(ConfigError::IllegalMaxServerCompletions));
    assert_eq!(
        validate("google-japanese-input = disable\ngoogle-use-http = enable\n").0,
        Err(ConfigError::IllegalCombination)
    );
    let (r, c) = validate("google-japanese-input = disable\ngoogle-use-http = off\n");
    assert_eq!(r, Ok(()));
    assert!(!c.is_http_enabled);
    assert_eq!(validate("port = x\nmax-connections = 0\n").0, Err(ConfigError::IllegalPortNumber));
}

#[test]
fn config_file_keeps_command_line_test() {
    let m = Yaskkserv2ConfigFile::read_settings(b"port = 1179\ndictionary = /tmp/other\n");
    let mut command_line = Config::new();
    command_line.port = b"2000".to_vec();
    command_line.dictionary_full_path = b"/tmp/dictionary".to_vec();
    let mut config_file = Yaskkserv2ConfigFile::new(&command_line);
    assert_eq!(config_file.validate_and_set_config(&m, false, true), Ok(()));
    let c = config_file.get_config();
    assert_eq!(c.port, b"2000".to_vec());
    assert_eq!(c.dictionary_full_path, b"/tmp/dictionary".to_vec());
    let mut config_file = Yaskkserv2ConfigFile::new(&Config::new());
    assert_eq!(config_file.validate_and_set_config(&m, false, true), Err(ConfigError::DictionaryNotFound));
    let m = Yaskkserv2ConfigFile::read_settings(b"listen-address = localhost\n");
    let mut config_file = Yaskkserv2ConfigFile::new(&Config::new());
    assert_eq!(config_file.validate_and_set_config(&m, true, false), Err(ConfigError::IllegalListenAddress));
}

#[test]
fn config_file_empty_test() {
    let m = Yaskkserv2ConfigFile::read_settings(b"");
    let mut config_file = Yaskkserv2ConfigFile::new(&Config::new());
    assert_eq!(config_file.validate_and_set_config(&m, false, false), Ok(()));
    let c = config_file.get_config();
    assert_eq!(c.port, Config::new().port);
    assert_eq!(c.max_connections, Config::new().max_connections);
}

#[test]
fn command_line_setup_test() {
    let mut command_line = Yaskkserv2CommandLine::new();
    let mut args = no_args();
    args.port = Some(b"1234".to_vec());
    args.max_connections = Some(b"x".to_vec());
    args.google_cache_filename = Some(b"/tmp/cache".to_vec());
    args.google_japanese_input = Some(b"first".to_vec());
    args.google_use_http = true;
    let mut help = false;
    let mut exit = false;
    command_line.setup(&args, &mut help, &mut exit);
    let c = command_line.get_config();
    assert!(help);
    assert!(!exit);
    assert_eq!(c.port, b"1234".to_vec());
    assert_eq!(c.max_connections, 0);
    assert!(c.is_google_cache_enabled);
    assert_eq!(c.google_timing, GoogleTiming::First);
    assert!(c.is_http_enabled);

    let mut command_line = Yaskkserv2CommandLine::new();
    let mut args = no_args();
    args.google_japanese_input = Some(b"disable".to_vec());
    args.google_suggest = true;
    args.version = true;
    let mut help = false;
    let mut exit = false;
    command_line.setup(&args, &mut help, &mut exit);
    assert!(help);
    assert!(exit);
    assert!(!command_line.get_config().is_google_suggest_enabled);

    let mut command_line = Yaskkserv2CommandLine::new();
    let mut help = false;
    let mut exit = false;
    command_line.setup(&no_args(), &mut help, &mut exit);
    assert!(!help && !exit);
    assert_eq!(command_line.get_config().port, Config::new().port);
}

#[test]
fn command_line_validator_test() {
    assert_eq!(Yaskkserv2CommandLine::port_validator(b"65535"), Ok(()));
    assert_eq!(Yaskkserv2CommandLine::port_validator(b"+80"), Ok(()));
    assert_eq!(Yaskkserv2CommandLine::port_validator(b"-0"), Ok(()));
    assert_eq!(Yaskkserv2CommandLine::port_validator(b"65536"), Err(ConfigError::IllegalPortNumber));
    assert_eq!(Yaskkserv2CommandLine::port_validator(b"-1"), Err(ConfigError::IllegalPortNumber));
    assert_eq!(Yaskkserv2CommandLine::port_validator(b""), Err(ConfigError::IllegalPortNumber));
    assert_eq!(Yaskkserv2CommandLine::port_validator(b"99999999999999999999999"), Err(ConfigError::IllegalPortNumber));
    assert_eq!(Yaskkserv2CommandLine::max_connections_validator(b"1024"), Ok(()));
    assert_eq!(Yaskkserv2CommandLine::max_connections_validator(b"0"), Err(ConfigError::IllegalMaxConnectionRange));
    assert_eq!(Yaskkserv2CommandLine::hostname_and_ip_address_address_validator(b"localhost:127.0.0.1"), Ok(()));
    assert_eq!(Yaskkserv2CommandLine::hostname_and_ip_address_address_validator(b""), Err(ConfigError::IllegalHostnameIp));
    assert_eq!(Yaskkserv2CommandLine::google_timeout_milliseconds_validator(b"0"), Ok(()));
    assert_eq!(Yaskkserv2CommandLine::google_cache_entries_validator(b"1048576"), Ok(()));
    assert_eq!(Yaskkserv2CommandLine::google_cache_entries_validator(b"1048577"), Err(ConfigError::IllegalCacheEntries));
    assert_eq!(Yaskkserv2CommandLine::google_cache_expire_seconds_validator(b"3153600000"), Ok(()));
    assert_eq!(Yaskkserv2CommandLine::google_max_candidates_length_validator(b"1"), Ok(()));
    assert_eq!(Yaskkserv2CommandLine::max_server_completions_validator(b"65536"), Ok(()));
    assert_eq!(Yaskkserv2CommandLine::max_server_completions_validator(b"65537"), Err(ConfigError::IllegalMaxServerCompletions));
}

#[test]
fn run_yaskkserv2_test() {
    let command_line = Config::new();
    assert!(matches!(run_yaskkserv2(&command_line, true, None, true, true), Ok(None)));
    match run_yaskkserv2(&command_line, false, None, true, true) {
        Ok(Some(c)) => assert_eq!(c.port, command_line.port),
        _ => panic!("settings expected"),
    }
    let m = Yaskkserv2ConfigFile::read_settings(b"port = 1179\n");
    match run_yaskkserv2(&command_line, false, Some(&m), true, true) {
        Ok(Some(c)) => assert_eq!(c.port, b"1179".to_vec()),
        _ => panic!("settings expected"),
    }
    let m = Yaskkserv2ConfigFile::read_settings(b"port = 70000\n");
    assert!(matches!(run_yaskkserv2(&command_line, false, Some(&m), true, true), Err(SkkError::CommandLine)));
}

#[test]
fn make_dictionary_command_line_test() {
    let a = vec![b"a".to_vec(), b"b".to_vec()];
    let b = vec![b"a".to_vec(), b"b".to_vec(), b"a".to_vec()];
    assert!(Yaskkserv2MakeDictionaryCommandLine::is_unique_jisyo_args(&a));
    assert!(!Yaskkserv2MakeDictionaryCommandLine::is_unique_jisyo_args(&b));
    assert!(Yaskkserv2MakeDictionaryCommandLine::is_unique_jisyo_args(&Vec::new()));
    let mut command_line = Yaskkserv2MakeDictionaryCommandLine {
        config: Config::new(),
        jisyo_full_paths: Vec::new(),
        output_jisyo_full_path: Vec::new(),
        input_cache_full_path: Vec::new(),
    };
    assert!(command_line.setup(Vec::new(), false, None, None, None, false));
    assert!(!command_line.setup(a, true, Some(b"/tmp/d".to_vec()), None, None, true));
    assert_eq!(command_line.config.dictionary_full_path, b"/tmp/d".to_vec());
    assert!(command_line.config.is_verbose);
}

#[test]
fn parse_decimal_test() {
    assert_eq!(Yaskkserv2ConfigFile::parse_decimal(b"123", false), Some(123));
    assert_eq!(Yaskkserv2ConfigFile::parse_decimal(b"+7", false), Some(7));
    assert_eq!(Yaskkserv2ConfigFile::parse_decimal(b"-7", false), None);
    assert_eq!(Yaskkserv2ConfigFile::parse_decimal(b"-7", true), Some(-7));
    assert_eq!(Yaskkserv2ConfigFile::parse_decimal(b"+", true), None);
    assert_eq!(Yaskkserv2ConfigFile::parse_decimal(b"1 ", true), None);
    assert_eq!(Yaskkserv2ConfigFile::parse_decimal(b"18446744073709551615", false), Some(18446744073709551615));
    assert_eq!(Yaskkserv2ConfigFile::parse_decimal(b"18446744073709551616", false), None);
}

#[test]
fn command_line_google_max_candidates_length_test() {
    let mut command_line = Yaskkserv2CommandLine::new();
    let mut args = no_args();
    args.google_max_candidates_length = Some(b"10".to_vec());
    let mut help = false;
    let mut exit = false;
    command_line.setup(&args, &mut help, &mut exit);
    assert!(!help && !exit);
    assert_eq!(command_line.get_config().google_max_candidates_length, 10);

    let mut command_line = Yaskkserv2CommandLine::new();
    let mut args = no_args();
    args.google_max_candidates_length = Some(b"ten".to_vec());
    let mut help = false;
    let mut exit = false;
    command_line.setup(&args, &mut help, &mut exit);
    assert!(help);
    assert_eq!(command_line.get_config().google_max_candidates_length, 0);
}

#[test]
fn config_file_refused_keeps_earlier_settings_test() {
    let m = Yaskkserv2ConfigFile::read_settings(
        b"port = 1179\nmax-connections = 8\nlisten-address = localhost\ngoogle-timeout-milliseconds = 300\n",
    );
    let mut config_file = Yaskkserv2ConfigFile::new(&Config::new());
    assert_eq!(config_file.validate_and_set_config(&m, true, false), Err(ConfigError::IllegalListenAddress));
    let c = config_file.get_config();
    assert_eq!(c.port, b"1179".to_vec());
    assert_eq!(c.max_connections, 8);
    assert_eq!(c.listen_address, Config::new().listen_address);
    assert_eq!(c.google_timeout_milliseconds, Config::new().google_timeout_milliseconds);
}
