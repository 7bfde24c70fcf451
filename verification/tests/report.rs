use wheres::config::{ConfigError, SearchConfig};
use wheres::output::{end_line, route};
use wheres::platform::{select_root, PlatformFamily, UnsupportedPlatform};
use wheres::report::{
    exit_status, full_help, short_help, unreadable_directory_message,
    unsupported_platform_message, Ending,
};

fn strings(items: &[&str]) -> Vec<String> {
    items.iter().map(|s| s.to_string()).collect()
}

fn config(output: Option<&str>) -> SearchConfig {
    SearchConfig::new("q".to_string(), true, false, output.map(|o| o.to_string()))
        .expect("query is not empty")
}

#[test]
fn with_an_output_file_nothing_goes_to_standard_output() {
    let routed = route(&config(Some("out.txt")), &strings(&["a/foo", "b/foo bar"]));
    assert_eq!(routed.stdout_lines, Vec::<String>::new());
    assert_eq!(routed.file_lines, strings(&["a/foo\n", "b/foo bar\n"]));
}

#[test]
fn without_an_output_file_matches_are_quoted_on_standard_output() {
    let routed = route(&config(None), &strings(&["a/foo", "b/foo bar"]));
    assert_eq!(routed.file_lines, Vec::<String>::new());
    assert_eq!(routed.stdout_lines, strings(&["\"a/foo\"\n", "\"b/foo bar\"\n"]));
}

#[test]
fn quoting_escapes_what_needs_it() {
    let routed = route(&config(None), &strings(&["a\"b", "c\\d", "e\nf"]));
    assert_eq!(routed.stdout_lines, strings(&["\"a\\\"b\"\n", "\"c\\\\d\"\n", "\"e\\nf\"\n"]));
    let raw = route(&config(Some("o")), &strings(&["a\"b", "c\\d"]));
    assert_eq!(raw.file_lines, strings(&["a\"b\n", "c\\d\n"]));
}

#[test]
fn routing_nothing_gives_nothing() {
    let to_file = route(&config(Some("o")), &Vec::new());
    assert!(to_file.file_lines.is_empty() && to_file.stdout_lines.is_empty());
    let to_stdout = route(&config(None), &Vec::new());
    assert!(to_stdout.file_lines.is_empty() && to_stdout.stdout_lines.is_empty());
}

#[test]
fn end_line_appends_one_line_feed() {
    assert_eq!(end_line("abc".to_string()), "abc\n");
    assert_eq!(end_line(String::new()), "\n");
}

#[test]
fn home_directory_is_the_root_when_known() {
    let home = Some("/home/me".to_string());
    assert_eq!(select_root(home.clone(), PlatformFamily::Unix), Ok("/home/me".to_string()));
    assert_eq!(select_root(home.clone(), PlatformFamily::Windows), Ok("/home/me".to_string()));
    assert_eq!(select_root(home, PlatformFamily::Other), Ok("/home/me".to_string()));
}

#[test]
fn default_root_depends_on_the_family() {
    assert_eq!(select_root(None, PlatformFamily::Unix), Ok("/".to_string()));
    assert_eq!(select_root(None, PlatformFamily::Windows), Ok("C:\\".to_string()));
    assert_eq!(select_root(None, PlatformFamily::Other), Err(UnsupportedPlatform));
}

#[test]
fn family_names_are_read() {
    assert_eq!(PlatformFamily::from_name("unix"), PlatformFamily::Unix);
    assert_eq!(PlatformFamily::from_name("windows"), PlatformFamily::Windows);
    assert_eq!(PlatformFamily::from_name("wasm"), PlatformFamily::Other);
    assert_eq!(PlatformFamily::from_name(""), PlatformFamily::Other);
    assert_eq!(PlatformFamily::from_name("Unix"), PlatformFamily::Other);
}

#[test]
fn exit_status_is_zero_unless_the_run_failed() {
    assert_eq!(exit_status(Ending::Completed), 0);
    assert_eq!(exit_status(Ending::HelpShown), 0);
    assert_eq!(exit_status(Ending::UnsupportedPlatform), 0);
    assert_eq!(exit_status(Ending::ConfigRejected(ConfigError::MissingQuery)), 1);
    assert_eq!(exit_status(Ending::ConfigRejected(ConfigError::MissingOutputValue)), 1);
    assert_eq!(exit_status(Ending::OutputWriteFailed), 1);
}

#[test]
fn help_texts_name_the_program_and_its_flags() {
    assert_eq!(
        short_help(),
        "Usage: wheres [options]... <query>\nTry 'wheres --help' for more information."
    );
    let full = full_help();
    assert!(full.starts_with("wheres [options]... <query>\n"));
    for flag in ["-h ", "--help", "-v, --verbose", "-r, --recursive=false", "-o, --output <path>"] {
        assert!(full.contains(flag), "{}", flag);
    }
    assert_eq!(full.lines().count(), 6);
}

#[test]
fn messages_name_what_they_are_about() {
    assert_eq!(unreadable_directory_message("/root"), "Skipping unreadable directory /root");
    assert!(unsupported_platform_message().starts_with("Unsupported OS detected."));
}
