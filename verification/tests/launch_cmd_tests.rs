use applauncher::launch_cmd::{descape_vec, find_first, get_path, parse_exec, program_candidates, LaunchCmd};
use applauncher::platform_layer::Item;

fn args(v: &[&str]) -> Vec<String> {
    v.iter().map(|s| s.to_string()).collect()
}

#[test]
fn field_codes_are_dropped() {
    assert_eq!(parse_exec("firefox %u"), args(&["firefox"]));
    assert_eq!(parse_exec("app %F --new %i %c %k"), args(&["app", "--new"]));
    assert_eq!(parse_exec("app %x"), args(&["app", "%x"]));
}

#[test]
fn quoted_spaces_stay_in_one_argument() {
    assert_eq!(
        parse_exec("\"/opt/my app/run\" --flag"),
        args(&["/opt/my app/run", "--flag"])
    );
}

#[test]
fn escapes_inside_quotes() {
    assert_eq!(parse_exec("echo \"a\\\"b\""), args(&["echo", "a\"b"]));
    assert_eq!(parse_exec("echo \"a\\\\b\""), args(&["echo", "a\\b"]));
    assert_eq!(parse_exec("echo \"\\$HOME\""), args(&["echo", "$HOME"]));
    assert_eq!(parse_exec("echo \"\\`x\\`\""), args(&["echo", "`x`"]));
}

#[test]
fn reserved_characters_only_inside_quotes() {
    assert_eq!(parse_exec("sh -c a;b"), args(&["sh", "-c", "ab"]));
    assert_eq!(parse_exec("sh -c \"a;b\""), args(&["sh", "-c", "a;b"]));
    assert_eq!(parse_exec("echo $HOME `x`"), args(&["echo", "HOME", "x"]));
}

#[test]
fn quoted_marker_text_becomes_a_space() {
    assert_eq!(parse_exec("echo \"x~~|y\""), args(&["echo", "x y"]));
}

#[test]
fn plain_command_is_split_at_white_space() {
    assert_eq!(parse_exec("  gimp-2.10   --new-instance  "), args(&["gimp-2.10", "--new-instance"]));
    assert_eq!(parse_exec(""), Vec::<String>::new());
}

#[test]
fn descaping_marks_quoted_spaces() {
    let out: String = descape_vec(&"\"a b\" c".chars().collect()).iter().collect();
    assert_eq!(out, "a~~|b c");
}

#[test]
fn absolute_programs_are_kept() {
    assert_eq!(get_path("/usr/bin/env".to_string(), "/nonexistent"), "/usr/bin/env");
}

#[test]
fn relative_programs_are_looked_up_in_order() {
    assert_eq!(get_path("tmp".to_string(), "/no/such/dir:/"), "//tmp");
    assert_eq!(get_path("no-such-program-xyz".to_string(), "/no/such/dir:/"), "");
}

#[test]
fn launch_cmd_resolves_the_program_only() {
    let item = Item::default();
    let cmd = LaunchCmd::new("tmp %U \"a b\"".to_string(), &item, "/");
    assert_eq!(cmd.arguments, args(&["//tmp", "a b"]));
    let cmd = LaunchCmd::new("%U".to_string(), &item, "/");
    assert!(cmd.arguments.is_empty());
}

#[test]
fn candidates_follow_path_order() {
    assert_eq!(
        program_candidates("gimp", "/usr/local/bin:/usr/bin::/opt"),
        args(&["/usr/local/bin/gimp", "/usr/bin/gimp", "/gimp", "/opt/gimp"])
    );
}

#[test]
fn the_first_candidate_found_wins() {
    let cands = args(&["/a/x", "/b/x", "/c/x"]);
    assert_eq!(find_first(&cands, &vec![false, true, true]), "/b/x");
    assert_eq!(find_first(&cands, &vec![true, true, true]), "/a/x");
    assert_eq!(find_first(&cands, &vec![false, false, false]), "");
}

#[test]
fn the_first_path_directory_holding_the_program_wins() {
    assert_eq!(get_path("tmp".to_string(), "/no/such/dir:/:/"), "//tmp");
}
