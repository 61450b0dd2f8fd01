use applauncher::launch_cmd::LaunchCmd;
use applauncher::desktop_file::{scan_desktop_file, DesktopFileError, DesktopScan};
use applauncher::platform_layer::{
    choose_icon, desktop_file_is_readable, icon_of_lookup, is_desktop_file_path, launch_app,
    load_items, parce_desktop_file, resolve_icon, search_item, theme_icon_names, theme_lookup,
    Item,
};

fn no_themes() -> Vec<(String, String)> {
    Vec::new()
}

const FIREFOX: &str = "[Desktop Entry]
Version=1.0
Name=Firefox
GenericName=Web Browser
Comment=Browse the Web
Exec=firefox %u
Icon=/tmp
Terminal=false
Type=Application
Keywords=Internet;WWW;
# a comment
; another comment

[Desktop Entry]
Name[de]=Feuerfuchs
";

fn item_named(name: &str) -> Item {
    let mut item = Item::default();
    item.name = name.to_string();
    item
}

fn names(items: &[Item]) -> Vec<String> {
    items.iter().map(|i| i.name.clone()).collect()
}

#[test]
fn default_item_is_empty() {
    let item = Item::default();
    assert_eq!(item.name, "");
    assert!(item.launch_cmd.arguments.is_empty());
    assert_eq!(item.kind, None);
    assert_eq!(item.icon, None);
    assert_eq!(item.description, None);
    assert_eq!(item.terminal_app, None);
    assert_eq!(item.keywords, None);
}

#[test]
fn reads_a_desktop_entry() {
    let item = parce_desktop_file(&"firefox.desktop".to_string(), FIREFOX, &no_themes(), "/")
        .ok()
        .unwrap();
    assert_eq!(item.name, "Firefox");
    assert_eq!(item.kind, Some("Web Browser".to_string()));
    assert_eq!(item.description, Some("Browse the Web".to_string()));
    assert_eq!(item.keywords, Some("Internet;WWW;".to_string()));
    assert_eq!(item.terminal_app, Some(false));
    assert_eq!(item.icon, Some("/tmp".to_string()));
    assert_eq!(item.launch_cmd.arguments, vec!["".to_string()]);
}

#[test]
fn value_stops_at_the_second_equals_sign() {
    let text = "[Desktop Entry]\nExec=env FOO=bar /usr/bin/app\nName=A=B\n";
    match scan_desktop_file(text) {
        DesktopScan::Entry(e) => {
            assert_eq!(e.command, "env FOO");
            assert_eq!(e.name, "A");
        }
        _ => panic!("expected an entry"),
    }
}

#[test]
fn later_keys_override_earlier_ones() {
    let text = "[Desktop Entry]\nName=First\n  Name=Second  \nIcon=a\nIcon=b\n";
    match scan_desktop_file(text) {
        DesktopScan::Entry(e) => {
            assert_eq!(e.name, "Second");
            assert_eq!(e.icons, vec!["a".to_string(), "b".to_string()]);
        }
        _ => panic!("expected an entry"),
    }
}

#[test]
fn missing_header_is_refused() {
    let r = parce_desktop_file(&"x.desktop".to_string(), "Name=x\n[Desktop Entry]\n", &no_themes(), "/");
    match r {
        Err(e) => {
            assert!(matches!(e, DesktopFileError::MissingHeader));
            assert_eq!(
                e.message("x.desktop"),
                "x.desktop is not a valid desktop file missing [Desktop Entry]"
            );
        }
        Ok(_) => panic!("expected an error"),
    }
}

#[test]
fn extra_group_is_refused() {
    let text = "[Desktop Entry]\nName=x\n [Desktop Action new]\nName=y\n";
    match parce_desktop_file(&"x.desktop".to_string(), text, &no_themes(), "/") {
        Err(e) => {
            match &e {
                DesktopFileError::ExtraGroup(g) => assert_eq!(g, "[Desktop Action new]"),
                _ => panic!("expected an extra group"),
            }
            assert_eq!(
                e.message("p"),
                "p is not a supported desktop file It has an extra group [Desktop Action new]"
            );
        }
        Ok(_) => panic!("expected an error"),
    }
}

#[test]
fn only_applications_are_accepted() {
    let text = "[Desktop Entry]\nType=Link\nName=x\n";
    match parce_desktop_file(&"x.desktop".to_string(), text, &no_themes(), "/") {
        Err(e) => {
            assert!(matches!(e, DesktopFileError::NotApplication));
            assert_eq!(
                e.message("p"),
                "p is not a supported desktop file we only work with applications"
            );
        }
        Ok(_) => panic!("expected an error"),
    }
}

#[test]
fn terminal_values_must_be_booleans() {
    assert!(!desktop_file_is_readable("[Desktop Entry]\nTerminal=yes\n"));
    assert!(desktop_file_is_readable("[Desktop Entry]\nTerminal=true\n"));
    assert!(desktop_file_is_readable("[Desktop Entry]\nType=Link\nTerminal=yes\n"));
    assert!(matches!(
        scan_desktop_file("[Desktop Entry]\nTerminal=yes\n"),
        DesktopScan::BadTerminal
    ));
}

fn table() -> Vec<(String, String)> {
    vec![
        ("firefox".to_string(), "/icons/firefox.png".to_string()),
        ("missing".to_string(), "".to_string()),
        ("firefox".to_string(), "/other/firefox.svg".to_string()),
    ]
}

#[test]
fn absolute_icons_must_exist() {
    assert_eq!(resolve_icon(&"/tmp".to_string(), &table()), Some("/tmp".to_string()));
    assert_eq!(resolve_icon(&"/no/such/icon.png".to_string(), &table()), None);
}

#[test]
fn icon_names_resolve_through_the_table() {
    assert_eq!(theme_lookup(&table(), &"firefox".to_string()), "/icons/firefox.png");
    assert_eq!(theme_lookup(&table(), &"gimp".to_string()), "");
    assert_eq!(
        resolve_icon(&"firefox".to_string(), &table()),
        Some("/icons/firefox.png".to_string())
    );
    assert_eq!(resolve_icon(&"missing".to_string(), &table()), None);
    assert_eq!(resolve_icon(&"gimp".to_string(), &table()), None);
}

#[test]
fn the_last_icon_that_resolves_wins() {
    let icons = vec![
        "firefox".to_string(),
        "/tmp".to_string(),
        "missing".to_string(),
        "/no/such.png".to_string(),
    ];
    assert_eq!(
        choose_icon(&icons, &vec![false, true, false, false], &table()),
        Some("/tmp".to_string())
    );
    assert_eq!(
        choose_icon(&icons, &vec![false, false, false, false], &table()),
        Some("/icons/firefox.png".to_string())
    );
    assert_eq!(choose_icon(&vec![], &vec![], &table()), None);
}

#[test]
fn only_icon_names_go_to_the_theme() {
    let text = "[Desktop Entry]\nIcon=firefox\nIcon=/usr/x.png\nIcon=gimp\n";
    match scan_desktop_file(text) {
        DesktopScan::Entry(e) => {
            assert_eq!(theme_icon_names(&e), vec!["firefox".to_string(), "gimp".to_string()]);
        }
        _ => panic!("expected an entry"),
    }
}

#[test]
fn desktop_file_icon_comes_from_the_table() {
    let text = "[Desktop Entry]\nName=F\nIcon=firefox\nIcon=missing\n";
    let item = parce_desktop_file(&"f.desktop".to_string(), text, &table(), "/").ok().unwrap();
    assert_eq!(item.icon, Some("/icons/firefox.png".to_string()));
}

#[test]
fn load_items_keeps_readable_applications_in_order() {
    let files = vec![
        ("a.desktop".to_string(), Some("[Desktop Entry]\nName=A\n".to_string())),
        ("b.desktop".to_string(), None),
        ("c.desktop".to_string(), Some("Name=C\n".to_string())),
        ("d.desktop".to_string(), Some("[Desktop Entry]\nName=D\nExec=/bin/d -x\n".to_string())),
        ("e.desktop".to_string(), Some("[Desktop Entry]\nType=Link\n".to_string())),
    ];
    let items = load_items(files, &no_themes(), "/");
    assert_eq!(names(&items), vec!["A", "D"]);
    assert_eq!(items[1].launch_cmd.arguments, vec!["/bin/d".to_string(), "-x".to_string()]);
}

#[test]
fn launch_app_splits_program_and_arguments() {
    let mut item = Item::default();
    assert!(launch_app(&item).is_none());
    item.launch_cmd = LaunchCmd {
        arguments: vec!["/bin/x".to_string(), "-a".to_string(), "b c".to_string()],
    };
    let (program, args) = launch_app(&item).unwrap();
    assert_eq!(program, "/bin/x");
    assert_eq!(args, vec!["-a".to_string(), "b c".to_string()]);
}

#[test]
fn search_keeps_prefix_matches_in_order() {
    let list = vec![item_named("Firefox"), item_named("Files"), item_named("GIMP"), item_named("fire")];
    assert_eq!(names(&search_item(list.clone(), "Fi".to_string())), vec!["Firefox", "Files"]);
    assert_eq!(names(&search_item(list.clone(), "".to_string())).len(), 4);
    assert!(search_item(list.clone(), "x".to_string()).is_empty());
}

#[test]
fn narrowing_a_search_matches_searching_anew() {
    let list = vec![item_named("Firefox"), item_named("Files"), item_named("Fire"), item_named("GIMP")];
    let once = search_item(list.clone(), "Fi".to_string());
    let narrowed = search_item(once.clone(), "Fir".to_string());
    assert_eq!(names(&narrowed), names(&search_item(list.clone(), "Fir".to_string())));
    assert_eq!(names(&search_item(once.clone(), "Fi".to_string())), names(&once));
}

#[test]
fn desktop_files_are_recognised_by_extension() {
    assert!(is_desktop_file_path("/usr/share/applications/firefox.desktop"));
    assert!(!is_desktop_file_path("/usr/share/applications/firefox.desktop~"));
    assert!(!is_desktop_file_path("desktop"));
}

#[test]
fn icon_lookup_answers_decide_the_icon() {
    let abs = "/usr/share/pixmaps/x.png".to_string();
    assert_eq!(icon_of_lookup(&abs, true, String::new()), Some(abs.clone()));
    assert_eq!(icon_of_lookup(&abs, false, "/ignored.png".to_string()), None);
    let name = "firefox".to_string();
    assert_eq!(
        icon_of_lookup(&name, false, "/usr/share/icons/hicolor/48x48/apps/firefox.png".to_string()),
        Some("/usr/share/icons/hicolor/48x48/apps/firefox.png".to_string())
    );
    assert_eq!(icon_of_lookup(&name, true, String::new()), None);
}

#[test]
fn comments_blank_lines_and_unknown_keys_change_nothing() {
    let plain = "[Desktop Entry]\nName=A\nExec=/bin/a -x\nIcon=/tmp\n";
    let noisy = "[Desktop Entry]\n# note\n\nX-Extra=1\nName=A\n  ; more\nExec=/bin/a -x\nVersion=1.0\nIcon=/tmp\n";
    let a = parce_desktop_file(&"a".to_string(), plain, &no_themes(), "/").ok().unwrap();
    let b = parce_desktop_file(&"b".to_string(), noisy, &no_themes(), "/").ok().unwrap();
    assert_eq!(a.name, b.name);
    assert_eq!(a.launch_cmd.arguments, b.launch_cmd.arguments);
    assert_eq!(a.icon, b.icon);
    assert_eq!(a.kind, b.kind);
}

#[test]
fn the_item_plays_no_part_in_the_command() {
    let mut other = Item::default();
    other.name = "other".to_string();
    let a = LaunchCmd::new("tmp -a \"b c\"".to_string(), &Item::default(), "/");
    let b = LaunchCmd::new("tmp -a \"b c\"".to_string(), &other, "/");
    assert_eq!(a.arguments, b.arguments);
}
