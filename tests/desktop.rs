use app_launcher::desktop::{executable_entry, has_desktop_extension, parse_desktop_entry};

#[test]
fn exec_field_codes_are_removed() {
    let e = parse_desktop_entry("[Desktop Entry]\nName=My App\nExec=myapp %U --flag\n").unwrap();
    assert_eq!(e.name(), "My App");
    assert_eq!(e.command(), "myapp --flag");
}

#[test]
fn every_field_code_is_removed() {
    let e = parse_desktop_entry("Name=X\nExec=run %f %u %U %F %i %c %k end").unwrap();
    assert_eq!(e.command(), "run end");
    let e = parse_desktop_entry("Name=X\nExec=  tool --url=%u  ").unwrap();
    assert_eq!(e.command(), "tool --url=");
    let e = parse_desktop_entry("Name=X\nExec=tool %d 100%").unwrap();
    assert_eq!(e.command(), "tool %d 100%");
}

#[test]
fn first_name_and_exec_win() {
    let text = "Name=First\nExec=one\nName=Second\nExec=two\n";
    let e = parse_desktop_entry(text).unwrap();
    assert_eq!(e.name(), "First");
    assert_eq!(e.command(), "one");
}

#[test]
fn exec_may_come_before_name() {
    let e = parse_desktop_entry("Exec=gedit %F\nComment=x\nName=Text Editor").unwrap();
    assert_eq!(e.name(), "Text Editor");
    assert_eq!(e.command(), "gedit");
}

#[test]
fn crlf_line_endings_are_handled() {
    let e = parse_desktop_entry("Name=Mail\r\nExec=mail %u\r\n").unwrap();
    assert_eq!(e.name(), "Mail");
    assert_eq!(e.command(), "mail");
}

#[test]
fn missing_keys_give_no_entry() {
    assert!(parse_desktop_entry("Name=Only Name\n").is_none());
    assert!(parse_desktop_entry("Exec=only-exec\n").is_none());
    assert!(parse_desktop_entry("").is_none());
    assert!(parse_desktop_entry(" Name=Indented\nExec=x").is_none());
}

#[test]
fn empty_name_gives_no_entry() {
    assert!(parse_desktop_entry("Name=\nExec=x\n").is_none());
}

#[test]
fn localized_names_are_other_keys() {
    let e = parse_desktop_entry("Name[de]=Dateien\nName=Files\nExec=nautilus").unwrap();
    assert_eq!(e.name(), "Files");
}

#[test]
fn desktop_extension_check() {
    assert!(has_desktop_extension("firefox.desktop"));
    assert!(has_desktop_extension("org.gnome.Files.desktop"));
    assert!(!has_desktop_extension(".desktop"));
    assert!(!has_desktop_extension("firefox.desktop.bak"));
    assert!(!has_desktop_extension("firefox"));
    assert!(!has_desktop_extension("firefoxdesktop"));
}

#[test]
fn executable_files_name_themselves() {
    let e = executable_entry("ls", 0o755).unwrap();
    assert_eq!(e.name(), "ls");
    assert_eq!(e.command(), "ls");
    assert!(executable_entry("x", 0o001).is_some());
    assert!(executable_entry("readme", 0o644).is_none());
    assert!(executable_entry("", 0o755).is_none());
}

#[test]
fn glued_field_codes_keep_the_following_space() {
    let e = parse_desktop_entry("Name=Web\nExec=browser --url=%u --new").unwrap();
    assert_eq!(e.command(), "browser --url= --new");
    let e = parse_desktop_entry("Name=X\nExec=x%U y").unwrap();
    assert_eq!(e.command(), "x y");
    let e = parse_desktop_entry("Name=X\nExec=%f start").unwrap();
    assert_eq!(e.command(), "start");
}
