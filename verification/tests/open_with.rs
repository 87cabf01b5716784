use explorer::open_with::{
    application_dirs, binary_candidates, classify_icon_file, discover_apps_for, exec_binary,
    first_available, icon_candidates, is_desktop_file, launch_plan, mime_matches, mime_type_from,
    parse_desktop_entry, pick_icon, terminal_candidates, AppIcon, CommandOutput, DesktopApp,
    LaunchPlan,
};

fn icon_path(icon: &AppIcon) -> (&str, bool) {
    match icon {
        AppIcon::Raster(p) => (p.as_str(), false),
        AppIcon::Svg(p) => (p.as_str(), true),
    }
}

#[test]
fn mime_exact_and_wildcard_patterns() {
    assert!(mime_matches("image/png", "image/png"));
    assert!(mime_matches("image/*", "image/png"));
    assert!(mime_matches("image/*", "image"));
    assert!(!mime_matches("image/*", "text/plain"));
    assert!(!mime_matches("image/jpeg", "image/png"));
    assert!(!mime_matches("*", "image/png"));
    assert!(!mime_matches("imag/*", "image/png"));
}

#[test]
fn exec_binary_skips_field_codes_and_quotes() {
    assert_eq!(exec_binary("firefox %u").as_deref(), Some("firefox"));
    assert_eq!(exec_binary("%f gimp %U").as_deref(), Some("gimp"));
    assert_eq!(exec_binary("  \"/opt/My App/run\" %F").as_deref(), Some("/opt/My"));
    assert_eq!(exec_binary("\"\"\"code\"\" --new-window").as_deref(), Some("code"));
    assert_eq!(exec_binary("%f %u"), None);
    assert_eq!(exec_binary("   "), None);
    assert_eq!(exec_binary("vim\u{a0}-p"), Some("vim".to_string()));
}

const VIEWER: &str = "[Desktop Entry]\r\nType=Application\nName=Image Viewer\nName=Ignored\nExec=eog %U\nIcon=eog\nMimeType=image/png;image/jpeg;;\nTerminal=false\n\n[Desktop Action new]\nName=New Window\nExec=eog --new-window\n";

#[test]
fn parse_entry_reads_the_entry_group_only() {
    let e = parse_desktop_entry(VIEWER, "image/png").expect("entry");
    assert_eq!(e.name, "Image Viewer");
    assert_eq!(e.command, "eog");
    assert_eq!(e.icon_name.as_deref(), Some("eog"));
    assert!(!e.terminal);
    assert!(parse_desktop_entry(VIEWER, "image/jpeg").is_some());
    assert!(parse_desktop_entry(VIEWER, "text/plain").is_none());
}

#[test]
fn parse_entry_refuses_hidden_nodisplay_and_incomplete() {
    let hidden = "[Desktop Entry]\nName=A\nExec=a\nMimeType=text/*\nHidden=true\n";
    let nodisplay = "[Desktop Entry]\nName=A\nExec=a\nMimeType=text/*\n  NoDisplay=true  \n";
    let no_exec = "[Desktop Entry]\nName=A\nMimeType=text/*\n";
    let no_name = "[Desktop Entry]\nExec=a\nMimeType=text/*\n";
    let only_codes = "[Desktop Entry]\nName=A\nExec=%f\nMimeType=text/*\n";
    let outside = "Name=A\nExec=a\nMimeType=text/*\n";
    for text in [hidden, nodisplay, no_exec, no_name, only_codes, outside] {
        assert!(parse_desktop_entry(text, "text/plain").is_none(), "{text:?}");
    }
    let terminal = "[Desktop Entry]\nName=Vim\nExec=vim %F\nExec=nvim %F\nMimeType=text/*\nTerminal=true";
    let e = parse_desktop_entry(terminal, "text/plain").expect("entry");
    assert_eq!(e.command, "nvim");
    assert!(e.terminal);
    assert_eq!(e.icon_name, None);
}

fn output(code: Option<i32>, text: &str) -> CommandOutput {
    CommandOutput { status_code: code, stdout: text.to_string() }
}

#[test]
fn mime_type_from_xdg_mime_output() {
    assert_eq!(mime_type_from(Some(&output(Some(0), " image/png\n"))).as_deref(), Some("image/png"));
    assert_eq!(mime_type_from(Some(&output(Some(1), "image/png"))), None);
    assert_eq!(mime_type_from(Some(&output(None, "image/png"))), None);
    assert_eq!(mime_type_from(Some(&output(Some(0), " \n"))), None);
    assert_eq!(mime_type_from(None), None);
}

fn desktop(name: &str, exec: &str, mime: &str) -> Option<String> {
    Some(format!("[Desktop Entry]\nName={name}\nExec={exec}\nMimeType={mime}\n"))
}

#[test]
fn discovery_dedups_by_command_and_sorts_by_lowercase_name() {
    let files = vec![
        desktop("zed", "zed %F", "text/plain;"),
        None,
        desktop("Alpha", "alpha", "text/*"),
        desktop("beta", "zed --wait", "text/plain"),
        desktop("Other", "other", "image/png"),
        desktop("alpha", "alpha2", "text/plain"),
        Some("garbage".to_string()),
        desktop("Émile", "emile", "text/plain"),
        desktop("Zeta", "zeta", "text/plain"),
    ];
    let out = output(Some(0), "text/plain\n");
    let apps = discover_apps_for(Some(&out), &files);
    let names: Vec<(&str, &str)> = apps.iter().map(|a| (a.name.as_str(), a.command.as_str())).collect();
    assert_eq!(names, vec![("Alpha", "alpha"), ("alpha", "alpha2"), ("zed", "zed"), ("Zeta", "zeta"), ("Émile", "emile")]);
    assert!(discover_apps_for(None, &files).is_empty());
    assert!(discover_apps_for(Some(&output(Some(2), "text/plain")), &files).is_empty());
}

#[test]
fn application_dirs_follow_xdg_variables() {
    let dirs = application_dirs(Some("/data/"), Some("/home/u"), Some("/a::/b/"));
    assert_eq!(dirs, vec!["/data/applications", "/a/applications", "/b/applications"]);
    let dirs = application_dirs(None, Some("/home/u"), None);
    assert_eq!(
        dirs,
        vec!["/home/u/.local/share/applications", "/usr/local/share/applications", "/usr/share/applications"]
    );
    let dirs = application_dirs(None, None, Some(""));
    assert!(dirs.is_empty());
    let dirs = application_dirs(Some(""), None, Some("x"));
    assert_eq!(dirs, vec!["applications", "x/applications"]);
}

#[test]
fn icon_candidates_order() {
    assert!(icon_candidates("", Some("/home/u")).is_empty());
    let abs = icon_candidates("/opt/app/icon.SVG", None);
    assert_eq!(abs.len(), 1);
    assert_eq!(icon_path(&abs[0]), ("/opt/app/icon.SVG", true));
    let c = icon_candidates("gimp", Some("/home/u"));
    // 4 directories x 5 themes x 9 sizes PNG, 2 pixmaps, 4 x 5 x (1 + 9) SVG
    assert_eq!(c.len(), 180 + 2 + 200);
    assert_eq!(icon_path(&c[0]), ("/home/u/.local/share/icons/hicolor/128x128/apps/gimp.png", false));
    assert_eq!(icon_path(&c[1]), ("/home/u/.local/share/icons/hicolor/96x96/apps/gimp.png", false));
    assert_eq!(icon_path(&c[9]), ("/home/u/.local/share/icons/Adwaita/128x128/apps/gimp.png", false));
    assert_eq!(icon_path(&c[45]), ("/home/u/.icons/hicolor/128x128/apps/gimp.png", false));
    assert_eq!(icon_path(&c[179]), ("/usr/local/share/icons/Papirus-Dark/16x16/apps/gimp.png", false));
    assert_eq!(icon_path(&c[180]), ("/usr/share/pixmaps/gimp.png", false));
    assert_eq!(icon_path(&c[181]), ("/usr/share/pixmaps/gimp.xpm", false));
    assert_eq!(icon_path(&c[182]), ("/home/u/.local/share/icons/hicolor/scalable/apps/gimp.svg", true));
    assert_eq!(icon_path(&c[183]), ("/home/u/.local/share/icons/hicolor/128x128/apps/gimp.svg", true));
    let no_home = icon_candidates("gimp", None);
    assert_eq!(no_home.len(), 90 + 2 + 100);
    assert_eq!(icon_path(&no_home[0]), ("/usr/share/icons/hicolor/128x128/apps/gimp.png", false));
}

#[test]
fn pick_icon_takes_first_existing() {
    let c = icon_candidates("gimp", None);
    let mut exists = vec![false; c.len()];
    exists[5] = true;
    exists[100] = true;
    let picked = pick_icon(c, &exists).expect("icon");
    assert_eq!(icon_path(&picked), ("/usr/share/icons/hicolor/512x512/apps/gimp.png", false));
    let c = icon_candidates("gimp", None);
    assert!(pick_icon(c, &vec![false; 3]).is_none());
    assert_eq!(first_available(&vec![false, false, true, true]), Some(2));
    assert_eq!(first_available(&vec![]), None);
}

#[test]
fn classify_icon_by_extension() {
    assert!(matches!(classify_icon_file("/a/b.svg".to_string()), AppIcon::Svg(_)));
    assert!(matches!(classify_icon_file("/a/b.SvG".to_string()), AppIcon::Svg(_)));
    assert!(matches!(classify_icon_file("/a/b.png".to_string()), AppIcon::Raster(_)));
    assert!(matches!(classify_icon_file("/a/.svg".to_string()), AppIcon::Raster(_)));
    assert!(matches!(classify_icon_file("/a/svg".to_string()), AppIcon::Raster(_)));
}

#[test]
fn terminal_and_binary_candidates() {
    let t = terminal_candidates(Some("st"));
    assert_eq!(t.len(), 12);
    assert_eq!(t[0], "st");
    assert_eq!(t[1], "x-terminal-emulator");
    assert_eq!(t[11], "xterm");
    assert_eq!(terminal_candidates(Some("")).len(), 11);
    assert_eq!(terminal_candidates(None)[0], "x-terminal-emulator");

    assert_eq!(binary_candidates("./run", Some("/bin")), vec!["./run"]);
    assert_eq!(binary_candidates("ls", Some("/bin:/usr/bin/::")), vec!["/bin/ls", "/usr/bin/ls", "ls", "ls"]);
    assert!(binary_candidates("ls", None).is_empty());
}

fn app(terminal: bool) -> DesktopApp {
    DesktopApp { name: "Vim".to_string(), command: "vim".to_string(), icon: None, terminal }
}

#[test]
fn launch_plans() {
    match launch_plan(&app(false), None) {
        LaunchPlan::OpenWith { command } => assert_eq!(command, "vim"),
        _ => panic!("expected a direct launch"),
    }
    match launch_plan(&app(true), Some("kitty".to_string())) {
        LaunchPlan::InTerminal { program, args } => {
            assert_eq!(program, "kitty");
            assert_eq!(args, vec!["-e", "vim"]);
        }
        _ => panic!("expected a terminal launch"),
    }
    match launch_plan(&app(true), None) {
        LaunchPlan::NoTerminal { message } => {
            assert_eq!(message, "Vim needs a terminal, but none could be found")
        }
        _ => panic!("expected a failure"),
    }
}

#[test]
fn desktop_files_by_extension() {
    assert!(is_desktop_file("/usr/share/applications/org.gnome.eog.desktop"));
    assert!(!is_desktop_file("/usr/share/applications/eog.desktop.bak"));
    assert!(!is_desktop_file("/usr/share/applications/.desktop"));
    assert!(!is_desktop_file("/usr/share/applications/x.DESKTOP"));
}
