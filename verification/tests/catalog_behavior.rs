use sis_crystal::catalog::{
    build_catalog, get_installed_apps, is_desktop_file_name, parse_desktop_file,
    resolve_entry_icon, DesktopApp,
};
use sis_crystal::icons::{FileSet, IconResolver};

fn entry(name: &str, exec_command: &str) -> DesktopApp {
    DesktopApp {
        name: name.to_string(),
        exec_command: exec_command.to_string(),
        icon: None,
        categories: Vec::new(),
        description: None,
    }
}

#[test]
fn fixture_entry_is_parsed() {
    let text = "[Desktop Entry]\nName=Editor\nExec=editor --flag %F\nIcon=editor-icon\nCategories=Development;Utility;\n";
    let app = parse_desktop_file(text).expect("a visible entry");
    assert_eq!(app.name, "Editor");
    assert_eq!(app.exec_command, "editor");
    assert_eq!(app.icon.as_deref(), Some("editor-icon"));
    assert_eq!(app.categories, vec!["Development".to_string(), "Utility".to_string()]);
    assert_eq!(app.description, None);
}

#[test]
fn comment_becomes_description() {
    let text = "[Desktop Entry]\nName=A\nExec=a\nComment=Does things\n";
    let app = parse_desktop_file(text).expect("a visible entry");
    assert_eq!(app.description.as_deref(), Some("Does things"));
}

#[test]
fn no_display_is_excluded() {
    let text = "[Desktop Entry]\nName=Hidden App\nExec=x\nNoDisplay=true\n";
    assert!(parse_desktop_file(text).is_none());
}

#[test]
fn hidden_is_excluded() {
    let text = "[Desktop Entry]\nName=Hidden App\nExec=x\nHidden=true\n";
    assert!(parse_desktop_file(text).is_none());
}

#[test]
fn no_display_false_is_kept() {
    let text = "[Desktop Entry]\nName=A\nExec=a\nNoDisplay=false\n";
    assert!(parse_desktop_file(text).is_some());
}

#[test]
fn missing_name_is_skipped() {
    let text = "[Desktop Entry]\nExec=x\n";
    assert!(parse_desktop_file(text).is_none());
}

#[test]
fn missing_exec_is_skipped() {
    let text = "[Desktop Entry]\nName=A\n";
    assert!(parse_desktop_file(text).is_none());
}

#[test]
fn keys_outside_the_section_do_not_count() {
    let text = "Name=A\nExec=a\n[Other]\nName=B\nExec=b\n";
    assert!(parse_desktop_file(text).is_none());
}

#[test]
fn first_occurrence_of_a_key_wins() {
    let text = "[Desktop Entry]\nName=First\nName=Second\nExec=x\n";
    let app = parse_desktop_file(text).expect("a visible entry");
    assert_eq!(app.name, "First");
}

#[test]
fn comments_are_ignored() {
    let text = "[Desktop Entry]\n#Name=Wrong\nName=A\nExec=a\n";
    let app = parse_desktop_file(text).expect("a visible entry");
    assert_eq!(app.name, "A");
}

#[test]
fn catalog_sorts_case_insensitively() {
    let apps = vec![entry("zed", "z"), entry("Abc", "a")];
    let sorted = get_installed_apps(apps);
    let names: Vec<&str> = sorted.iter().map(|a| a.name.as_str()).collect();
    assert_eq!(names, vec!["Abc", "zed"]);
}

#[test]
fn duplicate_names_keep_the_first_scanned() {
    let apps = vec![
        entry("Zeta", "z"),
        entry("Editor", "user-editor"),
        entry("Editor", "system-editor"),
    ];
    let sorted = get_installed_apps(apps);
    assert_eq!(sorted.len(), 2);
    assert_eq!(sorted[0].name, "Editor");
    assert_eq!(sorted[0].exec_command, "user-editor");
    assert_eq!(sorted[1].name, "Zeta");
}

#[test]
fn desktop_file_names_are_recognised() {
    assert!(is_desktop_file_name("editor.desktop"));
    assert!(!is_desktop_file_name("editor.txt"));
    assert!(!is_desktop_file_name("desktop"));
}

#[test]
fn end_to_end_fixture_entry() {
    let text = "[Desktop Entry]\nName=Editor\nExec=editor --flag %F\nIcon=editor-icon\nCategories=Development;Utility;\n";
    let parsed = parse_desktop_file(text).expect("a visible entry");
    let resolver = IconResolver {
        pixmap_dirs: vec!["/fixture/pixmaps".to_string()],
        theme_roots: vec!["/fixture/icons".to_string()],
        themes: vec!["hicolor".to_string()],
        sizes: vec!["48x48".to_string()],
        contexts: vec!["apps".to_string()],
        extensions: vec!["svg".to_string(), "png".to_string(), "xpm".to_string()],
    };
    let files = FileSet::new(vec![
        "/fixture/icons/hicolor/48x48/apps/editor-icon.png".to_string(),
    ]);
    let resolved = resolve_entry_icon(parsed, &resolver, &files);
    let catalog = get_installed_apps(vec![resolved]);
    assert_eq!(catalog.len(), 1);
    assert_eq!(catalog[0].exec_command, "editor");
    assert_eq!(
        catalog[0].categories,
        vec!["Development".to_string(), "Utility".to_string()]
    );
    assert_eq!(
        catalog[0].icon.as_deref(),
        Some("/fixture/icons/hicolor/48x48/apps/editor-icon.png")
    );
}

#[test]
fn end_to_end_fixture_without_icon_file() {
    let text = "[Desktop Entry]\nName=Editor\nExec=editor --flag %F\nIcon=editor-icon\n";
    let parsed = parse_desktop_file(text).expect("a visible entry");
    let resolver = IconResolver {
        pixmap_dirs: vec!["/fixture/pixmaps".to_string()],
        theme_roots: vec!["/fixture/icons".to_string()],
        themes: vec!["hicolor".to_string()],
        sizes: vec!["48x48".to_string()],
        contexts: vec!["apps".to_string()],
        extensions: vec!["svg".to_string(), "png".to_string(), "xpm".to_string()],
    };
    let files = FileSet::new(vec!["/fixture/pixmaps/other.png".to_string()]);
    let resolved = resolve_entry_icon(parsed, &resolver, &files);
    assert_eq!(resolved.icon, None);
}

#[test]
fn catalog_pipeline_from_file_text() {
    let user_entry = "[Desktop Entry]\nName=Editor\nExec=editor --flag %F\nIcon=editor-icon\nCategories=Development;Utility;\n";
    let system_entry = "[Desktop Entry]\nName=Editor\nExec=system-editor\n";
    let hidden_entry = "[Desktop Entry]\nName=Ghost\nExec=g\nHidden=true\n";
    let other_entry = "[Desktop Entry]\nName=app two\nExec=two\n";
    let resolver = IconResolver {
        pixmap_dirs: vec!["/fixture/pixmaps".to_string()],
        theme_roots: vec!["/fixture/icons".to_string()],
        themes: vec!["hicolor".to_string()],
        sizes: vec!["48x48".to_string()],
        contexts: vec!["apps".to_string()],
        extensions: vec!["svg".to_string(), "png".to_string(), "xpm".to_string()],
    };
    let files = FileSet::new(vec!["/fixture/pixmaps/editor-icon.svg".to_string()]);
    let catalog = build_catalog(
        vec![
            user_entry.to_string(),
            system_entry.to_string(),
            hidden_entry.to_string(),
            other_entry.to_string(),
        ],
        &resolver,
        &files,
    );
    let names: Vec<&str> = catalog.iter().map(|a| a.name.as_str()).collect();
    assert_eq!(names, vec!["app two", "Editor"]);
    // the earlier-scanned duplicate wins, icon resolved from the pixmap root
    assert_eq!(catalog[1].exec_command, "editor");
    assert_eq!(catalog[1].icon.as_deref(), Some("/fixture/pixmaps/editor-icon.svg"));
}
