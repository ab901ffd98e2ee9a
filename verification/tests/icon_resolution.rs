use sis_crystal::icons::{FileSet, IconResolver};

fn fixture_resolver() -> IconResolver {
    IconResolver {
        pixmap_dirs: vec!["/pix".to_string()],
        theme_roots: vec!["/themes".to_string()],
        themes: vec!["hicolor".to_string()],
        sizes: vec!["scalable".to_string(), "48x48".to_string()],
        contexts: vec!["apps".to_string()],
        extensions: vec!["svg".to_string(), "png".to_string(), "xpm".to_string()],
    }
}

#[test]
fn absolute_existing_path_passes_through() {
    let r = fixture_resolver();
    let files = FileSet::new(vec!["/opt/icons/app.png".to_string()]);
    assert_eq!(r.resolve("/opt/icons/app.png", &files).as_deref(), Some("/opt/icons/app.png"));
}

#[test]
fn theme_file_is_found() {
    let r = fixture_resolver();
    let files = FileSet::new(vec![
        "/themes/hicolor/48x48/apps/editor-icon.png".to_string(),
    ]);
    assert_eq!(
        r.resolve("editor-icon", &files).as_deref(),
        Some("/themes/hicolor/48x48/apps/editor-icon.png")
    );
}

#[test]
fn pixmap_beats_theme() {
    let r = fixture_resolver();
    let files = FileSet::new(vec![
        "/themes/hicolor/scalable/apps/editor-icon.svg".to_string(),
        "/pix/editor-icon.svg".to_string(),
    ]);
    assert_eq!(r.resolve("editor-icon", &files).as_deref(), Some("/pix/editor-icon.svg"));
}

#[test]
fn scalable_beats_raster_within_a_theme() {
    let r = fixture_resolver();
    let files = FileSet::new(vec![
        "/themes/hicolor/48x48/apps/editor-icon.svg".to_string(),
        "/themes/hicolor/scalable/apps/editor-icon.svg".to_string(),
    ]);
    assert_eq!(
        r.resolve("editor-icon", &files).as_deref(),
        Some("/themes/hicolor/scalable/apps/editor-icon.svg")
    );
}

#[test]
fn earlier_extension_beats_later() {
    let r = fixture_resolver();
    let files = FileSet::new(vec![
        "/pix/editor-icon.png".to_string(),
        "/pix/editor-icon.svg".to_string(),
    ]);
    assert_eq!(r.resolve("editor-icon", &files).as_deref(), Some("/pix/editor-icon.svg"));
}

#[test]
fn a_known_extension_searches_the_literal_name() {
    let r = fixture_resolver();
    let files = FileSet::new(vec!["/pix/editor-icon.png".to_string()]);
    assert_eq!(r.resolve("editor-icon.png", &files).as_deref(), Some("/pix/editor-icon.png"));
    // no double extension is tried
    let files2 = FileSet::new(vec!["/pix/editor-icon.png.svg".to_string()]);
    assert_eq!(r.resolve("editor-icon.png", &files2), None);
}

#[test]
fn absence_is_not_an_error() {
    let r = fixture_resolver();
    let files = FileSet::new(Vec::new());
    assert_eq!(r.resolve("nothing-here", &files), None);
}

#[test]
fn resolution_is_deterministic() {
    let r = fixture_resolver();
    let files = FileSet::new(vec![
        "/themes/hicolor/scalable/apps/editor-icon.svg".to_string(),
        "/pix/editor-icon.xpm".to_string(),
    ]);
    let first = r.resolve("editor-icon", &files);
    let second = r.resolve("editor-icon", &files);
    assert_eq!(first, second);
    assert_eq!(first.as_deref(), Some("/pix/editor-icon.xpm"));
}

#[test]
fn default_layout_searches_system_roots() {
    let r = IconResolver::with_default_layout(Some("/home/user"));
    let files = FileSet::new(vec![
        "/usr/share/icons/hicolor/scalable/apps/editor.svg".to_string(),
        "/home/user/.local/share/icons/hicolor/scalable/apps/editor.svg".to_string(),
    ]);
    // the user's tree stands before the system tree
    assert_eq!(
        r.resolve("editor", &files).as_deref(),
        Some("/home/user/.local/share/icons/hicolor/scalable/apps/editor.svg")
    );
    let pixmap_files = FileSet::new(vec![
        "/usr/share/pixmaps/editor.png".to_string(),
        "/usr/share/icons/hicolor/scalable/apps/editor.svg".to_string(),
    ]);
    assert_eq!(
        r.resolve("editor", &pixmap_files).as_deref(),
        Some("/usr/share/pixmaps/editor.png")
    );
}
