use sis_crystal::files::{
    expand_tilde, get_directory_contents, get_file_icon, get_wallpapers, is_wallpaper_file,
    FileEntry,
};
use sis_crystal::host::{
    avatar_candidates, brightness_percent_arg, get_settings_path, get_user_profile, parse_icon_attr, system_action_plan,
    wallpaper_plan, wallpaper_uri,
};
use sis_crystal::network::{
    get_network_info, parse_bluetooth_devices, parse_wifi_networks, wifi_connect_args,
};

fn file(name: &str, is_dir: bool) -> FileEntry {
    FileEntry {
        name: name.to_string(),
        path: format!("/tmp/{}", name),
        is_dir,
        size: 0,
        modified: None,
        icon: get_file_icon(name, is_dir),
    }
}

#[test]
fn file_icons_follow_the_extension() {
    assert_eq!(get_file_icon("photo.PNG", false), "image");
    assert_eq!(get_file_icon("song.flac", false), "music");
    assert_eq!(get_file_icon("movie.mkv", false), "video");
    assert_eq!(get_file_icon("notes.md", false), "file-text");
    assert_eq!(get_file_icon("main.rs", false), "code");
    assert_eq!(get_file_icon("backup.tar", false), "archive");
    assert_eq!(get_file_icon("run.sh", false), "terminal");
    assert_eq!(get_file_icon("tool.deb", false), "package");
    assert_eq!(get_file_icon("mystery.bin", false), "file");
    assert_eq!(get_file_icon("anything", true), "folder");
}

#[test]
fn listings_put_directories_first() {
    let entries = vec![file("alpha.txt", false), file("Beta", true), file("archive", true)];
    let sorted = get_directory_contents(entries);
    let names: Vec<&str> = sorted.iter().map(|e| e.name.as_str()).collect();
    assert_eq!(names, vec!["archive", "Beta", "alpha.txt"]);
}

#[test]
fn listing_names_compare_case_insensitively() {
    let entries = vec![file("zebra.txt", false), file("Apple.txt", false)];
    let sorted = get_directory_contents(entries);
    let names: Vec<&str> = sorted.iter().map(|e| e.name.as_str()).collect();
    assert_eq!(names, vec!["Apple.txt", "zebra.txt"]);
}

#[test]
fn tilde_expansion_replaces_every_tilde() {
    assert_eq!(expand_tilde("~/docs", "/home/u"), "/home/u/docs");
    assert_eq!(expand_tilde("/plain/path", "/home/u"), "/plain/path");
    assert_eq!(expand_tilde("a~b~c", "X"), "aXbXc");
}

#[test]
fn wallpapers_are_filtered_sorted_and_deduplicated() {
    let paths = vec![
        "/w/b.png".to_string(),
        "/w/readme.txt".to_string(),
        "/w/a.jpg".to_string(),
        "/w/b.png".to_string(),
        "/w/c.WEBP".to_string(),
    ];
    let r = get_wallpapers(paths);
    assert_eq!(
        r,
        vec!["/w/a.jpg".to_string(), "/w/b.png".to_string(), "/w/c.WEBP".to_string()]
    );
}

#[test]
fn wallpaper_names_need_an_image_extension() {
    assert!(is_wallpaper_file("a.jpeg"));
    assert!(!is_wallpaper_file("a.svg"));
    assert!(!is_wallpaper_file("jpeg"));
}

#[test]
fn network_info_reads_the_active_row() {
    let wifi = "no:OtherNet\nyes:HomeNet\n".to_string();
    let ip = "192.168.1.5 10.0.0.3\n".to_string();
    let info = get_network_info(Some(wifi), Some(ip));
    assert!(info.is_connected);
    assert_eq!(info.ssid.as_deref(), Some("HomeNet"));
    assert_eq!(info.ip_address.as_deref(), Some("192.168.1.5"));
    assert_eq!(info.signal_strength, None);
}

#[test]
fn network_info_without_an_active_row() {
    let info = get_network_info(Some("no:OtherNet\n".to_string()), None);
    assert!(!info.is_connected);
    assert_eq!(info.ssid, None);
    assert_eq!(info.ip_address, None);
}

#[test]
fn wifi_listing_rows_carry_their_fields() {
    let out = "Net1:80:WPA2\n\nNet2:50\n";
    let rows = parse_wifi_networks(out);
    assert_eq!(rows.len(), 2);
    assert_eq!(rows[0].ssid.as_deref(), Some("Net1"));
    assert_eq!(rows[0].signal.as_deref(), Some("80"));
    assert_eq!(rows[0].security.as_deref(), Some("WPA2"));
    assert_eq!(rows[1].ssid.as_deref(), Some("Net2"));
    assert_eq!(rows[1].security, None);
}

#[test]
fn wifi_connect_arguments() {
    let open = wifi_connect_args("Cafe", "");
    assert_eq!(open, vec!["dev", "wifi", "connect", "Cafe"]);
    let secured = wifi_connect_args("Home", "pw");
    assert_eq!(
        secured,
        vec!["dev", "wifi", "connect", "Home", "password", "pw"]
    );
}

#[test]
fn bluetooth_rows_join_the_device_name() {
    let out = "Device 00:11:22:33:44:55 My Headset\nDevice AA:BB:CC:DD:EE:FF Mouse\nnoise\n";
    let devices = parse_bluetooth_devices(out);
    assert_eq!(devices.len(), 2);
    assert_eq!(devices[0].mac, "00:11:22:33:44:55");
    assert_eq!(devices[0].name, "My Headset");
    assert_eq!(devices[1].name, "Mouse");
}

#[test]
fn system_actions_build_their_plans() {
    let plan = system_action_plan("shutdown", "alice").expect("a known action");
    assert_eq!(plan.len(), 1);
    assert_eq!(plan[0].program, "systemctl");
    assert_eq!(plan[0].args, vec!["poweroff"]);
    assert!(plan[0].must_succeed);

    let lock = system_action_plan("lock", "alice").expect("a known action");
    assert_eq!(lock.len(), 2);
    assert!(!lock[0].must_succeed);
    assert!(!lock[1].must_succeed);

    let logout = system_action_plan("logout", "alice").expect("a known action");
    assert_eq!(logout[0].args, vec!["terminate-user", "alice"]);
}

#[test]
fn unknown_system_action_is_refused() {
    assert_eq!(
        system_action_plan("hibernate", "alice").err().as_deref(),
        Some("Unknown action")
    );
}

#[test]
fn wallpaper_uri_forms() {
    assert_eq!(wallpaper_uri("/usr/share/bg.jpg"), "file:///usr/share/bg.jpg");
    assert_eq!(wallpaper_uri("relative/bg.jpg"), "file:///relative/bg.jpg");
    assert_eq!(wallpaper_uri("file:///x/y.png"), "file:///x/y.png");
    assert_eq!(wallpaper_uri("https://example.org/bg.jpg"), "https://example.org/bg.jpg");
}

#[test]
fn wallpaper_plan_sets_both_keys() {
    let plan = wallpaper_plan("/usr/share/bg.jpg");
    assert_eq!(plan.len(), 2);
    assert_eq!(plan[0].program, "gsettings");
    assert_eq!(
        plan[0].args,
        vec!["set", "org.gnome.desktop.background", "picture-uri", "file:///usr/share/bg.jpg"]
    );
    assert!(plan[0].must_succeed);
    assert_eq!(plan[1].args[2], "picture-uri-dark");
    assert!(!plan[1].must_succeed);
}

#[test]
fn avatar_candidates_in_search_order() {
    let with_home = avatar_candidates(Some("/home/u"), "u");
    assert_eq!(
        with_home,
        vec![
            "/home/u/.face".to_string(),
            "/home/u/.face.icon".to_string(),
            "/var/lib/AccountsService/icons/u".to_string(),
        ]
    );
    let without = avatar_candidates(None, "u");
    assert_eq!(without, vec!["/var/lib/AccountsService/icons/u".to_string()]);
}

#[test]
fn account_record_icon_is_trimmed() {
    let record = "[User]\nSession=gnome\nIcon= /var/icons/u.png \n";
    assert_eq!(parse_icon_attr(record).as_deref(), Some("/var/icons/u.png"));
    assert_eq!(parse_icon_attr("[User]\nSession=gnome\n"), None);
}

#[test]
fn brightness_argument_is_capped_at_full() {
    assert_eq!(brightness_percent_arg(250), "100%");
    assert_eq!(brightness_percent_arg(40), "40%");
    assert_eq!(brightness_percent_arg(0), "0%");
}

#[test]
fn settings_path_names_the_settings_file() {
    assert!(get_settings_path().ends_with("/settings.json"));
}

#[test]
fn user_profile_keeps_the_found_avatar() {
    let p = get_user_profile(Some("/var/icons/u.png".to_string()));
    assert_eq!(p.avatar_path.as_deref(), Some("/var/icons/u.png"));
    let q = get_user_profile(None);
    assert_eq!(q.avatar_path, None);
}
