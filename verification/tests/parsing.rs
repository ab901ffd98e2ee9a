use sis_crystal::audio::{
    get_audio_info, parse_first_percent_value, parse_wpctl_volume, volume_percent_arg,
};
use sis_crystal::clamp_volume;
use sis_crystal::host::get_brightness;
use sis_crystal::media::{get_player_metadata, media_control_command, parse_player_metadata, PlayerProbe};
use sis_crystal::probe::{probe_to_result, shell_result, ProbeResult, ToolError};

#[test]
fn percent_value_first_occurrence() {
    assert_eq!(
        parse_first_percent_value("Volume: front-left: 38273 /  52% / -17.82 dB"),
        Some(52)
    );
}

#[test]
fn percent_value_skips_bare_signs() {
    assert_eq!(parse_first_percent_value("% then 7%"), Some(7));
    assert_eq!(parse_first_percent_value("%%%"), None);
    assert_eq!(parse_first_percent_value("no digits here"), None);
}

#[test]
fn percent_value_overflow_is_passed_over() {
    assert_eq!(parse_first_percent_value("99999999999% and 30%"), Some(30));
    assert_eq!(parse_first_percent_value("99999999999%"), None);
}

#[test]
fn wpctl_plain_fraction() {
    assert_eq!(parse_wpctl_volume("Volume: 0.52"), Some((52, false)));
}

#[test]
fn wpctl_muted_marker() {
    assert_eq!(parse_wpctl_volume("Volume: 0.52 [MUTED]"), Some((52, true)));
}

#[test]
fn wpctl_clamps_to_ceiling() {
    assert_eq!(parse_wpctl_volume("Volume: 1.50"), Some((150, false)));
    assert_eq!(parse_wpctl_volume("Volume: 2.0"), Some((150, false)));
}

#[test]
fn wpctl_rounds_third_digit() {
    assert_eq!(parse_wpctl_volume("Volume: 0.525"), Some((53, false)));
    assert_eq!(parse_wpctl_volume("Volume: 0.524"), Some((52, false)));
}

#[test]
fn wpctl_rejects_unreadable_output() {
    assert_eq!(parse_wpctl_volume("no separator"), None);
    assert_eq!(parse_wpctl_volume("Volume: abc"), None);
    assert_eq!(parse_wpctl_volume("Volume: ."), None);
}

#[test]
fn volume_clamp_upper_bound_only() {
    assert_eq!(clamp_volume(200), 150);
    assert_eq!(clamp_volume(150), 150);
    assert_eq!(clamp_volume(0), 0);
    assert_eq!(clamp_volume(35), 35);
}

#[test]
fn volume_argument_carries_clamped_level() {
    assert_eq!(volume_percent_arg(200), "150%");
    assert_eq!(volume_percent_arg(0), "0%");
    assert_eq!(volume_percent_arg(35), "35%");
}

#[test]
fn audio_info_prefers_percent_mixer() {
    let info = get_audio_info(
        Some("Volume: 65%".to_string()),
        Some("Mute: yes".to_string()),
        Some("Volume: 0.20".to_string()),
        None,
        None,
        false,
    );
    assert_eq!(info.volume, 65);
    assert!(info.is_muted);
}

#[test]
fn audio_info_falls_back_to_fraction_mixer() {
    let info = get_audio_info(None, None, Some("Volume: 0.20".to_string()), None, None, false);
    assert_eq!(info.volume, 20);
    assert!(!info.is_muted);
}

#[test]
fn audio_info_defaults_without_any_mixer() {
    let info = get_audio_info(None, None, None, Some("T".to_string()), None, true);
    assert_eq!(info.volume, 50);
    assert!(!info.is_muted);
    assert_eq!(info.current_track.as_deref(), Some("T"));
    assert!(info.is_playing);
}

#[test]
fn metadata_line_with_all_fields() {
    let m = parse_player_metadata("My Song|||The Artist|||Playing\n");
    assert_eq!(m.title.as_deref(), Some("My Song"));
    assert_eq!(m.artist.as_deref(), Some("The Artist"));
    assert!(m.playing);
}

#[test]
fn metadata_line_with_empty_fields() {
    let m = parse_player_metadata("|||The Artist|||Paused");
    assert_eq!(m.title, None);
    assert_eq!(m.artist.as_deref(), Some("The Artist"));
    assert!(!m.playing);
}

#[test]
fn player_scan_takes_first_playing() {
    let probes = vec![
        PlayerProbe {
            name: "one".to_string(),
            status: Some("Paused\n".to_string()),
            metadata: Some("Wrong|||Wrong|||Paused".to_string()),
        },
        PlayerProbe {
            name: "two".to_string(),
            status: Some("Playing\n".to_string()),
            metadata: Some("Right|||Someone|||Playing".to_string()),
        },
    ];
    let m = get_player_metadata(None, &probes);
    assert_eq!(m.title.as_deref(), Some("Right"));
    assert!(m.playing);
}

#[test]
fn player_combined_query_wins() {
    let probes = vec![PlayerProbe {
        name: "one".to_string(),
        status: Some("Playing".to_string()),
        metadata: Some("Scan|||Scan|||Playing".to_string()),
    }];
    let m = get_player_metadata(Some("Any|||Artist|||Playing".to_string()), &probes);
    assert_eq!(m.title.as_deref(), Some("Any"));
}

#[test]
fn player_scan_falls_back_to_first_answering() {
    let probes = vec![
        PlayerProbe {
            name: "quiet".to_string(),
            status: Some("Paused\n".to_string()),
            metadata: Some("Held|||Someone|||Paused".to_string()),
        },
        PlayerProbe {
            name: "other".to_string(),
            status: None,
            metadata: Some("Other|||Other|||Paused".to_string()),
        },
    ];
    let m = get_player_metadata(None, &probes);
    assert_eq!(m.title.as_deref(), Some("Held"));
    assert!(!m.playing);
}

#[test]
fn player_scan_without_players_is_silent() {
    let m = get_player_metadata(None, &Vec::new());
    assert_eq!(m.title, None);
    assert_eq!(m.artist, None);
    assert!(!m.playing);
}

#[test]
fn media_commands_map_to_control_words() {
    assert_eq!(media_control_command("play"), Ok("play-pause"));
    assert_eq!(media_control_command("pause"), Ok("play-pause"));
    assert_eq!(media_control_command("next"), Ok("next"));
    assert_eq!(media_control_command("previous"), Ok("previous"));
}

#[test]
fn media_unknown_action_is_refused() {
    assert_eq!(media_control_command("stop"), Err("Unknown action".to_string()));
}

#[test]
fn tool_errors_carry_their_text() {
    assert_eq!(ToolError::Unavailable("gone".to_string()).message().as_str(), "gone");
    assert_eq!(ToolError::Parse("bad shape".to_string()).message().as_str(), "bad shape");
}

#[test]
fn probe_success_yields_stdout() {
    let r = probe_to_result(ProbeResult {
        success: true,
        stdout: "out".to_string(),
        stderr: "err".to_string(),
        exit_code: 0,
    });
    match r {
        Ok(out) => assert_eq!(out, "out"),
        Err(_) => panic!("expected success"),
    }
}

#[test]
fn probe_failure_carries_stderr() {
    let r = probe_to_result(ProbeResult {
        success: false,
        stdout: "out".to_string(),
        stderr: "boom".to_string(),
        exit_code: 1,
    });
    match r {
        Ok(_) => panic!("expected failure"),
        Err(e) => {
            assert!(matches!(e, ToolError::Failed(_)));
            assert_eq!(e.message().as_str(), "boom");
        }
    }
}

#[test]
fn shell_transcript_joins_streams() {
    assert_eq!(
        shell_result(true, "out".to_string(), "err".to_string()),
        Ok("out\nerr".to_string())
    );
    assert_eq!(shell_result(true, "".to_string(), "err".to_string()), Ok("err".to_string()));
    assert_eq!(
        shell_result(false, "text".to_string(), "".to_string()),
        Err("text".to_string())
    );
    assert_eq!(
        shell_result(false, "".to_string(), "".to_string()),
        Err("Command failed".to_string())
    );
}

#[test]
fn brightness_is_a_floor_percentage() {
    assert_eq!(get_brightness(Some("1500\n".to_string()), Some("3000\n".to_string())), 50);
    assert_eq!(get_brightness(Some("3".to_string()), Some("7".to_string())), 42);
}

#[test]
fn brightness_defaults_on_unreadable_output() {
    assert_eq!(get_brightness(None, None), 100);
    assert_eq!(get_brightness(Some("abc".to_string()), Some("100".to_string())), 100);
    assert_eq!(get_brightness(Some("50".to_string()), Some("0".to_string())), 100);
    assert_eq!(get_brightness(Some("50".to_string()), None), 100);
}
