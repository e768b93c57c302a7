use openparts_kicad_plugin::cli::parse_project_dir_arg;
use openparts_kicad_plugin::install::{
    default_registry_url, footprint_lib_dir_name, footprint_lib_table_entry, step_dir_name,
    symbol_lib_file_name, symbol_lib_table_entry, footprint_file_name, install_failed_message, install_message, install_request,
    step_file_name, step_model_path, InstallBlocked,
};
use openparts_kicad_plugin::kicad_detect::{detection_status, try_detect_project_dir};
use openparts_kicad_plugin::search::{
    debounce_action, should_auto_dispatch, DebounceAction, SearchSession,
};
use openparts_kicad_plugin::text::is_white_space_char;
use std::time::Duration;

#[test]
fn does_not_auto_dispatch_before_the_debounce_elapses() {
    assert!(!should_auto_dispatch(
        Duration::from_millis(100).as_millis(),
        "STM".len()
    ));
}

#[test]
fn auto_dispatches_once_debounce_elapses_with_a_long_enough_query() {
    assert!(should_auto_dispatch(Duration::from_millis(300).as_millis(), "ST".len()));
}

#[test]
fn does_not_auto_dispatch_a_too_short_query_even_after_debounce_elapses() {
    assert!(!should_auto_dispatch(Duration::from_millis(300).as_millis(), "S".len()));
}

#[test]
fn empty_query_never_auto_dispatches() {
    assert!(!should_auto_dispatch(Duration::from_secs(10).as_millis(), 0));
}

#[test]
fn project_dir_arg_absent_yields_none() {
    let args = ["openparts-kicad-plugin".to_string()];
    assert_eq!(parse_project_dir_arg(&args), None);
}

#[test]
fn project_dir_arg_space_separated() {
    let args = [
        "openparts-kicad-plugin".to_string(),
        "--project-dir".to_string(),
        "/home/user/my-project".to_string(),
    ];
    assert_eq!(
        parse_project_dir_arg(&args),
        Some("/home/user/my-project".to_string())
    );
}

#[test]
fn project_dir_arg_equals_separated() {
    let args = [
        "openparts-kicad-plugin".to_string(),
        "--project-dir=/home/user/my-project".to_string(),
    ];
    assert_eq!(
        parse_project_dir_arg(&args),
        Some("/home/user/my-project".to_string())
    );
}

// ---------------------------------------------------------------------------
// Further cases
// ---------------------------------------------------------------------------

#[test]
fn auto_dispatch_boundary_is_inclusive() {
    assert!(should_auto_dispatch(250, 2));
    assert!(!should_auto_dispatch(249, 2));
    assert!(!should_auto_dispatch(250, 1));
}

#[test]
fn project_dir_flag_without_value_yields_none() {
    let args = ["prog".to_string(), "--verbose".to_string(), "--project-dir".to_string()];
    assert_eq!(parse_project_dir_arg(&args), None);
}

#[test]
fn program_name_is_never_read_as_the_flag() {
    let args = ["--project-dir=/x".to_string(), "--project-dir=/y".to_string()];
    assert_eq!(parse_project_dir_arg(&args), Some("/y".to_string()));
    let none: [String; 0] = [];
    assert_eq!(parse_project_dir_arg(&none), None);
}

#[test]
fn first_project_dir_wins_and_empty_value_is_kept() {
    let args = [
        "prog".to_string(),
        "--project-dir=".to_string(),
        "--project-dir".to_string(),
        "/z".to_string(),
    ];
    assert_eq!(parse_project_dir_arg(&args), Some(String::new()));
    let args = ["prog".to_string(), "--project-dir".to_string(), "--project-dir=/q".to_string()];
    assert_eq!(parse_project_dir_arg(&args), Some("--project-dir=/q".to_string()));
}

#[test]
fn debounce_actions() {
    assert_eq!(debounce_action(None, 5), DebounceAction::Idle);
    assert_eq!(debounce_action(Some(300_000_000), 5), DebounceAction::Dispatch);
    assert_eq!(debounce_action(Some(250_000_000), 2), DebounceAction::Dispatch);
    assert_eq!(debounce_action(Some(249_999_999), 5), DebounceAction::WaitNanos(1));
    assert_eq!(debounce_action(Some(100_000_000), 5), DebounceAction::WaitNanos(150_000_000));
    assert_eq!(debounce_action(Some(400_000_000), 1), DebounceAction::WaitNanos(0));
}

#[test]
fn only_the_latest_search_reply_is_applied() {
    let mut session: SearchSession<u32> = SearchSession::new();
    let first = session.begin_search();
    assert_eq!(session.status, "Searching...");
    let second = session.begin_search();
    assert_eq!((first, second), (1, 2));
    session.receive(first, Ok(vec![7, 8]));
    assert!(session.results.is_empty());
    assert_eq!(session.status, "Searching...");
    session.receive(second, Ok(vec![1, 2, 3]));
    assert_eq!(session.results, vec![1, 2, 3]);
    assert_eq!(session.status, "3 result(s).");
}

#[test]
fn failed_search_clears_results_and_keeps_the_selection() {
    let mut session: SearchSession<u32> = SearchSession::new();
    let g = session.begin_search();
    let mut found = Vec::new();
    for i in 0..1234u32 {
        found.push(i);
    }
    session.receive(g, Ok(found));
    assert_eq!(session.status, "1234 result(s).");
    assert_eq!(session.selected, None);
    session.selected = Some(3);
    let g = session.begin_search();
    session.receive(g, Err("timed out".to_string()));
    assert!(session.results.is_empty());
    assert_eq!(session.selected, Some(3));
    assert_eq!(session.status, "Search failed: timed out");
}

#[test]
fn empty_search_result_reports_zero() {
    let mut session: SearchSession<u32> = SearchSession::new();
    let g = session.begin_search();
    session.receive(g, Ok(Vec::new()));
    assert_eq!(session.status, "0 result(s).");
}

#[test]
fn install_needs_a_selection_then_a_project_dir() {
    assert_eq!(
        install_request(None, "B1", "/p").err(),
        Some(InstallBlocked::NoSelection)
    );
    assert_eq!(
        install_request(Some(0), "B1", " \t ").err(),
        Some(InstallBlocked::NoProjectDir)
    );
    assert_eq!(InstallBlocked::NoSelection.message(), "Select a search result first.");
    assert_eq!(InstallBlocked::NoProjectDir.message(), "Set a project directory first.");
}

#[test]
fn install_request_trims_its_fields() {
    let req = install_request(Some(2), "  B1 \n", "\u{3000}/home/p ").unwrap();
    assert_eq!(req.index, 2);
    assert_eq!(req.revision, Some("B1".to_string()));
    assert_eq!(req.project_dir, "/home/p");
    let req = install_request(Some(0), "   ", "/p").unwrap();
    assert_eq!(req.revision, None);
}

#[test]
fn install_names_and_messages() {
    assert_eq!(step_model_path("RP2040"), "${KIPRJMOD}/openparts_3d/RP2040.step");
    assert_eq!(step_file_name("RP2040"), "RP2040.step");
    assert_eq!(footprint_file_name("RP2040"), "RP2040.kicad_mod");
    assert_eq!(
        install_message("RP2040", "/p", "aa", "bb", "cc"),
        "Installed RP2040 into /p (symbol hash sha256:aa, footprint hash sha256:bb, step hash sha256:cc)"
    );
    assert_eq!(install_failed_message("disk full"), "Install failed: disk full");
}

#[test]
fn detected_project_dir_is_the_parent_of_the_project_file() {
    assert_eq!(try_detect_project_dir(None), None);
    assert_eq!(
        try_detect_project_dir(Some("/home/u/board/board.kicad_pro")),
        Some("/home/u/board".to_string())
    );
    assert_eq!(try_detect_project_dir(Some("/")), None);
    assert_eq!(try_detect_project_dir(Some("")), None);
}

#[test]
fn relative_project_file_has_the_current_directory_as_parent() {
    assert_eq!(try_detect_project_dir(Some("board.kicad_pro")), Some(String::new()));
    assert_eq!(try_detect_project_dir(Some("a/b/")), Some("a".to_string()));
}

#[test]
fn white_space_matches_std() {
    for n in 0..=0x10FFFFu32 {
        if let Some(c) = char::from_u32(n) {
            assert_eq!(is_white_space_char(c), c.is_whitespace(), "U+{n:04X}");
        }
    }
}

#[test]
fn install_locations_and_registrations() {
    assert_eq!(default_registry_url(), "http://localhost:8080");
    assert_eq!(step_dir_name(), "openparts_3d");
    assert_eq!(footprint_lib_dir_name(), "openparts.pretty");
    assert_eq!(symbol_lib_file_name(), "openparts.kicad_sym");
    let s = symbol_lib_table_entry();
    assert_eq!(
        (s.file_name.as_str(), s.table_tag.as_str(), s.lib_name.as_str(), s.lib_type.as_str(), s.uri.as_str()),
        ("sym-lib-table", "sym_lib_table", "openparts", "KiCad", "${KIPRJMOD}/openparts.kicad_sym")
    );
    let f = footprint_lib_table_entry();
    assert_eq!(
        (f.file_name.as_str(), f.table_tag.as_str(), f.lib_name.as_str(), f.lib_type.as_str(), f.uri.as_str()),
        ("fp-lib-table", "fp_lib_table", "openparts", "KiCad", "${KIPRJMOD}/openparts.pretty")
    );
}

#[test]
fn portable_project_paths_give_their_directory() {
    assert_eq!(
        try_detect_project_dir(Some("/home/u/p/x.kicad_pro")),
        Some("/home/u/p".to_string())
    );
    assert_eq!(try_detect_project_dir(Some("rel/dir/x.kicad_pro")), Some("rel/dir".to_string()));
}

#[test]
fn selection_outliving_a_failed_search_is_none() {
    let mut session: SearchSession<u32> = SearchSession::new();
    assert_eq!(session.valid_selection(), None);
    let g = session.begin_search();
    session.receive(g, Ok(vec![5, 6]));
    session.selected = Some(1);
    assert_eq!(session.valid_selection(), Some(1));
    let g = session.begin_search();
    session.receive(g, Err("down".to_string()));
    assert_eq!(session.selected, Some(1));
    assert_eq!(session.valid_selection(), None);
}

#[test]
fn detection_status_lines() {
    assert_eq!(detection_status(true), "Detected project directory via KiCad IPC.");
    assert_eq!(
        detection_status(false),
        "Could not auto-detect (KiCad IPC unavailable) -- enter the project directory manually."
    );
}
