use bangdream_optimize::sync_cli::{
    build_game_data_sync_command_args, parse_chart, parse_game_data_sync_cli_args, split_csv,
    GameDataSyncCliConfig, GameDataSyncConfigFile,
};
use bangdream_optimize::sync_config::{
    env_bool, env_u64, game_data_sync_config_from_args, game_data_sync_enabled,
    game_data_sync_repair_dir, non_empty, GameDataSyncEnv,
};

fn strings(items: &[&str]) -> Vec<String> {
    items.iter().map(|s| s.to_string()).collect()
}

fn empty_env() -> GameDataSyncEnv {
    GameDataSyncEnv {
        interval_seconds: None,
        enabled: None,
        out: None,
        cache_root: None,
        game_data_root: None,
        base_url: None,
        command: None,
        repair_dir: None,
    }
}

fn empty_file() -> GameDataSyncConfigFile {
    GameDataSyncConfigFile {
        enabled: None,
        interval_seconds: None,
        out: None,
        base_url: None,
        repair_dir: None,
        events: vec![],
        charts: vec![],
        player_files: vec![],
        all_event_details: None,
        all_charts: None,
        all_card_details: None,
        concurrency: None,
        retries: None,
        command: None,
        extra_args: vec![],
    }
}

#[test]
fn parses_game_data_chart_token() {
    assert_eq!(parse_chart("232:expert").expect("chart should parse"), (232, 3));
    assert_eq!(parse_chart("669:0").expect("chart should parse"), (669, 0));
    assert!(parse_chart("bad").is_err());
}

#[test]
fn builds_game_data_sync_command_args_for_scoped_sync() {
    let args = build_game_data_sync_command_args(
        "var/game-data",
        "https://bestdori.com",
        None,
        &[287],
        &[(232, 3), (86, 3)],
        &[],
        Some(true),
        Some(false),
        Some(false),
        None,
        Some(2),
        &["--foo".to_owned()],
    )
    .expect("should build command args");

    assert!(args.contains(&"--event".to_owned()));
    assert!(args.contains(&"287".to_owned()));
    assert!(args.contains(&"--chart".to_owned()));
    assert!(args.contains(&"232:3".to_owned()));
    assert!(args.contains(&"--all-event-details".to_owned()));
    assert!(args.contains(&"--retries".to_owned()));
    assert!(args.contains(&"2".to_owned()));
    assert_eq!(args.last(), Some(&"--foo".to_owned()));
}

#[test]
fn parses_game_data_sync_cli_scope_flags() {
    let cli = parse_game_data_sync_cli_args(strings(&[
        "--game-data-sync-event",
        "287",
        "--game-data-sync-chart",
        "232:expert",
        "--game-data-sync-retries",
        "3",
    ]))
    .expect("parse cli");

    assert_eq!(cli.events, vec![287]);
    assert_eq!(cli.charts, vec![(232, 3)]);
    assert_eq!(cli.retries, Some(3));
    assert!(cli.has_sync_scope());
}

#[test]
fn command_args_come_in_a_fixed_order_and_reject_blank_values() {
    let args = build_game_data_sync_command_args(
        "out",
        "https://example.test",
        Some("repair"),
        &[1, 2],
        &[(5, 0)],
        &["p.json".to_owned()],
        Some(true),
        Some(true),
        None,
        Some(4),
        None,
        &[],
    )
    .unwrap();
    assert_eq!(
        args,
        strings(&[
            "--out", "out", "--base-url", "https://example.test", "--repair-dir", "repair",
            "--event", "1", "--event", "2", "--chart", "5:0", "--player", "p.json",
            "--all-event-details", "--all-charts", "--concurrency", "4",
        ])
    );
    let blank = build_game_data_sync_command_args(
        "out", " ", None, &[], &[], &[], None, None, None, None, None, &[],
    );
    assert_eq!(blank, Err("game-data sync command arguments must not be empty".to_owned()));
}

#[test]
fn cli_parsing_reports_bad_and_missing_values() {
    assert_eq!(
        parse_game_data_sync_cli_args(strings(&["--game-data-sync-event"])),
        Err("missing value for --game-data-sync-event".to_owned())
    );
    assert!(parse_game_data_sync_cli_args(strings(&["--game-data-sync-event", "x"])).is_err());
    let cli = parse_game_data_sync_cli_args(strings(&[
        "--game-data-sync-events",
        "1, 2,,3",
        "--no-game-data-sync",
        "--game-data-sync-player",
        "a.json",
    ]))
    .unwrap();
    assert_eq!(cli.events, vec![1, 2, 3]);
    assert_eq!(cli.enabled, Some(false));
    assert_eq!(cli.player_files, strings(&["a.json"]));
    assert!(cli.has_sync_scope_values());
    assert_eq!(split_csv(" a , ,b,"), strings(&["a", "b"]));
}

#[test]
fn environment_values_read_as_booleans_and_numbers() {
    assert!(env_bool(&Some(" YES ".to_owned()), false));
    assert!(!env_bool(&Some("off".to_owned()), true));
    assert!(env_bool(&Some("maybe".to_owned()), true));
    assert!(!env_bool(&Some("   ".to_owned()), false));
    assert!(env_bool(&None, true));
    assert_eq!(env_u64(&Some("3600".to_owned())), Some(3600));
    assert_eq!(env_u64(&Some("+7".to_owned())), Some(7));
    assert_eq!(env_u64(&Some(" 7".to_owned())), None);
    assert_eq!(env_u64(&Some("-1".to_owned())), None);
    assert_eq!(non_empty(&Some("\t".to_owned())), None);
    assert_eq!(non_empty(&Some(" x ".to_owned())), Some(" x ".to_owned()));
}

#[test]
fn sync_is_off_unless_asked_for() {
    let cli = GameDataSyncCliConfig::default();
    assert_eq!(game_data_sync_config_from_args(&cli, &None, &empty_env(), false), Ok(None));
    let mut env = empty_env();
    env.enabled = Some("true".to_owned());
    assert!(game_data_sync_enabled(&cli, &None, &env));
    let mut file = empty_file();
    file.interval_seconds = Some(10);
    assert!(game_data_sync_enabled(&cli, &Some(file.clone()), &empty_env()));
    file.enabled = Some(false);
    assert!(!game_data_sync_enabled(&cli, &Some(file), &empty_env()));
}

#[test]
fn sync_merges_command_line_file_and_environment() {
    let mut cli = GameDataSyncCliConfig::default();
    cli.events = vec![30, 10];
    cli.charts = vec![(2, 1), (1, 3)];
    cli.player_files = strings(&["b.json", "a.json"]);
    cli.retries = Some(2);
    cli.extra_args = strings(&["--cli"]);
    let mut file = empty_file();
    file.events = vec![10, 20];
    file.charts = strings(&["1:expert", "2:1"]);
    file.player_files = strings(&["a.json"]);
    file.base_url = Some("https://mirror.test".to_owned());
    file.extra_args = strings(&["--file"]);
    let mut env = empty_env();
    env.cache_root = Some("cache".to_owned());
    env.command = Some("sync-bin".to_owned());
    env.repair_dir = Some("repair".to_owned());
    let config = game_data_sync_config_from_args(&cli, &Some(file.clone()), &env, false)
        .unwrap()
        .unwrap();
    assert_eq!(
        config.args,
        strings(&[
            "--out", "cache", "--base-url", "https://mirror.test",
            "--event", "10", "--event", "20", "--event", "30",
            "--chart", "1:3", "--chart", "2:1",
            "--player", "a.json", "--player", "b.json",
            "--retries", "2", "--file", "--cli",
        ])
    );
    assert_eq!(config.interval_secs, Some(3600));
    assert_eq!(config.command, Some("sync-bin".to_owned()));
    assert_eq!(game_data_sync_repair_dir(&cli, &Some(file.clone()), &env), Some("repair".to_owned()));
    let with_repair = game_data_sync_config_from_args(&cli, &Some(file), &env, true).unwrap().unwrap();
    assert!(with_repair.args.contains(&"--repair-dir".to_owned()));
}

#[test]
fn sync_defaults_detail_flags_without_scope_and_rejects_zero_limits() {
    let mut cli = GameDataSyncCliConfig::default();
    cli.enabled = Some(true);
    cli.interval = Some(0);
    let config = game_data_sync_config_from_args(&cli, &None, &empty_env(), false).unwrap().unwrap();
    assert_eq!(
        config.args,
        strings(&[
            "--out", "var/game-data", "--base-url", "https://bestdori.com",
            "--all-event-details", "--all-charts", "--all-card-details",
        ])
    );
    assert_eq!(config.interval_secs, None);
    cli.concurrency = Some(0);
    assert_eq!(
        game_data_sync_config_from_args(&cli, &None, &empty_env(), false),
        Err("BANGDREAM_OPTIMIZE_GAME_DATA_SYNC concurrency must be greater than 0".to_owned())
    );
    cli.concurrency = None;
    cli.retries = Some(0);
    assert_eq!(
        game_data_sync_config_from_args(&cli, &None, &empty_env(), false),
        Err("BANGDREAM_OPTIMIZE_GAME_DATA_SYNC retries must be greater than 0".to_owned())
    );
    let mut file = empty_file();
    file.charts = strings(&["9:nope"]);
    assert!(game_data_sync_config_from_args(&GameDataSyncCliConfig::default(), &Some(file), &empty_env(), false).is_err());
}

#[test]
fn equal_paths_are_kept_once() {
    let mut cli = GameDataSyncCliConfig::default();
    cli.player_files = strings(&["dir/a.json", "dir//a.json", "dir/./a.json", "b.json"]);
    let config = game_data_sync_config_from_args(&cli, &None, &empty_env(), false).unwrap().unwrap();
    let players: Vec<&String> = config
        .args
        .iter()
        .zip(config.args.iter().skip(1))
        .filter(|(flag, _)| flag.as_str() == "--player")
        .map(|(_, value)| value)
        .collect();
    assert_eq!(players.len(), 2);
    assert_eq!(players[0], "b.json");
    assert_eq!(players[1], "dir/a.json");
}
