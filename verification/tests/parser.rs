use log_parser::clean_player_name;
use log_parser::GameStats;
use log_parser::LogParser;
use log_parser::Report;

#[test]
fn test_parse_log_single_game() {
    let log_data = "\
        0:00 ------------------------------------------------------------\n\
        0:00 InitGame: \n\
        20:34 ClientConnect: 2\n\
        20:34 ClientUserinfoChanged: 2 n\\Isgalamido\\t\\0\n\
        20:37 ClientBegin: 2\n\
        21:42 Kill: 1022 2 22: <world> killed Isgalamido by MOD_TRIGGER_HURT\n\
        20:37 ShutdownGame:\n\
        0:00 ------------------------------------------------------------";

    let report = LogParser::parse_log(log_data);

    let expected_games = vec![(
        "game_1".to_string(),
        GameStats {
            total_kills: 1,
            players: vec!["Isgalamido".to_string()],
            kills: vec![("Isgalamido".to_string(), -1)],
            kills_by_means: vec![("MOD_TRIGGER_HURT".to_string(), 1)],
        },
    )];

    let expected_report = Report {
        games: expected_games,
        player_rankings: vec![("Isgalamido".to_string(), -1)],
        total_deaths_by_means: vec![("MOD_TRIGGER_HURT".to_string(), 1)],
    };

    assert_eq!(report, expected_report);
}

#[test]
fn test_parse_log_multiple_games() {
    let log_data = "\
        0:00 ------------------------------------------------------------\n\
        0:00 InitGame: \n\
        20:34 ClientConnect: 2\n\
        20:34 ClientUserinfoChanged: 2 n\\Isgalamido\\t\\0\n\
        20:37 ClientBegin: 2\n\
        21:42 Kill: 1022 2 22: <world> killed Isgalamido by MOD_TRIGGER_HURT\n\
        20:37 ShutdownGame:\n\
        0:00 ------------------------------------------------------------\n\
        0:00 InitGame: \n\
        21:07 Kill: 1022 2 22: <world> killed Isgalamido by MOD_FALLING\n\
        20:37 ShutdownGame:\n\
        0:00 ------------------------------------------------------------";

    let report = LogParser::parse_log(log_data);

    let expected_games = vec![
        (
            "game_1".to_string(),
            GameStats {
                total_kills: 1,
                players: vec!["Isgalamido".to_string()],
                kills: vec![("Isgalamido".to_string(), -1)],
                kills_by_means: vec![("MOD_TRIGGER_HURT".to_string(), 1)],
            },
        ),
        (
            "game_2".to_string(),
            GameStats {
                total_kills: 1,
                players: vec!["Isgalamido".to_string()],
                kills: vec![("Isgalamido".to_string(), -1)],
                kills_by_means: vec![("MOD_FALLING".to_string(), 1)],
            },
        ),
    ];

    let expected_report = Report {
        games: expected_games,
        player_rankings: vec![("Isgalamido".to_string(), -2)],
        total_deaths_by_means: vec![
            ("MOD_TRIGGER_HURT".to_string(), 1),
            ("MOD_FALLING".to_string(), 1),
        ],
    };

    assert_eq!(report, expected_report);
}

#[test]
fn empty_input_yields_empty_report() {
    let report = LogParser::parse_log("");
    assert_eq!(report.games.len(), 0);
    assert_eq!(report.player_rankings.len(), 0);
    assert_eq!(report.total_deaths_by_means.len(), 0);
}

#[test]
fn input_without_recognizable_lines_yields_empty_report() {
    let report = LogParser::parse_log("hello\nworld\n\n12:00 ClientConnect: 3");
    assert_eq!(report.games.len(), 0);
    assert_eq!(report.player_rankings.len(), 0);
    assert_eq!(report.total_deaths_by_means.len(), 0);
}

#[test]
fn malformed_kill_lines_mutate_nothing() {
    // One kill line with fewer than six whitespace fields, one without
    // " killed ", one without " by ": none may touch any counter.
    let log_data = "\
        0:00 InitGame: \n\
        21:42 Kill: 1022 2\n\
        21:43 Kill: 1022 2 22: somebody slew Isgalamido by MOD_ROCKET\n\
        21:44 Kill: 1022 2 22: somebody killed Isgalamido with MOD_ROCKET\n\
        20:37 ShutdownGame:";

    let report = LogParser::parse_log(log_data);

    let expected_games = vec![(
        "game_1".to_string(),
        GameStats {
            total_kills: 0,
            players: vec![],
            kills: vec![],
            kills_by_means: vec![],
        },
    )];
    assert_eq!(report.games, expected_games);
    assert_eq!(report.player_rankings, vec![]);
    assert_eq!(report.total_deaths_by_means, vec![]);
}

#[test]
fn player_kill_credits_the_killer() {
    let log_data = "\
        0:00 InitGame: \n\
        21:42 Kill: 2 3 7: Dono killed Isgalamido by MOD_ROCKET_SPLASH\n\
        20:37 ShutdownGame:";

    let report = LogParser::parse_log(log_data);

    assert_eq!(report.games.len(), 1);
    let game = &report.games[0].1;
    assert_eq!(game.total_kills, 1);
    assert_eq!(
        game.players,
        vec!["Dono".to_string(), "Isgalamido".to_string()]
    );
    assert_eq!(game.kills, vec![("Dono".to_string(), 1)]);
    assert_eq!(
        game.kills_by_means,
        vec![("MOD_ROCKET_SPLASH".to_string(), 1)]
    );
    assert_eq!(report.player_rankings, vec![("Dono".to_string(), 1)]);
}

#[test]
fn kills_in_a_match_count_only_well_formed_kill_lines() {
    let log_data = "\
        0:00 InitGame: \n\
        21:42 Kill: 2 3 7: Dono killed Isgalamido by MOD_ROCKET\n\
        21:43 Kill: 1022 2\n\
        21:44 Kill: 2 3 7: Dono killed Isgalamido by MOD_ROCKET\n\
        20:37 ShutdownGame:";

    let report = LogParser::parse_log(log_data);
    assert_eq!(report.games[0].1.total_kills, 2);
    assert_eq!(report.games[0].1.kills, vec![("Dono".to_string(), 2)]);
}

#[test]
fn match_start_seals_the_open_match() {
    // A second match start arrives while the first match is open, and
    // the input ends while the third match is open: all three survive.
    let log_data = "\
        0:00 InitGame: \n\
        21:42 Kill: 2 3 7: Dono killed Isgalamido by MOD_ROCKET\n\
        0:00 InitGame: \n\
        0:00 InitGame: \n\
        21:42 Kill: 1022 2 22: <world> killed Dono by MOD_FALLING";

    let report = LogParser::parse_log(log_data);

    assert_eq!(report.games.len(), 3);
    assert_eq!(report.games[0].0, "game_1");
    assert_eq!(report.games[1].0, "game_2");
    assert_eq!(report.games[2].0, "game_3");
    assert_eq!(report.games[0].1.total_kills, 1);
    assert_eq!(report.games[1].1.total_kills, 0);
    assert_eq!(report.games[2].1.total_kills, 1);
    assert_eq!(
        report.player_rankings,
        vec![("Dono".to_string(), 0)]
    );
}

#[test]
fn events_outside_a_match_are_ignored() {
    let log_data = "\
        21:42 Kill: 2 3 7: Dono killed Isgalamido by MOD_ROCKET\n\
        20:37 ShutdownGame:\n\
        0:00 InitGame: \n\
        20:37 ShutdownGame:";

    let report = LogParser::parse_log(log_data);
    assert_eq!(report.games.len(), 1);
    assert_eq!(report.games[0].1.total_kills, 0);
    assert_eq!(report.total_deaths_by_means, vec![]);
}

#[test]
fn identity_update_registers_the_player() {
    // The identity payload begins at the sixth space-separated field.
    let log_data = "\
        0:00 InitGame: \n\
        20:34 ClientUserinfoChanged: 2 x y n\\Oootsimo\\t\\0\n\
        20:37 ShutdownGame:";

    let report = LogParser::parse_log(log_data);
    assert_eq!(report.games[0].1.players, vec!["Oootsimo".to_string()]);
    assert_eq!(report.games[0].1.total_kills, 0);
    assert_eq!(report.games[0].1.kills, vec![]);
}

#[test]
fn sentinel_names_are_cleaned_from_sealed_matches() {
    // A kill credited to the invalid sentinel name "t" counts toward
    // the totals, but the name is removed from players and kills.
    let log_data = "\
        0:00 InitGame: \n\
        21:42 Kill: 2 3 7: t killed t by MOD_ROCKET\n\
        20:37 ShutdownGame:";

    let report = LogParser::parse_log(log_data);
    let game = &report.games[0].1;
    assert_eq!(game.total_kills, 1);
    assert_eq!(game.players, Vec::<String>::new());
    assert_eq!(game.kills, vec![]);
    assert_eq!(game.kills_by_means, vec![("MOD_ROCKET".to_string(), 1)]);
    assert_eq!(report.player_rankings, vec![]);
    assert_eq!(
        report.total_deaths_by_means,
        vec![("MOD_ROCKET".to_string(), 1)]
    );
}

#[test]
fn world_never_appears_in_players_or_kills() {
    let log_data = "\
        0:00 InitGame: \n\
        21:42 Kill: 1022 2 22: <world> killed <world> by MOD_LAVA\n\
        20:37 ShutdownGame:";

    let report = LogParser::parse_log(log_data);
    let game = &report.games[0].1;
    assert_eq!(game.total_kills, 1);
    assert_eq!(game.players, Vec::<String>::new());
    assert_eq!(game.kills, vec![]);
    assert_eq!(game.kills_by_means, vec![("MOD_LAVA".to_string(), 1)]);
}

#[test]
fn rankings_sum_across_matches_and_sort_descending() {
    let log_data = "\
        0:00 InitGame: \n\
        21:42 Kill: 2 3 7: Dono killed Zeh by MOD_ROCKET\n\
        21:43 Kill: 2 3 7: Dono killed Zeh by MOD_ROCKET\n\
        21:44 Kill: 1022 2 22: <world> killed Zeh by MOD_FALLING\n\
        20:37 ShutdownGame:\n\
        0:00 InitGame: \n\
        21:45 Kill: 2 3 7: Zeh killed Dono by MOD_SHOTGUN\n\
        21:46 Kill: 2 3 7: Zeh killed Dono by MOD_SHOTGUN\n\
        20:37 ShutdownGame:";

    let report = LogParser::parse_log(log_data);

    assert_eq!(
        report.player_rankings,
        vec![("Dono".to_string(), 2), ("Zeh".to_string(), 1)]
    );
    assert_eq!(
        report.total_deaths_by_means,
        vec![
            ("MOD_ROCKET".to_string(), 2),
            ("MOD_FALLING".to_string(), 1),
            ("MOD_SHOTGUN".to_string(), 2),
        ]
    );
}

#[test]
fn generate_rankings_sorts_summed_deltas() {
    let games = vec![
        (
            "game_1".to_string(),
            GameStats {
                total_kills: 3,
                players: vec!["A".to_string(), "B".to_string()],
                kills: vec![("A".to_string(), 1), ("B".to_string(), 2)],
                kills_by_means: vec![("MOD_ROCKET".to_string(), 3)],
            },
        ),
        (
            "game_2".to_string(),
            GameStats {
                total_kills: 2,
                players: vec!["A".to_string()],
                kills: vec![("A".to_string(), 2)],
                kills_by_means: vec![("MOD_ROCKET".to_string(), 2)],
            },
        ),
    ];

    let rankings = LogParser::generate_rankings(&games);
    assert_eq!(
        rankings,
        vec![("A".to_string(), 3), ("B".to_string(), 2)]
    );
}

#[test]
fn generate_rankings_accepts_hand_built_stats() {
    // Match records built by hand, with defaulted kill counts, are
    // still ranked: the only demand is that the summed magnitudes fit.
    let games = vec![
        (
            "game_1".to_string(),
            GameStats {
                kills: vec![("Isgalamido".to_string(), -1)],
                ..Default::default()
            },
        ),
        (
            "game_2".to_string(),
            GameStats {
                kills: vec![("Isgalamido".to_string(), -1)],
                ..Default::default()
            },
        ),
    ];

    let rankings = LogParser::generate_rankings(&games);
    assert_eq!(rankings, vec![("Isgalamido".to_string(), -2)]);
}

#[test]
fn rerunning_the_parser_reproduces_the_report() {
    let log_data = "\
        0:00 InitGame: \n\
        21:42 Kill: 2 3 7: Dono killed Zeh by MOD_ROCKET\n\
        21:44 Kill: 1022 2 22: <world> killed Zeh by MOD_FALLING";

    let first = LogParser::parse_log(log_data);
    let second = LogParser::parse_log(log_data);
    assert_eq!(first, second);
}

#[test]
fn match_identifiers_grow_past_single_digits() {
    let mut log_data = String::new();
    for _ in 0..11 {
        log_data.push_str("0:00 InitGame: \n");
    }
    let report = LogParser::parse_log(&log_data);
    assert_eq!(report.games.len(), 11);
    assert_eq!(report.games[9].0, "game_10");
    assert_eq!(report.games[10].0, "game_11");
}

#[test]
fn clean_player_name_strips_prefix_and_whitespace() {
    assert_eq!(clean_player_name("  Isgalamido  "), "Isgalamido");
    assert_eq!(clean_player_name("3:Isgalamido"), "Isgalamido");
    assert_eq!(clean_player_name(" 3: Isgalamido "), "Isgalamido");
    assert_eq!(clean_player_name("a:b:c"), "b:c");
    assert_eq!(clean_player_name("\u{A0}Zeh\u{2003}"), "Zeh");
    assert_eq!(clean_player_name("<world>"), "<world>");
    assert_eq!(clean_player_name(""), "");
}
