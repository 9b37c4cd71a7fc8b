use achievement_panel::library::{collect_games, game_from_manifest, is_app_manifest_name, SteamGame};

fn game(app_id: u32, name: &str) -> SteamGame {
    SteamGame {
        app_id,
        name: name.to_string(),
        install_dir: format!("dir{app_id}"),
        library_path: "/lib".to_string(),
    }
}

#[test]
fn capsule_url_of_spacewar() {
    let g = game(480, "Spacewar");
    assert_eq!(g.capsule_url(), "https://cdn.cloudflare.steamstatic.com/steam/apps/480/header.jpg");
}

#[test]
fn default_game_is_empty() {
    let g = SteamGame::default();
    assert_eq!(g.app_id, 0);
    assert!(g.name.is_empty() && g.install_dir.is_empty() && g.library_path.is_empty());
}

#[test]
fn manifest_file_names() {
    assert!(is_app_manifest_name("appmanifest_480.acf"));
    assert!(is_app_manifest_name("appmanifest_.acf"));
    assert!(!is_app_manifest_name("appmanifest_480.acf.tmp"));
    assert!(!is_app_manifest_name("libraryfolders.vdf"));
    assert!(!is_app_manifest_name("AppManifest_480.acf"));
}

#[test]
fn game_from_a_full_manifest() {
    let text = "\"AppState\"\n{\n\t\"appid\"\t\t\"570\"\n\t\"name\"\t\t\"Dota 2\"\n\t\"installdir\"\t\t\"dota 2 beta\"\n}\n";
    let g = game_from_manifest(text, "/steam").unwrap();
    assert_eq!(g.app_id, 570);
    assert_eq!(g.name, "Dota 2");
    assert_eq!(g.install_dir, "dota 2 beta");
    assert_eq!(g.library_path, "/steam");
}

#[test]
fn game_from_a_manifest_without_name_or_dir() {
    let g = game_from_manifest("\"AppID\" \"10\"", "/l").unwrap();
    assert_eq!(g.name, "App 10");
    assert_eq!(g.install_dir, "");
}

#[test]
fn manifests_without_a_numeric_appid_give_no_game() {
    assert!(game_from_manifest("\"name\" \"x\"", "/l").is_none());
    assert!(game_from_manifest("\"appid\" \"ten\"", "/l").is_none());
    assert!(game_from_manifest("\"appid\" \" 10\"", "/l").is_none());
    assert!(game_from_manifest("\"appid\" \"4294967296\"", "/l").is_none());
}

#[test]
fn games_are_deduplicated_and_sorted_by_lowercase_name() {
    let found = vec![
        game(30, "beta"),
        game(10, "Alpha"),
        game(30, "Zeta copy"),
        game(20, "alpha"),
        game(5, "Gamma"),
    ];
    let games = collect_games(found);
    let listed: Vec<(u32, &str)> = games.iter().map(|g| (g.app_id, g.name.as_str())).collect();
    assert_eq!(listed, vec![(10, "Alpha"), (20, "alpha"), (30, "beta"), (5, "Gamma")]);
}

#[test]
fn collected_games_name_each_appid_once() {
    let found = vec![game(1, "a"), game(1, "b"), game(2, "a"), game(2, "a"), game(1, "c")];
    let games = collect_games(found);
    assert_eq!(games.len(), 2);
    assert_eq!(games[0].app_id, 1);
    assert_eq!(games[0].name, "a");
    assert_eq!(games[1].app_id, 2);
    assert!(collect_games(Vec::new()).is_empty());
}
