use achievement_panel::achievements::{achievement_rows, AchievementRow, RawAchievement};
use achievement_panel::library::SteamGame;
use achievement_panel::panel::{format_duration, no_session_badge, session_badge_text, PanelState, ViewMode};

fn row(api: &str, display: &str, desc: &str, hidden: bool, unlocked: bool) -> AchievementRow {
    AchievementRow {
        api_name: api.to_string(),
        display_name: display.to_string(),
        description: desc.to_string(),
        hidden,
        unlocked,
        unlock_time: None,
    }
}

fn game(app_id: u32, name: &str) -> SteamGame {
    SteamGame { app_id, name: name.to_string(), install_dir: String::new(), library_path: String::new() }
}

fn loaded_state() -> PanelState {
    let mut st = PanelState::new();
    st.on_achievements_loaded(vec![
        row("ACH_WIN", "Winner", "Win a match", false, true),
        row("ACH_SECRET", "Secret", "Find it", true, false),
        row("ACH_LOSE", "", "Lose a match", false, false),
    ]);
    st
}

#[test]
fn initial_state() {
    let st = PanelState::new();
    assert_eq!(st.app_id_input, "480");
    assert_eq!(st.status, "Hazır. Önce Steam'i aç, sonra AppID bağlan veya kütüphaneyi tara.");
    assert!(st.show_hidden && !st.only_locked && !st.only_unlocked && !st.risk_accepted);
    assert_eq!(st.view_mode, ViewMode::Library);
    assert_eq!(ViewMode::default(), ViewMode::Library);
    assert!(st.games.is_empty() && st.achievements.is_empty() && st.selected_game.is_none());
}

#[test]
fn durations_are_written_as_hours_minutes_seconds() {
    assert_eq!(format_duration(0), "00:00:00");
    assert_eq!(format_duration(3661), "01:01:01");
    assert_eq!(format_duration(59), "00:00:59");
    assert_eq!(format_duration(360000), "100:00:00");
}

#[test]
fn session_badges() {
    assert_eq!(session_badge_text(480, 65, true), "App 480 • 00:01:05 • online");
    assert_eq!(session_badge_text(10, 0, false), "App 10 • 00:00:00 • offline");
    assert_eq!(no_session_badge(), "Oturum yok");
}

#[test]
fn write_actions_need_a_session_and_accepted_risk() {
    let mut st = PanelState::new();
    assert!(!st.can_write(true));
    st.risk_accepted = true;
    assert!(st.can_write(true));
    assert!(!st.can_write(false));
}

#[test]
fn scanned_games_and_scan_errors() {
    let mut st = PanelState::new();
    st.on_games_scanned(Ok(vec![game(1, "a"), game(2, "b")]));
    assert_eq!(st.games.len(), 2);
    assert_eq!(st.status, "2 kurulu Steam oyunu bulundu.");
    st.on_games_scanned(Err("Steam klasörü bulunamadı".to_string()));
    assert_eq!(st.games.len(), 2);
    assert_eq!(st.status, "Steam kütüphanesi okunamadı: Steam klasörü bulunamadı");
}

#[test]
fn selecting_games() {
    let mut st = PanelState::new();
    st.pick_game(570);
    assert_eq!(st.selected_game, Some(570));
    assert_eq!(st.app_id_input, "570");
    assert_eq!(st.view_mode, ViewMode::Achievements);
    st.select_game(730, "Counter-Strike 2");
    assert_eq!(st.app_id_input, "730");
    assert_eq!(st.status, "Counter-Strike 2 seçildi. Bağlan düğmesiyle Steam oturumu başlatabilirsin.");
}

#[test]
fn connecting_reads_the_appid_field() {
    let mut st = PanelState::new();
    st.app_id_input = "  730 ".to_string();
    let before = st.status.clone();
    assert_eq!(st.begin_connect(), Some(730));
    assert_eq!(st.status, before);
    st.app_id_input = "abc".to_string();
    assert_eq!(st.begin_connect(), None);
    assert_eq!(st.status, "AppID sayı olmalı.");
    st.on_connected(730);
    assert_eq!(st.status, "AppID 730 bağlandı. Idle oturumu başladı.");
    assert_eq!(st.view_mode, ViewMode::Achievements);
    st.on_connect_failed("Steam init failed: x");
    assert_eq!(st.status, "Bağlanamadı: Steam init failed: x");
}

#[test]
fn status_messages_of_achievement_actions() {
    let mut st = loaded_state();
    assert_eq!(st.status, "3 başarım yüklendi, 1 açık.");
    st.on_reload_without_session();
    assert_eq!(st.status, "Önce bir AppID ile bağlan.");
    st.on_change_without_session();
    assert_eq!(st.status, "Oturum yok.");
    st.on_achievements_failed("Could not load achievement names for this AppID.");
    assert_eq!(st.status, "Achievementler yüklenemedi: Could not load achievement names for this AppID.");
    st.on_achievement_set("ACH_WIN", true);
    assert_eq!(st.status, "ACH_WIN açıldı.");
    st.on_achievement_set("ACH_WIN", false);
    assert_eq!(st.status, "ACH_WIN kilitlendi.");
    st.on_achievement_set_failed("Steam StoreStats failed.");
    assert_eq!(st.status, "İşlem başarısız: Steam StoreStats failed.");
    st.on_bulk_set(2, true);
    assert_eq!(st.status, "2 görünür başarım açıldı.");
    st.on_bulk_set(0, false);
    assert_eq!(st.status, "0 görünür başarım kilitlendi.");
    st.on_bulk_set_failed("Could not update achievement: X");
    assert_eq!(st.status, "Toplu işlem başarısız: Could not update achievement: X");
    assert_eq!(st.achievement_counts(), (1, 2));
}

#[test]
fn unfiltered_list_shows_every_row() {
    let st = loaded_state();
    let names: Vec<String> = st.filtered_achievements().into_iter().map(|r| r.api_name).collect();
    assert_eq!(names, vec!["ACH_WIN", "ACH_SECRET", "ACH_LOSE"]);
}

#[test]
fn achievement_filters() {
    let mut st = loaded_state();
    st.show_hidden = false;
    let names: Vec<String> = st.visible_api_names();
    assert_eq!(names, vec!["ACH_WIN", "ACH_LOSE"]);
    st.only_locked = true;
    assert_eq!(st.visible_api_names(), vec!["ACH_LOSE"]);
    st.only_locked = false;
    st.only_unlocked = true;
    assert_eq!(st.visible_api_names(), vec!["ACH_WIN"]);
    st.only_unlocked = false;
    st.show_hidden = true;
    st.search = "  MATCH ".to_string();
    assert_eq!(st.visible_api_names(), vec!["ACH_WIN", "ACH_LOSE"]);
    st.search = "secret".to_string();
    assert_eq!(st.visible_api_names(), vec!["ACH_SECRET"]);
    st.search = "nothing".to_string();
    assert!(st.filtered_achievements().is_empty());
}

#[test]
fn locked_and_unlocked_filters_exclude_each_other() {
    let mut st = PanelState::new();
    st.only_locked = true;
    st.only_unlocked = true;
    st.normalize_filters();
    assert!(st.only_locked && !st.only_unlocked);
    st.only_locked = false;
    st.only_unlocked = true;
    st.normalize_filters();
    assert!(!st.only_locked && st.only_unlocked);
}

#[test]
fn lock_filters_split_the_unfiltered_list() {
    let mut st = loaded_state();
    st.search = "a".to_string();
    let all = st.visible_api_names();
    assert_eq!(all, vec!["ACH_WIN", "ACH_SECRET", "ACH_LOSE"]);
    st.only_locked = true;
    let locked = st.visible_api_names();
    assert_eq!(locked, vec!["ACH_SECRET", "ACH_LOSE"]);
    st.only_locked = false;
    st.only_unlocked = true;
    let unlocked = st.visible_api_names();
    assert_eq!(unlocked, vec!["ACH_WIN"]);
    assert_eq!(locked.len() + unlocked.len(), all.len());
    assert!(locked.iter().all(|name| !unlocked.contains(name)));
}

#[test]
fn game_search_by_name_or_appid() {
    let mut st = PanelState::new();
    st.on_games_scanned(Ok(vec![game(570, "Dota 2"), game(730, "Counter-Strike 2"), game(4570, "Other")]));
    assert_eq!(st.filtered_games().len(), 3);
    st.game_search = " dota ".to_string();
    let ids: Vec<u32> = st.filtered_games().iter().map(|g| g.app_id).collect();
    assert_eq!(ids, vec![570]);
    st.game_search = "57".to_string();
    let ids: Vec<u32> = st.filtered_games().iter().map(|g| g.app_id).collect();
    assert_eq!(ids, vec![570, 4570]);
    st.game_search = "STRIKE".to_string();
    let ids: Vec<u32> = st.filtered_games().iter().map(|g| g.app_id).collect();
    assert_eq!(ids, vec![730]);
}

#[test]
fn a_picked_game_is_what_connect_reads() {
    let mut st = PanelState::new();
    st.select_game(4000, "Garry's Mod");
    assert_eq!(st.begin_connect(), Some(4000));
    st.pick_game(0);
    assert_eq!(st.begin_connect(), Some(0));
    st.pick_game(u32::MAX);
    assert_eq!(st.begin_connect(), Some(u32::MAX));
}

#[test]
fn listed_rows_keep_the_loaded_order() {
    let raws: Vec<RawAchievement> = ["delta", "Alpha", "charlie", "Bravo"]
        .iter()
        .enumerate()
        .map(|(i, n)| RawAchievement {
            api_name: format!("A{i}"),
            state: Some((i % 2 == 0, 0)),
            display_name: Some(n.to_string()),
            description: None,
            hidden: None,
        })
        .collect();
    let mut st = PanelState::new();
    st.on_achievements_loaded(achievement_rows(raws));
    st.only_locked = true;
    let names: Vec<String> = st.filtered_achievements().iter().map(|r| r.display_name.clone()).collect();
    assert_eq!(names, vec!["Alpha", "Bravo"]);
    st.only_locked = false;
    let names: Vec<String> = st.filtered_achievements().iter().map(|r| r.display_name.clone()).collect();
    assert_eq!(names, vec!["Alpha", "Bravo", "charlie", "delta"]);
}

#[test]
fn card_button_asks_for_the_opposite_state() {
    use_card_button();
}

fn use_card_button() {
    let locked = row("A", "", "", false, false);
    let unlocked = row("B", "", "", false, true);
    assert_eq!(achievement_panel::panel::card_button(&locked, true), (true, true));
    assert_eq!(achievement_panel::panel::card_button(&unlocked, true), (false, true));
    assert_eq!(achievement_panel::panel::card_button(&unlocked, false), (false, false));
}

#[test]
fn duration_text_splits_into_three_fields() {
    for secs in [0u64, 59, 61, 3599, 3600, 86399, 360000, 4_000_000] {
        let text = format_duration(secs);
        let fields: Vec<&str> = text.split(':').collect();
        assert_eq!(fields.len(), 3);
        assert!(fields.iter().all(|f| f.len() >= 2 && f.chars().all(|c| c.is_ascii_digit())));
        let h: u64 = fields[0].parse().unwrap();
        let m: u64 = fields[1].parse().unwrap();
        let s: u64 = fields[2].parse().unwrap();
        assert!(m < 60 && s < 60);
        assert_eq!(h * 3600 + m * 60 + s, secs);
    }
}
