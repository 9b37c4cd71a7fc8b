use achievement_panel::achievements::{achievement_rows, count_unlocked, row_from_raw, sort_rows, AchievementRow, RawAchievement};

fn row(api: &str, display: &str, unlocked: bool) -> AchievementRow {
    AchievementRow {
        api_name: api.to_string(),
        display_name: display.to_string(),
        description: String::new(),
        hidden: false,
        unlocked,
        unlock_time: None,
    }
}

fn raw(api: &str, state: Option<(bool, u32)>, name: Option<&str>, hidden: Option<&str>) -> RawAchievement {
    RawAchievement {
        api_name: api.to_string(),
        state,
        display_name: name.map(|s| s.to_string()),
        description: Some("desc".to_string()),
        hidden: hidden.map(|s| s.to_string()),
    }
}

#[test]
fn visible_name_falls_back_to_api_name() {
    assert_eq!(row("ACH_WIN", "Winner", false).visible_name(), "Winner");
    assert_eq!(row("ACH_WIN", "   ", false).visible_name(), "ACH_WIN");
    assert_eq!(row("ACH_WIN", "", false).visible_name(), "ACH_WIN");
}

#[test]
fn raw_achievements_become_rows() {
    let r = row_from_raw(raw("A", Some((true, 1700000000)), Some("First"), Some("1")));
    assert_eq!(r.api_name, "A");
    assert_eq!(r.display_name, "First");
    assert_eq!(r.description, "desc");
    assert!(r.hidden && r.unlocked);
    assert_eq!(r.unlock_time, Some(1700000000));

    let r = row_from_raw(raw("B", Some((true, 0)), None, Some("0")));
    assert_eq!(r.display_name, "");
    assert!(!r.hidden && r.unlocked);
    assert_eq!(r.unlock_time, None);

    let r = row_from_raw(raw("C", Some((false, 55)), None, Some("11")));
    assert!(!r.hidden && !r.unlocked);
    assert_eq!(r.unlock_time, None);

    let r = row_from_raw(raw("D", None, None, None));
    assert!(!r.unlocked && !r.hidden);
    assert_eq!(r.unlock_time, None);
}

#[test]
fn rows_sort_by_lowercase_visible_name_and_keep_ties_in_order() {
    let rows = vec![
        row("b1", "beta", false),
        row("a1", "", true),
        row("b2", "Beta", true),
        row("z", "Alpha", false),
        row("b3", "BETA", false),
    ];
    let sorted = sort_rows(rows);
    let names: Vec<&str> = sorted.iter().map(|r| r.api_name.as_str()).collect();
    assert_eq!(names, vec!["a1", "z", "b1", "b2", "b3"]);
}

#[test]
fn achievement_rows_build_and_sort() {
    let rows = achievement_rows(vec![
        raw("Z_API", Some((false, 0)), Some("zulu"), None),
        raw("M_API", Some((true, 9)), None, None),
        raw("A_API", None, Some("Alpha"), Some("1")),
    ]);
    let names: Vec<&str> = rows.iter().map(|r| r.visible_name()).collect();
    assert_eq!(names, vec!["Alpha", "M_API", "zulu"]);
    assert_eq!(rows[1].unlock_time, Some(9));
    assert_eq!(count_unlocked(&rows), 1);
}

#[test]
fn unlocked_rows_are_counted() {
    let rows = vec![row("a", "", true), row("b", "", false), row("c", "", true)];
    assert_eq!(count_unlocked(&rows), 2);
    assert_eq!(count_unlocked(&Vec::new()), 0);
}

#[test]
fn cloned_rows_are_equal_field_by_field() {
    let r = row("a", "b", true);
    let c = r.clone();
    assert_eq!(c.api_name, r.api_name);
    assert_eq!(c.display_name, r.display_name);
    assert_eq!(c.unlocked, r.unlocked);
}
