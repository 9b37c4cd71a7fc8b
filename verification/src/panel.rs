use vstd::prelude::*;

use crate::achievements::{count_unlocked, lex_le, row_key, unlocked_count, AchievementRow};
use crate::library::SteamGame;
use crate::number::{
    all_digits, digits_value, lemma_two_digits, decimal, decimal_parse_roundtrip, decimal_string, is_digit, lemma_decimal_digits, parse_u32,
    parse_u32_spec, two_digit_chars, two_digits,
};
use crate::text::{
    chars_of, concat, concat3, contains, has_substring, is_ws, lowercase, string_of, to_lowercase,
    trim, trim_end, trim_start, trim_str, lemma_split_on, split_on,
};
use crate::vdf::views;

verus! {

/// Which page the central panel shows.
#[derive(Clone, Copy, Debug, PartialEq, Eq, Structural)]
pub enum ViewMode {
    /// The library home page.
    Library,
    /// The achievement page of the selected app.
    Achievements,
}

impl Default for ViewMode {
    fn default() -> (r: Self)
        ensures
            r == ViewMode::Library,
    {
        ViewMode::Library
    }
}

/// The panel's state, apart from the Steam session itself.
#[derive(Debug)]
pub struct PanelState {
    /// The AppID text field.
    pub app_id_input: String,
    /// The achievement search field.
    pub search: String,
    /// The game search field.
    pub game_search: String,
    /// The status line.
    pub status: String,
    /// The achievements last loaded.
    pub achievements: Vec<AchievementRow>,
    /// The installed games last scanned.
    pub games: Vec<SteamGame>,
    /// The AppID of the game picked in the library.
    pub selected_game: Option<u32>,
    /// Whether the user accepted the risks of write actions.
    pub risk_accepted: bool,
    /// Whether hidden achievements are listed.
    pub show_hidden: bool,
    /// Whether only locked achievements are listed.
    pub only_locked: bool,
    /// Whether only unlocked achievements are listed.
    pub only_unlocked: bool,
    /// The page shown.
    pub view_mode: ViewMode,
}

/// `b` equals `a` in every field but the status line.
pub open spec fn same_but_status(a: PanelState, b: PanelState) -> bool {
    &&& b.app_id_input == a.app_id_input
    &&& b.search == a.search
    &&& b.game_search == a.game_search
    &&& b.achievements == a.achievements
    &&& b.games == a.games
    &&& b.selected_game == a.selected_game
    &&& b.risk_accepted == a.risk_accepted
    &&& b.show_hidden == a.show_hidden
    &&& b.only_locked == a.only_locked
    &&& b.only_unlocked == a.only_unlocked
    &&& b.view_mode == a.view_mode
}

/// The status line before anything happened.
pub open spec fn ready_status() -> Seq<char> {
    "Hazır. Önce Steam'i aç, sonra AppID bağlan veya kütüphaneyi tara."@
}

/// The search text as the filters use it: trimmed and in lower case.
pub open spec fn needle_of(search: Seq<char>) -> Seq<char> {
    lowercase(trim(search))
}

/// Whether a game is listed for the search text `needle`: an empty needle
/// lists every game; otherwise the lower-case name or the AppID must hold it.
pub open spec fn game_matches(needle: Seq<char>, g: SteamGame) -> bool {
    ||| needle.len() == 0
    ||| has_substring(lowercase(g.name@), needle)
    ||| has_substring(decimal(g.app_id as nat), needle)
}

/// Whether a row is listed: hidden rows only when they are shown, the
/// locked/unlocked choices, then the search text in the lower-case API name,
/// display name or description.
pub open spec fn row_shown(
    show_hidden: bool,
    only_locked: bool,
    only_unlocked: bool,
    needle: Seq<char>,
    row: AchievementRow,
) -> bool {
    &&& show_hidden || !row.hidden
    &&& !only_locked || !row.unlocked
    &&& !only_unlocked || row.unlocked
    &&& needle.len() == 0 || has_substring(lowercase(row.api_name@), needle) || has_substring(
        lowercase(row.display_name@),
        needle,
    ) || has_substring(lowercase(row.description@), needle)
}

/// The games listed for a state.
pub open spec fn listed_games(st: PanelState) -> Seq<SteamGame> {
    st.games@.filter(|g: SteamGame| game_matches(needle_of(st.game_search@), g))
}

/// The achievements listed for a state.
pub open spec fn listed_rows(st: PanelState) -> Seq<AchievementRow> {
    st.achievements@.filter(
        |row: AchievementRow|
            row_shown(
                st.show_hidden,
                st.only_locked,
                st.only_unlocked,
                needle_of(st.search@),
                row,
            ),
    )
}

/// The text of a duration of `secs` seconds as `HH:MM:SS`, with at least two
/// digits of hours.
pub open spec fn duration_text(secs: nat) -> Seq<char> {
    two_digits(secs / 3600) + ":"@ + two_digits((secs % 3600) / 60) + ":"@ + two_digits(secs % 60)
}

/// Writes a duration of `secs` seconds as `HH:MM:SS`.
pub fn format_duration(secs: u64) -> (r: String)
    ensures
        r@ == duration_text(secs as nat),
{
    let h = secs / 3600;
    let m = (secs % 3600) / 60;
    let s = secs % 60;
    let hv = two_digit_chars(h);
    let mv = two_digit_chars(m);
    let sv = two_digit_chars(s);
    let hs = string_of(&hv);
    let ms = string_of(&mv);
    let ss = string_of(&sv);
    let a = concat3(hs.as_str(), ":", ms.as_str());
    concat3(a.as_str(), ":", ss.as_str())
}

/// The hours, minutes and seconds that `duration_text` shows make up the
/// duration again, minutes and seconds each below sixty.
pub proof fn duration_fields_recombine(secs: nat)
    ensures
        (secs / 3600) * 3600 + ((secs % 3600) / 60) * 60 + secs % 60 == secs,
        (secs % 3600) / 60 < 60,
        secs % 60 < 60,
{
    assert((secs % 3600) % 60 == secs % 60) by (nonlinear_arith);
}

/// The session badge of a connected session: `App <id> • <elapsed> • online`
/// or `offline`.
pub open spec fn badge_text(app_id: u32, elapsed: nat, logged_on: bool) -> Seq<char> {
    "App "@ + decimal(app_id as nat) + " • "@ + duration_text(elapsed) + " • "@ + if logged_on {
        "online"@
    } else {
        "offline"@
    }
}

/// The session badge of a connected session.
pub fn session_badge_text(app_id: u32, elapsed_secs: u64, logged_on: bool) -> (r: String)
    ensures
        r@ == badge_text(app_id, elapsed_secs as nat, logged_on),
{
    let id = decimal_string(app_id as u64);
    let elapsed = format_duration(elapsed_secs);
    let a = concat3("App ", id.as_str(), " • ");
    let b = concat3(a.as_str(), elapsed.as_str(), " • ");
    let logged = if logged_on {
        "online"
    } else {
        "offline"
    };
    concat(b.as_str(), logged)
}

/// The session badge shown without a session.
pub fn no_session_badge() -> (r: String)
    ensures
        r@ == "Oturum yok"@,
{
    "Oturum yok".to_owned()
}

/// What the button of an achievement's card does: it asks for the opposite
/// of the row's state (unlock a locked row, lock an unlocked one), and it is
/// enabled only where writing is allowed. The result is the state asked for
/// and whether the button is enabled.
pub fn card_button(row: &AchievementRow, can_write: bool) -> (r: (bool, bool))
    ensures
        r.0 == !row.unlocked,
        r.1 == can_write,
{
    (!row.unlocked, can_write)
}

/// The lower-case, trimmed form of a search text, as characters.
fn needle_chars(search: &String) -> (r: Vec<char>)
    ensures
        r@ == needle_of(search@),
{
    let t = trim_str(search.as_str());
    let ts = string_of(&t);
    let lower = to_lowercase(ts.as_str());
    chars_of(lower.as_str())
}

/// Whether `needle` occurs in the lower-case form of `s`.
fn lower_contains(s: &String, needle: &Vec<char>) -> (b: bool)
    ensures
        b == has_substring(lowercase(s@), needle@),
{
    let lower = to_lowercase(s.as_str());
    let chars = chars_of(lower.as_str());
    contains(&chars, needle)
}

impl PanelState {
    /// The state at start: AppID field `480`, no games or achievements yet,
    /// hidden achievements shown, no locked/unlocked filter, the library page.
    pub fn new() -> (r: PanelState)
        ensures
            r.app_id_input@ == "480"@,
            r.search@ == Seq::<char>::empty(),
            r.game_search@ == Seq::<char>::empty(),
            r.status@ == ready_status(),
            r.achievements@.len() == 0,
            r.games@.len() == 0,
            r.selected_game is None,
            !r.risk_accepted,
            r.show_hidden,
            !r.only_locked,
            !r.only_unlocked,
            r.view_mode == ViewMode::Library,
    {
        PanelState {
            app_id_input: "480".to_owned(),
            search: String::new(),
            game_search: String::new(),
            status: "Hazır. Önce Steam'i aç, sonra AppID bağlan veya kütüphaneyi tara.".to_owned(),
            achievements: Vec::new(),
            games: Vec::new(),
            selected_game: None,
            risk_accepted: false,
            show_hidden: true,
            only_locked: false,
            only_unlocked: false,
            view_mode: ViewMode::Library,
        }
    }

    /// Whether write actions are enabled: only with a session and after the
    /// user accepted the risks.
    pub fn can_write(&self, has_session: bool) -> (b: bool)
        ensures
            b == (has_session && self.risk_accepted),
    {
        has_session && self.risk_accepted
    }

    /// Takes the result of a library scan: the games and a count on success,
    /// the error's text on failure (the games then stay as they were).
    pub fn on_games_scanned(&mut self, result: Result<Vec<SteamGame>, String>)
        ensures
            match result {
                Ok(games) => {
                    &&& final(self).games == games
                    &&& final(self).status@ == decimal(games@.len()) + " kurulu Steam oyunu bulundu."@
                },
                Err(e) => {
                    &&& final(self).games == old(self).games
                    &&& final(self).status@ == "Steam kütüphanesi okunamadı: "@ + e@
                },
            },
            final(self).app_id_input == old(self).app_id_input,
            final(self).search == old(self).search,
            final(self).game_search == old(self).game_search,
            final(self).achievements == old(self).achievements,
            final(self).selected_game == old(self).selected_game,
            final(self).risk_accepted == old(self).risk_accepted,
            final(self).show_hidden == old(self).show_hidden,
            final(self).only_locked == old(self).only_locked,
            final(self).only_unlocked == old(self).only_unlocked,
            final(self).view_mode == old(self).view_mode,
    {
        match result {
            Ok(games) => {
                let n = decimal_string(games.len() as u64);
                self.status = concat(n.as_str(), " kurulu Steam oyunu bulundu.");
                self.games = games;
            },
            Err(e) => {
                self.status = concat("Steam kütüphanesi okunamadı: ", e.as_str());
            },
        }
    }

    /// Picks a game on the library home page: its AppID goes into the AppID
    /// field and the achievement page opens.
    pub fn pick_game(&mut self, app_id: u32)
        ensures
            final(self).selected_game == Some(app_id),
            final(self).app_id_input@ == decimal(app_id as nat),
            final(self).view_mode == ViewMode::Achievements,
            final(self).status == old(self).status,
            final(self).search == old(self).search,
            final(self).game_search == old(self).game_search,
            final(self).achievements == old(self).achievements,
            final(self).games == old(self).games,
            final(self).risk_accepted == old(self).risk_accepted,
            final(self).show_hidden == old(self).show_hidden,
            final(self).only_locked == old(self).only_locked,
            final(self).only_unlocked == old(self).only_unlocked,
    {
        self.selected_game = Some(app_id);
        self.app_id_input = decimal_string(app_id as u64);
        self.view_mode = ViewMode::Achievements;
    }

    /// Selects a game in the library list: as `pick_game`, and the status
    /// line names the game.
    pub fn select_game(&mut self, app_id: u32, name: &str)
        ensures
            final(self).selected_game == Some(app_id),
            final(self).app_id_input@ == decimal(app_id as nat),
            final(self).view_mode == ViewMode::Achievements,
            final(self).status@ == name@
                + " seçildi. Bağlan düğmesiyle Steam oturumu başlatabilirsin."@,
            final(self).search == old(self).search,
            final(self).game_search == old(self).game_search,
            final(self).achievements == old(self).achievements,
            final(self).games == old(self).games,
            final(self).risk_accepted == old(self).risk_accepted,
            final(self).show_hidden == old(self).show_hidden,
            final(self).only_locked == old(self).only_locked,
            final(self).only_unlocked == old(self).only_unlocked,
    {
        self.pick_game(app_id);
        self.status = concat(name, " seçildi. Bağlan düğmesiyle Steam oturumu başlatabilirsin.");
    }

    /// Reads the AppID field for a connection: the trimmed text as a `u32`.
    /// Where it does not read as one, the status line says so.
    pub fn begin_connect(&mut self) -> (r: Option<u32>)
        ensures
            r == parse_u32_spec(trim(old(self).app_id_input@)),
            r is None ==> final(self).status@ == "AppID sayı olmalı."@,
            r is Some ==> final(self).status == old(self).status,
            same_but_status(*old(self), *final(self)),
    {
        let t = trim_str(self.app_id_input.as_str());
        let r = parse_u32(&t);
        if r.is_none() {
            self.status = "AppID sayı olmalı.".to_owned();
        }
        r
    }

    /// Takes a successful connection: the status line names the AppID and the
    /// achievement page opens.
    pub fn on_connected(&mut self, app_id: u32)
        ensures
            final(self).status@ == "AppID "@ + decimal(app_id as nat)
                + " bağlandı. Idle oturumu başladı."@,
            final(self).view_mode == ViewMode::Achievements,
            final(self).app_id_input == old(self).app_id_input,
            final(self).search == old(self).search,
            final(self).game_search == old(self).game_search,
            final(self).achievements == old(self).achievements,
            final(self).games == old(self).games,
            final(self).selected_game == old(self).selected_game,
            final(self).risk_accepted == old(self).risk_accepted,
            final(self).show_hidden == old(self).show_hidden,
            final(self).only_locked == old(self).only_locked,
            final(self).only_unlocked == old(self).only_unlocked,
    {
        let id = decimal_string(app_id as u64);
        self.status = concat3("AppID ", id.as_str(), " bağlandı. Idle oturumu başladı.");
        self.view_mode = ViewMode::Achievements;
    }

    /// Takes a failed connection, given the error's text.
    pub fn on_connect_failed(&mut self, error: &str)
        ensures
            final(self).status@ == "Bağlanamadı: "@ + error@,
            same_but_status(*old(self), *final(self)),
    {
        self.status = concat("Bağlanamadı: ", error);
    }

    /// Takes a reload asked for without a session.
    pub fn on_reload_without_session(&mut self)
        ensures
            final(self).status@ == "Önce bir AppID ile bağlan."@,
            same_but_status(*old(self), *final(self)),
    {
        self.status = "Önce bir AppID ile bağlan.".to_owned();
    }

    /// Takes a change asked for without a session.
    pub fn on_change_without_session(&mut self)
        ensures
            final(self).status@ == "Oturum yok."@,
            same_but_status(*old(self), *final(self)),
    {
        self.status = "Oturum yok.".to_owned();
    }

    /// Takes freshly loaded achievements: they replace the list, and the status
    /// line gives their number and how many are unlocked.
    pub fn on_achievements_loaded(&mut self, rows: Vec<AchievementRow>)
        ensures
            final(self).achievements == rows,
            final(self).status@ == decimal(rows@.len()) + " başarım yüklendi, "@ + decimal(
                unlocked_count(rows@),
            ) + " açık."@,
            final(self).app_id_input == old(self).app_id_input,
            final(self).search == old(self).search,
            final(self).game_search == old(self).game_search,
            final(self).games == old(self).games,
            final(self).selected_game == old(self).selected_game,
            final(self).risk_accepted == old(self).risk_accepted,
            final(self).show_hidden == old(self).show_hidden,
            final(self).only_locked == old(self).only_locked,
            final(self).only_unlocked == old(self).only_unlocked,
            final(self).view_mode == old(self).view_mode,
    {
        let total = decimal_string(rows.len() as u64);
        let unlocked = decimal_string(count_unlocked(&rows) as u64);
        let a = concat3(total.as_str(), " başarım yüklendi, ", unlocked.as_str());
        self.status = concat(a.as_str(), " açık.");
        self.achievements = rows;
    }

    /// Takes a failed load of achievements, given the error's text.
    pub fn on_achievements_failed(&mut self, error: &str)
        ensures
            final(self).status@ == "Achievementler yüklenemedi: "@ + error@,
            same_but_status(*old(self), *final(self)),
    {
        self.status = concat("Achievementler yüklenemedi: ", error);
    }

    /// Takes a successful change of one achievement.
    pub fn on_achievement_set(&mut self, api_name: &str, unlocked: bool)
        ensures
            final(self).status@ == api_name@ + if unlocked {
                " açıldı."@
            } else {
                " kilitlendi."@
            },
            same_but_status(*old(self), *final(self)),
    {
        self.status = if unlocked {
            concat(api_name, " açıldı.")
        } else {
            concat(api_name, " kilitlendi.")
        };
    }

    /// Takes a failed change of one achievement, given the error's text.
    pub fn on_achievement_set_failed(&mut self, error: &str)
        ensures
            final(self).status@ == "İşlem başarısız: "@ + error@,
            same_but_status(*old(self), *final(self)),
    {
        self.status = concat("İşlem başarısız: ", error);
    }

    /// Takes a successful change of the listed achievements.
    pub fn on_bulk_set(&mut self, count: usize, unlocked: bool)
        ensures
            final(self).status@ == decimal(count as nat) + if unlocked {
                " görünür başarım açıldı."@
            } else {
                " görünür başarım kilitlendi."@
            },
            same_but_status(*old(self), *final(self)),
    {
        let n = decimal_string(count as u64);
        self.status = if unlocked {
            concat(n.as_str(), " görünür başarım açıldı.")
        } else {
            concat(n.as_str(), " görünür başarım kilitlendi.")
        };
    }

    /// Takes a failed change of the listed achievements, given the error's
    /// text.
    pub fn on_bulk_set_failed(&mut self, error: &str)
        ensures
            final(self).status@ == "Toplu işlem başarısız: "@ + error@,
            same_but_status(*old(self), *final(self)),
    {
        self.status = concat("Toplu işlem başarısız: ", error);
    }

    /// Keeps the locked and unlocked filters from both being on: ticking both
    /// leaves only the locked filter.
    pub fn normalize_filters(&mut self)
        ensures
            !(final(self).only_locked && final(self).only_unlocked),
            final(self).only_locked == old(self).only_locked,
            final(self).only_unlocked == (old(self).only_unlocked && !old(self).only_locked),
            final(self).status == old(self).status,
            final(self).app_id_input == old(self).app_id_input,
            final(self).search == old(self).search,
            final(self).game_search == old(self).game_search,
            final(self).achievements == old(self).achievements,
            final(self).games == old(self).games,
            final(self).selected_game == old(self).selected_game,
            final(self).risk_accepted == old(self).risk_accepted,
            final(self).show_hidden == old(self).show_hidden,
            final(self).view_mode == old(self).view_mode,
    {
        if self.only_locked && self.only_unlocked {
            self.only_unlocked = false;
        }
    }

    /// The games listed for the game search text, in library order.
    pub fn filtered_games(&self) -> (r: Vec<SteamGame>)
        ensures
            r@ == listed_games(*self),
    {
        broadcast use Seq::lemma_filter_push;

        let needle = needle_chars(&self.game_search);
        let ghost pred = |g: SteamGame| game_matches(needle_of(self.game_search@), g);
        let mut r: Vec<SteamGame> = Vec::new();
        let mut i: usize = 0;
        assert(self.games@.take(0) =~= Seq::<SteamGame>::empty());
        proof {
            reveal(Seq::filter);
        }
        while i < self.games.len()
            invariant
                0 <= i <= self.games@.len(),
                needle@ == needle_of(self.game_search@),
                pred == (|g: SteamGame| game_matches(needle_of(self.game_search@), g)),
                r@ == self.games@.take(i as int).filter(pred),
            decreases self.games@.len() - i,
        {
            let g = &self.games[i];
            let matched = if needle.len() == 0 {
                true
            } else if lower_contains(&g.name, &needle) {
                true
            } else {
                let id = decimal_chars_of(g.app_id);
                contains(&id, &needle)
            };
            assert(matched == pred(*g));
            if matched {
                r.push(g.clone());
            }
            assert(self.games@.take(i + 1) =~= self.games@.take(i as int).push(*g));
            proof {
                self.games@.take(i as int).lemma_filter_push(*g, pred);
            }
            i = i + 1;
        }
        assert(self.games@.take(i as int) =~= self.games@);
        r
    }

    /// The achievements listed for the current filters and search text, in
    /// list order.
    pub fn filtered_achievements(&self) -> (r: Vec<AchievementRow>)
        ensures
            r@ == listed_rows(*self),
    {
        broadcast use Seq::lemma_filter_push;

        let needle = needle_chars(&self.search);
        let ghost pred = |row: AchievementRow|
            row_shown(
                self.show_hidden,
                self.only_locked,
                self.only_unlocked,
                needle_of(self.search@),
                row,
            );
        let mut r: Vec<AchievementRow> = Vec::new();
        let mut i: usize = 0;
        assert(self.achievements@.take(0) =~= Seq::<AchievementRow>::empty());
        proof {
            reveal(Seq::filter);
        }
        while i < self.achievements.len()
            invariant
                0 <= i <= self.achievements@.len(),
                needle@ == needle_of(self.search@),
                pred == (|row: AchievementRow|
                    row_shown(
                        self.show_hidden,
                        self.only_locked,
                        self.only_unlocked,
                        needle_of(self.search@),
                        row,
                    )),
                r@ == self.achievements@.take(i as int).filter(pred),
            decreases self.achievements@.len() - i,
        {
            let row = &self.achievements[i];
            let flags = (self.show_hidden || !row.hidden) && (!self.only_locked || !row.unlocked)
                && (!self.only_unlocked || row.unlocked);
            let matched = flags && (needle.len() == 0 || lower_contains(&row.api_name, &needle)
                || lower_contains(&row.display_name, &needle) || lower_contains(
                &row.description,
                &needle,
            ));
            assert(matched == pred(*row));
            if matched {
                r.push(row.clone());
            }
            assert(self.achievements@.take(i + 1) =~= self.achievements@.take(i as int).push(*row));
            proof {
                self.achievements@.take(i as int).lemma_filter_push(*row, pred);
            }
            i = i + 1;
        }
        assert(self.achievements@.take(i as int) =~= self.achievements@);
        r
    }

    /// The API names of the listed achievements, in list order: what a bulk
    /// change acts on.
    pub fn visible_api_names(&self) -> (r: Vec<String>)
        ensures
            views(r@) == listed_rows(*self).map_values(|row: AchievementRow| row.api_name@),
    {
        let rows = self.filtered_achievements();
        let mut r: Vec<String> = Vec::new();
        let mut i: usize = 0;
        while i < rows.len()
            invariant
                0 <= i <= rows@.len(),
                rows@ == listed_rows(*self),
                r@.len() == i,
                forall|k: int| 0 <= k < i ==> #[trigger] r@[k]@ == rows@[k].api_name@,
            decreases rows@.len() - i,
        {
            r.push(rows[i].api_name.clone());
            i = i + 1;
        }
        assert(views(r@) =~= rows@.map_values(|row: AchievementRow| row.api_name@));
        r
    }

    /// The numbers of unlocked and of locked achievements loaded.
    pub fn achievement_counts(&self) -> (r: (usize, usize))
        ensures
            r.0 == unlocked_count(self.achievements@),
            r.0 + r.1 == self.achievements@.len(),
    {
        let unlocked = count_unlocked(&self.achievements);
        proof {
            crate::achievements::lemma_unlocked_count_bound(self.achievements@);
        }
        (unlocked, self.achievements.len() - unlocked)
    }
}

/// The decimal digits of an AppID.
fn decimal_chars_of(id: u32) -> (r: Vec<char>)
    ensures
        r@ == decimal(id as nat),
{
    crate::number::decimal_chars(id as u64)
}

/// Every listed achievement is one of the loaded achievements and passes
/// each filter: a listed row is hidden only when hidden rows are shown, is
/// locked when only locked rows are asked for and unlocked when only unlocked
/// rows are asked for.
pub proof fn listed_rows_pass_filters(st: PanelState, i: int)
    requires
        0 <= i < listed_rows(st).len(),
    ensures
        st.achievements@.contains(listed_rows(st)[i]),
        !st.show_hidden ==> !listed_rows(st)[i].hidden,
        st.only_locked ==> !listed_rows(st)[i].unlocked,
        st.only_unlocked ==> listed_rows(st)[i].unlocked,
        listed_rows(st).len() <= st.achievements@.len(),
{
    broadcast use vstd::seq_lib::group_filter_ensures;

    let pred = |row: AchievementRow|
        row_shown(st.show_hidden, st.only_locked, st.only_unlocked, needle_of(st.search@), row);
    assert(pred(listed_rows(st)[i]));
    st.achievements@.lemma_filter_contains_rev(pred, listed_rows(st)[i]);
}

proof fn lemma_filter_all<A>(s: Seq<A>, pred: spec_fn(A) -> bool)
    requires
        forall|i: int| 0 <= i < s.len() ==> pred(#[trigger] s[i]),
    ensures
        s.filter(pred) == s,
    decreases s.len(),
{
    reveal(Seq::filter);
    if s.len() > 0 {
        lemma_filter_all(s.drop_last(), pred);
        assert(s.drop_last().push(s.last()) =~= s);
    }
}

/// With hidden rows shown, neither the locked nor the unlocked filter on and
/// an empty search text, every loaded achievement is listed, in order.
pub proof fn unfiltered_lists_every_row(st: PanelState)
    requires
        st.show_hidden,
        !st.only_locked,
        !st.only_unlocked,
        needle_of(st.search@).len() == 0,
    ensures
        listed_rows(st) == st.achievements@,
{
    let pred = |row: AchievementRow|
        row_shown(st.show_hidden, st.only_locked, st.only_unlocked, needle_of(st.search@), row);
    lemma_filter_all(st.achievements@, pred);
}

/// With an empty game search text every scanned game is listed, in order.
pub proof fn empty_game_search_lists_every_game(st: PanelState)
    requires
        needle_of(st.game_search@).len() == 0,
    ensures
        listed_games(st) == st.games@,
{
    let pred = |g: SteamGame| game_matches(needle_of(st.game_search@), g);
    lemma_filter_all(st.games@, pred);
}

/// A game picked in the library is the app that Connect then connects to:
/// the AppID field that picking fills in reads back as the game's AppID.
pub proof fn picked_game_connects(st: PanelState, id: u32)
    requires
        st.app_id_input@ == decimal(id as nat),
    ensures
        parse_u32_spec(trim(st.app_id_input@)) == Some(id),
{
    let d = decimal(id as nat);
    lemma_decimal_digits(id as nat);
    assert(is_digit(d[0]));
    assert(is_digit(d.last()));
    assert(!is_ws(d[0]));
    assert(!is_ws(d.last()));
    assert(trim_start(d) == d);
    assert(trim_end(d) == d);
    decimal_parse_roundtrip(id);
}

proof fn lemma_filter_refines<A>(
    s: Seq<A>,
    narrow: spec_fn(A) -> bool,
    wide: spec_fn(A) -> bool,
    extra: spec_fn(A) -> bool,
)
    requires
        forall|x: A| #[trigger] narrow(x) == (wide(x) && extra(x)),
    ensures
        s.filter(narrow) == s.filter(wide).filter(extra),
    decreases s.len(),
{
    reveal(Seq::filter);
    if s.len() > 0 {
        lemma_filter_refines(s.drop_last(), narrow, wide, extra);
        let fw = s.drop_last().filter(wide);
        if wide(s.last()) {
            assert(s.filter(wide) == fw.push(s.last()));
            assert(fw.push(s.last()).drop_last() =~= fw);
        }
    }
}

proof fn lemma_filter_complement_len<A>(s: Seq<A>, keep: spec_fn(A) -> bool)
    ensures
        s.filter(keep).len() + s.filter(|x: A| !keep(x)).len() == s.len(),
    decreases s.len(),
{
    reveal(Seq::filter);
    if s.len() > 0 {
        lemma_filter_complement_len(s.drop_last(), keep);
    }
}

/// The two lock filters split the list: with the same achievements, search
/// text and hidden-row choice, "only locked" lists exactly the locked rows of
/// the unfiltered list and "only unlocked" exactly its unlocked rows, each in
/// the unfiltered order; no row is listed under both, and together they list
/// as many rows as the unfiltered list.
pub proof fn lock_filters_split_the_list(a: PanelState, b: PanelState, c: PanelState)
    requires
        a.achievements@ == c.achievements@,
        b.achievements@ == c.achievements@,
        a.search@ == c.search@,
        b.search@ == c.search@,
        a.show_hidden == c.show_hidden,
        b.show_hidden == c.show_hidden,
        a.only_locked && !a.only_unlocked,
        b.only_unlocked && !b.only_locked,
        !c.only_locked && !c.only_unlocked,
    ensures
        listed_rows(a) == listed_rows(c).filter(|row: AchievementRow| !row.unlocked),
        listed_rows(b) == listed_rows(c).filter(|row: AchievementRow| row.unlocked),
        forall|i: int, j: int|
            0 <= i < listed_rows(a).len() && 0 <= j < listed_rows(b).len() ==> #[trigger] listed_rows(
                a,
            )[i] != #[trigger] listed_rows(b)[j],
        listed_rows(a).len() + listed_rows(b).len() == listed_rows(c).len(),
{
    broadcast use vstd::seq_lib::group_filter_ensures;

    let s = c.achievements@;
    let needle = needle_of(c.search@);
    let shown_a = |row: AchievementRow|
        row_shown(a.show_hidden, a.only_locked, a.only_unlocked, needle_of(a.search@), row);
    let shown_b = |row: AchievementRow|
        row_shown(b.show_hidden, b.only_locked, b.only_unlocked, needle_of(b.search@), row);
    let shown_c = |row: AchievementRow|
        row_shown(c.show_hidden, c.only_locked, c.only_unlocked, needle, row);
    let locked = |row: AchievementRow| !row.unlocked;
    let unlocked = |row: AchievementRow| row.unlocked;
    assert forall|x: AchievementRow| #[trigger] shown_a(x) == (shown_c(x) && locked(x)) by {}
    assert forall|x: AchievementRow| #[trigger] shown_b(x) == (shown_c(x) && unlocked(x)) by {}
    lemma_filter_refines(s, shown_a, shown_c, locked);
    lemma_filter_refines(s, shown_b, shown_c, unlocked);
    assert(listed_rows(a) == s.filter(shown_a));
    assert(listed_rows(b) == s.filter(shown_b));
    assert(listed_rows(c) == s.filter(shown_c));
    let lc = listed_rows(c);
    lemma_filter_complement_len(lc, unlocked);
    assert((|x: AchievementRow| !unlocked(x)) =~= locked);
    assert forall|i: int, j: int|
        0 <= i < listed_rows(a).len() && 0 <= j < listed_rows(b).len() implies #[trigger] listed_rows(
            a,
        )[i] != #[trigger] listed_rows(b)[j] by {
        assert(locked(lc.filter(locked)[i]));
        assert(unlocked(lc.filter(unlocked)[j]));
    }
}

/// The search covers the API name, the display name and the description: a
/// loaded row that passes the hidden and lock filters is listed whenever the
/// search text is empty or the lower-case form of any of those three holds it.
pub proof fn search_lists_matching_rows(st: PanelState, row: AchievementRow)
    requires
        st.achievements@.contains(row),
        st.show_hidden || !row.hidden,
        !st.only_locked || !row.unlocked,
        !st.only_unlocked || row.unlocked,
        needle_of(st.search@).len() == 0 || has_substring(
            lowercase(row.api_name@),
            needle_of(st.search@),
        ) || has_substring(lowercase(row.display_name@), needle_of(st.search@))
            || has_substring(lowercase(row.description@), needle_of(st.search@)),
    ensures
        listed_rows(st).contains(row),
{
    let pred = |r: AchievementRow|
        row_shown(st.show_hidden, st.only_locked, st.only_unlocked, needle_of(st.search@), r);
    let i = choose|i: int| 0 <= i < st.achievements@.len() && st.achievements@[i] == row;
    st.achievements@.lemma_filter_contains(pred, i);
}

/// A listed row matches the search: the search text is empty or the
/// lower-case API name, display name or description holds it.
pub proof fn listed_rows_match_search(st: PanelState, i: int)
    requires
        0 <= i < listed_rows(st).len(),
    ensures
        needle_of(st.search@).len() == 0 || has_substring(
            lowercase(listed_rows(st)[i].api_name@),
            needle_of(st.search@),
        ) || has_substring(lowercase(listed_rows(st)[i].display_name@), needle_of(st.search@))
            || has_substring(lowercase(listed_rows(st)[i].description@), needle_of(st.search@)),
{
    let pred = |r: AchievementRow|
        row_shown(st.show_hidden, st.only_locked, st.only_unlocked, needle_of(st.search@), r);
    st.achievements@.lemma_filter_pred(pred, i);
}

/// The game search looks at the name and the AppID for any search text: a
/// scanned game is listed whenever the search text is empty, its lower-case
/// name holds the text, or its AppID's decimal digits hold it.
pub proof fn game_search_lists_matching_games(st: PanelState, g: SteamGame)
    requires
        st.games@.contains(g),
        needle_of(st.game_search@).len() == 0 || has_substring(
            lowercase(g.name@),
            needle_of(st.game_search@),
        ) || has_substring(decimal(g.app_id as nat), needle_of(st.game_search@)),
    ensures
        listed_games(st).contains(g),
{
    let pred = |h: SteamGame| game_matches(needle_of(st.game_search@), h);
    let i = choose|i: int| 0 <= i < st.games@.len() && st.games@[i] == g;
    st.games@.lemma_filter_contains(pred, i);
}

/// A listed game is a scanned game that matches the search: the search text
/// is empty or its lower-case name or AppID digits hold it.
pub proof fn listed_games_match_search(st: PanelState, i: int)
    requires
        0 <= i < listed_games(st).len(),
    ensures
        st.games@.contains(listed_games(st)[i]),
        needle_of(st.game_search@).len() == 0 || has_substring(
            lowercase(listed_games(st)[i].name@),
            needle_of(st.game_search@),
        ) || has_substring(decimal(listed_games(st)[i].app_id as nat), needle_of(st.game_search@)),
{
    let pred = |h: SteamGame| game_matches(needle_of(st.game_search@), h);
    st.games@.lemma_filter_pred(pred, i);
    st.games@.lemma_filter_contains_rev(pred, listed_games(st)[i]);
    assert(listed_games(st).contains(listed_games(st)[i]));
}

/// `t` is a duration text of `secs` seconds: split at `:` it has three fields
/// of at least two decimal digits, minutes and seconds below sixty, and hours
/// times 3600 plus minutes times 60 plus seconds is `secs`.
pub open spec fn reads_as_duration(t: Seq<char>, secs: nat) -> bool {
    let f = split_on(t, ':');
    &&& f.len() == 3
    &&& forall|i: int| 0 <= i < 3 ==> all_digits(#[trigger] f[i]) && f[i].len() >= 2
    &&& digits_value(f[1]) < 60
    &&& digits_value(f[2]) < 60
    &&& digits_value(f[0]) * 3600 + digits_value(f[1]) * 60 + digits_value(f[2]) == secs
}

/// The session badge reads `App <id> • <time> • online` (or `offline`), and its
/// time field is the whole elapsed time: whatever stands between the two
/// separators reads back as `elapsed` seconds, and such a field exists.
pub proof fn badge_shows_whole_elapsed_time(app_id: u32, elapsed: nat, logged_on: bool, t: Seq<char>)
    ensures
        exists|f: Seq<char>|
            #[trigger] reads_as_duration(f, elapsed) && badge_text(app_id, elapsed, logged_on)
                == "App "@ + decimal(app_id as nat) + " • "@ + f + " • "@ + (if logged_on {
                "online"@
            } else {
                "offline"@
            }),
        badge_text(app_id, elapsed, logged_on) == "App "@ + decimal(app_id as nat) + " • "@ + t
            + " • "@ + (if logged_on {
            "online"@
        } else {
            "offline"@
        }) ==> reads_as_duration(t, elapsed),
{
    let head = "App "@ + decimal(app_id as nat) + " • "@;
    let tail = " • "@ + (if logged_on {
        "online"@
    } else {
        "offline"@
    });
    let d = duration_text(elapsed);
    assert(badge_text(app_id, elapsed, logged_on) == head + d + tail);
    assert(reads_as_duration(d, elapsed)) by {
        duration_text_reads_back(elapsed);
    }
    let shown = "App "@ + decimal(app_id as nat) + " • "@ + t + " • "@ + (if logged_on {
        "online"@
    } else {
        "offline"@
    });
    assert(shown =~= head + t + tail);
    if badge_text(app_id, elapsed, logged_on) == shown {
        lemma_middle_unique(head, t, d, tail);
    }
}

proof fn lemma_middle_unique(head: Seq<char>, t: Seq<char>, d: Seq<char>, tail: Seq<char>)
    requires
        head + t + tail == head + d + tail,
    ensures
        t == d,
{
    let b = head + d + tail;
    assert((head + t + tail).len() == head.len() + t.len() + tail.len());
    assert(b.len() == head.len() + d.len() + tail.len());
    assert(t.len() == d.len());
    assert(t =~= b.subrange(head.len() as int, head.len() + t.len() as int));
    assert(d =~= b.subrange(head.len() as int, head.len() + d.len() as int));
}

/// The rows of `s` are in order of their keys.
pub open spec fn rows_in_order(s: Seq<AchievementRow>) -> bool {
    forall|i: int, j: int| 0 <= i < j < s.len() ==> lex_le(row_key(s[i]), row_key(s[j]))
}

proof fn lemma_filter_keeps_order(s: Seq<AchievementRow>, pred: spec_fn(AchievementRow) -> bool)
    requires
        rows_in_order(s),
    ensures
        rows_in_order(s.filter(pred)),
    decreases s.len(),
{
    broadcast use vstd::seq_lib::group_filter_ensures;

    reveal(Seq::filter);
    if s.len() > 0 {
        let t = s.drop_last();
        assert(rows_in_order(t));
        lemma_filter_keeps_order(t, pred);
        let ft = t.filter(pred);
        if pred(s.last()) {
            let f = ft.push(s.last());
            assert forall|i: int, j: int| 0 <= i < j < f.len() implies lex_le(
                row_key(f[i]),
                row_key(f[j]),
            ) by {
                if j == f.len() - 1 {
                    assert(f[i] == ft[i]);
                    assert(ft.contains(ft[i]));
                    t.lemma_filter_contains_rev(pred, ft[i]);
                    let k = choose|k: int| 0 <= k < t.len() && t[k] == ft[i];
                    assert(s[k] == t[k]);
                    assert(f[j] == s[s.len() - 1]);
                } else {
                    assert(f[i] == ft[i]);
                    assert(f[j] == ft[j]);
                }
            }
        }
    }
}

/// Filtering keeps the list's order: where the loaded achievements are in
/// order of lower-case visible name (as loading leaves them), so are the
/// listed ones, whatever the filters and search text.
pub proof fn listed_rows_keep_order(st: PanelState)
    requires
        rows_in_order(st.achievements@),
    ensures
        rows_in_order(listed_rows(st)),
{
    let pred = |row: AchievementRow|
        row_shown(st.show_hidden, st.only_locked, st.only_unlocked, needle_of(st.search@), row);
    lemma_filter_keeps_order(st.achievements@, pred);
}

/// The `HH:MM:SS` text reads back as the duration: split at `:` it has
/// exactly three fields, each of at least two decimal digits, minutes and
/// seconds below sixty, and hours times 3600 plus minutes times 60 plus
/// seconds is the number of seconds written.
pub proof fn duration_text_reads_back(secs: nat)
    ensures
        split_on(duration_text(secs), ':').len() == 3,
        forall|i: int|
            0 <= i < 3 ==> all_digits(#[trigger] split_on(duration_text(secs), ':')[i])
                && split_on(duration_text(secs), ':')[i].len() >= 2,
        digits_value(split_on(duration_text(secs), ':')[1]) < 60,
        digits_value(split_on(duration_text(secs), ':')[2]) < 60,
        digits_value(split_on(duration_text(secs), ':')[0]) * 3600 + digits_value(
            split_on(duration_text(secs), ':')[1],
        ) * 60 + digits_value(split_on(duration_text(secs), ':')[2]) == secs,
{
    let h = two_digits(secs / 3600);
    let m = two_digits((secs % 3600) / 60);
    let s = two_digits(secs % 60);
    lemma_two_digits(secs / 3600);
    lemma_two_digits((secs % 3600) / 60);
    lemma_two_digits(secs % 60);
    assert forall|t: Seq<char>| all_digits(t) implies !t.contains(':') by {
        if t.contains(':') {
            let i = choose|i: int| 0 <= i < t.len() && t[i] == ':';
            assert(is_digit(t[i]));
        }
    }
    let colon = seq![':'];
    assert(":"@ == colon) by {
        reveal_strlit(":");
    }
    assert(duration_text(secs) =~= h + colon + (m + colon + s));
    lemma_split_on(h, ':', m + colon + s);
    lemma_split_on(m, ':', s);
    lemma_split_on(s, ':', Seq::<char>::empty());
    let f = split_on(duration_text(secs), ':');
    assert(f =~= seq![h, m, s]);
    duration_fields_recombine(secs);
}

} // verus!
