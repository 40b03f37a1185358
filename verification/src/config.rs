//! The configuration of the application.
use vstd::prelude::*;

use crate::games::{local_data_dir, or_current, user_config_dir, Game, GameView};
use crate::number::{decimal, decimal_string};
use crate::paths::{join, joined};
use crate::table::Table;
use crate::text::{
    all_ascii, alphanumeric, ascii_lower, chars_of, concat3, is_alphanumeric, is_ascii_char,
    is_ascii_digit, is_ascii_letter, lowercase, owned, same, to_lowercase, trim, trimmed,
};

verus! {

// ── Profiles ────────────────────────────────────────────────────────────────

/// A named selection of mods.
#[derive(Debug)]
pub struct Profile {
    pub id: String,
    pub name: String,
}

/// A [`Profile`] as a mathematical value.
#[verifier::ext_equal]
pub ghost struct ProfileView {
    pub id: Seq<char>,
    pub name: Seq<char>,
}

impl DeepView for Profile {
    type V = ProfileView;

    open spec fn deep_view(&self) -> ProfileView {
        ProfileView { id: self.id@, name: self.name@ }
    }
}

impl Clone for Profile {
    fn clone(&self) -> (r: Self)
        ensures
            r.deep_view() == self.deep_view(),
    {
        Profile { id: owned(self.id.as_str()), name: owned(self.name.as_str()) }
    }
}

/// The text with an underscore for everything that is neither a letter nor a
/// digit.
pub open spec fn slugged(s: Seq<char>) -> Seq<char> {
    s.map_values(
        |c: char|
            if alphanumeric(c) {
                c
            } else {
                '_'
            },
    )
}

fn slug_of(s: &str) -> (r: String)
    ensures
        r@ == slugged(s@),
{
    let v = chars_of(s);
    let mut r = String::new();
    for i in 0..v.len()
        invariant
            v@ == s@,
            r@ == slugged(s@.take(i as int)),
    {
        let c = if is_alphanumeric(v[i]) {
            v[i]
        } else {
            '_'
        };
        r.push(c);
        assert(r@ =~= slugged(s@.take(i + 1)));
    }
    assert(s@.take(s@.len() as int) =~= s@);
    r
}

/// A profile made at the given time.
pub open spec fn named_profile(name: Seq<char>, millis: nat) -> ProfileView {
    ProfileView { id: slugged(lowercase(name)) + "_"@ + decimal(millis), name }
}

/// The profile that is there from the start.
pub open spec fn first_profile() -> ProfileView {
    ProfileView { id: "default"@, name: "Default"@ }
}

impl Profile {
    /// A profile whose identifier is made of its name and the time, in
    /// milliseconds since the epoch.
    pub fn new(name: &str, millis: u128) -> (r: Profile)
        ensures
            r.deep_view() == named_profile(name@, millis as nat),
    {
        let slug = slug_of(to_lowercase(name).as_str());
        Profile {
            id: concat3(slug.as_str(), "_", decimal_string(millis).as_str()),
            name: owned(name),
        }
    }

    /// The profile that is there from the start.
    pub fn default_profile() -> (r: Profile)
        ensures
            r.deep_view() == first_profile(),
    {
        Profile { id: owned("default"), name: owned("Default") }
    }
}

fn default_profiles() -> (r: Vec<Profile>)
    ensures
        r.deep_view() == seq![first_profile()],
{
    let mut r: Vec<Profile> = Vec::new();
    r.push(Profile::default_profile());
    assert(r.deep_view() =~= seq![first_profile()]);
    r
}

/// The identifier of the profile that is active from the start.
pub fn default_active_profile_id() -> (r: String)
    ensures
        r@ == "default"@,
{
    owned("default")
}

/// The profiles that are there from the start.
pub fn default_active_profile_id_vec() -> (r: Vec<Profile>)
    ensures
        r.deep_view() == seq![first_profile()],
{
    default_profiles()
}

fn copy_profiles(profiles: &Vec<Profile>) -> (r: Vec<Profile>)
    ensures
        r.deep_view() == profiles.deep_view(),
{
    let mut r: Vec<Profile> = Vec::new();
    for i in 0..profiles.len()
        invariant
            r@.len() == i,
            forall|j: int| 0 <= j < i ==> #[trigger] r@[j].deep_view() == profiles@[j].deep_view(),
    {
        r.push(profiles[i].clone());
    }
    assert(r.deep_view() =~= profiles.deep_view());
    r
}

fn copy_strings(list: &Vec<String>) -> (r: Vec<String>)
    ensures
        r.deep_view() == list.deep_view(),
{
    let mut r: Vec<String> = Vec::new();
    for i in 0..list.len()
        invariant
            r@.len() == i,
            forall|j: int| 0 <= j < i ==> #[trigger] r@[j]@ == list@[j]@,
    {
        r.push(owned(list[i].as_str()));
    }
    assert(r.deep_view() =~= list.deep_view());
    r
}

fn copy_optional(s: &Option<String>) -> (r: Option<String>)
    ensures
        r.deep_view() == s.deep_view(),
{
    match s {
        Some(s) => Some(owned(s.as_str())),
        None => None,
    }
}

// ── Settings of a game ──────────────────────────────────────────────────────

/// A tool that is run on a game.
#[derive(Debug)]
pub struct ToolConfig {
    pub id: String,
    pub name: String,
    pub exe_path: String,
    pub arguments: String,
    pub app_id: u32,
}

/// The settings of one managed game.
#[derive(Debug)]
pub struct GameSettings {
    /// Where downloads and mods are kept, if not in the local data directory
    /// of the user.
    pub app_data_dir: Option<String>,
    /// The archives that have been installed.
    pub installed_archives: Vec<String>,
    pub profiles: Vec<Profile>,
    pub active_profile_id: String,
    /// The executable that the Steam game is redirected to.
    pub steam_redirect_exe: Option<String>,
}

/// [`GameSettings`] as a mathematical value.
#[verifier::ext_equal]
pub ghost struct GameSettingsView {
    pub app_data_dir: Option<Seq<char>>,
    pub installed_archives: Seq<Seq<char>>,
    pub profiles: Seq<ProfileView>,
    pub active_profile_id: Seq<char>,
    pub steam_redirect_exe: Option<Seq<char>>,
}

impl DeepView for GameSettings {
    type V = GameSettingsView;

    open spec fn deep_view(&self) -> GameSettingsView {
        GameSettingsView {
            app_data_dir: self.app_data_dir.deep_view(),
            installed_archives: self.installed_archives.deep_view(),
            profiles: self.profiles.deep_view(),
            active_profile_id: self.active_profile_id@,
            steam_redirect_exe: self.steam_redirect_exe.deep_view(),
        }
    }
}

/// The settings of a game that has none yet.
pub open spec fn first_settings() -> GameSettingsView {
    GameSettingsView {
        app_data_dir: None,
        installed_archives: Seq::empty(),
        profiles: seq![first_profile()],
        active_profile_id: "default"@,
        steam_redirect_exe: None,
    }
}

impl Default for GameSettings {
    fn default() -> (r: Self)
        ensures
            r.deep_view() == first_settings(),
    {
        let r = GameSettings {
            app_data_dir: None,
            installed_archives: Vec::new(),
            profiles: default_profiles(),
            active_profile_id: default_active_profile_id(),
            steam_redirect_exe: None,
        };
        assert(r.deep_view() =~= first_settings());
        r
    }
}

impl Clone for GameSettings {
    fn clone(&self) -> (r: Self)
        ensures
            r.deep_view() == self.deep_view(),
    {
        GameSettings {
            app_data_dir: copy_optional(&self.app_data_dir),
            installed_archives: copy_strings(&self.installed_archives),
            profiles: copy_profiles(&self.profiles),
            active_profile_id: owned(self.active_profile_id.as_str()),
            steam_redirect_exe: copy_optional(&self.steam_redirect_exe),
        }
    }
}

// ── The whole configuration ─────────────────────────────────────────────────

/// The configuration of the application.
pub struct AppConfig {
    pub version: u32,
    pub first_run: bool,
    pub current_game_id: Option<String>,
    pub nexus_api_key: Option<String>,
    pub games: Vec<Game>,
    /// The settings of each game, under the game's identifier.
    pub game_settings: Table<GameSettings>,
    /// Settings for all games, from before each game had its own.
    pub app_data_dir: Option<String>,
    pub installed_archives: Vec<String>,
    pub profiles: Vec<Profile>,
    pub active_profile_id: String,
}

/// An [`AppConfig`] as a mathematical value.
#[verifier::ext_equal]
pub ghost struct AppConfigView {
    pub version: u32,
    pub first_run: bool,
    pub current_game_id: Option<Seq<char>>,
    pub nexus_api_key: Option<Seq<char>>,
    pub games: Seq<GameView>,
    pub game_settings: Map<Seq<char>, GameSettingsView>,
    pub app_data_dir: Option<Seq<char>>,
    pub installed_archives: Seq<Seq<char>>,
    pub profiles: Seq<ProfileView>,
    pub active_profile_id: Seq<char>,
}

impl DeepView for AppConfig {
    type V = AppConfigView;

    open spec fn deep_view(&self) -> AppConfigView {
        AppConfigView {
            version: self.version,
            first_run: self.first_run,
            current_game_id: self.current_game_id.deep_view(),
            nexus_api_key: self.nexus_api_key.deep_view(),
            games: self.games.deep_view(),
            game_settings: self.game_settings.map(),
            app_data_dir: self.app_data_dir.deep_view(),
            installed_archives: self.installed_archives.deep_view(),
            profiles: self.profiles.deep_view(),
            active_profile_id: self.active_profile_id@,
        }
    }
}

/// The configuration before anything was configured.
pub open spec fn first_config() -> AppConfigView {
    AppConfigView {
        version: 1,
        first_run: true,
        current_game_id: None,
        nexus_api_key: None,
        games: Seq::empty(),
        game_settings: Map::empty(),
        app_data_dir: None,
        installed_archives: Seq::empty(),
        profiles: seq![first_profile()],
        active_profile_id: "default"@,
    }
}

impl Default for AppConfig {
    fn default() -> (r: Self)
        ensures
            r.deep_view() == first_config(),
    {
        let r = AppConfig {
            version: 1,
            first_run: true,
            current_game_id: None,
            nexus_api_key: None,
            games: Vec::new(),
            game_settings: Table::new(),
            app_data_dir: None,
            installed_archives: Vec::new(),
            profiles: default_profiles(),
            active_profile_id: default_active_profile_id(),
        };
        assert(r.deep_view() =~= first_config());
        r
    }
}

/// The settings that each game gets from those for all games.
pub open spec fn shared_settings(c: AppConfigView) -> GameSettingsView {
    GameSettingsView {
        app_data_dir: c.app_data_dir,
        installed_archives: c.installed_archives,
        profiles: if c.profiles.len() == 0 {
            seq![first_profile()]
        } else {
            c.profiles
        },
        active_profile_id: if c.active_profile_id.len() == 0 {
            "default"@
        } else {
            c.active_profile_id
        },
        steam_redirect_exe: None,
    }
}

/// Settings under the identifier of each of the games.
pub open spec fn settings_for_all(games: Seq<GameView>, settings: GameSettingsView) -> Map<
    Seq<char>,
    GameSettingsView,
>
    decreases games.len(),
{
    if games.len() == 0 {
        Map::empty()
    } else {
        settings_for_all(games.drop_last(), settings).insert(games.last().id, settings)
    }
}

/// The configuration after settings for all games were handed to each game,
/// which is done once, as long as no game has settings.
pub open spec fn migrated(c: AppConfigView) -> AppConfigView {
    if c.game_settings != Map::<Seq<char>, GameSettingsView>::empty() || c.games.len() == 0 {
        c
    } else {
        AppConfigView { game_settings: settings_for_all(c.games, shared_settings(c)), ..c }
    }
}

/// A game with the directories that its settings give it.
pub open spec fn with_dirs(g: GameView, settings: Map<Seq<char>, GameSettingsView>) -> GameView {
    GameView {
        mods_base_dir: if settings.contains_key(g.id) {
            settings[g.id].app_data_dir
        } else {
            None
        },
        data_path: joined(g.root_path, "Data"@),
        ..g
    }
}

/// The identifier of a game, if one is given that is more than white space.
pub open spec fn managed_id(game: Option<Seq<char>>) -> Option<Seq<char>> {
    match game {
        Some(id) => if trimmed(id).len() > 0 {
            Some(trimmed(id))
        } else {
            None
        },
        None => None,
    }
}

/// Where downloads are kept, given the local data directory of the user.
pub open spec fn downloads_of(
    c: AppConfigView,
    game: Option<Seq<char>>,
    data_dir: Option<Seq<char>>,
) -> Seq<char> {
    let usual = joined(joined(or_current(data_dir), "linkmm"@), "downloads"@);
    match managed_id(game) {
        Some(id) => {
            let base = if c.game_settings.contains_key(id)
                && c.game_settings[id].app_data_dir is Some {
                joined(c.game_settings[id].app_data_dir->0, "downloads"@)
            } else {
                usual
            };
            joined(base, id)
        },
        None => usual,
    }
}

/// The first game with the given identifier.
pub open spec fn game_with_id(games: Seq<GameView>, id: Seq<char>) -> Option<GameView>
    decreases games.len(),
{
    if games.len() == 0 {
        None
    } else if games[0].id == id {
        Some(games[0])
    } else {
        game_with_id(games.skip(1), id)
    }
}

impl AppConfig {
    /// The configuration to start with: what was read, brought up to date, or
    /// the first configuration if nothing could be read.
    pub fn load_or_default(read: Option<AppConfig>) -> (r: AppConfig)
        ensures
            match read {
                Some(c) => r.deep_view() == with_all_dirs(migrated(c.deep_view())),
                None => r.deep_view() == first_config(),
            },
    {
        match read {
            Some(c) => {
                let mut config = c;
                config.migrate_legacy_global_settings();
                config.apply_mods_base_dirs();
                config
            },
            None => AppConfig::default(),
        }
    }

    /// Hands settings for all games to each game, as long as no game has
    /// settings.
    pub fn migrate_legacy_global_settings(&mut self)
        ensures
            final(self).deep_view() == migrated(old(self).deep_view()),
    {
        let ghost before = self.deep_view();
        if !self.game_settings.is_empty() || self.games.len() == 0 {
            return;
        }
        let profiles = if self.profiles.len() == 0 {
            default_profiles()
        } else {
            copy_profiles(&self.profiles)
        };
        let active_profile_id = if self.active_profile_id.as_str().is_empty() {
            default_active_profile_id()
        } else {
            owned(self.active_profile_id.as_str())
        };
        let shared = GameSettings {
            app_data_dir: copy_optional(&self.app_data_dir),
            installed_archives: copy_strings(&self.installed_archives),
            profiles,
            active_profile_id,
            steam_redirect_exe: None,
        };
        assert(shared.deep_view() =~= shared_settings(before));
        let ghost games = self.games.deep_view();
        let mut settings: Table<GameSettings> = Table::new();
        for i in 0..self.games.len()
            invariant
                games == self.games.deep_view(),
                settings.map() == settings_for_all(games.take(i as int), shared.deep_view()),
                *self == *old(self),
        {
            assert(games.take(i + 1).drop_last() =~= games.take(i as int));
            assert(games[i as int] == self.games@[i as int].deep_view());
            settings.insert(self.games[i].id.as_str(), shared.clone());
        }
        assert(games.take(games.len() as int) =~= games);
        self.game_settings = settings;
        assert(self.deep_view() =~= migrated(before));
    }

    /// The settings of a game, if it has any.
    pub fn game_settings_ref(&self, game_id: &str) -> (r: Option<&GameSettings>)
        ensures
            match r {
                Some(s) => self.deep_view().game_settings.contains_key(game_id@)
                    && self.deep_view().game_settings[game_id@] == s.deep_view(),
                None => !self.deep_view().game_settings.contains_key(game_id@),
            },
    {
        self.game_settings.get(game_id)
    }

    /// The settings of a game, to be changed; a game without any gets the
    /// first settings.
    pub fn game_settings_mut(&mut self, game_id: &str) -> (r: &mut GameSettings)
        ensures
            r.deep_view() == (if old(self).deep_view().game_settings.contains_key(game_id@) {
                old(self).deep_view().game_settings[game_id@]
            } else {
                first_settings()
            }),
            final(self).deep_view() == (AppConfigView {
                game_settings: old(self).deep_view().game_settings.insert(
                    game_id@,
                    final(r).deep_view(),
                ),
                ..old(self).deep_view()
            }),
    {
        self.game_settings.get_or_insert(game_id, GameSettings::default())
    }

    /// Gives each game the directories that follow from its settings.
    pub fn apply_mods_base_dirs(&mut self)
        ensures
            final(self).deep_view() == with_all_dirs(old(self).deep_view()),
    {
        let ghost before = self.deep_view();
        let ghost settings = before.game_settings;
        let ghost games = before.games;
        let mut updated: Vec<Game> = Vec::new();
        for i in 0..self.games.len()
            invariant
                *self == *old(self),
                before == self.deep_view(),
                settings == before.game_settings,
                games == before.games,
                updated@.len() == i,
                forall|j: int|
                    0 <= j < i ==> #[trigger] updated@[j].deep_view() == with_dirs(
                        games[j],
                        settings,
                    ),
        {
            assert(games[i as int] == self.games@[i as int].deep_view());
            let mut game = self.games[i].clone();
            game.mods_base_dir = match self.game_settings.get(game.id.as_str()) {
                Some(s) => copy_optional(&s.app_data_dir),
                None => None,
            };
            game.data_path = join(game.root_path.as_str(), game.kind.default_data_subdir());
            assert(game.deep_view() =~= with_dirs(games[i as int], settings));
            updated.push(game);
        }
        self.games = updated;
        assert(self.deep_view().games =~= games.map_values(|g: GameView| with_dirs(g, settings)));
        assert(self.deep_view() =~= with_all_dirs(before));
    }

    /// Where downloads are kept, given the local data directory of the user.
    pub fn downloads_dir_in(&self, managed_game: Option<&str>, data_dir: Option<String>) -> (r:
        String)
        ensures
            r@ == downloads_of(
                self.deep_view(),
                managed_game.deep_view(),
                data_dir.deep_view(),
            ),
    {
        let root = match data_dir {
            Some(d) => d,
            None => owned("."),
        };
        let usual = join(join(root.as_str(), "linkmm").as_str(), "downloads");
        let id = match managed_game {
            Some(g) => trim(g),
            None => String::new(),
        };
        if id.as_str().is_empty() {
            return usual;
        }
        let base = match self.game_settings.get(id.as_str()) {
            Some(s) => match &s.app_data_dir {
                Some(dir) => join(dir.as_str(), "downloads"),
                None => usual,
            },
            None => usual,
        };
        join(base.as_str(), id.as_str())
    }

    /// Where downloads are kept: in a directory of the game's own if one is
    /// given.
    pub fn downloads_dir(&self, managed_game: Option<&str>) -> (r: String)
        ensures
            exists|data_dir: Option<Seq<char>>|
                r@ == #[trigger] downloads_of(
                    self.deep_view(),
                    managed_game.deep_view(),
                    data_dir,
                ),
    {
        self.downloads_dir_in(managed_game, local_data_dir())
    }

    /// Where the configuration is kept, given the configuration directory of
    /// the user.
    pub fn config_path_in(config_dir: Option<String>) -> (r: String)
        ensures
            r@ == config_file(config_dir.deep_view()),
    {
        let root = match config_dir {
            Some(d) => d,
            None => owned("."),
        };
        join(join(root.as_str(), "linkmm").as_str(), "config.json")
    }

    /// Where the configuration is kept.
    pub fn config_path() -> (r: String)
        ensures
            exists|config_dir: Option<Seq<char>>| r@ == #[trigger] config_file(config_dir),
    {
        AppConfig::config_path_in(user_config_dir())
    }

    /// The game that is selected.
    pub fn current_game(&self) -> (r: Option<&Game>)
        ensures
            ({
                let c = self.deep_view();
                let found = match c.current_game_id {
                    Some(id) => game_with_id(c.games, id),
                    None => None,
                };
                match r {
                    Some(g) => found == Some(g.deep_view()),
                    None => found is None,
                }
            }),
    {
        match &self.current_game_id {
            Some(id) => find_game(&self.games, id.as_str()),
            None => None,
        }
    }
}

/// Where the configuration is kept, given the configuration directory of the
/// user.
pub open spec fn config_file(config_dir: Option<Seq<char>>) -> Seq<char> {
    joined(joined(or_current(config_dir), "linkmm"@), "config.json"@)
}

/// The configuration with the directories of each game.
pub open spec fn with_all_dirs(c: AppConfigView) -> AppConfigView {
    AppConfigView {
        games: c.games.map_values(|g: GameView| with_dirs(g, c.game_settings)),
        ..c
    }
}

/// Finds the first game with the given identifier.
pub fn find_game<'a>(games: &'a Vec<Game>, id: &str) -> (r: Option<&'a Game>)
    ensures
        match r {
            Some(g) => game_with_id(games.deep_view(), id@) == Some(g.deep_view()),
            None => game_with_id(games.deep_view(), id@) is None,
        },
{
    let ghost all = games.deep_view();
    let mut i: usize = 0;
    assert(all.skip(0) =~= all);
    while i < games.len()
        invariant
            all == games.deep_view(),
            i <= games@.len(),
            game_with_id(all, id@) == game_with_id(all.skip(i as int), id@),
        decreases games@.len() - i,
    {
        assert(all[i as int] == games@[i as int].deep_view());
        assert(all.skip(i as int).skip(1) =~= all.skip(i + 1));
        if same(games[i].id.as_str(), id) {
            return Some(&games[i]);
        }
        i += 1;
    }
    None
}

proof fn lemma_settings_for_all(games: Seq<GameView>, settings: GameSettingsView, i: int)
    requires
        0 <= i < games.len(),
    ensures
        settings_for_all(games, settings).contains_key(games[i].id),
        settings_for_all(games, settings)[games[i].id] == settings,
    decreases games.len(),
{
    if i < games.len() - 1 {
        lemma_settings_for_all(games.drop_last(), settings, i);
    }
}

/// Handing settings for all games to each game loses nothing: afterwards every
/// game has them.  Doing it again changes nothing, and a game that has settings
/// keeps them.
pub proof fn migration_reaches_every_game(c: AppConfigView, i: int)
    requires
        0 <= i < c.games.len(),
    ensures
        c.game_settings == Map::<Seq<char>, GameSettingsView>::empty() ==> migrated(
            c,
        ).game_settings.contains_key(c.games[i].id) && migrated(c).game_settings[c.games[i].id]
            == shared_settings(c),
        migrated(migrated(c)) == migrated(c),
        c.game_settings.contains_key(c.games[i].id) ==> migrated(c) == c,
{
    lemma_settings_for_all(c.games, shared_settings(c), i);
    let id = c.games[i].id;
    if c.game_settings == Map::<Seq<char>, GameSettingsView>::empty() {
        assert(migrated(c).game_settings.contains_key(id));
        assert(migrated(c).game_settings != Map::<Seq<char>, GameSettingsView>::empty());
    }
}

/// A profile's identifier keeps the letters and digits of its name in lowercase
/// and has an underscore for every other character; the time follows it.
pub proof fn profile_ids_are_slugs(name: Seq<char>, millis: nat, i: int)
    requires
        all_ascii(name),
        0 <= i < name.len(),
    ensures
        ({
            let p = named_profile(name, millis);
            &&& p.name == name
            &&& p.id.len() == name.len() + 1 + decimal(millis).len()
            &&& is_ascii_letter(name[i]) || is_ascii_digit(name[i]) ==> p.id[i] == ascii_lower(
                name[i],
            )
            &&& !(is_ascii_letter(name[i]) || is_ascii_digit(name[i])) ==> p.id[i] == '_'
            &&& p.id[name.len() as int] == '_'
            &&& decimal(millis).is_suffix_of(p.id)
        }),
{
    reveal_strlit("_");
    let p = named_profile(name, millis);
    let low = lowercase(name);
    assert(low[i] == ascii_lower(name[i]));
    assert(is_ascii_char(name[i]));
    let n = p.id.len() as int;
    assert(p.id.subrange(n - decimal(millis).len(), n) =~= decimal(millis));
}

/// A game is looked up by its identifier: the first that has it.
pub proof fn first_game_with_the_id_is_found(games: Seq<GameView>, id: Seq<char>, i: int)
    ensures
        0 <= i < games.len() && games[i].id == id && (forall|j: int|
            0 <= j < i ==> (#[trigger] games[j]).id != id) ==> game_with_id(games, id) == Some(
            games[i],
        ),
        (forall|j: int| 0 <= j < games.len() ==> (#[trigger] games[j]).id != id) ==> game_with_id(
            games,
            id,
        ) is None,
    decreases games.len(),
{
    if games.len() > 0 && games[0].id != id {
        let rest = games.skip(1);
        first_game_with_the_id_is_found(rest, id, i - 1);
        assert(forall|j: int| 0 <= j < rest.len() ==> #[trigger] rest[j] == games[j + 1]);
    }
}

/// Each game's data directory lies in its root, and its mods are kept where its
/// own settings say; nothing else of a game changes.
pub proof fn games_get_their_directories(c: AppConfigView, i: int)
    requires
        0 <= i < c.games.len(),
        c.games[i].root_path.len() > 0,
        c.games[i].root_path.last() != '/',
    ensures
        ({
            let g = c.games[i];
            let after = with_all_dirs(c).games[i];
            &&& with_all_dirs(c).games.len() == c.games.len()
            &&& after.data_path == g.root_path + seq!['/', 'D', 'a', 't', 'a']
            &&& c.game_settings.contains_key(g.id) ==> after.mods_base_dir
                == c.game_settings[g.id].app_data_dir
            &&& !c.game_settings.contains_key(g.id) ==> after.mods_base_dir is None
            &&& (GameView {
                data_path: g.data_path,
                mods_base_dir: g.mods_base_dir,
                ..after
            }) == g
        }),
{
    reveal_strlit("Data");
    let g = c.games[i];
    assert(joined(g.root_path, "Data"@) =~= g.root_path + seq!['/', 'D', 'a', 't', 'a']);
}

/// A game's downloads lie in a directory of its own below `downloads`, in the
/// directory of its settings if they name one, else in the user's.
pub proof fn downloads_lie_below_the_games_directory(
    c: AppConfigView,
    id: Seq<char>,
    base: Seq<char>,
)
    requires
        id.len() > 0,
        trimmed(id) == id,
        id[0] != '/',
        base.len() > 0,
        base.last() != '/',
        c.game_settings.contains_key(id),
    ensures
        c.game_settings[id].app_data_dir == Some(base) ==> downloads_of(c, Some(id), None) == base
            + seq!['/', 'd', 'o', 'w', 'n', 'l', 'o', 'a', 'd', 's', '/'] + id,
        c.game_settings[id].app_data_dir is None ==> downloads_of(c, Some(id), Some(base)) == base
            + seq!['/', 'l', 'i', 'n', 'k', 'm', 'm'] + seq![
            '/', 'd', 'o', 'w', 'n', 'l', 'o', 'a', 'd', 's', '/',
        ] + id,
        downloads_of(c, None, Some(base)) == base + seq!['/', 'l', 'i', 'n', 'k', 'm', 'm'] + seq![
            '/', 'd', 'o', 'w', 'n', 'l', 'o', 'a', 'd', 's',
        ],
{
    reveal_strlit("downloads");
    reveal_strlit("linkmm");
    let d = seq!['/', 'd', 'o', 'w', 'n', 'l', 'o', 'a', 'd', 's'];
    assert(joined(base, "downloads"@) =~= base + d);
    assert(joined(base + d, id) =~= base + seq![
        '/', 'd', 'o', 'w', 'n', 'l', 'o', 'a', 'd', 's', '/',
    ] + id);
    let own = base + seq!['/', 'l', 'i', 'n', 'k', 'm', 'm'];
    assert(joined(base, "linkmm"@) =~= own);
    assert(joined(own, "downloads"@) =~= own + d);
    assert(joined(own + d, id) =~= own + seq![
        '/', 'd', 'o', 'w', 'n', 'l', 'o', 'a', 'd', 's', '/',
    ] + id);
}

/// Settings from before each game had its own are handed to every game: where
/// its data is kept, the archives that were installed, the profiles, or the
/// first profile where there was none, and the active one.
pub proof fn migration_hands_on_the_shared_settings(c: AppConfigView, i: int)
    requires
        0 <= i < c.games.len(),
        c.game_settings == Map::<Seq<char>, GameSettingsView>::empty(),
    ensures
        ({
            let after = migrated(c);
            let s = after.game_settings[c.games[i].id];
            &&& after.game_settings.contains_key(c.games[i].id)
            &&& s.app_data_dir == c.app_data_dir
            &&& s.installed_archives == c.installed_archives
            &&& c.profiles.len() > 0 ==> s.profiles == c.profiles
            &&& c.profiles.len() == 0 ==> s.profiles.len() == 1 && s.profiles[0].id == "default"@
            &&& c.active_profile_id.len() > 0 ==> s.active_profile_id == c.active_profile_id
            &&& c.active_profile_id.len() == 0 ==> s.active_profile_id == "default"@
            &&& s.steam_redirect_exe is None
            &&& (AppConfigView { game_settings: c.game_settings, ..after }) == c
        }),
{
    migration_reaches_every_game(c, i);
}

} // verus!
