//! The games that are supported, and the instances that are managed.
use vstd::prelude::*;

use crate::number::{decimal, decimal_string};
use crate::paths::{join, joined};
use crate::table::Table;
use crate::text::{concat2, is_among, is_listed, owned, same};

verus! {

// ── Kinds of games ──────────────────────────────────────────────────────────

/// A supported game.
#[derive(Clone, Copy, Debug, PartialEq, Eq, Structural)]
pub enum GameKind {
    SkyrimSE,
    SkyrimVR,
    SkyrimLE,
    Fallout4,
    Fallout4VR,
    Fallout3,
    FalloutNV,
    Oblivion,
    Morrowind,
    Starfield,
}

/// How an instance of a game is launched.
#[derive(Clone, Copy, Debug, PartialEq, Eq, Structural)]
pub enum GameLauncherSource {
    Steam,
    NonSteamUmu,
}

/// All supported games.
pub open spec fn all_kinds() -> Seq<GameKind> {
    seq![
        GameKind::SkyrimSE,
        GameKind::SkyrimVR,
        GameKind::SkyrimLE,
        GameKind::Fallout4,
        GameKind::Fallout4VR,
        GameKind::Fallout3,
        GameKind::FalloutNV,
        GameKind::Oblivion,
        GameKind::Morrowind,
        GameKind::Starfield,
    ]
}

/// For each game, the name of the game as it is shown.
pub open spec fn display_name_of(kind: GameKind) -> Seq<char> {
    match kind {
        GameKind::SkyrimSE => "The Elder Scrolls V: Skyrim Special Edition"@,
        GameKind::SkyrimVR => "The Elder Scrolls V: Skyrim VR"@,
        GameKind::SkyrimLE => "The Elder Scrolls V: Skyrim"@,
        GameKind::Fallout4 => "Fallout 4"@,
        GameKind::Fallout4VR => "Fallout 4 VR"@,
        GameKind::Fallout3 => "Fallout 3"@,
        GameKind::FalloutNV => "Fallout: New Vegas"@,
        GameKind::Oblivion => "The Elder Scrolls IV: Oblivion"@,
        GameKind::Morrowind => "The Elder Scrolls III: Morrowind"@,
        GameKind::Starfield => "Starfield"@,
    }
}

/// For each game, the identifier of the game.
pub open spec fn id_of(kind: GameKind) -> Seq<char> {
    match kind {
        GameKind::SkyrimSE => "skyrim_se"@,
        GameKind::SkyrimVR => "skyrim_vr"@,
        GameKind::SkyrimLE => "skyrim_le"@,
        GameKind::Fallout4 => "fallout4"@,
        GameKind::Fallout4VR => "fallout4_vr"@,
        GameKind::Fallout3 => "fallout3"@,
        GameKind::FalloutNV => "fallout_nv"@,
        GameKind::Oblivion => "oblivion"@,
        GameKind::Morrowind => "morrowind"@,
        GameKind::Starfield => "starfield"@,
    }
}

/// For each game, the domain of the game on Nexus Mods.
pub open spec fn nexus_id_of(kind: GameKind) -> Seq<char> {
    match kind {
        GameKind::SkyrimSE => "skyrimspecialedition"@,
        GameKind::SkyrimVR => "skyrimspecialedition"@,
        GameKind::SkyrimLE => "skyrim"@,
        GameKind::Fallout4 => "fallout4"@,
        GameKind::Fallout4VR => "fallout4"@,
        GameKind::Fallout3 => "fallout3"@,
        GameKind::FalloutNV => "newvegas"@,
        GameKind::Oblivion => "oblivion"@,
        GameKind::Morrowind => "morrowind"@,
        GameKind::Starfield => "starfield"@,
    }
}

/// For each game, the directory below the local application data
/// in which the game keeps its `plugins.txt`.
pub open spec fn app_data_folder_of(kind: GameKind) -> Seq<char> {
    match kind {
        GameKind::SkyrimSE => "Skyrim Special Edition"@,
        GameKind::SkyrimVR => "Skyrim VR"@,
        GameKind::SkyrimLE => "Skyrim"@,
        GameKind::Fallout4 => "Fallout4"@,
        GameKind::Fallout4VR => "Fallout4VR"@,
        GameKind::Fallout3 => "Fallout3"@,
        GameKind::FalloutNV => "FalloutNV"@,
        GameKind::Oblivion => "Oblivion"@,
        GameKind::Morrowind => "Morrowind"@,
        GameKind::Starfield => "Starfield"@,
    }
}

/// The Steam application under which a game is launched.
pub open spec fn primary_app_id(kind: GameKind) -> u32 {
    match kind {
        GameKind::SkyrimSE => 489830,
        GameKind::SkyrimVR => 611670,
        GameKind::SkyrimLE => 72850,
        GameKind::Fallout4 => 377160,
        GameKind::Fallout4VR => 611660,
        GameKind::Fallout3 => 22300,
        GameKind::FalloutNV => 22380,
        GameKind::Oblivion => 22330,
        GameKind::Morrowind => 22320,
        GameKind::Starfield => 1716740,
    }
}

/// The Steam applications that are recognised as a game, the primary one first.
/// Application 22490 is a regional edition of Fallout: New Vegas.
pub open spec fn app_ids_of(kind: GameKind) -> Seq<u32> {
    match kind {
        GameKind::SkyrimSE => seq![489830u32],
        GameKind::SkyrimVR => seq![611670u32],
        GameKind::SkyrimLE => seq![72850u32],
        GameKind::Fallout4 => seq![377160u32],
        GameKind::Fallout4VR => seq![611660u32],
        GameKind::Fallout3 => seq![22300u32],
        GameKind::FalloutNV => seq![22380u32, 22490],
        GameKind::Oblivion => seq![22330u32],
        GameKind::Morrowind => seq![22320u32],
        GameKind::Starfield => seq![1716740u32],
    }
}

/// The master plugins that come with a game, in load order.
pub open spec fn masters_of(kind: GameKind) -> Seq<Seq<char>> {
    match kind {
        GameKind::SkyrimSE => seq![
            "Skyrim.esm"@,
            "Update.esm"@,
            "Dawnguard.esm"@,
            "HearthFires.esm"@,
            "Dragonborn.esm"@,
        ],
        GameKind::SkyrimVR => seq![
            "Skyrim.esm"@,
            "Update.esm"@,
            "Dawnguard.esm"@,
            "HearthFires.esm"@,
            "Dragonborn.esm"@,
        ],
        GameKind::SkyrimLE => seq![
            "Skyrim.esm"@,
            "Update.esm"@,
            "Dawnguard.esm"@,
            "HearthFires.esm"@,
            "Dragonborn.esm"@,
        ],
        GameKind::Fallout4 => seq![
            "Fallout4.esm"@,
            "DLCRobot.esm"@,
            "DLCworkshop01.esm"@,
            "DLCCoast.esm"@,
            "DLCworkshop02.esm"@,
            "DLCworkshop03.esm"@,
            "DLCNukaWorld.esm"@,
        ],
        GameKind::Fallout4VR => seq![
            "Fallout4.esm"@,
            "DLCRobot.esm"@,
            "DLCworkshop01.esm"@,
            "DLCCoast.esm"@,
            "DLCworkshop02.esm"@,
            "DLCworkshop03.esm"@,
            "DLCNukaWorld.esm"@,
        ],
        GameKind::Fallout3 => seq!["Fallout3.esm"@],
        GameKind::FalloutNV => seq![
            "FalloutNV.esm"@,
            "DeadMoney.esm"@,
            "HonestHearts.esm"@,
            "OldWorldBlues.esm"@,
            "LonesomeRoad.esm"@,
            "GunRunnersArsenal.esm"@,
            "CaravanPack.esm"@,
            "ClassicPack.esm"@,
            "MercenaryPack.esm"@,
            "TribalPack.esm"@,
        ],
        GameKind::Oblivion => seq!["Oblivion.esm"@],
        GameKind::Morrowind => seq!["Morrowind.esm"@, "Tribunal.esm"@, "Bloodmoon.esm"@],
        GameKind::Starfield => seq!["Starfield.esm"@],
    }
}

/// The names of a game's executables and of its common loaders.
pub open spec fn executables_of(kind: GameKind) -> Seq<Seq<char>> {
    match kind {
        GameKind::SkyrimSE => seq!["SkyrimSE.exe"@, "SkyrimSELauncher.exe"@, "skse64_loader.exe"@],
        GameKind::SkyrimVR => seq!["SkyrimVR.exe"@, "sksevr_loader.exe"@],
        GameKind::SkyrimLE => seq!["TESV.exe"@, "SkyrimLauncher.exe"@, "skse_loader.exe"@],
        GameKind::Fallout4 => seq!["Fallout4.exe"@, "Fallout4Launcher.exe"@, "f4se_loader.exe"@],
        GameKind::Fallout4VR => seq!["Fallout4VR.exe"@, "f4sevr_loader.exe"@],
        GameKind::Fallout3 => seq!["Fallout3.exe"@, "FalloutLauncher.exe"@, "fose_loader.exe"@],
        GameKind::FalloutNV => seq![
            "FalloutNV.exe"@,
            "FalloutNVLauncher.exe"@,
            "nvse_loader.exe"@,
            "xnvse_loader.exe"@,
        ],
        GameKind::Oblivion => seq!["Oblivion.exe"@, "OblivionLauncher.exe"@, "obse_loader.exe"@],
        GameKind::Morrowind => seq!["Morrowind.exe"@, "Morrowind Launcher.exe"@, "MWSE.exe"@],
        GameKind::Starfield => seq!["Starfield.exe"@, "sfse_loader.exe"@],
    }
}

/// The executables that a Steam game may be redirected to.
pub open spec fn redirect_candidates(kind: GameKind) -> Seq<Seq<char>> {
    match kind {
        GameKind::SkyrimSE => seq![
            "SkyrimSELauncher.exe"@,
            "SkyrimSE.exe"@,
            "skse64_loader.exe"@,
        ],
        _ => Seq::empty(),
    }
}

impl GameKind {
    /// Whether the game can be launched through a redirector in its Steam
    /// launch options.
    pub fn is_phase1_steam_redirector_target(&self) -> (r: bool)
        ensures
            r == (*self == GameKind::SkyrimSE),
    {
        matches!(self, GameKind::SkyrimSE)
    }

    /// The name of the game as it is shown.
    pub fn display_name(&self) -> (r: &'static str)
        ensures
            r@ == display_name_of(*self),
    {
        match self {
            GameKind::SkyrimSE => "The Elder Scrolls V: Skyrim Special Edition",
            GameKind::SkyrimVR => "The Elder Scrolls V: Skyrim VR",
            GameKind::SkyrimLE => "The Elder Scrolls V: Skyrim",
            GameKind::Fallout4 => "Fallout 4",
            GameKind::Fallout4VR => "Fallout 4 VR",
            GameKind::Fallout3 => "Fallout 3",
            GameKind::FalloutNV => "Fallout: New Vegas",
            GameKind::Oblivion => "The Elder Scrolls IV: Oblivion",
            GameKind::Morrowind => "The Elder Scrolls III: Morrowind",
            GameKind::Starfield => "Starfield",
        }
    }

    /// The identifier of the game.
    pub fn id_str(&self) -> (r: &'static str)
        ensures
            r@ == id_of(*self),
    {
        match self {
            GameKind::SkyrimSE => "skyrim_se",
            GameKind::SkyrimVR => "skyrim_vr",
            GameKind::SkyrimLE => "skyrim_le",
            GameKind::Fallout4 => "fallout4",
            GameKind::Fallout4VR => "fallout4_vr",
            GameKind::Fallout3 => "fallout3",
            GameKind::FalloutNV => "fallout_nv",
            GameKind::Oblivion => "oblivion",
            GameKind::Morrowind => "morrowind",
            GameKind::Starfield => "starfield",
        }
    }

    /// The domain of the game on Nexus Mods.
    pub fn nexus_game_id(&self) -> (r: &'static str)
        ensures
            r@ == nexus_id_of(*self),
    {
        match self {
            GameKind::SkyrimSE => "skyrimspecialedition",
            GameKind::SkyrimVR => "skyrimspecialedition",
            GameKind::SkyrimLE => "skyrim",
            GameKind::Fallout4 => "fallout4",
            GameKind::Fallout4VR => "fallout4",
            GameKind::Fallout3 => "fallout3",
            GameKind::FalloutNV => "newvegas",
            GameKind::Oblivion => "oblivion",
            GameKind::Morrowind => "morrowind",
            GameKind::Starfield => "starfield",
        }
    }

    /// The directory below the local application data in which the game keeps
    /// its `plugins.txt`.
    pub fn local_app_data_folder(&self) -> (r: &'static str)
        ensures
            r@ == app_data_folder_of(*self),
    {
        match self {
            GameKind::SkyrimSE => "Skyrim Special Edition",
            GameKind::SkyrimVR => "Skyrim VR",
            GameKind::SkyrimLE => "Skyrim",
            GameKind::Fallout4 => "Fallout4",
            GameKind::Fallout4VR => "Fallout4VR",
            GameKind::Fallout3 => "Fallout3",
            GameKind::FalloutNV => "FalloutNV",
            GameKind::Oblivion => "Oblivion",
            GameKind::Morrowind => "Morrowind",
            GameKind::Starfield => "Starfield",
        }
    }

    /// The Steam application under which the game is launched.
    pub fn primary_steam_app_id(&self) -> (r: Option<u32>)
        ensures
            r == Some(primary_app_id(*self)),
    {
        Some(
            match self {
                GameKind::SkyrimSE => 489830,
                GameKind::SkyrimVR => 611670,
                GameKind::SkyrimLE => 72850,
                GameKind::Fallout4 => 377160,
                GameKind::Fallout4VR => 611660,
                GameKind::Fallout3 => 22300,
                GameKind::FalloutNV => 22380,
                GameKind::Oblivion => 22330,
                GameKind::Morrowind => 22320,
                GameKind::Starfield => 1716740,
            },
        )
    }

    /// The Steam applications that are recognised as the game, the primary one
    /// first.
    pub fn steam_app_ids(&self) -> (r: Vec<u32>)
        ensures
            r@ == app_ids_of(*self),
    {
        let r: Vec<u32> = match self {
            GameKind::SkyrimSE => vec![489830],
            GameKind::SkyrimVR => vec![611670],
            GameKind::SkyrimLE => vec![72850],
            GameKind::Fallout4 => vec![377160],
            GameKind::Fallout4VR => vec![611660],
            GameKind::Fallout3 => vec![22300],
            GameKind::FalloutNV => vec![22380, 22490],
            GameKind::Oblivion => vec![22330],
            GameKind::Morrowind => vec![22320],
            GameKind::Starfield => vec![1716740],
        };
        assert(r@ =~= app_ids_of(*self));
        r
    }

    /// The Steam application under which the game is launched.
    pub fn steam_app_id(&self) -> (r: Option<u32>)
        ensures
            r == Some(primary_app_id(*self)),
    {
        self.primary_steam_app_id()
    }

    /// The game that a Steam application is recognised as.
    pub fn from_steam_app_id(app_id: u32) -> (r: Option<GameKind>)
        ensures
            match r {
                Some(kind) => app_ids_of(kind).contains(app_id),
                None => forall|kind: GameKind| !(#[trigger] app_ids_of(kind)).contains(app_id),
            },
    {
        let kinds = GameKind::all();
        for i in 0..kinds.len()
            invariant
                kinds@ == all_kinds(),
                forall|j: int|
                    0 <= j < i ==> !app_ids_of(#[trigger] all_kinds()[j]).contains(app_id),
        {
            let kind = kinds[i];
            let ids = kind.steam_app_ids();
            for k in 0..ids.len()
                invariant
                    ids@ == app_ids_of(kind),
                    forall|j: int| 0 <= j < k ==> #[trigger] ids@[j] != app_id,
            {
                if ids[k] == app_id {
                    assert(ids@[k as int] == app_id);
                    return Some(kind);
                }
            }
            assert(!ids@.contains(app_id));
        }
        assert forall|kind: GameKind| !(#[trigger] app_ids_of(kind)).contains(app_id) by {
            let j = kind_is_listed(kind);
            assert(all_kinds()[j] == kind);
        }
        None
    }

    /// The directory of the game's data below its root.
    pub fn default_data_subdir(&self) -> (r: &'static str)
        ensures
            r@ == "Data"@,
    {
        "Data"
    }

    /// Whether the game keeps its load order in a `plugins.txt`.
    ///
    /// Morrowind keeps it in `Morrowind.ini` instead.
    pub fn has_plugins_txt(&self) -> (r: bool)
        ensures
            r == (*self != GameKind::Morrowind),
    {
        !matches!(self, GameKind::Morrowind)
    }

    /// All supported games.
    pub fn all() -> (r: Vec<GameKind>)
        ensures
            r@ == all_kinds(),
    {
        let r: Vec<GameKind> = vec![
            GameKind::SkyrimSE,
            GameKind::SkyrimVR,
            GameKind::SkyrimLE,
            GameKind::Fallout4,
            GameKind::Fallout4VR,
            GameKind::Fallout3,
            GameKind::FalloutNV,
            GameKind::Oblivion,
            GameKind::Morrowind,
            GameKind::Starfield,
        ];
        assert(r@ =~= all_kinds());
        r
    }

    /// The master plugins that come with the game, in load order.
    pub fn vanilla_masters(&self) -> (r: Vec<&'static str>)
        ensures
            r.deep_view() == masters_of(*self),
    {
        let r: Vec<&'static str> = match self {
            GameKind::SkyrimSE => vec![
                "Skyrim.esm",
                "Update.esm",
                "Dawnguard.esm",
                "HearthFires.esm",
                "Dragonborn.esm",
            ],
            GameKind::SkyrimVR => vec![
                "Skyrim.esm",
                "Update.esm",
                "Dawnguard.esm",
                "HearthFires.esm",
                "Dragonborn.esm",
            ],
            GameKind::SkyrimLE => vec![
                "Skyrim.esm",
                "Update.esm",
                "Dawnguard.esm",
                "HearthFires.esm",
                "Dragonborn.esm",
            ],
            GameKind::Fallout4 => vec![
                "Fallout4.esm",
                "DLCRobot.esm",
                "DLCworkshop01.esm",
                "DLCCoast.esm",
                "DLCworkshop02.esm",
                "DLCworkshop03.esm",
                "DLCNukaWorld.esm",
            ],
            GameKind::Fallout4VR => vec![
                "Fallout4.esm",
                "DLCRobot.esm",
                "DLCworkshop01.esm",
                "DLCCoast.esm",
                "DLCworkshop02.esm",
                "DLCworkshop03.esm",
                "DLCNukaWorld.esm",
            ],
            GameKind::Fallout3 => vec!["Fallout3.esm"],
            GameKind::FalloutNV => vec![
                "FalloutNV.esm",
                "DeadMoney.esm",
                "HonestHearts.esm",
                "OldWorldBlues.esm",
                "LonesomeRoad.esm",
                "GunRunnersArsenal.esm",
                "CaravanPack.esm",
                "ClassicPack.esm",
                "MercenaryPack.esm",
                "TribalPack.esm",
            ],
            GameKind::Oblivion => vec!["Oblivion.esm"],
            GameKind::Morrowind => vec!["Morrowind.esm", "Tribunal.esm", "Bloodmoon.esm"],
            GameKind::Starfield => vec!["Starfield.esm"],
        };
        assert(r.deep_view() =~= masters_of(*self));
        r
    }

    /// The names of the game's executables and of its common loaders.
    pub fn expected_executable_names(&self) -> (r: Vec<&'static str>)
        ensures
            r.deep_view() == executables_of(*self),
    {
        let r: Vec<&'static str> = match self {
            GameKind::SkyrimSE => vec![
                "SkyrimSE.exe",
                "SkyrimSELauncher.exe",
                "skse64_loader.exe",
            ],
            GameKind::SkyrimVR => vec!["SkyrimVR.exe", "sksevr_loader.exe"],
            GameKind::SkyrimLE => vec!["TESV.exe", "SkyrimLauncher.exe", "skse_loader.exe"],
            GameKind::Fallout4 => vec!["Fallout4.exe", "Fallout4Launcher.exe", "f4se_loader.exe"],
            GameKind::Fallout4VR => vec!["Fallout4VR.exe", "f4sevr_loader.exe"],
            GameKind::Fallout3 => vec!["Fallout3.exe", "FalloutLauncher.exe", "fose_loader.exe"],
            GameKind::FalloutNV => vec![
                "FalloutNV.exe",
                "FalloutNVLauncher.exe",
                "nvse_loader.exe",
                "xnvse_loader.exe",
            ],
            GameKind::Oblivion => vec!["Oblivion.exe", "OblivionLauncher.exe", "obse_loader.exe"],
            GameKind::Morrowind => vec!["Morrowind.exe", "Morrowind Launcher.exe", "MWSE.exe"],
            GameKind::Starfield => vec!["Starfield.exe", "sfse_loader.exe"],
        };
        assert(r.deep_view() =~= executables_of(*self));
        r
    }

    /// The identifier under which umu-launcher knows the game.
    pub fn umu_game_id(&self) -> (r: String)
        ensures
            r@ == "umu-"@ + decimal(primary_app_id(*self) as nat),
    {
        let id: u32 = match self.primary_steam_app_id() {
            Some(id) => id,
            None => 0,
        };
        concat2("umu-", decimal_string(id as u128).as_str())
    }

    /// The game that an executable belongs to.
    pub fn from_executable(exe_name: &str) -> (r: Option<GameKind>)
        ensures
            match r {
                Some(kind) => executables_of(kind).contains(exe_name@),
                None => forall|kind: GameKind|
                    !(#[trigger] executables_of(kind)).contains(exe_name@),
            },
    {
        let kinds = GameKind::all();
        for i in 0..kinds.len()
            invariant
                kinds@ == all_kinds(),
                forall|j: int|
                    0 <= j < i ==> !executables_of(#[trigger] all_kinds()[j]).contains(exe_name@),
        {
            let kind = kinds[i];
            if is_among(&kind.expected_executable_names(), exe_name) {
                return Some(kind);
            }
        }
        assert forall|kind: GameKind| !(#[trigger] executables_of(kind)).contains(exe_name@) by {
            let j = kind_is_listed(kind);
            assert(all_kinds()[j] == kind);
        }
        None
    }

    /// The executables that the Steam game may be redirected to.
    pub fn phase1_steam_launch_candidates(&self) -> (r: Vec<&'static str>)
        ensures
            r.deep_view() == redirect_candidates(*self),
    {
        let r: Vec<&'static str> = match self {
            GameKind::SkyrimSE => vec![
                "SkyrimSELauncher.exe",
                "SkyrimSE.exe",
                "skse64_loader.exe",
            ],
            _ => Vec::new(),
        };
        assert(r.deep_view() =~= redirect_candidates(*self));
        r
    }

    /// What a redirected executable is called when it is offered.
    pub fn phase1_steam_target_label(&self, exe_name: &str) -> (r: &'static str)
        ensures
            r@ == (if *self == GameKind::SkyrimSE && exe_name@ == "SkyrimSELauncher.exe"@ {
                "Skyrim launcher"@
            } else if *self == GameKind::SkyrimSE && exe_name@ == "SkyrimSE.exe"@ {
                "SkyrimSE.exe"@
            } else if *self == GameKind::SkyrimSE && exe_name@ == "skse64_loader.exe"@ {
                "SKSE"@
            } else {
                "Custom target"@
            }),
    {
        let skyrim = matches!(self, GameKind::SkyrimSE);
        if skyrim && same(exe_name, "SkyrimSELauncher.exe") {
            "Skyrim launcher"
        } else if skyrim && same(exe_name, "SkyrimSE.exe") {
            "SkyrimSE.exe"
        } else if skyrim && same(exe_name, "skse64_loader.exe") {
            "SKSE"
        } else {
            "Custom target"
        }
    }
}

/// Every game is listed; the result is its place.
pub proof fn kind_is_listed(kind: GameKind) -> (i: int)
    ensures
        0 <= i < all_kinds().len(),
        all_kinds()[i] == kind,
{
    match kind {
        GameKind::SkyrimSE => 0,
        GameKind::SkyrimVR => 1,
        GameKind::SkyrimLE => 2,
        GameKind::Fallout4 => 3,
        GameKind::Fallout4VR => 4,
        GameKind::Fallout3 => 5,
        GameKind::FalloutNV => 6,
        GameKind::Oblivion => 7,
        GameKind::Morrowind => 8,
        GameKind::Starfield => 9,
    }
}

/// No Steam application is recognised as two games, and the primary
/// application of each game is recognised as that game.
pub proof fn app_ids_identify_kinds(a: GameKind, b: GameKind, id: u32)
    requires
        app_ids_of(a).contains(id),
        app_ids_of(b).contains(id),
    ensures
        a == b,
{
    let i = choose|i: int| 0 <= i < app_ids_of(a).len() && app_ids_of(a)[i] == id;
    let j = choose|j: int| 0 <= j < app_ids_of(b).len() && app_ids_of(b)[j] == id;
    assert(app_ids_of(a)[i] == app_ids_of(b)[j]);
}

/// The primary Steam application of a game is the first that is recognised as
/// it.
pub proof fn primary_app_id_comes_first(kind: GameKind)
    ensures
        app_ids_of(kind).len() > 0,
        app_ids_of(kind)[0] == primary_app_id(kind),
{
}

/// What tells an executable name apart from those of other games: its length
/// and three of its characters.
spec fn marks(name: Seq<char>) -> (nat, char, char, char) {
    (name.len(), name[1], name[4], name[7])
}

/// The game whose executable has the given marks.
spec fn marked_kind(m: (nat, char, char, char)) -> GameKind {
    if m == (12nat, 'k', 'i', 'E') {
        GameKind::SkyrimSE
    } else if m == (20nat, 'k', 'i', 'E') {
        GameKind::SkyrimSE
    } else if m == (17nat, 'k', '6', 'l') {
        GameKind::SkyrimSE
    } else if m == (12nat, 'k', 'i', 'R') {
        GameKind::SkyrimVR
    } else if m == (17nat, 'k', 'v', 'l') {
        GameKind::SkyrimVR
    } else if m == (8nat, 'E', '.', 'e') {
        GameKind::SkyrimLE
    } else if m == (18nat, 'k', 'i', 'a') {
        GameKind::SkyrimLE
    } else if m == (15nat, 'k', '_', 'a') {
        GameKind::SkyrimLE
    } else if m == (12nat, 'a', 'o', '4') {
        GameKind::Fallout4
    } else if m == (20nat, 'a', 'o', '4') {
        GameKind::Fallout4
    } else if m == (15nat, '4', '_', 'a') {
        GameKind::Fallout4
    } else if m == (14nat, 'a', 'o', '4') {
        GameKind::Fallout4VR
    } else if m == (17nat, '4', 'v', 'l') {
        GameKind::Fallout4VR
    } else if m == (12nat, 'a', 'o', '3') {
        GameKind::Fallout3
    } else if m == (19nat, 'a', 'o', 'L') {
        GameKind::Fallout3
    } else if m == (15nat, 'o', '_', 'a') {
        GameKind::Fallout3
    } else if m == (13nat, 'a', 'o', 'N') {
        GameKind::FalloutNV
    } else if m == (21nat, 'a', 'o', 'N') {
        GameKind::FalloutNV
    } else if m == (15nat, 'v', '_', 'a') {
        GameKind::FalloutNV
    } else if m == (16nat, 'n', 'e', 'o') {
        GameKind::FalloutNV
    } else if m == (12nat, 'b', 'v', 'n') {
        GameKind::Oblivion
    } else if m == (20nat, 'b', 'v', 'n') {
        GameKind::Oblivion
    } else if m == (15nat, 'b', '_', 'a') {
        GameKind::Oblivion
    } else if m == (13nat, 'o', 'o', 'n') {
        GameKind::Morrowind
    } else if m == (22nat, 'o', 'o', 'n') {
        GameKind::Morrowind
    } else if m == (8nat, 'W', '.', 'e') {
        GameKind::Morrowind
    } else {
        GameKind::Starfield
    }
}

proof fn lemma_marks(kind: GameKind, i: int)
    requires
        0 <= i < executables_of(kind).len(),
    ensures
        marked_kind(marks(executables_of(kind)[i])) == kind,
{
    match kind {
        GameKind::SkyrimSE => {
            reveal_strlit("SkyrimSE.exe");
            reveal_strlit("SkyrimSELauncher.exe");
            reveal_strlit("skse64_loader.exe");
        },
        GameKind::SkyrimVR => {
            reveal_strlit("SkyrimVR.exe");
            reveal_strlit("sksevr_loader.exe");
        },
        GameKind::SkyrimLE => {
            reveal_strlit("TESV.exe");
            reveal_strlit("SkyrimLauncher.exe");
            reveal_strlit("skse_loader.exe");
        },
        GameKind::Fallout4 => {
            reveal_strlit("Fallout4.exe");
            reveal_strlit("Fallout4Launcher.exe");
            reveal_strlit("f4se_loader.exe");
        },
        GameKind::Fallout4VR => {
            reveal_strlit("Fallout4VR.exe");
            reveal_strlit("f4sevr_loader.exe");
        },
        GameKind::Fallout3 => {
            reveal_strlit("Fallout3.exe");
            reveal_strlit("FalloutLauncher.exe");
            reveal_strlit("fose_loader.exe");
        },
        GameKind::FalloutNV => {
            reveal_strlit("FalloutNV.exe");
            reveal_strlit("FalloutNVLauncher.exe");
            reveal_strlit("nvse_loader.exe");
            reveal_strlit("xnvse_loader.exe");
        },
        GameKind::Oblivion => {
            reveal_strlit("Oblivion.exe");
            reveal_strlit("OblivionLauncher.exe");
            reveal_strlit("obse_loader.exe");
        },
        GameKind::Morrowind => {
            reveal_strlit("Morrowind.exe");
            reveal_strlit("Morrowind Launcher.exe");
            reveal_strlit("MWSE.exe");
        },
        GameKind::Starfield => {
            reveal_strlit("Starfield.exe");
            reveal_strlit("sfse_loader.exe");
        },
    }
}

/// No executable belongs to two games.
pub proof fn executables_identify_kinds(a: GameKind, b: GameKind, name: Seq<char>)
    requires
        executables_of(a).contains(name),
        executables_of(b).contains(name),
    ensures
        a == b,
{
    let i = choose|i: int| 0 <= i < executables_of(a).len() && executables_of(a)[i] == name;
    let j = choose|j: int| 0 <= j < executables_of(b).len() && executables_of(b)[j] == name;
    lemma_marks(a, i);
    lemma_marks(b, j);
}

// ── Managed instances ───────────────────────────────────────────────────────

/// How a game is launched through umu-launcher.
#[derive(Debug)]
pub struct UmuGameConfig {
    /// The Windows executable of the game.
    pub exe_path: String,
    /// The Wine prefix; if there is none, umu uses its own.
    pub prefix_path: Option<String>,
    /// The Proton installation; if there is none, umu fetches one.
    pub proton_path: Option<String>,
}

/// A [`UmuGameConfig`] as a mathematical value.
#[verifier::ext_equal]
pub ghost struct UmuGameConfigView {
    pub exe_path: Seq<char>,
    pub prefix_path: Option<Seq<char>>,
    pub proton_path: Option<Seq<char>>,
}

impl DeepView for UmuGameConfig {
    type V = UmuGameConfigView;

    open spec fn deep_view(&self) -> UmuGameConfigView {
        UmuGameConfigView {
            exe_path: self.exe_path@,
            prefix_path: self.prefix_path.deep_view(),
            proton_path: self.proton_path.deep_view(),
        }
    }
}

impl Clone for UmuGameConfig {
    fn clone(&self) -> (r: Self)
        ensures
            r.deep_view() == self.deep_view(),
    {
        UmuGameConfig {
            exe_path: owned(self.exe_path.as_str()),
            prefix_path: copy_optional(&self.prefix_path),
            proton_path: copy_optional(&self.proton_path),
        }
    }
}

/// An instance of a game that is managed.
#[derive(Debug)]
pub struct Game {
    pub id: String,
    pub name: String,
    pub kind: GameKind,
    pub launcher_source: GameLauncherSource,
    /// The Steam application of this instance, which may be another edition
    /// than the primary one.
    pub steam_app_id: Option<u32>,
    pub root_path: String,
    pub data_path: String,
    /// Where mods are kept, if not in the local data directory of the user.
    pub mods_base_dir: Option<String>,
    /// How the instance is launched if it is not a Steam game.
    pub umu_config: Option<UmuGameConfig>,
}

/// A [`Game`] as a mathematical value.
#[verifier::ext_equal]
pub ghost struct GameView {
    pub id: Seq<char>,
    pub name: Seq<char>,
    pub kind: GameKind,
    pub launcher_source: GameLauncherSource,
    pub steam_app_id: Option<u32>,
    pub root_path: Seq<char>,
    pub data_path: Seq<char>,
    pub mods_base_dir: Option<Seq<char>>,
    pub umu_config: Option<UmuGameConfigView>,
}

impl DeepView for Game {
    type V = GameView;

    open spec fn deep_view(&self) -> GameView {
        GameView {
            id: self.id@,
            name: self.name@,
            kind: self.kind,
            launcher_source: self.launcher_source,
            steam_app_id: self.steam_app_id,
            root_path: self.root_path@,
            data_path: self.data_path@,
            mods_base_dir: self.mods_base_dir.deep_view(),
            umu_config: self.umu_config.deep_view(),
        }
    }
}

fn copy_optional(s: &Option<String>) -> (r: Option<String>)
    ensures
        r.deep_view() == s.deep_view(),
{
    match s {
        Some(s) => Some(owned(s.as_str())),
        None => None,
    }
}

impl Clone for Game {
    fn clone(&self) -> (r: Self)
        ensures
            r.deep_view() == self.deep_view(),
    {
        let umu_config = match &self.umu_config {
            Some(c) => Some(c.clone()),
            None => None,
        };
        Game {
            id: owned(self.id.as_str()),
            name: owned(self.name.as_str()),
            kind: self.kind,
            launcher_source: self.launcher_source,
            steam_app_id: self.steam_app_id,
            root_path: owned(self.root_path.as_str()),
            data_path: owned(self.data_path.as_str()),
            mods_base_dir: copy_optional(&self.mods_base_dir),
            umu_config,
        }
    }
}

/// A lowercase hexadecimal digit.
pub open spec fn is_lower_hex(c: char) -> bool {
    ('0' <= c && c <= '9') || ('a' <= c && c <= 'f')
}

/// The text is that of a random UUID: five groups of lowercase hexadecimal
/// digits, of which one tells the version and one the variant.
pub open spec fn is_random_uuid(s: Seq<char>) -> bool {
    &&& s.len() == 36
    &&& s[8] == '-' && s[13] == '-' && s[18] == '-' && s[23] == '-'
    &&& forall|i: int|
        0 <= i < 36 && i != 8 && i != 13 && i != 18 && i != 23 ==> is_lower_hex(#[trigger] s[i])
    &&& s[14] == '4'
    &&& (s[19] == '8' || s[19] == '9' || s[19] == 'a' || s[19] == 'b')
}

/// A random identifier, by `uuid::Uuid::new_v4` and its `to_string`.
///
/// The digits are random but for those that tell the version, 4, and the
/// variant; they are written in lowercase with hyphens between the groups.
#[verifier::external_body]
fn random_uuid() -> (r: String)
    ensures
        is_random_uuid(r@),
{
    uuid::Uuid::new_v4().to_string()
}

/// The local data directory of the user, by `dirs::data_local_dir`; where it
/// lies depends on the environment.  Bytes of its name that are not UTF-8 are
/// given as replacement characters.
#[verifier::external_body]
pub(crate) fn local_data_dir() -> (r: Option<String>) {
    dirs::data_local_dir().map(|p| p.to_string_lossy().into_owned())
}

/// The configuration directory of the user, by `dirs::config_dir`; where it
/// lies depends on the environment.  Bytes of its name that are not UTF-8 are
/// given as replacement characters.
#[verifier::external_body]
pub(crate) fn user_config_dir() -> (r: Option<String>) {
    dirs::config_dir().map(|p| p.to_string_lossy().into_owned())
}

/// A directory, or the current one if it is not known.
pub open spec fn or_current(dir: Option<Seq<char>>) -> Seq<char> {
    match dir {
        Some(d) => d,
        None => "."@,
    }
}

/// A Steam instance with the given identifier.
pub open spec fn steam_game(
    id: Seq<char>,
    kind: GameKind,
    root: Seq<char>,
    app_id: u32,
) -> GameView {
    GameView {
        id,
        name: display_name_of(kind),
        kind,
        launcher_source: GameLauncherSource::Steam,
        steam_app_id: Some(app_id),
        root_path: root,
        data_path: joined(root, "Data"@),
        mods_base_dir: None,
        umu_config: None,
    }
}

/// An instance outside Steam with the given identifier.
pub open spec fn umu_game(
    id: Seq<char>,
    kind: GameKind,
    root: Seq<char>,
    config: UmuGameConfigView,
) -> GameView {
    GameView {
        id,
        name: display_name_of(kind),
        kind,
        launcher_source: GameLauncherSource::NonSteamUmu,
        steam_app_id: None,
        root_path: root,
        data_path: joined(root, "Data"@),
        mods_base_dir: None,
        umu_config: Some(config),
    }
}

/// The mods of an instance, given the local data directory of the user.
pub open spec fn mods_dir_of(game: GameView, data_dir: Option<Seq<char>>) -> Seq<char> {
    match game.mods_base_dir {
        Some(base) => joined(joined(base, "mods"@), game.id),
        None => joined(joined(joined(or_current(data_dir), "linkmm"@), "mods"@), game.id),
    }
}

/// The configuration of an instance, given the configuration directory of the
/// user.
pub open spec fn config_dir_of(game: GameView, config_dir: Option<Seq<char>>) -> Seq<char> {
    joined(joined(or_current(config_dir), "linkmm"@), game.id)
}

/// The directory with the game's `plugins.txt` below the root of a Wine drive.
pub open spec fn app_data_below(prefix: Seq<char>, kind: GameKind) -> Seq<char> {
    joined(
        joined(
            joined(
                joined(joined(joined(prefix, "drive_c"@), "users"@), "steamuser"@),
                "AppData"@,
            ),
            "Local"@,
        ),
        app_data_folder_of(kind),
    )
}

fn app_data_dir(prefix: &str, kind: GameKind) -> (r: String)
    ensures
        r@ == app_data_below(prefix@, kind),
{
    let a = join(join(prefix, "drive_c").as_str(), "users");
    let b = join(join(a.as_str(), "steamuser").as_str(), "AppData");
    join(join(b.as_str(), "Local").as_str(), kind.local_app_data_folder())
}

/// The Wine prefix of an instance outside Steam.
pub open spec fn wine_prefix(config: UmuGameConfigView, default_prefix: Seq<char>) -> Seq<char> {
    match config.prefix_path {
        Some(p) => p,
        None => default_prefix,
    }
}

/// The directory with the `plugins.txt` of an instance.
pub open spec fn plugins_dir_of(
    game: GameView,
    default_prefix: Seq<char>,
    compatdata: Option<Seq<char>>,
    directories: Seq<Seq<char>>,
) -> Option<Seq<char>> {
    if game.kind == GameKind::Morrowind {
        None
    } else {
        match game.launcher_source {
            GameLauncherSource::NonSteamUmu => {
                let prefix = wine_prefix(game.umu_config->0, default_prefix);
                let native = app_data_below(prefix, game.kind);
                let nested = app_data_below(joined(prefix, "pfx"@), game.kind);
                if !directories.contains(native) && directories.contains(nested) {
                    Some(nested)
                } else {
                    Some(native)
                }
            },
            GameLauncherSource::Steam => match compatdata {
                Some(c) => Some(app_data_below(joined(c, "pfx"@), game.kind)),
                None => None,
            },
        }
    }
}

impl Game {
    /// An instance that is known by the identifier of its game.
    pub fn new(kind: GameKind, root_path: String) -> (r: Game)
        ensures
            r.deep_view() == steam_game(id_of(kind), kind, root_path@, primary_app_id(kind)),
    {
        let app_id: u32 = match kind.primary_steam_app_id() {
            Some(id) => id,
            None => 0,
        };
        Game::steam_instance(owned(kind.id_str()), kind, root_path, app_id)
    }

    /// A Steam instance with the given identifier.
    pub fn steam_instance(id: String, kind: GameKind, root_path: String, steam_app_id: u32) -> (r:
        Game)
        ensures
            r.deep_view() == steam_game(id@, kind, root_path@, steam_app_id),
    {
        let data_path = join(root_path.as_str(), kind.default_data_subdir());
        Game {
            id,
            name: owned(kind.display_name()),
            kind,
            launcher_source: GameLauncherSource::Steam,
            steam_app_id: Some(steam_app_id),
            root_path,
            data_path,
            mods_base_dir: None,
            umu_config: None,
        }
    }

    /// An instance outside Steam with the given identifier.
    pub fn umu_instance(
        id: String,
        kind: GameKind,
        root_path: String,
        umu_cfg: UmuGameConfig,
    ) -> (r: Game)
        ensures
            r.deep_view() == umu_game(id@, kind, root_path@, umu_cfg.deep_view()),
    {
        let data_path = join(root_path.as_str(), kind.default_data_subdir());
        Game {
            id,
            name: owned(kind.display_name()),
            kind,
            launcher_source: GameLauncherSource::NonSteamUmu,
            steam_app_id: None,
            root_path,
            data_path,
            mods_base_dir: None,
            umu_config: Some(umu_cfg),
        }
    }

    /// A Steam instance of the primary edition with a fresh identifier.
    pub fn new_steam(kind: GameKind, root_path: String) -> (r: Game)
        ensures
            r.deep_view() == steam_game(r.id@, kind, root_path@, primary_app_id(kind)),
            is_random_uuid(r.id@),
    {
        let app_id: u32 = match kind.primary_steam_app_id() {
            Some(id) => id,
            None => 0,
        };
        Game::new_steam_with_app_id(kind, root_path, app_id)
    }

    /// A Steam instance with a fresh identifier.
    pub fn new_steam_with_app_id(kind: GameKind, root_path: String, steam_app_id: u32) -> (r: Game)
        ensures
            r.deep_view() == steam_game(r.id@, kind, root_path@, steam_app_id),
            is_random_uuid(r.id@),
    {
        Game::steam_instance(random_uuid(), kind, root_path, steam_app_id)
    }

    /// An instance outside Steam with a fresh identifier.
    pub fn new_non_steam_umu(kind: GameKind, root_path: String, umu_cfg: UmuGameConfig) -> (r: Game)
        ensures
            r.deep_view() == umu_game(r.id@, kind, root_path@, umu_cfg.deep_view()),
            is_random_uuid(r.id@),
    {
        Game::umu_instance(random_uuid(), kind, root_path, umu_cfg)
    }

    /// The name of the instance with how it is launched.
    pub fn instance_label(&self) -> (r: String)
        ensures
            r@ == self.name@ + (match self.launcher_source {
                GameLauncherSource::Steam => " (Steam)"@,
                GameLauncherSource::NonSteamUmu => " (Non-Steam / UMU)"@,
            }),
    {
        match self.launcher_source {
            GameLauncherSource::Steam => concat2(self.name.as_str(), " (Steam)"),
            GameLauncherSource::NonSteamUmu => concat2(self.name.as_str(), " (Non-Steam / UMU)"),
        }
    }

    /// The Steam application of the instance: the one it was found under, or
    /// else the primary one.
    pub fn steam_instance_app_id(&self) -> (r: Option<u32>)
        ensures
            r == instance_app_id(self.deep_view()),
    {
        match self.launcher_source {
            GameLauncherSource::Steam => match self.steam_app_id {
                Some(id) => Some(id),
                None => self.kind.primary_steam_app_id(),
            },
            GameLauncherSource::NonSteamUmu => None,
        }
    }

    /// Where the mods of the instance are kept, given the local data directory
    /// of the user.
    pub fn mods_dir_in(&self, data_dir: Option<String>) -> (r: String)
        ensures
            r@ == mods_dir_of(self.deep_view(), data_dir.deep_view()),
    {
        match &self.mods_base_dir {
            Some(base) => join(join(base.as_str(), "mods").as_str(), self.id.as_str()),
            None => {
                let root = match data_dir {
                    Some(d) => d,
                    None => owned("."),
                };
                let mods = join(join(root.as_str(), "linkmm").as_str(), "mods");
                join(mods.as_str(), self.id.as_str())
            },
        }
    }

    /// Where the mods of the instance are kept.
    pub fn mods_dir(&self) -> (r: String)
        ensures
            exists|data_dir: Option<Seq<char>>|
                r@ == #[trigger] mods_dir_of(self.deep_view(), data_dir),
    {
        let data_dir = local_data_dir();
        let ghost root = data_dir.deep_view();
        let r = self.mods_dir_in(data_dir);
        assert(r@ == mods_dir_of(self.deep_view(), root));
        r
    }

    /// Where the configuration of the instance is kept, given the
    /// configuration directory of the user.
    pub fn config_dir_in(&self, config_dir: Option<String>) -> (r: String)
        ensures
            r@ == config_dir_of(self.deep_view(), config_dir.deep_view()),
    {
        let root = match config_dir {
            Some(d) => d,
            None => owned("."),
        };
        join(join(root.as_str(), "linkmm").as_str(), self.id.as_str())
    }

    /// Where the configuration of the instance is kept.
    pub fn config_dir(&self) -> (r: String)
        ensures
            exists|config_dir: Option<Seq<char>>|
                r@ == #[trigger] config_dir_of(self.deep_view(), config_dir),
    {
        let config_dir = user_config_dir();
        let ghost root = config_dir.deep_view();
        let r = self.config_dir_in(config_dir);
        assert(r@ == config_dir_of(self.deep_view(), root));
        r
    }

    /// Where a `plugins.txt` of an instance outside Steam may lie: in a prefix
    /// as umu lays it out, and in one as Steam does.
    pub fn plugins_txt_candidates(&self, default_prefix: &str) -> (r: Option<(String, String)>)
        ensures
            match r {
                Some((native, nested)) => self.umu_config is Some && ({
                    let prefix = wine_prefix(self.deep_view().umu_config->0, default_prefix@);
                    &&& native@ == app_data_below(prefix, self.kind)
                    &&& nested@ == app_data_below(joined(prefix, "pfx"@), self.kind)
                }),
                None => self.umu_config is None,
            },
    {
        match &self.umu_config {
            Some(umu) => {
                let prefix = match &umu.prefix_path {
                    Some(p) => owned(p.as_str()),
                    None => owned(default_prefix),
                };
                let native = app_data_dir(prefix.as_str(), self.kind);
                let nested = app_data_dir(join(prefix.as_str(), "pfx").as_str(), self.kind);
                Some((native, nested))
            },
            None => None,
        }
    }

    /// The directory with the `plugins.txt` of the instance, given the prefix
    /// that umu uses by default, the compatibility data of the Steam
    /// application, and which of [`Game::plugins_txt_candidates`] are
    /// directories.
    ///
    /// The directory need not exist yet: a prefix is laid out on first launch.
    pub fn plugins_txt_dir(
        &self,
        default_prefix: &str,
        compatdata: Option<String>,
        directories: &Vec<String>,
    ) -> (r: Option<String>)
        requires
            self.launcher_source == GameLauncherSource::NonSteamUmu && self.kind
                != GameKind::Morrowind ==> self.umu_config is Some,
        ensures
            r.deep_view() == plugins_dir_of(
                self.deep_view(),
                default_prefix@,
                compatdata.deep_view(),
                directories.deep_view(),
            ),
    {
        if !self.kind.has_plugins_txt() {
            return None;
        }
        match self.launcher_source {
            GameLauncherSource::NonSteamUmu => match self.plugins_txt_candidates(default_prefix) {
                Some((native, nested)) => {
                    if !is_listed(directories, native.as_str()) && is_listed(
                        directories,
                        nested.as_str(),
                    ) {
                        Some(nested)
                    } else {
                        Some(native)
                    }
                },
                None => None,
            },
            GameLauncherSource::Steam => match compatdata {
                Some(c) => {
                    let prefix = join(c.as_str(), "pfx");
                    Some(app_data_dir(prefix.as_str(), self.kind))
                },
                None => None,
            },
        }
    }

    /// The path of the instance's `plugins.txt`, with the arguments of
    /// [`Game::plugins_txt_dir`].
    pub fn plugins_txt_path(
        &self,
        default_prefix: &str,
        compatdata: Option<String>,
        directories: &Vec<String>,
    ) -> (r: Option<String>)
        requires
            self.launcher_source == GameLauncherSource::NonSteamUmu && self.kind
                != GameKind::Morrowind ==> self.umu_config is Some,
        ensures
            r.deep_view() == (match plugins_dir_of(
                self.deep_view(),
                default_prefix@,
                compatdata.deep_view(),
                directories.deep_view(),
            ) {
                Some(dir) => Some(joined(dir, "plugins.txt"@)),
                None => None,
            }),
    {
        match self.plugins_txt_dir(default_prefix, compatdata, directories) {
            Some(dir) => Some(join(dir.as_str(), "plugins.txt")),
            None => None,
        }
    }

    /// Checks that an instance outside Steam can be launched, given which
    /// files and directories exist and whether umu is installed.
    pub fn validate_umu_setup(
        &self,
        files: &Vec<String>,
        directories: &Vec<String>,
        umu_available: bool,
    ) -> (r: Result<&UmuGameConfig, String>)
        ensures
            match r {
                Ok(c) => umu_problem(
                    self.deep_view(),
                    files.deep_view(),
                    directories.deep_view(),
                    umu_available,
                ) is None && Some(c.deep_view()) == self.deep_view().umu_config,
                Err(e) => umu_problem(
                    self.deep_view(),
                    files.deep_view(),
                    directories.deep_view(),
                    umu_available,
                ) == Some(e@),
            },
    {
        if self.launcher_source != GameLauncherSource::NonSteamUmu {
            return Err(owned("UMU setup validation is only valid for non-Steam UMU games"));
        }
        let umu_cfg = match &self.umu_config {
            Some(c) => c,
            None => {
                return Err(owned("Missing UMU configuration for non-Steam game"));
            },
        };
        if !is_listed(files, umu_cfg.exe_path.as_str()) {
            return Err(
                concat2("UMU game executable does not exist: ", umu_cfg.exe_path.as_str()),
            );
        }
        if let Some(prefix) = &umu_cfg.prefix_path {
            if !is_listed(directories, prefix.as_str()) {
                return Err(concat2("UMU Wine prefix path does not exist: ", prefix.as_str()));
            }
        }
        if let Some(proton) = &umu_cfg.proton_path {
            if !is_listed(directories, proton.as_str()) {
                return Err(concat2("UMU Proton path does not exist: ", proton.as_str()));
            }
        }
        if !umu_available {
            return Err(
                owned("umu-run is not installed. Install/update it in Preferences first."),
            );
        }
        Ok(umu_cfg)
    }

    /// The Nexus mod that an archive was downloaded as, if it is recorded for
    /// this game.
    pub fn read_nxm_mod_id(&self, metadata: &Table<NxmEntry>, archive_name: &str) -> (r: Option<
        u32,
    >)
        ensures
            r == recorded_mod_id(self.kind, metadata.map(), archive_name@),
    {
        match metadata.get(archive_name) {
            Some(entry) => {
                if same(entry.game_domain.as_str(), self.kind.nexus_game_id()) {
                    Some(entry.mod_id)
                } else {
                    None
                }
            },
            None => None,
        }
    }

    /// Records the Nexus mod that an archive was downloaded as.
    pub fn write_nxm_mod_id(
        metadata: &mut Table<NxmEntry>,
        archive_name: &str,
        game_domain: &str,
        mod_id: u32,
    )
        ensures
            final(metadata).map() == old(metadata).map().insert(
                archive_name@,
                NxmEntryView { game_domain: game_domain@, mod_id },
            ),
    {
        metadata.insert(archive_name, NxmEntry { game_domain: owned(game_domain), mod_id });
    }

    /// Forgets what an archive was downloaded as, and tells whether anything
    /// was recorded.
    pub fn remove_nxm_mod_id(metadata: &mut Table<NxmEntry>, archive_name: &str) -> (changed: bool)
        ensures
            final(metadata).map() == old(metadata).map().remove(archive_name@),
            changed == old(metadata).map().contains_key(archive_name@),
    {
        metadata.remove(archive_name)
    }
}

/// The Steam application of an instance.
pub open spec fn instance_app_id(game: GameView) -> Option<u32> {
    match game.launcher_source {
        GameLauncherSource::Steam => match game.steam_app_id {
            Some(id) => Some(id),
            None => Some(primary_app_id(game.kind)),
        },
        GameLauncherSource::NonSteamUmu => None,
    }
}

/// Why an instance outside Steam cannot be launched, if it cannot.
pub open spec fn umu_problem(
    game: GameView,
    files: Seq<Seq<char>>,
    directories: Seq<Seq<char>>,
    umu_available: bool,
) -> Option<Seq<char>> {
    if game.launcher_source != GameLauncherSource::NonSteamUmu {
        Some("UMU setup validation is only valid for non-Steam UMU games"@)
    } else {
        match game.umu_config {
            None => Some("Missing UMU configuration for non-Steam game"@),
            Some(c) => {
                if !files.contains(c.exe_path) {
                    Some("UMU game executable does not exist: "@ + c.exe_path)
                } else if c.prefix_path is Some && !directories.contains(c.prefix_path->0) {
                    Some("UMU Wine prefix path does not exist: "@ + c.prefix_path->0)
                } else if c.proton_path is Some && !directories.contains(c.proton_path->0) {
                    Some("UMU Proton path does not exist: "@ + c.proton_path->0)
                } else if !umu_available {
                    Some("umu-run is not installed. Install/update it in Preferences first."@)
                } else {
                    None
                }
            },
        }
    }
}

/// What is recorded of a downloaded archive.
pub struct NxmEntry {
    pub game_domain: String,
    pub mod_id: u32,
}

/// An [`NxmEntry`] as a mathematical value.
#[verifier::ext_equal]
pub ghost struct NxmEntryView {
    pub game_domain: Seq<char>,
    pub mod_id: u32,
}

impl DeepView for NxmEntry {
    type V = NxmEntryView;

    open spec fn deep_view(&self) -> NxmEntryView {
        NxmEntryView { game_domain: self.game_domain@, mod_id: self.mod_id }
    }
}

/// The mod that an archive is recorded as, if that is for the given game.
pub open spec fn recorded_mod_id(
    kind: GameKind,
    metadata: Map<Seq<char>, NxmEntryView>,
    archive: Seq<char>,
) -> Option<u32> {
    if metadata.contains_key(archive) && metadata[archive].game_domain == nexus_id_of(kind) {
        Some(metadata[archive].mod_id)
    } else {
        None
    }
}

/// What was recorded of an archive is read back, by the game it was recorded
/// for and by no other; what is recorded of other archives stays.
pub proof fn recorded_mod_id_is_read_back(
    kind: GameKind,
    metadata: Map<Seq<char>, NxmEntryView>,
    archive: Seq<char>,
    other: Seq<char>,
    domain: Seq<char>,
    mod_id: u32,
)
    requires
        other != archive,
    ensures
        ({
            let after = metadata.insert(archive, NxmEntryView { game_domain: domain, mod_id });
            &&& recorded_mod_id(kind, after, archive) == (if domain == nexus_id_of(kind) {
                Some(mod_id)
            } else {
                None
            })
            &&& recorded_mod_id(kind, after, other) == recorded_mod_id(kind, metadata, other)
            &&& recorded_mod_id(kind, after.remove(archive), archive) is None
        }),
{
}

/// What is below the folder for application data in a Wine prefix.
pub proof fn application_data_lies_in_the_prefix(prefix: Seq<char>, kind: GameKind)
    requires
        prefix.len() > 0,
        prefix.last() != '/',
    ensures
        app_data_below(prefix, kind) == prefix + "/drive_c/users/steamuser/AppData/Local/"@
            + app_data_folder_of(kind),
{
    reveal_strlit("/drive_c/users/steamuser/AppData/Local/");
    reveal_strlit("drive_c");
    reveal_strlit("users");
    reveal_strlit("steamuser");
    reveal_strlit("AppData");
    reveal_strlit("Local");
    let a = joined(prefix, "drive_c"@);
    assert(a =~= prefix + seq!['/'] + "drive_c"@);
    let b = joined(a, "users"@);
    assert(b =~= a + seq!['/'] + "users"@);
    let c = joined(b, "steamuser"@);
    assert(c =~= b + seq!['/'] + "steamuser"@);
    let d = joined(c, "AppData"@);
    assert(d =~= c + seq!['/'] + "AppData"@);
    let e = joined(d, "Local"@);
    assert(e =~= d + seq!['/'] + "Local"@);
    lemma_folder_names(kind);
    assert(app_data_below(prefix, kind) =~= e + seq!['/'] + app_data_folder_of(kind));
    assert("/drive_c/users/steamuser/AppData/Local/"@ =~= seq!['/'] + "drive_c"@ + seq!['/']
        + "users"@ + seq!['/'] + "steamuser"@ + seq!['/'] + "AppData"@ + seq!['/'] + "Local"@
        + seq!['/']);
    assert(e + seq!['/'] =~= prefix + "/drive_c/users/steamuser/AppData/Local/"@);
}

proof fn lemma_folder_names(kind: GameKind)
    ensures
        app_data_folder_of(kind).len() > 0,
        app_data_folder_of(kind)[0] != '/',
{
    reveal_strlit("Skyrim Special Edition");
    reveal_strlit("Skyrim VR");
    reveal_strlit("Skyrim");
    reveal_strlit("Fallout4");
    reveal_strlit("Fallout4VR");
    reveal_strlit("Fallout3");
    reveal_strlit("FalloutNV");
    reveal_strlit("Oblivion");
    reveal_strlit("Morrowind");
    reveal_strlit("Starfield");
}

/// A game outside Steam can be launched if it has a configuration, what that
/// names exists, and umu is there; otherwise the problem is told.
pub proof fn umu_is_ready_if_everything_is_there(
    game: GameView,
    files: Seq<Seq<char>>,
    directories: Seq<Seq<char>>,
    umu_available: bool,
)
    ensures
        umu_problem(game, files, directories, umu_available) is None <==> {
            &&& game.launcher_source == GameLauncherSource::NonSteamUmu
            &&& game.umu_config is Some
            &&& files.contains(game.umu_config->0.exe_path)
            &&& game.umu_config->0.prefix_path is Some ==> directories.contains(
                game.umu_config->0.prefix_path->0,
            )
            &&& game.umu_config->0.proton_path is Some ==> directories.contains(
                game.umu_config->0.proton_path->0,
            )
            &&& umu_available
        },
{
}

/// Plugins are kept in the prefix that the game runs in: that of its
/// configuration, with or without `pfx` below it as it exists, or that of its
/// Steam application; Morrowind keeps none there.
pub proof fn plugins_are_kept_in_the_games_prefix(
    game: GameView,
    default_prefix: Seq<char>,
    compatdata: Option<Seq<char>>,
    directories: Seq<Seq<char>>,
)
    requires
        game.launcher_source == GameLauncherSource::NonSteamUmu ==> game.umu_config is Some,
    ensures
        ({
            let found = plugins_dir_of(game, default_prefix, compatdata, directories);
            let umu = game.launcher_source == GameLauncherSource::NonSteamUmu;
            let prefix = if game.umu_config is Some && game.umu_config->0.prefix_path is Some {
                game.umu_config->0.prefix_path->0
            } else {
                default_prefix
            };
            let here = app_data_below(prefix, game.kind);
            let nested = app_data_below(joined(prefix, "pfx"@), game.kind);
            &&& game.kind == GameKind::Morrowind ==> found is None
            &&& game.kind != GameKind::Morrowind && umu && directories.contains(here) ==> found
                == Some(here)
            &&& game.kind != GameKind::Morrowind && umu && !directories.contains(here)
                && directories.contains(nested) ==> found == Some(nested)
            &&& game.kind != GameKind::Morrowind && umu && !directories.contains(nested) ==> found
                == Some(here)
            &&& game.kind != GameKind::Morrowind && !umu && compatdata is Some ==> found == Some(
                app_data_below(joined(compatdata->0, "pfx"@), game.kind),
            )
            &&& !umu && compatdata is None ==> found is None
        }),
{
}

/// A game that is not a Steam game has no application; a Steam game has its own,
/// or that of its kind.
pub proof fn steam_games_have_an_application(game: GameView)
    ensures
        game.launcher_source == GameLauncherSource::NonSteamUmu ==> instance_app_id(game) is None,
        game.launcher_source == GameLauncherSource::Steam && game.steam_app_id is Some
            ==> instance_app_id(game) == game.steam_app_id,
        game.launcher_source == GameLauncherSource::Steam && game.steam_app_id is None
            ==> instance_app_id(game) is Some && app_ids_of(game.kind).contains(
            instance_app_id(game)->0,
        ),
{
    primary_app_id_comes_first(game.kind);
}

/// Each game's mods lie in a directory of its own below `mods`.
pub proof fn mods_lie_below_the_games_directory(game: GameView, base: Seq<char>)
    requires
        base.len() > 0,
        base.last() != '/',
        game.id.len() > 0,
        game.id[0] != '/',
    ensures
        game.mods_base_dir == Some(base) ==> mods_dir_of(game, None) == base + seq![
            '/', 'm', 'o', 'd', 's', '/',
        ] + game.id,
        game.mods_base_dir is None ==> mods_dir_of(game, Some(base)) == base + seq![
            '/', 'l', 'i', 'n', 'k', 'm', 'm', '/', 'm', 'o', 'd', 's', '/',
        ] + game.id,
        config_dir_of(game, Some(base)) == base + seq!['/', 'l', 'i', 'n', 'k', 'm', 'm', '/']
            + game.id,
{
    reveal_strlit("mods");
    reveal_strlit("linkmm");
    let m = base + seq!['/', 'm', 'o', 'd', 's'];
    assert(joined(base, "mods"@) =~= m);
    assert(joined(m, game.id) =~= base + seq!['/', 'm', 'o', 'd', 's', '/'] + game.id);
    let l = base + seq!['/', 'l', 'i', 'n', 'k', 'm', 'm'];
    assert(joined(base, "linkmm"@) =~= l);
    let k = l + seq!['/', 'm', 'o', 'd', 's'];
    assert(joined(l, "mods"@) =~= k);
    assert(joined(k, game.id) =~= base + seq![
        '/', 'l', 'i', 'n', 'k', 'm', 'm', '/', 'm', 'o', 'd', 's', '/',
    ] + game.id);
    assert(joined(l, game.id) =~= base + seq!['/', 'l', 'i', 'n', 'k', 'm', 'm', '/'] + game.id);
}

/// A game has its data directory in its root and is launched as it was set up.
pub proof fn games_are_made_as_they_are_set_up(
    id: Seq<char>,
    kind: GameKind,
    root: Seq<char>,
    app_id: u32,
    config: UmuGameConfigView,
)
    requires
        root.len() > 0,
        root.last() != '/',
    ensures
        ({
            let s = steam_game(id, kind, root, app_id);
            let u = umu_game(id, kind, root, config);
            let data = root + seq!['/', 'D', 'a', 't', 'a'];
            &&& s.id == id && u.id == id
            &&& s.kind == kind && u.kind == kind
            &&& s.root_path == root && u.root_path == root
            &&& s.data_path == data && u.data_path == data
            &&& instance_app_id(s) == Some(app_id)
            &&& instance_app_id(u) is None
            &&& s.umu_config is None
            &&& u.umu_config == Some(config)
            &&& s.mods_base_dir is None && u.mods_base_dir is None
        }),
{
    reveal_strlit("Data");
    assert(joined(root, "Data"@) =~= root + seq!['/', 'D', 'a', 't', 'a']);
}

} // verus!
