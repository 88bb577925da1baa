//! The requests the interface sends to the orchestrator process, and the
//! command each one becomes on the wire.
use vstd::prelude::*;
use vstd::std_specs::convert::FromSpecImpl;

verus! {

/// A command for the orchestrator process.
#[derive(Debug, Clone)]
pub enum SteamCommand {
    GetSubscribedAppList(bool, bool),
    Shutdown,
    LaunchApp(u32),
    StopApp(u32),
    GetRunningApps,
    SetAchievement(u32, bool, String, bool),
    StoreStatsAndAchievements(u32),
    UnlockAllAchievements(u32),
    SetIntStat(u32, String, i32),
    ResetStats(u32, bool),
    GetAchievementCounts(Vec<u32>),
    GetAchievementsAndStats(u32, bool),
}

/// Lists the apps the signed-in account owns.
#[derive(Debug, Clone)]
pub struct GetSubscribedAppList {
    pub include_playtime: bool,
    pub with_achievement_counts: bool,
}

impl From<GetSubscribedAppList> for SteamCommand {
    fn from(val: GetSubscribedAppList) -> (command: SteamCommand) {
        SteamCommand::GetSubscribedAppList(val.include_playtime, val.with_achievement_counts)
    }
}

impl FromSpecImpl<GetSubscribedAppList> for SteamCommand {
    open spec fn obeys_from_spec() -> bool {
        true
    }

    open spec fn from_spec(val: GetSubscribedAppList) -> SteamCommand {
        SteamCommand::GetSubscribedAppList(val.include_playtime, val.with_achievement_counts)
    }
}

/// Asks the orchestrator to exit.
#[derive(Debug, Clone)]
pub struct Shutdown;

impl From<Shutdown> for SteamCommand {
    fn from(_val: Shutdown) -> (command: SteamCommand) {
        SteamCommand::Shutdown
    }
}

impl FromSpecImpl<Shutdown> for SteamCommand {
    open spec fn obeys_from_spec() -> bool {
        true
    }

    open spec fn from_spec(_val: Shutdown) -> SteamCommand {
        SteamCommand::Shutdown
    }
}

/// Starts a game's stats server.
#[derive(Debug, Clone)]
pub struct LaunchApp {
    pub app_id: u32,
}

impl From<LaunchApp> for SteamCommand {
    fn from(val: LaunchApp) -> (command: SteamCommand) {
        SteamCommand::LaunchApp(val.app_id)
    }
}

impl FromSpecImpl<LaunchApp> for SteamCommand {
    open spec fn obeys_from_spec() -> bool {
        true
    }

    open spec fn from_spec(val: LaunchApp) -> SteamCommand {
        SteamCommand::LaunchApp(val.app_id)
    }
}

/// Stops a game's stats server.
#[derive(Debug, Clone)]
pub struct StopApp {
    pub app_id: u32,
}

impl From<StopApp> for SteamCommand {
    fn from(val: StopApp) -> (command: SteamCommand) {
        SteamCommand::StopApp(val.app_id)
    }
}

impl FromSpecImpl<StopApp> for SteamCommand {
    open spec fn obeys_from_spec() -> bool {
        true
    }

    open spec fn from_spec(val: StopApp) -> SteamCommand {
        SteamCommand::StopApp(val.app_id)
    }
}

/// Lists the games being idled.
#[derive(Debug, Clone)]
pub struct GetRunningApps;

impl From<GetRunningApps> for SteamCommand {
    fn from(_val: GetRunningApps) -> (command: SteamCommand) {
        SteamCommand::GetRunningApps
    }
}

impl FromSpecImpl<GetRunningApps> for SteamCommand {
    open spec fn obeys_from_spec() -> bool {
        true
    }

    open spec fn from_spec(_val: GetRunningApps) -> SteamCommand {
        SteamCommand::GetRunningApps
    }
}

/// Unlocks or relocks one achievement, storing at once when `store` is set.
#[derive(Debug, Clone)]
pub struct SetAchievement {
    pub app_id: u32,
    pub achievement_id: String,
    pub unlocked: bool,
    pub store: bool,
}

impl From<SetAchievement> for SteamCommand {
    fn from(val: SetAchievement) -> (command: SteamCommand) {
        SteamCommand::SetAchievement(val.app_id, val.unlocked, val.achievement_id, val.store)
    }
}

impl FromSpecImpl<SetAchievement> for SteamCommand {
    open spec fn obeys_from_spec() -> bool {
        true
    }

    open spec fn from_spec(val: SetAchievement) -> SteamCommand {
        SteamCommand::SetAchievement(val.app_id, val.unlocked, val.achievement_id, val.store)
    }
}

/// Commits a game's pending stats and achievements.
#[derive(Debug, Clone)]
pub struct StoreStatsAndAchievements {
    pub app_id: u32,
}

impl From<StoreStatsAndAchievements> for SteamCommand {
    fn from(val: StoreStatsAndAchievements) -> (command: SteamCommand) {
        SteamCommand::StoreStatsAndAchievements(val.app_id)
    }
}

impl FromSpecImpl<StoreStatsAndAchievements> for SteamCommand {
    open spec fn obeys_from_spec() -> bool {
        true
    }

    open spec fn from_spec(val: StoreStatsAndAchievements) -> SteamCommand {
        SteamCommand::StoreStatsAndAchievements(val.app_id)
    }
}

/// Unlocks every achievement of a game.
#[derive(Debug, Clone)]
pub struct UnlockAllAchievements {
    pub app_id: u32,
}

impl From<UnlockAllAchievements> for SteamCommand {
    fn from(val: UnlockAllAchievements) -> (command: SteamCommand) {
        SteamCommand::UnlockAllAchievements(val.app_id)
    }
}

impl FromSpecImpl<UnlockAllAchievements> for SteamCommand {
    open spec fn obeys_from_spec() -> bool {
        true
    }

    open spec fn from_spec(val: UnlockAllAchievements) -> SteamCommand {
        SteamCommand::UnlockAllAchievements(val.app_id)
    }
}

/// Sets an integer stat.
#[derive(Debug, Clone)]
pub struct SetIntStat {
    pub app_id: u32,
    pub stat_id: String,
    pub value: i32,
}

impl From<SetIntStat> for SteamCommand {
    fn from(val: SetIntStat) -> (command: SteamCommand) {
        SteamCommand::SetIntStat(val.app_id, val.stat_id, val.value)
    }
}

impl FromSpecImpl<SetIntStat> for SteamCommand {
    open spec fn obeys_from_spec() -> bool {
        true
    }

    open spec fn from_spec(val: SetIntStat) -> SteamCommand {
        SteamCommand::SetIntStat(val.app_id, val.stat_id, val.value)
    }
}

/// Resets a game's stats, and its achievements when `achievements_too` is set.
#[derive(Debug, Clone)]
pub struct ResetStats {
    pub app_id: u32,
    pub achievements_too: bool,
}

impl From<ResetStats> for SteamCommand {
    fn from(val: ResetStats) -> (command: SteamCommand) {
        SteamCommand::ResetStats(val.app_id, val.achievements_too)
    }
}

impl FromSpecImpl<ResetStats> for SteamCommand {
    open spec fn obeys_from_spec() -> bool {
        true
    }

    open spec fn from_spec(val: ResetStats) -> SteamCommand {
        SteamCommand::ResetStats(val.app_id, val.achievements_too)
    }
}

/// Reads the achievement counts of several games.
#[derive(Debug, Clone)]
pub struct GetAchievementCounts {
    pub app_ids: Vec<u32>,
}

impl From<GetAchievementCounts> for SteamCommand {
    fn from(val: GetAchievementCounts) -> (command: SteamCommand) {
        SteamCommand::GetAchievementCounts(val.app_ids)
    }
}

impl FromSpecImpl<GetAchievementCounts> for SteamCommand {
    open spec fn obeys_from_spec() -> bool {
        true
    }

    open spec fn from_spec(val: GetAchievementCounts) -> SteamCommand {
        SteamCommand::GetAchievementCounts(val.app_ids)
    }
}

/// Reads a game's achievements and stats, launching it first when `launch` is set.
#[derive(Debug, Clone)]
pub struct GetAchievementsAndStats {
    pub app_id: u32,
    pub launch: bool,
}

impl From<GetAchievementsAndStats> for SteamCommand {
    fn from(val: GetAchievementsAndStats) -> (command: SteamCommand) {
        SteamCommand::GetAchievementsAndStats(val.app_id, val.launch)
    }
}

impl FromSpecImpl<GetAchievementsAndStats> for SteamCommand {
    open spec fn obeys_from_spec() -> bool {
        true
    }

    open spec fn from_spec(val: GetAchievementsAndStats) -> SteamCommand {
        SteamCommand::GetAchievementsAndStats(val.app_id, val.launch)
    }
}

} // verus!
