use vstd::prelude::*;

verus! {

/// The server the bot serves, its channels and its roles.
#[derive(Debug, Clone, Copy, PartialEq, Eq, Structural)]
pub struct GuildSettings {
    pub guild_id: u64,
    pub crossword_channel: u64,
    pub support_team_role: u64,
    pub ticket_log_channel: u64,
    pub ticket_category: u64,
    pub everyone_role: u64,
}

/// The bot's settings: its token, its server and the colour of its embeds.
#[derive(Debug, Clone)]
pub struct BotConfig {
    pub discord_token: String,
    pub guild_settings: GuildSettings,
    pub embed_color: i32,
}

} // verus!
