//! Program states and start-up settings of the client and the server: the
//! command-line arguments, the menu-to-game flow and the local player.
use vstd::prelude::*;

verus! {

/// Marks the player that this client controls.
#[derive(Clone, Copy, Debug)]
pub struct LocalPlayer;

/// Verbosity of the log.
#[derive(Clone, Copy, Debug, PartialEq, Eq, Structural)]
pub enum LogLevel {
    Trace,
    Debug,
    Info,
    Warn,
    Error,
}

/// The client's command-line arguments.
pub struct ClientArgs {
    /// Server address to connect to.
    pub address: String,
    /// Connect right away, skipping the menu.
    pub connect: bool,
    pub log_level: LogLevel,
}

/// The server's command-line arguments.
pub struct ServerArgs {
    pub log_level: LogLevel,
}

/// Where the client is.
#[derive(Clone, Copy, Debug, PartialEq, Eq, Structural)]
pub enum ClientState {
    Menu,
    Connecting,
    Lobby,
    InGame,
}

impl Default for ClientState {
    fn default() -> (r: ClientState)
        ensures
            r == ClientState::Menu,
    {
        ClientState::Menu
    }
}

/// Where the server is.
#[derive(Clone, Copy, Debug, PartialEq, Eq, Structural)]
pub enum ServerState {
    Round,
    Waiting,
}

impl Default for ServerState {
    fn default() -> (r: ServerState)
        ensures
            r == ServerState::Waiting,
    {
        ServerState::Waiting
    }
}

/// The server leaves the waiting state at once: the next state is a round.
pub fn skip_waiting() -> (r: ServerState)
    ensures
        r == ServerState::Round,
{
    ServerState::Round
}

/// A connection the client is about to open.
pub struct PendingConnection {
    pub login: String,
    pub password: String,
    pub address: String,
}

/// The client's start-up settings.
pub struct ClientPlugin {
    pub skip_menu: bool,
    pub address: String,
}

impl ClientPlugin {
    /// Settings from the command line: skip the menu when asked to connect.
    pub fn from_args(args: &ClientArgs) -> (r: ClientPlugin)
        ensures
            r.skip_menu == args.connect,
            r.address@ == args.address@,
    {
        ClientPlugin { skip_menu: args.connect, address: args.address.clone() }
    }

    /// The state the client starts in, and the connection it opens at once:
    /// with the menu skipped, it connects to its address as a default user.
    pub fn startup(&self) -> (r: (ClientState, Option<PendingConnection>))
        ensures
            !self.skip_menu ==> r.0 == ClientState::Menu && r.1 is None,
            self.skip_menu ==> r.0 == ClientState::Connecting && (r.1 matches Some(p) && p.login@
                == "John Doe"@ && p.password@ == "aboba123"@ && p.address@ == self.address@),
    {
        if self.skip_menu {
            (
                ClientState::Connecting,
                Some(
                    PendingConnection {
                        login: String::from_str("John Doe"),
                        password: String::from_str("aboba123"),
                        address: self.address.clone(),
                    },
                ),
            )
        } else {
            (ClientState::Menu, None)
        }
    }
}

/// The log level that the log takes from the arguments.
pub fn log_level_from_args(args: &ClientArgs) -> (r: LogLevel)
    ensures
        r == args.log_level,
{
    args.log_level
}

/// The menu's connect request: login, password and address as typed.
pub struct Connect {
    pub login: String,
    pub password: String,
    pub address: String,
}

/// The menu asks to connect: the typed fields become the pending connection,
/// and the client moves on to connecting.
pub fn on_try_connect(connect: &Connect) -> (r: (PendingConnection, ClientState))
    ensures
        r.0.login@ == connect.login@,
        r.0.password@ == connect.password@,
        r.0.address@ == connect.address@,
        r.1 == ClientState::Connecting,
{
    (
        PendingConnection {
            login: connect.login.clone(),
            password: connect.password.clone(),
            address: connect.address.clone(),
        },
        ClientState::Connecting,
    )
}

/// The client's network id: the connection time in milliseconds, cut to 64 bits.
pub fn client_id_from_millis(millis: u128) -> (r: u64)
    ensures
        r == millis as u64,
{
    millis as u64
}

/// A replicated player is this client's own when its id is the client's network id.
pub fn is_local_player(player_id: u64, local_id: u64) -> (r: bool)
    ensures
        r == (player_id == local_id),
{
    player_id == local_id
}

} // verus!
