use microstation::session::{
    client_id_from_millis, is_local_player, on_try_connect, skip_waiting, ClientArgs, ClientPlugin, ClientState,
    Connect, LogLevel, ServerState,
};
use microstation::LocalPlayer;

#[test]
fn default_states() {
    assert_eq!(ClientState::default(), ClientState::Menu);
    assert_eq!(ServerState::default(), ServerState::Waiting);
    assert_eq!(skip_waiting(), ServerState::Round);
    let _ = LocalPlayer;
}

#[test]
fn skipping_the_menu_connects_at_once() {
    let args = ClientArgs { address: "10.0.0.1:5000".into(), connect: true, log_level: LogLevel::Info };
    let plugin = ClientPlugin::from_args(&args);
    let (state, pending) = plugin.startup();
    assert_eq!(state, ClientState::Connecting);
    let p = pending.unwrap();
    assert_eq!((p.login.as_str(), p.password.as_str(), p.address.as_str()), ("John Doe", "aboba123", "10.0.0.1:5000"));
    let args = ClientArgs { address: "x".into(), connect: false, log_level: LogLevel::Warn };
    let (state, pending) = ClientPlugin::from_args(&args).startup();
    assert_eq!(state, ClientState::Menu);
    assert!(pending.is_none());
}

#[test]
fn menu_connect() {
    let (p, s) = on_try_connect(&Connect { login: "a".into(), password: "b".into(), address: "c".into() });
    assert_eq!((p.login.as_str(), p.password.as_str(), p.address.as_str()), ("a", "b", "c"));
    assert_eq!(s, ClientState::Connecting);
}

#[test]
fn ids() {
    assert_eq!(client_id_from_millis((1u128 << 64) + 5), 5);
    assert!(is_local_player(3, 3));
    assert!(!is_local_player(3, 4));
}

#[test]
fn log_level_comes_from_the_arguments() {
    let args = ClientArgs { address: "127.0.0.1:5000".into(), connect: false, log_level: LogLevel::Debug };
    assert_eq!(microstation::session::log_level_from_args(&args), LogLevel::Debug);
}
