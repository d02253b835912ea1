use microstation::console::{
    command_action, entity_info_report, entity_list_report, no_such_entity_reply, parse_error_reply,
    spawn_reply, split_command, words_or_reply, ComponentRow, ConsoleAction, ConsoleClient, ConsoleCommand,
    ConsoleRoster, EntityRow, ReadOutcome, WriteOutcome, command_step, command_words, spawn_step, CommandStep,
    ConsoleQuery, QueryKind,
};
use microstation::grid::IVec2;

fn feed(c: &mut ConsoleClient, bytes: &[u8]) {
    assert!(c.after_read(ReadOutcome::Data(bytes.to_vec())));
}

#[test]
fn lines_are_cut_trimmed_and_blanks_dropped() {
    let mut c = ConsoleClient::new(0);
    feed(&mut c, b"  spawn wall 1 2 \r\n\r\n\n entities\npart");
    let lines = c.read_lines();
    assert_eq!(lines, vec!["spawn wall 1 2".to_string(), "entities".to_string()]);
    feed(&mut c, b"ial\n");
    assert_eq!(c.read_lines(), vec!["partial".to_string()]);
    assert!(c.read_lines().is_empty());
}

#[test]
fn multibyte_character_split_across_reads() {
    let text = "привет\n".as_bytes();
    let mut whole = ConsoleClient::new(1);
    feed(&mut whole, text);
    let mut split = ConsoleClient::new(2);
    feed(&mut split, &text[..3]);
    assert!(split.read_lines().is_empty());
    feed(&mut split, &text[3..]);
    assert_eq!(split.read_lines(), whole.read_lines());
    let mut again = ConsoleClient::new(3);
    feed(&mut again, text);
    assert_eq!(again.read_lines(), vec!["привет".to_string()]);
}

#[test]
fn invalid_bytes_become_replacement_characters() {
    let mut c = ConsoleClient::new(0);
    feed(&mut c, b"a\xffb\n");
    assert_eq!(c.read_lines(), vec!["a\u{FFFD}b".to_string()]);
}

#[test]
fn unicode_whitespace_is_trimmed() {
    let mut c = ConsoleClient::new(0);
    feed(&mut c, "\u{3000}clear\u{A0}\n".as_bytes());
    assert_eq!(c.read_lines(), vec!["clear".to_string()]);
}

#[test]
fn closed_and_failed_reads_kill_the_connection() {
    let mut c = ConsoleClient::new(0);
    assert!(!c.after_read(ReadOutcome::WouldBlock));
    assert!(!c.dead());
    assert!(!c.after_read(ReadOutcome::Closed));
    assert!(c.dead());
    let mut d = ConsoleClient::new(1);
    assert!(!d.after_read(ReadOutcome::Failed));
    assert!(d.dead());
}

#[test]
fn unsent_output_stays_queued() {
    let mut c = ConsoleClient::new(0);
    c.queue_write("hello");
    c.queue_write(" ы");
    assert_eq!(c.pending(), "hello ы".as_bytes().to_vec());
    assert!(c.after_write(WriteOutcome::Wrote(3)));
    assert_eq!(c.pending(), "lo ы".as_bytes().to_vec());
    assert!(!c.after_write(WriteOutcome::WouldBlock));
    assert!(c.wants_write());
    assert!(!c.after_write(WriteOutcome::Wrote(5)));
    assert!(!c.wants_write());
    assert!(!c.dead());
}

#[test]
fn zero_or_failed_writes_kill_the_connection() {
    let mut c = ConsoleClient::new(0);
    c.queue_write("x");
    assert!(!c.after_write(WriteOutcome::Wrote(0)));
    assert!(c.dead());
    assert_eq!(c.pending(), b"x".to_vec());
    let mut d = ConsoleClient::new(0);
    d.queue_write("x");
    assert!(!d.after_write(WriteOutcome::Failed));
    assert!(d.dead());
}

#[test]
fn commands_split_like_a_shell() {
    assert_eq!(
        split_command("spawn \"steel wall\" 1 2").unwrap(),
        vec!["spawn".to_string(), "steel wall".to_string(), "1".to_string(), "2".to_string()]
    );
    assert_eq!(split_command("spawn 'oops").unwrap_err(), "error: unbalanced quotes");
    assert_eq!(words_or_reply(None).unwrap_err(), "error: unbalanced quotes");
    assert_eq!(words_or_reply(Some(vec!["a".to_string()])).unwrap(), vec!["a".to_string()]);
}

#[test]
fn parse_errors_lose_trailing_whitespace() {
    assert_eq!(parse_error_reply("error: bad\n\n  "), "error: bad");
    assert_eq!(parse_error_reply("  x"), "  x");
}

#[test]
fn spawn_needs_both_coordinates() {
    match command_action(ConsoleCommand::Spawn { id: "wall".into(), x: Some(1), y: Some(-2) }) {
        ConsoleAction::Spawn { id, pos } => {
            assert_eq!(id, "wall");
            assert_eq!(pos, Some(IVec2::new(1, -2)));
        }
        _ => panic!("expected a spawn"),
    }
    match command_action(ConsoleCommand::Spawn { id: "wall".into(), x: None, y: None }) {
        ConsoleAction::Spawn { pos, .. } => assert_eq!(pos, None),
        _ => panic!("expected a spawn"),
    }
    match command_action(ConsoleCommand::Spawn { id: "wall".into(), x: Some(1), y: None }) {
        ConsoleAction::Reply(t) => assert_eq!(t, "error: x and y must be given together"),
        _ => panic!("expected a reply"),
    }
}

#[test]
fn other_commands() {
    match command_action(ConsoleCommand::Clear) {
        ConsoleAction::Reply(t) => assert_eq!(t, "\x1B[2J\x1B[H"),
        _ => panic!("expected a reply"),
    }
    assert!(matches!(command_action(ConsoleCommand::Entities), ConsoleAction::ListEntities));
    assert!(matches!(command_action(ConsoleCommand::Entity { id: 42 }), ConsoleAction::EntityInfo(42)));
}

#[test]
fn reply_texts() {
    assert_eq!(spawn_reply("wall", Some(("5v1", 4294967301))), "spawned wall -> 5v1 (id=4294967301)");
    assert_eq!(spawn_reply("nope", None), "error: unknown prototype 'nope'");
    assert_eq!(no_such_entity_reply(0), "error: no such entity (id=0)");
    let rows = vec![
        EntityRow { name: Some("Chunk".into()), bits: 12, debug: "12v0".into() },
        EntityRow { name: None, bits: 7, debug: "7v0".into() },
    ];
    assert_eq!(
        entity_list_report(&rows),
        "=== Entities (2) ===\n Chunk | id=12 | 12v0\n <unnamed> | id=7 | 7v0\n"
    );
    assert_eq!(entity_list_report(&vec![]), "=== Entities (0) ===\n");
    let comps = vec![ComponentRow::Reflected("Position(1, 2)".into()), ComponentRow::Opaque("Sprite".into())];
    assert_eq!(
        entity_info_report("3v0", 3, &None, &comps),
        "=== Entity 3v0 (id=3) ===\n  name: <unnamed>\n  Position(1, 2)\n  Sprite (not reflected)\n"
    );
}

#[test]
fn roster_numbers_delivers_and_drops_dead() {
    let mut r = ConsoleRoster::new();
    assert_eq!(r.accept(), 0);
    assert_eq!(r.accept(), 1);
    assert_eq!(r.clients[0].pending(), b"> ".to_vec());
    assert!(r.deliver(1, "one"));
    assert!(r.deliver(1, "two"));
    assert!(!r.deliver(5, "none"));
    assert_eq!(r.clients[1].pending(), b"> one\n> two\n> ".to_vec());
    assert!(!r.clients[0].after_read(ReadOutcome::Closed));
    r.retain_alive();
    assert_eq!(r.clients.len(), 1);
    assert_eq!(r.clients[0].id(), 1);
    assert_eq!(r.accept(), 2);
}

fn immediate_text(q: &ConsoleQuery) -> Option<&str> {
    match &q.kind {
        QueryKind::Immediate(t) => Some(t.as_str()),
        _ => None,
    }
}

#[test]
fn every_command_line_gets_one_reply_for_its_client() {
    let q = command_words(4, "spawn 'oops").unwrap_err();
    assert_eq!(q.client, 4);
    assert_eq!(immediate_text(&q), Some("error: unbalanced quotes"));
    assert_eq!(command_words(4, "entity 7").unwrap(), vec!["entity", "7"]);

    let CommandStep::Reply(q) = command_step(4, Err("error: unknown command\n\n".to_string())) else {
        panic!("a parse error is answered")
    };
    assert_eq!((q.client, immediate_text(&q)), (4, Some("error: unknown command")));

    let CommandStep::Reply(q) = command_step(6, Ok(ConsoleCommand::Entity { id: 42 })) else {
        panic!("entity info is a reply")
    };
    assert_eq!(q.client, 6);
    assert!(matches!(q.kind, QueryKind::EntityInfo(42)));

    let CommandStep::Reply(q) = command_step(6, Ok(ConsoleCommand::Entities)) else {
        panic!("the entity list is a reply")
    };
    assert!(matches!(q.kind, QueryKind::ListEntities));

    let CommandStep::Reply(q) =
        command_step(2, Ok(ConsoleCommand::Spawn { id: "crate".into(), x: None, y: Some(1) }))
    else {
        panic!("half a position is refused")
    };
    assert_eq!(immediate_text(&q), Some("error: x and y must be given together"));

    let CommandStep::Spawn { id, pos } =
        command_step(2, Ok(ConsoleCommand::Spawn { id: "crate".into(), x: Some(3), y: Some(-1) }))
    else {
        panic!("a full spawn spawns")
    };
    assert_eq!((id.as_str(), pos), ("crate", Some(IVec2::new(3, -1))));
    let q = spawn_step(2, "crate", Some(("5v1", 5)));
    assert_eq!((q.client, immediate_text(&q)), (2, Some("spawned crate -> 5v1 (id=5)")));
    let q = spawn_step(2, "nope", None);
    assert_eq!(immediate_text(&q), Some("error: unknown prototype 'nope'"));
}

#[test]
fn accepted_connections_get_consecutive_numbers() {
    let mut r = ConsoleRoster::new();
    for expected in 0..5 {
        assert_eq!(r.accept(), expected);
    }
    assert_eq!(r.next_client_id, 5);
    let ids: Vec<usize> = r.clients.iter().map(|c| c.id()).collect();
    assert_eq!(ids, vec![0, 1, 2, 3, 4]);
    assert!(r.clients.iter().all(|c| c.pending() == b"> ".to_vec()));
    assert!(!r.clients[2].after_read(ReadOutcome::Failed));
    r.retain_alive();
    let ids: Vec<usize> = r.clients.iter().map(|c| c.id()).collect();
    assert_eq!(ids, vec![0, 1, 3, 4]);
    assert_eq!(r.accept(), 5);
}
