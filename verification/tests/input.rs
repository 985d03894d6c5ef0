use word_game::events::{digit_of, yes_no, Key};
use word_game::network::{Connection, Packet};
use word_game::word_game::{GameOutcome, GameState, OngoingGame, WordGame};

fn config(input_y: u32, host: bool, ip: &str, port: u16) -> WordGame<u8> {
    let mut game = WordGame::new(Vec::new());
    game.state = GameState::ConnectionConfig { input_y, host, ip: ip.to_string(), port };
    game
}

fn shown(game: &WordGame<u8>) -> (u32, bool, String, u16) {
    match &game.state {
        GameState::ConnectionConfig { input_y, host, ip, port } => {
            (*input_y, *host, ip.clone(), *port)
        }
        other => panic!("{:?}", other),
    }
}

fn typing(text: &str) -> WordGame<u8> {
    let mut game = WordGame::new(Vec::new());
    let mut g = OngoingGame::new(Connection::new(1u8), 0);
    g.current_text = text.to_string();
    game.state = GameState::Ongoing(g);
    game
}

fn text(game: &WordGame<u8>) -> String {
    match &game.state {
        GameState::Ongoing(g) => g.current_text.clone(),
        other => panic!("{:?}", other),
    }
}

#[test]
fn one_letter_answers() {
    assert_eq!(yes_no('y'), Some(true));
    assert_eq!(yes_no('Y'), Some(true));
    assert_eq!(yes_no('n'), Some(false));
    assert_eq!(yes_no('N'), Some(false));
    assert_eq!(yes_no('j'), None);
    assert_eq!(yes_no(' '), None);
}

#[test]
fn digits_have_their_value() {
    assert_eq!(digit_of('0'), Some(0));
    assert_eq!(digit_of('7'), Some(7));
    assert_eq!(digit_of('9'), Some(9));
    assert_eq!(digit_of('/'), None);
    assert_eq!(digit_of(':'), None);
    assert_eq!(digit_of('a'), None);
    assert_eq!(digit_of('٣'), None);
}

#[test]
fn letters_and_blanks_join_the_text() {
    let mut game = typing("ab");
    for c in ['c', ' ', 'É', '1', '-', '\n', 'z'] {
        let r = game.text_input_event(c);
        assert!(r.send.is_none() && !r.pair_up);
    }
    assert_eq!(text(&game), "abc Éz");
}

#[test]
fn the_caller_may_say_what_a_letter_is() {
    let mut game = typing("");
    game.type_character('1', true);
    game.type_character('a', false);
    game.type_character(' ', false);
    assert_eq!(text(&game), "1 ");
}

#[test]
fn back_deletes_the_last_character() {
    let mut game = typing("aé");
    assert!(game.key_down_event(Key::Back).is_empty());
    assert_eq!(text(&game), "a");
    game.key_down_event(Key::Back);
    game.key_down_event(Key::Back);
    assert_eq!(text(&game), "");
}

#[test]
fn the_address_takes_letters_while_its_row_is_selected() {
    let mut game = config(1, false, "local", 5555);
    for c in ['h', '1', '.', 'o', ' '] {
        let r = game.text_input_event(c);
        assert!(r.send.is_none() && !r.pair_up);
    }
    assert_eq!(shown(&game), (1, false, "localho ".to_string(), 5555));
    game.key_down_event(Key::Back);
    game.key_down_event(Key::Back);
    assert_eq!(shown(&game), (1, false, "localh".to_string(), 5555));
    assert!(game.key_down_event(Key::Return).is_empty());
    assert_eq!(shown(&game), (1, false, "localh".to_string(), 5555));
}

#[test]
fn the_port_takes_digits_while_its_row_is_selected() {
    let mut game = config(2, true, "x", 0);
    for c in ['6', '5', 'a', '5', '3'] {
        game.text_input_event(c);
    }
    assert_eq!(shown(&game), (2, true, "x".to_string(), 6553));
    game.text_input_event('6');
    assert_eq!(shown(&game).3, 6553);
    game.text_input_event('5');
    assert_eq!(shown(&game).3, 65535);
    game.text_input_event('0');
    assert_eq!(shown(&game).3, 65535);
    game.key_down_event(Key::Back);
    assert_eq!(shown(&game), (2, true, "x".to_string(), 6553));
    for _ in 0..5 {
        game.key_down_event(Key::Back);
    }
    assert_eq!(shown(&game).3, 0);
}

#[test]
fn a_line_feed_on_the_start_row_starts_the_pairing() {
    let mut game = config(3, false, "x", 1);
    assert!(!game.text_input_event('a').pair_up);
    assert!(game.text_input_event('\n').pair_up);
    assert_eq!(shown(&game), (3, false, "x".to_string(), 1));
    assert!(!config(1, false, "x", 1).text_input_event('\n').pair_up);
    game.key_down_event(Key::Back);
    assert_eq!(shown(&game), (3, false, "x".to_string(), 1));
}

#[test]
fn typing_on_a_row_without_a_field_selects_row_zero() {
    let mut game = config(7, true, "x", 1);
    let r = game.text_input_event('a');
    assert!(r.send.is_none() && !r.pair_up);
    assert_eq!(shown(&game), (0, true, "x".to_string(), 1));
}

#[test]
fn clicks_select_rows_and_flip_the_role() {
    let mut game = config(1, false, "x", 1);
    assert!(!game.mouse_button_down_event(2));
    assert_eq!(shown(&game), (2, false, "x".to_string(), 1));
    assert!(!game.mouse_button_down_event(0));
    assert_eq!(shown(&game), (2, true, "x".to_string(), 1));
    assert!(game.mouse_button_down_event(3));
    assert_eq!(shown(&game), (3, true, "x".to_string(), 1));
    assert!(game.mouse_button_down_event(0));
    assert_eq!(shown(&game), (3, false, "x".to_string(), 1));
    assert!(!game.mouse_button_down_event(9));
    assert_eq!(shown(&game).0, 9);
    assert!(!typing("a").mouse_button_down_event(3));
}

#[test]
fn the_pairing_screen_asks_for_what_it_shows() {
    let q = config(3, false, "example", 4242).pairing_request().unwrap();
    assert_eq!((q.host, q.ip.as_str(), q.port, q.dummy), (false, "example", 4242, false));
    let q = config(3, true, "bot", 1).pairing_request().unwrap();
    assert_eq!((q.host, q.ip.as_str(), q.port, q.dummy), (true, "bot", 1, true));
    assert!(!config(3, false, "bot", 1).pairing_request().unwrap().dummy);
    assert!(!config(3, true, "Bot", 1).pairing_request().unwrap().dummy);
    assert!(typing("").pairing_request().is_none());
}

#[test]
fn after_a_match_r_asks_for_a_rematch_and_n_leaves() {
    for c in ['r', 'R'] {
        let mut game = WordGame::new(Vec::new());
        game.state = GameState::Ended {
            outcome: GameOutcome::Win,
            wpm: 1,
            waiting_to_restart: false,
            opponent_waiting_to_restart: false,
            conn: Connection::new(1u8),
        };
        assert!(game.text_input_event('x').send.is_none());
        let r = game.text_input_event(c);
        assert_eq!(r.send, Some(Packet::WaitingToRestart));
        assert!(!r.pair_up);
        assert!(matches!(
            game.state,
            GameState::Ended {
                outcome: GameOutcome::Win,
                wpm: 1,
                waiting_to_restart: true,
                opponent_waiting_to_restart: false,
                ..
            }
        ));
        assert!(game.key_down_event(Key::Return).is_empty());
        assert!(game.key_down_event(Key::Back).is_empty());
    }
    for c in ['n', 'N'] {
        let mut game = WordGame::new(Vec::new());
        game.state = GameState::Ended {
            outcome: GameOutcome::Win,
            wpm: 1,
            waiting_to_restart: true,
            opponent_waiting_to_restart: false,
            conn: Connection::new(1u8),
        };
        let r = game.text_input_event(c);
        assert!(r.send.is_none() && !r.pair_up);
        assert_eq!(shown(&game), (1, false, "localhost".to_string(), 5555));
    }
}
