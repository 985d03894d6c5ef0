//! What the player does to the session: pairing, typing, keys and clicks.

use vstd::prelude::*;
use vstd::string::*;
use crate::network::{Connection, Packet, PacketView};
use crate::text::{alphabetic, is_alphabetic, pop_char, push_char};
use crate::word_game::{
    fresh_match, initial_config, maybe_view, packets_view, submitted, submitted_packets, GameState,
    OngoingGame, OngoingView, StateView, WordGame,
};

verus! {

/// The row of the pairing screen that holds the address.
pub const ROW_ADDRESS: u32 = 1;

/// The row of the pairing screen that holds the port.
pub const ROW_PORT: u32 = 2;

/// The row of the pairing screen that starts the pairing.
pub const ROW_START: u32 = 3;

/// What the pairing screen asks for.
#[derive(Debug)]
pub struct PairingRequest {
    /// To wait for the peer (`true`) or to call it (`false`).
    pub host: bool,
    pub ip: String,
    pub port: u16,
    /// Whether the practice opponent is asked for: the host of address `bot`.
    pub dummy: bool,
}

/// Why a pairing did not start a match.
#[derive(Debug, Clone, Copy, PartialEq, Eq, Structural)]
pub enum PairUpError {
    /// The session is not on the pairing screen.
    NotPairing,
    /// No connection came about.
    NoConnection,
}

/// A key that the game reacts to.
#[derive(Debug, Clone, Copy, PartialEq, Eq, Structural)]
pub enum Key {
    Back,
    Return,
}

/// What a character typed asks of the caller.
#[derive(Debug)]
pub struct Reaction {
    /// A packet to send to the peer.
    pub send: Option<Packet>,
    /// Whether the pairing is to be started.
    pub pair_up: bool,
}

/// The value of a decimal digit; `None` for any other character.
pub open spec fn digit_value(c: char) -> Option<u32> {
    if '0' <= c <= '9' {
        Some((c as u32 - 48) as u32)
    } else {
        None
    }
}

/// The port after the digit `d` was typed behind it: unchanged where the
/// number would no longer be a port.
pub open spec fn port_with_digit(port: u16, d: u32) -> u16 {
    if port * 10 + d <= u16::MAX {
        (port * 10 + d) as u16
    } else {
        port
    }
}

/// The text after its last character was deleted.
pub open spec fn without_last(s: Seq<char>) -> Seq<char> {
    if s.len() > 0 {
        s.drop_last()
    } else {
        s
    }
}

/// The state after the character `c` was typed; `letter` says whether `c` is
/// a letter. During a match letters and blanks join the text. After a match
/// `r` raises the local rematch flag and `n` leaves for the pairing screen.
/// On the pairing screen letters and blanks join the address while its row is
/// selected, digits join the port while its row is selected, and a character
/// typed on a row that takes none selects row 0.
pub open spec fn typed<S>(s: StateView<S>, c: char, letter: bool) -> StateView<S> {
    match s {
        StateView::Ongoing(g) => if letter || c == ' ' {
            StateView::Ongoing(OngoingView { current_text: g.current_text.push(c), ..g })
        } else {
            s
        },
        StateView::Ended {
            outcome,
            wpm,
            waiting_to_restart,
            opponent_waiting_to_restart,
            stream,
            held,
        } => if c == 'r' || c == 'R' {
            StateView::Ended {
                outcome,
                wpm,
                waiting_to_restart: true,
                opponent_waiting_to_restart,
                stream,
                held,
            }
        } else if c == 'n' || c == 'N' {
            initial_config()
        } else {
            s
        },
        StateView::ConnectionConfig { input_y, host, ip, port } => if input_y == ROW_ADDRESS {
            if letter || c == ' ' {
                StateView::ConnectionConfig { input_y, host, ip: ip.push(c), port }
            } else {
                s
            }
        } else if input_y == ROW_PORT {
            match digit_value(c) {
                Some(d) => StateView::ConnectionConfig {
                    input_y,
                    host,
                    ip,
                    port: port_with_digit(port, d),
                },
                None => s,
            }
        } else if input_y == ROW_START {
            s
        } else {
            StateView::ConnectionConfig { input_y: 0, host, ip, port }
        },
    }
}

/// The packet that the character `c` typed in state `s` sends: the wish for a
/// rematch, for `r` after a match.
pub open spec fn typed_packet<S>(s: StateView<S>, c: char) -> Option<PacketView> {
    if s is Ended && (c == 'r' || c == 'R') {
        Some(PacketView::WaitingToRestart)
    } else {
        None
    }
}

/// Whether the character `c` typed in state `s` starts the pairing: a line
/// feed on the start row of the pairing screen.
pub open spec fn typed_pair_up<S>(s: StateView<S>, c: char) -> bool {
    s matches StateView::ConnectionConfig { input_y, .. } && input_y == ROW_START && c == '\n'
}

/// The state after `key` was pressed. Back deletes the last character of the
/// text of a match or of the selected field of the pairing screen, for the
/// port its last digit. Return submits the text of a match.
pub open spec fn keyed<S>(s: StateView<S>, key: Key) -> StateView<S> {
    match (key, s) {
        (Key::Back, StateView::Ongoing(g)) => StateView::Ongoing(
            OngoingView { current_text: without_last(g.current_text), ..g },
        ),
        (Key::Back, StateView::ConnectionConfig { input_y, host, ip, port }) => if input_y
            == ROW_ADDRESS {
            StateView::ConnectionConfig { input_y, host, ip: without_last(ip), port }
        } else if input_y == ROW_PORT {
            StateView::ConnectionConfig { input_y, host, ip, port: port / 10 }
        } else {
            s
        },
        (Key::Return, StateView::Ongoing(g)) => StateView::Ongoing(submitted(g)),
        _ => s,
    }
}

/// The packets that `key` pressed in state `s` sends.
pub open spec fn keyed_packets<S>(s: StateView<S>, key: Key) -> Seq<PacketView> {
    match (key, s) {
        (Key::Return, StateView::Ongoing(g)) => submitted_packets(g),
        _ => Seq::empty(),
    }
}

/// The state after a click on row `row` of the pairing screen: row 0 flips
/// the role and leaves the selection, any other row is selected.
pub open spec fn clicked<S>(s: StateView<S>, row: u32) -> StateView<S> {
    match s {
        StateView::ConnectionConfig { input_y, host, ip, port } => if row == 0 {
            StateView::ConnectionConfig { input_y, host: !host, ip, port }
        } else {
            StateView::ConnectionConfig { input_y: row, host, ip, port }
        },
        _ => s,
    }
}

/// What a one-letter answer to a yes-or-no question says: `y` is yes, `n` is
/// no, in either case; any other character is no answer.
pub open spec fn answer_of(c: char) -> Option<bool> {
    if c == 'y' || c == 'Y' {
        Some(true)
    } else if c == 'n' || c == 'N' {
        Some(false)
    } else {
        None
    }
}

/// What the one-letter answer `c` says.
pub fn yes_no(c: char) -> (r: Option<bool>)
    ensures
        r == answer_of(c),
{
    if c == 'y' || c == 'Y' {
        Some(true)
    } else if c == 'n' || c == 'N' {
        Some(false)
    } else {
        None
    }
}

/// The value of a decimal digit; `None` for any other character.
pub fn digit_of(c: char) -> (r: Option<u32>)
    ensures
        r == digit_value(c),
{
    let v: u32 = c as u32;
    if 48 <= v && v <= 57 {
        Some(v - 48)
    } else {
        None
    }
}

impl<S> WordGame<S> {
    /// What the pairing screen asks for; `None` in any other state.
    pub fn pairing_request(&self) -> (r: Option<PairingRequest>)
        ensures
            match self.state@ {
                StateView::ConnectionConfig { input_y, host, ip, port } => r matches Some(q)
                    && q.host == host && q.ip@ == ip && q.port == port && q.dummy == (host && ip
                    == "bot"@),
                _ => r is None,
            },
    {
        match &self.state {
            GameState::ConnectionConfig { host, ip, port, .. } => {
                let bot: String = "bot".to_owned();
                Some(
                    PairingRequest {
                        host: *host,
                        ip: ip.clone(),
                        port: *port,
                        dummy: *host && *ip == bot,
                    },
                )
            },
            _ => None,
        }
    }

    /// Ends the pairing: `conn` is the connection on which the handshake
    /// succeeded, or `None` where none came about. From the pairing screen and
    /// with a connection, a fresh match starts at `now` on that connection.
    /// In every other case the state stays and the error says why.
    pub fn pair_up_ui(&mut self, conn: Option<Connection<S>>, now: u64) -> (r: Result<
        (),
        PairUpError,
    >)
        ensures
            final(self).word_list == old(self).word_list,
            final(self).queued_transitions == old(self).queued_transitions,
            match (old(self).state@, conn) {
                (StateView::ConnectionConfig { .. }, Some(c)) => r is Ok && final(self).state@
                    == StateView::Ongoing(fresh_match(c.transport(), c.received(), now)),
                (StateView::ConnectionConfig { .. }, None) => r == Err::<(), PairUpError>(
                    PairUpError::NoConnection,
                ) && final(self).state == old(self).state,
                _ => r == Err::<(), PairUpError>(PairUpError::NotPairing) && final(self).state
                    == old(self).state,
            },
    {
        match &self.state {
            GameState::ConnectionConfig { .. } => {},
            _ => {
                return Err(PairUpError::NotPairing);
            },
        }
        match conn {
            Some(c) => {
                self.state = GameState::Ongoing(OngoingGame::new(c, now));
                Ok(())
            },
            None => Err(PairUpError::NoConnection),
        }
    }

    /// The player typed `character`.
    pub fn text_input_event(&mut self, character: char) -> (r: Reaction)
        ensures
            final(self).state@ == typed(old(self).state@, character, alphabetic(character)),
            maybe_view(r.send) == typed_packet(old(self).state@, character),
            r.pair_up == typed_pair_up(old(self).state@, character),
            final(self).word_list == old(self).word_list,
            final(self).queued_transitions == old(self).queued_transitions,
    {
        let letter: bool = is_alphabetic(character);
        self.type_character(character, letter)
    }

    /// The player typed `character`, which is a letter or not as `letter` says.
    pub fn type_character(&mut self, character: char, letter: bool) -> (r: Reaction)
        ensures
            final(self).state@ == typed(old(self).state@, character, letter),
            maybe_view(r.send) == typed_packet(old(self).state@, character),
            r.pair_up == typed_pair_up(old(self).state@, character),
            final(self).word_list == old(self).word_list,
            final(self).queued_transitions == old(self).queued_transitions,
    {
        let mut reaction = Reaction { send: None, pair_up: false };
        let mut leave: bool = false;
        match &mut self.state {
            GameState::Ongoing(g) => {
                if letter || character == ' ' {
                    push_char(&mut g.current_text, character);
                }
            },
            GameState::Ended { waiting_to_restart, .. } => {
                if character == 'r' || character == 'R' {
                    *waiting_to_restart = true;
                    reaction.send = Some(Packet::WaitingToRestart);
                } else if character == 'n' || character == 'N' {
                    leave = true;
                }
            },
            GameState::ConnectionConfig { input_y, ip, port, .. } => {
                if *input_y == ROW_ADDRESS {
                    if letter || character == ' ' {
                        push_char(ip, character);
                    }
                } else if *input_y == ROW_PORT {
                    match digit_of(character) {
                        Some(d) => {
                            let res: u32 = *port as u32 * 10 + d;
                            if res <= u16::MAX as u32 {
                                *port = res as u16;
                            }
                        },
                        None => {},
                    }
                } else if *input_y == ROW_START {
                    if character == '\n' {
                        reaction.pair_up = true;
                    }
                } else {
                    *input_y = 0;
                }
            },
        }
        if leave {
            self.state = GameState::initial_config();
        }
        reaction
    }

    /// The player pressed `key`. The packets returned are to be sent to the
    /// peer, in their order.
    pub fn key_down_event(&mut self, key: Key) -> (out: Vec<Packet>)
        requires
            key == Key::Return ==> (old(self).state matches GameState::Ongoing(g) ==> g.total_words
                + g.current_words@.len() + g.received_words@.len() <= u64::MAX),
        ensures
            final(self).state@ == keyed(old(self).state@, key),
            packets_view(out) == keyed_packets(old(self).state@, key),
            final(self).word_list == old(self).word_list,
            final(self).queued_transitions == old(self).queued_transitions,
    {
        let mut out: Vec<Packet> = Vec::new();
        assert(packets_view(out) =~= Seq::<PacketView>::empty());
        match &mut self.state {
            GameState::Ongoing(g) => match key {
                Key::Back => {
                    pop_char(&mut g.current_text);
                },
                Key::Return => {
                    out = g.submit();
                },
            },
            GameState::ConnectionConfig { input_y, ip, port, .. } => match key {
                Key::Back => {
                    if *input_y == ROW_ADDRESS {
                        pop_char(ip);
                    } else if *input_y == ROW_PORT {
                        *port = *port / 10;
                    }
                },
                Key::Return => {},
            },
            GameState::Ended { .. } => {},
        }
        out
    }

    /// The player clicked on row `row` of the screen, counted from the top.
    /// Says whether the pairing is to be started: the start row is selected.
    pub fn mouse_button_down_event(&mut self, row: u32) -> (pair_up: bool)
        ensures
            final(self).state@ == clicked(old(self).state@, row),
            pair_up == (final(self).state@ matches StateView::ConnectionConfig { input_y, .. }
                && input_y == ROW_START),
            final(self).word_list == old(self).word_list,
            final(self).queued_transitions == old(self).queued_transitions,
    {
        match &mut self.state {
            GameState::ConnectionConfig { input_y, host, .. } => {
                let mut new_input_y: u32 = row;
                if new_input_y == 0 {
                    *host = !*host;
                    new_input_y = *input_y;
                }
                *input_y = new_input_y;
                new_input_y == ROW_START
            },
            _ => false,
        }
    }
}

} // verus!
