//! The session: pairing, a match under way, a match that ended, and the
//! rules that lead from one to the next.

use rand::Rng;
use vstd::prelude::*;
use vstd::string::*;
use vstd::slice::*;
use crate::network::{
    frame_prefix, poll_held, poll_result, poll_used, within_frame, Connection, Packet,
    PacketView,
};
use crate::wire::DecodeError;
use crate::text::{lowercase, lowered, same_word, to_lowercase};

verus! {

/// The offered-word list never grows beyond this; it is also the highest
/// number of unanswered words a player may hold.
pub const WORD_LIMIT: usize = 20;

/// The lowest value the loss limit falls to.
pub const LIMIT_FLOOR: usize = 0;

/// Below this many offered words a new one is injected at once.
pub const LOW_WATER: usize = 5;

/// More than this many milliseconds after the last injection a new word is due.
pub const INJECT_INTERVAL_MS: u64 = 300;

/// The loss limit falls by one for each such stretch of match time.
pub const LIMIT_STEP_SECS: u64 = 6;

/// How a match ended for the local player.
#[derive(Debug, Clone, Copy, PartialEq, Eq, Structural)]
pub enum GameOutcome {
    Win,
    Loss,
}

/// A trigger that moves the session from one state to another.
#[derive(Debug, Clone, Copy, PartialEq, Eq, Structural)]
pub enum StateTransition {
    WinGame,
    LoseGame,
    RestartGame,
}

/// Which of its three states a session is in.
#[derive(Debug, Clone, Copy, PartialEq, Eq, Structural)]
pub enum StateKind {
    ConnectionConfig,
    Ongoing,
    Ended,
}

/// A trigger was asked for in a state that does not take it.
#[derive(Debug, Clone, Copy, PartialEq, Eq, Structural)]
pub struct TransitionError {
    pub transition: StateTransition,
    pub state: StateKind,
}

/// A match under way. Times are milliseconds on the caller's monotonic clock.
#[derive(Debug)]
pub struct OngoingGame<S> {
    pub start_time: u64,
    pub total_words: u64,
    pub current_words: Vec<String>,
    pub received_words: Vec<String>,
    pub last_new_word: u64,
    pub current_text: String,
    pub conn: Connection<S>,
}

/// The session. A connection, where there is one, belongs to the one state
/// that holds it, and moves with each transition.
#[derive(Debug)]
pub enum GameState<S> {
    Ongoing(OngoingGame<S>),
    Ended {
        outcome: GameOutcome,
        /// Hundredths of a word per minute.
        wpm: u64,
        waiting_to_restart: bool,
        opponent_waiting_to_restart: bool,
        conn: Connection<S>,
    },
    ConnectionConfig { input_y: u32, host: bool, ip: String, port: u16 },
}

/// A list of words as a mathematical value.
pub open spec fn words_view(words: Vec<String>) -> Seq<Seq<char>> {
    Seq::new(words@.len(), |i: int| words@[i]@)
}

/// A match under way as a mathematical value.
pub struct OngoingView<S> {
    pub start_time: u64,
    pub total_words: u64,
    pub current_words: Seq<Seq<char>>,
    pub received_words: Seq<Seq<char>>,
    pub last_new_word: u64,
    pub current_text: Seq<char>,
    pub stream: S,
    pub held: Seq<u8>,
}

/// A session as a mathematical value.
pub enum StateView<S> {
    Ongoing(OngoingView<S>),
    Ended {
        outcome: GameOutcome,
        wpm: u64,
        waiting_to_restart: bool,
        opponent_waiting_to_restart: bool,
        stream: S,
        held: Seq<u8>,
    },
    ConnectionConfig { input_y: u32, host: bool, ip: Seq<char>, port: u16 },
}

impl<S> View for OngoingGame<S> {
    type V = OngoingView<S>;

    open spec fn view(&self) -> OngoingView<S> {
        OngoingView {
            start_time: self.start_time,
            total_words: self.total_words,
            current_words: words_view(self.current_words),
            received_words: words_view(self.received_words),
            last_new_word: self.last_new_word,
            current_text: self.current_text@,
            stream: self.conn.transport(),
            held: self.conn.received(),
        }
    }
}

impl<S> View for GameState<S> {
    type V = StateView<S>;

    open spec fn view(&self) -> StateView<S> {
        match self {
            GameState::Ongoing(g) => StateView::Ongoing(g@),
            GameState::Ended {
                outcome,
                wpm,
                waiting_to_restart,
                opponent_waiting_to_restart,
                conn,
            } => StateView::Ended {
                outcome: *outcome,
                wpm: *wpm,
                waiting_to_restart: *waiting_to_restart,
                opponent_waiting_to_restart: *opponent_waiting_to_restart,
                stream: conn.transport(),
                held: conn.received(),
            },
            GameState::ConnectionConfig { input_y, host, ip, port } => StateView::ConnectionConfig {
                input_y: *input_y,
                host: *host,
                ip: ip@,
                port: *port,
            },
        }
    }
}

impl<S> StateView<S> {
    pub open spec fn kind(self) -> StateKind {
        match self {
            StateView::Ongoing(_) => StateKind::Ongoing,
            StateView::Ended { .. } => StateKind::Ended,
            StateView::ConnectionConfig { .. } => StateKind::ConnectionConfig,
        }
    }
}

/// The match time at `now` of a match that started at `start`.
pub open spec fn elapsed_ms(start: u64, now: u64) -> int {
    if now >= start {
        now - start
    } else {
        0
    }
}

/// The loss limit after `elapsed` milliseconds: `WORD_LIMIT` for the first two
/// minutes, then one less for each six seconds, down to `LIMIT_FLOOR`.
pub open spec fn limit_at(elapsed: int) -> int {
    let ramp = 2 * WORD_LIMIT - (elapsed / 1000) / (LIMIT_STEP_SECS as int);
    if ramp >= WORD_LIMIT {
        WORD_LIMIT as int
    } else if ramp <= LIMIT_FLOOR {
        LIMIT_FLOOR as int
    } else {
        ramp
    }
}

/// Words per minute, in hundredths: the words completed over the match time
/// in minutes. Zero while no time has passed; held at `u64::MAX` above it.
pub open spec fn wpm_at(total_words: u64, elapsed: int) -> int {
    if elapsed <= 0 {
        0
    } else if total_words * 6_000_000 / elapsed > u64::MAX {
        u64::MAX as int
    } else {
        total_words * 6_000_000 / elapsed
    }
}

/// The limit only falls as the match goes on, and stays between the floor and
/// `WORD_LIMIT`.
pub proof fn lemma_limit_monotone(t1: int, t2: int)
    requires
        0 <= t1 <= t2,
    ensures
        limit_at(t2) <= limit_at(t1),
        LIMIT_FLOOR <= limit_at(t1) <= WORD_LIMIT,
        LIMIT_FLOOR <= limit_at(t2) <= WORD_LIMIT,
{
    let s1 = t1 / 1000;
    let s2 = t2 / 1000;
    assert(s1 <= s2) by (nonlinear_arith)
        requires
            0 <= t1 <= t2,
            s1 == t1 / 1000,
            s2 == t2 / 1000,
    ;
    assert(s1 / 6 <= s2 / 6) by (nonlinear_arith)
        requires
            s1 <= s2,
    ;
}

/// The rate rises with the number of words completed and falls with time.
pub proof fn lemma_wpm_monotone(w1: u64, w2: u64, t1: int, t2: int)
    requires
        w1 <= w2,
        0 < t1 <= t2,
    ensures
        wpm_at(w1, t1) <= wpm_at(w2, t1),
        wpm_at(w1, t2) <= wpm_at(w1, t1),
{
    let a = w1 * 6_000_000;
    let b = w2 * 6_000_000;
    assert(a / t1 <= b / t1) by (nonlinear_arith)
        requires
            0 <= a <= b,
            0 < t1,
    ;
    assert(a / t2 <= a / t1) by (nonlinear_arith)
        requires
            0 <= a,
            0 < t1 <= t2,
    ;
}

/// A list of packets as a mathematical value.
pub open spec fn packets_view(packets: Vec<Packet>) -> Seq<PacketView> {
    Seq::new(packets@.len(), |i: int| packets@[i]@)
}

/// The entries of `words` whose key is `target` (for `hit`), or is not (for
/// `!hit`), in their order. The key of `words[i]` is `keys[i]`; an entry
/// without a key counts as one whose key is not `target`.
pub open spec fn select_by_key(
    words: Seq<Seq<char>>,
    keys: Seq<Seq<char>>,
    target: Seq<char>,
    hit: bool,
) -> Seq<Seq<char>>
    decreases words.len(),
{
    if words.len() == 0 {
        Seq::empty()
    } else {
        let i = words.len() - 1;
        let rest = select_by_key(words.drop_last(), keys, target, hit);
        if (i < keys.len() && keys[i] == target) == hit {
            rest.push(words[i])
        } else {
            rest
        }
    }
}

/// The AddWord packets for `words`, one each, in their order.
pub open spec fn add_word_packets(words: Seq<Seq<char>>) -> Seq<PacketView> {
    Seq::new(words.len(), |i: int| PacketView::AddWord { word: words[i] })
}

/// With each word's lower-case form as its key, selecting by key is
/// selecting the words that are, or are not, the same word as `text`.
pub proof fn lemma_select_is_filter(
    words: Seq<Seq<char>>,
    keys: Seq<Seq<char>>,
    text: Seq<char>,
)
    requires
        keys.len() == words.len(),
        forall|i: int| 0 <= i < words.len() ==> #[trigger] keys[i] == lowercase(words[i]),
    ensures
        select_by_key(words, keys, lowercase(text), true) == words.filter(
            |w: Seq<char>| same_word(w, text),
        ),
        select_by_key(words, keys, lowercase(text), false) == words.filter(
            |w: Seq<char>| !same_word(w, text),
        ),
    decreases words.len(),
{
    reveal(Seq::filter);
    if words.len() > 0 {
        lemma_select_is_filter(words.drop_last(), keys.drop_last(), text);
        lemma_select_ignores_later_keys(words.drop_last(), keys, lowercase(text), true);
        lemma_select_ignores_later_keys(words.drop_last(), keys, lowercase(text), false);
    }
}

/// Keys behind the last word play no part.
proof fn lemma_select_ignores_later_keys(
    words: Seq<Seq<char>>,
    keys: Seq<Seq<char>>,
    target: Seq<char>,
    hit: bool,
)
    requires
        words.len() < keys.len(),
    ensures
        select_by_key(words, keys, target, hit) == select_by_key(
            words,
            keys.drop_last(),
            target,
            hit,
        ),
    decreases words.len(),
{
    if words.len() > 0 {
        lemma_select_ignores_later_keys(words.drop_last(), keys, target, hit);
        if words.len() - 1 < keys.len() - 1 {
            lemma_select_ignores_later_keys(words.drop_last(), keys.drop_last(), target, hit);
        }
    }
}

/// Parts `words` by key: first the entries whose key is not `target`, then
/// those whose key is, each in their order.
pub fn split_by_key(words: &Vec<String>, keys: &Vec<String>, target: &String) -> (r: (
    Vec<String>,
    Vec<String>,
))
    ensures
        words_view(r.0) == select_by_key(words_view(*words), words_view(*keys), target@, false),
        words_view(r.1) == select_by_key(words_view(*words), words_view(*keys), target@, true),
        r.0@.len() + r.1@.len() == words@.len(),
{
    let mut kept: Vec<String> = Vec::new();
    let mut taken: Vec<String> = Vec::new();
    let ghost w = words_view(*words);
    let ghost k = words_view(*keys);
    let mut i: usize = 0;
    assert(w.subrange(0, 0) =~= Seq::<Seq<char>>::empty());
    while i < words.len()
        invariant
            i <= words@.len(),
            w == words_view(*words),
            k == words_view(*keys),
            words_view(kept) == select_by_key(w.subrange(0, i as int), k, target@, false),
            words_view(taken) == select_by_key(w.subrange(0, i as int), k, target@, true),
            kept@.len() + taken@.len() == i,
        decreases words@.len() - i,
    {
        let is_hit: bool = i < keys.len() && keys[i] == *target;
        let ghost before_kept = words_view(kept);
        let ghost before_taken = words_view(taken);
        let word = words[i].clone();
        if is_hit {
            taken.push(word);
        } else {
            kept.push(word);
        }
        proof {
            let next = w.subrange(0, i as int + 1);
            assert(next.drop_last() =~= w.subrange(0, i as int));
            assert(next[i as int] == w[i as int]);
            if is_hit {
                assert(words_view(taken) =~= before_taken.push(w[i as int]));
                assert(words_view(kept) =~= before_kept);
            } else {
                assert(words_view(kept) =~= before_kept.push(w[i as int]));
                assert(words_view(taken) =~= before_taken);
            }
        }
        i += 1;
    }
    assert(w.subrange(0, i as int) =~= w);
    (kept, taken)
}

/// The match after the player submitted the text typed: every offered and
/// every received word that is the same word as the text is gone, each of
/// them is counted, and the text is cleared.
pub open spec fn submitted<S>(g: OngoingView<S>) -> OngoingView<S> {
    let offered = g.current_words.filter(|w: Seq<char>| !same_word(w, g.current_text));
    let received = g.received_words.filter(|w: Seq<char>| !same_word(w, g.current_text));
    OngoingView {
        total_words: (g.total_words + (g.current_words.len() - offered.len()) + (
        g.received_words.len() - received.len())) as u64,
        current_words: offered,
        received_words: received,
        current_text: Seq::empty(),
        ..g
    }
}

/// What the player's submission sends to the peer: one AddWord for each
/// offered word that is retired, in the order of the list. A received word
/// that is retired sends nothing.
pub open spec fn submitted_packets<S>(g: OngoingView<S>) -> Seq<PacketView> {
    add_word_packets(g.current_words.filter(|w: Seq<char>| same_word(w, g.current_text)))
}

impl<S> OngoingGame<S> {
    /// A fresh match on `conn` that starts at `now`: nothing completed,
    /// nothing offered, nothing received, nothing typed.
    pub fn new(conn: Connection<S>, now: u64) -> (g: OngoingGame<S>)
        ensures
            g@ == (OngoingView {
                start_time: now,
                total_words: 0,
                current_words: Seq::empty(),
                received_words: Seq::empty(),
                last_new_word: now,
                current_text: Seq::empty(),
                stream: conn.transport(),
                held: conn.received(),
            }),
            g.conn == conn,
    {
        let g = OngoingGame {
            start_time: now,
            total_words: 0,
            current_words: Vec::new(),
            received_words: Vec::new(),
            last_new_word: now,
            current_text: String::new(),
            conn,
        };
        assert(g@.current_words =~= Seq::empty());
        assert(g@.received_words =~= Seq::empty());
        g
    }

    /// The most unanswered words the player may hold at `now`.
    pub fn limit(&self, now: u64) -> (l: usize)
        ensures
            l == limit_at(elapsed_ms(self.start_time, now)),
    {
        let elapsed: u64 = if now >= self.start_time {
            now - self.start_time
        } else {
            0
        };
        let steps: u64 = elapsed / 1000 / LIMIT_STEP_SECS;
        if steps <= WORD_LIMIT as u64 {
            WORD_LIMIT
        } else if steps >= 2 * WORD_LIMIT as u64 - LIMIT_FLOOR as u64 {
            LIMIT_FLOOR
        } else {
            2 * WORD_LIMIT - steps as usize
        }
    }

    /// The player's rate at `now`, in hundredths of a word per minute.
    pub fn wpm(&self, now: u64) -> (r: u64)
        ensures
            r == wpm_at(self.total_words, elapsed_ms(self.start_time, now)),
    {
        if now <= self.start_time {
            return 0;
        }
        let elapsed: u128 = (now - self.start_time) as u128;
        let scaled: u128 = self.total_words as u128 * 6_000_000;
        let rate: u128 = scaled / elapsed;
        if rate > u64::MAX as u128 {
            u64::MAX
        } else {
            rate as u64
        }
    }

    /// The player submits the text typed. Every offered and every received
    /// word that is the same word as the text, whatever its case, is retired
    /// and counted; the text is cleared. The packets returned are to be sent
    /// to the peer: one AddWord for each offered word that was retired.
    pub fn submit(&mut self) -> (out: Vec<Packet>)
        requires
            old(self).total_words + old(self).current_words@.len()
                + old(self).received_words@.len() <= u64::MAX,
        ensures
            final(self)@ == submitted(old(self)@),
            packets_view(out) == submitted_packets(old(self)@),
            final(self).conn == old(self).conn,
    {
        let target = to_lowercase(self.current_text.as_str());
        let offered_keys = lowered(&self.current_words);
        let received_keys = lowered(&self.received_words);
        proof {
            lemma_select_is_filter(
                self@.current_words,
                words_view(offered_keys),
                self@.current_text,
            );
            lemma_select_is_filter(
                self@.received_words,
                words_view(received_keys),
                self@.current_text,
            );
        }
        let (kept, sent) = split_by_key(&self.current_words, &offered_keys, &target);
        let (left, answered) = split_by_key(&self.received_words, &received_keys, &target);
        let retired: u64 = sent.len() as u64 + answered.len() as u64;
        let mut out: Vec<Packet> = Vec::new();
        let mut i: usize = 0;
        while i < sent.len()
            invariant
                i <= sent@.len(),
                out@.len() == i,
                forall|k: int|
                    0 <= k < i ==> (#[trigger] out@[k])@ == (PacketView::AddWord {
                        word: sent@[k]@,
                    }),
            decreases sent@.len() - i,
        {
            out.push(Packet::add_word(sent[i].as_str()));
            i += 1;
        }
        assert(packets_view(out) =~= add_word_packets(words_view(sent)));
        self.current_words = kept;
        self.received_words = left;
        self.total_words = self.total_words + retired;
        self.current_text = String::new();
        out
    }
}

/// `rand::thread_rng().gen_range(0..n)`: some index below `n`. Which one is
/// not said; two calls may well differ.
#[verifier::external_body]
fn random_index(n: usize) -> (r: usize)
    requires
        n > 0,
    ensures
        r < n,
{
    rand::thread_rng().gen_range(0..n)
}

/// `list[i]` is a word that is not among `offered`.
pub open spec fn is_fresh(list: Seq<Seq<char>>, offered: Seq<Seq<char>>, i: int) -> bool {
    0 <= i < list.len() && !offered.contains(list[i])
}

/// How many steps lead from `start` to `i` on a ring of `n` places.
pub open spec fn ring_distance(start: int, i: int, n: int) -> int {
    if i >= start % n {
        i - start % n
    } else {
        i - start % n + n
    }
}

/// Whether `word` is among `words`.
pub fn contains_word(words: &Vec<String>, word: &String) -> (r: bool)
    ensures
        r == words_view(*words).contains(word@),
{
    let mut i: usize = 0;
    while i < words.len()
        invariant
            i <= words@.len(),
            forall|k: int| 0 <= k < i ==> words_view(*words)[k] != word@,
        decreases words@.len() - i,
    {
        if words[i] == *word {
            assert(words_view(*words)[i as int] == word@);
            return true;
        }
        i += 1;
    }
    false
}

/// The first place in `list`, going round from `start`, that holds a word
/// not among `offered`; `None` where every word of `list` is among them.
pub fn next_fresh_word(list: &Vec<String>, offered: &Vec<String>, start: usize) -> (r: Option<
    usize,
>)
    ensures
        match r {
            Some(i) => is_fresh(words_view(*list), words_view(*offered), i as int) && forall|
                j: int,
            |
                is_fresh(words_view(*list), words_view(*offered), j) ==> ring_distance(
                    start as int,
                    i as int,
                    list@.len() as int,
                ) <= ring_distance(start as int, j, list@.len() as int),
            None => forall|j: int| !is_fresh(words_view(*list), words_view(*offered), j),
        },
{
    let n: usize = list.len();
    if n == 0 {
        return None;
    }
    let first: usize = start % n;
    let mut k: usize = 0;
    while k < n
        invariant
            n == list@.len(),
            0 < n,
            first == start % n,
            k <= n,
            forall|j: int|
                0 <= j < n && ring_distance(start as int, j, n as int) < k ==> !is_fresh(
                    words_view(*list),
                    words_view(*offered),
                    j,
                ),
        decreases n - k,
    {
        let i: usize = if k < n - first {
            first + k
        } else {
            k - (n - first)
        };
        assert(ring_distance(start as int, i as int, n as int) == k);
        if !contains_word(offered, &list[i]) {
            return Some(i);
        }
        assert forall|j: int|
            0 <= j < n && ring_distance(start as int, j, n as int) < k + 1 implies !is_fresh(
            words_view(*list),
            words_view(*offered),
            j,
        ) by {
            if ring_distance(start as int, j, n as int) == k {
                assert(j == i);
            }
        }
        k += 1;
    }
    None
}

/// Whether a word is due at `now`: the last one came more than
/// `INJECT_INTERVAL_MS` ago or fewer than `LOW_WATER` are offered, and the
/// list is not yet at `WORD_LIMIT`.
pub open spec fn inject_due(offered: int, last_new_word: u64, now: u64) -> bool {
    (elapsed_ms(last_new_word, now) > INJECT_INTERVAL_MS || offered < LOW_WATER) && offered
        < WORD_LIMIT
}

impl<S> OngoingGame<S> {
    /// Offers one more word of `list`, picked at random among those not yet
    /// offered. Says whether there was one; where there was none, nothing
    /// changes.
    pub fn add_new_word(&mut self, list: &Vec<String>) -> (added: bool)
        ensures
            added <==> exists|i: int| is_fresh(words_view(*list), old(self)@.current_words, i),
            added ==> exists|i: int|
                is_fresh(words_view(*list), old(self)@.current_words, i)
                    && final(self)@.current_words == old(self)@.current_words.push(
                    #[trigger] words_view(*list)[i],
                ),
            !added ==> final(self)@.current_words == old(self)@.current_words,
            final(self)@ == (OngoingView {
                current_words: final(self)@.current_words,
                ..old(self)@
            }),
            final(self).conn == old(self).conn,
    {
        if list.len() == 0 {
            return false;
        }
        let start: usize = random_index(list.len());
        match next_fresh_word(list, &self.current_words, start) {
            Some(i) => {
                let ghost before = self@.current_words;
                self.current_words.push(list[i].clone());
                assert(self@.current_words =~= before.push(words_view(*list)[i as int]));
                true
            },
            None => false,
        }
    }

    /// Whether a word is due at `now`.
    pub fn inject_due(&self, now: u64) -> (due: bool)
        ensures
            due == inject_due(self.current_words@.len() as int, self.last_new_word, now),
    {
        let waited: u64 = if now >= self.last_new_word {
            now - self.last_new_word
        } else {
            0
        };
        (waited > INJECT_INTERVAL_MS || self.current_words.len() < LOW_WATER)
            && self.current_words.len() < WORD_LIMIT
    }
}

/// A fresh match that starts at `now` on the connection given.
pub open spec fn fresh_match<S>(stream: S, held: Seq<u8>, now: u64) -> OngoingView<S> {
    OngoingView {
        start_time: now,
        total_words: 0,
        current_words: Seq::empty(),
        received_words: Seq::empty(),
        last_new_word: now,
        current_text: Seq::empty(),
        stream,
        held,
    }
}

/// The state that `t` leads to from `s` at `now`, or the error where `s` does
/// not take `t`. A match under way ends on a win or a loss: the rate is
/// fixed, both rematch flags are down. A match that ended starts anew once
/// both ends wait for it. The connection goes along each time.
pub open spec fn transition_view<S>(s: StateView<S>, t: StateTransition, now: u64) -> Result<
    StateView<S>,
    TransitionError,
> {
    match (t, s) {
        (StateTransition::WinGame, StateView::Ongoing(g)) => Ok(
            StateView::Ended {
                outcome: GameOutcome::Win,
                wpm: wpm_at(g.total_words, elapsed_ms(g.start_time, now)) as u64,
                waiting_to_restart: false,
                opponent_waiting_to_restart: false,
                stream: g.stream,
                held: g.held,
            },
        ),
        (StateTransition::LoseGame, StateView::Ongoing(g)) => Ok(
            StateView::Ended {
                outcome: GameOutcome::Loss,
                wpm: wpm_at(g.total_words, elapsed_ms(g.start_time, now)) as u64,
                waiting_to_restart: false,
                opponent_waiting_to_restart: false,
                stream: g.stream,
                held: g.held,
            },
        ),
        (
            StateTransition::RestartGame,
            StateView::Ended {
                waiting_to_restart: true,
                opponent_waiting_to_restart: true,
                stream,
                held,
                ..
            },
        ) => Ok(StateView::Ongoing(fresh_match(stream, held, now))),
        _ => Err(TransitionError { transition: t, state: s.kind() }),
    }
}

/// The state after the triggers `ts`, taken in order from `s` at `now`, and
/// whether all of them were taken. The first trigger that the state before it
/// does not take ends the run with its error, and the state stays as that
/// trigger found it.
pub open spec fn run_transitions<S>(s: StateView<S>, ts: Seq<StateTransition>, now: u64) -> (
    StateView<S>,
    Result<(), TransitionError>,
)
    decreases ts.len(),
{
    if ts.len() == 0 {
        (s, Ok(()))
    } else {
        match transition_view(s, ts[0], now) {
            Ok(next) => run_transitions(next, ts.drop_first(), now),
            Err(e) => (s, Err(e)),
        }
    }
}

impl<S> GameState<S> {
    /// Which of the three states this is.
    pub fn kind(&self) -> (k: StateKind)
        ensures
            k == self@.kind(),
    {
        match self {
            GameState::Ongoing(_) => StateKind::Ongoing,
            GameState::Ended { .. } => StateKind::Ended,
            GameState::ConnectionConfig { .. } => StateKind::ConnectionConfig,
        }
    }

    /// Takes the state and gives the one that `t` leads to at `now`. Where
    /// the state does not take `t`, it comes back as it was, with the error.
    pub fn transition(self, t: StateTransition, now: u64) -> (r: (
        GameState<S>,
        Result<(), TransitionError>,
    ))
        ensures
            match r.1 {
                Ok(()) => transition_view(self@, t, now) == Ok::<StateView<S>, TransitionError>(
                    r.0@,
                ),
                Err(e) => transition_view(self@, t, now) == Err::<StateView<S>, TransitionError>(e)
                    && r.0 == self,
            },
    {
        match (t, self) {
            (StateTransition::WinGame, GameState::Ongoing(g)) => {
                let wpm = g.wpm(now);
                (
                    GameState::Ended {
                        outcome: GameOutcome::Win,
                        wpm,
                        waiting_to_restart: false,
                        opponent_waiting_to_restart: false,
                        conn: g.conn,
                    },
                    Ok(()),
                )
            },
            (StateTransition::LoseGame, GameState::Ongoing(g)) => {
                let wpm = g.wpm(now);
                (
                    GameState::Ended {
                        outcome: GameOutcome::Loss,
                        wpm,
                        waiting_to_restart: false,
                        opponent_waiting_to_restart: false,
                        conn: g.conn,
                    },
                    Ok(()),
                )
            },
            (
                StateTransition::RestartGame,
                GameState::Ended {
                    outcome,
                    wpm,
                    waiting_to_restart,
                    opponent_waiting_to_restart,
                    conn,
                },
            ) => {
                if waiting_to_restart && opponent_waiting_to_restart {
                    (GameState::Ongoing(OngoingGame::new(conn, now)), Ok(()))
                } else {
                    (
                        GameState::Ended {
                            outcome,
                            wpm,
                            waiting_to_restart,
                            opponent_waiting_to_restart,
                            conn,
                        },
                        Err(TransitionError { transition: t, state: StateKind::Ended }),
                    )
                }
            },
            (t, state) => {
                let kind = state.kind();
                (state, Err(TransitionError { transition: t, state: kind }))
            },
        }
    }
}

/// The game: the list that words are drawn from, the session, and the
/// triggers that wait to be applied.
#[derive(Debug)]
pub struct WordGame<S> {
    pub word_list: Vec<String>,
    pub state: GameState<S>,
    pub queued_transitions: Vec<StateTransition>,
}

/// What the pairing screen shows at first.
pub open spec fn initial_config<S>() -> StateView<S> {
    StateView::ConnectionConfig { input_y: 1, host: false, ip: "localhost"@, port: 5555 }
}

impl<S> GameState<S> {
    /// The pairing screen as it first shows: the address field selected, the
    /// joining role, `localhost`, port 5555.
    pub fn initial_config() -> (s: GameState<S>)
        ensures
            s@ == initial_config::<S>(),
    {
        GameState::ConnectionConfig {
            input_y: 1,
            host: false,
            ip: "localhost".to_owned(),
            port: 5555,
        }
    }
}

impl<S> WordGame<S> {
    /// The triggers that wait to be applied, oldest first.
    pub open spec fn queued(&self) -> Seq<StateTransition> {
        self.queued_transitions@
    }

    /// A game that draws its words from `word_list` and starts on the
    /// pairing screen.
    pub fn new(word_list: Vec<String>) -> (g: WordGame<S>)
        ensures
            g.word_list == word_list,
            g.state@ == initial_config::<S>(),
            g.queued() == Seq::<StateTransition>::empty(),
    {
        WordGame { word_list, state: GameState::initial_config(), queued_transitions: Vec::new() }
    }

    /// Puts `transition` behind the triggers that wait.
    pub fn queue_transition(&mut self, transition: StateTransition)
        ensures
            final(self).queued() == old(self).queued().push(transition),
            final(self).state == old(self).state,
            final(self).word_list == old(self).word_list,
    {
        self.queued_transitions.push(transition);
    }

    /// Applies the triggers that wait, oldest first, at `now`, and empties
    /// the queue. The first trigger that the state before it does not take
    /// ends the run: its error is returned and the state stays as that
    /// trigger found it.
    pub fn flush_transitions(&mut self, now: u64) -> (r: Result<(), TransitionError>)
        ensures
            (final(self).state@, r) == run_transitions(old(self).state@, old(self).queued(), now),
            final(self).queued() == Seq::<StateTransition>::empty(),
            final(self).word_list == old(self).word_list,
            old(self).queued().len() == 0 ==> final(self).state == old(self).state,
    {
        let ghost ts = self.queued();
        let ghost start = self.state@;
        if self.queued_transitions.len() == 0 {
            return Ok(());
        }
        let mut state: GameState<S> = GameState::ConnectionConfig {
            input_y: 0,
            host: false,
            ip: String::new(),
            port: 0,
        };
        core::mem::swap(&mut self.state, &mut state);
        let mut applied: Result<(), TransitionError> = Ok(());
        let mut i: usize = 0;
        assert(ts.subrange(0, ts.len() as int) =~= ts);
        while i < self.queued_transitions.len() && applied.is_ok()
            invariant
                i <= ts.len(),
                ts == self.queued_transitions@,
                applied is Ok ==> applied == Ok::<(), TransitionError>(()),
                run_transitions(start, ts, now) == if applied is Ok {
                    run_transitions(state@, ts.subrange(i as int, ts.len() as int), now)
                } else {
                    (state@, applied)
                },
            decreases ts.len() - i, if applied is Ok { 1int } else { 0int },
        {
            let t = self.queued_transitions[i];
            let ghost rest = ts.subrange(i as int, ts.len() as int);
            assert(rest[0] == t);
            assert(rest.drop_first() =~= ts.subrange(i as int + 1, ts.len() as int));
            let (next, outcome) = state.transition(t, now);
            state = next;
            match outcome {
                Ok(()) => {
                    i += 1;
                },
                Err(e) => {
                    applied = Err(e);
                },
            }
        }
        proof {
            if applied is Ok {
                assert(ts.subrange(i as int, ts.len() as int).len() == 0);
            }
        }
        self.state = state;
        self.queued_transitions = Vec::new();
        applied
    }
}

/// Why a call on the session failed.
#[derive(Debug, Clone, Copy, PartialEq, Eq, Structural)]
pub enum SessionError {
    /// A frame of the peer was no packet; the match cannot go on.
    Decode(DecodeError),
    /// A trigger met a state that does not take it.
    Transition(TransitionError),
}

impl<S> StateView<S> {
    /// Whether the state holds a connection.
    pub open spec fn has_conn(self) -> bool {
        !(self is ConnectionConfig)
    }

    /// The transport of the state's connection. Only a state with a
    /// connection has one.
    pub open spec fn stream(self) -> S
        recommends
            self.has_conn(),
    {
        match self {
            StateView::Ongoing(g) => g.stream,
            StateView::Ended { stream, .. } => stream,
            StateView::ConnectionConfig { .. } => arbitrary(),
        }
    }

    /// What the state's connection has buffered.
    pub open spec fn held(self) -> Seq<u8> {
        match self {
            StateView::Ongoing(g) => g.held,
            StateView::Ended { held, .. } => held,
            StateView::ConnectionConfig { .. } => Seq::empty(),
        }
    }

    /// The state with `held` buffered in its connection.
    pub open spec fn with_held(self, held: Seq<u8>) -> StateView<S> {
        match self {
            StateView::Ongoing(g) => StateView::Ongoing(OngoingView { held, ..g }),
            StateView::Ended {
                outcome,
                wpm,
                waiting_to_restart,
                opponent_waiting_to_restart,
                stream,
                held: _,
            } => StateView::Ended {
                outcome,
                wpm,
                waiting_to_restart,
                opponent_waiting_to_restart,
                stream,
                held,
            },
            StateView::ConnectionConfig { .. } => self,
        }
    }

    /// Whether `p` ends the match under way: the peer concedes.
    pub open spec fn conceded_by(self, p: PacketView) -> bool {
        self is Ongoing && p is ILost
    }

    /// The state after the peer's packet `p`. During a match a word of the
    /// peer joins the received words. After a match the peer's wish for a
    /// rematch is noted. Any other packet changes nothing.
    pub open spec fn after_packet(self, p: PacketView) -> StateView<S> {
        match (self, p) {
            (StateView::Ongoing(g), PacketView::AddWord { word }) => StateView::Ongoing(
                OngoingView { received_words: g.received_words.push(word), ..g },
            ),
            (
                StateView::Ended {
                    outcome,
                    wpm,
                    waiting_to_restart,
                    opponent_waiting_to_restart: _,
                    stream,
                    held,
                },
                PacketView::WaitingToRestart,
            ) => StateView::Ended {
                outcome,
                wpm,
                waiting_to_restart,
                opponent_waiting_to_restart: true,
                stream,
                held,
            },
            _ => self,
        }
    }
}

/// What reading the peer's bytes came to.
pub struct Drained<S> {
    /// The state after the packets read.
    pub state: StateView<S>,
    /// How many of the bytes were taken.
    pub used: int,
    /// Whether the last packet read was the peer's concession.
    pub conceded: bool,
    /// The decode error that ended the reading, if one did.
    pub failure: Option<DecodeError>,
}

/// Reads the bytes `incoming` in state `s`, packet by packet: each packet
/// has its effect on the state, in the order of arrival. The reading ends
/// where the bytes end in the middle of a frame, with the peer's concession
/// during a match, or with a frame that is no packet. A state without a
/// connection reads nothing.
#[verifier::opaque]
pub open spec fn drain<S>(s: StateView<S>, incoming: Seq<u8>) -> Drained<S>
    decreases incoming.len(), s.held().len(),
{
    let used = poll_used(s.held(), incoming);
    if !s.has_conn() || !within_frame(s.held()) || used < 0 || used > incoming.len() {
        Drained { state: s, used: 0, conceded: false, failure: None }
    } else {
        let after = s.with_held(poll_held(s.held(), incoming));
        match poll_result(s.held(), incoming) {
            Ok(None) => Drained { state: after, used, conceded: false, failure: None },
            Err(e) => Drained { state: after, used, conceded: false, failure: Some(e) },
            Ok(Some(p)) => if after.conceded_by(p) {
                Drained { state: after, used, conceded: true, failure: None }
            } else {
                let d = drain(after.after_packet(p), incoming.skip(used));
                Drained { used: used + d.used, ..d }
            },
        }
    }
}

impl<S> WordGame<S> {
    /// The effect of one packet of the peer on the state. Says whether the
    /// packet was the peer's concession during a match; the state is then as
    /// it was, and the win is up to the caller.
    pub fn handle_packet(&mut self, packet: Packet) -> (conceded: bool)
        ensures
            conceded == old(self).state@.conceded_by(packet@),
            conceded ==> final(self).state@ == old(self).state@,
            !conceded ==> final(self).state@ == old(self).state@.after_packet(packet@),
            final(self).queued_transitions == old(self).queued_transitions,
            final(self).word_list == old(self).word_list,
    {
        match &mut self.state {
            GameState::Ongoing(g) => match packet {
                Packet::AddWord { word } => {
                    let ghost before = g@.received_words;
                    g.received_words.push(word);
                    assert(g@.received_words =~= before.push(word@));
                    false
                },
                Packet::ILost {  } => true,
                _ => false,
            },
            GameState::Ended { opponent_waiting_to_restart, .. } => match packet {
                Packet::WaitingToRestart => {
                    *opponent_waiting_to_restart = true;
                    false
                },
                _ => false,
            },
            GameState::ConnectionConfig { .. } => false,
        }
    }
}

/// One step of `drain`, for a state with a connection: the first poll takes
/// no more bytes than there are, and the reading goes on behind them only
/// after a packet that is not the end of the match.
pub proof fn lemma_drain_step<S>(s: StateView<S>, incoming: Seq<u8>)
    requires
        s.has_conn(),
        within_frame(s.held()),
    ensures
        0 <= poll_used(s.held(), incoming) <= incoming.len(),
        drain(s, incoming) == ({
            let used = poll_used(s.held(), incoming);
            let after = s.with_held(poll_held(s.held(), incoming));
            match poll_result(s.held(), incoming) {
                Ok(None) => Drained { state: after, used, conceded: false, failure: None },
                Err(e) => Drained { state: after, used, conceded: false, failure: Some(e) },
                Ok(Some(p)) => if after.conceded_by(p) {
                    Drained { state: after, used, conceded: true, failure: None }
                } else {
                    let d = drain(after.after_packet(p), incoming.skip(used));
                    Drained { used: used + d.used, ..d }
                },
            }
        }),
{
    reveal(drain);
    let total = s.held() + incoming;
    assert(frame_prefix(total).len() <= total.len());
    if s.held().len() >= 4 {
        assert(total[0] == s.held()[0] && total[1] == s.held()[1] && total[2] == s.held()[2]
            && total[3] == s.held()[3]);
    }
}

/// A state without a connection reads nothing.
pub proof fn lemma_drain_without_conn<S>(s: StateView<S>, incoming: Seq<u8>)
    requires
        !s.has_conn(),
    ensures
        drain(s, incoming) == (Drained { state: s, used: 0, conceded: false, failure: None }),
{
    reveal(drain);
}

/// What a run of triggers came to, as the result of a call on the session.
pub open spec fn session_result(v: Result<(), TransitionError>) -> Result<(), SessionError> {
    match v {
        Ok(_) => Ok(()),
        Err(e) => Err(SessionError::Transition(e)),
    }
}

impl<S> WordGame<S> {
    /// Hands the session the bytes `incoming` that the peer has sent: they
    /// are read packet by packet, as far as they go. A word of the peer joins
    /// the received words; the peer's concession wins the match and ends the
    /// reading; the peer's wish for a rematch is noted. Then the triggers that
    /// wait are applied. Returns how many bytes were taken; the rest, if any,
    /// is to be handed in again with what arrives next. A frame that is no
    /// packet ends the call with its error, before any trigger is applied.
    pub fn process_network(&mut self, incoming: &[u8], now: u64) -> (r: (
        usize,
        Result<(), SessionError>,
    ))
        ensures
            ({
                let d = drain(old(self).state@, incoming@);
                &&& r.0 == d.used
                &&& final(self).word_list == old(self).word_list
                &&& match d.failure {
                    Some(e) => {
                        &&& r.1 == Err::<(), SessionError>(SessionError::Decode(e))
                        &&& final(self).state@ == d.state
                        &&& final(self).queued() == old(self).queued()
                    },
                    None => {
                        let ts = if d.conceded {
                            old(self).queued().push(StateTransition::WinGame)
                        } else {
                            old(self).queued()
                        };
                        &&& final(self).state@ == run_transitions(d.state, ts, now).0
                        &&& r.1 == session_result(run_transitions(d.state, ts, now).1)
                        &&& final(self).queued() == Seq::<StateTransition>::empty()
                    },
                }
            }),
    {
        let ghost s0 = self.state@;
        let ghost inc0 = incoming@;
        let mut off: usize = 0;
        let mut done: bool = false;
        let mut conceded: bool = false;
        let mut failure: Option<DecodeError> = None;
        assert(inc0.skip(0) =~= inc0);
        while !done
            invariant
                off <= incoming@.len(),
                inc0 == incoming@,
                self.queued_transitions == old(self).queued_transitions,
                self.word_list == old(self).word_list,
                !done ==> !conceded && failure is None,
                !done ==> drain(s0, inc0) == (Drained {
                    used: off + drain(self.state@, inc0.skip(off as int)).used,
                    ..drain(self.state@, inc0.skip(off as int))
                }),
                done ==> drain(s0, inc0) == (Drained {
                    state: self.state@,
                    used: off as int,
                    conceded,
                    failure,
                }),
            decreases
                    incoming@.len() - off,
                    self.state@.held().len(),
                    if done { 0int } else { 1int },
        {
            let rest = slice_subrange(incoming, off, incoming.len());
            let ghost before = self.state@;
            assert(rest@ =~= inc0.skip(off as int));
            let (used, polled) = match &mut self.state {
                GameState::Ongoing(g) => g.conn.poll_next_packet(rest),
                GameState::Ended { conn, .. } => conn.poll_next_packet(rest),
                GameState::ConnectionConfig { .. } => (0, Ok(None)),
            };
            proof {
                if before.has_conn() {
                    assert(self.state@ == before.with_held(poll_held(before.held(), rest@)));
                    lemma_drain_step(before, rest@);
                } else {
                    lemma_drain_without_conn(before, rest@);
                }
                assert(inc0.skip(off as int).skip(used as int) =~= inc0.skip(off + used));
            }
            off = off + used;
            match polled {
                Ok(None) => {
                    done = true;
                },
                Err(e) => {
                    failure = Some(e);
                    done = true;
                },
                Ok(Some(p)) => {
                    if self.handle_packet(p) {
                        conceded = true;
                        done = true;
                    }
                },
            }
        }
        match failure {
            Some(e) => {
                return (off, Err(SessionError::Decode(e)));
            },
            None => {},
        }
        if conceded {
            self.queue_transition(StateTransition::WinGame);
        }
        match self.flush_transitions(now) {
            Ok(()) => (off, Ok(())),
            Err(e) => (off, Err(SessionError::Transition(e))),
        }
    }
}

/// Whether the player holds more unanswered words at `now` than the limit
/// allows.
pub open spec fn overflowing<S>(g: OngoingView<S>, now: u64) -> bool {
    g.received_words.len() > limit_at(elapsed_ms(g.start_time, now))
}

/// `after` is what the injection rule makes of `g` at `now`: where a word is
/// due, a word of `list` that was not offered joins the offered words, if
/// `list` has one, and the time of the last injection is `now`; where none is
/// due, nothing changes.
pub open spec fn injected<S>(
    list: Seq<Seq<char>>,
    g: OngoingView<S>,
    now: u64,
    after: OngoingView<S>,
) -> bool {
    if inject_due(g.current_words.len() as int, g.last_new_word, now) {
        &&& after == (OngoingView {
            current_words: after.current_words,
            last_new_word: now,
            ..g
        })
        &&& if exists|i: int| is_fresh(list, g.current_words, i) {
            exists|i: int|
                is_fresh(list, g.current_words, i) && after.current_words == g.current_words.push(
                    #[trigger] list[i],
                )
        } else {
            after.current_words == g.current_words
        }
    } else {
        after == g
    }
}

/// The trigger that the rules raise in state `s` at `now`, if any: the loss,
/// where the player of a match under way holds too many unanswered words;
/// the rematch, where both ends of a match that ended wait for it.
pub open spec fn raised<S>(s: StateView<S>, now: u64) -> Option<StateTransition> {
    match s {
        StateView::Ongoing(g) => if overflowing(g, now) {
            Some(StateTransition::LoseGame)
        } else {
            None
        },
        StateView::Ended { waiting_to_restart: true, opponent_waiting_to_restart: true, .. } => Some(
            StateTransition::RestartGame,
        ),
        _ => None,
    }
}

/// `post`, `sent` and `applied` are what one tick at `now` makes of state
/// `pre` with the triggers `queue` waiting: first the injection rule, then
/// the trigger that the rules raise joins the queue, and with a loss the
/// concession is to be sent; then the queue is applied.
pub open spec fn ticked<S>(
    list: Seq<Seq<char>>,
    pre: StateView<S>,
    queue: Seq<StateTransition>,
    now: u64,
    post: StateView<S>,
    sent: Option<PacketView>,
    applied: Result<(), TransitionError>,
) -> bool {
    exists|mid: StateView<S>| #[trigger]
        tick_through(list, pre, queue, now, mid, post, sent, applied)
}

/// As `ticked`, with the state `mid` after the injection rule named.
pub open spec fn tick_through<S>(
    list: Seq<Seq<char>>,
    pre: StateView<S>,
    queue: Seq<StateTransition>,
    now: u64,
    mid: StateView<S>,
    post: StateView<S>,
    sent: Option<PacketView>,
    applied: Result<(), TransitionError>,
) -> bool {
    &&& match pre {
        StateView::Ongoing(g) => mid matches StateView::Ongoing(g2) && injected(list, g, now, g2),
        _ => mid == pre,
    }
    &&& sent == (if raised(mid, now) == Some(StateTransition::LoseGame) {
        Some(PacketView::ILost)
    } else {
        None
    })
    &&& (post, applied) == run_transitions(
        mid,
        match raised(mid, now) {
            Some(t) => queue.push(t),
            None => queue,
        },
        now,
    )
}

/// The mathematical value of a packet that may be there.
pub open spec fn maybe_view(p: Option<Packet>) -> Option<PacketView> {
    match p {
        Some(p) => Some(p@),
        None => None,
    }
}

impl<S> WordGame<S> {
    /// One tick of the rules at `now`. During a match a word is injected
    /// where one is due, and a player who holds too many unanswered words
    /// loses: the concession returned is to be sent to the peer, and the match
    /// ends. After a match, both ends waiting start the next one. The
    /// triggers that wait are applied last.
    pub fn tick(&mut self, now: u64) -> (r: (Option<Packet>, Result<(), TransitionError>))
        ensures
            ticked(
                words_view(old(self).word_list),
                old(self).state@,
                old(self).queued(),
                now,
                final(self).state@,
                maybe_view(r.0),
                r.1,
            ),
            final(self).queued() == Seq::<StateTransition>::empty(),
            final(self).word_list == old(self).word_list,
    {
        let ghost pre = self.state@;
        let ghost queue = self.queued();
        let mut sent: Option<Packet> = None;
        let mut trigger: Option<StateTransition> = None;
        match &mut self.state {
            GameState::Ongoing(g) => {
                if g.inject_due(now) {
                    g.add_new_word(&self.word_list);
                    g.last_new_word = now;
                }
                if g.received_words.len() > g.limit(now) {
                    sent = Some(Packet::ILost {  });
                    trigger = Some(StateTransition::LoseGame);
                }
            },
            GameState::Ended { waiting_to_restart, opponent_waiting_to_restart, .. } => {
                if *waiting_to_restart && *opponent_waiting_to_restart {
                    trigger = Some(StateTransition::RestartGame);
                }
            },
            GameState::ConnectionConfig { .. } => {},
        }
        let ghost mid = self.state@;
        assert(trigger == raised(mid, now));
        match trigger {
            Some(t) => {
                self.queue_transition(t);
            },
            None => {},
        }
        let applied = self.flush_transitions(now);
        proof {
            assert(tick_through(
                words_view(old(self).word_list),
                pre,
                queue,
                now,
                mid,
                self.state@,
                maybe_view(sent),
                applied,
            ));
        }
        (sent, applied)
    }
}

impl<S> WordGame<S> {
    /// One step of the game at `now`: the bytes `incoming` of the peer are
    /// processed as `process_network` does, then the rules tick as `tick`
    /// does. Returns how many bytes were taken and, where the player lost
    /// just now, the concession to send. An error of the first part ends the
    /// step before the rules tick.
    pub fn update(&mut self, incoming: &[u8], now: u64) -> (r: (
        usize,
        Result<Option<Packet>, SessionError>,
    ))
        ensures
            ({
                let d = drain(old(self).state@, incoming@);
                let ts = if d.conceded {
                    old(self).queued().push(StateTransition::WinGame)
                } else {
                    old(self).queued()
                };
                let heard = run_transitions(d.state, ts, now);
                &&& r.0 == d.used
                &&& final(self).word_list == old(self).word_list
                &&& match (d.failure, heard.1) {
                    (Some(e), _) => {
                        &&& r.1 == Err::<Option<Packet>, SessionError>(SessionError::Decode(e))
                        &&& final(self).state@ == d.state
                        &&& final(self).queued() == old(self).queued()
                    },
                    (None, Err(e)) => {
                        &&& r.1 == Err::<Option<Packet>, SessionError>(
                            SessionError::Transition(e),
                        )
                        &&& final(self).state@ == heard.0
                        &&& final(self).queued() == Seq::<StateTransition>::empty()
                    },
                    (None, Ok(_)) => {
                        &&& r.1 matches Ok(sent) && ticked(
                            words_view(old(self).word_list),
                            heard.0,
                            Seq::empty(),
                            now,
                            final(self).state@,
                            maybe_view(sent),
                            Ok(()),
                        )
                        &&& final(self).queued() == Seq::<StateTransition>::empty()
                    },
                }
            }),
    {
        let (used, heard) = self.process_network(incoming, now);
        match heard {
            Ok(()) => {},
            Err(e) => {
                return (used, Err(e));
            },
        }
        let ghost mid = self.state@;
        let (sent, applied) = self.tick(now);
        proof {
            let list = words_view(self.word_list);
            let through = choose|through: StateView<S>| #[trigger]
                tick_through(
                    list,
                    mid,
                    Seq::empty(),
                    now,
                    through,
                    self.state@,
                    maybe_view(sent),
                    applied,
                );
            lemma_raised_is_taken(through, now);
            assert(tick_through(
                list,
                mid,
                Seq::empty(),
                now,
                through,
                self.state@,
                maybe_view(sent),
                Ok(()),
            ));
        }
        match applied {
            Ok(()) => (used, Ok(sent)),
            Err(e) => (used, Err(SessionError::Transition(e))),
        }
    }
}

/// The trigger that the rules raise is one that the state takes: applied
/// alone, it leads to the next state without an error. A loss ends the match
/// as lost, with the rate at `now`; a rematch starts a fresh match at `now`
/// on the same connection.
pub proof fn lemma_raised_is_taken<S>(s: StateView<S>, now: u64)
    ensures
        raised(s, now) is None ==> run_transitions(s, Seq::empty(), now) == (
            s,
            Ok::<(), TransitionError>(()),
        ),
        raised(s, now) matches Some(t) ==> run_transitions(s, Seq::empty().push(t), now) == (
            transition_view(s, t, now)->Ok_0,
            Ok::<(), TransitionError>(()),
        ) && transition_view(s, t, now) is Ok,
{
    match raised(s, now) {
        Some(t) => {
            let ts = Seq::<StateTransition>::empty().push(t);
            assert(ts[0] == t);
            assert(ts.drop_first() =~= Seq::<StateTransition>::empty());
            reveal_with_fuel(run_transitions, 2);
        },
        None => {},
    }
}

/// A state takes exactly these triggers: a match under way, the win and the
/// loss; a match that ended, the rematch, once both ends wait for it. The
/// pairing screen takes none.
pub proof fn lemma_valid_transitions<S>(s: StateView<S>, t: StateTransition, now: u64)
    ensures
        transition_view(s, t, now) is Ok <==> match s {
            StateView::Ongoing(_) => t != StateTransition::RestartGame,
            StateView::Ended { waiting_to_restart, opponent_waiting_to_restart, .. } => t
                == StateTransition::RestartGame && waiting_to_restart
                && opponent_waiting_to_restart,
            StateView::ConnectionConfig { .. } => false,
        },
        transition_view(s, t, now) matches Err(e) ==> e == (TransitionError {
            transition: t,
            state: s.kind(),
        }) && run_transitions(s, seq![t], now) == (s, Err::<(), TransitionError>(e)),
{
    let ts = seq![t];
    assert(ts[0] == t);
    reveal_with_fuel(run_transitions, 2);
}

/// A transition moves the connection: the state it leads to holds the same
/// transport and the same buffered bytes as the state it came from.
pub proof fn lemma_transition_keeps_connection<S>(s: StateView<S>, t: StateTransition, now: u64)
    requires
        transition_view(s, t, now) is Ok,
    ensures
        s.has_conn(),
        transition_view(s, t, now)->Ok_0.has_conn(),
        transition_view(s, t, now)->Ok_0.stream() == s.stream(),
        transition_view(s, t, now)->Ok_0.held() == s.held(),
{
}

/// A match that ended starts anew when both ends wait for it, and not
/// before. With one end waiting nothing is raised and the state stays; the
/// peer's wish, heard while the local flag is up, raises the rematch, which
/// leads to a fresh match at `now` on the same connection.
pub proof fn lemma_rematch_agreement<S>(s: StateView<S>, now: u64)
    requires
        s is Ended,
    ensures
        raised(s, now) == if s->waiting_to_restart && s->opponent_waiting_to_restart {
            Some(StateTransition::RestartGame)
        } else {
            None::<StateTransition>
        },
        raised(s, now) is None ==> run_transitions(s, Seq::empty(), now) == (
            s,
            Ok::<(), TransitionError>(()),
        ),
        s->waiting_to_restart ==> {
            let heard = s.after_packet(PacketView::WaitingToRestart);
            &&& raised(heard, now) == Some(StateTransition::RestartGame)
            &&& transition_view(heard, StateTransition::RestartGame, now) == Ok::<
                StateView<S>,
                TransitionError,
            >(StateView::Ongoing(fresh_match(s.stream(), s.held(), now)))
        },
{
}

/// A loss is raised once: the state that it leads to raises no loss, at
/// whatever time.
pub proof fn lemma_loss_once<S>(s: StateView<S>, now: u64, later: u64)
    requires
        raised(s, now) == Some(StateTransition::LoseGame),
    ensures
        transition_view(s, StateTransition::LoseGame, now) matches Ok(next) && next is Ended
            && next->outcome == GameOutcome::Loss && raised(next, later) is None,
{
}

/// The injection rule keeps the offered words in bounds and free of
/// repetition: it adds at most one word, never beyond `WORD_LIMIT`, and
/// never a word that is already offered.
pub proof fn lemma_injection_bounds<S>(
    list: Seq<Seq<char>>,
    g: OngoingView<S>,
    now: u64,
    after: OngoingView<S>,
)
    requires
        injected(list, g, now, after),
    ensures
        g.current_words.len() <= after.current_words.len() <= g.current_words.len() + 1,
        g.current_words.len() <= WORD_LIMIT ==> after.current_words.len() <= WORD_LIMIT,
        g.current_words.len() >= WORD_LIMIT ==> after == g,
        g.current_words.no_duplicates() ==> after.current_words.no_duplicates(),
        after.total_words == g.total_words,
        after.received_words == g.received_words,
{
    if inject_due(g.current_words.len() as int, g.last_new_word, now) {
        if exists|i: int| is_fresh(list, g.current_words, i) {
            let i = choose|i: int|
                is_fresh(list, g.current_words, i) && after.current_words == g.current_words.push(
                    #[trigger] list[i],
                );
            let w = list[i];
            assert forall|a: int, b: int|
                0 <= a < after.current_words.len() && 0 <= b < after.current_words.len() && a
                    != b && g.current_words.no_duplicates() implies after.current_words[a]
                != after.current_words[b] by {
                if a == g.current_words.len() {
                    assert(g.current_words.contains(g.current_words[b]));
                } else if b == g.current_words.len() {
                    assert(g.current_words.contains(g.current_words[a]));
                }
            }
        }
    }
}

/// How loud the warning beside the count of unanswered words is, from 0 to
/// 5: one step for each word by which the count is closer to the limit than
/// five below it.
pub open spec fn alarm_at(received: int, limit: int) -> int {
    if received + 5 <= limit {
        0
    } else if received - limit >= 0 {
        5
    } else {
        received + 5 - limit
    }
}

/// How loud the warning is for `received` unanswered words under `limit`.
pub fn alarm_level(received: usize, limit: usize) -> (level: usize)
    ensures
        level == alarm_at(received as int, limit as int),
        level <= 5,
{
    if received >= limit {
        5
    } else if limit - received >= 5 {
        0
    } else {
        5 - (limit - received)
    }
}

} // verus!
