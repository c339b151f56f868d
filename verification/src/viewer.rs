//! The navigation state of the PGN viewer.
//!
//! A PGN file may hold many games, so [`Mode::Menu`] lists them and lets one
//! be picked; [`Mode::Board`] then shows that game, one position at a time. A
//! file holding a single game opens straight in board mode. `Esc` (or the
//! "all games" button) goes back to the menu and `q` quits.
//!
//! [`App`] holds the parsed games plus a cursor into the one on screen. A
//! game is replayed, position by position, the first time it is opened; one
//! that cannot be replayed leaves the menu up with a message saying why.
//! Drawing, and reading keys and clicks from the terminal, happen outside this
//! module: they hand it plain [`Key`]s and click positions.

use crate::action::hints_printable;
use crate::action::san_text;
use crate::action::Action;
use crate::action::ActionKind;
use crate::game::ascii_board;
use crate::game::fault_text;
use crate::game::move_result_matches;
use crate::board_grid::unoccupied_text;
use crate::game::play;
use crate::game::starting_position;
use crate::game::GameState;
use crate::game::GameStateError;
use crate::game::MoveOutcome;
use crate::game::Position;
use crate::parser::all_hints_on_board;
use crate::parser::game_records;
use crate::parser::hints_on_board;
use crate::parser::lemma_parsed_hints_on_board;
use crate::parser::parse_pgn;
use crate::parser::GameRecord;
use crate::parser::ParseError;
use crate::parser::ParseFault;
use crate::parser::ParsedGame;
use crate::parser::PgnParser;
use crate::text::decimal;
use crate::text::decimal_text;
use crate::text::extend_chars;
use crate::text::chars_of;
use crate::text::extend_with_str;
use crate::text::string_from;
use vstd::prelude::*;

verus! {

// ===========================================================================
// REPLAYS
// ===========================================================================

/// The position after the first `k` moves of a game, from the standard start.
pub open spec fn state_after(actions: Seq<Action>, k: nat) -> Position
    decreases k,
{
    if k == 0 {
        starting_position()
    } else {
        play(state_after(actions, (k - 1) as nat), actions[k - 1]).0
    }
}

/// How move `k` of a game ends when it is played on the position before it.
pub open spec fn outcome_of(actions: Seq<Action>, k: nat) -> MoveOutcome {
    play(state_after(actions, k), actions[k as int]).1
}

/// The first move at or after `k` that cannot be played.
pub open spec fn first_failure(actions: Seq<Action>, k: nat) -> Option<nat>
    decreases actions.len() - k,
{
    if k >= actions.len() {
        None
    } else if outcome_of(actions, k) != MoveOutcome::Played {
        Some(k)
    } else {
        first_failure(actions, k + 1)
    }
}

/// What a replay holds: the SAN text of each half-move, and the board (as
/// ascii) after each ply, the start first.
#[verifier::ext_equal]
pub struct ReplayView {
    pub san_moves: Seq<Seq<char>>,
    pub positions: Seq<Seq<char>>,
}

/// The replay of a game whose every move can be played.
pub open spec fn full_replay(actions: Seq<Action>) -> ReplayView {
    ReplayView {
        san_moves: Seq::new(actions.len(), |i: int| san_text(actions[i])),
        positions: Seq::new(
            actions.len() + 1,
            |k: int| ascii_board(state_after(actions, k as nat).board),
        ),
    }
}

/// The replay of a game, or the first move that cannot be played and how it
/// ended.
pub open spec fn replay_spec(actions: Seq<Action>) -> Result<ReplayView, (nat, MoveOutcome)> {
    match first_failure(actions, 0) {
        Some(k) => Err((k, outcome_of(actions, k))),
        None => Ok(full_replay(actions)),
    }
}

/// Why a move could not be played, as the viewer reports it: the move's SAN
/// text and the game state's message, which for an empty square is the
/// grid's own message for it.
pub open spec fn failure_text(action: Action, outcome: MoveOutcome) -> Seq<char> {
    let reason = match outcome {
        MoveOutcome::NoPiece => "no piece can play "@ + san_text(action),
        MoveOutcome::Ambiguous => "ambiguous move: "@ + san_text(action),
        MoveOutcome::EmptySquare { file, rank } => "grid error: "@ + unoccupied_text(
            file - 3,
            rank - 3,
        ),
        MoveOutcome::Played => Seq::empty(),
    };
    "could not apply move "@ + san_text(action) + ": "@ + reason
}

/// Everything needed to draw a game once it has been opened.
pub struct Replay {
    san_moves: Vec<String>,
    positions: Vec<String>,
}

/// The texts held in a list of strings.
pub open spec fn texts(strings: Seq<String>) -> Seq<Seq<char>> {
    strings.map_values(|s: String| s@)
}

impl View for Replay {
    type V = ReplayView;

    closed spec fn view(&self) -> ReplayView {
        ReplayView { san_moves: texts(self.san_moves@), positions: texts(self.positions@) }
    }
}

impl Replay {
    /// The SAN text of each half-move.
    pub fn san_moves(&self) -> (moves: &Vec<String>)
        ensures
            texts(moves@) == self@.san_moves,
    {
        &self.san_moves
    }

    /// The board, as ascii, after each ply: the start first, then the
    /// position after each half-move.
    pub fn positions(&self) -> (positions: &Vec<String>)
        ensures
            texts(positions@) == self@.positions,
    {
        &self.positions
    }
}

proof fn lemma_first_failure_step(actions: Seq<Action>, k: nat)
    requires
        k < actions.len(),
        first_failure(actions, 0) == first_failure(actions, k),
        outcome_of(actions, k) == MoveOutcome::Played,
    ensures
        first_failure(actions, 0) == first_failure(actions, k + 1),
{
}

/// The message for a move that could not be played.
fn failure_message(action: &Action, error: &GameStateError) -> (message: String)
    requires
        hints_printable(*action),
    ensures
        message@ == "could not apply move "@ + san_text(*action) + ": "@ + fault_text(error@),
{
    let mut message = chars_of("could not apply move ");
    let san = action.to_san();
    extend_with_str(&mut message, san.as_str());
    extend_with_str(&mut message, ": ");
    let reason = error.message();
    extend_with_str(&mut message, reason.as_str());
    string_from(&message)
}

proof fn lemma_failure_text(action: Action, outcome: MoveOutcome, result: Result<(), GameStateError>)
    requires
        outcome != MoveOutcome::Played,
        move_result_matches(result, outcome, action),
    ensures
        result matches Err(error) && "could not apply move "@ + san_text(action) + ": "@
            + fault_text(error@) == failure_text(action, outcome),
{
}

proof fn lemma_texts_push(strings: Seq<String>, s: String)
    ensures
        texts(strings.push(s)) == texts(strings).push(s@),
{
    assert(texts(strings.push(s)) =~= texts(strings).push(s@));
}

/// Replays a game from the standard start, keeping the board after every
/// half-move, or says which move could not be played and why.
fn build_replay(actions: &Vec<Action>) -> (r: Result<Replay, String>)
    requires
        forall|i: int| 0 <= i < actions.len() ==> hints_printable(#[trigger] actions@[i]),
    ensures
        match replay_spec(actions@) {
            Ok(replay) => r matches Ok(built) && built@ == replay,
            Err((k, outcome)) => r matches Err(message) && message@ == failure_text(
                actions@[k as int],
                outcome,
            ),
        },
{
    let mut state = GameState::new();
    let mut positions: Vec<String> = Vec::new();
    let mut san_moves: Vec<String> = Vec::new();
    let first = state.to_ascii();
    proof {
        lemma_texts_push(positions@, first);
    }
    positions.push(first);
    let mut i: usize = 0;
    while i < actions.len()
        invariant
            i <= actions.len(),
            forall|j: int| 0 <= j < actions.len() ==> hints_printable(#[trigger] actions@[j]),
            state@ == state_after(actions@, i as nat),
            first_failure(actions@, 0) == first_failure(actions@, i as nat),
            texts(positions@) =~= Seq::new(
                (i + 1) as nat,
                |k: int| ascii_board(state_after(actions@, k as nat).board),
            ),
            texts(san_moves@) =~= Seq::new(i as nat, |j: int| san_text(actions@[j])),
        decreases actions.len() - i,
    {
        let action = actions[i];
        assert(hints_printable(actions@[i as int]));
        let played = state.process_move(action);
        if played.is_err() {
            proof {
                let outcome = outcome_of(actions@, i as nat);
                assert(first_failure(actions@, i as nat) == Some(i as nat));
                lemma_failure_text(action, outcome, played);
            }
            let error = played.unwrap_err();
            let message = failure_message(&action, &error);
            proof {
                assert(message@ == failure_text(actions@[i as int], outcome_of(actions@, i as nat)));
                assert(replay_spec(actions@) == Err::<ReplayView, (nat, MoveOutcome)>(
                    (i as nat, outcome_of(actions@, i as nat)),
                ));
            }
            return Err(message);
        }
        proof {
            assert(outcome_of(actions@, i as nat) == MoveOutcome::Played);
            lemma_first_failure_step(actions@, i as nat);
        }
        let board = state.to_ascii();
        let san = action.to_san();
        proof {
            lemma_texts_push(positions@, board);
            lemma_texts_push(san_moves@, san);
        }
        positions.push(board);
        san_moves.push(san);
        i += 1;
    }
    proof {
        assert(first_failure(actions@, actions.len() as nat) is None);
    }
    Ok(Replay { san_moves, positions })
}

} // verus!

verus! {

// ===========================================================================
// THE APPLICATION STATE
// ===========================================================================

/// Which screen the app is showing.
#[derive(Debug, Clone, Copy, PartialEq, Eq, Hash, Structural)]
pub enum Mode {
    /// The list of games in the file.
    Menu,
    /// One game's board and moves.
    Board,
}

/// A key press, as far as the viewer tells keys apart.
#[derive(Debug, Clone, Copy, PartialEq, Eq, Hash, Structural)]
pub enum Key {
    Up,
    Down,
    Left,
    Right,
    Home,
    End,
    Enter,
    Esc,
    Char(char),
    /// Any other key.
    Other,
}

/// One game from the file: the name to show and its moves.
pub struct GameEntry {
    name: String,
    actions: Vec<Action>,
}

/// What the viewer holds of one game: the name to show, the moves, and the
/// replay if the game has been opened.
#[verifier::ext_equal]
pub struct EntryView {
    pub name: Seq<char>,
    pub actions: Seq<Action>,
    pub replay: Option<ReplayView>,
}

/// What the viewer holds.
#[verifier::ext_equal]
pub struct AppView {
    pub games: Seq<EntryView>,
    pub mode: Mode,
    /// The menu cursor.
    pub selected: int,
    /// The game shown in board mode.
    pub current_game: int,
    /// How many half-moves of the current game are applied.
    pub ply: int,
    /// A problem worth showing, such as a game whose moves cannot be replayed.
    pub status: Option<Seq<char>>,
    pub should_quit: bool,
}

/// The running viewer: the games from the file, the replay of each game that
/// has been opened, and a cursor into the one on screen.
pub struct App {
    games: Vec<GameEntry>,
    replays: Vec<Option<Replay>>,
    mode: Mode,
    selected: usize,
    current_game: usize,
    ply: usize,
    status: Option<String>,
    should_quit: bool,
}

/// The view of an optional replay.
pub open spec fn replay_view(replay: Option<Replay>) -> Option<ReplayView> {
    match replay {
        Some(r) => Some(r@),
        None => None,
    }
}

/// The view of an optional text.
pub open spec fn text_view(text: Option<String>) -> Option<Seq<char>> {
    match text {
        Some(t) => Some(t@),
        None => None,
    }
}

impl View for App {
    type V = AppView;

    closed spec fn view(&self) -> AppView {
        AppView {
            games: Seq::new(
                self.games@.len(),
                |i: int|
                    EntryView {
                        name: self.games@[i].name@,
                        actions: self.games@[i].actions@,
                        replay: if i < self.replays@.len() {
                            replay_view(self.replays@[i])
                        } else {
                            None
                        },
                    },
            ),
            mode: self.mode,
            selected: self.selected as int,
            current_game: self.current_game as int,
            ply: self.ply as int,
            status: text_view(self.status),
            should_quit: self.should_quit,
        }
    }
}

/// The moves of the game on show, or none when no game is.
pub open spec fn current_actions_of(v: AppView) -> Seq<Action> {
    if 0 <= v.current_game < v.games.len() {
        v.games[v.current_game].actions
    } else {
        Seq::empty()
    }
}

/// What always holds of the viewer: every move can be written out, every
/// replay is the replay of its game, the cursors stay on the list, the board
/// shows an opened game, and the ply stays within that game's moves.
pub open spec fn app_ok(v: AppView) -> bool {
    &&& forall|g: int| 0 <= g < v.games.len() ==> all_hints_on_board(#[trigger] v.games[g].actions)
    &&& forall|g: int|
        0 <= g < v.games.len() ==> (#[trigger] v.games[g].replay matches Some(r) ==> replay_spec(
            v.games[g].actions,
        ) == Ok::<ReplayView, (nat, MoveOutcome)>(r))
    &&& 0 <= v.selected && (v.selected < v.games.len() || v.selected == 0)
    &&& 0 <= v.current_game && (v.current_game < v.games.len() || v.current_game == 0)
    &&& v.mode == Mode::Board ==> v.current_game < v.games.len() && v.games[v.current_game].replay is Some
    &&& 0 <= v.ply <= current_actions_of(v).len()
}

impl App {
    /// Whether the viewer's state satisfies [`app_ok`]: every constructor
    /// establishes it and every operation keeps it.
    pub open spec fn well_formed(&self) -> bool {
        app_ok(self@)
    }
}

// -- transitions, as functions of what the viewer holds ---------------------

pub open spec fn forward_spec(v: AppView) -> AppView {
    if v.ply < current_actions_of(v).len() {
        AppView { ply: v.ply + 1, ..v }
    } else {
        v
    }
}

pub open spec fn backward_spec(v: AppView) -> AppView {
    AppView {
        ply: if v.ply > 0 {
            v.ply - 1
        } else {
            0
        },
        ..v
    }
}

pub open spec fn reset_spec(v: AppView) -> AppView {
    AppView { ply: 0, ..v }
}

pub open spec fn go_to_end_spec(v: AppView) -> AppView {
    AppView { ply: current_actions_of(v).len() as int, ..v }
}

pub open spec fn select_previous_spec(v: AppView) -> AppView {
    AppView {
        selected: if v.selected > 0 {
            v.selected - 1
        } else {
            0
        },
        ..v
    }
}

pub open spec fn select_next_spec(v: AppView) -> AppView {
    if v.selected + 1 < v.games.len() {
        AppView { selected: v.selected + 1, ..v }
    } else {
        v
    }
}

pub open spec fn select_first_spec(v: AppView) -> AppView {
    AppView { selected: 0, ..v }
}

pub open spec fn select_last_spec(v: AppView) -> AppView {
    AppView {
        selected: if v.games.len() > 0 {
            v.games.len() - 1
        } else {
            0
        },
        ..v
    }
}

pub open spec fn show_menu_spec(v: AppView) -> AppView {
    AppView { selected: v.current_game, mode: Mode::Menu, ..v }
}

pub open spec fn quit_spec(v: AppView) -> AppView {
    AppView { should_quit: true, ..v }
}

/// The viewer showing game `index` from its first position, with `replay`
/// stored for it.
pub open spec fn showing(v: AppView, index: int, replay: ReplayView) -> AppView {
    AppView {
        games: v.games.update(index, EntryView { replay: Some(replay), ..v.games[index] }),
        current_game: index,
        ply: 0,
        status: None,
        mode: Mode::Board,
        ..v
    }
}

/// The status that reports that game `name` could not be replayed because
/// `action` ended with `outcome`.
pub open spec fn failure_status(name: Seq<char>, action: Action, outcome: MoveOutcome) -> Seq<char> {
    name + ": "@ + failure_text(action, outcome)
}

/// Whether `w` is what opening game `index` of `v` leaves: the game on the
/// board at its first position, replayed the first time it is opened; or, if
/// it cannot be replayed, everything as it was but a status saying why. An
/// index past the list changes nothing.
pub open spec fn opened(v: AppView, index: int, w: AppView) -> bool {
    if index < 0 || index >= v.games.len() {
        w == v
    } else {
        let entry = v.games[index];
        match entry.replay {
            Some(replay) => w == showing(v, index, replay),
            None => match replay_spec(entry.actions) {
                Ok(replay) => w == showing(v, index, replay),
                Err((k, outcome)) => w == AppView {
                    status: Some(failure_status(entry.name, entry.actions[k as int], outcome)),
                    ..v
                },
            },
        }
    }
}

/// Whether a key is a given letter, in either case.
pub open spec fn is_letter_key(key: Key, lower: char, upper: char) -> bool {
    key matches Key::Char(c) && (c == lower || c == upper)
}

/// Whether `w` is what a key press in the menu leaves of `v`.
pub open spec fn menu_key_step(v: AppView, key: Key, w: AppView) -> bool {
    match key {
        Key::Up => w == select_previous_spec(v),
        Key::Down => w == select_next_spec(v),
        Key::Home => w == select_first_spec(v),
        Key::End => w == select_last_spec(v),
        Key::Enter => opened(v, v.selected, w),
        Key::Esc => w == quit_spec(v),
        _ => if is_letter_key(key, 'q', 'Q') {
            w == quit_spec(v)
        } else {
            w == v
        },
    }
}

/// What a key press on the board leaves of `v`.
pub open spec fn board_key_spec(v: AppView, key: Key) -> AppView {
    match key {
        Key::Right => forward_spec(v),
        Key::Left => backward_spec(v),
        Key::Home => reset_spec(v),
        Key::End => go_to_end_spec(v),
        Key::Esc => show_menu_spec(v),
        _ => if is_letter_key(key, 'r', 'R') {
            reset_spec(v)
        } else if is_letter_key(key, 'a', 'A') {
            show_menu_spec(v)
        } else if is_letter_key(key, 'q', 'Q') {
            quit_spec(v)
        } else {
            v
        },
    }
}

/// Whether `w` is what a key press leaves of `v`.
pub open spec fn key_step(v: AppView, key: Key, w: AppView) -> bool {
    match v.mode {
        Mode::Menu => menu_key_step(v, key, w),
        Mode::Board => w == board_key_spec(v, key),
    }
}

/// The first menu row on screen when `visible` rows fit: the selection,
/// counted at most up to `u16::MAX`, is kept on the last visible row once it
/// is past the first screenful.
pub open spec fn menu_scroll_spec(v: AppView, visible: int) -> int {
    let selected = if v.selected <= 65535 {
        v.selected
    } else {
        65535
    };
    if visible > 0 && selected >= visible {
        selected - visible + 1
    } else {
        0
    }
}

/// The squares to highlight for `action` played as half-move `ply` (from
/// one): its destination, or for castling the squares the king and rook land
/// on, on the back rank of the side that moved (white when `ply` is odd).
pub open spec fn move_highlights(action: Action, ply: int) -> Seq<(u8, u8)> {
    let back_rank: u8 = if ply % 2 == 1 {
        0
    } else {
        7
    };
    match action.kind {
        ActionKind::Normal { destination, .. } => seq![
            (destination.file_index() as u8, destination.rank_index() as u8),
        ],
        ActionKind::CastleKingside => seq![(6u8, back_rank), (5u8, back_rank)],
        ActionKind::CastleQueenside => seq![(2u8, back_rank), (3u8, back_rank)],
    }
}

/// The squares of the most recent move, `(file, rank)` from zero, to
/// highlight on the board; none before the first move.
pub open spec fn highlights_spec(v: AppView) -> Seq<(u8, u8)> {
    let actions = current_actions_of(v);
    if v.ply == 0 || v.ply > actions.len() {
        Seq::empty()
    } else {
        move_highlights(actions[v.ply - 1], v.ply)
    }
}

} // verus!

verus! {

impl App {
    /// The number of moves of the game on show, or zero when no game is.
    pub fn current_move_count(&self) -> (count: usize)
        requires
            self.well_formed(),
        ensures
            count == current_actions_of(self@).len(),
    {
        if self.current_game < self.games.len() {
            self.games[self.current_game].actions.len()
        } else {
            0
        }
    }

    /// Steps one half-move forward, unless the game is at its end.
    pub fn forward(&mut self)
        requires
            old(self).well_formed(),
        ensures
            final(self).well_formed(),
            final(self)@ == forward_spec(old(self)@),
    {
        if self.ply < self.current_move_count() {
            self.ply += 1;
        }
        proof {
            assert(self@ =~= forward_spec(old(self)@));
        }
    }

    /// Steps one half-move back, unless the game is at its start.
    pub fn backward(&mut self)
        requires
            old(self).well_formed(),
        ensures
            final(self).well_formed(),
            final(self)@ == backward_spec(old(self)@),
    {
        if self.ply > 0 {
            self.ply -= 1;
        }
        proof {
            assert(self@ =~= backward_spec(old(self)@));
        }
    }

    /// Goes back to the starting position.
    pub fn reset(&mut self)
        requires
            old(self).well_formed(),
        ensures
            final(self).well_formed(),
            final(self)@ == reset_spec(old(self)@),
    {
        self.ply = 0;
        proof {
            assert(self@ =~= reset_spec(old(self)@));
        }
    }

    /// Goes to the position after the last move.
    pub fn go_to_end(&mut self)
        requires
            old(self).well_formed(),
        ensures
            final(self).well_formed(),
            final(self)@ == go_to_end_spec(old(self)@),
    {
        self.ply = self.current_move_count();
        proof {
            assert(self@ =~= go_to_end_spec(old(self)@));
        }
    }

    /// Moves the menu cursor up one game, unless it is on the first.
    pub fn select_previous(&mut self)
        requires
            old(self).well_formed(),
        ensures
            final(self).well_formed(),
            final(self)@ == select_previous_spec(old(self)@),
    {
        if self.selected > 0 {
            self.selected -= 1;
        }
        proof {
            assert(self@ =~= select_previous_spec(old(self)@));
        }
    }

    /// Moves the menu cursor down one game, unless it is on the last.
    pub fn select_next(&mut self)
        requires
            old(self).well_formed(),
        ensures
            final(self).well_formed(),
            final(self)@ == select_next_spec(old(self)@),
    {
        let count = self.games.len();
        if count > 0 && self.selected < count - 1 {
            self.selected = self.selected + 1;
        }
        proof {
            assert(self@ =~= select_next_spec(old(self)@));
        }
    }

    fn select_first(&mut self)
        requires
            old(self).well_formed(),
        ensures
            final(self).well_formed(),
            final(self)@ == select_first_spec(old(self)@),
    {
        self.selected = 0;
        proof {
            assert(self@ =~= select_first_spec(old(self)@));
        }
    }

    fn select_last(&mut self)
        requires
            old(self).well_formed(),
        ensures
            final(self).well_formed(),
            final(self)@ == select_last_spec(old(self)@),
    {
        self.selected = if self.games.len() > 0 {
            self.games.len() - 1
        } else {
            0
        };
        proof {
            assert(self@ =~= select_last_spec(old(self)@));
        }
    }

    /// Returns to the menu, with the game that was on screen selected.
    pub fn show_menu(&mut self)
        requires
            old(self).well_formed(),
        ensures
            final(self).well_formed(),
            final(self)@ == show_menu_spec(old(self)@),
    {
        self.selected = self.current_game;
        self.mode = Mode::Menu;
        proof {
            assert(self@ =~= show_menu_spec(old(self)@));
        }
    }

    fn quit(&mut self)
        requires
            old(self).well_formed(),
        ensures
            final(self).well_formed(),
            final(self)@ == quit_spec(old(self)@),
    {
        self.should_quit = true;
        proof {
            assert(self@ =~= quit_spec(old(self)@));
        }
    }
}

} // verus!

verus! {

/// A move whose hints are on the board can be written out.
proof fn lemma_printable(actions: Seq<Action>)
    requires
        all_hints_on_board(actions),
    ensures
        forall|i: int| 0 <= i < actions.len() ==> hints_printable(#[trigger] actions[i]),
{
    assert forall|i: int| 0 <= i < actions.len() implies hints_printable(#[trigger] actions[i]) by {
        assert(hints_on_board(actions[i]));
    }
}

/// The status that reports why game `name` could not be replayed.
fn failure_status_text(name: &String, message: &String) -> (status: String)
    ensures
        status@ == name@ + ": "@ + message@,
{
    let mut text = chars_of(name.as_str());
    extend_with_str(&mut text, ": ");
    extend_with_str(&mut text, message.as_str());
    string_from(&text)
}

/// Storing a game's own replay, and going to the menu, keeps the viewer's
/// state well formed.
pub proof fn lemma_with_replay_ok(v: AppView, index: int, replay: ReplayView)
    requires
        app_ok(v),
        0 <= index < v.games.len(),
        replay_spec(v.games[index].actions) == Ok::<ReplayView, (nat, MoveOutcome)>(replay),
    ensures
        app_ok(with_replay(v, index, replay)),
{
    let w = with_replay(v, index, replay);
    assert forall|g: int| 0 <= g < w.games.len() implies all_hints_on_board(
        #[trigger] w.games[g].actions,
    ) by {
        assert(w.games[g].actions == v.games[g].actions);
    }
    assert(current_actions_of(w) == current_actions_of(v));
}

/// The viewer with `replay` stored for game `index`, in the menu.
pub open spec fn with_replay(v: AppView, index: int, replay: ReplayView) -> AppView {
    AppView {
        games: v.games.update(index, EntryView { replay: Some(replay), ..v.games[index] }),
        mode: Mode::Menu,
        ..v
    }
}

impl App {
    /// Stores the replay of a game, leaving the menu on screen.
    fn store_replay(&mut self, index: usize, replay: Replay)
        requires
            old(self).well_formed(),
            index < old(self)@.games.len(),
            replay_spec(old(self)@.games[index as int].actions) == Ok::<
                ReplayView,
                (nat, MoveOutcome),
            >(replay@),
        ensures
            final(self).well_formed(),
            final(self)@ == with_replay(old(self)@, index as int, replay@),
    {
        self.mode = Mode::Menu;
        let ghost kept = self.replays@;
        while self.replays.len() <= index
            invariant
                kept.len() <= self.replays.len(),
                forall|i: int| 0 <= i < kept.len() ==> self.replays@[i] == kept[i],
                forall|i: int| kept.len() <= i < self.replays.len() ==> self.replays@[i] is None,
                self.games@ == old(self).games@,
                self.mode == Mode::Menu,
                self.selected == old(self).selected,
                self.current_game == old(self).current_game,
                self.ply == old(self).ply,
                self.status == old(self).status,
                self.should_quit == old(self).should_quit,
            decreases index + 1 - self.replays.len(),
        {
            self.replays.push(None);
        }
        self.replays.set(index, Some(replay));
        proof {
            assert(self@.games =~= with_replay(old(self)@, index as int, replay@).games);
            assert(self@ =~= with_replay(old(self)@, index as int, replay@));
            lemma_with_replay_ok(old(self)@, index as int, replay@);
        }
    }

    /// Puts an opened game on the board at its first position.
    fn show_game(&mut self, index: usize)
        requires
            old(self).well_formed(),
            index < old(self)@.games.len(),
            (old(self)@.games[index as int].replay is Some),
        ensures
            final(self).well_formed(),
            final(self)@ == (AppView {
                current_game: index as int,
                ply: 0,
                status: None,
                mode: Mode::Board,
                ..old(self)@
            }),
    {
        self.ply = 0;
        self.current_game = index;
        self.status = None;
        self.mode = Mode::Board;
        proof {
            assert(self@ =~= AppView {
                current_game: index as int,
                ply: 0,
                status: None,
                mode: Mode::Board,
                ..old(self)@
            });
        }
    }

    /// Whether game `index` has been replayed.
    fn is_replayed(&self, index: usize) -> (replayed: bool)
        requires
            self.well_formed(),
            index < self@.games.len(),
        ensures
            replayed == (self@.games[index as int].replay is Some),
    {
        index < self.replays.len() && self.replays[index].is_some()
    }

    /// Opens a game on the board at its first position, replaying it the
    /// first time it is opened. A game that cannot be replayed leaves the
    /// menu up and reports why; an index past the list does nothing.
    pub fn open_game(&mut self, index: usize)
        requires
            old(self).well_formed(),
        ensures
            final(self).well_formed(),
            opened(old(self)@, index as int, final(self)@),
    {
        if index >= self.games.len() {
            return;
        }
        if !self.is_replayed(index) {
            proof {
                assert(self@.games[index as int].actions == self.games@[index as int].actions@);
                lemma_printable(self@.games[index as int].actions);
            }
            let built = build_replay(&self.games[index].actions);
            match built {
                Ok(replay) => {
                    self.store_replay(index, replay);
                },
                Err(message) => {
                    let status = failure_status_text(&self.games[index].name, &message);
                    self.status = Some(status);
                    proof {
                        assert(self@ =~= AppView { status: self@.status, ..old(self)@ });
                    }
                    return;
                },
            }
        }
        self.show_game(index);
        proof {
            let v = old(self)@;
            let replay = match v.games[index as int].replay {
                Some(r) => r,
                None => replay_spec(v.games[index as int].actions)->Ok_0,
            };
            assert(self@.games =~= showing(v, index as int, replay).games);
            assert(self@ =~= showing(v, index as int, replay));
        }
    }
}

} // verus!

verus! {

// ===========================================================================
// INPUT
// ===========================================================================

/// A rectangle of terminal cells.
#[derive(Debug, Clone, Copy, PartialEq, Eq, Hash, Structural)]
pub struct Area {
    pub x: u16,
    pub y: u16,
    pub width: u16,
    pub height: u16,
}

/// Whether the cell at `(column, row)` lies inside `area`.
pub open spec fn area_contains(area: Area, column: int, row: int) -> bool {
    area.x <= column < area.x + area.width && area.y <= row < area.y + area.height
}

/// Whether the cell at `(column, row)` lies inside `area`.
pub fn hit(area: Area, column: u16, row: u16) -> (inside: bool)
    ensures
        inside == area_contains(area, column as int, row as int),
{
    let right = area.x as u32 + area.width as u32;
    let bottom = area.y as u32 + area.height as u32;
    column >= area.x && (column as u32) < right && row >= area.y && (row as u32) < bottom
}

/// Whether `w` is what a click on the menu leaves of `v`, when `list` is the
/// area the game rows are drawn in: a click on a row opens the game drawn
/// there, and any other click changes nothing.
pub open spec fn menu_click_step(v: AppView, list: Area, column: int, row: int, w: AppView) -> bool {
    if area_contains(list, column, row) {
        let index = menu_scroll_spec(v, list.height as int) + (row - list.y);
        if index < v.games.len() {
            opened(v, index, w)
        } else {
            w == v
        }
    } else {
        w == v
    }
}

/// What a click on the board leaves of `v`, when `buttons` are the areas of
/// the "all games", "back", "reset" and "forward" buttons.
pub open spec fn board_click_spec(v: AppView, buttons: [Area; 4], column: int, row: int) -> AppView {
    if area_contains(buttons[0], column, row) {
        show_menu_spec(v)
    } else if area_contains(buttons[1], column, row) {
        backward_spec(v)
    } else if area_contains(buttons[2], column, row) {
        reset_spec(v)
    } else if area_contains(buttons[3], column, row) {
        forward_spec(v)
    } else {
        v
    }
}

/// Whether `w` is what a left click at `(column, row)` leaves of `v`.
pub open spec fn click_step(
    v: AppView,
    list: Area,
    buttons: [Area; 4],
    column: int,
    row: int,
    w: AppView,
) -> bool {
    match v.mode {
        Mode::Menu => menu_click_step(v, list, column, row, w),
        Mode::Board => w == board_click_spec(v, buttons, column, row),
    }
}

impl App {
    /// The first menu row on screen when `visible` rows fit, chosen so that
    /// the cursor is always on screen.
    pub fn menu_scroll(&self, visible: u16) -> (first: u16)
        requires
            self.well_formed(),
        ensures
            first == menu_scroll_spec(self@, visible as int),
    {
        let selected: u16 = if self.selected <= 65535 {
            self.selected as u16
        } else {
            65535
        };
        if visible > 0 && selected >= visible {
            selected - visible + 1
        } else {
            0
        }
    }

    /// Handles a key press: in the menu the arrows move the cursor, `Home`
    /// and `End` jump to the first and last game, `Enter` opens the selected
    /// game and `q` or `Esc` quits; on the board the arrows step through the
    /// moves, `r` or `Home` resets, `End` goes to the last position, `a` or
    /// `Esc` returns to the menu and `q` quits.
    pub fn handle_key(&mut self, key: Key)
        requires
            old(self).well_formed(),
        ensures
            final(self).well_formed(),
            key_step(old(self)@, key, final(self)@),
    {
        match self.mode {
            Mode::Menu => self.handle_menu_key(key),
            Mode::Board => self.handle_board_key(key),
        }
    }

    fn handle_menu_key(&mut self, key: Key)
        requires
            old(self).well_formed(),
            old(self)@.mode == Mode::Menu,
        ensures
            final(self).well_formed(),
            menu_key_step(old(self)@, key, final(self)@),
    {
        match key {
            Key::Up => self.select_previous(),
            Key::Down => self.select_next(),
            Key::Home => self.select_first(),
            Key::End => self.select_last(),
            Key::Enter => {
                let selected = self.selected;
                self.open_game(selected);
            },
            Key::Esc => self.quit(),
            Key::Char(c) => {
                if c == 'q' || c == 'Q' {
                    self.quit();
                }
            },
            _ => {},
        }
    }

    fn handle_board_key(&mut self, key: Key)
        requires
            old(self).well_formed(),
            old(self)@.mode == Mode::Board,
        ensures
            final(self).well_formed(),
            final(self)@ == board_key_spec(old(self)@, key),
    {
        match key {
            Key::Right => self.forward(),
            Key::Left => self.backward(),
            Key::Home => self.reset(),
            Key::End => self.go_to_end(),
            Key::Esc => self.show_menu(),
            Key::Char(c) => {
                if c == 'r' || c == 'R' {
                    self.reset();
                } else if c == 'a' || c == 'A' {
                    self.show_menu();
                } else if c == 'q' || c == 'Q' {
                    self.quit();
                }
            },
            _ => {},
        }
    }

    /// Handles a left click at `(column, row)`. In the menu, `list` is the
    /// area the game rows are drawn in, and a click on a row opens that game;
    /// on the board, `buttons` are the "all games", "back", "reset" and
    /// "forward" buttons, and a click on one does what it says.
    pub fn handle_click(&mut self, list: Area, buttons: [Area; 4], column: u16, row: u16)
        requires
            old(self).well_formed(),
        ensures
            final(self).well_formed(),
            click_step(old(self)@, list, buttons, column as int, row as int, final(self)@),
    {
        match self.mode {
            Mode::Menu => {
                if hit(list, column, row) {
                    let offset = (row - list.y) as usize;
                    let first = self.menu_scroll(list.height) as usize;
                    let index = first + offset;
                    if index < self.games.len() {
                        self.open_game(index);
                    }
                }
            },
            Mode::Board => {
                if hit(buttons[0], column, row) {
                    self.show_menu();
                } else if hit(buttons[1], column, row) {
                    self.backward();
                } else if hit(buttons[2], column, row) {
                    self.reset();
                } else if hit(buttons[3], column, row) {
                    self.forward();
                }
            },
        }
    }

    /// The squares of the most recent move, to highlight on the board.
    pub fn last_move_highlights(&self) -> (squares: Vec<(u8, u8)>)
        requires
            self.well_formed(),
        ensures
            squares@ == highlights_spec(self@),
    {
        if self.ply == 0 || self.ply > self.current_move_count() {
            return Vec::new();
        }
        let action = self.games[self.current_game].actions[self.ply - 1];
        highlights_of(action, self.ply)
    }
}

/// The squares to highlight for `action` played as half-move `ply`.
fn highlights_of(action: Action, ply: usize) -> (squares: Vec<(u8, u8)>)
    ensures
        squares@ == move_highlights(action, ply as int),
{
    let back_rank: u8 = if ply % 2 == 1 {
        0
    } else {
        7
    };
    let mut squares: Vec<(u8, u8)> = Vec::new();
    match action.kind {
        ActionKind::Normal { destination, .. } => {
            squares.push((destination.file(), destination.rank()));
        },
        ActionKind::CastleKingside => {
            squares.push((6, back_rank));
            squares.push((5, back_rank));
        },
        ActionKind::CastleQueenside => {
            squares.push((2, back_rank));
            squares.push((3, back_rank));
        },
    }
    proof {
        assert(squares@ =~= move_highlights(action, ply as int));
    }
    squares
}

} // verus!

verus! {

// ===========================================================================
// CONSTRUCTION
// ===========================================================================

/// Why a PGN text cannot be shown.
#[derive(Debug)]
pub enum AppError {
    /// The text is not valid PGN.
    InvalidPgn(ParseError),
    /// The text holds no games.
    NoGames,
}

/// What an [`AppError`] says.
pub enum AppFault {
    InvalidPgn(ParseFault),
    NoGames,
}

impl View for AppError {
    type V = AppFault;

    open spec fn view(&self) -> AppFault {
        match self {
            AppError::InvalidPgn(error) => AppFault::InvalidPgn(error@),
            AppError::NoGames => AppFault::NoGames,
        }
    }
}

/// The name shown for game `index` (from zero): the name the file gives it,
/// or `Game N` with its place in the file, counted from one.
pub open spec fn display_name(game: GameRecord, index: int) -> Seq<char> {
    match game.name {
        Some(name) => name,
        None => "Game "@ + decimal((index + 1) as nat),
    }
}

/// The viewer over parsed games before any is opened: the menu, with the
/// first game selected.
pub open spec fn initial_view(games: Seq<GameRecord>) -> AppView {
    AppView {
        games: Seq::new(
            games.len(),
            |i: int|
                EntryView { name: display_name(games[i], i), actions: games[i].actions, replay: None },
        ),
        mode: Mode::Menu,
        selected: 0,
        current_game: 0,
        ply: 0,
        status: None,
        should_quit: false,
    }
}

/// The viewer over a non-empty list of games: a single game opens straight
/// onto the board, several games show the menu.
pub open spec fn start_step(games: Seq<GameRecord>, w: AppView) -> bool {
    if games.len() == 1 {
        opened(initial_view(games), 0, w)
    } else {
        w == initial_view(games)
    }
}

/// Builds the display name of game `index` of a file.
fn game_name(name: Option<String>, index: usize) -> (shown: String)
    requires
        index < usize::MAX,
    ensures
        shown@ == display_name(
            GameRecord {
                actions: Seq::empty(),
                name: match name {
                    Some(n) => Some(n@),
                    None => None,
                },
            },
            index as int,
        ),
{
    match name {
        Some(name) => name,
        None => {
            let mut text = chars_of("Game ");
            extend_chars(&mut text, &decimal_text(index + 1));
            string_from(&text)
        },
    }
}

/// The entries of parsed games, named for display.
fn entries_of(parsed: Vec<ParsedGame>) -> (games: Vec<GameEntry>)
    ensures
        games@.len() == parsed@.len(),
        forall|i: int|
            0 <= i < parsed@.len() ==> #[trigger] games@[i].name@ == display_name(
                game_records(parsed@)[i],
                i,
            ) && games@[i].actions@ == game_records(parsed@)[i].actions,
{
    let ghost records = game_records(parsed@);
    let count = parsed.len();
    let mut games: Vec<GameEntry> = Vec::new();
    let mut index: usize = 0;
    for game in it: parsed.into_iter()
        invariant
            index == it.index(),
            it.seq() == parsed@,
            records == game_records(parsed@),
            count == parsed@.len(),
            games@.len() == index,
            forall|i: int|
                0 <= i < index ==> #[trigger] games@[i].name@ == display_name(records[i], i)
                    && games@[i].actions@ == records[i].actions,
    {
        let name = game_name(game.name, index);
        games.push(GameEntry { name, actions: game.actions });
        index += 1;
    }
    games
}

impl App {
    /// Builds a viewer from PGN text. Games are parsed here and replayed only
    /// when opened. A file with exactly one game opens straight onto the
    /// board, otherwise the menu is shown.
    ///
    /// Returns [`AppError::InvalidPgn`] if the text is not valid PGN, and
    /// [`AppError::NoGames`] if it holds no games.
    pub fn from_pgn(pgn: &str) -> (r: Result<App, AppError>)
        ensures
            match parse_pgn(pgn@) {
                Err(fault) => r matches Err(e) && e@ == AppFault::InvalidPgn(fault),
                Ok(games) => if games.len() == 0 {
                    r matches Err(e) && e@ == AppFault::NoGames
                } else {
                    r matches Ok(app) && app.well_formed() && start_step(games, app@)
                },
            },
    {
        let parser = PgnParser::new();
        let parsed = match parser.parse(pgn) {
            Ok(parsed) => parsed,
            Err(error) => {
                return Err(AppError::InvalidPgn(error));
            },
        };
        if parsed.len() == 0 {
            return Err(AppError::NoGames);
        }
        let ghost records = game_records(parsed@);
        proof {
            lemma_parsed_hints_on_board(pgn@);
        }
        let count = parsed.len();
        let games = entries_of(parsed);
        let mut app = App {
            games,
            replays: Vec::new(),
            mode: Mode::Menu,
            selected: 0,
            current_game: 0,
            ply: 0,
            status: None,
            should_quit: false,
        };
        proof {
            assert(app@ =~= initial_view(records));
        }
        if count == 1 {
            app.open_game(0);
        }
        Ok(app)
    }

    /// A viewer with no games, showing `message` in the menu: used when no
    /// file could be loaded, so the program lands in the menu with an
    /// explanation rather than exiting.
    pub fn empty(message: String) -> (app: App)
        ensures
            app.well_formed(),
            app@ == (AppView {
                games: Seq::empty(),
                mode: Mode::Menu,
                selected: 0,
                current_game: 0,
                ply: 0,
                status: Some(message@),
                should_quit: false,
            }),
    {
        let app = App {
            games: Vec::new(),
            replays: Vec::new(),
            mode: Mode::Menu,
            selected: 0,
            current_game: 0,
            ply: 0,
            status: Some(message),
            should_quit: false,
        };
        proof {
            assert(app@.games =~= Seq::<EntryView>::empty());
        }
        app
    }
}

} // verus!

verus! {

// ===========================================================================
// QUERIES
// ===========================================================================

impl App {
    /// Which screen is showing.
    pub fn mode(&self) -> (mode: Mode)
        ensures
            mode == self@.mode,
    {
        self.mode
    }

    /// How many half-moves of the game on show are applied.
    pub fn ply(&self) -> (ply: usize)
        ensures
            ply == self@.ply,
    {
        self.ply
    }

    /// The menu cursor.
    pub fn selected(&self) -> (selected: usize)
        ensures
            selected == self@.selected,
    {
        self.selected
    }

    /// The game shown in board mode.
    pub fn current_game(&self) -> (index: usize)
        ensures
            index == self@.current_game,
    {
        self.current_game
    }

    /// Whether the user asked to quit.
    pub fn should_quit(&self) -> (quit: bool)
        ensures
            quit == self@.should_quit,
    {
        self.should_quit
    }

    /// The problem on show, if any.
    pub fn status(&self) -> (status: Option<&String>)
        ensures
            match status {
                Some(text) => self@.status == Some(text@),
                None => self@.status is None,
            },
    {
        match &self.status {
            Some(text) => Some(text),
            None => None,
        }
    }

    /// The number of games in the file.
    pub fn game_count(&self) -> (count: usize)
        ensures
            count == self@.games.len(),
    {
        self.games.len()
    }

    /// The name shown for a game.
    pub fn game_name(&self, index: usize) -> (name: &String)
        requires
            index < self@.games.len(),
        ensures
            name@ == self@.games[index as int].name,
    {
        &self.games[index].name
    }

    /// The number of half-moves of a game.
    pub fn game_move_count(&self, index: usize) -> (count: usize)
        requires
            index < self@.games.len(),
        ensures
            count == self@.games[index as int].actions.len(),
    {
        self.games[index].actions.len()
    }

    /// The replay of a game, once it has been opened.
    pub fn replay(&self, index: usize) -> (replay: Option<&Replay>)
        requires
            index < self@.games.len(),
        ensures
            match replay {
                Some(r) => self@.games[index as int].replay == Some(r@),
                None => self@.games[index as int].replay is None,
            },
    {
        if index < self.replays.len() {
            match &self.replays[index] {
                Some(r) => Some(r),
                None => None,
            }
        } else {
            None
        }
    }

    /// The replay of the game on show, if one is.
    pub fn current_replay(&self) -> (replay: Option<&Replay>)
        ensures
            match replay {
                Some(r) => 0 <= self@.current_game < self@.games.len()
                    && self@.games[self@.current_game].replay == Some(r@),
                None => !(0 <= self@.current_game < self@.games.len())
                    || self@.games[self@.current_game].replay is None,
            },
    {
        if self.current_game < self.games.len() {
            self.replay(self.current_game)
        } else {
            None
        }
    }
}

} // verus!

verus! {

// ===========================================================================
// LAWS
// ===========================================================================

/// Opening a game keeps the viewer's state well formed.
pub proof fn lemma_opened_ok(v: AppView, index: int, w: AppView)
    requires
        app_ok(v),
        opened(v, index, w),
    ensures
        app_ok(w),
{
    if 0 <= index < v.games.len() {
        let entry = v.games[index];
        let replay = match entry.replay {
            Some(r) => Some(r),
            None => match replay_spec(entry.actions) {
                Ok(r) => Some(r),
                Err(_) => None,
            },
        };
        if let Some(r) = replay {
            assert forall|g: int| 0 <= g < w.games.len() implies all_hints_on_board(
                #[trigger] w.games[g].actions,
            ) by {
                assert(w.games[g].actions == v.games[g].actions);
            }
            assert(current_actions_of(w) == entry.actions);
        }
    }
}

/// Every key press keeps the viewer's state well formed: the menu cursor
/// stays on the list, the board shows an opened game, and the ply stays
/// between the start and the end of that game.
pub proof fn lemma_key_keeps_ok(v: AppView, key: Key, w: AppView)
    requires
        app_ok(v),
        key_step(v, key, w),
    ensures
        app_ok(w),
{
    if v.mode == Mode::Menu && key == Key::Enter {
        lemma_opened_ok(v, v.selected, w);
    }
}

/// Every click keeps the viewer's state well formed.
pub proof fn lemma_click_keeps_ok(
    v: AppView,
    list: Area,
    buttons: [Area; 4],
    column: int,
    row: int,
    w: AppView,
)
    requires
        app_ok(v),
        click_step(v, list, buttons, column, row, w),
    ensures
        app_ok(w),
{
    if v.mode == Mode::Menu && area_contains(list, column, row) {
        let index = menu_scroll_spec(v, list.height as int) + (row - list.y);
        if index < v.games.len() {
            lemma_opened_ok(v, index, w);
        }
    }
}

/// Stepping forward and then back returns to the same position, whenever
/// there is a move to step over.
pub proof fn lemma_forward_then_backward(v: AppView)
    requires
        v.ply < current_actions_of(v).len(),
        0 <= v.ply,
    ensures
        backward_spec(forward_spec(v)) == v,
        forward_spec(v).ply == v.ply + 1,
{
    assert(backward_spec(forward_spec(v)) =~= v);
}

/// Stepping back and then forward returns to the same position, whenever the
/// game is past its start.
pub proof fn lemma_backward_then_forward(v: AppView)
    requires
        app_ok(v),
        v.ply > 0,
    ensures
        forward_spec(backward_spec(v)) == v,
{
    assert(forward_spec(backward_spec(v)) =~= v);
}

/// Opening a game that can be shown puts it on the board at its first
/// position, with no problem reported; opening one that cannot be replayed
/// changes nothing but the status, which then names the game, the move that
/// could not be played, and why.
pub proof fn lemma_open_outcome(v: AppView, index: int, w: AppView)
    requires
        0 <= index < v.games.len(),
        opened(v, index, w),
    ensures
        (v.games[index].replay is Some || replay_spec(v.games[index].actions) is Ok) ==> w.mode
            == Mode::Board && w.current_game == index && w.ply == 0 && w.status is None,
        v.games[index].replay is None ==> (replay_spec(v.games[index].actions) matches Err(
            (k, outcome),
        ) ==> w == (AppView {
            status: Some(failure_status(v.games[index].name, v.games[index].actions[k as int], outcome)),
            ..v
        })),
{
}

/// Opening a game replays that game only: every other game is left as it
/// was, replayed or not.
pub proof fn lemma_open_replays_only_that_game(v: AppView, index: int, w: AppView)
    requires
        opened(v, index, w),
    ensures
        w.games.len() == v.games.len(),
        forall|j: int| 0 <= j < v.games.len() && j != index ==> w.games[j] == v.games[j],
{
}

/// The menu's scroll keeps the selected game on screen.
pub proof fn lemma_menu_scroll_shows_selection(v: AppView, visible: int)
    requires
        0 <= v.selected <= 65535,
        0 < visible,
    ensures
        menu_scroll_spec(v, visible) <= v.selected < menu_scroll_spec(v, visible) + visible,
{
}

/// Leaving the board (with `Esc` or `a`) returns to the menu with the game
/// that was on screen selected.
pub proof fn lemma_leaving_selects_game(v: AppView, key: Key)
    requires
        v.mode == Mode::Board,
        key == Key::Esc || is_letter_key(key, 'a', 'A'),
    ensures
        board_key_spec(v, key).mode == Mode::Menu,
        board_key_spec(v, key).selected == v.current_game,
{
}

/// `q` quits from either screen, and `Esc` quits from the menu.
pub proof fn lemma_quit_keys(v: AppView, key: Key, w: AppView)
    requires
        key_step(v, key, w),
        is_letter_key(key, 'q', 'Q') || (key == Key::Esc && v.mode == Mode::Menu),
    ensures
        w.should_quit,
{
}

/// A replay holds one position more than the game has moves, the first of
/// them the standard starting position, and the SAN text of every move.
pub proof fn lemma_replay_shape(actions: Seq<Action>)
    requires
        replay_spec(actions) is Ok,
    ensures
        replay_spec(actions)->Ok_0.positions.len() == actions.len() + 1,
        replay_spec(actions)->Ok_0.positions[0] == ascii_board(starting_position().board),
        replay_spec(actions)->Ok_0.san_moves.len() == actions.len(),
{
}

} // verus!
