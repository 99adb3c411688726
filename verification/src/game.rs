//! A game in progress: playing, passing, setting up stones, undo and redo, and a
//! snapshot to return to.

use crate::board::{
    cell, group_points, idx, in_board, inb, index_of, lemma_area, opponent, pos_ok, Pos, Position,
    Pt, BLACK, CELLS, EMPTY, ERR_OCCUPIED, ERR_OFFBOARD, ERR_SUICIDE, MAX, OK, RULE_CHINESE, WHITE,
};
use crate::history::{
    caps_on, entered, hist_ok, rec_ok, Hist, History, MoveRec, KIND_PASS, KIND_PLACE, KIND_PLAY,
};
use crate::record::{
    grown, lemma_line_back, lemma_line_grows, lemma_line_on, lemma_rec_result, lemma_traced_start,
    line_ok, pass_fits, pass_record, pass_result, place_code, place_record, place_result,
    play_record, rec_of, rec_result, rec_taken, sound, stepped_back, stepped_on, traced, unplayed,
    NOWHERE,
};
use crate::rules::{
    block_has_liberty, captures, counters_fit, lemma_capture_gives_liberty, lemma_stone_stays,
    play_code, revive, set_stone, try_play,
};
use vstd::prelude::*;

verus! {

broadcast use group_points;

/// A position saved to return to, with its history.
pub struct Snapshot {
    pub saved: bool,
    pub pos: Position,
    pub hist: History,
}

/// Mathematical view of a [`Snapshot`].
#[verifier::ext_equal]
pub struct Snap {
    pub saved: bool,
    pub pos: Pos,
    pub hist: Hist,
}

impl View for Snapshot {
    type V = Snap;

    open spec fn view(&self) -> Snap {
        Snap { saved: self.saved, pos: self.pos@, hist: self.hist@ }
    }
}

/// The last positional analysis: net influence (Black positive), classification of
/// each point, and the estimated points of each side.
pub struct Analysis {
    pub influence: Vec<i32>,
    pub territory: Vec<i8>,
    pub est_black: i32,
    pub est_white: i32,
}

/// Mathematical view of an [`Analysis`].
#[verifier::ext_equal]
pub struct Study {
    pub influence: Seq<i32>,
    pub territory: Seq<i8>,
    pub est_black: int,
    pub est_white: int,
}

impl View for Analysis {
    type V = Study;

    open spec fn view(&self) -> Study {
        Study {
            influence: self.influence@,
            territory: self.territory@,
            est_black: self.est_black as int,
            est_white: self.est_white as int,
        }
    }
}

pub open spec fn study_ok(a: Study) -> bool {
    a.influence.len() == CELLS && a.territory.len() == CELLS
}

/// Style weights of the opponent, each from 0 to 100.
#[derive(Clone, Copy)]
pub struct Style {
    pub attack: i32,
    pub defence: i32,
    pub territory: i32,
    pub moyo: i32,
}

pub open spec fn style_ok(w: Style) -> bool {
    &&& 0 <= w.attack <= 100
    &&& 0 <= w.defence <= 100
    &&& 0 <= w.territory <= 100
    &&& 0 <= w.moyo <= 100
}

/// The searching opponent: its strength and style, its random state, its last
/// advice, and the candidates that it weighed.
pub struct Ai {
    /// 0 is off, 1 to 10 is the strength.
    pub level: i32,
    pub style: Style,
    pub seed: u32,
    /// 0 is a pass, 1 a move, 2 a resignation.
    pub action: i32,
    pub x: i32,
    pub y: i32,
    pub rc_n: usize,
    pub rc_x: Vec<i32>,
    pub rc_y: Vec<i32>,
    pub rc_sc: Vec<i32>,
    /// Values of the candidates after the last complete layer of the search.
    pub rc_vb: Vec<i32>,
    pub nodes: i32,
}

/// Mathematical view of an [`Ai`].
#[verifier::ext_equal]
pub struct Advisor {
    pub level: int,
    pub style: Style,
    pub seed: u32,
    pub action: int,
    pub x: int,
    pub y: int,
    pub rc_n: int,
    pub rc_x: Seq<i32>,
    pub rc_y: Seq<i32>,
    pub rc_sc: Seq<i32>,
    pub rc_vb: Seq<i32>,
    pub nodes: int,
}

impl View for Ai {
    type V = Advisor;

    open spec fn view(&self) -> Advisor {
        Advisor {
            level: self.level as int,
            style: self.style,
            seed: self.seed,
            action: self.action as int,
            x: self.x as int,
            y: self.y as int,
            rc_n: self.rc_n as int,
            rc_x: self.rc_x@,
            rc_y: self.rc_y@,
            rc_sc: self.rc_sc@,
            rc_vb: self.rc_vb@,
            nodes: self.nodes as int,
        }
    }
}

/// Bound on the ordering score of a candidate.
pub const SCORE_LIMIT: i32 = 100000;

pub open spec fn advisor_ok(a: Advisor) -> bool {
    &&& 0 <= a.level <= 10
    &&& style_ok(a.style)
    &&& 0 <= a.rc_n <= CELLS
    &&& a.rc_x.len() == CELLS
    &&& a.rc_y.len() == CELLS
    &&& a.rc_sc.len() == CELLS
    &&& a.rc_vb.len() == CELLS
    &&& forall|i: int|
        0 <= i < a.rc_n ==> inb(MAX as int, (#[trigger] a.rc_x[i], a.rc_y[i])) && -SCORE_LIMIT
            <= a.rc_sc[i] <= SCORE_LIMIT
}

/// The whole state of the engine.
pub struct Game {
    pub pos: Position,
    pub rule: u8,
    pub hist: History,
    pub snap: Snapshot,
    pub analysis: Analysis,
    pub ai: Ai,
}

/// Mathematical view of a [`Game`].
#[verifier::ext_equal]
pub struct State {
    pub pos: Pos,
    pub rule: u8,
    pub hist: Hist,
    pub snap: Snap,
    pub analysis: Study,
    pub ai: Advisor,
}

impl View for Game {
    type V = State;

    open spec fn view(&self) -> State {
        State {
            pos: self.pos@,
            rule: self.rule,
            hist: self.hist@,
            snap: self.snap@,
            analysis: self.analysis@,
            ai: self.ai@,
        }
    }
}

/// A saved snapshot fits the board that is in use, and its history is that of its
/// position.
pub open spec fn snap_ok(n: Snap, s: int) -> bool {
    n.saved ==> {
        &&& pos_ok(n.pos)
        &&& n.pos.size == s
        &&& hist_ok(n.hist, s)
        &&& traced(n.pos, n.hist)
    }
}

/// The parts of the state fit together: the history records how the game came to its
/// position, so that every recorded move can be taken back and made again.
pub open spec fn state_ok(g: State) -> bool {
    &&& pos_ok(g.pos)
    &&& hist_ok(g.hist, g.pos.size)
    &&& traced(g.pos, g.hist)
    &&& snap_ok(g.snap, g.pos.size)
    &&& study_ok(g.analysis)
    &&& advisor_ok(g.ai)
}

impl Game {
    pub open spec fn wf(&self) -> bool {
        state_ok(self@)
    }
}

/// Number of lines that a request for `n` lines gives.
pub open spec fn board_lines(n: int) -> int {
    if n < 5 {
        5
    } else if n > MAX {
        MAX as int
    } else {
        n
    }
}

/// The empty board with `s` lines and Black to move. The barred point of an
/// earlier ko is kept, but is not in force.
pub open spec fn empty_position(s: int, ko: Pt) -> Pos {
    Pos {
        size: s,
        board: Seq::new(CELLS as nat, |i: int| EMPTY),
        moveno: Seq::new(CELLS as nat, |i: int| 0i32),
        turn: BLACK,
        move_count: 0,
        last: (NOWHERE, NOWHERE),
        ko_active: false,
        ko,
        captured_by_black: 0,
        captured_by_white: 0,
        pass_count: 0,
    }
}

/// An empty board with `s` lines.
fn new_position(s: usize, ko_x: i32, ko_y: i32) -> (p: Position)
    requires
        5 <= s <= MAX,
    ensures
        p@ == empty_position(s as int, (ko_x, ko_y)),
        p.wf(),
        sound(p@),
{
    let p = Position {
        size: s,
        board: vec![EMPTY; CELLS],
        moveno: vec![0i32; CELLS],
        turn: BLACK,
        move_count: 0,
        last_x: -1,
        last_y: -1,
        ko_active: false,
        ko_x,
        ko_y,
        captured_by_black: 0,
        captured_by_white: 0,
        pass_count: 0,
    };
    proof {
        assert(p@.board =~= Seq::new(CELLS as nat, |i: int| EMPTY));
        assert(p@.moveno =~= Seq::new(CELLS as nat, |i: int| 0i32));
    }
    p
}

impl Game {
    /// The engine as it starts: an empty 19 by 19 board under Chinese rules, no
    /// history, no analysis, and the opponent switched off.
    pub fn new() -> (g: Game)
        ensures
            g.wf(),
            g@.pos == empty_position(MAX as int, (NOWHERE, NOWHERE)),
            g@.rule == RULE_CHINESE,
            g@.hist.len == 0,
            g@.hist.redo_top == 0,
            g@.hist.cap_top == 0,
            !g@.snap.saved,
            g@.analysis == (Study {
                influence: Seq::new(CELLS as nat, |i: int| 0i32),
                territory: Seq::new(CELLS as nat, |i: int| 0i8),
                est_black: 0,
                est_white: 0,
            }),
            g@.ai == (Advisor {
                level: 0,
                style: Style { attack: 50, defence: 50, territory: 50, moyo: 50 },
                seed: 0x9E37_79B9,
                action: 0,
                x: -1,
                y: -1,
                rc_n: 0,
                rc_x: Seq::new(CELLS as nat, |i: int| 0i32),
                rc_y: Seq::new(CELLS as nat, |i: int| 0i32),
                rc_sc: Seq::new(CELLS as nat, |i: int| 0i32),
                rc_vb: Seq::new(CELLS as nat, |i: int| 0i32),
                nodes: 0,
            }),
    {
        let g = Game {
            pos: new_position(MAX, -1, -1),
            rule: RULE_CHINESE,
            hist: History::new(),
            snap: Snapshot {
                saved: false,
                pos: new_position(MAX, -1, -1),
                hist: History::new(),
            },
            analysis: Analysis {
                influence: vec![0i32; CELLS],
                territory: vec![0i8; CELLS],
                est_black: 0,
                est_white: 0,
            },
            ai: Ai {
                level: 0,
                style: Style { attack: 50, defence: 50, territory: 50, moyo: 50 },
                seed: 0x9E37_79B9,
                action: 0,
                x: -1,
                y: -1,
                rc_n: 0,
                rc_x: vec![0i32; CELLS],
                rc_y: vec![0i32; CELLS],
                rc_sc: vec![0i32; CELLS],
                rc_vb: vec![0i32; CELLS],
                nodes: 0,
            },
        };
        proof {
            let zeros = Seq::new(CELLS as nat, |i: int| 0i32);
            lemma_traced_start(g@.pos, g@.hist);
            assert(g@.analysis.influence =~= zeros);
            assert(g@.analysis.territory =~= Seq::new(CELLS as nat, |i: int| 0i8));
            assert(g@.ai.rc_x =~= zeros);
            assert(g@.ai.rc_y =~= zeros);
            assert(g@.ai.rc_sc =~= zeros);
            assert(g@.ai.rc_vb =~= zeros);
        }
        g
    }
}

/// Starts a new game on a board with `board_size` lines, held to 5 to 19, under
/// the given rule. The history and the snapshot are dropped.
pub fn ugo_new(g: &mut Game, board_size: i32, rule: u8)
    requires
        old(g).wf(),
    ensures
        final(g).wf(),
        final(g)@.pos == empty_position(board_lines(board_size as int), old(g)@.pos.ko),
        final(g)@.rule == rule,
        final(g)@.hist.len == 0,
        final(g)@.hist.redo_top == 0,
        final(g)@.hist.cap_top == 0,
        final(g)@.snap == (Snap { saved: false, ..old(g)@.snap }),
        final(g)@.analysis == (Study {
            influence: Seq::new(CELLS as nat, |i: int| 0i32),
            ..old(g)@.analysis
        }),
        final(g)@.ai == old(g)@.ai,
{
    let lines: i32 = if board_size < 5 {
        5
    } else if board_size > MAX as i32 {
        MAX as i32
    } else {
        board_size
    };
    g.pos = new_position(lines as usize, g.pos.ko_x, g.pos.ko_y);
    g.rule = rule;
    g.hist = History::new();
    g.snap.saved = false;
    g.analysis.influence = vec![0i32; CELLS];
    proof {
        lemma_traced_start(g@.pos, g@.hist);
        assert(g@.analysis.influence =~= Seq::new(CELLS as nat, |i: int| 0i32));
    }
}

/// Chooses the rule for scoring.
pub fn ugo_set_rule(g: &mut Game, rule: u8)
    requires
        old(g).wf(),
    ensures
        final(g).wf(),
        final(g)@ == (State { rule, ..old(g)@ }),
{
    g.rule = rule;
}

/// What stands on (x, y), or `ERR_OFFBOARD`.
pub fn ugo_get(g: &Game, x: i32, y: i32) -> (r: i32)
    requires
        g.wf(),
    ensures
        r == if inb(g@.pos.size, (x, y)) {
            cell(g@.pos.size, g@.pos.board, (x, y)) as int
        } else {
            ERR_OFFBOARD as int
        },
{
    if !in_board(&g.pos, x, y) {
        return ERR_OFFBOARD;
    }
    g.pos.at(x, y) as i32
}

/// The colour to move.
pub fn ugo_turn(g: &Game) -> (r: i32)
    ensures
        r == g@.pos.turn,
{
    g.pos.turn as i32
}

/// Number of moves, passes included.
pub fn ugo_move_count(g: &Game) -> (r: i32)
    ensures
        r == g@.pos.move_count,
{
    g.pos.move_count
}

/// Column of the last move, -1 after a pass.
pub fn ugo_last_x(g: &Game) -> (r: i32)
    ensures
        r == g@.pos.last.0,
{
    g.pos.last_x
}

/// Row of the last move, -1 after a pass.
pub fn ugo_last_y(g: &Game) -> (r: i32)
    ensures
        r == g@.pos.last.1,
{
    g.pos.last_y
}

/// Number of stones that Black has captured.
pub fn ugo_captured_black(g: &Game) -> (r: i32)
    ensures
        r == g@.pos.captured_by_black,
{
    g.pos.captured_by_black
}

/// Number of stones that White has captured.
pub fn ugo_captured_white(g: &Game) -> (r: i32)
    ensures
        r == g@.pos.captured_by_white,
{
    g.pos.captured_by_white
}

/// Number of passes in a row.
pub fn ugo_pass_count(g: &Game) -> (r: i32)
    ensures
        r == g@.pos.pass_count,
{
    g.pos.pass_count
}

/// The board buffer; its first size * size entries are the points, row by row.
pub fn ugo_board_ptr(g: &Game) -> (r: &[u8])
    ensures
        r@ == g@.pos.board,
{
    g.pos.board.as_slice()
}

/// The buffer of move numbers, laid out like the board.
pub fn ugo_moveno_ptr(g: &Game) -> (r: &[i32])
    ensures
        r@ == g@.pos.moveno,
{
    g.pos.moveno.as_slice()
}

/// The state after the move of `rec` has been made and recorded.
pub open spec fn recorded_move(g: State, rec: MoveRec) -> State {
    State {
        pos: rec_result(g.pos, rec),
        hist: entered(g.hist, rec, rec_taken(g.pos, rec)),
        ..g
    }
}

/// The state after the side to move has played on `q`.
pub open spec fn played(g: State, q: Pt) -> State {
    recorded_move(g, play_record(g.pos, q))
}

/// The state after the side to move has passed.
pub open spec fn passed(g: State) -> State {
    recorded_move(g, pass_record(g.pos))
}

/// The state after a stone of colour `c` has been set up on `q`.
pub open spec fn placed(g: State, q: Pt, c: u8) -> State {
    recorded_move(g, place_record(g.pos, q, c))
}

/// A legal move that is recorded keeps the state in order.
pub proof fn lemma_recorded_ok(g: State, rec: MoveRec)
    requires
        state_ok(g),
        rec_of(rec, g.pos),
    ensures
        state_ok(recorded_move(g, rec)),
        rec_taken(g.pos, rec).len() <= CELLS,
{
    reveal(traced);
    let line = choose|line: Seq<Pos>| line_ok(g.pos, g.hist, line);
    let after = recorded_move(g, rec);
    lemma_line_grows(g.pos, g.hist, line, rec);
    assert(line_ok(after.pos, after.hist, grown(g.pos, g.hist, line, rec)));
    assert(sound(line[g.hist.len]));
    lemma_rec_result(g.pos, rec);
}

/// Plays on (x, y) for the side to move and records the move. Returns `OK` or the
/// reason why the move is refused, in which case nothing changes.
pub fn ugo_play(g: &mut Game, x: i32, y: i32) -> (r: i32)
    requires
        old(g).wf(),
        counters_fit(old(g)@.pos),
    ensures
        final(g).wf(),
        r == play_code(old(g)@.pos, (x, y)),
        r != OK ==> final(g)@ == old(g)@,
        r == OK ==> final(g)@ == played(old(g)@, (x, y)),
{
    let ghost g0 = g@;
    let (r, u) = try_play(&mut g.pos, x, y);
    if r != OK {
        return r;
    }
    let rec = MoveRec {
        kind: KIND_PLAY,
        x,
        y,
        color: u.turn,
        cap_start: 0,
        n_cap: 0,
        prev_turn: u.turn,
        prev_move_count: u.move_count,
        prev_last_x: u.last_x,
        prev_last_y: u.last_y,
        prev_ko_active: u.ko_active,
        prev_ko_x: u.ko_x,
        prev_ko_y: u.ko_y,
        prev_cap_b: u.captured_by_black,
        prev_cap_w: u.captured_by_white,
        prev_pass: u.pass_count,
        prev_moveno: 0,
    };
    proof {
        assert(rec == play_record(g0.pos, (x, y)));
        lemma_recorded_ok(g0, rec);
    }
    g.hist.push_rec(rec, u.captured);
    proof {
        assert(g@ =~= played(g0, (x, y)));
    }
    OK
}

/// The side to move passes.
fn pass_on(pos: &mut Position)
    requires
        old(pos).wf(),
        pass_fits(old(pos)@),
    ensures
        final(pos).wf(),
        final(pos)@ == pass_result(old(pos)@),
{
    pos.pass_count = pos.pass_count + 1;
    pos.ko_active = false;
    pos.last_x = -1;
    pos.last_y = -1;
    pos.move_count = pos.move_count + 1;
    pos.turn = opponent(pos.turn);
}

/// The side to move passes, and the pass is recorded.
pub fn ugo_pass(g: &mut Game)
    requires
        old(g).wf(),
        pass_fits(old(g)@.pos),
    ensures
        final(g).wf(),
        final(g)@ == passed(old(g)@),
{
    let ghost g0 = g@;
    let rec = MoveRec {
        kind: KIND_PASS,
        x: -1,
        y: -1,
        color: 0,
        cap_start: 0,
        n_cap: 0,
        prev_turn: g.pos.turn,
        prev_move_count: g.pos.move_count,
        prev_last_x: g.pos.last_x,
        prev_last_y: g.pos.last_y,
        prev_ko_active: g.pos.ko_active,
        prev_ko_x: g.pos.ko_x,
        prev_ko_y: g.pos.ko_y,
        prev_cap_b: g.pos.captured_by_black,
        prev_cap_w: g.pos.captured_by_white,
        prev_pass: g.pos.pass_count,
        prev_moveno: 0,
    };
    pass_on(&mut g.pos);
    proof {
        assert(rec == pass_record(g0.pos));
        lemma_recorded_ok(g0, rec);
    }
    g.hist.push_rec(rec, Vec::new());
}

/// The state after the last recorded move has been taken back.
pub open spec fn undone(g: State) -> State {
    let at = g.hist.len - 1;
    State {
        pos: unplayed(g.pos, g.hist.records[at], g.hist.caps[at]),
        hist: stepped_back(g.hist),
        ..g
    }
}

/// Taking back a move keeps the state in order.
pub proof fn lemma_undone_ok(g: State)
    requires
        state_ok(g),
        g.hist.len > 0,
    ensures
        state_ok(undone(g)),
{
    reveal(traced);
    let line = choose|line: Seq<Pos>| line_ok(g.pos, g.hist, line);
    lemma_line_back(g.pos, g.hist, line);
    assert(sound(line[g.hist.len - 1]));
    assert(rec_ok(g.hist.records[g.hist.len - 1], g.pos.size));
}

/// Takes back the last recorded move, be it a move, a pass or a set-up stone.
/// Returns `ERR_OFFBOARD` when nothing is recorded.
pub fn ugo_undo(g: &mut Game) -> (r: i32)
    requires
        old(g).wf(),
    ensures
        final(g).wf(),
        r == if old(g)@.hist.len == 0 {
            ERR_OFFBOARD
        } else {
            OK
        },
        r != OK ==> final(g)@ == old(g)@,
        r == OK ==> final(g)@ == undone(old(g)@),
{
    let ghost g0 = g@;
    if g.hist.len == 0 {
        return ERR_OFFBOARD;
    }
    g.hist.len = g.hist.len - 1;
    let rec: MoveRec = g.hist.records[g.hist.len];
    proof {
        assert(rec_ok(rec, g0.pos.size));
        lemma_undone_ok(g0);
    }
    if rec.kind != KIND_PASS {
        let at: usize = index_of(g.pos.size, rec.x, rec.y);
        g.pos.board.set(at, EMPTY);
        g.pos.moveno.set(at, 0);
        proof {
            assert(caps_on(g0.hist.caps[g0.hist.len - 1], g0.pos.size));
        }
        revive(&mut g.pos, &g.hist.caps[g.hist.len], opponent(rec.color));
        if rec.n_cap > 0 {
            g.hist.cap_top = rec.cap_start;
        }
    }
    g.pos.turn = rec.prev_turn;
    g.pos.move_count = rec.prev_move_count;
    g.pos.last_x = rec.prev_last_x;
    g.pos.last_y = rec.prev_last_y;
    g.pos.ko_active = rec.prev_ko_active;
    g.pos.ko_x = rec.prev_ko_x;
    g.pos.ko_y = rec.prev_ko_y;
    g.pos.captured_by_black = rec.prev_cap_b;
    g.pos.captured_by_white = rec.prev_cap_w;
    g.pos.pass_count = rec.prev_pass;
    proof {
        assert(g@ =~= undone(g0));
    }
    OK
}

/// Numbers a stone that has been set up on (x, y) and makes it the last move.
fn number_placed(pos: &mut Position, x: i32, y: i32)
    requires
        old(pos).wf(),
        inb(old(pos)@.size, (x, y)),
        cell(old(pos)@.size, old(pos)@.board, (x, y)) != EMPTY,
        old(pos)@.move_count < i32::MAX,
    ensures
        final(pos).wf(),
        final(pos)@ == (Pos {
            moveno: old(pos)@.moveno.update(
                idx(old(pos)@.size, (x, y)),
                (-(old(pos)@.move_count + 1)) as i32,
            ),
            move_count: old(pos)@.move_count + 1,
            ko_active: false,
            last: (x, y),
            ..old(pos)@
        }),
{
    let at: usize = index_of(pos.size, x, y);
    pos.move_count = pos.move_count + 1;
    pos.moveno.set(at, -pos.move_count);
    pos.ko_active = false;
    pos.last_x = x;
    pos.last_y = y;
}

/// Sets up a stone of the given colour (1 Black, 2 White) out of turn, with
/// captures, and records it. Returns `OK` or the reason why it is refused, in which
/// case nothing changes.
pub fn ugo_place(g: &mut Game, x: i32, y: i32, color: i32) -> (r: i32)
    requires
        old(g).wf(),
        old(g)@.pos.move_count < i32::MAX,
    ensures
        final(g).wf(),
        r == place_code(old(g)@.pos, (x, y), color as int),
        r != OK ==> final(g)@ == old(g)@,
        r == OK ==> final(g)@ == placed(old(g)@, (x, y), color as u8),
{
    let ghost g0 = g@;
    let ghost p = g@.pos;
    let ghost q: Pt = (x, y);
    if !in_board(&g.pos, x, y) {
        return ERR_OFFBOARD;
    }
    if color != BLACK as i32 && color != WHITE as i32 {
        return ERR_OFFBOARD;
    }
    if g.pos.at(x, y) != EMPTY {
        return ERR_OCCUPIED;
    }
    let me: u8 = color as u8;
    let at: usize = index_of(g.pos.size, x, y);
    let rec = MoveRec {
        kind: KIND_PLACE,
        x,
        y,
        color: me,
        cap_start: 0,
        n_cap: 0,
        prev_turn: g.pos.turn,
        prev_move_count: g.pos.move_count,
        prev_last_x: g.pos.last_x,
        prev_last_y: g.pos.last_y,
        prev_ko_active: g.pos.ko_active,
        prev_ko_x: g.pos.ko_x,
        prev_ko_y: g.pos.ko_y,
        prev_cap_b: g.pos.captured_by_black,
        prev_cap_w: g.pos.captured_by_white,
        prev_pass: g.pos.pass_count,
        prev_moveno: g.pos.moveno[at],
    };
    let (caps, _ko) = set_stone(&mut g.pos, x, y, me);
    proof {
        lemma_stone_stays(p.size, p.board, q, me);
        lemma_area(p.size);
    }
    if !block_has_liberty(&g.pos, x, y) {
        proof {
            let taken = captures(p.size, p.board, q, me);
            assert forall|i: int| !taken.contains(i) by {
                if taken.contains(i) {
                    lemma_capture_gives_liberty(p.size, p.board, q, me, i);
                }
            }
            assert(p.moveno[at as int] == 0);
        }
        g.pos.set(x, y, EMPTY);
        proof {
            assert(g@.pos.board =~= p.board);
            assert(g@.pos.moveno =~= p.moveno);
        }
        return ERR_SUICIDE;
    }
    number_placed(&mut g.pos, x, y);
    proof {
        assert(rec == place_record(p, q, me));
        assert(g@.pos =~= place_result(p, q, me));
        lemma_recorded_ok(g0, rec);
    }
    g.hist.push_rec(rec, caps);
    proof {
        assert(g@ =~= placed(g0, q, me));
    }
    OK
}

/// The state after the next recorded move has been made again.
pub open spec fn redone(g: State) -> State {
    State {
        pos: rec_result(g.pos, g.hist.records[g.hist.len]),
        hist: stepped_on(g.hist),
        ..g
    }
}

/// The next recorded move can be made again as it was made, and that keeps the state in
/// order.
pub proof fn lemma_redone_ok(g: State)
    requires
        state_ok(g),
        g.hist.len < g.hist.redo_top,
    ensures
        state_ok(redone(g)),
        rec_of(g.hist.records[g.hist.len], g.pos),
{
    reveal(traced);
    let line = choose|line: Seq<Pos>| line_ok(g.pos, g.hist, line);
    lemma_line_on(g.pos, g.hist, line);
    assert(sound(line[g.hist.len + 1]));
}

/// Makes the last move that was taken back again, without recording it anew.
/// Returns `ERR_OFFBOARD` when there is none.
pub fn ugo_redo(g: &mut Game) -> (r: i32)
    requires
        old(g).wf(),
    ensures
        final(g).wf(),
        r == if old(g)@.hist.len < old(g)@.hist.redo_top {
            OK
        } else {
            ERR_OFFBOARD
        },
        r != OK ==> final(g)@ == old(g)@,
        r == OK ==> final(g)@ == redone(old(g)@),
{
    let ghost g0 = g@;
    if g.hist.len >= g.hist.redo_top {
        return ERR_OFFBOARD;
    }
    let rec: MoveRec = g.hist.records[g.hist.len];
    proof {
        lemma_redone_ok(g0);
    }
    if rec.kind == KIND_PLAY {
        let (_code, _u) = try_play(&mut g.pos, rec.x, rec.y);
    } else if rec.kind == KIND_PASS {
        pass_on(&mut g.pos);
    } else {
        let (_caps, _ko) = set_stone(&mut g.pos, rec.x, rec.y, rec.color);
        proof {
            lemma_stone_stays(g0.pos.size, g0.pos.board, (rec.x, rec.y), rec.color);
        }
        number_placed(&mut g.pos, rec.x, rec.y);
    }
    g.hist.cap_top = g.hist.cap_top + g.hist.places_for(g.hist.caps[g.hist.len].len());
    g.hist.len = g.hist.len + 1;
    proof {
        assert(g@.pos =~= rec_result(g0.pos, rec));
        assert(g@ =~= redone(g0));
    }
    OK
}

/// Number of moves that can be made again.
pub fn ugo_redo_count(g: &Game) -> (r: i32)
    requires
        g.wf(),
    ensures
        r == g@.hist.redo_top - g@.hist.len,
{
    (g.hist.redo_top - g.hist.len) as i32
}

/// The state with its position and history saved to return to.
pub open spec fn snapped(g: State) -> State {
    State { snap: Snap { saved: true, pos: g.pos, hist: g.hist }, ..g }
}

/// The state back at its saved position and history.
pub open spec fn popped(g: State) -> State {
    State { pos: g.snap.pos, hist: g.snap.hist, snap: Snap { saved: false, ..g.snap }, ..g }
}

/// Saves the position and its history to return to; an earlier snapshot is replaced.
pub fn ugo_snapshot_push(g: &mut Game)
    requires
        old(g).wf(),
    ensures
        final(g).wf(),
        final(g)@ == snapped(old(g)@),
{
    g.snap = Snapshot {
        saved: true,
        pos: g.pos.duplicate(),
        hist: g.hist.duplicate(),
    };
}

/// Returns to the saved position and history, dropping all that happened since, and uses
/// the snapshot up. Returns `ERR_OFFBOARD` when there is none.
pub fn ugo_snapshot_pop(g: &mut Game) -> (r: i32)
    requires
        old(g).wf(),
    ensures
        final(g).wf(),
        r == if old(g)@.snap.saved {
            OK
        } else {
            ERR_OFFBOARD
        },
        r != OK ==> final(g)@ == old(g)@,
        r == OK ==> final(g)@ == popped(old(g)@),
{
    if !g.snap.saved {
        return ERR_OFFBOARD;
    }
    g.snap.saved = false;
    g.pos = g.snap.pos.duplicate();
    g.hist = g.snap.hist.duplicate();
    OK
}

} // verus!
