//! The rules of the game: whose turn it is, scoring, pocketed balls and the
//! end of the game.
use vstd::prelude::*;
use crate::grid::WHITE_BALL;
use crate::table::{Holes, table_holes};

verus! {

/// A player and the points (red balls pocketed) they have.
pub struct Player {
    pub points: u32,
}

/// What the rules say the cue ball does this frame.
#[derive(Clone, Copy, Debug, PartialEq, Eq, Structural)]
pub enum CueAction {
    /// The cue ball is still moving: leave it be.
    Roll,
    /// The cue ball has come to rest: stop it dead.
    Stop,
    /// The cue ball is at rest and the player shoots: strike it.
    Strike,
}

/// The state of the game that the rules read and write.
pub struct MainState {
    holes: Holes,
    player_1: Player,
    player_2: Player,
    turn: usize,
    player_scores: bool,
    game_over: bool,
    cue_ready: bool,
    cue_struck: bool,
}

/// The model of the game state: both players' points, whose turn it is (1 or 2),
/// whether the player at the table has pocketed a red ball since the last shot
/// (or the turn has already been settled), whether the game is over, whether
/// the cue ball is at rest and ready to be struck (drawn white), and whether it
/// was struck in the current frame (a new shot, which starts once the frame's
/// pockets and turn are settled).
pub struct GameView {
    pub points_1: nat,
    pub points_2: nat,
    pub turn: nat,
    pub player_scores: bool,
    pub game_over: bool,
    pub cue_ready: bool,
    pub struck: bool,
}

/// The other player.
pub open spec fn other(turn: nat) -> nat {
    if turn == 1 {
        2
    } else {
        1
    }
}

/// Points of the player whose turn it is.
pub open spec fn shooter_points(v: GameView) -> nat {
    if v.turn == 1 {
        v.points_1
    } else {
        v.points_2
    }
}

/// The state at the start of a game: no points, player 1 to play, cue ball ready.
pub open spec fn initial_view() -> GameView {
    GameView {
        points_1: 0,
        points_2: 0,
        turn: 1,
        player_scores: true,
        game_over: false,
        cue_ready: true,
        struck: false,
    }
}

/// The player at the table scores one point.
pub open spec fn score_step(v: GameView) -> GameView {
    GameView {
        points_1: if v.turn == 1 { v.points_1 + 1 } else { v.points_1 },
        points_2: if v.turn == 1 { v.points_2 } else { v.points_2 + 1 },
        player_scores: true,
        ..v
    }
}

/// The cue ball at the start of a frame: at rest it becomes ready, and with the
/// shot button pressed it is struck.
pub open spec fn cue_step(v: GameView, at_rest: bool, pressed: bool) -> GameView {
    if at_rest {
        GameView { cue_ready: true, struck: pressed, ..v }
    } else {
        v
    }
}

/// What happens to the cue ball at the start of a frame.
pub open spec fn cue_action(at_rest: bool, pressed: bool) -> CueAction {
    if !at_rest {
        CueAction::Roll
    } else if pressed {
        CueAction::Strike
    } else {
        CueAction::Stop
    }
}

/// The pocket list names red ball `i` (by its index at the start of the frame).
pub open spec fn red_named(pocketed: Seq<usize>, i: usize) -> bool {
    i != WHITE_BALL && pocketed.contains(i)
}

/// The red balls left once those a pocket list names are taken off the table:
/// every red ball whose index (at the start of the frame) the list names leaves,
/// the others stay, in order.
pub open spec fn remove_named<T>(reds: Seq<T>, pocketed: Seq<usize>) -> Seq<T>
    decreases reds.len(),
{
    if reds.len() == 0 {
        Seq::empty()
    } else {
        let rest = remove_named(reds.drop_last(), pocketed);
        if red_named(pocketed, (reds.len() - 1) as usize) {
            rest
        } else {
            rest.push(reds.last())
        }
    }
}

/// How many of the first `len` red balls the pocket list names.
pub open spec fn named_count(len: nat, pocketed: Seq<usize>) -> nat
    decreases len,
{
    if len == 0 {
        0
    } else {
        named_count((len - 1) as nat, pocketed) + if red_named(pocketed, (len - 1) as usize) {
            1nat
        } else {
            0nat
        }
    }
}

/// Every entry of the pocket list is the cue ball or a red ball of a table of `len`.
pub open spec fn removals_defined(len: nat, pocketed: Seq<usize>) -> bool {
    forall|j: int| 0 <= j < pocketed.len() ==> #[trigger] pocketed[j] == WHITE_BALL || pocketed[j] < len
}

/// The pocketing of a frame can be carried out: every entry names a ball on the
/// table and the shooter's points stay within `u32`.
pub open spec fn settle_defined(v: GameView, len: nat, pocketed: Seq<usize>) -> bool {
    v.game_over || (removals_defined(len, pocketed) && shooter_points(v) + named_count(len, pocketed)
        <= u32::MAX)
}

/// The player at the table pockets `n` red balls: a point each, and, if `n`
/// is not zero, the shooter has scored.
pub open spec fn scored(v: GameView, n: nat) -> GameView {
    GameView {
        points_1: if v.turn == 1 { v.points_1 + n } else { v.points_1 },
        points_2: if v.turn == 1 { v.points_2 } else { v.points_2 + n },
        player_scores: v.player_scores || n > 0,
        ..v
    }
}

/// The pocketing of a frame: `n` red balls pocketed and `remaining` left on the
/// table. The shooter scores a point per red ball pocketed, and the game ends
/// when no red ball is left. Once the game is over nothing changes.
pub open spec fn pocket_step(v: GameView, n: nat, remaining: nat) -> GameView {
    if v.game_over {
        v
    } else {
        GameView { game_over: remaining == 0, ..scored(v, n) }
    }
}

/// The end of a frame. When the cue ball is at rest and the shooter pocketed no
/// red ball since the shot, the turn passes to the other player (once). Then a
/// strike taken this frame starts a new shot for the player now at the table:
/// nothing pocketed yet, the cue ball in motion.
pub open spec fn turn_step(v: GameView) -> GameView {
    let settled = if v.cue_ready && !v.player_scores {
        GameView { player_scores: true, turn: other(v.turn), ..v }
    } else {
        v
    };
    if settled.struck {
        GameView { player_scores: false, cue_ready: false, struck: false, ..settled }
    } else {
        settled
    }
}

/// The entries of a pocket list for one ball: `index` once per pocket it is in.
pub open spec fn marks(hits: Seq<bool>, index: usize) -> Seq<usize>
    decreases hits.len(),
{
    if hits.len() == 0 {
        Seq::empty()
    } else {
        marks(hits.drop_last(), index) + if hits.last() {
            seq![index]
        } else {
            Seq::<usize>::empty()
        }
    }
}

/// The entries of a pocket list for the red balls, ball `i` being in pocket `j`
/// when `hits[i][j]`, in the order of the balls.
pub open spec fn red_marks(hits: Seq<Seq<bool>>) -> Seq<usize>
    decreases hits.len(),
{
    if hits.len() == 0 {
        Seq::empty()
    } else {
        red_marks(hits.drop_last()) + marks(hits.last(), (hits.len() - 1) as usize)
    }
}

/// The pocket list of a frame: the cue ball once per pocket it is in, then each
/// red ball once per pocket it is in.
pub open spec fn pocket_list(white_hits: Seq<bool>, red_hits: Seq<Seq<bool>>) -> Seq<usize> {
    marks(white_hits, WHITE_BALL) + red_marks(red_hits)
}

impl View for MainState {
    type V = GameView;

    closed spec fn view(&self) -> GameView {
        GameView {
            points_1: self.player_1.points as nat,
            points_2: self.player_2.points as nat,
            turn: self.turn as nat,
            player_scores: self.player_scores,
            game_over: self.game_over,
            cue_ready: self.cue_ready,
            struck: self.cue_struck,
        }
    }
}

impl MainState {
    #[verifier::type_invariant]
    spec fn valid(self) -> bool {
        &&& self.turn == 1 || self.turn == 2
        &&& self.holes.holes@ == table_holes()
    }

    /// A new game: the table's pockets, no points, player 1 to play, the cue
    /// ball ready.
    pub fn new() -> (state: MainState)
        ensures
            state@ == initial_view(),
    {
        let holes = Holes::new();
        let player1 = Player { points: 0 };
        let player2 = Player { points: 0 };
        MainState {
            holes: holes,
            player_1: player1,
            player_2: player2,
            turn: 1,
            player_scores: true,
            game_over: false,
            cue_ready: true,
            cue_struck: false,
        }
    }

    /// The pockets of the table.
    pub fn holes(&self) -> (h: &Holes)
        ensures
            h.holes@ == table_holes(),
    {
        proof {
            use_type_invariant(self);
        }
        &self.holes
    }

    /// Whose turn it is: 1 or 2.
    pub fn turn(&self) -> (t: usize)
        ensures
            t == self@.turn,
            t == 1 || t == 2,
    {
        proof {
            use_type_invariant(self);
        }
        self.turn
    }

    /// Points of player 1.
    pub fn player_1_points(&self) -> (p: u32)
        ensures
            p == self@.points_1,
    {
        self.player_1.points
    }

    /// Points of player 2.
    pub fn player_2_points(&self) -> (p: u32)
        ensures
            p == self@.points_2,
    {
        self.player_2.points
    }

    /// Whether the player at the table has pocketed a red ball since the shot
    /// (or the turn has been settled).
    pub fn player_scores(&self) -> (b: bool)
        ensures
            b == self@.player_scores,
    {
        self.player_scores
    }

    /// Whether the game is over.
    pub fn game_over(&self) -> (b: bool)
        ensures
            b == self@.game_over,
    {
        self.game_over
    }

    /// Whether the cue ball is at rest and ready to be struck (drawn white).
    pub fn cue_ready(&self) -> (b: bool)
        ensures
            b == self@.cue_ready,
    {
        self.cue_ready
    }

    /// Whether the cue ball was struck this frame (until the frame is settled).
    pub fn cue_struck(&self) -> (b: bool)
        ensures
            b == self@.struck,
    {
        self.cue_struck
    }

    /// The player at the table scores a point.
    pub fn score(&mut self)
        requires
            shooter_points(old(self)@) < u32::MAX,
        ensures
            final(self)@ == score_step(old(self)@),
    {
        proof {
            use_type_invariant(&*self);
        }
        if self.turn == 1 {
            self.player_1.points += 1;
        } else {
            self.player_2.points += 1;
        }
        self.player_scores = true;
    }

    /// The cue ball at the start of a frame: at rest it is stopped and becomes
    /// ready; at rest and with the shot button pressed, it is struck. The new
    /// shot counts from the end of the frame (see `end_turn`).
    pub fn prepare_cue(&mut self, white_at_rest: bool, shot_pressed: bool) -> (action: CueAction)
        ensures
            final(self)@ == cue_step(old(self)@, white_at_rest, shot_pressed),
            action == cue_action(white_at_rest, shot_pressed),
    {
        proof {
            use_type_invariant(&*self);
        }
        let mut action = CueAction::Roll;
        if white_at_rest {
            self.cue_ready = true;
            self.cue_struck = shot_pressed;
            action = if shot_pressed {
                CueAction::Strike
            } else {
                CueAction::Stop
            };
        }
        action
    }

    /// The end of a frame: when the cue ball is at rest and the shooter has
    /// pocketed no red ball since the shot, the turn passes to the other player;
    /// then a strike taken this frame starts the new shot of the player at the table.
    pub fn end_turn(&mut self)
        ensures
            final(self)@ == turn_step(old(self)@),
    {
        proof {
            use_type_invariant(&*self);
        }
        if self.cue_ready && !self.player_scores {
            self.player_scores = true;
            if self.turn == 1 {
                self.turn = 2;
            } else {
                self.turn = 1
            }
        }
        if self.cue_struck {
            self.player_scores = false;
            self.cue_ready = false;
            self.cue_struck = false;
        }
    }

    /// Whether the pocket list of a frame can be settled against `reds` red balls
    /// (see `settle_pockets`).
    pub fn can_settle(&self, reds: usize, balls_in_the_hole: &Vec<usize>) -> (ok: bool)
        ensures
            ok == settle_defined(self@, reds as nat, balls_in_the_hole@),
    {
        if self.game_over {
            return true;
        }
        let ghost p = balls_in_the_hole@;
        let mut j: usize = 0;
        while j < balls_in_the_hole.len()
            invariant
                p == balls_in_the_hole@,
                !self@.game_over,
                0 <= j <= p.len(),
                forall|i: int| 0 <= i < j ==> #[trigger] p[i] == WHITE_BALL || p[i] < reds,
            decreases p.len() - j,
        {
            let index = balls_in_the_hole[j];
            if index != WHITE_BALL && index >= reds {
                assert(!removals_defined(reds as nat, p)) by {
                    assert(p[j as int] == index);
                }
                return false;
            }
            j = j + 1;
        }
        let named = named_reds(reds, balls_in_the_hole);
        let mut count: usize = 0;
        let mut i: usize = 0;
        while i < reds
            invariant
                named@.len() == reds,
                forall|k: int| 0 <= k < reds ==> #[trigger] named@[k] == red_named(p, k as usize),
                0 <= i <= reds,
                count == named_count(i as nat, p),
                count <= i,
            decreases reds - i,
        {
            if named[i] {
                count = count + 1;
            }
            i = i + 1;
        }
        proof {
            use_type_invariant(self);
        }
        let points: u32 = if self.turn == 1 {
            self.player_1.points
        } else {
            self.player_2.points
        };
        count <= ((u32::MAX - points) as usize)
    }

    /// Settles the balls pocketed in a frame, unless the game is over. Each entry
    /// of `balls_in_the_hole` is the cue ball (which is then to be put back on
    /// its spot) or the index of a red ball in `balls_red` as it stands at the
    /// start of the frame. Every red ball the list names is taken off the table
    /// (once, however often it is named) and scores a point for the player at the
    /// table; the other red balls stay, in order. When no red ball is left the
    /// game is over. Returns whether the cue ball was pocketed.
    pub fn settle_pockets<T>(&mut self, balls_red: &mut Vec<T>, balls_in_the_hole: &Vec<usize>) -> (cue_pocketed: bool)
        requires
            settle_defined(old(self)@, old(balls_red)@.len(), balls_in_the_hole@),
        ensures
            old(self)@.game_over ==> {
                &&& final(self)@ == old(self)@
                &&& final(balls_red)@ == old(balls_red)@
                &&& !cue_pocketed
            },
            !old(self)@.game_over ==> {
                &&& final(balls_red)@ == remove_named(old(balls_red)@, balls_in_the_hole@)
                &&& final(self)@ == pocket_step(
                    old(self)@,
                    named_count(old(balls_red)@.len(), balls_in_the_hole@),
                    final(balls_red)@.len(),
                )
                &&& cue_pocketed == balls_in_the_hole@.contains(WHITE_BALL)
            },
    {
        proof {
            use_type_invariant(&*self);
        }
        if self.game_over {
            return false;
        }
        let ghost p = balls_in_the_hole@;
        let ghost reds0 = balls_red@;
        let ghost v0 = self@;
        let n = balls_red.len();
        let named = named_reds(n, balls_in_the_hole);
        let cue_pocketed = names_cue_ball(balls_in_the_hole);
        let mut rest: Vec<T> = Vec::new();
        std::mem::swap(&mut rest, balls_red);
        let mut i: usize = 0;
        while i < n
            invariant
                n == reds0.len(),
                named@.len() == n,
                forall|k: int| 0 <= k < n ==> #[trigger] named@[k] == red_named(p, k as usize),
                !v0.game_over,
                shooter_points(v0) + named_count(n as nat, p) <= u32::MAX,
                0 <= i <= n,
                rest@ == reds0.skip(i as int),
                balls_red@ == remove_named(reds0.take(i as int), p),
                self@ == scored(v0, named_count(i as nat, p)),
            decreases n - i,
        {
            proof {
                lemma_named_count_monotone(p, (i + 1) as nat, n as nat);
                let t = reds0.take(i + 1);
                assert(t.drop_last() =~= reds0.take(i as int));
                assert(t.last() == reds0[i as int]);
                assert(reds0.skip(i as int)[0] == reds0[i as int]);
                assert(reds0.skip(i as int).remove(0) =~= reds0.skip(i + 1));
                use_type_invariant(&*self);
            }
            let ball = rest.remove(0);
            if named[i] {
                self.player_scores = true;
                self.score();
            } else {
                balls_red.push(ball);
            }
            i = i + 1;
        }
        assert(reds0.take(n as int) =~= reds0);
        proof {
            use_type_invariant(&*self);
        }
        if balls_red.len() == 0 {
            self.game_over = true;
        }
        cue_pocketed
    }
}

/// Marks, for each of the first `len` red balls, whether the pocket list names it.
fn named_reds(len: usize, pocketed: &Vec<usize>) -> (named: Vec<bool>)
    ensures
        named@.len() == len,
        forall|k: int| 0 <= k < len ==> #[trigger] named@[k] == red_named(pocketed@, k as usize),
{
    let ghost p = pocketed@;
    let mut named: Vec<bool> = Vec::new();
    let mut i: usize = 0;
    while i < len
        invariant
            0 <= i <= len,
            named@.len() == i,
            forall|k: int| 0 <= k < i ==> !#[trigger] named@[k],
        decreases len - i,
    {
        named.push(false);
        i = i + 1;
    }
    let mut j: usize = 0;
    while j < pocketed.len()
        invariant
            p == pocketed@,
            0 <= j <= p.len(),
            named@.len() == len,
            forall|k: int|
                0 <= k < len ==> #[trigger] named@[k] == (k != WHITE_BALL && p.take(j as int).contains(k as usize)),
        decreases p.len() - j,
    {
        let e = pocketed[j];
        proof {
            lemma_take_one_more(p, j as int);
        }
        if e != WHITE_BALL && e < len {
            named.set(e, true);
        }
        j = j + 1;
    }
    assert(p.take(p.len() as int) =~= p);
    named
}

/// Whether the pocket list names the cue ball.
fn names_cue_ball(pocketed: &Vec<usize>) -> (b: bool)
    ensures
        b == pocketed@.contains(WHITE_BALL),
{
    let ghost p = pocketed@;
    let mut found = false;
    let mut j: usize = 0;
    while j < pocketed.len()
        invariant
            p == pocketed@,
            0 <= j <= p.len(),
            found == p.take(j as int).contains(WHITE_BALL),
        decreases p.len() - j,
    {
        proof {
            lemma_take_one_more(p, j as int);
        }
        if pocketed[j] == WHITE_BALL {
            found = true;
        }
        j = j + 1;
    }
    assert(p.take(p.len() as int) =~= p);
    found
}

proof fn lemma_take_one_more(p: Seq<usize>, j: int)
    requires
        0 <= j < p.len(),
    ensures
        forall|x: usize| #[trigger] p.take(j + 1).contains(x) == (p.take(j).contains(x) || p[j] == x),
{
    let pre = p.take(j);
    let post = p.take(j + 1);
    assert forall|x: usize| #[trigger] post.contains(x) == (pre.contains(x) || p[j] == x) by {
        if post.contains(x) && p[j] != x {
            let i = choose|i: int| 0 <= i < post.len() && post[i] == x;
            assert(pre[i] == x);
        }
        if p[j] == x {
            assert(post[j] == x);
        }
        if pre.contains(x) {
            let i = choose|i: int| 0 <= i < pre.len() && pre[i] == x;
            assert(post[i] == x);
        }
    }
}

proof fn lemma_named_count_monotone(p: Seq<usize>, i: nat, n: nat)
    requires
        i <= n,
    ensures
        named_count(i, p) <= named_count(n, p),
    decreases n,
{
    if i < n {
        lemma_named_count_monotone(p, i, (n - 1) as nat);
    }
}

/// The hit table of the red balls as plain sequences.
pub open spec fn hits_view(red_hits: Seq<Vec<bool>>) -> Seq<Seq<bool>> {
    red_hits.map_values(|h: Vec<bool>| h@)
}

/// Appends `index` to `list` once per `true` in `hits`.
fn push_marks(list: &mut Vec<usize>, hits: &Vec<bool>, index: usize)
    ensures
        final(list)@ == old(list)@ + marks(hits@, index),
{
    let mut j: usize = 0;
    while j < hits.len()
        invariant
            0 <= j <= hits@.len(),
            list@ == old(list)@ + marks(hits@.take(j as int), index),
        decreases hits@.len() - j,
    {
        proof {
            assert(hits@.take(j + 1).drop_last() =~= hits@.take(j as int));
            assert(hits@.take(j + 1).last() == hits@[j as int]);
        }
        if hits[j] {
            list.push(index);
        }
        assert(list@ =~= old(list)@ + marks(hits@.take(j + 1), index));
        j = j + 1;
    }
    assert(hits@.take(hits@.len() as int) =~= hits@);
}

/// The pocket list of a frame, from which pockets each ball is in:
/// `white_hits[j]` tells whether the cue ball is in pocket `j`, `red_hits[i][j]`
/// whether red ball `i` is. The cue ball comes first, once per pocket it is in,
/// then each red ball in order, once per pocket it is in. The flag tells whether
/// any ball is in a pocket.
pub fn pocketed_balls(white_hits: &Vec<bool>, red_hits: &Vec<Vec<bool>>) -> (res: (Vec<usize>, bool))
    ensures
        res.0@ == pocket_list(white_hits@, hits_view(red_hits@)),
        res.1 == (res.0@.len() > 0),
{
    let mut balls_in_the_hole: Vec<usize> = Vec::new();
    push_marks(&mut balls_in_the_hole, white_hits, WHITE_BALL);
    let ghost white = balls_in_the_hole@;
    let ghost hv = hits_view(red_hits@);
    let mut i: usize = 0;
    while i < red_hits.len()
        invariant
            hv == hits_view(red_hits@),
            0 <= i <= red_hits@.len(),
            white == marks(white_hits@, WHITE_BALL),
            balls_in_the_hole@ == white + red_marks(hv.take(i as int)),
        decreases red_hits@.len() - i,
    {
        let ghost before = balls_in_the_hole@;
        push_marks(&mut balls_in_the_hole, &red_hits[i], i);
        proof {
            let t = hv.take(i + 1);
            assert(t.drop_last() =~= hv.take(i as int));
            assert(t.last() == red_hits@[i as int]@);
            assert(balls_in_the_hole@ =~= white + red_marks(t));
        }
        i = i + 1;
    }
    assert(hv.take(hv.len() as int) =~= hv);
    let ball_in_detected = balls_in_the_hole.len() > 0;
    (balls_in_the_hole, ball_in_detected)
}

/// What the rules see of one frame: whether the cue ball is at rest at its
/// start, whether the shot button was pressed, how many red balls were pocketed,
/// and how many red balls are left on the table once they are settled.
pub struct Frame {
    pub at_rest: bool,
    pub pressed: bool,
    pub potted: nat,
    pub remaining: nat,
}

/// One frame of the rules: the cue ball, then the pockets, then the turn.
pub open spec fn frame_step(v: GameView, f: Frame) -> GameView {
    turn_step(pocket_step(cue_step(v, f.at_rest, f.pressed), f.potted, f.remaining))
}

/// A run of frames, one after the other.
pub open spec fn run(v: GameView, frames: Seq<Frame>) -> GameView
    decreases frames.len(),
{
    if frames.len() == 0 {
        v
    } else {
        frame_step(run(v, frames.drop_last()), frames.last())
    }
}

/// Some frame after the first and before frame `k` pockets a red ball.
pub open spec fn pots_a_red(frames: Seq<Frame>, k: int) -> bool {
    exists|i: int| 1 <= i < k && (#[trigger] frames[i]).potted > 0
}

/// The indices of a table of `len` red balls, in order.
pub open spec fn indices(len: nat) -> Seq<usize> {
    Seq::new(len, |i: int| i as usize)
}

/// Taking off the red balls a pocket list names leaves as many balls fewer as
/// it names red balls of the table.
pub proof fn lemma_remove_named_len<T>(reds: Seq<T>, p: Seq<usize>)
    ensures
        remove_named(reds, p).len() + named_count(reds.len(), p) == reds.len(),
    decreases reds.len(),
{
    if reds.len() > 0 {
        lemma_remove_named_len(reds.drop_last(), p);
    }
}

/// Exactly the red balls the pocket list names leave the table: applied to the
/// indices of the table, what is left holds an index if and only if the list
/// does not name it, and the indices left stay in increasing order.
pub proof fn lemma_exactly_named_reds_leave(len: nat, p: Seq<usize>)
    requires
        len <= usize::MAX + 1,
    ensures
        forall|i: usize|
            i < len ==> (#[trigger] remove_named(indices(len), p).contains(i) <==> !(i != WHITE_BALL && p.contains(i))),
        forall|a: int, b: int|
            0 <= a < b < remove_named(indices(len), p).len() ==> remove_named(indices(len), p)[a]
                < remove_named(indices(len), p)[b],
        forall|a: int| 0 <= a < remove_named(indices(len), p).len() ==> #[trigger] remove_named(indices(len), p)[a] < len,
    decreases len,
{
    if len > 0 {
        let m = (len - 1) as nat;
        lemma_exactly_named_reds_leave(m, p);
        assert(indices(len).drop_last() =~= indices(m));
        assert(indices(len).last() == m as usize);
        let r = remove_named(indices(m), p);
        let s = remove_named(indices(len), p);
        assert forall|i: usize| i < len implies (#[trigger] s.contains(i) <==> !red_named(p, i)) by {
            if i < m {
                if s.contains(i) && !r.contains(i) {
                    let k = choose|k: int| 0 <= k < s.len() && s[k] == i;
                    assert(k == r.len());
                }
                if r.contains(i) {
                    let k = choose|k: int| 0 <= k < r.len() && r[k] == i;
                    assert(s[k] == i);
                }
            } else {
                if red_named(p, i) && s.contains(i) {
                    let k = choose|k: int| 0 <= k < s.len() && s[k] == i;
                    assert(r[k] < m);
                }
                if !red_named(p, i) {
                    assert(s[r.len() as int] == i);
                }
            }
        }
    }
}

/// Every red ball is either on the table or counted in a player's points: settling
/// a frame's pockets keeps the sum of both players' points and the red balls
/// left unchanged, and the game is over exactly when no red ball is left.
pub proof fn lemma_pocketing_conserves_balls<T>(v: GameView, reds: Seq<T>, p: Seq<usize>)
    requires
        !v.game_over,
    ensures
        ({
            let left = remove_named(reds, p);
            let w = pocket_step(v, named_count(reds.len(), p), left.len());
            &&& w.points_1 + w.points_2 + left.len() == v.points_1 + v.points_2 + reds.len()
            &&& w.game_over == (left.len() == 0)
            &&& w.turn == v.turn
        }),
{
    lemma_remove_named_len(reds, p);
}

/// Only the player at the table scores, a point for each red ball pocketed.
pub proof fn lemma_only_shooter_scores(v: GameView, n: nat, remaining: nat)
    requires
        !v.game_over,
        v.turn == 1 || v.turn == 2,
    ensures
        shooter_points(pocket_step(v, n, remaining)) == shooter_points(v) + n,
        v.turn == 1 ==> pocket_step(v, n, remaining).points_1 == v.points_1 + n,
        v.turn == 2 ==> pocket_step(v, n, remaining).points_2 == v.points_2 + n,
        pocket_step(v, n, remaining).points_1 + pocket_step(v, n, remaining).points_2 == v.points_1 + v.points_2 + n,
        v.turn == 1 ==> pocket_step(v, n, remaining).points_2 == v.points_2,
        v.turn == 2 ==> pocket_step(v, n, remaining).points_1 == v.points_1,
{
}

/// A player who pockets a red ball keeps the table.
pub proof fn lemma_scorer_keeps_turn(v: GameView, n: nat, remaining: nat)
    requires
        !v.game_over,
        n > 0,
    ensures
        turn_step(pocket_step(v, n, remaining)).turn == v.turn,
{
}

/// Once the game is over it stays over and nobody scores any more.
pub proof fn lemma_game_over_is_final(v: GameView, f: Frame)
    requires
        v.game_over,
    ensures
        frame_step(v, f).game_over,
        frame_step(v, f).points_1 == v.points_1,
        frame_step(v, f).points_2 == v.points_2,
{
}

/// The turn passes at most once per shot: settling the turn twice is settling it once.
pub proof fn lemma_turn_passes_once(v: GameView)
    ensures
        turn_step(turn_step(v)) == turn_step(v),
{
}

/// A shot and its aftermath: the frame in which the cue ball is struck (the turn
/// having been settled), the frames in which it rolls, and the frame in which it
/// comes to rest. While the balls roll the turn stays with the shooter. In the
/// frame the cue ball comes to rest, the turn stays with the shooter if a red
/// ball was pocketed after the strike, and passes to the other player otherwise,
/// whether or not the button is pressed in that frame; a strike in that frame is
/// the next shot, of the player now at the table. (Red balls are left on the
/// table throughout, so the game goes on.)
pub proof fn lemma_shot_decides_turn(v: GameView, frames: Seq<Frame>)
    requires
        v.turn == 1 || v.turn == 2,
        v.player_scores,
        !v.game_over,
        frames.len() >= 2,
        frames[0].at_rest && frames[0].pressed,
        forall|i: int| 0 < i < frames.len() - 1 ==> !(#[trigger] frames[i]).at_rest,
        frames.last().at_rest,
        forall|i: int| 0 <= i < frames.len() ==> (#[trigger] frames[i]).remaining > 0,
    ensures
        forall|k: int| 1 <= k < frames.len() ==> #[trigger] run(v, frames.take(k)).turn == v.turn,
        run(v, frames).turn == if pots_a_red(frames, frames.len() as int) {
            v.turn
        } else {
            (3 - v.turn) as nat
        },
        frames.last().pressed ==> !run(v, frames).player_scores && !run(v, frames).cue_ready,
{
    assert forall|k: int| 1 <= k < frames.len() implies #[trigger] run(v, frames.take(k)).turn == v.turn by {
        lemma_shot_rolling(v, frames, k);
    }
    let n = frames.len() as int;
    assert(frames.take(n) =~= frames);
    assert(frames.take(n).drop_last() =~= frames.take(n - 1));
    lemma_shot_rolling(v, frames, n - 1);
    lemma_pots_a_red_step(frames, n);
}

proof fn lemma_pots_a_red_step(frames: Seq<Frame>, k: int)
    requires
        1 <= k <= frames.len(),
    ensures
        k >= 2 ==> (pots_a_red(frames, k) == (pots_a_red(frames, k - 1) || frames[k - 1].potted > 0)),
        !pots_a_red(frames, 1),
{
    if k >= 2 {
        if frames[k - 1].potted > 0 {
            assert(pots_a_red(frames, k));
        }
        if pots_a_red(frames, k - 1) {
            let i = choose|i: int| 1 <= i < k - 1 && (#[trigger] frames[i]).potted > 0;
            assert(pots_a_red(frames, k));
        }
        if pots_a_red(frames, k) && frames[k - 1].potted == 0 {
            let i = choose|i: int| 1 <= i < k && (#[trigger] frames[i]).potted > 0;
            assert(pots_a_red(frames, k - 1));
        }
    }
}

proof fn lemma_shot_rolling(v: GameView, frames: Seq<Frame>, k: int)
    requires
        v.turn == 1 || v.turn == 2,
        v.player_scores,
        !v.game_over,
        frames.len() >= 2,
        frames[0].at_rest && frames[0].pressed,
        forall|i: int| 0 < i < frames.len() - 1 ==> !(#[trigger] frames[i]).at_rest,
        forall|i: int| 0 <= i < frames.len() ==> (#[trigger] frames[i]).remaining > 0,
        1 <= k < frames.len(),
    ensures
        ({
            let w = run(v, frames.take(k));
            &&& w.turn == v.turn
            &&& !w.cue_ready
            &&& !w.struck
            &&& !w.game_over
            &&& w.player_scores == pots_a_red(frames, k)
        }),
    decreases k,
{
    let t = frames.take(k);
    assert(t.drop_last() =~= frames.take(k - 1));
    assert(t.last() == frames[k - 1]);
    lemma_pots_a_red_step(frames, k);
    if k == 1 {
        assert(frames.take(0) =~= Seq::<Frame>::empty());
        assert(run(v, frames.take(0)) == v);
    } else {
        lemma_shot_rolling(v, frames, k - 1);
        assert(!frames[k - 1].at_rest);
    }
}

proof fn lemma_marks_entries(hits: Seq<bool>, index: usize)
    ensures
        forall|i: int| 0 <= i < marks(hits, index).len() ==> #[trigger] marks(hits, index)[i] == index,
        marks(hits, index).len() <= hits.len(),
    decreases hits.len(),
{
    if hits.len() > 0 {
        lemma_marks_entries(hits.drop_last(), index);
    }
}

proof fn lemma_red_marks_entries(hits: Seq<Seq<bool>>)
    requires
        hits.len() <= usize::MAX,
    ensures
        forall|i: int| 0 <= i < red_marks(hits).len() ==> #[trigger] red_marks(hits)[i] < hits.len(),
        forall|i: int, j: int| 0 <= i <= j < red_marks(hits).len() ==> red_marks(hits)[i] <= red_marks(hits)[j],
    decreases hits.len(),
{
    if hits.len() > 0 {
        let rest = hits.drop_last();
        lemma_red_marks_entries(rest);
        lemma_marks_entries(hits.last(), (hits.len() - 1) as usize);
        let a = red_marks(rest);
        let b = marks(hits.last(), (hits.len() - 1) as usize);
        assert forall|i: int| 0 <= i < red_marks(hits).len() implies #[trigger] red_marks(hits)[i] < hits.len() by {
            if i >= a.len() {
                assert(b[i - a.len()] == hits.len() - 1);
            }
        }
        assert forall|i: int, j: int| 0 <= i <= j < red_marks(hits).len() implies red_marks(hits)[i]
            <= red_marks(hits)[j] by {
            if j >= a.len() {
                assert(b[j - a.len()] == hits.len() - 1);
                if i >= a.len() {
                    assert(b[i - a.len()] == hits.len() - 1);
                } else {
                    assert(a[i] < rest.len());
                }
            }
        }
    }
}

/// A pocket list names the cue ball first, as often as it is in a pocket, and then
/// only red balls of the frame, in increasing order of their index.
pub proof fn lemma_pocket_list_entries(white_hits: Seq<bool>, red_hits: Seq<Seq<bool>>)
    requires
        red_hits.len() <= usize::MAX,
    ensures
        ({
            let list = pocket_list(white_hits, red_hits);
            let w = marks(white_hits, WHITE_BALL).len();
            &&& forall|i: int| 0 <= i < w ==> #[trigger] list[i] == WHITE_BALL
            &&& forall|i: int| w <= i < list.len() ==> #[trigger] list[i] < red_hits.len()
            &&& forall|i: int, j: int| w <= i <= j < list.len() ==> list[i] <= list[j]
        }),
{
    lemma_marks_entries(white_hits, WHITE_BALL);
    lemma_red_marks_entries(red_hits);
    let a = marks(white_hits, WHITE_BALL);
    let b = red_marks(red_hits);
    let list = pocket_list(white_hits, red_hits);
    assert forall|i: int| a.len() <= i < list.len() implies #[trigger] list[i] < red_hits.len() by {
        assert(list[i] == b[i - a.len()]);
    }
    assert forall|i: int, j: int| a.len() <= i <= j < list.len() implies list[i] <= list[j] by {
        assert(list[i] == b[i - a.len()]);
        assert(list[j] == b[j - a.len()]);
    }
}

proof fn lemma_named_count_at_most(len: nat, p: Seq<usize>)
    ensures
        named_count(len, p) <= len,
    decreases len,
{
    if len > 0 {
        lemma_named_count_at_most((len - 1) as nat, p);
    }
}

/// Which pocket lists can be settled: when the game is over, any; otherwise a
/// list whose every entry is the cue ball or the index of a red ball on a table
/// of `len` (0 included) can, as long as the shooter's points leave room for
/// `len` more; a list with a red entry off the table cannot.
pub proof fn lemma_settle_defined_exactly(v: GameView, len: nat, p: Seq<usize>)
    ensures
        v.game_over ==> settle_defined(v, len, p),
        !v.game_over && (forall|j: int| 0 <= j < p.len() ==> #[trigger] p[j] == WHITE_BALL || p[j] < len) && (
        if v.turn == 1 {
            v.points_1
        } else {
            v.points_2
        }) + len <= u32::MAX ==> settle_defined(v, len, p),
        !v.game_over && (exists|j: int| 0 <= j < p.len() && #[trigger] p[j] != WHITE_BALL && p[j] >= len)
            ==> !settle_defined(v, len, p),
{
    lemma_named_count_at_most(len, p);
    if !v.game_over && (exists|j: int| 0 <= j < p.len() && #[trigger] p[j] != WHITE_BALL && p[j] >= len) {
        let j = choose|j: int| 0 <= j < p.len() && #[trigger] p[j] != WHITE_BALL && p[j] >= len;
        assert(!removals_defined(len, p));
    }
}

/// Scoring adds exactly one point, to the player whose turn it is, and leaves
/// the other player's points and the turn alone.
pub proof fn lemma_score_adds_one_for_shooter(v: GameView)
    requires
        v.turn == 1 || v.turn == 2,
    ensures
        v.turn == 1 ==> score_step(v).points_1 == v.points_1 + 1 && score_step(v).points_2 == v.points_2,
        v.turn == 2 ==> score_step(v).points_2 == v.points_2 + 1 && score_step(v).points_1 == v.points_1,
        score_step(v).turn == v.turn,
        score_step(v).player_scores,
        score_step(v).game_over == v.game_over,
{
}

/// The cue ball is struck exactly when it is at rest and the button is pressed,
/// stopped when it is at rest without a press, and left rolling otherwise.
pub proof fn lemma_cue_action_cases(at_rest: bool, pressed: bool)
    ensures
        (cue_action(at_rest, pressed) == CueAction::Strike) == (at_rest && pressed),
        (cue_action(at_rest, pressed) == CueAction::Stop) == (at_rest && !pressed),
        (cue_action(at_rest, pressed) == CueAction::Roll) == !at_rest,
{
}

proof fn lemma_marks_count(hits: Seq<bool>, index: usize)
    ensures
        marks(hits, index).len() == hits.filter(|b: bool| b).len(),
        marks(hits, index).contains(index) <==> (exists|j: int| 0 <= j < hits.len() && #[trigger] hits[j]),
        forall|x: usize| #[trigger] marks(hits, index).contains(x) ==> x == index,
    decreases hits.len(),
{
    reveal_with_fuel(Seq::filter, 1);
    if hits.len() > 0 {
        let rest = hits.drop_last();
        lemma_marks_count(rest, index);
        let a = marks(rest, index);
        let m = marks(hits, index);
        lemma_marks_entries(hits, index);
        if exists|j: int| 0 <= j < hits.len() && #[trigger] hits[j] {
            let j = choose|j: int| 0 <= j < hits.len() && #[trigger] hits[j];
            if j < rest.len() {
                assert(rest[j]);
                let k = choose|k: int| 0 <= k < a.len() && a[k] == index;
                assert(m[k] == index);
            } else {
                assert(hits.last());
                assert(m[a.len() as int] == index);
            }
        }
        if m.contains(index) {
            let k = choose|k: int| 0 <= k < m.len() && m[k] == index;
            if k < a.len() {
                assert(a[k] == index);
                let j = choose|j: int| 0 <= j < rest.len() && #[trigger] rest[j];
                assert(hits[j]);
            } else {
                assert(hits[hits.len() - 1]);
            }
        }
    }
}

proof fn lemma_red_marks_contains(hits: Seq<Seq<bool>>)
    requires
        hits.len() <= usize::MAX,
    ensures
        forall|i: usize|
            i < hits.len() && (exists|j: int| 0 <= j < hits[i as int].len() && #[trigger] hits[i as int][j])
                ==> #[trigger] red_marks(hits).contains(i),
        forall|x: usize|
            #[trigger] red_marks(hits).contains(x) ==> x < hits.len() && (exists|j: int|
                0 <= j < hits[x as int].len() && #[trigger] hits[x as int][j]),
    decreases hits.len(),
{
    if hits.len() > 0 {
        let rest = hits.drop_last();
        let last = (hits.len() - 1) as usize;
        lemma_red_marks_contains(rest);
        lemma_marks_count(hits.last(), last);
        let a = red_marks(rest);
        let b = marks(hits.last(), last);
        let m = red_marks(hits);
        assert(m == a + b);
        assert forall|i: usize|
            i < hits.len() && (exists|j: int| 0 <= j < hits[i as int].len() && #[trigger] hits[i as int][j])
                implies #[trigger] m.contains(i) by {
            let j = choose|j: int| 0 <= j < hits[i as int].len() && #[trigger] hits[i as int][j];
            if i < rest.len() {
                assert(rest[i as int] == hits[i as int]);
                assert(rest[i as int][j]);
                assert(exists|j2: int| 0 <= j2 < rest[i as int].len() && #[trigger] rest[i as int][j2]);
                assert(a.contains(i));
                let k = choose|k: int| 0 <= k < a.len() && a[k] == i;
                assert(m[k] == i);
            } else {
                assert(hits.last()[j]);
                let k = choose|k: int| 0 <= k < b.len() && b[k] == i;
                assert(m[a.len() + k] == i);
            }
        }
        assert forall|x: usize| #[trigger] m.contains(x) implies x < hits.len() && (exists|j: int|
            0 <= j < hits[x as int].len() && #[trigger] hits[x as int][j]) by {
            let k = choose|k: int| 0 <= k < m.len() && m[k] == x;
            if k < a.len() {
                assert(a.contains(x));
                let j = choose|j: int| 0 <= j < rest[x as int].len() && #[trigger] rest[x as int][j];
                assert(hits[x as int][j]);
            } else {
                assert(b[k - a.len()] == x);
                assert(b.contains(x));
                let j = choose|j: int| 0 <= j < hits.last().len() && #[trigger] hits.last()[j];
                assert(hits[x as int][j]);
            }
        }
    }
}

/// The pocket list names exactly the balls that are in a pocket: the cue ball
/// when it is in any pocket, each red ball in any pocket (whichever pocket), and
/// no other; the cue ball once per pocket it is in; and the list is empty
/// exactly when no ball is in a pocket.
pub proof fn lemma_pocket_list_names_pocketed_balls(white_hits: Seq<bool>, red_hits: Seq<Seq<bool>>)
    requires
        red_hits.len() <= usize::MAX,
    ensures
        ({
            let list = pocket_list(white_hits, red_hits);
            &&& (exists|j: int| 0 <= j < white_hits.len() && #[trigger] white_hits[j]) ==> list.contains(
                WHITE_BALL,
            )
            &&& forall|i: usize|
                i < red_hits.len() && (exists|j: int|
                    0 <= j < red_hits[i as int].len() && #[trigger] red_hits[i as int][j]) ==> #[trigger] list.contains(i)
            &&& forall|x: usize| #[trigger]
                list.contains(x) ==> (x == WHITE_BALL && exists|j: int|
                    0 <= j < white_hits.len() && #[trigger] white_hits[j]) || (x < red_hits.len() && exists|j: int|
                    0 <= j < red_hits[x as int].len() && #[trigger] red_hits[x as int][j])
            &&& forall|i: int|
                0 <= i < white_hits.filter(|b: bool| b).len() ==> #[trigger] list[i] == WHITE_BALL
            &&& (list.len() > 0) == ((exists|j: int| 0 <= j < white_hits.len() && #[trigger] white_hits[j]) || (
            exists|i: int, j: int|
                0 <= i < red_hits.len() && 0 <= j < red_hits[i].len() && #[trigger] red_hits[i][j]))
        }),
{
    let a = marks(white_hits, WHITE_BALL);
    let b = red_marks(red_hits);
    let list = pocket_list(white_hits, red_hits);
    lemma_marks_count(white_hits, WHITE_BALL);
    lemma_red_marks_contains(red_hits);
    lemma_pocket_list_entries(white_hits, red_hits);
    if a.contains(WHITE_BALL) {
        let k = choose|k: int| 0 <= k < a.len() && a[k] == WHITE_BALL;
        assert(list[k] == WHITE_BALL);
    }
    assert forall|i: usize|
        i < red_hits.len() && (exists|j: int| 0 <= j < red_hits[i as int].len() && #[trigger] red_hits[i as int][j])
            implies #[trigger] list.contains(i) by {
        assert(b.contains(i));
        let k = choose|k: int| 0 <= k < b.len() && b[k] == i;
        assert(list[a.len() + k] == i);
    }
    assert forall|x: usize| #[trigger] list.contains(x) implies (x == WHITE_BALL && exists|j: int|
        0 <= j < white_hits.len() && #[trigger] white_hits[j]) || (x < red_hits.len() && exists|j: int|
        0 <= j < red_hits[x as int].len() && #[trigger] red_hits[x as int][j]) by {
        let k = choose|k: int| 0 <= k < list.len() && list[k] == x;
        if k < a.len() {
            assert(a[k] == x);
            assert(a.contains(x));
        } else {
            assert(b[k - a.len()] == x);
            assert(b.contains(x));
        }
    }
    if exists|i: int, j: int| 0 <= i < red_hits.len() && 0 <= j < red_hits[i].len() && #[trigger] red_hits[i][j] {
        let (i, j) = choose|i: int, j: int| 0 <= i < red_hits.len() && 0 <= j < red_hits[i].len() && #[trigger] red_hits[i][j];
        assert(red_hits[(i as usize) as int][j]);
        assert(list.contains(i as usize));
    }
    if list.len() > 0 {
        assert(list.contains(list[0]));
        if list[0] != WHITE_BALL || !(exists|j: int| 0 <= j < white_hits.len() && #[trigger] white_hits[j]) {
            let x = list[0];
            if x < red_hits.len() {
                let j = choose|j: int| 0 <= j < red_hits[x as int].len() && #[trigger] red_hits[x as int][j];
                assert(red_hits[x as int][j]);
            }
        }
    }
}

} // verus!
