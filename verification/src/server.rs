use vstd::prelude::*;
use crate::tetris::{Game, fresh_game};
use crate::ai::{ChosenMove, can_play, played, play_chosen_move};

verus! {

/// The state of an AI battle: both games, their wins, and a description of
/// the evaluator.
#[derive(Debug, Clone)]
pub struct BattleState {
    pub p1: Game,
    pub p1_wins: u32,
    pub p2: Game,
    pub p2_wins: u32,
    pub gpu_info: String,
}

/// The ticks a battle pauses between rounds.
pub const ROUND_PAUSE_TICKS: u32 = 6;

/// What one move of a player does to the battle: with a move, the player's
/// game plays it and the lines it sends join the opponent's pending garbage;
/// without one, the player's game is over. Nothing else changes.
pub open spec fn move_outcome(pre: BattleState, first: bool, chosen: Option<ChosenMove>, post: BattleState) -> bool {
    let (me, other) = if first {
        (pre.p1, pre.p2)
    } else {
        (pre.p2, pre.p1)
    };
    let (me2, other2) = if first {
        (post.p1, post.p2)
    } else {
        (post.p2, post.p1)
    };
    &&& post.p1_wins == pre.p1_wins
    &&& post.p2_wins == pre.p2_wins
    &&& post.gpu_info == pre.gpu_info
    &&& match chosen {
        None => me2 == Game { game_over: true, ..me } && other2 == other,
        Some(m) => played(me, m, me2) && other2 == Game {
            pending_garbage: (other.pending_garbage + me2.last_firepower) as u32,
            ..other
        },
    }
}

/// The counters of both games leave room for `me` to play `m`: `me` can
/// lock it whatever piece a hold brings, and `other` can take the lines it sends.
pub open spec fn move_fits(me: Game, other: Game, m: ChosenMove) -> bool {
    &&& can_play(me, m)
    &&& forall|me2: Game| #[trigger] played(me, m, me2) ==> other.pending_garbage + me2.last_firepower <= u32::MAX
}

impl BattleState {
    /// Plays the move the AI chose for one player (the first when `first`):
    /// see `move_outcome`.
    pub fn play_move(&mut self, first: bool, chosen: Option<ChosenMove>)
        requires
            chosen matches Some(m) ==> if first {
                move_fits(old(self).p1, old(self).p2, m)
            } else {
                move_fits(old(self).p2, old(self).p1, m)
            },
        ensures
            move_outcome(*old(self), first, chosen, *final(self)),
    {
        match chosen {
            None => {
                if first {
                    self.p1.game_over = true;
                } else {
                    self.p2.game_over = true;
                }
            },
            Some(m) => {
                if first {
                    play_chosen_move(&mut self.p1, m);
                    let damage = self.p1.last_firepower;
                    if damage > 0 {
                        self.p2.pending_garbage += damage;
                    }
                } else {
                    play_chosen_move(&mut self.p2, m);
                    let damage = self.p2.last_firepower;
                    if damage > 0 {
                        self.p1.pending_garbage += damage;
                    }
                }
            },
        }
    }

    /// Ends a round of moves: when exactly one game is over, the other player
    /// scores a win; when any game is over, the pause before the restart
    /// begins (the ticks it lasts come back), else no pause (0).
    pub fn finish_round(&mut self) -> (pause: u32)
        requires
            old(self).p1_wins < u32::MAX,
            old(self).p2_wins < u32::MAX,
        ensures
            final(self).p1 == old(self).p1,
            final(self).p2 == old(self).p2,
            final(self).gpu_info == old(self).gpu_info,
            final(self).p1_wins == old(self).p1_wins + if old(self).p2.game_over && !old(self).p1.game_over {
                1int
            } else {
                0int
            },
            final(self).p2_wins == old(self).p2_wins + if old(self).p1.game_over && !old(self).p2.game_over {
                1int
            } else {
                0int
            },
            pause == if old(self).p1.game_over || old(self).p2.game_over {
                ROUND_PAUSE_TICKS
            } else {
                0
            },
    {
        if self.p1.game_over || self.p2.game_over {
            if self.p1.game_over && !self.p2.game_over {
                self.p2_wins += 1;
            } else if self.p2.game_over && !self.p1.game_over {
                self.p1_wins += 1;
            }
            ROUND_PAUSE_TICKS
        } else {
            0
        }
    }

    /// One tick of the pause between rounds: the ticks left come back, and
    /// when none are left both games start anew.
    pub fn pause_tick(&mut self, pause: u32) -> (left: u32)
        requires
            pause > 0,
        ensures
            left == pause - 1,
            left > 0 ==> *final(self) == *old(self),
            left == 0 ==> final(self).p1_wins == old(self).p1_wins && final(self).p2_wins == old(self).p2_wins
                && final(self).gpu_info == old(self).gpu_info && fresh_game(final(self).p1) && fresh_game(final(self).p2),
    {
        let left = pause - 1;
        if left == 0 {
            self.p1 = Game::new();
            self.p2 = Game::new();
        }
        left
    }
}

} // verus!
