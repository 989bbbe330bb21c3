//! The full-state-space explorer: a frontier/visited-set walk over the
//! states reachable from an initial `GameState`, recording each visited
//! state's successor states and tallying decided super-boards.

use vstd::prelude::*;

use crate::board::{Player, is_superboard_won, superboard_winner};
use crate::game::{
    GameState, Move, apply_move_spec, legal_moves, lemma_legal_moves_ok, successors,
};
use crate::solver::{O_TOKEN, X_TOKEN};

verus! {

/// The states one move away from a state, in the order of its legal moves.
pub open spec fn successor_states(s: GameState) -> Seq<GameState> {
    legal_moves(s).map_values(|m: Move| apply_move_spec(s, m))
}

/// How many of the states have a decided super-board won by `p`.
pub open spec fn count_won_by(s: Seq<GameState>, p: Player) -> nat
    decreases s.len(),
{
    if s.len() == 0 {
        0
    } else {
        count_won_by(s.drop_last(), p) + if superboard_winner(s.last().superboard@) == Some(p) {
            1nat
        } else {
            0nat
        }
    }
}

/// How many of the states have a decided super-board.
pub open spec fn count_decided(s: Seq<GameState>) -> nat
    decreases s.len(),
{
    if s.len() == 0 {
        0
    } else {
        count_decided(s.drop_last()) + if superboard_winner(s.last().superboard@) is Some {
            1nat
        } else {
            0nat
        }
    }
}

/// No tally can exceed the number of states tallied.
proof fn lemma_counts_le_len(s: Seq<GameState>)
    ensures
        forall|p: Player| #[trigger] count_won_by(s, p) <= s.len(),
        count_decided(s) <= s.len(),
    decreases s.len(),
{
    if s.len() > 0 {
        lemma_counts_le_len(s.drop_last());
        assert forall|p: Player| #[trigger] count_won_by(s, p) <= s.len() by {
            assert(count_won_by(s.drop_last(), p) <= s.drop_last().len());
        }
    }
}

/// True exactly when the two states are equal in every field.
pub fn game_states_equal(a: &GameState, b: &GameState) -> (r: bool)
    ensures
        r == (*a == *b),
{
    if a.next_to_play != b.next_to_play || a.num_players != b.num_players {
        return false;
    }
    let sent_same = match (a.sent_to, b.sent_to) {
        (None, None) => true,
        (Some(i), Some(j)) => i == j,
        _ => false,
    };
    if !sent_same {
        return false;
    }
    let mut i: usize = 0;
    while i < 4
        invariant
            i <= 4,
            forall|j: int| 0 <= j < i ==> a.players@[j] == b.players@[j],
        decreases 4 - i,
    {
        if a.players[i] != b.players[i] {
            return false;
        }
        i += 1;
    }
    let mut j: usize = 0;
    while j < 9
        invariant
            j <= 9,
            forall|k: int| 0 <= k < j ==> a.superboard@[k] == b.superboard@[k],
        decreases 9 - j,
    {
        if !crate::board::boards_equal(&a.superboard[j], &b.superboard[j]) {
            return false;
        }
        proof {
            assert(a.superboard@[j as int] =~= b.superboard@[j as int]);
        }
        j += 1;
    }
    proof {
        assert(a.players =~= b.players);
        assert(a.superboard =~= b.superboard);
        assert(*a =~= *b);
    }
    true
}

/// True exactly when some element of the vector equals the state.
fn contains_state(v: &Vec<GameState>, s: &GameState) -> (r: bool)
    ensures
        r == v@.contains(*s),
{
    let mut i: usize = 0;
    while i < v.len()
        invariant
            i <= v@.len(),
            forall|j: int| 0 <= j < i ==> v@[j] != *s,
        decreases v@.len() - i,
    {
        if game_states_equal(&v[i], s) {
            proof {
                assert(v@[i as int] == *s);
            }
            return true;
        }
        i += 1;
    }
    proof {
        if v@.contains(*s) {
            let j = choose|j: int| 0 <= j < v@.len() && v@[j] == *s;
            assert(false);
        }
    }
    false
}

/// What a (possibly unfinished) exploration has gathered: the distinct
/// states visited, each one's successor states (parallel to `visited`), the
/// states still waiting on the frontier, and tallies of the visited states
/// whose super-board is decided.
pub struct Exploration {
    pub visited: Vec<GameState>,
    pub successor_lists: Vec<Vec<GameState>>,
    pub frontier: Vec<GameState>,
    pub x_wins: usize,
    pub o_wins: usize,
    pub decided: usize,
}

/// Explore the state graph from `init` for at most `max_steps` frontier
/// pops: each state popped that was not seen before is recorded together
/// with all its successor states, which join the frontier. Visited states
/// are recorded exactly once, however many move orders reach them, every
/// recorded state is genuinely reachable from `init`, and an empty frontier
/// on return means the recorded map is closed under successors.
pub fn explore(init: &GameState, max_steps: usize) -> (r: Exploration)
    requires
        init.wf(),
    ensures
        r.visited@.len() == r.successor_lists@.len(),
        forall|i: int| 0 <= i < r.visited@.len() ==> (#[trigger] r.visited@[i]).wf(),
        forall|i: int, j: int| 0 <= i < j < r.visited@.len() ==> r.visited@[i] != r.visited@[j],
        forall|i: int|
            0 <= i < r.visited@.len() ==> (#[trigger] r.successor_lists@[i])@ == successor_states(
                r.visited@[i],
            ),
        r.x_wins == count_won_by(r.visited@, X_TOKEN),
        r.o_wins == count_won_by(r.visited@, O_TOKEN),
        r.decided == count_decided(r.visited@),
        max_steps >= 1 ==> r.visited@.len() >= 1 && r.visited@[0] == *init,
        forall|j: int|
            #![trigger r.visited@[j]]
            1 <= j < r.visited@.len() ==> exists|i: int, k: int|
                0 <= i < j && 0 <= k < successor_states(r.visited@[i]).len() && r.visited@[j]
                    == #[trigger] successor_states(r.visited@[i])[k],
        r.visited@.len() <= max_steps,
        r.frontier@.len() == 0 ==> r.visited@.contains(*init) || max_steps == 0,
        r.frontier@.len() == 0 ==> forall|i: int, k: int|
            0 <= i < r.visited@.len() && 0 <= k < successor_states(r.visited@[i]).len()
                ==> r.visited@.contains(#[trigger] successor_states(r.visited@[i])[k]),
{
    let mut visited: Vec<GameState> = Vec::new();
    let mut successor_lists: Vec<Vec<GameState>> = Vec::new();
    let mut frontier: Vec<GameState> = Vec::new();
    let mut x_wins: usize = 0;
    let mut o_wins: usize = 0;
    let mut decided: usize = 0;
    frontier.push(*init);
    let mut steps: usize = 0;
    // ghost provenance: where each visited state and each frontier state came
    // from — the pair (-1, -1) marks the initial state
    let ghost mut vparent: Seq<(int, int)> = Seq::empty();
    let ghost mut fparent: Seq<(int, int)> = seq![(-1int, -1int)];
    while steps < max_steps && frontier.len() > 0
        invariant
            init.wf(),
            steps <= max_steps,
            visited@.len() <= steps,
            visited@.len() == successor_lists@.len(),
            forall|i: int| 0 <= i < visited@.len() ==> (#[trigger] visited@[i]).wf(),
            forall|i: int| 0 <= i < frontier@.len() ==> (#[trigger] frontier@[i]).wf(),
            forall|i: int, j: int| 0 <= i < j < visited@.len() ==> visited@[i] != visited@[j],
            forall|i: int|
                0 <= i < visited@.len() ==> (#[trigger] successor_lists@[i])@ == successor_states(
                    visited@[i],
                ),
            x_wins == count_won_by(visited@, X_TOKEN),
            o_wins == count_won_by(visited@, O_TOKEN),
            decided == count_decided(visited@),
            visited@.len() == 0 ==> frontier@ =~= seq![*init],
            steps == 0 ==> visited@.len() == 0 && frontier@ =~= seq![*init],
            steps >= 1 ==> visited@.len() >= 1,
            visited@.len() >= 1 ==> visited@[0] == *init,
            vparent.len() == visited@.len(),
            fparent.len() == frontier@.len(),
            forall|j: int|
                1 <= j < visited@.len() ==> 0 <= (#[trigger] vparent[j]).0 < j && 0 <= vparent[j].1
                    < successor_states(visited@[vparent[j].0]).len() && visited@[j]
                    == successor_states(visited@[vparent[j].0])[vparent[j].1],
            forall|f: int|
                0 <= f < frontier@.len() ==> ((#[trigger] fparent[f]) == (-1int, -1int)
                    && frontier@[f] == *init) || (0 <= fparent[f].0 < visited@.len() && 0
                    <= fparent[f].1 < successor_states(visited@[fparent[f].0]).len() && frontier@[f]
                    == successor_states(visited@[fparent[f].0])[fparent[f].1]),
            forall|i: int, k: int|
                0 <= i < visited@.len() && 0 <= k < successor_states(visited@[i]).len() ==> (
                visited@.contains(#[trigger] successor_states(visited@[i])[k])
                    || frontier@.contains(successor_states(visited@[i])[k])),
        decreases max_steps - steps,
    {
        let ghost old_frontier = frontier@;
        let ghost pf = fparent.last();
        let state = match frontier.pop() {
            Some(s) => s,
            None => {
                proof {
                    assert(false);
                }
                *init
            },
        };
        proof {
            fparent = fparent.drop_last();
        }
        if !contains_state(&visited, &state) {
            proof {
                lemma_counts_le_len(visited@);
                if pf == (-1int, -1int) {
                    // only the initial state carries the sentinel, and it can
                    // be unvisited only while nothing is visited at all
                    assert(state == *init);
                    if visited@.len() >= 1 {
                        assert(visited@[0] == state);
                        assert(visited@.contains(state));
                        assert(false);
                    }
                }
            }
            let ghost old_visited = visited@;
            visited.push(state);
            proof {
                vparent = vparent.push(pf);
                assert(visited@.drop_last() =~= old_visited);
                assert(visited@.last() == state);
                lemma_counts_le_len(visited@);
            }
            let won = is_superboard_won(&state.superboard);
            match won {
                Some(p) => {
                    decided = decided + 1;
                    if p == X_TOKEN {
                        x_wins = x_wins + 1;
                    } else if p == O_TOKEN {
                        o_wins = o_wins + 1;
                    }
                },
                None => {},
            }
            let moves = successors(&state);
            let mut children: Vec<GameState> = Vec::new();
            let mut k: usize = 0;
            while k < moves.len()
                invariant
                    k <= moves@.len(),
                    state.wf(),
                    moves@ == legal_moves(state),
                    children@.len() == k,
                    forall|j: int|
                        0 <= j < k ==> #[trigger] children@[j] == apply_move_spec(
                            state,
                            moves@[j],
                        ) && children@[j].wf(),
                decreases moves@.len() - k,
            {
                proof {
                    assert(legal_moves(state)[k as int] == moves@[k as int]);
                    assert(legal_moves(state).contains(moves@[k as int]));
                    lemma_legal_moves_ok(state, moves@[k as int]);
                }
                let child = state.apply_move(moves[k]);
                children.push(child);
                k += 1;
            }
            proof {
                assert(children@ =~= successor_states(state));
            }
            let ghost me = old_visited.len() as int;
            let mut c: usize = 0;
            while c < children.len()
                invariant
                    c <= children@.len(),
                    0 <= me,
                    me == visited@.len() - 1,
                    visited@[me] == state,
                    children@ == successor_states(state),
                    forall|j: int| 0 <= j < children@.len() ==> (#[trigger] children@[j]).wf(),
                    forall|i: int| 0 <= i < frontier@.len() ==> (#[trigger] frontier@[i]).wf(),
                    forall|j: int| 0 <= j < c ==> frontier@.contains(#[trigger] children@[j]),
                    forall|s2: GameState| old_frontier.drop_last().contains(s2)
                        ==> frontier@.contains(s2),
                    fparent.len() == frontier@.len(),
                    forall|f: int|
                        0 <= f < frontier@.len() ==> ((#[trigger] fparent[f]) == (-1int, -1int)
                            && frontier@[f] == *init) || (0 <= fparent[f].0 < visited@.len() && 0
                            <= fparent[f].1 < successor_states(visited@[fparent[f].0]).len()
                            && frontier@[f] == successor_states(visited@[fparent[f].0])[fparent[f].1]),
                decreases children@.len() - c,
            {
                let ghost before = frontier@;
                let ghost fp_before = fparent;
                frontier.push(children[c]);
                proof {
                    fparent = fparent.push((me, c as int));
                    assert(fparent[frontier@.len() - 1] == (me, c as int));
                    assert(frontier@[frontier@.len() - 1] == children@[c as int]);
                    assert(children@[c as int] == successor_states(visited@[me])[c as int]);
                    assert forall|f: int|
                        0 <= f < frontier@.len() - 1 implies #[trigger] fparent[f] == fp_before[f]
                        && frontier@[f] == before[f] by {}
                    assert forall|s2: GameState| before.contains(s2) implies frontier@.contains(
                        s2,
                    ) by {
                        let j = choose|j: int| 0 <= j < before.len() && before[j] == s2;
                        assert(frontier@[j] == s2);
                    }
                    assert(frontier@[frontier@.len() - 1] == children@[c as int]);
                    assert forall|j: int| 0 <= j < c + 1 implies frontier@.contains(
                        #[trigger] children@[j],
                    ) by {
                        if j < c {
                            assert(before.contains(children@[j]));
                        }
                    }
                }
                c += 1;
            }
            successor_lists.push(children);
            proof {
                assert forall|i: int, k2: int|
                    0 <= i < visited@.len() && 0 <= k2 < successor_states(visited@[i]).len()
                    implies (visited@.contains(#[trigger] successor_states(visited@[i])[k2])
                    || frontier@.contains(successor_states(visited@[i])[k2])) by {
                    let su = successor_states(visited@[i])[k2];
                    if i == visited@.len() - 1 {
                        assert(children@.contains(su));
                        assert(frontier@.contains(su));
                    } else {
                        assert(old_visited.contains(su) || old_frontier.contains(su));
                        if old_visited.contains(su) {
                            let j = choose|j: int|
                                0 <= j < old_visited.len() && old_visited[j] == su;
                            assert(visited@[j] == su);
                            assert(visited@.contains(su));
                        } else {
                            let j = choose|j: int|
                                0 <= j < old_frontier.len() && old_frontier[j] == su;
                            if j == old_frontier.len() - 1 {
                                assert(su == state);
                                assert(visited@.last() == su);
                                assert(visited@.contains(su));
                            } else {
                                assert(old_frontier.drop_last()[j] == su);
                                assert(old_frontier.drop_last().contains(su));
                                assert(frontier@.contains(su));
                            }
                        }
                    }
                }
            }
        } else {
            proof {
                assert forall|i: int, k2: int|
                    0 <= i < visited@.len() && 0 <= k2 < successor_states(visited@[i]).len()
                    implies (visited@.contains(#[trigger] successor_states(visited@[i])[k2])
                    || frontier@.contains(successor_states(visited@[i])[k2])) by {
                    let su = successor_states(visited@[i])[k2];
                    assert(visited@.contains(su) || old_frontier.contains(su));
                    if !visited@.contains(su) {
                        let j = choose|j: int| 0 <= j < old_frontier.len() && old_frontier[j] == su;
                        if j == old_frontier.len() - 1 {
                            assert(su == state);
                            assert(visited@.contains(su));
                        } else {
                            assert(frontier@[j] == su);
                            assert(frontier@.contains(su));
                        }
                    }
                }
            }
        }
        steps += 1;
    }
    proof {
        if frontier@.len() == 0 && max_steps > 0 {
            assert(visited@.len() >= 1);
            assert(visited@.contains(*init));
        }
        assert forall|j: int|
            #![trigger visited@[j]]
            1 <= j < visited@.len() implies exists|i: int, k: int|
            0 <= i < j && 0 <= k < successor_states(visited@[i]).len() && visited@[j]
                == #[trigger] successor_states(visited@[i])[k] by {
            let pi = vparent[j].0;
            let pk = vparent[j].1;
            assert(0 <= pi < j && 0 <= pk < successor_states(visited@[pi]).len() && visited@[j]
                == successor_states(visited@[pi])[pk]);
        }
        assert forall|i: int, k2: int|
            frontier@.len() == 0 && 0 <= i < visited@.len() && 0 <= k2 < successor_states(
                visited@[i],
            ).len() implies visited@.contains(#[trigger] successor_states(visited@[i])[k2]) by {
            assert(visited@.contains(successor_states(visited@[i])[k2]) || frontier@.contains(
                successor_states(visited@[i])[k2],
            ));
        }
    }
    Exploration { visited, successor_lists, frontier, x_wins, o_wins, decided }
}


} // verus!
