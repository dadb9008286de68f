//! The session aggregator and report builder: the state machine that
//! splits the line stream into matches and the ranking that sums each
//! player's kill delta across all matches.

use vstd::prelude::*;

use crate::events::classify;
use crate::events::classify_line;
use crate::events::extract_ident;
use crate::events::extract_kill;
use crate::events::ident_name;
use crate::events::kill_fields;
use crate::events::sentinel_t;
use crate::events::world_name;
use crate::events::LineKind;
use crate::table::abs_sum;
use crate::table::assoc_add;
use crate::table::lemma_abs_sum_nonneg;
use crate::table::lemma_assoc_add_abs_sum;
use crate::table::lemma_assoc_get_abs;
use crate::table::names_contain;
use crate::table::tally_add_i;
use crate::table::tally_add_u;
use crate::table::tally_view_i;
use crate::table::tally_view_u;
use crate::text::dec_seq;
use crate::text::views;

verus! {

/// The statistics of one match.
#[derive(Debug, PartialEq)]
pub struct GameStats {
    /// Count of well-formed kill events seen in this match.
    pub total_kills: u32,
    /// Distinct normalized player names, in first-seen order.
    pub players: Vec<String>,
    /// Per-player kill delta; world kills subtract from the victim.
    pub kills: Vec<(String, i32)>,
    /// Count of kill events per cause-of-death token.
    pub kills_by_means: Vec<(String, u32)>,
}

/// The mathematical value of a match's statistics.
#[verifier::ext_equal]
pub ghost struct GameModel {
    pub total_kills: int,
    pub players: Seq<Seq<char>>,
    pub kills: Seq<(Seq<char>, int)>,
    pub kills_by_means: Seq<(Seq<char>, int)>,
}

impl View for GameStats {
    type V = GameModel;

    open spec fn view(&self) -> GameModel {
        GameModel {
            total_kills: self.total_kills as int,
            players: views(self.players@),
            kills: tally_view_i(self.kills@),
            kills_by_means: tally_view_u(self.kills_by_means@),
        }
    }
}

/// A match with no events yet.
pub open spec fn empty_game() -> GameModel {
    GameModel {
        total_kills: 0,
        players: Seq::empty(),
        kills: Seq::empty(),
        kills_by_means: Seq::empty(),
    }
}

impl GameStats {
    /// A fresh, empty match record.
    pub fn new() -> (r: GameStats)
        ensures
            r@ == empty_game(),
    {
        let r = GameStats {
            total_kills: 0,
            players: Vec::new(),
            kills: Vec::new(),
            kills_by_means: Vec::new(),
        };
        proof {
            assert(r@.players =~= empty_game().players);
            assert(r@.kills =~= empty_game().kills);
            assert(r@.kills_by_means =~= empty_game().kills_by_means);
            assert(r@ =~= empty_game());
        }
        r
    }
}

impl Default for GameStats {
    /// The default match record is empty.
    fn default() -> (r: GameStats)
        ensures
            r@ == empty_game(),
    {
        GameStats::new()
    }
}

/// Bounds that every reachable match record obeys: the kill deltas sum
/// (in absolute value) to at most the number of kill events, and so do
/// the per-cause counts, each of which is non-negative.
pub open spec fn wf_game(g: GameModel) -> bool {
    &&& 0 <= g.total_kills
    &&& abs_sum(g.kills) <= g.total_kills
    &&& abs_sum(g.kills_by_means) <= g.total_kills
    &&& forall|i: int| 0 <= i < g.kills_by_means.len() ==> #[trigger] g.kills_by_means[i].1 >= 0
}

/// An empty match is well formed.
pub proof fn lemma_empty_game_wf()
    ensures
        wf_game(empty_game()),
{
    assert(abs_sum(empty_game().kills) == 0);
    assert(abs_sum(empty_game().kills_by_means) == 0);
}

/// The match statistics after one well-formed kill event: the kill
/// count and the cause's count rise by one; a player kill credits the
/// killer, a world kill debits the victim; both names are registered,
/// except the world sentinel as killer.
pub open spec fn spec_apply_kill(
    g: GameModel,
    killer: Seq<char>,
    killed: Seq<char>,
    means: Seq<char>,
) -> GameModel {
    let kills1 = if killer != world_name() {
        assoc_add(g.kills, killer, 1)
    } else {
        assoc_add(g.kills, killed, -1)
    };
    let means1 = assoc_add(g.kills_by_means, means, 1);
    let players1 = if killer != world_name() && !g.players.contains(killer) {
        g.players.push(killer)
    } else {
        g.players
    };
    let players2 = if !players1.contains(killed) {
        players1.push(killed)
    } else {
        players1
    };
    GameModel {
        total_kills: g.total_kills + 1,
        players: players2,
        kills: kills1,
        kills_by_means: means1,
    }
}

/// The match statistics after an identity update naming `n`.
pub open spec fn spec_register(g: GameModel, n: Seq<char>) -> GameModel {
    if !g.players.contains(n) {
        GameModel { players: g.players.push(n), ..g }
    } else {
        g
    }
}

/// Applies one well-formed kill event to the open match.
pub fn apply_kill(g: &mut GameStats, killer: String, killed: String, means: String)
    requires
        wf_game(old(g)@),
        old(g)@.total_kills + 1 < i32::MAX,
    ensures
        final(g)@ == spec_apply_kill(old(g)@, killer@, killed@, means@),
        wf_game(final(g)@),
        final(g)@.total_kills == old(g)@.total_kills + 1,
{
    proof {
        reveal_strlit("<world>");
        assert("<world>"@ =~= world_name());
        lemma_assoc_get_abs(tally_view_i(g.kills@), killer@);
        lemma_assoc_get_abs(tally_view_i(g.kills@), killed@);
        lemma_assoc_get_abs(tally_view_u(g.kills_by_means@), means@);
        lemma_abs_sum_nonneg(tally_view_i(g.kills@));
        lemma_abs_sum_nonneg(tally_view_u(g.kills_by_means@));
        lemma_assoc_add_abs_sum(tally_view_i(g.kills@), killer@, 1);
        lemma_assoc_add_abs_sum(tally_view_i(g.kills@), killed@, -1);
        lemma_assoc_add_abs_sum(tally_view_u(g.kills_by_means@), means@, 1);
    }
    g.total_kills = g.total_kills + 1;
    let world = "<world>".to_owned();
    let world_is_killer = killer.eq(&world);
    if !world_is_killer {
        tally_add_i(&mut g.kills, killer.clone(), 1);
    } else {
        tally_add_i(&mut g.kills, killed.clone(), -1);
    }
    tally_add_u(&mut g.kills_by_means, means, 1);
    let ghost ps0 = g.players@;
    if !world_is_killer && !names_contain(&g.players, &killer) {
        g.players.push(killer);
        proof {
            assert(views(g.players@) =~= views(ps0).push(killer@));
        }
    }
    let ghost ps1 = g.players@;
    if !names_contain(&g.players, &killed) {
        g.players.push(killed);
        proof {
            assert(views(g.players@) =~= views(ps1).push(killed@));
        }
    }
    proof {
        let m = spec_apply_kill(old(g)@, killer@, killed@, means@);
        assert(g@.total_kills == m.total_kills);
        assert(g@.kills == m.kills);
        assert(g@.kills_by_means == m.kills_by_means);
        assert(g@.players == m.players);
        assert(g@ =~= m);
    }
}

/// Registers one player name into the open match.
pub fn register_player(g: &mut GameStats, n: String)
    ensures
        final(g)@ == spec_register(old(g)@, n@),
        final(g)@.total_kills == old(g)@.total_kills,
        final(g)@.kills == old(g)@.kills,
        final(g)@.kills_by_means == old(g)@.kills_by_means,
{
    let ghost ps0 = g.players@;
    if !names_contain(&g.players, &n) {
        g.players.push(n);
        proof {
            assert(views(g.players@) =~= views(ps0).push(n@));
            assert(g@ =~= spec_register(old(g)@, n@));
        }
    }
}

/// The state of the session aggregator.
#[verifier::ext_equal]
pub ghost struct AggModel {
    /// Sealed matches, in completion order, each under its identifier.
    pub games: Seq<(Seq<char>, GameModel)>,
    /// The identifier number the next sealed match receives.
    pub counter: int,
    /// A match is open.
    pub in_game: bool,
    /// The open match's statistics; empty when no match is open.
    pub current: GameModel,
    /// Cause-of-death counts summed over all kill events seen so far.
    pub totals: Seq<(Seq<char>, int)>,
}

/// The prefix of every match identifier.
pub open spec fn game_prefix() -> Seq<char> {
    seq!['g', 'a', 'm', 'e', '_']
}

/// The identifier of the `n`-th sealed match.
pub open spec fn game_id_seq(n: int) -> Seq<char> {
    game_prefix() + dec_seq(n)
}

/// The identifier of the `n`-th sealed match, as a string.
pub fn game_id_str(n: u32) -> (r: String)
    ensures
        r@ == game_id_seq(n as int),
{
    let mut s = "game_".to_owned();
    proof {
        reveal_strlit("game_");
        assert("game_"@ =~= game_prefix());
    }
    crate::text::push_dec_digits(n, &mut s);
    s
}

/// The state before any line is read.
pub open spec fn init_state() -> AggModel {
    AggModel {
        games: Seq::empty(),
        counter: 1,
        in_game: false,
        current: empty_game(),
        totals: Seq::empty(),
    }
}

/// Seals the open match: it moves under the next identifier into the
/// sealed list, and a fresh match record takes its place.
pub open spec fn spec_seal(st: AggModel) -> AggModel {
    AggModel {
        games: st.games.push((game_id_seq(st.counter), st.current)),
        counter: st.counter + 1,
        current: empty_game(),
        ..st
    }
}

/// One transition of the session aggregator on one line.
pub open spec fn step(st: AggModel, line: Seq<char>) -> AggModel {
    match classify(line) {
        LineKind::MatchStart => {
            let st1 = if st.in_game {
                spec_seal(st)
            } else {
                st
            };
            AggModel { in_game: true, current: empty_game(), ..st1 }
        },
        LineKind::MatchEnd => {
            if st.in_game {
                AggModel { in_game: false, ..spec_seal(st) }
            } else {
                st
            }
        },
        LineKind::Kill => {
            if st.in_game {
                match kill_fields(line) {
                    Some(f) => AggModel {
                        current: spec_apply_kill(st.current, f.0, f.1, f.2),
                        totals: assoc_add(st.totals, f.2, 1),
                        ..st
                    },
                    None => st,
                }
            } else {
                st
            }
        },
        LineKind::Identity => {
            if st.in_game {
                match ident_name(line) {
                    Some(n) => AggModel { current: spec_register(st.current, n), ..st },
                    None => st,
                }
            } else {
                st
            }
        },
        LineKind::Other => st,
    }
}

/// The aggregator state after consuming `lines`, starting from `st`.
pub open spec fn run_from(st: AggModel, lines: Seq<Seq<char>>) -> AggModel
    decreases lines.len(),
{
    if lines.len() == 0 {
        st
    } else {
        run_from(step(st, lines[0]), lines.drop_first())
    }
}

/// Consuming one more line runs one more step.
pub proof fn lemma_run_push(st: AggModel, s: Seq<Seq<char>>, a: Seq<char>)
    ensures
        run_from(st, s.push(a)) == step(run_from(st, s), a),
    decreases s.len(),
{
    if s.len() == 0 {
        assert(s.push(a)[0] == a);
        assert(s.push(a).drop_first() =~= Seq::<Seq<char>>::empty());
        assert(run_from(step(st, a), Seq::<Seq<char>>::empty()) == step(st, a));
        assert(run_from(st, s) == st);
    } else {
        assert(s.push(a)[0] == s[0]);
        assert(s.push(a).drop_first() =~= s.drop_first().push(a));
        lemma_run_push(step(st, s[0]), s.drop_first(), a);
    }
}

/// The sum of all sealed matches' kill counts.
pub open spec fn games_sum(games: Seq<(Seq<char>, GameModel)>) -> int
    decreases games.len(),
{
    if games.len() == 0 {
        0
    } else {
        games[0].1.total_kills + games_sum(games.drop_first())
    }
}

/// The total of well-formed matches' kill counts is never negative.
pub proof fn lemma_games_sum_nonneg(games: Seq<(Seq<char>, GameModel)>)
    requires
        forall|i: int| 0 <= i < games.len() ==> wf_game(#[trigger] games[i].1),
    ensures
        games_sum(games) >= 0,
    decreases games.len(),
{
    if games.len() > 0 {
        assert(forall|i: int|
            0 <= i < games.drop_first().len() ==> wf_game(#[trigger] games.drop_first()[i].1));
        lemma_games_sum_nonneg(games.drop_first());
    }
}

/// Sealing one more match adds its kill count to the total.
pub proof fn lemma_games_sum_push(games: Seq<(Seq<char>, GameModel)>, e: (Seq<char>, GameModel))
    ensures
        games_sum(games.push(e)) == games_sum(games) + e.1.total_kills,
    decreases games.len(),
{
    if games.len() == 0 {
        assert(games.push(e).drop_first() =~= Seq::<(Seq<char>, GameModel)>::empty());
        assert(games_sum(Seq::<(Seq<char>, GameModel)>::empty()) == 0);
        assert(games_sum(games) == 0);
    } else {
        assert(games.push(e)[0] == games[0]);
        assert(games.push(e).drop_first() =~= games.drop_first().push(e));
        lemma_games_sum_push(games.drop_first(), e);
    }
}

/// Bounds that hold of every aggregator state reachable within
/// `budget` lines: identifiers are sequential, every match record is
/// well formed, and all counts are covered by the number of lines read.
pub open spec fn agg_inv(st: AggModel, budget: int) -> bool {
    &&& st.counter == st.games.len() + 1
    &&& forall|i: int| 0 <= i < st.games.len() ==> wf_game(#[trigger] st.games[i].1)
    &&& wf_game(st.current)
    &&& (!st.in_game ==> st.current == empty_game())
    &&& games_sum(st.games) + st.current.total_kills <= budget
    &&& st.games.len() <= budget
    &&& abs_sum(st.totals) <= budget
    &&& forall|j: int| 0 <= j < st.totals.len() ==> #[trigger] st.totals[j].1 >= 0
}

/// The view of a sealed-games vector.
pub open spec fn games_view(gs: Seq<(String, GameStats)>) -> Seq<(Seq<char>, GameModel)> {
    gs.map_values(|e: (String, GameStats)| (e.0@, e.1@))
}

/// Runs the session aggregator over every line, left to right.
fn scan_lines(lines: &Vec<String>) -> (r: (
    Vec<(String, GameStats)>,
    Vec<(String, u32)>,
    bool,
    GameStats,
    u32,
))
    requires
        lines@.len() < i32::MAX,
    ensures
        games_view(r.0@) == run_from(init_state(), views(lines@)).games,
        tally_view_u(r.1@) == run_from(init_state(), views(lines@)).totals,
        r.2 == run_from(init_state(), views(lines@)).in_game,
        r.3@ == run_from(init_state(), views(lines@)).current,
        r.4 as int == run_from(init_state(), views(lines@)).counter,
        agg_inv(run_from(init_state(), views(lines@)), lines@.len() as int),
{
    let n = lines.len();
    let mut games: Vec<(String, GameStats)> = Vec::new();
    let mut totals: Vec<(String, u32)> = Vec::new();
    let mut in_game = false;
    let mut current = GameStats::new();
    let mut counter: u32 = 1;
    let ghost lv = views(lines@);
    let ghost mut stv = init_state();
    proof {
        assert(lv.take(0) =~= Seq::<Seq<char>>::empty());
        assert(run_from(init_state(), lv.take(0)) == init_state());
        assert(games_view(games@) =~= init_state().games);
        assert(tally_view_u(totals@) =~= init_state().totals);
        lemma_empty_game_wf();
        assert(games_sum(init_state().games) == 0);
        assert(abs_sum(init_state().totals) == 0);
        assert(agg_inv(init_state(), 0));
    }
    let mut i: usize = 0;
    while i < n
        invariant
            i <= n,
            n == lines@.len(),
            n < i32::MAX,
            lv == views(lines@),
            stv == run_from(init_state(), lv.take(i as int)),
            agg_inv(stv, i as int),
            stv.games == games_view(games@),
            stv.counter == counter as int,
            stv.in_game == in_game,
            stv.current == current@,
            stv.totals == tally_view_u(totals@),
        decreases n - i,
    {
        proof {
            assert(lv[i as int] == lines@[i as int]@);
            assert(lv.take(i + 1) =~= lv.take(i as int).push(lv[i as int]));
            lemma_run_push(init_state(), lv.take(i as int), lv[i as int]);
        }
        let kind = classify_line(lines[i].as_str());
        let ghost prev = stv;
        proof {
            stv = step(stv, lv[i as int]);
            lemma_games_sum_nonneg(prev.games);
        }
        match kind {
            LineKind::MatchStart => {
                if in_game {
                    proof {
                        lemma_games_sum_push(
                            prev.games,
                            (game_id_seq(prev.counter), prev.current),
                        );
                        lemma_empty_game_wf();
                    }
                    let id = game_id_str(counter);
                    let ghost g0 = games@;
                    games.push((id, current));
                    current = GameStats::new();
                    counter = counter + 1;
                    proof {
                        assert(games_view(games@) =~= games_view(g0).push(
                            (game_id_seq(prev.counter), prev.current),
                        ));
                    }
                }
                in_game = true;
            },
            LineKind::MatchEnd => {
                if in_game {
                    proof {
                        lemma_games_sum_push(
                            prev.games,
                            (game_id_seq(prev.counter), prev.current),
                        );
                        lemma_empty_game_wf();
                    }
                    let id = game_id_str(counter);
                    let ghost g0 = games@;
                    games.push((id, current));
                    current = GameStats::new();
                    counter = counter + 1;
                    in_game = false;
                    proof {
                        assert(games_view(games@) =~= games_view(g0).push(
                            (game_id_seq(prev.counter), prev.current),
                        ));
                    }
                }
            },
            LineKind::Kill => {
                if in_game {
                    match extract_kill(lines[i].as_str()) {
                        Some(f) => {
                            proof {
                                lemma_assoc_get_abs(prev.totals, f.2@);
                                lemma_assoc_add_abs_sum(prev.totals, f.2@, 1);
                                crate::table::lemma_assoc_add_entries(prev.totals, f.2@, 1);
                                crate::table::lemma_assoc_get_cases(prev.totals, f.2@);
                            }
                            let means2 = f.2.clone();
                            apply_kill(&mut current, f.0, f.1, f.2);
                            tally_add_u(&mut totals, means2, 1);
                            proof {
                                assert forall|j: int|
                                    0 <= j < stv.totals.len() implies #[trigger] stv.totals[j].1
                                    >= 0 by {
                                    assert(crate::table::value_from(
                                        prev.totals,
                                        f.2@,
                                        1,
                                        stv.totals[j].1,
                                    ));
                                }
                            }
                        },
                        None => {},
                    }
                }
            },
            LineKind::Identity => {
                if in_game {
                    match extract_ident(lines[i].as_str()) {
                        Some(nm) => {
                            register_player(&mut current, nm);
                        },
                        None => {},
                    }
                }
            },
            LineKind::Other => {},
        }
        proof {
            assert(stv =~= (AggModel {
                games: games_view(games@),
                counter: counter as int,
                in_game: in_game,
                current: current@,
                totals: tally_view_u(totals@),
            }));
        }
        i += 1;
    }
    proof {
        assert(lv.take(n as int) =~= lv);
    }
    (games, totals, in_game, current, counter)
}

/// A normalized name that is neither the invalid sentinel nor the
/// environmental sentinel.
pub open spec fn valid_name(n: Seq<char>) -> bool {
    n != sentinel_t() && n != world_name()
}

/// The name filter applied to a sealed match's player list.
pub open spec fn name_pred() -> spec_fn(Seq<char>) -> bool {
    |n: Seq<char>| valid_name(n)
}

/// The name filter applied to a sealed match's kill table.
pub open spec fn entry_pred() -> spec_fn((Seq<char>, int)) -> bool {
    |e: (Seq<char>, int)| valid_name(e.0)
}

/// A sealed match with the sentinel names removed from its player list
/// and kill table.
pub open spec fn cleanup_game(g: GameModel) -> GameModel {
    GameModel { players: g.players.filter(name_pred()), kills: g.kills.filter(entry_pred()), ..g }
}

/// Every sealed match cleaned of sentinel names.
pub open spec fn cleanup_map(games: Seq<(Seq<char>, GameModel)>) -> Seq<(Seq<char>, GameModel)> {
    games.map_values(|e: (Seq<char>, GameModel)| (e.0, cleanup_game(e.1)))
}

/// The sum, over all sealed matches, of the absolute values of every
/// kill-table count.
pub open spec fn kills_abs_total(games: Seq<(Seq<char>, GameModel)>) -> int
    decreases games.len(),
{
    if games.len() == 0 {
        0
    } else {
        abs_sum(games[0].1.kills) + kills_abs_total(games.drop_first())
    }
}

/// The summed magnitude is never negative.
pub proof fn lemma_kills_abs_total_nonneg(games: Seq<(Seq<char>, GameModel)>)
    ensures
        kills_abs_total(games) >= 0,
    decreases games.len(),
{
    if games.len() > 0 {
        lemma_abs_sum_nonneg(games[0].1.kills);
        lemma_kills_abs_total_nonneg(games.drop_first());
    }
}

/// One more match adds its kill-table magnitude to the sum.
pub proof fn lemma_kills_abs_total_push(
    games: Seq<(Seq<char>, GameModel)>,
    e: (Seq<char>, GameModel),
)
    ensures
        kills_abs_total(games.push(e)) == kills_abs_total(games) + abs_sum(e.1.kills),
    decreases games.len(),
{
    if games.len() == 0 {
        assert(games.push(e).drop_first() =~= Seq::<(Seq<char>, GameModel)>::empty());
        assert(kills_abs_total(Seq::<(Seq<char>, GameModel)>::empty()) == 0);
        assert(kills_abs_total(games) == 0);
    } else {
        assert(games.push(e)[0] == games[0]);
        assert(games.push(e).drop_first() =~= games.drop_first().push(e));
        lemma_kills_abs_total_push(games.drop_first(), e);
    }
}

/// The summed magnitude splits at any cut of the sealed list.
pub proof fn lemma_kills_abs_total_split(games: Seq<(Seq<char>, GameModel)>, k: int)
    requires
        0 <= k <= games.len(),
    ensures
        kills_abs_total(games) == kills_abs_total(games.take(k)) + kills_abs_total(games.skip(k)),
    decreases k,
{
    if k == 0 {
        assert(games.take(0) =~= Seq::<(Seq<char>, GameModel)>::empty());
        assert(kills_abs_total(games.take(0)) == 0);
        assert(games.skip(0) =~= games);
    } else {
        lemma_kills_abs_total_split(games, k - 1);
        assert(games.take(k) =~= games.take(k - 1).push(games[k - 1]));
        lemma_kills_abs_total_push(games.take(k - 1), games[k - 1]);
        assert(games.skip(k - 1)[0] == games[k - 1]);
        assert(games.skip(k - 1).drop_first() =~= games.skip(k));
        assert(kills_abs_total(games.skip(k - 1)) == abs_sum(games[k - 1].1.kills)
            + kills_abs_total(games.skip(k)));
    }
}

/// For well-formed matches, the summed magnitude is covered by the
/// total kill count.
pub proof fn lemma_kills_abs_total_le_games_sum(games: Seq<(Seq<char>, GameModel)>)
    requires
        forall|i: int| 0 <= i < games.len() ==> wf_game(#[trigger] games[i].1),
    ensures
        kills_abs_total(games) <= games_sum(games),
    decreases games.len(),
{
    if games.len() > 0 {
        assert(wf_game(games[0].1));
        assert(forall|i: int|
            0 <= i < games.drop_first().len() ==> wf_game(#[trigger] games.drop_first()[i].1));
        lemma_kills_abs_total_le_games_sum(games.drop_first());
    }
}

/// Cleaning never grows the summed magnitude.
pub proof fn lemma_kills_abs_total_cleanup(games: Seq<(Seq<char>, GameModel)>)
    ensures
        kills_abs_total(cleanup_map(games)) <= kills_abs_total(games),
    decreases games.len(),
{
    if games.len() == 0 {
        assert(cleanup_map(games) =~= Seq::<(Seq<char>, GameModel)>::empty());
        assert(kills_abs_total(cleanup_map(games)) == 0);
    } else {
        assert(cleanup_map(games).drop_first() =~= cleanup_map(games.drop_first()));
        assert(cleanup_map(games)[0].1.kills == games[0].1.kills.filter(entry_pred()));
        crate::table::lemma_filter_abs_sum(games[0].1.kills, entry_pred());
        lemma_kills_abs_total_cleanup(games.drop_first());
    }
}

/// `n` is neither sentinel.
fn keep_name(n: &String) -> (r: bool)
    ensures
        r == valid_name(n@),
{
    proof {
        reveal_strlit("t");
        reveal_strlit("<world>");
        assert("t"@ =~= sentinel_t());
        assert("<world>"@ =~= world_name());
    }
    let t = "t".to_owned();
    let w = "<world>".to_owned();
    !n.eq(&t) && !n.eq(&w)
}

/// A copy of one sealed match with the sentinel names removed.
fn cleanup_stats(g: &GameStats) -> (r: GameStats)
    ensures
        r@ == cleanup_game(g@),
{
    let mut ps: Vec<String> = Vec::new();
    let pn = g.players.len();
    let mut j: usize = 0;
    while j < pn
        invariant
            j <= pn,
            pn == g.players@.len(),
            views(ps@) == views(g.players@).take(j as int).filter(name_pred()),
        decreases pn - j,
    {
        let ghost out0 = views(ps@);
        let ghost pv = views(g.players@);
        let keep = keep_name(&g.players[j]);
        if keep {
            ps.push(g.players[j].clone());
        }
        proof {
            assert(pv[j as int] == g.players@[j as int]@);
            assert(pv.take(j + 1) =~= pv.take(j as int).push(pv[j as int]));
            crate::table::lemma_filter_push(pv.take(j as int), name_pred(), pv[j as int]);
            if keep {
                assert(views(ps@) =~= out0.push(pv[j as int]));
            }
        }
        j += 1;
    }
    let mut ks: Vec<(String, i32)> = Vec::new();
    let kn = g.kills.len();
    let mut j2: usize = 0;
    while j2 < kn
        invariant
            j2 <= kn,
            kn == g.kills@.len(),
            tally_view_i(ks@) == tally_view_i(g.kills@).take(j2 as int).filter(entry_pred()),
        decreases kn - j2,
    {
        let ghost out0 = tally_view_i(ks@);
        let ghost kv = tally_view_i(g.kills@);
        let keep = keep_name(&g.kills[j2].0);
        if keep {
            ks.push((g.kills[j2].0.clone(), g.kills[j2].1));
        }
        proof {
            assert(kv[j2 as int] == (g.kills@[j2 as int].0@, g.kills@[j2 as int].1 as int));
            assert(kv.take(j2 + 1) =~= kv.take(j2 as int).push(kv[j2 as int]));
            crate::table::lemma_filter_push(kv.take(j2 as int), entry_pred(), kv[j2 as int]);
            if keep {
                assert(tally_view_i(ks@) =~= out0.push(kv[j2 as int]));
            }
        }
        j2 += 1;
    }
    let mut ms: Vec<(String, u32)> = Vec::new();
    let mn = g.kills_by_means.len();
    let mut j3: usize = 0;
    while j3 < mn
        invariant
            j3 <= mn,
            mn == g.kills_by_means@.len(),
            tally_view_u(ms@) == tally_view_u(g.kills_by_means@).take(j3 as int),
        decreases mn - j3,
    {
        let ghost out0 = tally_view_u(ms@);
        let ghost mv = tally_view_u(g.kills_by_means@);
        ms.push((g.kills_by_means[j3].0.clone(), g.kills_by_means[j3].1));
        proof {
            assert(mv[j3 as int] == (
                g.kills_by_means@[j3 as int].0@,
                g.kills_by_means@[j3 as int].1 as int,
            ));
            assert(mv.take(j3 + 1) =~= mv.take(j3 as int).push(mv[j3 as int]));
            assert(tally_view_u(ms@) =~= out0.push(mv[j3 as int]));
        }
        j3 += 1;
    }
    let r = GameStats { total_kills: g.total_kills, players: ps, kills: ks, kills_by_means: ms };
    proof {
        assert(views(g.players@).take(pn as int) =~= views(g.players@));
        assert(tally_view_i(g.kills@).take(kn as int) =~= tally_view_i(g.kills@));
        assert(tally_view_u(g.kills_by_means@).take(mn as int) =~= tally_view_u(
            g.kills_by_means@,
        ));
        assert(r@ =~= cleanup_game(g@));
    }
    r
}

/// Copies of all sealed matches with the sentinel names removed.
fn cleanup_all(games: &Vec<(String, GameStats)>) -> (r: Vec<(String, GameStats)>)
    ensures
        games_view(r@) == cleanup_map(games_view(games@)),
{
    let ghost gv = games_view(games@);
    let mut out: Vec<(String, GameStats)> = Vec::new();
    let n = games.len();
    let mut i: usize = 0;
    while i < n
        invariant
            i <= n,
            n == games@.len(),
            gv == games_view(games@),
            games_view(out@) == cleanup_map(gv).take(i as int),
        decreases n - i,
    {
        let ghost out0 = games_view(out@);
        let cg = cleanup_stats(&games[i].1);
        out.push((games[i].0.clone(), cg));
        proof {
            assert(gv[i as int] == (games@[i as int].0@, games@[i as int].1@));
            assert(cleanup_map(gv)[i as int] == (gv[i as int].0, cleanup_game(gv[i as int].1)));
            assert(games_view(out@) =~= out0.push((games@[i as int].0@, cg@)));
            assert(games_view(out@) =~= cleanup_map(gv).take(i + 1));
        }
        i += 1;
    }
    proof {
        assert(cleanup_map(gv).take(n as int) =~= cleanup_map(gv));
    }
    out
}

/// The kill counts of one match's table folded into the global tally,
/// entry by entry from position `i` on.
pub open spec fn merge_into(
    acc: Seq<(Seq<char>, int)>,
    m: Seq<(Seq<char>, int)>,
    i: int,
) -> Seq<(Seq<char>, int)>
    decreases m.len() - i when 0 <= i <= m.len()
{
    if i >= m.len() {
        acc
    } else {
        merge_into(assoc_add(acc, m[i].0, m[i].1), m, i + 1)
    }
}

/// The global tally over the matches from position `i` on.
pub open spec fn rank_base_from(
    games: Seq<(Seq<char>, GameModel)>,
    i: int,
    acc: Seq<(Seq<char>, int)>,
) -> Seq<(Seq<char>, int)>
    decreases games.len() - i when 0 <= i <= games.len()
{
    if i >= games.len() {
        acc
    } else {
        rank_base_from(games, i + 1, merge_into(acc, games[i].1.kills, 0))
    }
}

/// Every player's kill delta summed across all matches, keyed in
/// first-encountered order.
pub open spec fn rank_base(games: Seq<(Seq<char>, GameModel)>) -> Seq<(Seq<char>, int)> {
    rank_base_from(games, 0, Seq::empty())
}

/// `x` inserted behind every entry whose count is at least as large.
pub open spec fn insert_desc(sorted: Seq<(Seq<char>, int)>, x: (Seq<char>, int)) -> Seq<
    (Seq<char>, int),
>
    decreases sorted.len(),
{
    if sorted.len() == 0 {
        seq![x]
    } else if sorted[0].1 >= x.1 {
        seq![sorted[0]] + insert_desc(sorted.drop_first(), x)
    } else {
        seq![x] + sorted
    }
}

/// The entries from position `i` on, insertion-sorted onto `acc`.
pub open spec fn sort_desc_from(
    m: Seq<(Seq<char>, int)>,
    i: int,
    acc: Seq<(Seq<char>, int)>,
) -> Seq<(Seq<char>, int)>
    decreases m.len() - i when 0 <= i <= m.len()
{
    if i >= m.len() {
        acc
    } else {
        sort_desc_from(m, i + 1, insert_desc(acc, m[i]))
    }
}

/// The entries sorted by count, largest first; entries of equal count
/// keep their relative order.
pub open spec fn sort_desc(m: Seq<(Seq<char>, int)>) -> Seq<(Seq<char>, int)> {
    sort_desc_from(m, 0, Seq::empty())
}

/// When the first `pos` counts are at least `x`'s and the next one is
/// smaller, the insertion lands exactly at `pos`.
pub proof fn lemma_insert_desc_at(s: Seq<(Seq<char>, int)>, x: (Seq<char>, int), pos: int)
    requires
        0 <= pos <= s.len(),
        forall|j: int| 0 <= j < pos ==> s[j].1 >= x.1,
        pos < s.len() ==> s[pos].1 < x.1,
    ensures
        insert_desc(s, x) == s.insert(pos, x),
    decreases pos,
{
    if pos == 0 {
        assert(insert_desc(s, x) =~= s.insert(0, x));
    } else {
        assert(s[0].1 >= x.1);
        assert(forall|j: int| 0 <= j < pos - 1 ==> s.drop_first()[j].1 >= x.1);
        lemma_insert_desc_at(s.drop_first(), x, pos - 1);
        assert(insert_desc(s, x) == seq![s[0]] + s.drop_first().insert(pos - 1, x));
        assert(seq![s[0]] + s.drop_first().insert(pos - 1, x) =~= s.insert(pos, x));
    }
}

/// The entries of `m` insertion-sorted, largest count first.
fn sort_tally(m: &Vec<(String, i32)>) -> (r: Vec<(String, i32)>)
    ensures
        tally_view_i(r@) == sort_desc(tally_view_i(m@)),
{
    let ghost mv = tally_view_i(m@);
    let mut out: Vec<(String, i32)> = Vec::new();
    let n = m.len();
    let mut i: usize = 0;
    proof {
        assert(tally_view_i(out@) =~= Seq::<(Seq<char>, int)>::empty());
    }
    while i < n
        invariant
            i <= n,
            n == m@.len(),
            mv == tally_view_i(m@),
            sort_desc(mv) == sort_desc_from(mv, i as int, tally_view_i(out@)),
        decreases n - i,
    {
        let ghost outv = tally_view_i(out@);
        let x = (m[i].0.clone(), m[i].1);
        let ol = out.len();
        let mut pos: usize = 0;
        while pos < ol && out[pos].1 >= x.1
            invariant
                pos <= ol,
                ol == out@.len(),
                outv == tally_view_i(out@),
                forall|j: int| 0 <= j < pos ==> outv[j].1 >= x.1 as int,
            decreases ol - pos,
        {
            proof {
                assert(outv[pos as int] == (out@[pos as int].0@, out@[pos as int].1 as int));
            }
            pos += 1;
        }
        proof {
            if pos < ol {
                assert(outv[pos as int] == (out@[pos as int].0@, out@[pos as int].1 as int));
            }
            lemma_insert_desc_at(outv, (x.0@, x.1 as int), pos as int);
            assert(mv[i as int] == (m@[i as int].0@, m@[i as int].1 as int));
        }
        out.insert(pos, x);
        proof {
            assert(tally_view_i(out@) =~= outv.insert(pos as int, (x.0@, x.1 as int)));
        }
        i += 1;
    }
    proof {
        assert(sort_desc_from(mv, n as int, tally_view_i(out@)) == tally_view_i(out@));
    }
    out
}

/// The final output: sealed matches, the global player ranking, and
/// cause-of-death counts summed over all matches.
#[derive(Debug, PartialEq)]
pub struct Report {
    /// One entry per completed match, in completion order.
    pub games: Vec<(String, GameStats)>,
    /// Players with their kill deltas summed across all matches,
    /// sorted by that sum, largest first.
    pub player_rankings: Vec<(String, i32)>,
    /// Cause-of-death counts summed across all matches.
    pub total_deaths_by_means: Vec<(String, u32)>,
}

/// The mathematical value of a report.
#[verifier::ext_equal]
pub ghost struct ReportModel {
    pub games: Seq<(Seq<char>, GameModel)>,
    pub player_rankings: Seq<(Seq<char>, int)>,
    pub total_deaths_by_means: Seq<(Seq<char>, int)>,
}

impl View for Report {
    type V = ReportModel;

    open spec fn view(&self) -> ReportModel {
        ReportModel {
            games: games_view(self.games@),
            player_rankings: tally_view_i(self.player_rankings@),
            total_deaths_by_means: tally_view_u(self.total_deaths_by_means@),
        }
    }
}

/// The report that one log text parses to: the lines are scanned by
/// the session aggregator, a still-open match is sealed at end of
/// input, the sentinel names are removed, and the ranking is the
/// per-player sum over all sealed matches, sorted largest first.
pub open spec fn spec_parse_log(content: Seq<char>) -> ReportModel {
    let lines = crate::text::spec_lines(content);
    let st = run_from(init_state(), lines);
    let sealed = if st.in_game {
        st.games.push((game_id_seq(st.counter), st.current))
    } else {
        st.games
    };
    let cleaned = cleanup_map(sealed);
    ReportModel {
        games: cleaned,
        player_rankings: sort_desc(rank_base(cleaned)),
        total_deaths_by_means: st.totals,
    }
}

/// The log-parsing entry point.
pub struct LogParser;

impl LogParser {
    /// Builds the global player ranking: every player's kill delta is
    /// summed across all given matches, and the entries are sorted by
    /// that sum, largest first. The one demand on the input is the
    /// machine limit that the summed magnitudes fit a signed counter.
    pub fn generate_rankings(games: &Vec<(String, GameStats)>) -> (r: Vec<(String, i32)>)
        requires
            kills_abs_total(games_view(games@)) <= i32::MAX,
        ensures
            tally_view_i(r@) == sort_desc(rank_base(games_view(games@))),
    {
        let ghost gv = games_view(games@);
        let mut acc: Vec<(String, i32)> = Vec::new();
        let gn = games.len();
        let mut gi: usize = 0;
        proof {
            assert(tally_view_i(acc@) =~= Seq::<(Seq<char>, int)>::empty());
            assert(gv.take(0) =~= Seq::<(Seq<char>, GameModel)>::empty());
            assert(kills_abs_total(gv.take(0)) == 0);
            assert(abs_sum(tally_view_i(acc@)) == 0);
        }
        while gi < gn
            invariant
                gi <= gn,
                gn == games@.len(),
                gv == games_view(games@),
                kills_abs_total(gv) <= i32::MAX,
                rank_base(gv) == rank_base_from(gv, gi as int, tally_view_i(acc@)),
                abs_sum(tally_view_i(acc@)) <= kills_abs_total(gv.take(gi as int)),
            decreases gn - gi,
        {
            let ghost acc0 = tally_view_i(acc@);
            let ghost mk = gv[gi as int].1.kills;
            proof {
                assert(gv[gi as int] == (games@[gi as int].0@, games@[gi as int].1@));
                lemma_kills_abs_total_split(gv, gi as int);
                lemma_kills_abs_total_split(gv, gi + 1);
                assert(gv.take(gi + 1) =~= gv.take(gi as int).push(gv[gi as int]));
                lemma_kills_abs_total_push(gv.take(gi as int), gv[gi as int]);
                lemma_kills_abs_total_nonneg(gv.skip(gi + 1));
                assert(crate::table::abs_sum(mk.take(0)) == 0);
                assert(mk.take(0) =~= Seq::<(Seq<char>, int)>::empty());
            }
            let kn = games[gi].1.kills.len();
            let mut ei: usize = 0;
            while ei < kn
                invariant
                    ei <= kn,
                    gi < gn,
                    gn == games@.len(),
                    gv == games_view(games@),
                    kn == games@[gi as int].1.kills@.len(),
                    mk == tally_view_i(games@[gi as int].1.kills@),
                    mk == gv[gi as int].1.kills,
                    kills_abs_total(gv) <= i32::MAX,
                    kills_abs_total(gv.take(gi as int)) + kills_abs_total(gv.skip(gi + 1))
                        + abs_sum(mk) == kills_abs_total(gv),
                    kills_abs_total(gv.skip(gi + 1)) >= 0,
                    merge_into(tally_view_i(acc@), mk, ei as int) == merge_into(acc0, mk, 0),
                    abs_sum(tally_view_i(acc@)) <= kills_abs_total(gv.take(gi as int)) + abs_sum(
                        mk.take(ei as int),
                    ),
                decreases kn - ei,
            {
                let ghost av = tally_view_i(acc@);
                let key = games[gi].1.kills[ei].0.clone();
                let d = games[gi].1.kills[ei].1;
                proof {
                    assert(mk[ei as int] == (
                        games@[gi as int].1.kills@[ei as int].0@,
                        games@[gi as int].1.kills@[ei as int].1 as int,
                    ));
                    crate::table::lemma_assoc_get_abs(av, key@);
                    crate::table::lemma_abs_sum_split(mk, ei as int);
                    crate::table::lemma_abs_sum_split(mk, ei + 1);
                    assert(mk.take(ei + 1) =~= mk.take(ei as int).push(mk[ei as int]));
                    crate::table::lemma_abs_sum_push(mk.take(ei as int), mk[ei as int]);
                    lemma_abs_sum_nonneg(mk.skip(ei + 1));
                    crate::table::lemma_assoc_add_abs_sum(av, key@, d as int);
                }
                tally_add_i(&mut acc, key, d);
                proof {
                    assert(merge_into(av, mk, ei as int) == merge_into(
                        assoc_add(av, mk[ei as int].0, mk[ei as int].1),
                        mk,
                        ei + 1,
                    ));
                    assert(tally_view_i(acc@) == assoc_add(av, mk[ei as int].0, mk[ei as int].1));
                }
                ei += 1;
            }
            proof {
                assert(merge_into(tally_view_i(acc@), mk, kn as int) == tally_view_i(acc@));
                assert(rank_base_from(gv, gi as int, acc0) == rank_base_from(
                    gv,
                    gi + 1,
                    merge_into(acc0, mk, 0),
                ));
                assert(mk.take(kn as int) =~= mk);
                assert(gv.take(gi + 1) =~= gv.take(gi as int).push(gv[gi as int]));
                lemma_kills_abs_total_push(gv.take(gi as int), gv[gi as int]);
            }
            gi += 1;
        }
        proof {
            assert(rank_base_from(gv, gn as int, tally_view_i(acc@)) == tally_view_i(acc@));
        }
        sort_tally(&acc)
    }

    /// Parses one complete log text into its report.
    ///
    /// The result is a pure function of the text: parsing the same
    /// content again yields an equal report.
    pub fn parse_log(content: &str) -> (r: Report)
        requires
            content@.len() + 1 < i32::MAX,
        ensures
            r@ == spec_parse_log(content@),
    {
        let lines = crate::text::split_lines(content);
        let ghost lv = views(lines@);
        let ghost st = run_from(init_state(), lv);
        let (games0, totals, in_game, current, counter) = scan_lines(&lines);
        let mut games = games0;
        let ghost budget = lines@.len() as int;
        if in_game {
            let id = game_id_str(counter);
            let ghost g0 = games@;
            games.push((id, current));
            proof {
                assert(games_view(games@) =~= games_view(g0).push(
                    (game_id_seq(st.counter), st.current),
                ));
                lemma_games_sum_push(st.games, (game_id_seq(st.counter), st.current));
            }
        }
        let ghost sealedv = games_view(games@);
        proof {
            assert forall|i: int| 0 <= i < sealedv.len() implies wf_game(
                #[trigger] sealedv[i].1,
            ) by {
                if i < st.games.len() {
                    assert(sealedv[i].1 == st.games[i].1);
                } else {
                    assert(sealedv[i].1 == st.current);
                }
            }
            lemma_games_sum_nonneg(st.games);
            assert(games_sum(sealedv) <= budget);
        }
        let cleaned = cleanup_all(&games);
        proof {
            lemma_kills_abs_total_le_games_sum(sealedv);
            lemma_kills_abs_total_cleanup(sealedv);
            assert(kills_abs_total(games_view(cleaned@)) <= i32::MAX);
        }
        let rankings = Self::generate_rankings(&cleaned);
        let report = Report {
            games: cleaned,
            player_rankings: rankings,
            total_deaths_by_means: totals,
        };
        proof {
            assert(report@ =~= spec_parse_log(content@));
        }
        report
    }
}

} // verus!
