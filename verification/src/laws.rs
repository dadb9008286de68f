//! The library's stated laws: properties of the aggregator and of the
//! report builder, proved once and for all inputs.

use vstd::prelude::*;

use crate::events::classify;
use crate::events::is_valid_kill_line;
use crate::events::kill_fields;
use crate::events::world_name;
use crate::events::LineKind;
use crate::report::cleanup_game;
use crate::report::cleanup_map;
use crate::report::empty_game;
use crate::report::game_id_seq;
use crate::report::init_state;
use crate::report::name_pred;
use crate::report::run_from;
use crate::report::spec_apply_kill;
use crate::report::spec_parse_log;
use crate::report::step;
use crate::report::valid_name;
use crate::report::AggModel;
use crate::report::GameModel;
use crate::table::assoc_get;
use crate::table::assoc_has;
use crate::table::lemma_assoc_add_get;
use crate::table::lemma_assoc_has_exists;
use crate::text::spec_lines;

verus! {

/// The number of lines that carry a well-formed kill event.
pub open spec fn count_valid_kills(lines: Seq<Seq<char>>) -> int
    decreases lines.len(),
{
    if lines.len() == 0 {
        0
    } else {
        (if is_valid_kill_line(lines[0]) {
            1int
        } else {
            0int
        }) + count_valid_kills(lines.drop_first())
    }
}

/// Within one match's span — lines among which no match starts or
/// ends — the open match's kill count grows by exactly the number of
/// well-formed kill lines: malformed kill lines and all other lines
/// leave it unchanged.
pub proof fn lemma_total_kills_counts_valid_kills(st: AggModel, lines: Seq<Seq<char>>)
    requires
        st.in_game,
        forall|i: int|
            0 <= i < lines.len() ==> classify(#[trigger] lines[i]) != LineKind::MatchStart
                && classify(lines[i]) != LineKind::MatchEnd,
    ensures
        run_from(st, lines).in_game,
        run_from(st, lines).current.total_kills == st.current.total_kills + count_valid_kills(
            lines,
        ),
    decreases lines.len(),
{
    if lines.len() > 0 {
        let st1 = step(st, lines[0]);
        assert(st1.in_game);
        assert(st1.current.total_kills == st.current.total_kills + (
        if is_valid_kill_line(lines[0]) {
            1int
        } else {
            0int
        }));
        assert(forall|i: int|
            0 <= i < lines.drop_first().len() ==> classify(#[trigger] lines.drop_first()[i])
                != LineKind::MatchStart && classify(lines.drop_first()[i]) != LineKind::MatchEnd);
        lemma_total_kills_counts_valid_kills(st1, lines.drop_first());
    }
}

/// A kill with a real killer adds one to exactly the killer's entry:
/// every other player's delta is untouched, and no entry decreases.
pub proof fn lemma_player_kill_attribution(
    g: GameModel,
    killer: Seq<char>,
    killed: Seq<char>,
    means: Seq<char>,
)
    requires
        killer != world_name(),
    ensures
        assoc_get(spec_apply_kill(g, killer, killed, means).kills, killer) == assoc_get(
            g.kills,
            killer,
        ) + 1,
        forall|p: Seq<char>|
            p != killer ==> #[trigger] assoc_get(
                spec_apply_kill(g, killer, killed, means).kills,
                p,
            ) == assoc_get(g.kills, p),
        forall|p: Seq<char>|
            #[trigger] assoc_get(spec_apply_kill(g, killer, killed, means).kills, p) >= assoc_get(
                g.kills,
                p,
            ),
{
    assert forall|p: Seq<char>| true implies #[trigger] assoc_get(
        spec_apply_kill(g, killer, killed, means).kills,
        p,
    ) == assoc_get(g.kills, p) + (if p == killer {
        1int
    } else {
        0int
    }) by {
        lemma_assoc_add_get(g.kills, killer, 1, p);
    }
}

/// A world kill subtracts one from exactly the victim's entry and
/// touches no other.
pub proof fn lemma_world_kill_attribution(g: GameModel, killed: Seq<char>, means: Seq<char>)
    ensures
        assoc_get(spec_apply_kill(g, world_name(), killed, means).kills, killed) == assoc_get(
            g.kills,
            killed,
        ) - 1,
        forall|p: Seq<char>|
            p != killed ==> #[trigger] assoc_get(
                spec_apply_kill(g, world_name(), killed, means).kills,
                p,
            ) == assoc_get(g.kills, p),
{
    assert forall|p: Seq<char>| true implies #[trigger] assoc_get(
        spec_apply_kill(g, world_name(), killed, means).kills,
        p,
    ) == assoc_get(g.kills, p) - (if p == killed {
        1int
    } else {
        0int
    }) by {
        lemma_assoc_add_get(g.kills, killed, -1, p);
    }
}

/// After the sentinel cleanup, no sealed match names the environment
/// or the invalid sentinel among its players or in its kill table.
pub proof fn lemma_cleanup_removes_sentinels(games: Seq<(Seq<char>, GameModel)>, bad: Seq<char>)
    requires
        !valid_name(bad),
    ensures
        forall|i: int|
            0 <= i < cleanup_map(games).len() ==> !(#[trigger] cleanup_map(
                games,
            )[i].1.players.contains(bad)),
        forall|i: int|
            0 <= i < cleanup_map(games).len() ==> !assoc_has(
                #[trigger] cleanup_map(games)[i].1.kills,
                bad,
            ),
{
    assert forall|i: int| 0 <= i < cleanup_map(games).len() implies !(#[trigger] cleanup_map(
        games,
    )[i].1.players.contains(bad)) by {
        assert(cleanup_map(games)[i].1 == cleanup_game(games[i].1));
        let ps = games[i].1.players.filter(name_pred());
        if ps.contains(bad) {
            let j = choose|j: int| 0 <= j < ps.len() && ps[j] == bad;
            games[i].1.players.lemma_filter_pred(name_pred(), j);
            assert(false);
        }
    }
    assert forall|i: int| 0 <= i < cleanup_map(games).len() implies !assoc_has(
        #[trigger] cleanup_map(games)[i].1.kills,
        bad,
    ) by {
        assert(cleanup_map(games)[i].1 == cleanup_game(games[i].1));
        let ks = games[i].1.kills.filter(crate::report::entry_pred());
        lemma_assoc_has_exists(ks, bad);
        if assoc_has(ks, bad) {
            let j = choose|j: int| 0 <= j < ks.len() && ks[j].0 == bad;
            games[i].1.kills.lemma_filter_pred(crate::report::entry_pred(), j);
            assert(false);
        }
    }
}

/// A malformed kill line — one that carries the kill marker but whose
/// fields cannot be extracted — changes nothing at all: no counter, no
/// table, no state.
pub proof fn lemma_malformed_kill_changes_nothing(st: AggModel, line: Seq<char>)
    requires
        classify(line) == LineKind::Kill,
        kill_fields(line) is None,
    ensures
        step(st, line) == st,
{
}

/// No parsed report names the environment or the invalid sentinel in
/// any match's player list or kill table.
pub proof fn lemma_report_has_no_sentinels(content: Seq<char>)
    ensures
        forall|i: int|
            0 <= i < spec_parse_log(content).games.len() ==> !(#[trigger] spec_parse_log(
                content,
            ).games[i].1.players.contains(world_name())) && !spec_parse_log(
                content,
            ).games[i].1.players.contains(crate::events::sentinel_t()),
        forall|i: int|
            0 <= i < spec_parse_log(content).games.len() ==> !assoc_has(
                #[trigger] spec_parse_log(content).games[i].1.kills,
                world_name(),
            ) && !assoc_has(spec_parse_log(content).games[i].1.kills, crate::events::sentinel_t()),
{
    let st = run_from(init_state(), spec_lines(content));
    let sealed = if st.in_game {
        st.games.push((game_id_seq(st.counter), st.current))
    } else {
        st.games
    };
    assert(spec_parse_log(content).games == cleanup_map(sealed));
    lemma_cleanup_removes_sentinels(sealed, world_name());
    lemma_cleanup_removes_sentinels(sealed, crate::events::sentinel_t());
}

/// A match-start line that arrives while a match is open first seals
/// the open match, under the next sequential identifier, and then
/// opens a fresh one: no statistics are lost.
pub proof fn lemma_start_seals_open_match(st: AggModel, line: Seq<char>)
    requires
        classify(line) == LineKind::MatchStart,
        st.in_game,
    ensures
        step(st, line).games == st.games.push((game_id_seq(st.counter), st.current)),
        step(st, line).counter == st.counter + 1,
        step(st, line).in_game,
        step(st, line).current == empty_game(),
        step(st, line).totals == st.totals,
{
}

/// End of input while a match is open seals it as the final report
/// entry: the parsed report holds one more match than the scan sealed,
/// and its last entry is the open match, cleaned of sentinels.
pub proof fn lemma_end_of_input_seals_open_match(content: Seq<char>)
    requires
        run_from(init_state(), spec_lines(content)).in_game,
    ensures
        spec_parse_log(content).games.len() == run_from(
            init_state(),
            spec_lines(content),
        ).games.len() + 1,
        spec_parse_log(content).games.last() == (
            game_id_seq(run_from(init_state(), spec_lines(content)).counter),
            cleanup_game(run_from(init_state(), spec_lines(content)).current),
        ),
{
    let st = run_from(init_state(), spec_lines(content));
    let sealed = st.games.push((game_id_seq(st.counter), st.current));
    assert(spec_parse_log(content).games == cleanup_map(sealed));
    assert(cleanup_map(sealed).len() == sealed.len());
    assert(cleanup_map(sealed).last() == (sealed.last().0, cleanup_game(sealed.last().1)));
}

/// The sum of the counts stored under `p` from position `i` on.
pub open spec fn sum_entries(m: Seq<(Seq<char>, int)>, i: int, p: Seq<char>) -> int
    decreases m.len() - i when 0 <= i <= m.len()
{
    if i >= m.len() {
        0
    } else {
        (if m[i].0 == p {
            m[i].1
        } else {
            0int
        }) + sum_entries(m, i + 1, p)
    }
}

/// Where `p` never appears, its sum is zero.
pub proof fn lemma_sum_entries_zero(m: Seq<(Seq<char>, int)>, i: int, p: Seq<char>)
    requires
        0 <= i <= m.len(),
        forall|j: int| i <= j < m.len() ==> m[j].0 != p,
    ensures
        sum_entries(m, i, p) == 0,
    decreases m.len() - i,
{
    if i < m.len() {
        lemma_sum_entries_zero(m, i + 1, p);
    }
}

/// In a table with distinct keys, the sum under `p` over the tail from
/// `i` is exactly the lookup in that tail.
pub proof fn lemma_sum_entries_get(m: Seq<(Seq<char>, int)>, i: int, p: Seq<char>)
    requires
        crate::table::distinct_keys(m),
        0 <= i <= m.len(),
    ensures
        sum_entries(m, i, p) == assoc_get(m.skip(i), p),
    decreases m.len() - i,
{
    if i >= m.len() {
        assert(m.skip(i) =~= Seq::<(Seq<char>, int)>::empty());
        assert(assoc_get(m.skip(i), p) == 0);
    } else {
        assert(m.skip(i)[0] == m[i]);
        assert(m.skip(i).drop_first() =~= m.skip(i + 1));
        if m[i].0 == p {
            assert(forall|j: int| i + 1 <= j < m.len() ==> m[j].0 != p);
            lemma_sum_entries_zero(m, i + 1, p);
            assert(assoc_get(m.skip(i), p) == m[i].1);
        } else {
            lemma_sum_entries_get(m, i + 1, p);
            assert(assoc_get(m.skip(i), p) == assoc_get(m.skip(i + 1), p));
        }
    }
}

/// Folding a table's entries into the global tally adds, under each
/// key, exactly the sum of that key's counts; presence carries over.
pub proof fn lemma_merge_get(
    acc: Seq<(Seq<char>, int)>,
    m: Seq<(Seq<char>, int)>,
    i: int,
    p: Seq<char>,
)
    requires
        0 <= i <= m.len(),
    ensures
        assoc_get(crate::report::merge_into(acc, m, i), p) == assoc_get(acc, p) + sum_entries(
            m,
            i,
            p,
        ),
        assoc_has(crate::report::merge_into(acc, m, i), p) == (assoc_has(acc, p) || exists|j: int|
            i <= j < m.len() && m[j].0 == p),
        crate::table::distinct_keys(acc) ==> crate::table::distinct_keys(
            crate::report::merge_into(acc, m, i),
        ),
    decreases m.len() - i,
{
    if i >= m.len() {
    } else {
        let acc1 = crate::table::assoc_add(acc, m[i].0, m[i].1);
        lemma_assoc_add_get(acc, m[i].0, m[i].1, p);
        if crate::table::distinct_keys(acc) {
            crate::table::lemma_assoc_add_distinct(acc, m[i].0, m[i].1);
        }
        lemma_merge_get(acc1, m, i + 1, p);
        if assoc_has(crate::report::merge_into(acc, m, i), p) {
            if !assoc_has(acc, p) {
                if assoc_has(acc1, p) {
                    assert(m[i].0 == p);
                } else {
                    let j = choose|j: int| i + 1 <= j < m.len() && m[j].0 == p;
                    assert(i <= j < m.len() && m[j].0 == p);
                }
            }
        }
        if assoc_has(acc, p) || exists|j: int| i <= j < m.len() && m[j].0 == p {
            if !assoc_has(acc1, p) {
                let j = choose|j: int| i <= j < m.len() && m[j].0 == p;
                assert(j != i);
                assert(i + 1 <= j < m.len() && m[j].0 == p);
            }
        }
    }
}

/// One player's kill delta summed over the matches from `i` on.
pub open spec fn sum_kills_from(games: Seq<(Seq<char>, GameModel)>, i: int, p: Seq<char>) -> int
    decreases games.len() - i when 0 <= i <= games.len()
{
    if i >= games.len() {
        0
    } else {
        assoc_get(games[i].1.kills, p) + sum_kills_from(games, i + 1, p)
    }
}

/// One player's kill delta summed over all matches; a match without an
/// entry for the player contributes zero.
pub open spec fn sum_kills(games: Seq<(Seq<char>, GameModel)>, p: Seq<char>) -> int {
    sum_kills_from(games, 0, p)
}

/// The global tally holds, under each player, the sum of that player's
/// kill deltas across all matches, and holds exactly the players that
/// appear in some match's kill table.
pub proof fn lemma_rank_base_get(
    games: Seq<(Seq<char>, GameModel)>,
    i: int,
    acc: Seq<(Seq<char>, int)>,
    p: Seq<char>,
)
    requires
        0 <= i <= games.len(),
        forall|x: int| 0 <= x < games.len() ==> crate::table::distinct_keys(
            #[trigger] games[x].1.kills,
        ),
        crate::table::distinct_keys(acc),
    ensures
        assoc_get(crate::report::rank_base_from(games, i, acc), p) == assoc_get(acc, p)
            + sum_kills_from(games, i, p),
        assoc_has(crate::report::rank_base_from(games, i, acc), p) == (assoc_has(acc, p)
            || exists|x: int| i <= x < games.len() && assoc_has(#[trigger] games[x].1.kills, p)),
        crate::table::distinct_keys(crate::report::rank_base_from(games, i, acc)),
    decreases games.len() - i,
{
    if i >= games.len() {
    } else {
        let mk = games[i].1.kills;
        let acc1 = crate::report::merge_into(acc, mk, 0);
        lemma_merge_get(acc, mk, 0, p);
        lemma_sum_entries_get(mk, 0, p);
        assert(mk.skip(0) =~= mk);
        lemma_assoc_has_exists(mk, p);
        lemma_rank_base_get(games, i + 1, acc1, p);
        if assoc_has(crate::report::rank_base_from(games, i, acc), p) {
            if !assoc_has(acc, p) {
                if assoc_has(acc1, p) {
                    assert(assoc_has(games[i].1.kills, p));
                } else {
                    let x = choose|x: int|
                        i + 1 <= x < games.len() && assoc_has(#[trigger] games[x].1.kills, p);
                    assert(i <= x < games.len() && assoc_has(games[x].1.kills, p));
                }
            }
        }
        if assoc_has(acc, p) || exists|x: int|
            i <= x < games.len() && assoc_has(#[trigger] games[x].1.kills, p) {
            if !assoc_has(acc1, p) {
                let x = choose|x: int|
                    i <= x < games.len() && assoc_has(#[trigger] games[x].1.kills, p);
                assert(x != i);
                assert(i + 1 <= x < games.len() && assoc_has(games[x].1.kills, p));
            }
        }
    }
}

/// The entries are ordered by count, largest first.
pub open spec fn sorted_desc(s: Seq<(Seq<char>, int)>) -> bool {
    forall|a: int, b: int| 0 <= a <= b < s.len() ==> s[a].1 >= s[b].1
}

/// An insertion adds exactly the new entry, and keeps the order.
pub proof fn lemma_insert_desc_props(s: Seq<(Seq<char>, int)>, x: (Seq<char>, int))
    ensures
        crate::report::insert_desc(s, x).len() == s.len() + 1,
        forall|y: (Seq<char>, int)|
            #[trigger] crate::report::insert_desc(s, x).contains(y) <==> (s.contains(y) || y
                == x),
        sorted_desc(s) ==> sorted_desc(crate::report::insert_desc(s, x)),
    decreases s.len(),
{
    let r = crate::report::insert_desc(s, x);
    if s.len() == 0 {
        assert forall|y: (Seq<char>, int)| #[trigger] r.contains(y) implies (s.contains(y) || y
            == x) by {
            let k = choose|k: int| 0 <= k < r.len() && r[k] == y;
            assert(r[0] == x);
        }
        assert(r.contains(x)) by {
            assert(r[0] == x);
        }
    } else if s[0].1 >= x.1 {
        lemma_insert_desc_props(s.drop_first(), x);
        let rd = crate::report::insert_desc(s.drop_first(), x);
        assert(r == seq![s[0]] + rd);
        assert forall|y: (Seq<char>, int)| #[trigger] r.contains(y) implies (s.contains(y) || y
            == x) by {
            let k = choose|k: int| 0 <= k < r.len() && r[k] == y;
            if k == 0 {
                assert(s[0] == y);
            } else {
                assert(rd[k - 1] == y);
                assert(rd.contains(y));
                if s.drop_first().contains(y) {
                    let k2 = choose|k2: int|
                        0 <= k2 < s.drop_first().len() && s.drop_first()[k2] == y;
                    assert(s[k2 + 1] == y);
                }
            }
        }
        assert forall|y: (Seq<char>, int)| s.contains(y) || y == x implies #[trigger] r.contains(
            y,
        ) by {
            if s.contains(y) {
                let k = choose|k: int| 0 <= k < s.len() && s[k] == y;
                if k == 0 {
                    assert(r[0] == y);
                } else {
                    assert(s.drop_first()[k - 1] == y);
                    assert(s.drop_first().contains(y));
                    assert(rd.contains(y));
                    let k2 = choose|k2: int| 0 <= k2 < rd.len() && rd[k2] == y;
                    assert(r[k2 + 1] == y);
                }
            } else {
                assert(rd.contains(x));
                let k2 = choose|k2: int| 0 <= k2 < rd.len() && rd[k2] == x;
                assert(r[k2 + 1] == x);
            }
        }
        if sorted_desc(s) {
            assert(forall|a: int, b: int|
                0 <= a <= b < s.drop_first().len() ==> s.drop_first()[a].1 >= s.drop_first()[b].1);
            assert(sorted_desc(rd));
            assert forall|a: int, b: int| 0 <= a <= b < r.len() implies r[a].1 >= r[b].1 by {
                if a == 0 && b > 0 {
                    let y = rd[b - 1];
                    assert(rd.contains(y));
                    if s.drop_first().contains(y) {
                        let k2 = choose|k2: int|
                            0 <= k2 < s.drop_first().len() && s.drop_first()[k2] == y;
                        assert(s[0].1 >= s[k2 + 1].1);
                    }
                } else if a > 0 {
                    assert(r[a] == rd[a - 1] && r[b] == rd[b - 1]);
                }
            }
        }
    } else {
        assert(r == seq![x] + s);
        assert forall|y: (Seq<char>, int)| #[trigger] r.contains(y) implies (s.contains(y) || y
            == x) by {
            let k = choose|k: int| 0 <= k < r.len() && r[k] == y;
            if k > 0 {
                assert(s[k - 1] == y);
            }
        }
        assert forall|y: (Seq<char>, int)| s.contains(y) || y == x implies #[trigger] r.contains(
            y,
        ) by {
            if s.contains(y) {
                let k = choose|k: int| 0 <= k < s.len() && s[k] == y;
                assert(r[k + 1] == y);
            } else {
                assert(r[0] == x);
            }
        }
        if sorted_desc(s) {
            assert forall|a: int, b: int| 0 <= a <= b < r.len() implies r[a].1 >= r[b].1 by {
                if a == 0 && b > 0 {
                    assert(x.1 > s[0].1 && s[0].1 >= s[b - 1].1);
                } else if a > 0 {
                    assert(r[a] == s[a - 1] && r[b] == s[b - 1]);
                }
            }
        }
    }
}

/// Insertion-sorting the entries from `i` on yields an ordered
/// sequence holding exactly the accumulator's entries and those of the
/// tail.
pub proof fn lemma_sort_desc_props(
    m: Seq<(Seq<char>, int)>,
    i: int,
    acc: Seq<(Seq<char>, int)>,
)
    requires
        0 <= i <= m.len(),
        sorted_desc(acc),
    ensures
        sorted_desc(crate::report::sort_desc_from(m, i, acc)),
        crate::report::sort_desc_from(m, i, acc).len() == acc.len() + (m.len() - i),
        forall|y: (Seq<char>, int)|
            #[trigger] crate::report::sort_desc_from(m, i, acc).contains(y) <==> (acc.contains(y)
                || exists|j: int| i <= j < m.len() && m[j] == y),
    decreases m.len() - i,
{
    if i >= m.len() {
    } else {
        let acc1 = crate::report::insert_desc(acc, m[i]);
        lemma_insert_desc_props(acc, m[i]);
        lemma_sort_desc_props(m, i + 1, acc1);
        let r = crate::report::sort_desc_from(m, i, acc);
        assert forall|y: (Seq<char>, int)| #[trigger] r.contains(y) implies (acc.contains(y)
            || exists|j: int| i <= j < m.len() && m[j] == y) by {
            if !acc.contains(y) {
                if acc1.contains(y) {
                    assert(m[i] == y);
                } else {
                    let j = choose|j: int| i + 1 <= j < m.len() && m[j] == y;
                    assert(i <= j < m.len() && m[j] == y);
                }
            }
        }
        assert forall|y: (Seq<char>, int)| acc.contains(y) || exists|j: int|
            i <= j < m.len() && m[j] == y implies #[trigger] r.contains(y) by {
            if !acc1.contains(y) {
                let j = choose|j: int| i <= j < m.len() && m[j] == y;
                assert(j != i);
                assert(i + 1 <= j < m.len() && m[j] == y);
            }
        }
    }
}

/// The player ranking of a report: each entry's count is the sum of
/// that player's kill deltas across all matches; the entries are
/// sorted by that sum, largest first; and the ranked players are
/// exactly those appearing in some match's kill table. The matches'
/// kill tables are mappings: each keys a player at most once.
pub proof fn lemma_rankings_sum_and_sorted(games: Seq<(Seq<char>, GameModel)>)
    requires
        forall|x: int| 0 <= x < games.len() ==> crate::table::distinct_keys(
            #[trigger] games[x].1.kills,
        ),
    ensures
        forall|j: int|
            0 <= j < crate::report::sort_desc(crate::report::rank_base(games)).len()
                ==> (#[trigger] crate::report::sort_desc(crate::report::rank_base(games))[j]).1
                == sum_kills(
                games,
                crate::report::sort_desc(crate::report::rank_base(games))[j].0,
            ),
        sorted_desc(crate::report::sort_desc(crate::report::rank_base(games))),
        crate::report::sort_desc(crate::report::rank_base(games)).len()
            == crate::report::rank_base(games).len(),
        forall|p: Seq<char>|
            assoc_has(crate::report::rank_base(games), p) <==> exists|x: int|
                0 <= x < games.len() && assoc_has(#[trigger] games[x].1.kills, p),
{
    let rb = crate::report::rank_base(games);
    let empty_acc = Seq::<(Seq<char>, int)>::empty();
    assert(crate::table::distinct_keys(empty_acc));
    assert forall|p: Seq<char>| true implies assoc_get(rb, p) == sum_kills(games, p)
        && (assoc_has(rb, p) <==> exists|x: int|
        0 <= x < games.len() && assoc_has(#[trigger] games[x].1.kills, p)) by {
        lemma_rank_base_get(games, 0, empty_acc, p);
        assert(assoc_get(empty_acc, p) == 0);
        assert(!assoc_has(empty_acc, p));
    }
    lemma_rank_base_get(games, 0, empty_acc, world_name());
    assert(crate::table::distinct_keys(rb));
    assert(sorted_desc(empty_acc));
    lemma_sort_desc_props(rb, 0, empty_acc);
    let r = crate::report::sort_desc(rb);
    assert forall|j: int| 0 <= j < r.len() implies (#[trigger] r[j]).1 == sum_kills(
        games,
        r[j].0,
    ) by {
        assert(r.contains(r[j]));
        assert(!empty_acc.contains(r[j]));
        let k = choose|k: int| 0 <= k < rb.len() && rb[k] == r[j];
        crate::table::lemma_assoc_entry_get(rb, k);
    }
}

/// Every sealed match keys each player at most once in its kill table.
pub open spec fn all_kills_distinct(games: Seq<(Seq<char>, GameModel)>) -> bool {
    forall|i: int|
        0 <= i < games.len() ==> crate::table::distinct_keys(#[trigger] games[i].1.kills)
}

/// One aggregator step keeps every kill table free of duplicate keys.
pub proof fn lemma_step_keeps_distinct(st: AggModel, line: Seq<char>)
    requires
        all_kills_distinct(st.games),
        crate::table::distinct_keys(st.current.kills),
    ensures
        all_kills_distinct(step(st, line).games),
        crate::table::distinct_keys(step(st, line).current.kills),
{
    let st1 = step(st, line);
    let sealed = crate::report::spec_seal(st).games;
    assert(st1.games == st.games || st1.games == sealed);
    assert forall|i: int| 0 <= i < st1.games.len() implies crate::table::distinct_keys(
        #[trigger] st1.games[i].1.kills,
    ) by {
        if st1.games == sealed {
            if i < st.games.len() {
                assert(st1.games[i] == st.games[i]);
            } else {
                assert(st1.games[i].1 == st.current);
            }
        }
    }
    if classify(line) == LineKind::Kill && st.in_game && kill_fields(line) is Some {
        let f = kill_fields(line).unwrap();
        crate::table::lemma_assoc_add_distinct(st.current.kills, f.0, 1);
        crate::table::lemma_assoc_add_distinct(st.current.kills, f.1, -1);
    }
}

/// A whole scan keeps every kill table free of duplicate keys.
pub proof fn lemma_run_keeps_distinct(st: AggModel, lines: Seq<Seq<char>>)
    requires
        all_kills_distinct(st.games),
        crate::table::distinct_keys(st.current.kills),
    ensures
        all_kills_distinct(run_from(st, lines).games),
        crate::table::distinct_keys(run_from(st, lines).current.kills),
    decreases lines.len(),
{
    if lines.len() > 0 {
        lemma_step_keeps_distinct(st, lines[0]);
        lemma_run_keeps_distinct(step(st, lines[0]), lines.drop_first());
    }
}

/// Every match of a parsed report keys each player at most once in its
/// kill table: the tables are mappings.
pub proof fn lemma_parse_log_kill_tables_distinct(content: Seq<char>)
    ensures
        all_kills_distinct(spec_parse_log(content).games),
{
    lemma_run_keeps_distinct(init_state(), spec_lines(content));
    let st = run_from(init_state(), spec_lines(content));
    let sealed = if st.in_game {
        st.games.push((game_id_seq(st.counter), st.current))
    } else {
        st.games
    };
    assert forall|i: int| 0 <= i < sealed.len() implies crate::table::distinct_keys(
        #[trigger] sealed[i].1.kills,
    ) by {
        if i < st.games.len() {
            assert(sealed[i] == st.games[i]);
        } else {
            assert(sealed[i].1 == st.current);
        }
    }
    let cleaned = cleanup_map(sealed);
    assert forall|i: int| 0 <= i < cleaned.len() implies crate::table::distinct_keys(
        #[trigger] cleaned[i].1.kills,
    ) by {
        assert(cleaned[i].1 == cleanup_game(sealed[i].1));
        crate::table::lemma_filter_distinct(sealed[i].1.kills, crate::report::entry_pred());
    }
}

/// The ranking of every parsed report: each entry's count is the sum
/// of that player's kill deltas across the report's matches, the
/// entries are sorted by that sum, largest first, and the ranked
/// players are exactly those with an entry in some match's kill table.
pub proof fn lemma_report_rankings(content: Seq<char>)
    ensures
        forall|j: int|
            0 <= j < spec_parse_log(content).player_rankings.len() ==> (
            #[trigger] spec_parse_log(content).player_rankings[j]).1 == sum_kills(
                spec_parse_log(content).games,
                spec_parse_log(content).player_rankings[j].0,
            ),
        sorted_desc(spec_parse_log(content).player_rankings),
        forall|p: Seq<char>|
            assoc_has(crate::report::rank_base(spec_parse_log(content).games), p) <==> exists|x: int|
                0 <= x < spec_parse_log(content).games.len() && assoc_has(
                    #[trigger] spec_parse_log(content).games[x].1.kills,
                    p,
                ),
{
    lemma_parse_log_kill_tables_distinct(content);
    lemma_rankings_sum_and_sorted(spec_parse_log(content).games);
}

/// The parsed report is a pure function of the log text: equal
/// contents yield equal reports, so re-running the parser on an
/// unchanged source reproduces the report in every field.
pub proof fn lemma_parse_log_deterministic(c1: Seq<char>, c2: Seq<char>)
    requires
        c1 == c2,
    ensures
        spec_parse_log(c1) == spec_parse_log(c2),
{
}

} // verus!
