//! Line classification and event-field extraction for the log grammar.

use vstd::prelude::*;

use crate::text::contains_seq;
use crate::text::contains_str;
use crate::text::find_str;
use crate::text::join_from;
use crate::text::join_sp_from;
use crate::text::lemma_find_props;
use crate::text::spec_find;
use crate::text::split_seq;
use crate::text::split_str;
use crate::text::split_ws;
use crate::text::tokens;
use crate::text::trim_seq;
use crate::text::trim_str;
use crate::text::views;

verus! {

/// The marker that opens a match.
pub open spec fn marker_start() -> Seq<char> {
    seq!['I', 'n', 'i', 't', 'G', 'a', 'm', 'e']
}

/// The marker that closes a match.
pub open spec fn marker_end() -> Seq<char> {
    seq!['S', 'h', 'u', 't', 'd', 'o', 'w', 'n', 'G', 'a', 'm', 'e']
}

/// The marker of a kill event.
pub open spec fn marker_kill() -> Seq<char> {
    seq!['K', 'i', 'l', 'l', ':']
}

/// The marker of a player-identity update.
pub open spec fn marker_ident() -> Seq<char> {
    seq![
        'C',
        'l',
        'i',
        'e',
        'n',
        't',
        'U',
        's',
        'e',
        'r',
        'i',
        'n',
        'f',
        'o',
        'C',
        'h',
        'a',
        'n',
        'g',
        'e',
        'd',
        ':',
    ]
}

/// The separator between killer and victim in a kill payload.
pub open spec fn sep_killed() -> Seq<char> {
    seq![' ', 'k', 'i', 'l', 'l', 'e', 'd', ' ']
}

/// The separator between victim and cause of death in a kill payload.
pub open spec fn sep_by() -> Seq<char> {
    seq![' ', 'b', 'y', ' ']
}

/// The environmental killer sentinel.
pub open spec fn world_name() -> Seq<char> {
    seq!['<', 'w', 'o', 'r', 'l', 'd', '>']
}

/// The invalid-name sentinel removed from sealed matches.
pub open spec fn sentinel_t() -> Seq<char> {
    seq!['t']
}

/// The kinds of event a log line can carry.
#[derive(Clone, Copy, PartialEq, Eq, Debug)]
pub enum LineKind {
    MatchStart,
    MatchEnd,
    Kill,
    Identity,
    Other,
}

/// The event kind of one line, decided by marker containment in
/// priority order: match start, match end, kill, identity update.
pub open spec fn classify(line: Seq<char>) -> LineKind {
    if contains_seq(line, marker_start()) {
        LineKind::MatchStart
    } else if contains_seq(line, marker_end()) {
        LineKind::MatchEnd
    } else if contains_seq(line, marker_kill()) {
        LineKind::Kill
    } else if contains_seq(line, marker_ident()) {
        LineKind::Identity
    } else {
        LineKind::Other
    }
}

/// Classifies one line of the log.
pub fn classify_line(line: &str) -> (r: LineKind)
    ensures
        r == classify(line@),
{
    proof {
        reveal_strlit("InitGame");
        reveal_strlit("ShutdownGame");
        reveal_strlit("Kill:");
        reveal_strlit("ClientUserinfoChanged:");
        assert("InitGame"@ =~= marker_start());
        assert("ShutdownGame"@ =~= marker_end());
        assert("Kill:"@ =~= marker_kill());
        assert("ClientUserinfoChanged:"@ =~= marker_ident());
    }
    if contains_str(line, "InitGame") {
        LineKind::MatchStart
    } else if contains_str(line, "ShutdownGame") {
        LineKind::MatchEnd
    } else if contains_str(line, "Kill:") {
        LineKind::Kill
    } else if contains_str(line, "ClientUserinfoChanged:") {
        LineKind::Identity
    } else {
        LineKind::Other
    }
}

/// A raw name token, trimmed; if it holds a colon, the substring after
/// the first colon, trimmed again.
pub open spec fn clean_name(s: Seq<char>) -> Seq<char> {
    let t = trim_seq(s);
    match spec_find(t, seq![':'], 0) {
        Some(i) => trim_seq(t.subrange(i + 1, t.len() as int)),
        None => t,
    }
}

/// Normalizes a raw player-name token: strips surrounding whitespace
/// and an optional prefix ending at the first colon.
pub fn clean_player_name(name: &str) -> (r: String)
    ensures
        r@ == clean_name(name@),
{
    let t = trim_str(name);
    proof {
        reveal_strlit(":");
        assert(":"@ =~= seq![':']);
        lemma_find_props(t@, seq![':'], 0);
    }
    let tl = t.as_str().unicode_len();
    match find_str(t.as_str(), ":") {
        Some(i) => {
            let sub = t.as_str().substring_char(i + 1, tl);
            trim_str(sub)
        },
        None => t,
    }
}

/// The fields of a kill line: normalized killer name, normalized victim
/// name, and the raw cause-of-death token; `None` when the line is
/// malformed.
pub open spec fn kill_fields(line: Seq<char>) -> Option<(Seq<char>, Seq<char>, Seq<char>)> {
    let parts = tokens(line);
    if parts.len() < 6 {
        None
    } else {
        let payload = join_sp_from(parts, 5);
        let kparts = split_seq(payload, sep_killed());
        if kparts.len() < 2 {
            None
        } else {
            let dparts = split_seq(kparts[1], sep_by());
            if dparts.len() < 2 {
                None
            } else {
                Some((clean_name(kparts[0]), clean_name(dparts[0]), dparts[1]))
            }
        }
    }
}

/// Extracts the fields of a kill line, or reports it malformed.
pub fn extract_kill(line: &str) -> (r: Option<(String, String, String)>)
    ensures
        match r {
            Some(f) => kill_fields(line@) == Some((f.0@, f.1@, f.2@)),
            None => kill_fields(line@) is None,
        },
{
    proof {
        reveal_strlit(" killed ");
        reveal_strlit(" by ");
        assert(" killed "@ =~= sep_killed());
        assert(" by "@ =~= sep_by());
    }
    let parts = split_ws(line);
    if parts.len() < 6 {
        return None;
    }
    let payload = join_from(&parts, 5);
    let kparts = split_str(payload.as_str(), " killed ");
    if kparts.len() < 2 {
        return None;
    }
    proof {
        assert(views(kparts@)[0] == kparts@[0]@);
        assert(views(kparts@)[1] == kparts@[1]@);
    }
    let killer = clean_player_name(kparts[0].as_str());
    let dparts = split_str(kparts[1].as_str(), " by ");
    if dparts.len() < 2 {
        return None;
    }
    proof {
        assert(views(dparts@)[0] == dparts@[0]@);
        assert(views(dparts@)[1] == dparts@[1]@);
    }
    let killed = clean_player_name(dparts[0].as_str());
    let means = dparts[1].clone();
    Some((killer, killed, means))
}

/// The normalized player name of an identity-update line, or `None`
/// when the line is malformed.
pub open spec fn ident_name(line: Seq<char>) -> Option<Seq<char>> {
    let parts = split_seq(line, seq![' ']);
    if parts.len() < 6 {
        None
    } else {
        let payload = join_sp_from(parts, 5);
        let bparts = split_seq(payload, seq!['\\']);
        if bparts.len() < 2 {
            None
        } else {
            Some(clean_name(bparts[1]))
        }
    }
}

/// Extracts the player name of an identity-update line, or reports it
/// malformed.
pub fn extract_ident(line: &str) -> (r: Option<String>)
    ensures
        match r {
            Some(n) => ident_name(line@) == Some(n@),
            None => ident_name(line@) is None,
        },
{
    proof {
        reveal_strlit(" ");
        reveal_strlit("\\");
        assert(" "@ =~= seq![' ']);
        assert("\\"@ =~= seq!['\\']);
    }
    let parts = split_str(line, " ");
    if parts.len() < 6 {
        return None;
    }
    let payload = join_from(&parts, 5);
    let bparts = split_str(payload.as_str(), "\\");
    if bparts.len() < 2 {
        return None;
    }
    proof {
        assert(views(bparts@)[1] == bparts@[1]@);
    }
    Some(clean_player_name(bparts[1].as_str()))
}

/// A line that carries a kill event with well-formed fields.
pub open spec fn is_valid_kill_line(line: Seq<char>) -> bool {
    classify(line) == LineKind::Kill && kill_fields(line) is Some
}

} // verus!
