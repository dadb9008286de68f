//! Verified text primitives: substring search, splitting, trimming,
//! whitespace tokenization, joining, and decimal rendering.

use vstd::prelude::*;

verus! {

/// Characters the log grammar treats as whitespace: the Unicode
/// White_Space set, as `char::is_whitespace` decides it.
pub open spec fn is_space_char(c: char) -> bool {
    let v = c as u32;
    ||| 0x09 <= v && v <= 0x0D
    ||| v == 0x20
    ||| v == 0x85
    ||| v == 0xA0
    ||| v == 0x1680
    ||| 0x2000 <= v && v <= 0x200A
    ||| v == 0x2028
    ||| v == 0x2029
    ||| v == 0x202F
    ||| v == 0x205F
    ||| v == 0x3000
}

/// `pat` occurs in `s` starting at position `i`.
pub open spec fn matches_at(s: Seq<char>, i: int, pat: Seq<char>) -> bool {
    0 <= i && i + pat.len() <= s.len() && s.subrange(i, i + pat.len()) == pat
}

/// `pat` occurs somewhere in `s`.
pub open spec fn contains_seq(s: Seq<char>, pat: Seq<char>) -> bool {
    exists|i: int| matches_at(s, i, pat)
}

/// Position of the first occurrence of `pat` at or after `i`, if any.
pub open spec fn spec_find(s: Seq<char>, pat: Seq<char>, i: int) -> Option<int>
    decreases s.len() - i when 0 <= i
{
    if i + pat.len() > s.len() {
        None
    } else if pat.len() == 0 {
        Some(i)
    } else if matches_at(s, i, pat) {
        Some(i)
    } else {
        spec_find(s, pat, i + 1)
    }
}

/// `spec_find` returns the first match at or after `i`, or reports that none exists.
pub proof fn lemma_find_props(s: Seq<char>, pat: Seq<char>, i: int)
    requires
        0 <= i,
    ensures
        match spec_find(s, pat, i) {
            Some(j) => i <= j && matches_at(s, j, pat) && (forall|k: int|
                i <= k < j ==> !matches_at(s, k, pat)),
            None => forall|k: int| k >= i ==> !matches_at(s, k, pat),
        },
    decreases s.len() - i,
{
    if i + pat.len() > s.len() {
        assert forall|k: int| k >= i implies !matches_at(s, k, pat) by {
            assert(k + pat.len() > s.len());
        }
    } else if pat.len() == 0 {
        assert(s.subrange(i, i) =~= pat);
        assert(matches_at(s, i, pat));
    } else if matches_at(s, i, pat) {
    } else {
        lemma_find_props(s, pat, i + 1);
    }
}

/// A find from the start decides containment.
pub proof fn lemma_find_contains(s: Seq<char>, pat: Seq<char>)
    ensures
        contains_seq(s, pat) <==> spec_find(s, pat, 0) is Some,
{
    lemma_find_props(s, pat, 0);
    if spec_find(s, pat, 0) is Some {
        assert(matches_at(s, spec_find(s, pat, 0).unwrap(), pat));
    } else {
        assert forall|k: int| !matches_at(s, k, pat) by {
            if k >= 0 {
                assert(!matches_at(s, k, pat));
            }
        }
    }
}

/// `pat` stands at position `i` of `s`, checked character by character.
pub fn str_matches_at(s: &str, i: usize, pat: &str) -> (r: bool)
    requires
        i + pat@.len() <= s@.len(),
    ensures
        r == matches_at(s@, i as int, pat@),
{
    let sl = s.unicode_len();
    let n = pat.unicode_len();
    let mut j: usize = 0;
    while j < n
        invariant
            j <= n,
            n == pat@.len(),
            sl == s@.len(),
            i + n <= sl,
            forall|k: int| 0 <= k < j ==> s@[i + k] == pat@[k],
        decreases n - j,
    {
        if s.get_char(i + j) != pat.get_char(j) {
            proof {
                if matches_at(s@, i as int, pat@) {
                    assert(s@.subrange(i as int, i + pat@.len())[j as int] == s@[i + j]);
                }
            }
            return false;
        }
        j += 1;
    }
    proof {
        assert(s@.subrange(i as int, i + pat@.len()) =~= pat@);
    }
    true
}

/// First occurrence of `pat` in `s`, scanning left to right.
pub fn find_str(s: &str, pat: &str) -> (r: Option<usize>)
    ensures
        spec_find(s@, pat@, 0) is Some ==> r == Some(spec_find(s@, pat@, 0).unwrap() as usize),
        spec_find(s@, pat@, 0) is None ==> r is None,
{
    let sl = s.unicode_len();
    let pl = pat.unicode_len();
    if pl > sl {
        return None;
    }
    if pl == 0 {
        proof {
            assert(s@.subrange(0, 0) =~= pat@);
        }
        return Some(0);
    }
    let mut i: usize = 0;
    while i <= sl - pl
        invariant
            1 <= pl <= sl,
            i <= sl - pl + 1,
            pl == pat@.len(),
            sl == s@.len(),
            spec_find(s@, pat@, 0) == spec_find(s@, pat@, i as int),
        decreases sl - i,
    {
        if str_matches_at(s, i, pat) {
            return Some(i);
        }
        i += 1;
    }
    None
}

/// `s` holds `pat` somewhere.
pub fn contains_str(s: &str, pat: &str) -> (r: bool)
    ensures
        r == contains_seq(s@, pat@),
{
    proof {
        lemma_find_contains(s@, pat@);
    }
    let f = find_str(s, pat);
    f.is_some()
}

/// First index at or after `i` holding a non-space character, or the length.
pub open spec fn trim_start_idx(s: Seq<char>, i: int) -> int
    decreases s.len() - i when 0 <= i <= s.len()
{
    if i >= s.len() {
        i
    } else if is_space_char(s[i]) {
        trim_start_idx(s, i + 1)
    } else {
        i
    }
}

/// Index just past the last non-space character at or before `j`, or zero.
pub open spec fn trim_end_idx(s: Seq<char>, j: int) -> int
    decreases j when 0 <= j <= s.len()
{
    if j <= 0 {
        0
    } else if is_space_char(s[j - 1]) {
        trim_end_idx(s, j - 1)
    } else {
        j
    }
}

/// `s` with leading and trailing whitespace removed.
pub open spec fn trim_seq(s: Seq<char>) -> Seq<char> {
    let a = trim_start_idx(s, 0);
    let b = trim_end_idx(s, s.len() as int);
    if a <= b {
        s.subrange(a, b)
    } else {
        Seq::empty()
    }
}

/// The character at position `i` of `s` is whitespace.
pub fn space_at(s: &str, i: usize) -> (r: bool)
    requires
        i < s@.len(),
    ensures
        r == is_space_char(s@[i as int]),
{
    let c = s.get_char(i);
    let v = c as u32;
    (0x09 <= v && v <= 0x0D) || v == 0x20 || v == 0x85 || v == 0xA0 || v == 0x1680 || (0x2000 <= v
        && v <= 0x200A) || v == 0x2028 || v == 0x2029 || v == 0x202F || v == 0x205F || v == 0x3000
}

/// `s` trimmed of whitespace on both ends, as a fresh string.
pub fn trim_str(s: &str) -> (r: String)
    ensures
        r@ == trim_seq(s@),
{
    let sl = s.unicode_len();
    let mut a: usize = 0;
    while a < sl && space_at(s, a)
        invariant
            a <= sl,
            sl == s@.len(),
            trim_start_idx(s@, 0) == trim_start_idx(s@, a as int),
        decreases sl - a,
    {
        a += 1;
    }
    assert(trim_start_idx(s@, 0) == a as int);
    let mut b: usize = sl;
    while b > 0 && space_at(s, b - 1)
        invariant
            b <= sl,
            sl == s@.len(),
            trim_end_idx(s@, sl as int) == trim_end_idx(s@, b as int),
        decreases b,
    {
        b -= 1;
    }
    assert(trim_end_idx(s@, sl as int) == b as int);
    if a <= b {
        let sub = s.substring_char(a, b);
        sub.to_owned()
    } else {
        String::new()
    }
}

/// Maximal runs of non-whitespace characters of `s` from position `i` on,
/// with `cur` the token read so far.
pub open spec fn tokens_from(s: Seq<char>, i: int, cur: Seq<char>) -> Seq<Seq<char>>
    decreases s.len() - i when 0 <= i <= s.len()
{
    if i >= s.len() {
        if cur.len() > 0 {
            seq![cur]
        } else {
            Seq::empty()
        }
    } else if is_space_char(s[i]) {
        if cur.len() > 0 {
            seq![cur] + tokens_from(s, i + 1, Seq::empty())
        } else {
            tokens_from(s, i + 1, Seq::empty())
        }
    } else {
        tokens_from(s, i + 1, cur.push(s[i]))
    }
}

/// The whitespace-separated tokens of `s`.
pub open spec fn tokens(s: Seq<char>) -> Seq<Seq<char>> {
    tokens_from(s, 0, Seq::empty())
}

/// The views of a sequence of strings.
pub open spec fn views(parts: Seq<String>) -> Seq<Seq<char>> {
    parts.map_values(|p: String| p@)
}

/// Splits `s` into its whitespace-separated tokens.
pub fn split_ws(s: &str) -> (r: Vec<String>)
    ensures
        views(r@) == tokens(s@),
{
    let sl = s.unicode_len();
    let mut out: Vec<String> = Vec::new();
    let mut cur = String::new();
    let mut i: usize = 0;
    while i < sl
        invariant
            i <= sl,
            sl == s@.len(),
            tokens(s@) == views(out@) + tokens_from(s@, i as int, cur@),
        decreases sl - i,
    {
        let ghost out0 = out@;
        let ghost cur0 = cur@;
        if space_at(s, i) {
            if cur.unicode_len() > 0 {
                out.push(cur);
                cur = String::new();
                proof {
                    assert(cur@ =~= Seq::<char>::empty());
                    assert(tokens_from(s@, i as int, cur0) == seq![cur0] + tokens_from(
                        s@,
                        i + 1,
                        Seq::empty(),
                    ));
                    assert(views(out@) =~= views(out0).push(cur0));
                    assert(views(out@) + tokens_from(s@, i + 1, cur@) =~= views(out0) + (seq![
                        cur0,
                    ] + tokens_from(s@, i + 1, Seq::empty())));
                }
            } else {
                proof {
                    assert(cur0 =~= Seq::<char>::empty());
                    assert(tokens_from(s@, i as int, cur0) == tokens_from(s@, i + 1, cur0));
                }
            }
        } else {
            let piece = s.substring_char(i, i + 1);
            proof {
                assert(piece@ =~= seq![s@[i as int]]);
            }
            cur.append(piece);
            proof {
                assert(cur@ =~= cur0.push(s@[i as int]));
            }
        }
        i += 1;
    }
    let ghost out0 = out@;
    let ghost cur0 = cur@;
    if cur.unicode_len() > 0 {
        out.push(cur);
        proof {
            assert(views(out@) =~= views(out0).push(cur0));
        }
    }
    assert(tokens(s@) =~= views(out@));
    out
}

/// Parts of `s` between successive non-overlapping occurrences of `sep`,
/// scanning from position `i`, with `cur` the part read so far.
pub open spec fn split_from(s: Seq<char>, sep: Seq<char>, i: int, cur: Seq<char>) -> Seq<
    Seq<char>,
>
    decreases s.len() - i when 0 <= i <= s.len() && sep.len() > 0
{
    if i + sep.len() > s.len() {
        seq![cur + s.subrange(i, s.len() as int)]
    } else if matches_at(s, i, sep) {
        seq![cur] + split_from(s, sep, i + sep.len(), Seq::empty())
    } else {
        split_from(s, sep, i + 1, cur.push(s[i]))
    }
}

/// The parts of `s` separated by `sep`, as `str::split` yields them.
pub open spec fn split_seq(s: Seq<char>, sep: Seq<char>) -> Seq<Seq<char>>
    recommends
        sep.len() > 0,
{
    split_from(s, sep, 0, Seq::empty())
}

/// A split always yields at least one part.
pub proof fn lemma_split_len(s: Seq<char>, sep: Seq<char>, i: int, cur: Seq<char>)
    requires
        0 <= i <= s.len(),
        sep.len() > 0,
    ensures
        1 <= split_from(s, sep, i, cur).len() <= s.len() - i + 1,
    decreases s.len() - i,
{
    if i + sep.len() > s.len() {
    } else if matches_at(s, i, sep) {
        lemma_split_len(s, sep, i + sep.len(), Seq::empty());
    } else {
        lemma_split_len(s, sep, i + 1, cur.push(s[i]));
    }
}

/// Splits `s` on every occurrence of `sep`.
pub fn split_str(s: &str, sep: &str) -> (r: Vec<String>)
    requires
        sep@.len() > 0,
    ensures
        views(r@) == split_seq(s@, sep@),
        r@.len() >= 1,
{
    let sl = s.unicode_len();
    let pl = sep.unicode_len();
    let mut out: Vec<String> = Vec::new();
    let mut cur = String::new();
    let mut i: usize = 0;
    while pl <= sl && i <= sl - pl
        invariant
            i <= sl,
            sl == s@.len(),
            pl == sep@.len(),
            pl > 0,
            split_seq(s@, sep@) == views(out@) + split_from(s@, sep@, i as int, cur@),
        decreases sl - i,
    {
        let ghost out0 = out@;
        let ghost cur0 = cur@;
        if str_matches_at(s, i, sep) {
            out.push(cur);
            cur = String::new();
            proof {
                assert(views(out@) =~= views(out0).push(cur0));
                assert(views(out@) + split_from(s@, sep@, i + sep@.len(), cur@) =~= views(out0)
                    + (seq![cur0] + split_from(s@, sep@, i + sep@.len(), Seq::empty())));
            }
            i += pl;
        } else {
            let piece = s.substring_char(i, i + 1);
            proof {
                assert(piece@ =~= seq![s@[i as int]]);
            }
            cur.append(piece);
            proof {
                assert(cur@ =~= cur0.push(s@[i as int]));
            }
            i += 1;
        }
    }
    let ghost out0 = out@;
    let ghost cur0 = cur@;
    let tail = s.substring_char(i, sl);
    cur.append(tail);
    out.push(cur);
    proof {
        assert(views(out@) =~= views(out0).push(cur0 + s@.subrange(i as int, sl as int)));
        assert(views(out0) + split_from(s@, sep@, i as int, cur0) =~= views(out@));
        lemma_split_len(s@, sep@, 0, Seq::empty());
        assert(views(out@).len() == out@.len());
    }
    out
}

/// The parts from index `i` on, joined with single spaces.
pub open spec fn join_sp_from(parts: Seq<Seq<char>>, i: int) -> Seq<char>
    decreases parts.len() - i when 0 <= i
{
    if i >= parts.len() {
        Seq::empty()
    } else if i == parts.len() - 1 {
        parts[i]
    } else {
        parts[i] + seq![' '] + join_sp_from(parts, i + 1)
    }
}

/// Joins `parts[from..]` with single spaces.
pub fn join_from(parts: &Vec<String>, from: usize) -> (r: String)
    ensures
        r@ == join_sp_from(views(parts@), from as int),
{
    let n = parts.len();
    let mut out = String::new();
    if from >= n {
        return out;
    }
    let mut i: usize = n;
    while i > from
        invariant
            from <= i <= n,
            n == parts@.len(),
            out@ == join_sp_from(views(parts@), i as int),
        decreases i,
    {
        let ghost prev = out@;
        if i == n {
            out = parts[i - 1].clone();
            proof {
                assert(views(parts@)[i - 1] == parts@[i - 1]@);
            }
        } else {
            let mut piece = parts[i - 1].clone();
            piece.append(" ");
            piece.append(out.as_str());
            out = piece;
            proof {
                reveal_strlit(" ");
                assert(" "@ =~= seq![' ']);
                assert(views(parts@)[i - 1] == parts@[i - 1]@);
                assert(out@ =~= views(parts@)[i - 1] + seq![' '] + prev);
            }
        }
        i -= 1;
    }
    out
}

/// `s` with one trailing carriage return removed.
pub open spec fn strip_cr(s: Seq<char>) -> Seq<char> {
    if s.len() > 0 && s.last() == '\r' {
        s.drop_last()
    } else {
        s
    }
}

/// Every part stripped of a trailing carriage return.
pub open spec fn strip_all(parts: Seq<Seq<char>>) -> Seq<Seq<char>> {
    parts.map_values(|p: Seq<char>| strip_cr(p))
}

/// The lines of a text: the parts between newlines, each stripped of a
/// trailing carriage return, without a final empty part after a
/// trailing newline.
pub open spec fn spec_lines(content: Seq<char>) -> Seq<Seq<char>> {
    let parts = split_seq(content, seq!['\n']);
    let m = parts.len() as int;
    if parts[m - 1].len() == 0 {
        strip_all(parts.take(m - 1))
    } else {
        strip_all(parts.take(m - 1)).push(parts[m - 1])
    }
}

/// `s` with one trailing carriage return removed, as a fresh string.
pub fn strip_cr_str(s: &String) -> (r: String)
    ensures
        r@ == strip_cr(s@),
{
    let len = s.as_str().unicode_len();
    if len > 0 && s.as_str().get_char(len - 1) == '\r' {
        s.as_str().substring_char(0, len - 1).to_owned()
    } else {
        s.clone()
    }
}

/// Splits a text into its lines.
pub fn split_lines(content: &str) -> (r: Vec<String>)
    ensures
        views(r@) == spec_lines(content@),
        r@.len() <= content@.len() + 1,
{
    proof {
        reveal_strlit("\n");
        assert("\n"@ =~= seq!['\n']);
        lemma_split_len(content@, seq!['\n'], 0, Seq::empty());
    }
    let parts = split_str(content, "\n");
    let ghost pv = views(parts@);
    let ghost target = spec_lines(content@);
    let plen = parts.len();
    let last_is_empty = parts[plen - 1].as_str().unicode_len() == 0;
    proof {
        assert(pv[plen - 1] == parts@[plen - 1]@);
    }
    let n_keep = if last_is_empty {
        plen - 1
    } else {
        plen
    };
    proof {
        let mp = strip_all(pv.take(plen as int - 1));
        if last_is_empty {
            assert(target == mp);
            assert(target.len() == n_keep as int);
            assert forall|x: int| 0 <= x < n_keep as int implies target[x] == strip_cr(
                pv[x],
            ) by {
                assert(mp[x] == strip_cr(pv.take(plen as int - 1)[x]));
            }
        } else {
            assert(target == mp.push(pv[plen as int - 1]));
            assert(target.len() == n_keep as int);
            assert forall|x: int| 0 <= x < n_keep as int - 1 implies target[x] == strip_cr(
                pv[x],
            ) by {
                assert(target[x] == mp[x]);
                assert(mp[x] == strip_cr(pv.take(plen as int - 1)[x]));
            }
            assert(target[n_keep as int - 1] == pv[plen as int - 1]);
        }
    }
    let mut out: Vec<String> = Vec::new();
    let mut j: usize = 0;
    while j < n_keep
        invariant
            j <= n_keep,
            n_keep <= plen,
            plen == parts@.len(),
            pv == views(parts@),
            target == spec_lines(content@),
            target.len() == n_keep as int,
            last_is_empty ==> n_keep == plen - 1,
            !last_is_empty ==> n_keep == plen,
            forall|x: int| 0 <= x < n_keep - 1 ==> target[x] == strip_cr(pv[x]),
            last_is_empty ==> forall|x: int| 0 <= x < n_keep ==> target[x] == strip_cr(pv[x]),
            n_keep > 0 && !last_is_empty ==> target[n_keep - 1] == pv[n_keep as int - 1],
            views(out@) == target.take(j as int),
        decreases n_keep - j,
    {
        let ghost out0 = views(out@);
        if !last_is_empty && j == plen - 1 {
            out.push(parts[j].clone());
        } else {
            let st = strip_cr_str(&parts[j]);
            out.push(st);
        }
        proof {
            assert(pv[j as int] == parts@[j as int]@);
            assert(views(out@) =~= out0.push(out@.last()@));
            assert(views(out@) =~= target.take(j + 1));
        }
        j += 1;
    }
    proof {
        assert(views(out@) =~= target);
    }
    out
}

/// The decimal digit character for `d`.
pub open spec fn dec_digit(d: int) -> char {
    if d == 0 {
        '0'
    } else if d == 1 {
        '1'
    } else if d == 2 {
        '2'
    } else if d == 3 {
        '3'
    } else if d == 4 {
        '4'
    } else if d == 5 {
        '5'
    } else if d == 6 {
        '6'
    } else if d == 7 {
        '7'
    } else if d == 8 {
        '8'
    } else {
        '9'
    }
}

/// The decimal digits of `n`, most significant first.
pub open spec fn dec_seq(n: int) -> Seq<char>
    decreases n when n >= 0
{
    if n < 10 {
        seq![dec_digit(n)]
    } else {
        dec_seq(n / 10).push(dec_digit(n % 10))
    }
}

/// One decimal digit as a string literal.
pub fn digit_str(d: u32) -> (r: &'static str)
    requires
        d < 10,
    ensures
        r@ == seq![dec_digit(d as int)],
{
    proof {
        reveal_strlit("0");
        reveal_strlit("1");
        reveal_strlit("2");
        reveal_strlit("3");
        reveal_strlit("4");
        reveal_strlit("5");
        reveal_strlit("6");
        reveal_strlit("7");
        reveal_strlit("8");
        reveal_strlit("9");
    }
    let r = match d {
        0 => "0",
        1 => "1",
        2 => "2",
        3 => "3",
        4 => "4",
        5 => "5",
        6 => "6",
        7 => "7",
        8 => "8",
        _ => "9",
    };
    proof {
        assert(r@ =~= seq![dec_digit(d as int)]);
    }
    r
}

/// Appends the decimal rendering of `n` to `out`.
pub fn push_dec_digits(n: u32, out: &mut String)
    ensures
        final(out)@ == old(out)@ + dec_seq(n as int),
    decreases n,
{
    if n < 10 {
        let d = digit_str(n);
        out.append(d);
        assert(out@ =~= old(out)@ + dec_seq(n as int));
    } else {
        push_dec_digits(n / 10, out);
        let d = digit_str(n % 10);
        out.append(d);
        assert(out@ =~= old(out)@ + dec_seq(n as int));
    }
}


} // verus!
