use vstd::prelude::*;

use crate::pattern::{
    common_candidates, cross_join, first_index_of, gap_candidates, has_repeat, lemma_first_index_of,
    lowercase_words, views_of,
};
use crate::text::{chars_of, push_char, string_contains, string_find, string_of};

verus! {

/// A line's text with unset cells shown as dots.
pub open spec fn dotify(t: Seq<char>) -> Seq<char> {
    t.map_values(|c: char| if c == '\0' { '.' } else { c })
}

/// One column of a cell matrix, top to bottom.
pub open spec fn column_of(cells: Seq<Seq<char>>, c: int) -> Seq<char> {
    Seq::new(cells.len(), |r: int| cells[r][c])
}

/// How many times a character occurs in a text.
pub open spec fn count_char(t: Seq<char>, c: char) -> int
    decreases t.len(),
{
    if t.len() == 0 {
        0
    } else {
        count_char(t.drop_last(), c) + (if t.last() == c {
            1int
        } else {
            0int
        })
    }
}

pub proof fn lemma_count_char_bounds(t: Seq<char>, c: char)
    ensures
        0 <= count_char(t, c) <= t.len(),
    decreases t.len(),
{
    if t.len() > 0 {
        lemma_count_char_bounds(t.drop_last(), c);
    }
}

pub proof fn lemma_count_char_pair(t: Seq<char>, a: char, b: char)
    requires
        a != b,
    ensures
        count_char(t, a) + count_char(t, b) <= t.len(),
    decreases t.len(),
{
    if t.len() > 0 {
        lemma_count_char_pair(t.drop_last(), a, b);
    }
}

/// The pieces of a text split on `_`, in order; empty pieces are kept, as
/// string splitting keeps them.
pub open spec fn split_runs(t: Seq<char>) -> Seq<Seq<char>>
    decreases t.len(),
    via split_runs_decreases
{
    if !t.contains('_') {
        seq![t]
    } else {
        let i = first_index_of(t, '_');
        seq![t.take(i)] + split_runs(t.skip(i + 1))
    }
}

#[via_fn]
proof fn split_runs_decreases(t: Seq<char>) {
    if t.contains('_') {
        lemma_first_index_of(t, '_');
    }
}

/// Whether a run counts as a word for the duplicate check: longer than one
/// character and fully resolved.
pub open spec fn is_run_word(w: Seq<char>) -> bool {
    w.len() > 1 && !w.contains('\0')
}

/// The runs of a list that count as words, in order.
pub open spec fn keep_words(rs: Seq<Seq<char>>) -> Seq<Seq<char>>
    decreases rs.len(),
{
    if rs.len() == 0 {
        Seq::empty()
    } else {
        let rest = keep_words(rs.drop_last());
        if is_run_word(rs.last()) {
            rest.push(rs.last())
        } else {
            rest
        }
    }
}

/// The words a line's raw text contributes to the duplicate check.
pub open spec fn good_runs(t: Seq<char>) -> Seq<Seq<char>> {
    keep_words(split_runs(t))
}

/// Whether `a` is a prefix of `b`.
pub open spec fn is_prefix<T>(a: Seq<T>, b: Seq<T>) -> bool {
    a.len() <= b.len() && a == b.take(a.len() as int)
}

pub proof fn lemma_prefix_trans<T>(a: Seq<T>, b: Seq<T>, c: Seq<T>)
    requires
        is_prefix(a, b),
        is_prefix(b, c),
    ensures
        is_prefix(a, c),
{
    assert(a =~= c.take(a.len() as int)) by {
        assert(forall|i: int| 0 <= i < a.len() ==> a[i] == b.take(a.len() as int)[i]);
        assert(forall|i: int| 0 <= i < b.len() ==> b[i] == c.take(b.len() as int)[i]);
    }
}

pub proof fn lemma_prefix_refl<T>(a: Seq<T>)
    ensures
        is_prefix(a, a),
{
    assert(a.take(a.len() as int) =~= a);
}

pub proof fn lemma_prefix_extend<T>(a: Seq<T>, b: Seq<T>, c: Seq<T>)
    requires
        is_prefix(a, b),
    ensures
        is_prefix(a, b + c),
{
    assert(a =~= (b + c).take(a.len() as int)) by {
        assert(forall|i: int| 0 <= i < a.len() ==> a[i] == b.take(a.len() as int)[i]);
    }
}

pub proof fn lemma_prefix_concat_left<T>(a: Seq<T>, p: Seq<T>, c: Seq<T>)
    requires
        is_prefix(p, c),
    ensures
        is_prefix(a + p, a + c),
{
    assert((a + p) =~= (a + c).take((a + p).len() as int)) by {
        assert(forall|i: int| 0 <= i < p.len() ==> p[i] == c.take(p.len() as int)[i]);
    }
}

pub proof fn lemma_take_prefix<T>(s: Seq<T>, k: int)
    requires
        0 <= k <= s.len(),
    ensures
        is_prefix(s.take(k), s),
{
    assert(s.take(k) =~= s.take(s.take(k).len() as int));
}

pub proof fn lemma_prefix_has_repeat(a: Seq<Seq<char>>, b: Seq<Seq<char>>)
    requires
        is_prefix(a, b),
        has_repeat(a),
    ensures
        has_repeat(b),
{
    let (i, j) = choose|i: int, j: int|
        #![trigger a[i], a[j]]
        0 <= i < j < a.len() && a[i] == a[j];
    assert(b[i] == a[i] && b[j] == a[j]) by {
        assert(b.take(a.len() as int)[i] == b[i]);
        assert(b.take(a.len() as int)[j] == b[j]);
    }
}

pub proof fn lemma_push_no_repeat(a: Seq<Seq<char>>, x: Seq<char>)
    requires
        !has_repeat(a),
        !a.contains(x),
    ensures
        !has_repeat(a.push(x)),
{
    if has_repeat(a.push(x)) {
        let (i, j) = choose|i: int, j: int|
            #![trigger a.push(x)[i], a.push(x)[j]]
            0 <= i < j < a.push(x).len() && a.push(x)[i] == a.push(x)[j];
        if j < a.len() {
            assert(a[i] == a[j]);
        } else {
            assert(a[i] == x);
        }
    }
}

/// A text of blocked cells only splits into empty pieces.
pub proof fn lemma_split_runs_blocked(t: Seq<char>)
    requires
        forall|i: int| 0 <= i < t.len() ==> t[i] == '_',
    ensures
        forall|k: int|
            0 <= k < split_runs(t).len() ==> (#[trigger] split_runs(t)[k]).len() == 0,
    decreases t.len(),
{
    if !t.contains('_') {
        assert(t.len() == 0) by {
            if t.len() > 0 {
                assert(t[0] == '_');
            }
        }
        assert(split_runs(t)[0] == t);
    } else {
        lemma_first_index_of(t, '_');
        assert(first_index_of(t, '_') == 0);
        assert(forall|i: int| 0 <= i < t.skip(1).len() ==> #[trigger] t.skip(1)[i] == '_');
        lemma_split_runs_blocked(t.skip(1));
        assert(forall|k: int|
            0 <= k < split_runs(t).len() ==> split_runs(t)[k]
                == if k == 0 {
                    t.take(0)
                } else {
                    split_runs(t.skip(1))[k - 1]
                });
    }
}

/// A list without a single qualifying run contributes no word.
pub proof fn lemma_keep_words_none(rs: Seq<Seq<char>>)
    requires
        forall|k: int| 0 <= k < rs.len() ==> !is_run_word(#[trigger] rs[k]),
    ensures
        keep_words(rs).len() == 0,
    decreases rs.len(),
{
    if rs.len() > 0 {
        assert(forall|k: int|
            0 <= k < rs.drop_last().len() ==> rs.drop_last()[k] == #[trigger] rs[k]);
        lemma_keep_words_none(rs.drop_last());
        assert(!is_run_word(rs.last()));
    }
}

/// A line of blocked cells only contributes no word.
pub proof fn lemma_good_runs_blocked(t: Seq<char>)
    requires
        forall|i: int| 0 <= i < t.len() ==> t[i] == '_',
    ensures
        good_runs(t).len() == 0,
{
    lemma_split_runs_blocked(t);
    lemma_keep_words_none(split_runs(t));
}

/// The lines of a list that are not yet flagged resolved, in order.
pub open spec fn keep_unresolved<T>(s: Seq<T>, resolved: Seq<T>) -> Seq<T>
    decreases s.len(),
{
    if s.len() == 0 {
        Seq::empty()
    } else {
        let rest = keep_unresolved(s.drop_last(), resolved);
        if resolved.contains(s.last()) {
            rest
        } else {
            rest.push(s.last())
        }
    }
}

/// The unresolved lines are drawn from the full list.
pub proof fn lemma_keep_unresolved_sound<T>(s: Seq<T>, resolved: Seq<T>)
    ensures
        forall|k: int|
            0 <= k < keep_unresolved(s, resolved).len() ==> s.contains(
                #[trigger] keep_unresolved(s, resolved)[k],
            ) && !resolved.contains(keep_unresolved(s, resolved)[k]),
    decreases s.len(),
{
    if s.len() > 0 {
        lemma_keep_unresolved_sound(s.drop_last(), resolved);
        let rest = keep_unresolved(s.drop_last(), resolved);
        assert(forall|k: int|
            0 <= k < s.drop_last().len() ==> s.contains(#[trigger] s.drop_last()[k]));
        assert(s.contains(s.last()));
        assert forall|k: int| 0 <= k < keep_unresolved(s, resolved).len() implies s.contains(
            #[trigger] keep_unresolved(s, resolved)[k],
        ) && !resolved.contains(keep_unresolved(s, resolved)[k]) by {
            if !resolved.contains(s.last()) && k == rest.len() {
                assert(keep_unresolved(s, resolved)[k] == s.last());
            } else {
                assert(keep_unresolved(s, resolved)[k] == rest[k]);
            }
        }
    }
}

/// Flagging one more line never adds an unresolved line, and striking one
/// that was unresolved shortens the list.
pub proof fn lemma_keep_unresolved_push<T>(s: Seq<T>, resolved: Seq<T>, l: T)
    ensures
        keep_unresolved(s, resolved.push(l)) == keep_unresolved(
            keep_unresolved(s, resolved),
            seq![l],
        ),
    decreases s.len(),
{
    if s.len() > 0 {
        lemma_keep_unresolved_push(s.drop_last(), resolved, l);
        assert(resolved.push(l).contains(s.last()) <==> resolved.contains(s.last()) || s.last()
            == l) by {
            if resolved.push(l).contains(s.last()) {
                let k = choose|k: int|
                    0 <= k < resolved.push(l).len() && resolved.push(l)[k] == s.last();
                if k < resolved.len() {
                    assert(resolved[k] == s.last());
                }
            }
            if resolved.contains(s.last()) {
                let k = choose|k: int| 0 <= k < resolved.len() && resolved[k] == s.last();
                assert(resolved.push(l)[k] == s.last());
            }
            if s.last() == l {
                assert(resolved.push(l).last() == s.last());
            }
        }
        let inner = keep_unresolved(s.drop_last(), resolved);
        if resolved.contains(s.last()) {
        } else if s.last() == l {
            assert(seq![l].contains(s.last())) by {
                assert(seq![l][0] == l);
            }
            assert(keep_unresolved(inner.push(s.last()), seq![l]) == keep_unresolved(
                inner,
                seq![l],
            )) by {
                assert(inner.push(s.last()).drop_last() =~= inner);
            }
        } else {
            assert(!seq![l].contains(s.last())) by {
                if seq![l].contains(s.last()) {
                    let k = choose|k: int| 0 <= k < 1 && seq![l][k] == s.last();
                    assert(seq![l][0] == l);
                }
            }
            assert(keep_unresolved(inner.push(s.last()), seq![l]) == keep_unresolved(
                inner,
                seq![l],
            ).push(s.last())) by {
                assert(inner.push(s.last()).drop_last() =~= inner);
            }
        }
    }
}

/// When no line is left unresolved, every line of the list was resolved.
pub proof fn lemma_keep_unresolved_empty<T>(s: Seq<T>, resolved: Seq<T>)
    requires
        keep_unresolved(s, resolved).len() == 0,
    ensures
        forall|k: int| 0 <= k < s.len() ==> resolved.contains(#[trigger] s[k]),
    decreases s.len(),
{
    if s.len() > 0 {
        let rest = keep_unresolved(s.drop_last(), resolved);
        assert(resolved.contains(s.last()));
        lemma_keep_unresolved_empty(s.drop_last(), resolved);
        assert(forall|k: int| 0 <= k < s.len() - 1 ==> #[trigger] s[k] == s.drop_last()[k]);
    }
}

/// Striking an element that occurs in a duplicate-free list shortens it by
/// one; striking an absent one changes nothing.
pub proof fn lemma_keep_strike_len<T>(s: Seq<T>, l: T)
    ensures
        s.contains(l) ==> keep_unresolved(s, seq![l]).len() < s.len(),
        keep_unresolved(s, seq![l]).len() <= s.len(),
    decreases s.len(),
{
    if s.len() > 0 {
        lemma_keep_strike_len(s.drop_last(), l);
        if s.contains(l) {
            let k = choose|k: int| 0 <= k < s.len() && s[k] == l;
            if k < s.len() - 1 {
                assert(s.drop_last()[k] == l);
                assert(s.drop_last().contains(l));
            } else {
                assert(s.last() == l);
                assert(seq![l].contains(s.last())) by {
                    assert(seq![l][0] == l);
                }
            }
        }
    }
}

/// Turns a line's text into its search pattern: unset cells become dots.
pub fn dotify_string(s: &String) -> (r: String)
    ensures
        r@ == dotify(s@),
{
    let cv = chars_of(s.as_str());
    let mut out: Vec<char> = Vec::new();
    let mut i: usize = 0;
    while i < cv.len()
        invariant
            cv@ == s@,
            0 <= i <= cv@.len(),
            out@.len() == i,
            forall|j: int| 0 <= j < i ==> out@[j] == dotify(s@)[j],
        decreases cv@.len() - i,
    {
        if cv[i] == '\0' {
            out.push('.');
        } else {
            out.push(cv[i]);
        }
        i += 1;
    }
    let r = string_of(&out);
    proof {
        assert(r@ =~= dotify(s@));
    }
    r
}

/// A copy of the text with every unset cell replaced by the given
/// character.
pub fn replace_unset(s: &String, to: char) -> (r: String)
    ensures
        r@.len() == s@.len(),
        forall|k: int| 0 <= k < s@.len() ==> r@[k] == (if s@[k] == '\0' { to } else { s@[k] }),
{
    let cv = chars_of(s.as_str());
    let mut out: Vec<char> = Vec::new();
    let mut i: usize = 0;
    while i < cv.len()
        invariant
            cv@ == s@,
            0 <= i <= cv@.len(),
            out@.len() == i,
            forall|j: int|
                0 <= j < i ==> out@[j] == (if s@[j] == '\0' { to } else { s@[j] }),
        decreases cv@.len() - i,
    {
        if cv[i] == '\0' {
            out.push(to);
        } else {
            out.push(cv[i]);
        }
        i += 1;
    }
    string_of(&out)
}

/// Counts how many times a character occurs in a string.
pub fn count_char_in(s: &String, c: char) -> (r: usize)
    ensures
        r == count_char(s@, c),
{
    let len = s.as_str().unicode_len();
    let mut cnt: usize = 0;
    let mut i: usize = 0;
    while i < len
        invariant
            len == s@.len(),
            0 <= i <= len,
            cnt == count_char(s@.take(i as int), c),
            cnt <= i,
        decreases len - i,
    {
        proof {
            assert(s@.take(i + 1).drop_last() =~= s@.take(i as int));
            assert(s@.take(i + 1).last() == s@[i as int]);
        }
        if s.as_str().get_char(i) == c {
            cnt += 1;
        }
        i += 1;
    }
    proof {
        assert(s@.take(len as int) =~= s@);
    }
    cnt
}

/// Splits a line's text on `_`, keeping empty pieces.
pub fn split_gaps(s: &String) -> (r: Vec<String>)
    ensures
        views_of(r@) == split_runs(s@),
    decreases s@.len(),
{
    match string_find(s, '_') {
        None => {
            proof {
                assert(!s@.contains('_'));
            }
            let mut out: Vec<String> = Vec::new();
            out.push(s.clone());
            proof {
                assert(views_of(out@) =~= seq![s@]);
            }
            out
        },
        Some(i) => {
            proof {
                assert(s@.contains('_')) by {
                    assert(s@[i as int] == '_');
                }
                lemma_first_index_of(s@, '_');
                let fi = first_index_of(s@, '_');
                assert(fi == i) by {
                    if fi < i {
                        assert(s@[fi] != '_');
                    }
                    if fi > i {
                        assert(s@[i as int] != '_');
                    }
                }
            }
            let len = s.as_str().unicode_len();
            let head = String::from_str(s.as_str().substring_char(0, i));
            let tail = String::from_str(s.as_str().substring_char(i + 1, len));
            proof {
                assert(head@ =~= s@.take(i as int));
                assert(tail@ =~= s@.skip(i + 1));
            }
            let mut rest = split_gaps(&tail);
            let mut out: Vec<String> = Vec::new();
            out.push(head);
            out.append(&mut rest);
            proof {
                assert(views_of(out@) =~= seq![s@.take(i as int)] + split_runs(s@.skip(i + 1)));
            }
            out
        },
    }
}

/// Keeps the runs that count as words for the duplicate check.
pub fn filter_words(runs: Vec<String>) -> (r: Vec<String>)
    ensures
        views_of(r@) == keep_words(views_of(runs@)),
{
    let mut out: Vec<String> = Vec::new();
    let mut i: usize = 0;
    while i < runs.len()
        invariant
            0 <= i <= runs@.len(),
            views_of(out@) == keep_words(views_of(runs@).take(i as int)),
        decreases runs@.len() - i,
    {
        proof {
            assert(views_of(runs@).take(i + 1).drop_last() =~= views_of(runs@).take(i as int));
            assert(views_of(runs@).take(i + 1).last() == runs@[i as int]@);
        }
        let keep = runs[i].as_str().unicode_len() > 1 && !string_contains(&runs[i], '\0');
        if keep {
            out.push(runs[i].clone());
            proof {
                assert(views_of(out@) =~= keep_words(views_of(runs@).take(i + 1)));
            }
        } else {
            proof {
                assert(views_of(out@) =~= keep_words(views_of(runs@).take(i + 1)));
            }
        }
        i += 1;
    }
    proof {
        assert(views_of(runs@).take(runs@.len() as int) =~= views_of(runs@));
    }
    out
}

/// Whether the list already holds this exact text.
pub fn contains_string(seen: &Vec<String>, s: &String) -> (r: bool)
    ensures
        r == views_of(seen@).contains(s@),
{
    let mut i: usize = 0;
    while i < seen.len()
        invariant
            0 <= i <= seen@.len(),
            forall|j: int| 0 <= j < i ==> views_of(seen@)[j] != s@,
        decreases seen@.len() - i,
    {
        if seen[i] == *s {
            proof {
                assert(views_of(seen@)[i as int] == s@);
            }
            return true;
        }
        i += 1;
    }
    proof {
        if views_of(seen@).contains(s@) {
            let k = choose|k: int| 0 <= k < views_of(seen@).len() && views_of(seen@)[k] == s@;
            assert(false);
        }
    }
    false
}


/// Whether a piece may appear between gaps of a candidate: a word of the
/// list, the lone-dot answer, or an empty piece.
pub open spec fn piece_from(words: Seq<Seq<char>>, piece: Seq<char>) -> bool {
    ||| words.contains(piece)
    ||| piece == seq!['.']
    ||| piece.len() == 0
}

/// A text whose first gap sits at position `i` splits into its gap-free
/// head and the pieces of its tail.
proof fn lemma_split_runs_at(t: Seq<char>, i: int)
    requires
        0 <= i < t.len(),
        t[i] == '_',
        forall|j: int| 0 <= j < i ==> t[j] != '_',
    ensures
        split_runs(t) == seq![t.take(i)] + split_runs(t.skip(i + 1)),
{
    assert(t.contains('_'));
    lemma_first_index_of(t, '_');
    let fi = first_index_of(t, '_');
    assert(fi == i) by {
        if fi < i {
            assert(t[fi] != '_');
        }
        if fi > i {
            assert(t[i] != '_');
        }
    }
}

/// A gap-free text is its own single piece.
proof fn lemma_split_runs_whole(t: Seq<char>)
    requires
        forall|j: int| 0 <= j < t.len() ==> t[j] != '_',
    ensures
        split_runs(t) == seq![t],
{
    assert(!t.contains('_')) by {
        if t.contains('_') {
            let j = choose|j: int| 0 <= j < t.len() && t[j] == '_';
        }
    }
}

proof fn lemma_cross_join_segments(words: Seq<Seq<char>>, ls: Seq<Seq<char>>, rs: Seq<Seq<char>>)
    requires
        forall|a: int, j: int|
            0 <= a < ls.len() && 0 <= j < ls[a].len() ==> #[trigger] ls[a][j] != '_',
        forall|a: int| 0 <= a < ls.len() ==> piece_from(words, #[trigger] ls[a]),
        forall|b: int, t: int|
            0 <= b < rs.len() && 0 <= t < split_runs(rs[b]).len() ==> piece_from(
                words,
                #[trigger] split_runs(rs[b])[t],
            ),
    ensures
        forall|k: int, t: int|
            0 <= k < cross_join(ls, rs).len() && 0 <= t < split_runs(
                cross_join(ls, rs)[k],
            ).len() ==> piece_from(words, #[trigger] split_runs(cross_join(ls, rs)[k])[t]),
    decreases ls.len(),
{
    if ls.len() > 0 {
        lemma_cross_join_segments(words, ls.drop_last(), rs);
        assert(forall|a: int| 0 <= a < ls.len() - 1 ==> #[trigger] ls.drop_last()[a] == ls[a]);
        let prev = cross_join(ls.drop_last(), rs);
        let blk = rs.map_values(|r: Seq<char>| ls.last() + seq!['_'] + r);
        assert forall|k: int, t: int|
            0 <= k < cross_join(ls, rs).len() && 0 <= t < split_runs(
                cross_join(ls, rs)[k],
            ).len() implies piece_from(words, #[trigger] split_runs(cross_join(ls, rs)[k])[t]) by {
            if k < prev.len() {
                assert(cross_join(ls, rs)[k] == prev[k]);
            } else {
                let b = k - prev.len();
                let l = ls.last();
                let c = l + seq!['_'] + rs[b];
                assert(cross_join(ls, rs)[k] == blk[b]);
                assert(blk[b] == c);
                let n = l.len() as int;
                assert(forall|j: int| 0 <= j < n ==> #[trigger] c[j] == l[j] && c[j] != '_');
                assert(c[n] == '_');
                lemma_split_runs_at(c, n);
                assert(c.take(n) =~= l);
                assert(c.skip(n + 1) =~= rs[b]);
                assert(split_runs(c) == seq![l] + split_runs(rs[b]));
                if t == 0 {
                    assert(split_runs(c)[0] == l);
                    assert(piece_from(words, l));
                } else {
                    assert(split_runs(c)[t] == split_runs(rs[b])[t - 1]);
                }
            }
        }
    }
}

/// Over lowercase word lists, every maximal gap-free piece of a gap
/// candidate is a common-list word, the lone-dot answer, or empty: a
/// candidate is list words joined at the pattern's gaps.
pub proof fn lemma_gap_candidates_segments(words: Seq<Seq<char>>, p: Seq<char>)
    requires
        lowercase_words(words),
    ensures
        forall|k: int, s: int|
            0 <= k < gap_candidates(words, p).len() && 0 <= s < split_runs(
                gap_candidates(words, p)[k],
            ).len() ==> piece_from(words, #[trigger] split_runs(gap_candidates(words, p)[k])[s]),
    decreases p.len(),
{
    let cands = gap_candidates(words, p);
    crate::pattern::lemma_gap_candidates_len(words, p);
    crate::pattern::lemma_gap_candidates_chars(words, p);
    if p == seq!['_'] {
        let c = seq!['_'];
        assert(cands[0] == c);
        lemma_split_runs_at(c, 0);
        assert(c.skip(1).len() == 0);
        lemma_split_runs_whole(c.skip(1));
        assert(split_runs(c) =~= seq![c.take(0), c.skip(1)]);
        assert forall|k: int, s: int|
            0 <= k < cands.len() && 0 <= s < split_runs(cands[k]).len() implies piece_from(
            words,
            #[trigger] split_runs(cands[k])[s],
        ) by {
            assert(split_runs(cands[k])[s].len() == 0);
        }
    } else if p.contains('_') {
        lemma_first_index_of(p, '_');
        let i = first_index_of(p, '_');
        if i == 0 {
            lemma_gap_candidates_segments(words, p.drop_first());
            let inner = gap_candidates(words, p.drop_first());
            assert forall|k: int, s: int|
                0 <= k < cands.len() && 0 <= s < split_runs(cands[k]).len() implies piece_from(
                words,
                #[trigger] split_runs(cands[k])[s],
            ) by {
                let c = seq!['_'] + inner[k];
                assert(cands[k] == c);
                lemma_split_runs_at(c, 0);
                assert(c.skip(1) =~= inner[k]);
                assert(split_runs(c) == seq![c.take(0)] + split_runs(inner[k]));
                if s == 0 {
                    assert(split_runs(c)[0] == c.take(0));
                    assert(c.take(0).len() == 0);
                } else {
                    assert(split_runs(c)[s] == split_runs(inner[k])[s - 1]);
                }
            }
        } else if i == p.len() - 1 {
            crate::pattern::lemma_gap_candidates_chars(words, p.take(i));
            crate::pattern::lemma_gap_candidates_len(words, p.take(i));
            crate::pattern::lemma_find_matches_sound(words, p.take(i));
            let inner = gap_candidates(words, p.take(i));
            assert(forall|j: int| 0 <= j < i ==> p.take(i)[j] != '_');
            assert forall|k: int, s: int|
                0 <= k < cands.len() && 0 <= s < split_runs(cands[k]).len() implies piece_from(
                words,
                #[trigger] split_runs(cands[k])[s],
            ) by {
                let c = inner[k].push('_');
                assert(cands[k] == c);
                let n = inner[k].len() as int;
                assert(forall|j: int| 0 <= j < n ==> #[trigger] c[j] == inner[k][j] && c[j] != '_');
                assert(c[n] == '_');
                lemma_split_runs_at(c, n);
                assert(c.take(n) =~= inner[k]);
                assert(c.skip(n + 1).len() == 0);
                lemma_split_runs_whole(c.skip(n + 1));
                assert(split_runs(c) == seq![inner[k]] + seq![c.skip(n + 1)]);
                if s == 0 {
                    assert(split_runs(c)[0] == inner[k]);
                    assert(p.take(i) != seq!['_']) by {
                        if p.take(i) == seq!['_'] {
                            assert(p.take(i)[0] == '_');
                        }
                    }
                    assert(!p.take(i).contains('_')) by {
                        if p.take(i).contains('_') {
                            let j = choose|j: int| 0 <= j < p.take(i).len() && p.take(i)[j] == '_';
                        }
                    }
                    assert(inner[k] == common_candidates(words, p.take(i))[k]);
                    if p.take(i) == seq!['.'] {
                        assert(inner[k] == seq!['.']);
                    } else {
                        assert(words.contains(inner[k]));
                    }
                } else {
                    assert(split_runs(c)[s] == c.skip(n + 1));
                }
            }
        } else {
            lemma_gap_candidates_segments(words, p.skip(i + 1));
            crate::pattern::lemma_gap_candidates_chars(words, p.take(i));
            crate::pattern::lemma_gap_candidates_len(words, p.take(i));
            crate::pattern::lemma_find_matches_sound(words, p.take(i));
            let ls = gap_candidates(words, p.take(i));
            let rs = gap_candidates(words, p.skip(i + 1));
            assert(forall|j: int| 0 <= j < i ==> p.take(i)[j] != '_');
            assert(p.take(i) != seq!['_']) by {
                if p.take(i) == seq!['_'] {
                    assert(p.take(i)[0] == '_');
                }
            }
            assert(!p.take(i).contains('_')) by {
                if p.take(i).contains('_') {
                    let j = choose|j: int| 0 <= j < p.take(i).len() && p.take(i)[j] == '_';
                }
            }
            assert forall|a: int| 0 <= a < ls.len() implies piece_from(words, #[trigger] ls[a]) by {
                assert(ls[a] == common_candidates(words, p.take(i))[a]);
                if p.take(i) == seq!['.'] {
                    assert(ls[a] == seq!['.']);
                } else {
                    assert(words.contains(ls[a]));
                }
            }
            assert(forall|a: int, j: int|
                0 <= a < ls.len() && 0 <= j < ls[a].len() ==> #[trigger] ls[a][j] != '_');
            lemma_cross_join_segments(words, ls, rs);
        }
    } else {
        crate::pattern::lemma_find_matches_sound(words, p);
        assert forall|k: int, s: int|
            0 <= k < cands.len() && 0 <= s < split_runs(cands[k]).len() implies piece_from(
            words,
            #[trigger] split_runs(cands[k])[s],
        ) by {
            let c = cands[k];
            assert(forall|j: int| 0 <= j < c.len() ==> #[trigger] c[j] != '_');
            lemma_split_runs_whole(c);
            assert(split_runs(c)[0] == c);
            if p == seq!['.'] {
                assert(c == seq!['.']);
            } else {
                assert(p != seq!['_']);
                assert(c == common_candidates(words, p)[k]);
                assert(words.contains(c));
            }
        }
    }
}

} // verus!
