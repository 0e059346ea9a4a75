use vstd::prelude::*;

verus! {

/// A pattern character matches a word character when it is the wildcard `.`
/// or exactly that character.
pub open spec fn char_matches(p: char, w: char) -> bool {
    p == '.' || p == w
}

/// A word matches a pattern when both have the same length and every
/// position matches.
pub open spec fn word_matches(w: Seq<char>, p: Seq<char>) -> bool {
    &&& w.len() == p.len()
    &&& forall|i: int| 0 <= i < p.len() ==> char_matches(p[i], w[i])
}

/// The views of a sequence of strings, element by element.
pub open spec fn views_of(v: Seq<String>) -> Seq<Seq<char>> {
    Seq::new(v.len(), |i: int| v[i]@)
}

/// The words of a list that match a pattern, in list order.
pub open spec fn find_matches(words: Seq<Seq<char>>, p: Seq<char>) -> Seq<Seq<char>>
    decreases words.len(),
{
    if words.len() == 0 {
        Seq::empty()
    } else {
        let rest = find_matches(words.drop_last(), p);
        if word_matches(words.last(), p) {
            rest.push(words.last())
        } else {
            rest
        }
    }
}

/// What a plain candidate lookup returns: the one-character patterns `.`
/// and `_` answer themselves; any other pattern filters the word list.
pub open spec fn common_candidates(words: Seq<Seq<char>>, p: Seq<char>) -> Seq<Seq<char>> {
    if p == seq!['.'] {
        seq![seq!['.']]
    } else if p == seq!['_'] {
        seq![seq!['_']]
    } else {
        find_matches(words, p)
    }
}

/// The position of the first occurrence of `c` in `s`, or -1 when absent.
pub open spec fn first_index_of(s: Seq<char>, c: char) -> int
    decreases s.len(),
{
    if s.len() == 0 {
        -1
    } else if s[0] == c {
        0
    } else {
        let r = first_index_of(s.drop_first(), c);
        if r < 0 {
            -1
        } else {
            r + 1
        }
    }
}

pub proof fn lemma_first_index_of(s: Seq<char>, c: char)
    ensures
        s.contains(c) ==> {
            let i = first_index_of(s, c);
            &&& 0 <= i < s.len()
            &&& s[i] == c
            &&& forall|j: int| 0 <= j < i ==> s[j] != c
        },
        !s.contains(c) ==> first_index_of(s, c) == -1,
    decreases s.len(),
{
    if s.len() == 0 {
        assert(!s.contains(c));
    } else if s[0] == c {
        assert(s.contains(c));
    } else {
        lemma_first_index_of(s.drop_first(), c);
        if s.contains(c) {
            let k = choose|k: int| 0 <= k < s.len() && s[k] == c;
            assert(s.drop_first()[k - 1] == c);
            assert(s.drop_first().contains(c));
            let i = first_index_of(s.drop_first(), c);
            assert(s[i + 1] == s.drop_first()[i]);
            assert(forall|j: int| 0 <= j < i + 1 ==> s[j] != c) by {
                assert(forall|j: int| 1 <= j < i + 1 ==> s[j] == s.drop_first()[j - 1]);
            }
        } else {
            assert(!s.drop_first().contains(c)) by {
                if s.drop_first().contains(c) {
                    let k = choose|k: int| 0 <= k < s.drop_first().len() && s.drop_first()[k] == c;
                    assert(s[k + 1] == c);
                }
            }
        }
    }
}

/// Each word of `s`, with `c` put in front.
pub open spec fn prepend_all(c: char, s: Seq<Seq<char>>) -> Seq<Seq<char>> {
    s.map_values(|w: Seq<char>| seq![c] + w)
}

/// Each word of `s`, with `c` put at the end.
pub open spec fn append_all(s: Seq<Seq<char>>, c: char) -> Seq<Seq<char>> {
    s.map_values(|w: Seq<char>| w.push(c))
}

/// Every `left + "_" + right` combination, left varying slowest.
pub open spec fn cross_join(ls: Seq<Seq<char>>, rs: Seq<Seq<char>>) -> Seq<Seq<char>>
    decreases ls.len(),
{
    if ls.len() == 0 {
        Seq::empty()
    } else {
        cross_join(ls.drop_last(), rs) + rs.map_values(|r: Seq<char>| ls.last() + seq!['_'] + r)
    }
}

pub proof fn lemma_cross_join_empty_right(ls: Seq<Seq<char>>, rs: Seq<Seq<char>>)
    requires
        rs.len() == 0,
    ensures
        cross_join(ls, rs).len() == 0,
    decreases ls.len(),
{
    if ls.len() > 0 {
        lemma_cross_join_empty_right(ls.drop_last(), rs);
    }
}

/// The candidates for a pattern that may hold forced blocked cells: the
/// pattern is split at its first `_` and the sides are solved on their own.
pub open spec fn gap_candidates(words: Seq<Seq<char>>, p: Seq<char>) -> Seq<Seq<char>>
    decreases p.len(),
    via gap_candidates_decreases
{
    if p == seq!['_'] {
        common_candidates(words, p)
    } else if p.contains('_') {
        let i = first_index_of(p, '_');
        if i == 0 {
            prepend_all('_', gap_candidates(words, p.drop_first()))
        } else if i == p.len() - 1 {
            append_all(gap_candidates(words, p.take(i)), '_')
        } else {
            cross_join(gap_candidates(words, p.take(i)), gap_candidates(words, p.skip(i + 1)))
        }
    } else {
        common_candidates(words, p)
    }
}

#[via_fn]
proof fn gap_candidates_decreases(words: Seq<Seq<char>>, p: Seq<char>) {
    if p != seq!['_'] && p.contains('_') {
        lemma_first_index_of(p, '_');
    }
}

/// The extra candidate lists gained by turning each `.` before position `i`
/// into a forced blocked cell, concatenated in position order.
pub open spec fn variants_upto(words: Seq<Seq<char>>, p: Seq<char>, i: int) -> Seq<Seq<char>>
    decreases i,
{
    if i <= 0 {
        Seq::empty()
    } else {
        variants_upto(words, p, i - 1) + (if p[i - 1] == '.' {
            gap_candidates(words, p.update(i - 1, '_'))
        } else {
            Seq::empty()
        })
    }
}

/// The candidates for a pattern when the search may introduce new blocked
/// cells: the plain gap candidates, then those of every one-dot variant.
pub open spec fn split_candidates(words: Seq<Seq<char>>, p: Seq<char>) -> Seq<Seq<char>> {
    if p.contains('.') {
        gap_candidates(words, p) + variants_upto(words, p, p.len() as int)
    } else {
        gap_candidates(words, p)
    }
}

/// A window counts toward the forbidden-tuple check only when it holds
/// neither an unset marker nor a blocked marker.
pub open spec fn clean_window(w: Seq<char>) -> bool {
    !w.contains('\0') && !w.contains('_')
}

/// Whether a line's text holds a forbidden two- or three-character window.
pub open spec fn has_forbidden(tuples: Seq<Seq<char>>, t: Seq<char>) -> bool {
    ||| exists|i: int|
        0 <= i && i + 2 <= t.len() && clean_window(#[trigger] t.subrange(i, i + 2))
            && tuples.contains(t.subrange(i, i + 2))
    ||| exists|i: int|
        0 <= i && i + 3 <= t.len() && clean_window(#[trigger] t.subrange(i, i + 3))
            && tuples.contains(t.subrange(i, i + 3))
}

/// Whether every word of the list is made of lowercase letters only, as
/// the loaded word lists are.
pub open spec fn lowercase_words(ws: Seq<Seq<char>>) -> bool {
    forall|i: int, k: int|
        0 <= i < ws.len() && 0 <= k < ws[i].len() ==> 'a' <= #[trigger] ws[i][k] <= 'z'
}

/// Whether some word occurs twice in the list.
pub open spec fn has_repeat(ws: Seq<Seq<char>>) -> bool {
    exists|i: int, j: int| #![trigger ws[i], ws[j]] 0 <= i < j < ws.len() && ws[i] == ws[j]
}

/// Every word that `find_matches` returns comes from the list and matches
/// the pattern.
pub proof fn lemma_find_matches_sound(words: Seq<Seq<char>>, p: Seq<char>)
    ensures
        forall|k: int|
            0 <= k < find_matches(words, p).len() ==> {
                &&& word_matches(#[trigger] find_matches(words, p)[k], p)
                &&& words.contains(find_matches(words, p)[k])
            },
    decreases words.len(),
{
    if words.len() > 0 {
        lemma_find_matches_sound(words.drop_last(), p);
        let rest = find_matches(words.drop_last(), p);
        assert(forall|k: int|
            0 <= k < words.drop_last().len() ==> words.contains(#[trigger] words.drop_last()[k]));
        assert(forall|k: int| 0 <= k < rest.len() ==> words.drop_last().contains(#[trigger] rest[k]));
        assert(words.contains(words.last()));
        assert forall|k: int| 0 <= k < find_matches(words, p).len() implies {
            &&& word_matches(#[trigger] find_matches(words, p)[k], p)
            &&& words.contains(find_matches(words, p)[k])
        } by {
            if word_matches(words.last(), p) {
                if k < rest.len() {
                    assert(find_matches(words, p)[k] == rest[k]);
                } else {
                    assert(find_matches(words, p)[k] == words.last());
                }
            } else {
                assert(find_matches(words, p)[k] == rest[k]);
            }
        }
    }
}

/// Every word of the list that matches the pattern appears in
/// `find_matches`.
pub proof fn lemma_find_matches_complete(words: Seq<Seq<char>>, p: Seq<char>, i: int)
    requires
        0 <= i < words.len(),
        word_matches(words[i], p),
    ensures
        find_matches(words, p).contains(words[i]),
    decreases words.len(),
{
    if i == words.len() - 1 {
        assert(find_matches(words, p).last() == words.last());
    } else {
        lemma_find_matches_complete(words.drop_last(), p, i);
        let rest = find_matches(words.drop_last(), p);
        let k = choose|k: int| 0 <= k < rest.len() && rest[k] == words[i];
        assert(find_matches(words, p)[k] == words[i]);
    }
}

/// Every pair of a cross join has the left length, the gap, and the right
/// length.
pub proof fn lemma_cross_join_elem_len(ls: Seq<Seq<char>>, rs: Seq<Seq<char>>, a: nat, b: nat)
    requires
        forall|k: int| 0 <= k < ls.len() ==> (#[trigger] ls[k]).len() == a,
        forall|k: int| 0 <= k < rs.len() ==> (#[trigger] rs[k]).len() == b,
    ensures
        forall|k: int|
            0 <= k < cross_join(ls, rs).len() ==> (#[trigger] cross_join(ls, rs)[k]).len() == a + 1
                + b,
    decreases ls.len(),
{
    if ls.len() > 0 {
        lemma_cross_join_elem_len(ls.drop_last(), rs, a, b);
        assert(ls.drop_last().len() == ls.len() - 1);
        assert(forall|k: int| 0 <= k < ls.len() - 1 ==> ls.drop_last()[k] == ls[k]);
        let blk = rs.map_values(|r: Seq<char>| ls.last() + seq!['_'] + r);
        assert(forall|k: int| 0 <= k < blk.len() ==> (#[trigger] blk[k]).len() == a + 1 + b);
        assert(forall|k: int|
            0 <= k < cross_join(ls, rs).len() ==> cross_join(ls, rs)[k]
                == if k < cross_join(ls.drop_last(), rs).len() {
                    cross_join(ls.drop_last(), rs)[k]
                } else {
                    blk[k - cross_join(ls.drop_last(), rs).len()]
                });
    }
}

/// Every gap candidate is as long as its pattern.
pub proof fn lemma_gap_candidates_len(words: Seq<Seq<char>>, p: Seq<char>)
    ensures
        forall|k: int|
            0 <= k < gap_candidates(words, p).len() ==> (#[trigger] gap_candidates(
                words,
                p,
            )[k]).len() == p.len(),
    decreases p.len(),
{
    if p == seq!['_'] {
    } else if p.contains('_') {
        lemma_first_index_of(p, '_');
        let i = first_index_of(p, '_');
        if i == 0 {
            lemma_gap_candidates_len(words, p.drop_first());
            let inner = gap_candidates(words, p.drop_first());
            assert(forall|k: int|
                0 <= k < inner.len() ==> (#[trigger] prepend_all('_', inner)[k]) == seq!['_']
                    + inner[k]);
        } else if i == p.len() - 1 {
            lemma_gap_candidates_len(words, p.take(i));
            let inner = gap_candidates(words, p.take(i));
            assert(forall|k: int|
                0 <= k < inner.len() ==> (#[trigger] append_all(inner, '_')[k]) == inner[k].push(
                    '_',
                ));
        } else {
            lemma_gap_candidates_len(words, p.take(i));
            lemma_gap_candidates_len(words, p.skip(i + 1));
            lemma_cross_join_elem_len(
                gap_candidates(words, p.take(i)),
                gap_candidates(words, p.skip(i + 1)),
                i as nat,
                (p.len() - i - 1) as nat,
            );
        }
    } else {
        lemma_common_candidates_len(words, p);
    }
}

/// Every candidate of the widened lookup is as long as its pattern.
pub proof fn lemma_split_candidates_len(words: Seq<Seq<char>>, p: Seq<char>)
    ensures
        forall|k: int|
            0 <= k < split_candidates(words, p).len() ==> (#[trigger] split_candidates(
                words,
                p,
            )[k]).len() == p.len(),
{
    lemma_gap_candidates_len(words, p);
    lemma_variants_upto_len(words, p, p.len() as int);
}

proof fn lemma_variants_upto_len(words: Seq<Seq<char>>, p: Seq<char>, i: int)
    requires
        i <= p.len(),
    ensures
        forall|k: int|
            0 <= k < variants_upto(words, p, i).len() ==> (#[trigger] variants_upto(
                words,
                p,
            i)[k]).len() == p.len(),
    decreases i,
{
    if i > 0 {
        lemma_variants_upto_len(words, p, i - 1);
        let prev = variants_upto(words, p, i - 1);
        let blk = if p[i - 1] == '.' {
            gap_candidates(words, p.update(i - 1, '_'))
        } else {
            Seq::<Seq<char>>::empty()
        };
        if p[i - 1] == '.' {
            lemma_gap_candidates_len(words, p.update(i - 1, '_'));
            assert(p.update(i - 1, '_').len() == p.len());
        }
        assert forall|k: int| 0 <= k < variants_upto(words, p, i).len() implies (
        #[trigger] variants_upto(words, p, i)[k]).len() == p.len() by {
            if k < prev.len() {
                assert(variants_upto(words, p, i)[k] == prev[k]);
            } else {
                assert(variants_upto(words, p, i)[k] == blk[k - prev.len()]);
            }
        }
    }
}

/// An exact-match lookup holds a word exactly when the list holds it and
/// every non-wildcard pattern character agrees with it.
pub proof fn lemma_match_exact_correct(words: Seq<Seq<char>>, p: Seq<char>, w: Seq<char>)
    ensures
        find_matches(words, p).contains(w) <==> (words.contains(w) && word_matches(w, p)),
{
    if find_matches(words, p).contains(w) {
        lemma_find_matches_sound(words, p);
        let k = choose|k: int| 0 <= k < find_matches(words, p).len() && find_matches(words, p)[k]
            == w;
    }
    if words.contains(w) && word_matches(w, p) {
        let i = choose|i: int| 0 <= i < words.len() && words[i] == w;
        lemma_find_matches_complete(words, p, i);
    }
}

/// Splitting a pattern at its single interior gap answers with the cross
/// product of the two sides' own candidates.
pub proof fn lemma_gap_split_round_trip(words: Seq<Seq<char>>)
    ensures
        gap_candidates(words, seq!['a', '_', 'b']) == cross_join(
            common_candidates(words, seq!['a']),
            common_candidates(words, seq!['b']),
        ),
{
    let p = seq!['a', '_', 'b'];
    assert(p != seq!['_']);
    assert(p.contains('_')) by {
        assert(p[1] == '_');
    }
    lemma_first_index_of(p, '_');
    assert(first_index_of(p, '_') == 1) by {
        if first_index_of(p, '_') == 0 {
            assert(p[0] != '_');
        }
        if first_index_of(p, '_') == 2 {
            assert(p[1] == '_');
        }
    }
    assert(p.take(1) =~= seq!['a']);
    assert(p.skip(2) =~= seq!['b']);
    assert(!seq!['a'].contains('_')) by {
        if seq!['a'].contains('_') {
            let k = choose|k: int| 0 <= k < 1 && seq!['a'][k] == '_';
        }
    }
    assert(!seq!['b'].contains('_')) by {
        if seq!['b'].contains('_') {
            let k = choose|k: int| 0 <= k < 1 && seq!['b'][k] == '_';
        }
    }
    assert(seq!['a'] != seq!['_']) by {
        if seq!['a'] == seq!['_'] {
            assert(seq!['a'][0] == seq!['_'][0]);
        }
    }
    assert(seq!['b'] != seq!['_']) by {
        if seq!['b'] == seq!['_'] {
            assert(seq!['b'][0] == seq!['_'][0]);
        }
    }
    assert(gap_candidates(words, seq!['a']) == common_candidates(words, seq!['a']));
    assert(gap_candidates(words, seq!['b']) == common_candidates(words, seq!['b']));
}

/// Every word of a permuted plain-lookup candidate list matches the
/// pattern the list was built for; the one-character answers match
/// themselves.
pub proof fn lemma_candidates_match(
    pre: Seq<String>,
    shuf: Seq<String>,
    words: Seq<Seq<char>>,
    p: Seq<char>,
)
    requires
        views_of(pre) == common_candidates(words, p) || views_of(pre) == find_matches(words, p),
        pre.to_multiset() == shuf.to_multiset(),
    ensures
        forall|i: int| 0 <= i < shuf.len() ==> word_matches((#[trigger] shuf[i])@, p),
{
    broadcast use vstd::seq_lib::group_to_multiset_ensures;

    lemma_find_matches_sound(words, p);
    assert forall|i: int| 0 <= i < shuf.len() implies word_matches((#[trigger] shuf[i])@, p) by {
        assert(shuf.contains(shuf[i]));
        assert(shuf.to_multiset().count(shuf[i]) > 0);
        assert(pre.contains(shuf[i]));
        let k = choose|k: int| 0 <= k < pre.len() && pre[k] == shuf[i];
        assert(views_of(pre)[k] == shuf[i]@);
        if views_of(pre) == common_candidates(words, p) {
            if p == seq!['.'] {
                assert(views_of(pre).len() == 1);
                assert(k == 0);
                assert(shuf[i]@ == seq![seq!['.']][0]);
                assert(char_matches(p[0], shuf[i]@[0]));
            } else if p == seq!['_'] {
                assert(views_of(pre).len() == 1);
                assert(k == 0);
                assert(shuf[i]@ == seq![seq!['_']][0]);
                assert(char_matches(p[0], shuf[i]@[0]));
            }
        }
    }
}

/// A word drawn from a permuted candidate list comes from the word list
/// and matches the pattern the list was built for.
pub proof fn lemma_candidate_props(
    pre: Seq<String>,
    shuf: Seq<String>,
    words: Seq<Seq<char>>,
    p: Seq<char>,
    i: int,
)
    requires
        views_of(pre) == find_matches(words, p),
        pre.to_multiset() == shuf.to_multiset(),
        0 <= i < shuf.len(),
    ensures
        words.contains(shuf[i]@),
        word_matches(shuf[i]@, p),
{
    broadcast use vstd::seq_lib::group_to_multiset_ensures;

    assert(shuf.contains(shuf[i]));
    assert(shuf.to_multiset().count(shuf[i]) > 0);
    assert(pre.contains(shuf[i]));
    let k = choose|k: int| 0 <= k < pre.len() && pre[k] == shuf[i];
    assert(views_of(pre)[k] == shuf[i]@);
    lemma_find_matches_sound(words, p);
    assert(find_matches(words, p)[k] == shuf[i]@);
}

/// Every candidate of a plain lookup is as long as the pattern.
pub proof fn lemma_common_candidates_len(words: Seq<Seq<char>>, p: Seq<char>)
    ensures
        forall|k: int|
            0 <= k < common_candidates(words, p).len() ==> (#[trigger] common_candidates(
                words,
                p,
            )[k]).len() == p.len(),
{
    if p == seq!['.'] || p == seq!['_'] {
    } else {
        lemma_find_matches_sound(words, p);
    }
}

/// Every word of a permuted plain-lookup candidate list is as long as the
/// pattern the list was built for.
pub proof fn lemma_candidates_len(
    pre: Seq<String>,
    shuf: Seq<String>,
    words: Seq<Seq<char>>,
    p: Seq<char>,
)
    requires
        views_of(pre) == common_candidates(words, p) || views_of(pre) == find_matches(words, p),
        pre.to_multiset() == shuf.to_multiset(),
    ensures
        forall|i: int| 0 <= i < shuf.len() ==> (#[trigger] shuf[i])@.len() == p.len(),
{
    broadcast use vstd::seq_lib::group_to_multiset_ensures;

    lemma_common_candidates_len(words, p);
    lemma_find_matches_sound(words, p);
    assert forall|i: int| 0 <= i < shuf.len() implies (#[trigger] shuf[i])@.len() == p.len() by {
        assert(shuf.contains(shuf[i]));
        assert(shuf.to_multiset().count(shuf[i]) > 0);
        assert(pre.contains(shuf[i]));
        let k = choose|k: int| 0 <= k < pre.len() && pre[k] == shuf[i];
        assert(views_of(pre)[k] == shuf[i]@);
    }
}


/// Whether a candidate respects a pattern's fixed cells: blocked stays
/// blocked and a given letter stays itself; only wildcards are free.
pub open spec fn pattern_compat(c: Seq<char>, p: Seq<char>) -> bool {
    &&& c.len() == p.len()
    &&& forall|i: int|
        0 <= i < p.len() ==> ((p[i] == '_' ==> #[trigger] c[i] == '_') && (p[i] != '_' && p[i]
            != '.' ==> c[i] == p[i]))
}

/// Every candidate of a plain lookup respects the pattern's fixed cells.
pub proof fn lemma_common_candidates_compat(words: Seq<Seq<char>>, p: Seq<char>)
    ensures
        forall|k: int|
            0 <= k < common_candidates(words, p).len() ==> pattern_compat(
                #[trigger] common_candidates(words, p)[k],
                p,
            ),
{
    if p == seq!['.'] || p == seq!['_'] {
        assert(pattern_compat(common_candidates(words, p)[0], p));
    } else {
        lemma_find_matches_sound(words, p);
        assert forall|k: int| 0 <= k < find_matches(words, p).len() implies pattern_compat(
            #[trigger] find_matches(words, p)[k],
            p,
        ) by {
            let w = find_matches(words, p)[k];
            assert(forall|i: int| 0 <= i < p.len() ==> char_matches(p[i], #[trigger] w[i]));
        }
    }
}

proof fn lemma_cross_join_elem_compat(
    ls: Seq<Seq<char>>,
    rs: Seq<Seq<char>>,
    p: Seq<char>,
    i: int,
)
    requires
        0 <= i < p.len(),
        p[i] == '_',
        forall|k: int| 0 <= k < ls.len() ==> pattern_compat(#[trigger] ls[k], p.take(i)),
        forall|k: int| 0 <= k < rs.len() ==> pattern_compat(#[trigger] rs[k], p.skip(i + 1)),
    ensures
        forall|k: int|
            0 <= k < cross_join(ls, rs).len() ==> pattern_compat(
                #[trigger] cross_join(ls, rs)[k],
                p,
            ),
    decreases ls.len(),
{
    if ls.len() > 0 {
        lemma_cross_join_elem_compat(ls.drop_last(), rs, p, i);
        assert(forall|k: int|
            0 <= k < ls.len() - 1 ==> #[trigger] ls.drop_last()[k] == ls[k]);
        let blk = rs.map_values(|r: Seq<char>| ls.last() + seq!['_'] + r);
        assert forall|k: int| 0 <= k < blk.len() implies pattern_compat(#[trigger] blk[k], p) by {
            let c = ls.last() + seq!['_'] + rs[k];
            assert(blk[k] == c);
            assert(pattern_compat(ls.last(), p.take(i)));
            assert(pattern_compat(rs[k], p.skip(i + 1)));
            assert forall|j: int|
                0 <= j < p.len() implies ((p[j] == '_' ==> #[trigger] c[j] == '_') && (p[j] != '_'
                && p[j] != '.' ==> c[j] == p[j])) by {
                if j < i {
                    assert(c[j] == ls.last()[j]);
                    assert(p.take(i)[j] == p[j]);
                } else if j == i {
                    assert(c[j] == '_');
                } else {
                    assert(c[j] == rs[k][j - i - 1]);
                    assert(p.skip(i + 1)[j - i - 1] == p[j]);
                }
            }
        }
        assert(forall|k: int|
            0 <= k < cross_join(ls, rs).len() ==> #[trigger] cross_join(ls, rs)[k]
                == if k < cross_join(ls.drop_last(), rs).len() {
                    cross_join(ls.drop_last(), rs)[k]
                } else {
                    blk[k - cross_join(ls.drop_last(), rs).len()]
                });
    }
}

/// Every gap candidate respects the pattern's fixed cells.
pub proof fn lemma_gap_candidates_compat(words: Seq<Seq<char>>, p: Seq<char>)
    ensures
        forall|k: int|
            0 <= k < gap_candidates(words, p).len() ==> pattern_compat(
                #[trigger] gap_candidates(words, p)[k],
                p,
            ),
    decreases p.len(),
{
    if p == seq!['_'] {
        lemma_common_candidates_compat(words, p);
    } else if p.contains('_') {
        lemma_first_index_of(p, '_');
        let i = first_index_of(p, '_');
        if i == 0 {
            lemma_gap_candidates_compat(words, p.drop_first());
            let inner = gap_candidates(words, p.drop_first());
            assert forall|k: int| 0 <= k < inner.len() implies pattern_compat(
                #[trigger] prepend_all('_', inner)[k],
                p,
            ) by {
                let c = seq!['_'] + inner[k];
                assert(prepend_all('_', inner)[k] == c);
                assert(pattern_compat(inner[k], p.drop_first()));
                assert forall|j: int|
                    0 <= j < p.len() implies ((p[j] == '_' ==> #[trigger] c[j] == '_') && (p[j]
                    != '_' && p[j] != '.' ==> c[j] == p[j])) by {
                    if j > 0 {
                        assert(c[j] == inner[k][j - 1]);
                        assert(p.drop_first()[j - 1] == p[j]);
                    }
                }
            }
        } else if i == p.len() - 1 {
            lemma_gap_candidates_compat(words, p.take(i));
            let inner = gap_candidates(words, p.take(i));
            assert forall|k: int| 0 <= k < inner.len() implies pattern_compat(
                #[trigger] append_all(inner, '_')[k],
                p,
            ) by {
                let c = inner[k].push('_');
                assert(append_all(inner, '_')[k] == c);
                assert(pattern_compat(inner[k], p.take(i)));
                assert forall|j: int|
                    0 <= j < p.len() implies ((p[j] == '_' ==> #[trigger] c[j] == '_') && (p[j]
                    != '_' && p[j] != '.' ==> c[j] == p[j])) by {
                    if j < i {
                        assert(c[j] == inner[k][j]);
                        assert(p.take(i)[j] == p[j]);
                    } else {
                        assert(c[j] == '_');
                    }
                }
            }
        } else {
            lemma_gap_candidates_compat(words, p.take(i));
            lemma_gap_candidates_compat(words, p.skip(i + 1));
            lemma_cross_join_elem_compat(
                gap_candidates(words, p.take(i)),
                gap_candidates(words, p.skip(i + 1)),
                p,
                i,
            );
        }
    } else {
        lemma_common_candidates_compat(words, p);
    }
}

/// Every candidate of the widened lookup respects the pattern's fixed
/// cells: a new gap may only land on a wildcard.
pub proof fn lemma_split_candidates_compat(words: Seq<Seq<char>>, p: Seq<char>)
    ensures
        forall|k: int|
            0 <= k < split_candidates(words, p).len() ==> pattern_compat(
                #[trigger] split_candidates(words, p)[k],
                p,
            ),
{
    lemma_gap_candidates_compat(words, p);
    lemma_variants_upto_compat(words, p, p.len() as int);
}

proof fn lemma_variants_upto_compat(words: Seq<Seq<char>>, p: Seq<char>, i: int)
    requires
        i <= p.len(),
    ensures
        forall|k: int|
            0 <= k < variants_upto(words, p, i).len() ==> pattern_compat(
                #[trigger] variants_upto(words, p, i)[k],
                p,
            ),
    decreases i,
{
    if i > 0 {
        lemma_variants_upto_compat(words, p, i - 1);
        let prev = variants_upto(words, p, i - 1);
        let blk = if p[i - 1] == '.' {
            gap_candidates(words, p.update(i - 1, '_'))
        } else {
            Seq::<Seq<char>>::empty()
        };
        if p[i - 1] == '.' {
            let q = p.update(i - 1, '_');
            lemma_gap_candidates_compat(words, q);
            assert forall|k: int| 0 <= k < blk.len() implies pattern_compat(
                #[trigger] blk[k],
                p,
            ) by {
                assert(pattern_compat(blk[k], q));
                assert forall|j: int|
                    0 <= j < p.len() implies ((p[j] == '_' ==> #[trigger] blk[k][j] == '_') && (
                    p[j] != '_' && p[j] != '.' ==> blk[k][j] == p[j])) by {
                    if j != i - 1 {
                        assert(q[j] == p[j]);
                    }
                }
            }
        }
        assert forall|k: int| 0 <= k < variants_upto(words, p, i).len() implies pattern_compat(
            #[trigger] variants_upto(words, p, i)[k],
            p,
        ) by {
            if k < prev.len() {
                assert(variants_upto(words, p, i)[k] == prev[k]);
            } else {
                assert(variants_upto(words, p, i)[k] == blk[k - prev.len()]);
            }
        }
    }
}


proof fn lemma_cross_join_elem_chars(
    ls: Seq<Seq<char>>,
    rs: Seq<Seq<char>>,
    p: Seq<char>,
    i: int,
)
    requires
        0 <= i < p.len(),
        p[i] == '_',
        forall|k: int| 0 <= k < ls.len() ==> (#[trigger] ls[k]).len() == i,
        forall|k: int| 0 <= k < rs.len() ==> (#[trigger] rs[k]).len() == p.len() - i - 1,
        forall|k: int, j: int|
            0 <= k < ls.len() && 0 <= j < i ==> ((#[trigger] ls[k][j] == '_') <==> p.take(i)[j]
                == '_') && ls[k][j] != '\0',
        forall|k: int, j: int|
            0 <= k < rs.len() && 0 <= j < p.len() - i - 1 ==> ((#[trigger] rs[k][j] == '_')
                <==> p.skip(i + 1)[j] == '_') && rs[k][j] != '\0',
    ensures
        forall|k: int, j: int|
            0 <= k < cross_join(ls, rs).len() && 0 <= j < p.len() ==> ((
            #[trigger] cross_join(ls, rs)[k][j] == '_') <==> p[j] == '_') && cross_join(
                ls,
                rs,
            )[k][j] != '\0',
    decreases ls.len(),
{
    if ls.len() > 0 {
        lemma_cross_join_elem_chars(ls.drop_last(), rs, p, i);
        assert(forall|k: int| 0 <= k < ls.len() - 1 ==> #[trigger] ls.drop_last()[k] == ls[k]);
        let blk = rs.map_values(|r: Seq<char>| ls.last() + seq!['_'] + r);
        assert forall|k: int, j: int|
            0 <= k < blk.len() && 0 <= j < p.len() implies ((#[trigger] blk[k][j] == '_') <==> p[j]
            == '_') && blk[k][j] != '\0' by {
            let c = ls.last() + seq!['_'] + rs[k];
            assert(blk[k] == c);
            if j < i {
                assert(c[j] == ls.last()[j]);
                assert(p.take(i)[j] == p[j]);
            } else if j == i {
                assert(c[j] == '_');
            } else {
                assert(c[j] == rs[k][j - i - 1]);
                assert(p.skip(i + 1)[j - i - 1] == p[j]);
            }
        }
        assert(forall|k: int|
            0 <= k < cross_join(ls, rs).len() ==> #[trigger] cross_join(ls, rs)[k]
                == if k < cross_join(ls.drop_last(), rs).len() {
                    cross_join(ls.drop_last(), rs)[k]
                } else {
                    blk[k - cross_join(ls.drop_last(), rs).len()]
                });
    }
}

/// Over lowercase word lists, a gap candidate holds a blocked marker
/// exactly where its pattern does, and never an unset marker.
pub proof fn lemma_gap_candidates_chars(words: Seq<Seq<char>>, p: Seq<char>)
    requires
        lowercase_words(words),
    ensures
        forall|k: int, i: int|
            0 <= k < gap_candidates(words, p).len() && 0 <= i < p.len() ==> ((
            #[trigger] gap_candidates(words, p)[k][i] == '_') <==> p[i] == '_') && gap_candidates(
                words,
                p,
            )[k][i] != '\0',
    decreases p.len(),
{
    lemma_gap_candidates_len(words, p);
    if p == seq!['_'] {
        assert(gap_candidates(words, p)[0] == seq!['_']);
    } else if p.contains('_') {
        lemma_first_index_of(p, '_');
        let i = first_index_of(p, '_');
        if i == 0 {
            lemma_gap_candidates_chars(words, p.drop_first());
            lemma_gap_candidates_len(words, p.drop_first());
            let inner = gap_candidates(words, p.drop_first());
            assert forall|k: int, j: int|
                0 <= k < gap_candidates(words, p).len() && 0 <= j < p.len() implies ((
            #[trigger] gap_candidates(words, p)[k][j] == '_') <==> p[j] == '_') && gap_candidates(
                words,
                p,
            )[k][j] != '\0' by {
                let c = seq!['_'] + inner[k];
                assert(gap_candidates(words, p)[k] == c);
                if j > 0 {
                    assert(c[j] == inner[k][j - 1]);
                    assert(p.drop_first()[j - 1] == p[j]);
                } else {
                    assert(c[0] == '_');
                }
            }
        } else if i == p.len() - 1 {
            lemma_gap_candidates_chars(words, p.take(i));
            lemma_gap_candidates_len(words, p.take(i));
            let inner = gap_candidates(words, p.take(i));
            assert forall|k: int, j: int|
                0 <= k < gap_candidates(words, p).len() && 0 <= j < p.len() implies ((
            #[trigger] gap_candidates(words, p)[k][j] == '_') <==> p[j] == '_') && gap_candidates(
                words,
                p,
            )[k][j] != '\0' by {
                let c = inner[k].push('_');
                assert(gap_candidates(words, p)[k] == c);
                if j < i {
                    assert(c[j] == inner[k][j]);
                    assert(p.take(i)[j] == p[j]);
                } else {
                    assert(c[j] == '_');
                    assert(forall|m: int| 0 <= m < i ==> p[m] != '_');
                }
            }
        } else {
            lemma_gap_candidates_chars(words, p.take(i));
            lemma_gap_candidates_chars(words, p.skip(i + 1));
            lemma_gap_candidates_len(words, p.take(i));
            lemma_gap_candidates_len(words, p.skip(i + 1));
            lemma_cross_join_elem_chars(
                gap_candidates(words, p.take(i)),
                gap_candidates(words, p.skip(i + 1)),
                p,
                i,
            );
        }
    } else {
        assert forall|k: int, j: int|
            0 <= k < common_candidates(words, p).len() && 0 <= j < p.len() implies ((
        #[trigger] common_candidates(words, p)[k][j] == '_') <==> p[j] == '_') && common_candidates(
            words,
            p,
        )[k][j] != '\0' by {
            if p == seq!['.'] {
                assert(common_candidates(words, p)[k] == seq!['.']);
            } else {
                lemma_find_matches_sound(words, p);
                let c = find_matches(words, p)[k];
                assert(words.contains(c));
                let w = choose|w: int| 0 <= w < words.len() && words[w] == c;
                assert('a' <= words[w][j] <= 'z');
            }
        }
    }
}

/// Over lowercase word lists, a widened candidate never holds an unset
/// marker, and its blocked markers land only where the pattern already
/// had a gap or a wildcard.
pub proof fn lemma_split_candidates_chars(words: Seq<Seq<char>>, p: Seq<char>)
    requires
        lowercase_words(words),
    ensures
        forall|k: int, i: int|
            0 <= k < split_candidates(words, p).len() && 0 <= i < p.len() ==> ((
            #[trigger] split_candidates(words, p)[k][i] == '_' ==> p[i] == '_' || p[i] == '.')
                && split_candidates(words, p)[k][i] != '\0'),
{
    lemma_gap_candidates_chars(words, p);
    lemma_variants_upto_chars(words, p, p.len() as int);
    if p.contains('.') {
        let gaps = gap_candidates(words, p);
        assert forall|k: int, i: int|
            0 <= k < split_candidates(words, p).len() && 0 <= i < p.len() implies ((
        #[trigger] split_candidates(words, p)[k][i] == '_' ==> p[i] == '_' || p[i] == '.')
            && split_candidates(words, p)[k][i] != '\0') by {
            if k < gaps.len() {
                assert(split_candidates(words, p)[k] == gaps[k]);
            } else {
                assert(split_candidates(words, p)[k] == variants_upto(words, p, p.len() as int)[k
                    - gaps.len()]);
            }
        }
    }
}

proof fn lemma_variants_upto_chars(words: Seq<Seq<char>>, p: Seq<char>, i: int)
    requires
        lowercase_words(words),
        i <= p.len(),
    ensures
        forall|k: int, j: int|
            0 <= k < variants_upto(words, p, i).len() && 0 <= j < p.len() ==> ((
            #[trigger] variants_upto(words, p, i)[k][j] == '_' ==> p[j] == '_' || p[j] == '.')
                && variants_upto(words, p, i)[k][j] != '\0'),
    decreases i,
{
    if i > 0 {
        lemma_variants_upto_chars(words, p, i - 1);
        let prev = variants_upto(words, p, i - 1);
        let blk = if p[i - 1] == '.' {
            gap_candidates(words, p.update(i - 1, '_'))
        } else {
            Seq::<Seq<char>>::empty()
        };
        if p[i - 1] == '.' {
            lemma_gap_candidates_chars(words, p.update(i - 1, '_'));
        }
        assert forall|k: int, j: int|
            0 <= k < variants_upto(words, p, i).len() && 0 <= j < p.len() implies ((
        #[trigger] variants_upto(words, p, i)[k][j] == '_' ==> p[j] == '_' || p[j] == '.')
            && variants_upto(words, p, i)[k][j] != '\0') by {
            if k < prev.len() {
                assert(variants_upto(words, p, i)[k] == prev[k]);
            } else {
                let q = p.update(i - 1, '_');
                assert(variants_upto(words, p, i)[k] == blk[k - prev.len()]);
                assert((blk[k - prev.len()][j] == '_') <==> q[j] == '_');
                if j != i - 1 {
                    assert(q[j] == p[j]);
                }
            }
        }
    }
}

/// Whether `word` matches `pattern`: equal lengths, and each pattern
/// character is either `.` or equal to the word character at that position.
pub fn match_pattern(word: &String, pattern: &String) -> (r: bool)
    ensures
        r == word_matches(word@, pattern@),
{
    let wlen = word.as_str().unicode_len();
    let plen = pattern.as_str().unicode_len();
    if wlen != plen {
        return false;
    }
    let mut i: usize = 0;
    while i < plen
        invariant
            plen == pattern@.len(),
            wlen == word@.len(),
            wlen == plen,
            0 <= i <= plen,
            forall|j: int| 0 <= j < i ==> char_matches(pattern@[j], word@[j]),
        decreases plen - i,
    {
        let pc = pattern.as_str().get_char(i);
        let wc = word.as_str().get_char(i);
        if !(pc == '.' || pc == wc) {
            return false;
        }
        i += 1;
    }
    true
}

} // verus!

