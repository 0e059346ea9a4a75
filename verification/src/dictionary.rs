use vstd::prelude::*;

use crate::pattern::{
    clean_window, common_candidates, cross_join, find_matches, first_index_of, gap_candidates,
    has_forbidden, lemma_cross_join_empty_right, lemma_first_index_of, match_pattern, prepend_all,
    split_candidates, variants_upto, views_of, word_matches,
};
use crate::text::{chars_of, push_char, string_contains, string_find, string_of, string_eq_chars};

verus! {

/// The word lists that drive the search: frequency-filtered common words,
/// the exhaustive list, and the forbidden two- and three-letter sequences.
/// All three are immutable for the lifetime of a search.
pub struct Dictionary {
    pub common_words: Vec<String>,
    pub all_words: Vec<String>,
    pub forbidden_tuples: Vec<String>,
}

impl Dictionary {
    /// Builds a dictionary out of the three word lists. Loading them from
    /// storage is the caller's business.
    pub fn new(common_words: Vec<String>, all_words: Vec<String>, forbidden_tuples: Vec<String>) -> (r:
        Dictionary)
        ensures
            r.common_words@ == common_words@,
            r.all_words@ == all_words@,
            r.forbidden_tuples@ == forbidden_tuples@,
    {
        Dictionary { common_words, all_words, forbidden_tuples }
    }

    /// The common words that match the pattern, in list order; the
    /// one-character patterns `.` and `_` answer themselves.
    pub fn find_common_candidates(&self, pattern: String) -> (r: Result<Vec<String>, ()>)
        ensures
            r is Ok,
            views_of(r->Ok_0@) == common_candidates(views_of(self.common_words@), pattern@),
    {
        let plen = pattern.as_str().unicode_len();
        if plen == 1 && pattern.as_str().get_char(0) == '.' {
            proof {
                assert(pattern@ =~= seq!['.']);
            }
            let mut out: Vec<String> = Vec::new();
            let mut dot = String::new();
            push_char(&mut dot, '.');
            out.push(dot);
            proof {
                assert(views_of(out@) =~= seq![seq!['.']]);
            }
            return Ok(out);
        }
        if plen == 1 && pattern.as_str().get_char(0) == '_' {
            proof {
                assert(pattern@ =~= seq!['_']);
            }
            let mut out: Vec<String> = Vec::new();
            let mut gap = String::new();
            push_char(&mut gap, '_');
            out.push(gap);
            proof {
                assert(views_of(out@) =~= seq![seq!['_']]);
            }
            return Ok(out);
        }
        proof {
            assert(pattern@ != seq!['.']);
            assert(pattern@ != seq!['_']);
        }
        let out = filter_matching(&self.common_words, &pattern);
        Ok(out)
    }

    /// The words of the exhaustive list that match the pattern, in list
    /// order.
    pub fn _find_all_candidates(&self, pattern: String) -> (r: Result<Vec<String>, ()>)
        ensures
            r is Ok,
            views_of(r->Ok_0@) == find_matches(views_of(self.all_words@), pattern@),
    {
        let out = filter_matching(&self.all_words, &pattern);
        Ok(out)
    }

    /// The candidates for a pattern that may hold forced blocked cells.
    /// The pattern is partitioned at its leftmost `_`: a leading or
    /// trailing `_` is carried over onto every candidate of the rest, and
    /// an interior `_` combines every pair of candidates of the two sides.
    pub fn recursive_find_candidates(&self, pattern: String) -> (r: Result<Vec<String>, ()>)
        ensures
            r is Ok,
            views_of(r->Ok_0@) == gap_candidates(views_of(self.common_words@), pattern@),
        decreases pattern@.len(),
    {
        let ghost words = views_of(self.common_words@);
        let plen = pattern.as_str().unicode_len();
        if plen == 1 && pattern.as_str().get_char(0) == '_' {
            proof {
                assert(pattern@ =~= seq!['_']);
            }
            return self.find_common_candidates(pattern);
        }
        proof {
            assert(pattern@ != seq!['_']);
        }
        match string_find(&pattern, '_') {
            None => {
                proof {
                    assert(!pattern@.contains('_'));
                }
                self.find_common_candidates(pattern)
            },
            Some(index) => {
                proof {
                    assert(pattern@.contains('_')) by {
                        assert(pattern@[index as int] == '_');
                    }
                    lemma_first_index_of(pattern@, '_');
                    let fi = first_index_of(pattern@, '_');
                    assert(fi == index) by {
                        if fi < index {
                            assert(pattern@[fi] != '_');
                        }
                        if fi > index {
                            assert(pattern@[index as int] != '_');
                        }
                    }
                }
                if index == 0 {
                    let sub = String::from_str(pattern.as_str().substring_char(1, plen));
                    proof {
                        assert(sub@ =~= pattern@.drop_first());
                    }
                    match self.recursive_find_candidates(sub) {
                        Err(e) => Err(e),
                        Ok(cands) => {
                            let mut out: Vec<String> = Vec::new();
                            let mut i: usize = 0;
                            while i < cands.len()
                                invariant
                                    0 <= i <= cands@.len(),
                                    out@.len() == i,
                                    forall|j: int|
                                        0 <= j < i ==> out@[j]@ == seq!['_'] + #[trigger] cands@[j]@,
                                decreases cands@.len() - i,
                            {
                                let mut s = String::new();
                                push_char(&mut s, '_');
                                s.append(cands[i].as_str());
                                out.push(s);
                                i += 1;
                            }
                            proof {
                                assert(views_of(out@) =~= prepend_all('_', views_of(cands@)));
                            }
                            Ok(out)
                        },
                    }
                } else if index == plen - 1 {
                    let sub = String::from_str(pattern.as_str().substring_char(0, index));
                    proof {
                        assert(sub@ =~= pattern@.take(index as int));
                    }
                    match self.recursive_find_candidates(sub) {
                        Err(e) => Err(e),
                        Ok(cands) => {
                            let mut out: Vec<String> = Vec::new();
                            let mut i: usize = 0;
                            while i < cands.len()
                                invariant
                                    0 <= i <= cands@.len(),
                                    out@.len() == i,
                                    forall|j: int|
                                        0 <= j < i ==> out@[j]@ == (#[trigger] cands@[j]@).push('_'),
                                decreases cands@.len() - i,
                            {
                                let mut s = cands[i].clone();
                                push_char(&mut s, '_');
                                out.push(s);
                                i += 1;
                            }
                            proof {
                                assert(views_of(out@) =~= crate::pattern::append_all(
                                    views_of(cands@),
                                    '_',
                                ));
                            }
                            Ok(out)
                        },
                    }
                } else {
                    let left = String::from_str(pattern.as_str().substring_char(0, index));
                    let right = String::from_str(pattern.as_str().substring_char(index + 1, plen));
                    proof {
                        assert(left@ =~= pattern@.take(index as int));
                        assert(right@ =~= pattern@.skip(index + 1));
                    }
                    let lefts = match self.recursive_find_candidates(left) {
                        Err(e) => {
                            return Err(e);
                        },
                        Ok(v) => v,
                    };
                    let rights = match self.recursive_find_candidates(right) {
                        Err(e) => {
                            return Err(e);
                        },
                        Ok(v) => v,
                    };
                    let ghost lviews = views_of(lefts@);
                    let ghost rviews = views_of(rights@);
                    if lefts.len() == 0 {
                        let out: Vec<String> = Vec::new();
                        proof {
                            assert(views_of(out@) =~= cross_join(lviews, rviews));
                        }
                        return Ok(out);
                    }
                    if rights.len() == 0 {
                        let out: Vec<String> = Vec::new();
                        proof {
                            lemma_cross_join_empty_right(lviews, rviews);
                            assert(views_of(out@) =~= cross_join(lviews, rviews));
                        }
                        return Ok(out);
                    }
                    let mut out: Vec<String> = Vec::new();
                    let mut li: usize = 0;
                    while li < lefts.len()
                        invariant
                            0 <= li <= lefts@.len(),
                            lviews == views_of(lefts@),
                            rviews == views_of(rights@),
                            views_of(out@) == cross_join(lviews.take(li as int), rviews),
                        decreases lefts@.len() - li,
                    {
                        let mut ri: usize = 0;
                        let ghost blk = rviews.map_values(
                            |r: Seq<char>| lviews[li as int] + seq!['_'] + r,
                        );
                        while ri < rights.len()
                            invariant
                                0 <= li < lefts@.len(),
                                0 <= ri <= rights@.len(),
                                lviews == views_of(lefts@),
                                rviews == views_of(rights@),
                                blk == rviews.map_values(
                                    |r: Seq<char>| lviews[li as int] + seq!['_'] + r,
                                ),
                                views_of(out@) == cross_join(lviews.take(li as int), rviews)
                                    + blk.take(ri as int),
                            decreases rights@.len() - ri,
                        {
                            let mut s = lefts[li].clone();
                            push_char(&mut s, '_');
                            s.append(rights[ri].as_str());
                            let ghost prev = views_of(out@);
                            out.push(s);
                            proof {
                                assert(s@ =~= blk[ri as int]);
                                assert(views_of(out@) =~= prev.push(s@));
                                assert(blk.take(ri as int).push(blk[ri as int]) =~= blk.take(
                                    ri + 1,
                                ));
                                assert(views_of(out@) =~= cross_join(lviews.take(li as int), rviews)
                                    + blk.take(ri + 1));
                            }
                            ri += 1;
                        }
                        proof {
                            assert(blk.take(rviews.len() as int) =~= blk);
                            assert(lviews.take(li + 1).drop_last() =~= lviews.take(li as int));
                            assert(lviews.take(li + 1).last() == lviews[li as int]);
                            assert(views_of(out@) =~= cross_join(lviews.take(li + 1), rviews));
                        }
                        li += 1;
                    }
                    proof {
                        assert(lviews.take(lviews.len() as int) =~= lviews);
                    }
                    Ok(out)
                }
            },
        }
    }

    /// The candidates for a pattern when the search may introduce new
    /// blocked cells: for a pattern holding a `.`, the plain candidates are
    /// followed by those of every variant that turns one `.` into `_`.
    pub fn find_candidates_allow_split(&self, pattern: String) -> (r: Result<Vec<String>, ()>)
        ensures
            r is Ok,
            views_of(r->Ok_0@) == split_candidates(views_of(self.common_words@), pattern@),
        decreases pattern@.len() + 1,
    {
        let ghost words = views_of(self.common_words@);
        if string_contains(&pattern, '.') {
            let mut res = match self.recursive_find_candidates(pattern.clone()) {
                Err(e) => {
                    return Err(e);
                },
                Ok(v) => v,
            };
            let plen = pattern.as_str().unicode_len();
            let mut i: usize = 0;
            while i < plen
                invariant
                    0 <= i <= plen,
                    plen == pattern@.len(),
                    words == views_of(self.common_words@),
                    views_of(res@) == gap_candidates(words, pattern@) + variants_upto(
                        words,
                        pattern@,
                        i as int,
                    ),
                decreases plen - i,
            {
                if pattern.as_str().get_char(i) == '.' {
                    let mut cv = chars_of(pattern.as_str());
                    cv.set(i, '_');
                    let sp = string_of(&cv);
                    proof {
                        assert(sp@ =~= pattern@.update(i as int, '_'));
                    }
                    let mut cands = match self.recursive_find_candidates(sp) {
                        Err(e) => {
                            return Err(e);
                        },
                        Ok(v) => v,
                    };
                    let ghost prev = views_of(res@);
                    let ghost cviews = views_of(cands@);
                    res.append(&mut cands);
                    proof {
                        assert(views_of(res@) =~= prev + cviews);
                        assert(variants_upto(words, pattern@, i + 1) == variants_upto(
                            words,
                            pattern@,
                            i as int,
                        ) + gap_candidates(words, pattern@.update(i as int, '_')));
                        assert(views_of(res@) =~= gap_candidates(words, pattern@) + variants_upto(
                            words,
                            pattern@,
                            i + 1,
                        ));
                    }
                } else {
                    proof {
                        assert(variants_upto(words, pattern@, i + 1) =~= variants_upto(
                            words,
                            pattern@,
                            i as int,
                        ));
                    }
                }
                i += 1;
            }
            Ok(res)
        } else {
            proof {
                assert(!pattern@.contains('.'));
            }
            self.recursive_find_candidates(pattern)
        }
    }

    /// Whether any clean two- or three-character window of the line's text
    /// appears in the forbidden-tuple list.
    pub fn has_forbidden_tuples(&self, pattern: String) -> (r: Result<bool, ()>)
        ensures
            r is Ok,
            r->Ok_0 == has_forbidden(views_of(self.forbidden_tuples@), pattern@),
    {
        let ghost tuples = views_of(self.forbidden_tuples@);
        let cv = chars_of(pattern.as_str());
        let n = cv.len();
        if n > 1 {
            let mut i: usize = 0;
            while i < n - 1
                invariant
                    n > 1,
                    0 <= i <= n,
                    n == pattern@.len(),
                    cv@ == pattern@,
                    tuples == views_of(self.forbidden_tuples@),
                    forall|j: int|
                        0 <= j < i ==> !(clean_window(#[trigger] pattern@.subrange(j, j + 2))
                            && tuples.contains(pattern@.subrange(j, j + 2))),
                decreases n - i,
            {
                let a = cv[i];
                let b = cv[i + 1];
                let ghost w = pattern@.subrange(i as int, i + 2);
                proof {
                    assert(w.len() == 2 && w[0] == a && w[1] == b);
                }
                if a != '\0' && b != '\0' && a != '_' && b != '_' {
                    proof {
                        assert(clean_window(w)) by {
                            assert(forall|k: int| 0 <= k < w.len() ==> w[k] != '\0' && w[k] != '_');
                        }
                    }
                    let mut duo: Vec<char> = Vec::new();
                    duo.push(a);
                    duo.push(b);
                    proof {
                        assert(duo@ =~= w);
                    }
                    if tuples_contain(&self.forbidden_tuples, &duo) {
                        return Ok(true);
                    }
                } else {
                    proof {
                        assert(!clean_window(w));
                    }
                }
                i += 1;
            }
        }
        if n > 2 {
            let mut i: usize = 0;
            while i < n - 2
                invariant
                    n > 2,
                    0 <= i <= n,
                    n == pattern@.len(),
                    cv@ == pattern@,
                    tuples == views_of(self.forbidden_tuples@),
                    forall|j: int|
                        0 <= j < i ==> !(clean_window(#[trigger] pattern@.subrange(j, j + 3))
                            && tuples.contains(pattern@.subrange(j, j + 3))),
                    forall|j: int|
                        0 <= j && j + 2 <= pattern@.len() ==> !(clean_window(
                            #[trigger] pattern@.subrange(j, j + 2),
                        ) && tuples.contains(pattern@.subrange(j, j + 2))),
                decreases n - i,
            {
                let a = cv[i];
                let b = cv[i + 1];
                let c = cv[i + 2];
                let ghost w = pattern@.subrange(i as int, i + 3);
                proof {
                    assert(w.len() == 3 && w[0] == a && w[1] == b && w[2] == c);
                }
                if a != '\0' && b != '\0' && c != '\0' && a != '_' && b != '_' && c != '_' {
                    proof {
                        assert(clean_window(w)) by {
                            assert(forall|k: int| 0 <= k < w.len() ==> w[k] != '\0' && w[k] != '_');
                        }
                    }
                    let mut trio: Vec<char> = Vec::new();
                    trio.push(a);
                    trio.push(b);
                    trio.push(c);
                    proof {
                        assert(trio@ =~= w);
                    }
                    if tuples_contain(&self.forbidden_tuples, &trio) {
                        return Ok(true);
                    }
                } else {
                    proof {
                        assert(!clean_window(w));
                    }
                }
                i += 1;
            }
        }
        proof {
            assert(!has_forbidden(tuples, pattern@)) by {
                if exists|i: int|
                    0 <= i && i + 2 <= pattern@.len() && clean_window(
                        #[trigger] pattern@.subrange(i, i + 2),
                    ) && tuples.contains(pattern@.subrange(i, i + 2)) {
                    let i = choose|i: int|
                        0 <= i && i + 2 <= pattern@.len() && clean_window(
                            #[trigger] pattern@.subrange(i, i + 2),
                        ) && tuples.contains(pattern@.subrange(i, i + 2));
                    assert(pattern@.len() > 1);
                    assert(false);
                }
                if exists|i: int|
                    0 <= i && i + 3 <= pattern@.len() && clean_window(
                        #[trigger] pattern@.subrange(i, i + 3),
                    ) && tuples.contains(pattern@.subrange(i, i + 3)) {
                    let i = choose|i: int|
                        0 <= i && i + 3 <= pattern@.len() && clean_window(
                            #[trigger] pattern@.subrange(i, i + 3),
                        ) && tuples.contains(pattern@.subrange(i, i + 3));
                    assert(pattern@.len() > 2);
                    assert(false);
                }
            }
        }
        Ok(false)
    }
}

/// The words of `words` that match `pattern`, in list order.
fn filter_matching(words: &Vec<String>, pattern: &String) -> (r: Vec<String>)
    ensures
        views_of(r@) == find_matches(views_of(words@), pattern@),
{
    let mut out: Vec<String> = Vec::new();
    let mut i: usize = 0;
    while i < words.len()
        invariant
            0 <= i <= words@.len(),
            views_of(out@) == find_matches(views_of(words@).take(i as int), pattern@),
        decreases words@.len() - i,
    {
        proof {
            assert(views_of(words@).take(i + 1).drop_last() =~= views_of(words@).take(i as int));
            assert(views_of(words@).take(i + 1).last() == words@[i as int]@);
        }
        if match_pattern(&words[i], pattern) {
            out.push(words[i].clone());
            proof {
                assert(views_of(out@) =~= find_matches(views_of(words@).take(i + 1), pattern@));
            }
        } else {
            proof {
                assert(views_of(out@) =~= find_matches(views_of(words@).take(i + 1), pattern@));
            }
        }
        i += 1;
    }
    proof {
        assert(views_of(words@).take(words@.len() as int) =~= views_of(words@));
    }
    out
}

/// Whether one of the tuples equals the window held in `w`.
fn tuples_contain(tuples: &Vec<String>, w: &Vec<char>) -> (r: bool)
    ensures
        r == views_of(tuples@).contains(w@),
{
    let mut i: usize = 0;
    while i < tuples.len()
        invariant
            0 <= i <= tuples@.len(),
            forall|j: int| 0 <= j < i ==> views_of(tuples@)[j] != w@,
        decreases tuples@.len() - i,
    {
        if string_eq_chars(&tuples[i], w) {
            assert(views_of(tuples@)[i as int] == w@);
            return true;
        }
        i += 1;
    }
    proof {
        if views_of(tuples@).contains(w@) {
            let k = choose|k: int| 0 <= k < views_of(tuples@).len() && views_of(tuples@)[k] == w@;
            assert(false);
        }
    }
    false
}

} // verus!
