use vstd::prelude::*;

use crate::dictionary::Dictionary;
use crate::pattern::{
    char_matches, find_matches, has_repeat, lemma_candidate_props, lowercase_words, views_of,
    word_matches,
};
use crate::rng::shuffle_strings;
use crate::text::{clone_strings, push_char};

verus! {

/// A five-by-five waffle: three horizontal and three vertical five-letter
/// words crossing on a fixed lattice.
#[derive(Debug)]
pub struct Waffle {
    pub top_word: String,
    pub bottom_word: String,
    pub left_word: String,
    pub right_word: String,
    pub horizontal_word: String,
    pub vertical_word: String,
}

impl Waffle {
    /// Searches the common list for six words that interlock on the waffle
    /// lattice. Every word of a returned waffle comes from the common list
    /// and agrees with its crossing words on the shared cells.
    #[verifier::loop_isolation(false)]
    pub fn generate(dictionary: Dictionary) -> (r: Result<Waffle, ()>)
        requires
            lowercase_words(views_of(dictionary.common_words@)),
        ensures
            (match r {
                Ok(w) => {
                    let words = views_of(dictionary.common_words@);
                    &&& w.top_word@.len() == 5
                    &&& w.bottom_word@.len() == 5
                    &&& w.left_word@.len() == 5
                    &&& w.right_word@.len() == 5
                    &&& w.horizontal_word@.len() == 5
                    &&& w.vertical_word@.len() == 5
                    &&& words.contains(w.top_word@)
                    &&& words.contains(w.bottom_word@)
                    &&& words.contains(w.left_word@)
                    &&& words.contains(w.right_word@)
                    &&& words.contains(w.horizontal_word@)
                    &&& words.contains(w.vertical_word@)
                    &&& w.left_word@[0] == w.top_word@[0]
                    &&& w.horizontal_word@[0] == w.left_word@[2]
                    &&& w.vertical_word@[0] == w.top_word@[2]
                    &&& w.vertical_word@[2] == w.horizontal_word@[2]
                    &&& w.bottom_word@[0] == w.left_word@[4]
                    &&& w.bottom_word@[2] == w.vertical_word@[4]
                    &&& w.right_word@[0] == w.top_word@[4]
                    &&& w.right_word@[2] == w.horizontal_word@[4]
                    &&& w.right_word@[4] == w.bottom_word@[4]
                },
                Err(()) => true,
            }),
    {
        let ghost words = views_of(dictionary.common_words@);
        let mut top_pattern = String::new();
        push_char(&mut top_pattern, '.');
        push_char(&mut top_pattern, '.');
        push_char(&mut top_pattern, '.');
        push_char(&mut top_pattern, '.');
        push_char(&mut top_pattern, '.');
        proof {
            assert(top_pattern@ =~= seq!['.', '.', '.', '.', '.']);
        }
        let mut top_candidates = match dictionary.find_common_candidates(top_pattern) {
            Ok(v) => v,
            Err(e) => {
                return Err(e);
            },
        };
        let ghost top_pre = top_candidates@;
        shuffle_strings(&mut top_candidates);
        let mut ti: usize = 0;
        while ti < top_candidates.len()
            invariant
                lowercase_words(words),
                words == views_of(dictionary.common_words@),
                views_of(top_pre) == find_matches(words, seq!['.', '.', '.', '.', '.']),
                top_pre.to_multiset() == top_candidates@.to_multiset(),
                0 <= ti <= top_candidates@.len(),
            decreases top_candidates@.len() - ti,
        {
            let top = &top_candidates[ti];
            proof {
                lemma_candidate_props(
                    top_pre,
                    top_candidates@,
                    words,
                    seq!['.', '.', '.', '.', '.'],
                    ti as int,
                );
            }
            let mut left_pattern = String::new();
            push_char(&mut left_pattern, top.as_str().get_char(0));
            push_char(&mut left_pattern, '.');
            push_char(&mut left_pattern, '.');
            push_char(&mut left_pattern, '.');
            push_char(&mut left_pattern, '.');
            let ghost lp = left_pattern@;
            let mut left_candidates = match dictionary.find_common_candidates(left_pattern) {
                Ok(v) => v,
                Err(e) => {
                    return Err(e);
                },
            };
            let ghost left_pre = left_candidates@;
            shuffle_strings(&mut left_candidates);
            let mut li: usize = 0;
            while li < left_candidates.len()
                invariant
                    lowercase_words(words),
                    words == views_of(dictionary.common_words@),
                    words.contains(top@),
                    top@.len() == 5,
                    lp == seq![top@[0], '.', '.', '.', '.'],
                    views_of(left_pre) == find_matches(words, lp),
                    left_pre.to_multiset() == left_candidates@.to_multiset(),
                    0 <= ti < top_candidates@.len(),
                    0 <= li <= left_candidates@.len(),
                decreases left_candidates@.len() - li,
            {
                let left = &left_candidates[li];
                proof {
                    lemma_candidate_props(left_pre, left_candidates@, words, lp, li as int);
                    assert(char_matches(lp[0], left@[0]));
                }
                let mut horizontal_pattern = String::new();
                push_char(&mut horizontal_pattern, left.as_str().get_char(2));
                push_char(&mut horizontal_pattern, '.');
                push_char(&mut horizontal_pattern, '.');
                push_char(&mut horizontal_pattern, '.');
                push_char(&mut horizontal_pattern, '.');
                let ghost hp = horizontal_pattern@;
                let mut horizontal_candidates = match dictionary.find_common_candidates(
                    horizontal_pattern,
                ) {
                    Ok(v) => v,
                    Err(e) => {
                        return Err(e);
                    },
                };
                let ghost horizontal_pre = horizontal_candidates@;
                shuffle_strings(&mut horizontal_candidates);
                let mut hi: usize = 0;
                while hi < horizontal_candidates.len()
                    invariant
                        lowercase_words(words),
                        words == views_of(dictionary.common_words@),
                        words.contains(top@),
                        words.contains(left@),
                        top@.len() == 5,
                        left@.len() == 5,
                        left@[0] == top@[0],
                        hp == seq![left@[2], '.', '.', '.', '.'],
                        views_of(horizontal_pre) == find_matches(words, hp),
                        horizontal_pre.to_multiset() == horizontal_candidates@.to_multiset(),
                        0 <= ti < top_candidates@.len(),
                        0 <= li < left_candidates@.len(),
                        0 <= hi <= horizontal_candidates@.len(),
                    decreases horizontal_candidates@.len() - hi,
                {
                    let horizontal = &horizontal_candidates[hi];
                    proof {
                        lemma_candidate_props(
                            horizontal_pre,
                            horizontal_candidates@,
                            words,
                            hp,
                            hi as int,
                        );
                        assert(char_matches(hp[0], horizontal@[0]));
                    }
                    let mut vertical_pattern = String::new();
                    push_char(&mut vertical_pattern, top.as_str().get_char(2));
                    push_char(&mut vertical_pattern, '.');
                    push_char(&mut vertical_pattern, horizontal.as_str().get_char(2));
                    push_char(&mut vertical_pattern, '.');
                    push_char(&mut vertical_pattern, '.');
                    let ghost vp = vertical_pattern@;
                    let mut vertical_candidates = match dictionary.find_common_candidates(
                        vertical_pattern,
                    ) {
                        Ok(v) => v,
                        Err(e) => {
                            return Err(e);
                        },
                    };
                    let ghost vertical_pre = vertical_candidates@;
                    shuffle_strings(&mut vertical_candidates);
                    let mut vi: usize = 0;
                    while vi < vertical_candidates.len()
                        invariant
                            lowercase_words(words),
                            words == views_of(dictionary.common_words@),
                            words.contains(top@),
                            words.contains(left@),
                            words.contains(horizontal@),
                            top@.len() == 5,
                            left@.len() == 5,
                            horizontal@.len() == 5,
                            left@[0] == top@[0],
                            horizontal@[0] == left@[2],
                            vp == seq![top@[2], '.', horizontal@[2], '.', '.'],
                            views_of(vertical_pre) == find_matches(words, vp),
                            vertical_pre.to_multiset() == vertical_candidates@.to_multiset(),
                            0 <= ti < top_candidates@.len(),
                            0 <= li < left_candidates@.len(),
                            0 <= hi < horizontal_candidates@.len(),
                            0 <= vi <= vertical_candidates@.len(),
                        decreases vertical_candidates@.len() - vi,
                    {
                        let vertical = &vertical_candidates[vi];
                        proof {
                            lemma_candidate_props(
                                vertical_pre,
                                vertical_candidates@,
                                words,
                                vp,
                                vi as int,
                            );
                            assert(char_matches(vp[0], vertical@[0]));
                            assert(char_matches(vp[2], vertical@[2]));
                        }
                        let mut bottom_pattern = String::new();
                        push_char(&mut bottom_pattern, left.as_str().get_char(4));
                        push_char(&mut bottom_pattern, '.');
                        push_char(&mut bottom_pattern, vertical.as_str().get_char(4));
                        push_char(&mut bottom_pattern, '.');
                        push_char(&mut bottom_pattern, '.');
                        let ghost bp = bottom_pattern@;
                        let mut bottom_candidates = match dictionary.find_common_candidates(
                            bottom_pattern,
                        ) {
                            Ok(v) => v,
                            Err(e) => {
                                return Err(e);
                            },
                        };
                        let ghost bottom_pre = bottom_candidates@;
                        shuffle_strings(&mut bottom_candidates);
                        let mut bi: usize = 0;
                        while bi < bottom_candidates.len()
                            invariant
                                lowercase_words(words),
                                words == views_of(dictionary.common_words@),
                                words.contains(top@),
                                words.contains(left@),
                                words.contains(horizontal@),
                                words.contains(vertical@),
                                top@.len() == 5,
                                left@.len() == 5,
                                horizontal@.len() == 5,
                                vertical@.len() == 5,
                                left@[0] == top@[0],
                                horizontal@[0] == left@[2],
                                vertical@[0] == top@[2],
                                vertical@[2] == horizontal@[2],
                                bp == seq![left@[4], '.', vertical@[4], '.', '.'],
                                views_of(bottom_pre) == find_matches(words, bp),
                                bottom_pre.to_multiset() == bottom_candidates@.to_multiset(),
                                0 <= ti < top_candidates@.len(),
                                0 <= li < left_candidates@.len(),
                                0 <= hi < horizontal_candidates@.len(),
                                0 <= vi < vertical_candidates@.len(),
                                0 <= bi <= bottom_candidates@.len(),
                            decreases bottom_candidates@.len() - bi,
                        {
                            let bottom = &bottom_candidates[bi];
                            proof {
                                lemma_candidate_props(
                                    bottom_pre,
                                    bottom_candidates@,
                                    words,
                                    bp,
                                    bi as int,
                                );
                                assert(char_matches(bp[0], bottom@[0]));
                                assert(char_matches(bp[2], bottom@[2]));
                            }
                            let mut right_pattern = String::new();
                            push_char(&mut right_pattern, top.as_str().get_char(4));
                            push_char(&mut right_pattern, '.');
                            push_char(&mut right_pattern, horizontal.as_str().get_char(4));
                            push_char(&mut right_pattern, '.');
                            push_char(&mut right_pattern, bottom.as_str().get_char(4));
                            let ghost rp = right_pattern@;
                            let mut right_candidates = match dictionary.find_common_candidates(
                                right_pattern,
                            ) {
                                Ok(v) => v,
                                Err(e) => {
                                    return Err(e);
                                },
                            };
                            let ghost right_pre = right_candidates@;
                            shuffle_strings(&mut right_candidates);
                            if right_candidates.len() > 0 {
                                let right = &right_candidates[0];
                                proof {
                                    lemma_candidate_props(
                                        right_pre,
                                        right_candidates@,
                                        words,
                                        rp,
                                        0,
                                    );
                                    assert(char_matches(rp[0], right@[0]));
                                    assert(char_matches(rp[2], right@[2]));
                                    assert(char_matches(rp[4], right@[4]));
                                }
                                let waffle = Waffle {
                                    top_word: top.clone(),
                                    left_word: left.clone(),
                                    bottom_word: bottom.clone(),
                                    right_word: right.clone(),
                                    horizontal_word: horizontal.clone(),
                                    vertical_word: vertical.clone(),
                                };
                                return Ok(waffle);
                            }
                            bi += 1;
                        }
                        vi += 1;
                    }
                    hi += 1;
                }
                li += 1;
            }
            ti += 1;
        }
        Err(())
    }
}

/// The pattern a partially filled eight-word waffle asks the dictionary
/// for next, as a function of how many words it already holds.
pub open spec fn waffle2_pattern(ws: Seq<Seq<char>>) -> Seq<char> {
    let n = ws.len();
    if n == 1 {
        seq![ws[0][0], '.', '.', '.', '.', '.', '.']
    } else if n == 2 {
        seq![ws[1][2], '.', '.', '.', '.', '.', '.']
    } else if n == 3 {
        seq![ws[0][2], '.', ws[2][2], '.', '.', '.', '.']
    } else if n == 4 {
        seq![ws[1][4], '.', ws[3][4], '.', '.', '.', '.']
    } else if n == 5 {
        seq![ws[0][4], '.', ws[2][4], '.', ws[4][4], '.', '.']
    } else if n == 6 {
        seq![ws[1][6], '.', ws[3][6], '.', ws[5][6], '.', '.']
    } else if n == 7 {
        seq![ws[0][6], '.', ws[2][6], '.', ws[4][6], '.', ws[6][6]]
    } else {
        seq!['.', '.', '.', '.', '.', '.', '.']
    }
}

/// A larger waffle laid out as a flat list of eight seven-letter words,
/// horizontal and vertical words alternating.
#[derive(Debug)]
pub struct Waffle2 {
    pub words: Vec<String>,
}

impl Waffle2 {
    /// Every word the waffle holds so far is seven letters long.
    pub open spec fn wf(&self) -> bool {
        forall|k: int| 0 <= k < self.words@.len() ==> (#[trigger] self.words@[k]@).len() == 7
    }

    /// A waffle is complete when it holds its eight words.
    pub fn is_complete(&self) -> (r: bool)
        ensures
            r == (self.words@.len() == 8),
    {
        self.words.len() == 8
    }

    /// Whether the same word occurs twice in the waffle.
    pub fn has_duplicates(&self) -> (r: bool)
        ensures
            r == has_repeat(views_of(self.words@)),
    {
        let ghost ws = views_of(self.words@);
        let n = self.words.len();
        let mut i: usize = 0;
        while i < n
            invariant
                n == self.words@.len(),
                ws == views_of(self.words@),
                0 <= i <= n,
                forall|a: int, b: int| #![trigger ws[a], ws[b]] 0 <= a < b < n && a < i ==> ws[a] != ws[b],
            decreases n - i,
        {
            let mut j: usize = i + 1;
            while j < n
                invariant
                    n == self.words@.len(),
                    ws == views_of(self.words@),
                    0 <= i < n,
                    i < j <= n,
                    forall|a: int, b: int| #![trigger ws[a], ws[b]] 0 <= a < b < n && a < i ==> ws[a] != ws[b],
                    forall|b: int| i < b < j ==> ws[i as int] != #[trigger] ws[b],
                decreases n - j,
            {
                if self.words[i] == self.words[j] {
                    proof {
                        assert(ws[i as int] == ws[j as int]);
                    }
                    return true;
                }
                j += 1;
            }
            i += 1;
        }
        proof {
            if has_repeat(ws) {
                let (a, b) = choose|a: int, b: int|
                    #![trigger ws[a], ws[b]]
                    0 <= a < b < ws.len() && ws[a] == ws[b];
                assert(false);
            }
        }
        false
    }

    /// The pattern for the next word slot, read off the fixed lattice from
    /// the words already placed.
    pub fn generate_pattern(&self) -> (r: String)
        requires
            self.wf(),
        ensures
            r@ == waffle2_pattern(views_of(self.words@)),
    {
        let ghost ws = views_of(self.words@);
        let mut s = String::new();
        let n = self.words.len();
        if n == 1 {
            push_char(&mut s, self.words[0].as_str().get_char(0));
            push_char(&mut s, '.');
            push_char(&mut s, '.');
            push_char(&mut s, '.');
            push_char(&mut s, '.');
            push_char(&mut s, '.');
            push_char(&mut s, '.');
            proof {
                assert(s@ =~= waffle2_pattern(ws));
            }
        } else if n == 2 {
            push_char(&mut s, self.words[1].as_str().get_char(2));
            push_char(&mut s, '.');
            push_char(&mut s, '.');
            push_char(&mut s, '.');
            push_char(&mut s, '.');
            push_char(&mut s, '.');
            push_char(&mut s, '.');
            proof {
                assert(s@ =~= waffle2_pattern(ws));
            }
        } else if n == 3 {
            push_char(&mut s, self.words[0].as_str().get_char(2));
            push_char(&mut s, '.');
            push_char(&mut s, self.words[2].as_str().get_char(2));
            push_char(&mut s, '.');
            push_char(&mut s, '.');
            push_char(&mut s, '.');
            push_char(&mut s, '.');
            proof {
                assert(s@ =~= waffle2_pattern(ws));
            }
        } else if n == 4 {
            push_char(&mut s, self.words[1].as_str().get_char(4));
            push_char(&mut s, '.');
            push_char(&mut s, self.words[3].as_str().get_char(4));
            push_char(&mut s, '.');
            push_char(&mut s, '.');
            push_char(&mut s, '.');
            push_char(&mut s, '.');
            proof {
                assert(s@ =~= waffle2_pattern(ws));
            }
        } else if n == 5 {
            push_char(&mut s, self.words[0].as_str().get_char(4));
            push_char(&mut s, '.');
            push_char(&mut s, self.words[2].as_str().get_char(4));
            push_char(&mut s, '.');
            push_char(&mut s, self.words[4].as_str().get_char(4));
            push_char(&mut s, '.');
            push_char(&mut s, '.');
            proof {
                assert(s@ =~= waffle2_pattern(ws));
            }
        } else if n == 6 {
            push_char(&mut s, self.words[1].as_str().get_char(6));
            push_char(&mut s, '.');
            push_char(&mut s, self.words[3].as_str().get_char(6));
            push_char(&mut s, '.');
            push_char(&mut s, self.words[5].as_str().get_char(6));
            push_char(&mut s, '.');
            push_char(&mut s, '.');
            proof {
                assert(s@ =~= waffle2_pattern(ws));
            }
        } else if n == 7 {
            push_char(&mut s, self.words[0].as_str().get_char(6));
            push_char(&mut s, '.');
            push_char(&mut s, self.words[2].as_str().get_char(6));
            push_char(&mut s, '.');
            push_char(&mut s, self.words[4].as_str().get_char(6));
            push_char(&mut s, '.');
            push_char(&mut s, self.words[6].as_str().get_char(6));
            proof {
                assert(s@ =~= waffle2_pattern(ws));
            }
        } else {
            push_char(&mut s, '.');
            push_char(&mut s, '.');
            push_char(&mut s, '.');
            push_char(&mut s, '.');
            push_char(&mut s, '.');
            push_char(&mut s, '.');
            push_char(&mut s, '.');
            proof {
                assert(s@ =~= waffle2_pattern(ws));
            }
        }
        s
    }

    /// Fills the remaining word slots by depth-first search over the
    /// common candidates of each slot's pattern, candidates tried in a
    /// random order. A waffle already complete and repeat-free comes
    /// back unchanged; any returned waffle is complete, repeats no word,
    /// and extends the given one with common-list words only.
    pub fn recursive_generate(dictionary: &Dictionary, waffle: Waffle2) -> (r: Option<Waffle2>)
        requires
            lowercase_words(views_of(dictionary.common_words@)),
            waffle.wf(),
            waffle.words@.len() <= 8,
        ensures
            waffle.words@.len() == 8 && !has_repeat(views_of(waffle.words@)) ==> r is Some
                && (match r {
                Some(w) => views_of(w.words@) == views_of(waffle.words@),
                None => false,
            }),
            (match r {
                Some(w) => {
                    &&& w.wf()
                    &&& w.words@.len() == 8
                    &&& !has_repeat(views_of(w.words@))
                    &&& views_of(w.words@).take(waffle.words@.len() as int) == views_of(
                        waffle.words@,
                    )
                    &&& forall|k: int|
                        waffle.words@.len() <= k < 8 ==> views_of(dictionary.common_words@)
                            .contains(#[trigger] views_of(w.words@)[k])
                    &&& forall|k: int|
                        waffle.words@.len() <= k < 8 ==> word_matches(
                            #[trigger] views_of(w.words@)[k],
                            waffle2_pattern(views_of(w.words@).take(k)),
                        )
                },
                None => true,
            }),
        decreases 8 - waffle.words@.len(),
    {
        let ghost words = views_of(dictionary.common_words@);
        if waffle.has_duplicates() {
            return None;
        }
        if waffle.is_complete() {
            proof {
                assert(views_of(waffle.words@).take(waffle.words@.len() as int) =~= views_of(
                    waffle.words@,
                ));
            }
            return Some(waffle);
        }
        let pattern = waffle.generate_pattern();
        let ghost p = pattern@;
        proof {
            assert(p.len() == 7);
            assert(p != seq!['.'] && p != seq!['_']);
        }
        let mut candidates = match dictionary.find_common_candidates(pattern) {
            Ok(v) => v,
            Err(_) => Vec::new(),
        };
        let ghost pre = candidates@;
        shuffle_strings(&mut candidates);
        let mut i: usize = 0;
        while i < candidates.len()
            invariant
                lowercase_words(words),
                words == views_of(dictionary.common_words@),
                waffle.wf(),
                waffle.words@.len() < 8,
                views_of(pre) == find_matches(words, p),
                p == waffle2_pattern(views_of(waffle.words@)),
                p.len() == 7,
                pre.to_multiset() == candidates@.to_multiset(),
                0 <= i <= candidates@.len(),
            decreases candidates@.len() - i,
        {
            proof {
                lemma_candidate_props(pre, candidates@, words, p, i as int);
            }
            let mut incr_words = clone_strings(&waffle.words);
            incr_words.push(candidates[i].clone());
            let incr_waffle = Waffle2 { words: incr_words };
            proof {
                assert(views_of(incr_waffle.words@) =~= views_of(waffle.words@).push(
                    candidates@[i as int]@,
                ));
                assert(incr_waffle.wf()) by {
                    assert(candidates@[i as int]@.len() == 7);
                    assert(forall|k: int|
                        0 <= k < incr_waffle.words@.len() ==> #[trigger] incr_waffle.words@[k]@
                            == views_of(incr_waffle.words@)[k]);
                }
            }
            match Waffle2::recursive_generate(dictionary, incr_waffle) {
                Some(solved) => {
                    proof {
                        let n = waffle.words@.len() as int;
                        assert(views_of(solved.words@).take(n) =~= views_of(waffle.words@)) by {
                            assert(views_of(solved.words@).take(n + 1) == views_of(
                                waffle.words@,
                            ).push(candidates@[i as int]@));
                            assert(forall|k: int|
                                0 <= k < n ==> views_of(solved.words@).take(n)[k] == views_of(
                                    solved.words@,
                                ).take(n + 1)[k]);
                        }
                        assert(views_of(solved.words@)[n] == views_of(solved.words@).take(n + 1)[n]);
                        assert(views_of(solved.words@)[n] == candidates@[i as int]@);
                        assert(word_matches(
                            views_of(solved.words@)[n],
                            waffle2_pattern(views_of(solved.words@).take(n)),
                        ));
                    }
                    return Some(solved);
                },
                None => {},
            }
            i += 1;
        }
        None
    }

    /// Starts the search from an empty waffle.
    pub fn generate(dictionary: &Dictionary) -> (r: Option<Waffle2>)
        requires
            lowercase_words(views_of(dictionary.common_words@)),
        ensures
            (match r {
                Some(w) => {
                    &&& w.wf()
                    &&& w.words@.len() == 8
                    &&& !has_repeat(views_of(w.words@))
                    &&& forall|k: int|
                        0 <= k < 8 ==> views_of(dictionary.common_words@).contains(
                            #[trigger] views_of(w.words@)[k],
                        )
                    &&& forall|k: int|
                        0 <= k < 8 ==> word_matches(
                            #[trigger] views_of(w.words@)[k],
                            waffle2_pattern(views_of(w.words@).take(k)),
                        )
                },
                None => true,
            }),
    {
        let empty_waffle = Waffle2 { words: Vec::new() };
        Waffle2::recursive_generate(dictionary, empty_waffle)
    }
}

} // verus!
