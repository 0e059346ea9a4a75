use vstd::prelude::*;

use crate::dictionary::Dictionary;
use crate::pattern::{
    common_candidates, find_matches, has_repeat, lemma_candidates_len, views_of, word_matches,
};
use crate::rng::shuffle_strings;
use crate::text::{clone_strings, push_char};

verus! {

/// A honeycomb puzzle held as the flat list of its words, one per slot of
/// a fixed lattice. Each shape fixes how many words it takes, how long the
/// word of each slot is, and which already-placed letters constrain the
/// next slot.
pub trait Beehive: Sized {
    /// The words placed so far.
    spec fn words(&self) -> Seq<Seq<char>>;

    /// How many words the shape takes in all.
    spec fn cap() -> nat;

    /// The length of the word that fills slot `k`.
    spec fn slot_len(k: int) -> nat;

    /// The pattern the next slot asks the dictionary for, as a function
    /// of the words placed so far.
    spec fn slot_pattern(ws: Seq<Seq<char>>) -> Seq<char>;

    /// The shape's own well-formedness: every placed word has its slot's
    /// length.
    spec fn wf(&self) -> bool;

    fn gen_empty() -> (r: Self)
        ensures
            r.words().len() == 0,
            r.wf();

    fn get_words(&self) -> (r: Vec<String>)
        ensures
            views_of(r@) == self.words();

    /// The pattern for the next slot, read off the placed words, or `None`
    /// once every slot is filled.
    fn next_pattern(&self) -> (r: Option<String>)
        requires
            self.wf(),
        ensures
            (match r {
                Some(p) => self.words().len() < Self::cap() && p@.len() == Self::slot_len(
                    self.words().len() as int,
                ) && p@ == Self::slot_pattern(self.words()),
                None => self.words().len() >= Self::cap(),
            });

    fn push_word(&mut self, word: String)
        requires
            old(self).wf(),
            word@.len() == Self::slot_len(old(self).words().len() as int),
        ensures
            final(self).words() == old(self).words().push(word@),
            final(self).wf();

    /// An owned copy holding the same words.
    fn duplicate(&self) -> (r: Self)
        ensures
            r.words() == self.words(),
            self.wf() ==> r.wf();

    /// Whether the same word was placed twice.
    fn has_duplicates(&self) -> (r: bool)
        ensures
            r == has_repeat(self.words()),
    {
        let words = self.get_words();
        let ghost ws = self.words();
        let n = words.len();
        let mut i: usize = 0;
        while i < n
            invariant
                n == words@.len(),
                views_of(words@) == ws,
                ws == self.words(),
                0 <= i <= n,
                forall|a: int, b: int|
                    #![trigger ws[a], ws[b]]
                    0 <= a < b < n && a < i ==> ws[a] != ws[b],
            decreases n - i,
        {
            let mut j: usize = i + 1;
            while j < n
                invariant
                    n == words@.len(),
                    views_of(words@) == ws,
                    ws == self.words(),
                    0 <= i < n,
                    i < j <= n,
                    forall|a: int, b: int|
                        #![trigger ws[a], ws[b]]
                        0 <= a < b < n && a < i ==> ws[a] != ws[b],
                    forall|b: int| i < b < j ==> ws[i as int] != #[trigger] ws[b],
                decreases n - j,
            {
                if words[i] == words[j] {
                    proof {
                        assert(ws[i as int] == ws[j as int]);
                    }
                    return true;
                }
                j += 1;
            }
            i += 1;
        }
        proof {
            if has_repeat(ws) {
                let (a, b) = choose|a: int, b: int|
                    #![trigger ws[a], ws[b]]
                    0 <= a < b < ws.len() && ws[a] == ws[b];
                assert(false);
            }
        }
        false
    }

    /// One letter of one placed word.
    fn get_char(&self, word_index: usize, char_index: usize) -> (c: char)
        requires
            word_index < self.words().len(),
            char_index < self.words()[word_index as int].len(),
        ensures
            c == self.words()[word_index as int][char_index as int],
    {
        let words = self.get_words();
        words[word_index].as_str().get_char(char_index)
    }
}

/// Fills the slots of a honeycomb one word at a time by depth-first
/// search, trying the common candidates of each slot's pattern in a random
/// order, and widening to the exhaustive list deep in the search. A
/// returned honeycomb is full — its shape's word count is reached —
/// extends the given one, keeps every slot's length, and repeats no word.
pub fn _recursive_generate<B: Beehive>(dictionary: &Dictionary, beehive: B, depth: i32) -> (r:
    Option<B>)
    requires
        beehive.wf(),
        depth + B::cap() - beehive.words().len() <= i32::MAX,
    ensures
        (match r {
            Some(b) => {
                &&& b.wf()
                &&& !has_repeat(b.words())
                &&& b.words().len() >= B::cap()
                &&& b.words().len() >= beehive.words().len()
                &&& b.words().take(beehive.words().len() as int) == beehive.words()
                &&& forall|k: int|
                    beehive.words().len() <= k < b.words().len() ==> word_matches(
                        #[trigger] b.words()[k],
                        B::slot_pattern(b.words().take(k)),
                    )
            },
            None => true,
        }),
    decreases B::cap() - beehive.words().len(),
{
    if beehive.has_duplicates() {
        return None;
    }
    let next_pattern = beehive.next_pattern();
    if let Some(pattern) = next_pattern {
        let ghost p = pattern@;
        let ghost words = views_of(dictionary.common_words@);
        let ghost all_words = views_of(dictionary.all_words@);
        let mut candidates = match dictionary.find_common_candidates(pattern.clone()) {
            Ok(v) => v,
            Err(_) => Vec::new(),
        };
        let ghost common_pre = candidates@;
        shuffle_strings(&mut candidates);
        proof {
            lemma_candidates_len(common_pre, candidates@, words, p);
            crate::pattern::lemma_candidates_match(common_pre, candidates@, words, p);
        }
        let ghost shuffled_common = candidates@;
        if depth > 8 {
            let mut all_candidates = match dictionary._find_all_candidates(pattern) {
                Ok(v) => v,
                Err(_) => Vec::new(),
            };
            let ghost all_pre = all_candidates@;
            shuffle_strings(&mut all_candidates);
            proof {
                lemma_candidates_len(all_pre, all_candidates@, all_words, p);
                crate::pattern::lemma_candidates_match(all_pre, all_candidates@, all_words, p);
            }
            let ghost shuffled_all = all_candidates@;
            candidates.append(&mut all_candidates);
            proof {
                assert(forall|i: int|
                    0 <= i < candidates@.len() ==> (#[trigger] candidates@[i])@.len() == p.len()
                        && word_matches(candidates@[i]@, p)) by {
                    assert(forall|i: int|
                        0 <= i < shuffled_common.len() ==> candidates@[i] == shuffled_common[i]);
                    assert(forall|i: int|
                        shuffled_common.len() <= i < candidates@.len() ==> candidates@[i]
                            == shuffled_all[i - shuffled_common.len()]);
                }
            }
        }
        let mut i: usize = 0;
        while i < candidates.len()
            invariant
                beehive.wf(),
                beehive.words().len() < B::cap(),
                depth + B::cap() - beehive.words().len() <= i32::MAX,
                p.len() == B::slot_len(beehive.words().len() as int),
                p == B::slot_pattern(beehive.words()),
                forall|k: int|
                    0 <= k < candidates@.len() ==> (#[trigger] candidates@[k])@.len() == p.len(),
                forall|k: int|
                    0 <= k < candidates@.len() ==> word_matches((#[trigger] candidates@[k])@, p),
                0 <= i <= candidates@.len(),
            decreases candidates@.len() - i,
        {
            let mut incr_beehive = beehive.duplicate();
            incr_beehive.push_word(candidates[i].clone());
            proof {
                assert(incr_beehive.words() == beehive.words().push(candidates@[i as int]@));
            }
            if let Some(solved) = _recursive_generate(dictionary, incr_beehive, depth + 1) {
                proof {
                    let n = beehive.words().len() as int;
                    assert(solved.words().take(n) =~= beehive.words()) by {
                        assert(solved.words().take(n + 1) == beehive.words().push(
                            candidates@[i as int]@,
                        ));
                        assert(forall|k: int|
                            0 <= k < n ==> solved.words().take(n)[k] == solved.words().take(
                                n + 1,
                            )[k]);
                    }
                    assert(solved.words()[n] == solved.words().take(n + 1)[n]);
                    assert(solved.words()[n] == candidates@[i as int]@);
                    assert(word_matches(solved.words()[n], B::slot_pattern(solved.words().take(n))));
                }
                return Some(solved);
            }
            i += 1;
        }
    } else {
        proof {
            assert(beehive.words().take(beehive.words().len() as int) =~= beehive.words());
        }
        return Some(beehive);
    }
    None
}

/// A honeycomb shaped as one ring of six two-letter words.
#[derive(Debug)]
pub struct SmallestBeehive {
    words: Vec<String>,
}

impl Beehive for SmallestBeehive {
    closed spec fn words(&self) -> Seq<Seq<char>> {
        views_of(self.words@)
    }

    open spec fn slot_pattern(ws: Seq<Seq<char>>) -> Seq<char> {
        let n = ws.len();
        if n == 0 {
            seq!['.', '.']
        } else if n == 1 {
            seq![ws[0][0], '.']
        } else if n == 2 {
            seq![ws[0][1], '.']
        } else if n == 3 {
            seq![ws[1][1], '.']
        } else if n == 4 {
            seq![ws[2][1], '.']
        } else if n == 5 {
            seq![ws[3][1], ws[4][1]]
        } else {
            Seq::empty()
        }
    }

    open spec fn cap() -> nat {
        6 as nat
    }

    open spec fn slot_len(k: int) -> nat {
        2 as nat
    }

    open spec fn wf(&self) -> bool {
        forall|k: int|
            0 <= k < self.words().len() ==> (#[trigger] self.words()[k]).len() == Self::slot_len(k)
    }

    fn gen_empty() -> (r: Self) {
        SmallestBeehive { words: Vec::new() }
    }

    fn get_words(&self) -> (r: Vec<String>) {
        let r = clone_strings(&self.words);
        proof {
            assert(views_of(r@) =~= views_of(self.words@));
        }
        r
    }

    fn next_pattern(&self) -> (r: Option<String>) {
        let n = self.words.len();
        proof {
            assert(self.words().len() == n);
        }
        if n == 0 {
            let mut s = String::new();
            push_char(&mut s, '.');
            push_char(&mut s, '.');
            proof {
                assert(s@ =~= Self::slot_pattern(self.words()));
            }
            return Some(s);
        }
        if n == 1 {
            let mut s = String::new();
            push_char(&mut s, self.get_char(0, 0));
            push_char(&mut s, '.');
            proof {
                assert(s@ =~= Self::slot_pattern(self.words()));
            }
            return Some(s);
        }
        if n == 2 {
            let mut s = String::new();
            push_char(&mut s, self.get_char(0, 1));
            push_char(&mut s, '.');
            proof {
                assert(s@ =~= Self::slot_pattern(self.words()));
            }
            return Some(s);
        }
        if n == 3 {
            let mut s = String::new();
            push_char(&mut s, self.get_char(1, 1));
            push_char(&mut s, '.');
            proof {
                assert(s@ =~= Self::slot_pattern(self.words()));
            }
            return Some(s);
        }
        if n == 4 {
            let mut s = String::new();
            push_char(&mut s, self.get_char(2, 1));
            push_char(&mut s, '.');
            proof {
                assert(s@ =~= Self::slot_pattern(self.words()));
            }
            return Some(s);
        }
        if n == 5 {
            let mut s = String::new();
            push_char(&mut s, self.get_char(3, 1));
            push_char(&mut s, self.get_char(4, 1));
            proof {
                assert(s@ =~= Self::slot_pattern(self.words()));
            }
            return Some(s);
        }
        None
    }

    fn push_word(&mut self, word: String) {
        let ghost prior = views_of(self.words@);
        self.words.push(word);
        proof {
            assert(views_of(self.words@) =~= prior.push(word@));
        }
    }

    fn duplicate(&self) -> (r: Self) {
        let r = SmallestBeehive { words: clone_strings(&self.words) };
        proof {
            assert(views_of(r.words@) =~= views_of(self.words@));
        }
        r
    }
}

/// A honeycomb shaped as two cells side by side.
#[derive(Debug)]
struct SmallBeehive {
    words: Vec<String>,
}

impl Beehive for SmallBeehive {
    closed spec fn words(&self) -> Seq<Seq<char>> {
        views_of(self.words@)
    }

    open spec fn slot_pattern(ws: Seq<Seq<char>>) -> Seq<char> {
        let n = ws.len();
        if n == 0 {
            seq!['.', '.', '.', '.']
        } else if n == 1 {
            seq!['.', ws[0][0]]
        } else if n == 2 {
            seq![ws[1][0], '.']
        } else if n == 3 {
            seq![ws[2][1], '.', '.', '.']
        } else if n == 4 {
            seq![ws[3][3], '.']
        } else if n == 5 {
            seq![ws[0][3], ws[4][1]]
        } else if n == 6 {
            seq![ws[3][1], '.', ws[0][2]]
        } else if n == 7 {
            seq![ws[0][1], ws[6][1], ws[3][2]]
        } else {
            Seq::empty()
        }
    }

    open spec fn cap() -> nat {
        8 as nat
    }

    open spec fn slot_len(k: int) -> nat {
        if k == 0 {
            4 as nat
        } else if k == 1 {
            2 as nat
        } else if k == 2 {
            2 as nat
        } else if k == 3 {
            4 as nat
        } else if k == 4 {
            2 as nat
        } else if k == 5 {
            2 as nat
        } else if k == 6 {
            3 as nat
        } else {
            3 as nat
        }
    }

    open spec fn wf(&self) -> bool {
        forall|k: int|
            0 <= k < self.words().len() ==> (#[trigger] self.words()[k]).len() == Self::slot_len(k)
    }

    fn gen_empty() -> (r: Self) {
        SmallBeehive { words: Vec::new() }
    }

    fn get_words(&self) -> (r: Vec<String>) {
        let r = clone_strings(&self.words);
        proof {
            assert(views_of(r@) =~= views_of(self.words@));
        }
        r
    }

    fn next_pattern(&self) -> (r: Option<String>) {
        let n = self.words.len();
        proof {
            assert(self.words().len() == n);
        }
        if n == 0 {
            let mut s = String::new();
            push_char(&mut s, '.');
            push_char(&mut s, '.');
            push_char(&mut s, '.');
            push_char(&mut s, '.');
            proof {
                assert(s@ =~= Self::slot_pattern(self.words()));
            }
            return Some(s);
        }
        if n == 1 {
            let mut s = String::new();
            push_char(&mut s, '.');
            push_char(&mut s, self.get_char(0, 0));
            proof {
                assert(s@ =~= Self::slot_pattern(self.words()));
            }
            return Some(s);
        }
        if n == 2 {
            let mut s = String::new();
            push_char(&mut s, self.get_char(1, 0));
            push_char(&mut s, '.');
            proof {
                assert(s@ =~= Self::slot_pattern(self.words()));
            }
            return Some(s);
        }
        if n == 3 {
            let mut s = String::new();
            push_char(&mut s, self.get_char(2, 1));
            push_char(&mut s, '.');
            push_char(&mut s, '.');
            push_char(&mut s, '.');
            proof {
                assert(s@ =~= Self::slot_pattern(self.words()));
            }
            return Some(s);
        }
        if n == 4 {
            let mut s = String::new();
            push_char(&mut s, self.get_char(3, 3));
            push_char(&mut s, '.');
            proof {
                assert(s@ =~= Self::slot_pattern(self.words()));
            }
            return Some(s);
        }
        if n == 5 {
            let mut s = String::new();
            push_char(&mut s, self.get_char(0, 3));
            push_char(&mut s, self.get_char(4, 1));
            proof {
                assert(s@ =~= Self::slot_pattern(self.words()));
            }
            return Some(s);
        }
        if n == 6 {
            let mut s = String::new();
            push_char(&mut s, self.get_char(3, 1));
            push_char(&mut s, '.');
            push_char(&mut s, self.get_char(0, 2));
            proof {
                assert(s@ =~= Self::slot_pattern(self.words()));
            }
            return Some(s);
        }
        if n == 7 {
            let mut s = String::new();
            push_char(&mut s, self.get_char(0, 1));
            push_char(&mut s, self.get_char(6, 1));
            push_char(&mut s, self.get_char(3, 2));
            proof {
                assert(s@ =~= Self::slot_pattern(self.words()));
            }
            return Some(s);
        }
        None
    }

    fn push_word(&mut self, word: String) {
        let ghost prior = views_of(self.words@);
        self.words.push(word);
        proof {
            assert(views_of(self.words@) =~= prior.push(word@));
        }
    }

    fn duplicate(&self) -> (r: Self) {
        let r = SmallBeehive { words: clone_strings(&self.words) };
        proof {
            assert(views_of(r.words@) =~= views_of(self.words@));
        }
        r
    }
}

/// A honeycomb shaped as three cells in a triangle.
#[derive(Debug)]
pub struct MediumBeehive {
    words: Vec<String>,
}

impl Beehive for MediumBeehive {
    closed spec fn words(&self) -> Seq<Seq<char>> {
        views_of(self.words@)
    }

    open spec fn slot_pattern(ws: Seq<Seq<char>>) -> Seq<char> {
        let n = ws.len();
        if n == 0 {
            seq!['.', '.', '.', '.']
        } else if n == 1 {
            seq!['.', ws[0][0]]
        } else if n == 2 {
            seq![ws[1][0], '.', '.', '.']
        } else if n == 3 {
            seq![ws[2][3], '.']
        } else if n == 4 {
            seq![ws[3][1], '.', '.', '.']
        } else if n == 5 {
            seq![ws[0][3], ws[4][3]]
        } else if n == 6 {
            seq![ws[2][1], '.', '.', ws[4][2]]
        } else if n == 7 {
            seq![ws[2][2], ws[6][1], '.', ws[0][2]]
        } else if n == 8 {
            seq![ws[0][1], ws[7][2], ws[6][2], ws[4][1]]
        } else {
            Seq::empty()
        }
    }

    open spec fn cap() -> nat {
        9 as nat
    }

    open spec fn slot_len(k: int) -> nat {
        if k == 0 {
            4 as nat
        } else if k == 1 {
            2 as nat
        } else if k == 2 {
            4 as nat
        } else if k == 3 {
            2 as nat
        } else if k == 4 {
            4 as nat
        } else if k == 5 {
            2 as nat
        } else if k == 6 {
            4 as nat
        } else if k == 7 {
            4 as nat
        } else {
            4 as nat
        }
    }

    open spec fn wf(&self) -> bool {
        forall|k: int|
            0 <= k < self.words().len() ==> (#[trigger] self.words()[k]).len() == Self::slot_len(k)
    }

    fn gen_empty() -> (r: Self) {
        MediumBeehive { words: Vec::new() }
    }

    fn get_words(&self) -> (r: Vec<String>) {
        let r = clone_strings(&self.words);
        proof {
            assert(views_of(r@) =~= views_of(self.words@));
        }
        r
    }

    fn next_pattern(&self) -> (r: Option<String>) {
        let n = self.words.len();
        proof {
            assert(self.words().len() == n);
        }
        if n == 0 {
            let mut s = String::new();
            push_char(&mut s, '.');
            push_char(&mut s, '.');
            push_char(&mut s, '.');
            push_char(&mut s, '.');
            proof {
                assert(s@ =~= Self::slot_pattern(self.words()));
            }
            return Some(s);
        }
        if n == 1 {
            let mut s = String::new();
            push_char(&mut s, '.');
            push_char(&mut s, self.get_char(0, 0));
            proof {
                assert(s@ =~= Self::slot_pattern(self.words()));
            }
            return Some(s);
        }
        if n == 2 {
            let mut s = String::new();
            push_char(&mut s, self.get_char(1, 0));
            push_char(&mut s, '.');
            push_char(&mut s, '.');
            push_char(&mut s, '.');
            proof {
                assert(s@ =~= Self::slot_pattern(self.words()));
            }
            return Some(s);
        }
        if n == 3 {
            let mut s = String::new();
            push_char(&mut s, self.get_char(2, 3));
            push_char(&mut s, '.');
            proof {
                assert(s@ =~= Self::slot_pattern(self.words()));
            }
            return Some(s);
        }
        if n == 4 {
            let mut s = String::new();
            push_char(&mut s, self.get_char(3, 1));
            push_char(&mut s, '.');
            push_char(&mut s, '.');
            push_char(&mut s, '.');
            proof {
                assert(s@ =~= Self::slot_pattern(self.words()));
            }
            return Some(s);
        }
        if n == 5 {
            let mut s = String::new();
            push_char(&mut s, self.get_char(0, 3));
            push_char(&mut s, self.get_char(4, 3));
            proof {
                assert(s@ =~= Self::slot_pattern(self.words()));
            }
            return Some(s);
        }
        if n == 6 {
            let mut s = String::new();
            push_char(&mut s, self.get_char(2, 1));
            push_char(&mut s, '.');
            push_char(&mut s, '.');
            push_char(&mut s, self.get_char(4, 2));
            proof {
                assert(s@ =~= Self::slot_pattern(self.words()));
            }
            return Some(s);
        }
        if n == 7 {
            let mut s = String::new();
            push_char(&mut s, self.get_char(2, 2));
            push_char(&mut s, self.get_char(6, 1));
            push_char(&mut s, '.');
            push_char(&mut s, self.get_char(0, 2));
            proof {
                assert(s@ =~= Self::slot_pattern(self.words()));
            }
            return Some(s);
        }
        if n == 8 {
            let mut s = String::new();
            push_char(&mut s, self.get_char(0, 1));
            push_char(&mut s, self.get_char(7, 2));
            push_char(&mut s, self.get_char(6, 2));
            push_char(&mut s, self.get_char(4, 1));
            proof {
                assert(s@ =~= Self::slot_pattern(self.words()));
            }
            return Some(s);
        }
        None
    }

    fn push_word(&mut self, word: String) {
        let ghost prior = views_of(self.words@);
        self.words.push(word);
        proof {
            assert(views_of(self.words@) =~= prior.push(word@));
        }
    }

    fn duplicate(&self) -> (r: Self) {
        let r = MediumBeehive { words: clone_strings(&self.words) };
        proof {
            assert(views_of(r.words@) =~= views_of(self.words@));
        }
        r
    }
}

/// A honeycomb shaped as four cells in a diamond.
#[derive(Debug)]
pub struct BigBeehive {
    words: Vec<String>,
}

impl Beehive for BigBeehive {
    closed spec fn words(&self) -> Seq<Seq<char>> {
        views_of(self.words@)
    }

    open spec fn slot_pattern(ws: Seq<Seq<char>>) -> Seq<char> {
        let n = ws.len();
        if n == 0 {
            seq!['.', '.', '.', '.']
        } else if n == 1 {
            seq!['.', ws[0][0]]
        } else if n == 2 {
            seq![ws[1][0], '.', '.', '.']
        } else if n == 3 {
            seq![ws[2][1], '.', '.', '.', '.']
        } else if n == 4 {
            seq![ws[2][2], ws[3][1], '.', ws[0][2]]
        } else if n == 5 {
            seq![ws[0][1], ws[4][2], ws[3][2], '.', '.']
        } else if n == 6 {
            seq![ws[2][3], '.', ws[5][4], '.']
        } else if n == 7 {
            seq![ws[6][1], ws[5][3], ws[3][3], '.']
        } else if n == 8 {
            seq![ws[0][3], ws[7][3], ws[3][4], '.']
        } else if n == 9 {
            seq![ws[6][3], ws[8][3]]
        } else {
            Seq::empty()
        }
    }

    open spec fn cap() -> nat {
        10 as nat
    }

    open spec fn slot_len(k: int) -> nat {
        if k == 0 {
            4 as nat
        } else if k == 1 {
            2 as nat
        } else if k == 2 {
            4 as nat
        } else if k == 3 {
            5 as nat
        } else if k == 4 {
            4 as nat
        } else if k == 5 {
            5 as nat
        } else if k == 6 {
            4 as nat
        } else if k == 7 {
            4 as nat
        } else if k == 8 {
            4 as nat
        } else {
            2 as nat
        }
    }

    open spec fn wf(&self) -> bool {
        forall|k: int|
            0 <= k < self.words().len() ==> (#[trigger] self.words()[k]).len() == Self::slot_len(k)
    }

    fn gen_empty() -> (r: Self) {
        BigBeehive { words: Vec::new() }
    }

    fn get_words(&self) -> (r: Vec<String>) {
        let r = clone_strings(&self.words);
        proof {
            assert(views_of(r@) =~= views_of(self.words@));
        }
        r
    }

    fn next_pattern(&self) -> (r: Option<String>) {
        let n = self.words.len();
        proof {
            assert(self.words().len() == n);
        }
        if n == 0 {
            let mut s = String::new();
            push_char(&mut s, '.');
            push_char(&mut s, '.');
            push_char(&mut s, '.');
            push_char(&mut s, '.');
            proof {
                assert(s@ =~= Self::slot_pattern(self.words()));
            }
            return Some(s);
        }
        if n == 1 {
            let mut s = String::new();
            push_char(&mut s, '.');
            push_char(&mut s, self.get_char(0, 0));
            proof {
                assert(s@ =~= Self::slot_pattern(self.words()));
            }
            return Some(s);
        }
        if n == 2 {
            let mut s = String::new();
            push_char(&mut s, self.get_char(1, 0));
            push_char(&mut s, '.');
            push_char(&mut s, '.');
            push_char(&mut s, '.');
            proof {
                assert(s@ =~= Self::slot_pattern(self.words()));
            }
            return Some(s);
        }
        if n == 3 {
            let mut s = String::new();
            push_char(&mut s, self.get_char(2, 1));
            push_char(&mut s, '.');
            push_char(&mut s, '.');
            push_char(&mut s, '.');
            push_char(&mut s, '.');
            proof {
                assert(s@ =~= Self::slot_pattern(self.words()));
            }
            return Some(s);
        }
        if n == 4 {
            let mut s = String::new();
            push_char(&mut s, self.get_char(2, 2));
            push_char(&mut s, self.get_char(3, 1));
            push_char(&mut s, '.');
            push_char(&mut s, self.get_char(0, 2));
            proof {
                assert(s@ =~= Self::slot_pattern(self.words()));
            }
            return Some(s);
        }
        if n == 5 {
            let mut s = String::new();
            push_char(&mut s, self.get_char(0, 1));
            push_char(&mut s, self.get_char(4, 2));
            push_char(&mut s, self.get_char(3, 2));
            push_char(&mut s, '.');
            push_char(&mut s, '.');
            proof {
                assert(s@ =~= Self::slot_pattern(self.words()));
            }
            return Some(s);
        }
        if n == 6 {
            let mut s = String::new();
            push_char(&mut s, self.get_char(2, 3));
            push_char(&mut s, '.');
            push_char(&mut s, self.get_char(5, 4));
            push_char(&mut s, '.');
            proof {
                assert(s@ =~= Self::slot_pattern(self.words()));
            }
            return Some(s);
        }
        if n == 7 {
            let mut s = String::new();
            push_char(&mut s, self.get_char(6, 1));
            push_char(&mut s, self.get_char(5, 3));
            push_char(&mut s, self.get_char(3, 3));
            push_char(&mut s, '.');
            proof {
                assert(s@ =~= Self::slot_pattern(self.words()));
            }
            return Some(s);
        }
        if n == 8 {
            let mut s = String::new();
            push_char(&mut s, self.get_char(0, 3));
            push_char(&mut s, self.get_char(7, 3));
            push_char(&mut s, self.get_char(3, 4));
            push_char(&mut s, '.');
            proof {
                assert(s@ =~= Self::slot_pattern(self.words()));
            }
            return Some(s);
        }
        if n == 9 {
            let mut s = String::new();
            push_char(&mut s, self.get_char(6, 3));
            push_char(&mut s, self.get_char(8, 3));
            proof {
                assert(s@ =~= Self::slot_pattern(self.words()));
            }
            return Some(s);
        }
        None
    }

    fn push_word(&mut self, word: String) {
        let ghost prior = views_of(self.words@);
        self.words.push(word);
        proof {
            assert(views_of(self.words@) =~= prior.push(word@));
        }
    }

    fn duplicate(&self) -> (r: Self) {
        let r = BigBeehive { words: clone_strings(&self.words) };
        proof {
            assert(views_of(r.words@) =~= views_of(self.words@));
        }
        r
    }
}

} // verus!
