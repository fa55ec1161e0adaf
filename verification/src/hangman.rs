//! Hangman: choosing the secret word and playing guesses against it.

use vstd::prelude::*;
use rand::Rng;
use crate::text::{chars_of, count_pieces, nth_piece, split_spec, trim, trim_spec};

verus! {

/// Number of wrong guesses a player may make.
pub const NUM_INCORRECT_GUESSES: u32 = 5;

/// What the display shows for a letter not found yet.
pub const HIDDEN: char = '-';

/// Draws a number uniformly from `0..len` with the thread-local generator of
/// `rand` (`rand::thread_rng().gen_range(0, len)`).  Only the range of the
/// result is stated: which number comes out rests on chance.
#[verifier::external_body]
fn random_index(len: usize) -> (i: usize)
    requires
        len > 0,
    ensures
        i < len,
{
    rand::thread_rng().gen_range(0, len)
}

/// The candidate words of a word list: its lines, each without surrounding whitespace.
pub open spec fn candidate(list: Seq<char>, i: int) -> Seq<char> {
    trim_spec(split_spec(list, '\n')[i])
}

/// The word on line `index` of the word list `list`, trimmed.
pub fn pick_word(list: &str, index: usize) -> (w: String)
    requires
        index < split_spec(list@, '\n').len(),
    ensures
        w@ == candidate(list@, index as int),
{
    let line = nth_piece(list, '\n', index);
    String::from_str(trim(line))
}

/// A word from a line of the word list `list`, chosen at random and trimmed.
pub fn pick_a_random_word(list: &str) -> (w: String)
    requires
        list@.len() < usize::MAX,
    ensures
        exists|i: int| 0 <= i < split_spec(list@, '\n').len() && w@ == candidate(list@, i),
{
    let chars = chars_of(list);
    let n = count_pieces(&chars, '\n');
    let i = random_index(n);
    pick_word(list, i)
}

/// Whether guessing `g` uncovers position `i`.
pub open spec fn uncovers(secret: Seq<char>, shown: Seq<char>, g: char, i: int) -> bool {
    secret[i] == g && shown[i] != g
}

/// Number of positions where the display already agrees with the secret.
pub open spec fn matched(shown: Seq<char>, secret: Seq<char>) -> nat
    decreases shown.len(),
{
    if shown.len() == 0 || secret.len() == 0 {
        0
    } else {
        matched(shown.drop_last(), secret.drop_last()) + if shown.last() == secret.last() {
            1nat
        } else {
            0nat
        }
    }
}

/// The abstract state of a game.
pub struct HangmanView {
    pub secret: Seq<char>,
    pub shown: Seq<char>,
    pub guessed: Seq<char>,
    pub guesses_left: nat,
}

/// A game in progress.
pub struct Hangman {
    secret: Vec<char>,
    shown: Vec<char>,
    guessed: Vec<char>,
    guesses_left: u32,
}

impl View for Hangman {
    type V = HangmanView;

    closed spec fn view(&self) -> HangmanView {
        HangmanView {
            secret: self.secret@,
            shown: self.shown@,
            guessed: self.guessed@,
            guesses_left: self.guesses_left as nat,
        }
    }
}

/// The game's invariant: the display has one place per letter of the secret,
/// showing either that letter or the hidden mark, and every letter guessed
/// right occurs in the secret.
pub open spec fn hangman_inv(g: HangmanView) -> bool {
    &&& g.shown.len() == g.secret.len()
    &&& forall|i: int|
        0 <= i < g.shown.len() ==> #[trigger] g.shown[i] == g.secret[i] || g.shown[i] == HIDDEN
    &&& forall|k: int| 0 <= k < g.guessed.len() ==> g.secret.contains(#[trigger] g.guessed[k])
    &&& g.guesses_left <= NUM_INCORRECT_GUESSES
}

proof fn lemma_matched_update(shown: Seq<char>, secret: Seq<char>, i: int)
    requires
        shown.len() == secret.len(),
        0 <= i < shown.len(),
        shown[i] != secret[i],
    ensures
        matched(shown.update(i, secret[i]), secret) == matched(shown, secret) + 1,
    decreases shown.len(),
{
    let u = shown.update(i, secret[i]);
    if i < shown.len() - 1 {
        lemma_matched_update(shown.drop_last(), secret.drop_last(), i);
        assert(u.drop_last() =~= shown.drop_last().update(i, secret[i]));
    } else {
        assert(u.drop_last() =~= shown.drop_last());
    }
}

proof fn lemma_matched_bound(shown: Seq<char>, secret: Seq<char>)
    requires
        shown.len() == secret.len(),
    ensures
        matched(shown, secret) <= secret.len(),
        matched(shown, secret) == secret.len() <==> shown =~= secret,
    decreases shown.len(),
{
    if shown.len() > 0 {
        lemma_matched_bound(shown.drop_last(), secret.drop_last());
        if shown.drop_last() =~= secret.drop_last() && shown.last() == secret.last() {
            assert(shown =~= secret) by {
                assert forall|j: int| 0 <= j < shown.len() implies shown[j] == secret[j] by {
                    if j < shown.len() - 1 {
                        assert(shown.drop_last()[j] == secret.drop_last()[j]);
                    }
                }
            }
        }
        if shown =~= secret {
            assert(shown.drop_last() =~= secret.drop_last());
        }
    }
}

impl Hangman {
    /// Starts a game on `secret` with every letter hidden and all guesses left.
    pub fn new(secret: Vec<char>) -> (game: Hangman)
        ensures
            game@.secret == secret@,
            game@.shown == Seq::new(secret@.len(), |i: int| HIDDEN),
            game@.guessed == Seq::<char>::empty(),
            game@.guesses_left == NUM_INCORRECT_GUESSES,
            hangman_inv(game@),
    {
        let mut shown: Vec<char> = Vec::new();
        let mut i: usize = 0;
        while i < secret.len()
            invariant
                i <= secret@.len(),
                shown@ == Seq::new(i as nat, |j: int| HIDDEN),
            decreases secret@.len() - i,
        {
            shown.push(HIDDEN);
            assert(shown@ =~= Seq::new((i + 1) as nat, |j: int| HIDDEN));
            i = i + 1;
        }
        let game = Hangman {
            secret,
            shown,
            guessed: Vec::new(),
            guesses_left: NUM_INCORRECT_GUESSES,
        };
        assert(game.guessed@ =~= Seq::<char>::empty());
        game
    }

    /// The display: the secret with the letters not found yet hidden.
    pub fn shown(&self) -> (s: &Vec<char>)
        ensures
            s@ == self@.shown,
    {
        &self.shown
    }

    /// The letters guessed right so far, in order.
    pub fn guessed(&self) -> (s: &Vec<char>)
        ensures
            s@ == self@.guessed,
    {
        &self.guessed
    }

    /// The secret word.
    pub fn secret(&self) -> (s: &Vec<char>)
        ensures
            s@ == self@.secret,
    {
        &self.secret
    }

    /// Wrong guesses still allowed.
    pub fn guesses_left(&self) -> (n: u32)
        ensures
            n == self@.guesses_left,
    {
        self.guesses_left
    }

    /// Whether every letter has been found.
    pub fn is_solved(&self) -> (b: bool)
        ensures
            b == (self@.shown == self@.secret),
    {
        if self.shown.len() != self.secret.len() {
            assert(self@.shown != self@.secret);
            return false;
        }
        let mut i: usize = 0;
        while i < self.shown.len()
            invariant
                self.shown@.len() == self.secret@.len(),
                i <= self.shown@.len(),
                forall|j: int| 0 <= j < i ==> self.shown@[j] == self.secret@[j],
            decreases self.shown@.len() - i,
        {
            if self.shown[i] != self.secret[i] {
                assert(self@.shown[i as int] != self@.secret[i as int]);
                return false;
            }
            i = i + 1;
        }
        assert(self@.shown =~= self@.secret);
        true
    }

    /// Plays the guess `g`: uncovers the first position that holds `g` and
    /// does not show it yet, and records `g`; if there is none, one guess is
    /// lost.  Returns whether a position was uncovered.
    pub fn guess(&mut self, g: char) -> (found: bool)
        requires
            hangman_inv(old(self)@),
            old(self)@.guesses_left >= 1,
        ensures
            hangman_inv(final(self)@),
            final(self)@.secret == old(self)@.secret,
            found == exists|i: int|
                0 <= i < old(self)@.secret.len() && uncovers(
                    old(self)@.secret,
                    old(self)@.shown,
                    g,
                    i,
                ),
            found ==> exists|i: int|
                {
                    &&& 0 <= i < old(self)@.secret.len()
                    &&& uncovers(old(self)@.secret, old(self)@.shown, g, i)
                    &&& forall|j: int|
                        0 <= j < i ==> !uncovers(old(self)@.secret, old(self)@.shown, g, j)
                    &&& final(self)@.shown == old(self)@.shown.update(i, g)
                },
            found ==> final(self)@.guessed == old(self)@.guessed.push(g),
            found ==> final(self)@.guesses_left == old(self)@.guesses_left,
            !found ==> final(self)@.shown == old(self)@.shown,
            !found ==> final(self)@.guessed == old(self)@.guessed,
            !found ==> final(self)@.guesses_left == old(self)@.guesses_left - 1,
    {
        let ghost g0 = self@;
        let mut i: usize = 0;
        while i < self.secret.len()
            invariant
                self@ == g0,
                g0 == old(self)@,
                hangman_inv(g0),
                i <= g0.secret.len(),
                forall|j: int| 0 <= j < i ==> !uncovers(g0.secret, g0.shown, g, j),
            decreases g0.secret.len() - i,
        {
            if self.secret[i] == g && self.shown[i] != g {
                self.shown.set(i, g);
                self.guessed.push(g);
                proof {
                    assert(g0.secret[i as int] == g);
                    assert forall|k: int| 0 <= k < self.guessed@.len() implies g0.secret.contains(
                        #[trigger] self.guessed@[k],
                    ) by {
                        if k < g0.guessed.len() {
                            assert(self.guessed@[k] == g0.guessed[k]);
                        }
                    }
                    assert(self@.shown == g0.shown.update(i as int, g));
                    assert(uncovers(old(self)@.secret, old(self)@.shown, g, i as int));
                }
                return true;
            }
            i = i + 1;
        }
        self.guesses_left = self.guesses_left - 1;
        assert(self@.shown == g0.shown && self@.secret == g0.secret && self@.guessed == g0.guessed);
        assert(forall|k: int|
            0 <= k < self@.guessed.len() ==> self@.secret.contains(#[trigger] self@.guessed[k]));
        false
    }
}

/// Every guess makes progress: it either uncovers one more letter of the
/// secret or uses up one wrong guess, so a game ends after at most
/// `secret.len() + NUM_INCORRECT_GUESSES` guesses.
pub proof fn lemma_guess_progress(before: HangmanView, after: HangmanView, g: char, found: bool)
    requires
        hangman_inv(before),
        after.secret == before.secret,
        found ==> exists|i: int|
            {
                &&& 0 <= i < before.secret.len()
                &&& uncovers(before.secret, before.shown, g, i)
                &&& after.shown == before.shown.update(i, g)
            },
        found ==> after.guesses_left == before.guesses_left,
        !found ==> after.shown == before.shown,
        !found ==> after.guesses_left == before.guesses_left - 1,
        before.guesses_left >= 1,
    ensures
        matched(after.shown, after.secret) + (NUM_INCORRECT_GUESSES - after.guesses_left)
            == matched(before.shown, before.secret) + (NUM_INCORRECT_GUESSES
            - before.guesses_left) + 1,
{
    if found {
        let i = choose|i: int|
            {
                &&& 0 <= i < before.secret.len()
                &&& uncovers(before.secret, before.shown, g, i)
                &&& after.shown == before.shown.update(i, g)
            };
        lemma_matched_update(before.shown, before.secret, i);
    }
}

/// A game is won exactly when every position of the display agrees with the
/// secret, and the number of agreeing positions never exceeds the secret's length.
pub proof fn lemma_solved_iff_all_matched(game: HangmanView)
    requires
        hangman_inv(game),
    ensures
        matched(game.shown, game.secret) <= game.secret.len(),
        (game.shown == game.secret) <==> matched(game.shown, game.secret) == game.secret.len(),
{
    lemma_matched_bound(game.shown, game.secret);
}

} // verus!
