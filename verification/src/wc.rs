//! Counting words, lines and letters of a text, line by line.
//!
//! A word ends at each space and at the end of each line; a letter is an
//! ASCII alphabetic character.

use vstd::prelude::*;
use crate::address::{ascii_lower, ascii_upper};

verus! {

/// `char::is_ascii_alphabetic`.
pub open spec fn is_letter(c: char) -> bool {
    ('a' <= c && c <= 'z') || ('A' <= c && c <= 'Z')
}

/// Number of spaces in `line`.
pub open spec fn spaces(line: Seq<char>) -> nat
    decreases line.len(),
{
    if line.len() == 0 {
        0
    } else {
        spaces(line.drop_last()) + if line.last() == ' ' {
            1nat
        } else {
            0nat
        }
    }
}

/// Number of ASCII letters in `line`.
pub open spec fn letters(line: Seq<char>) -> nat
    decreases line.len(),
{
    if line.len() == 0 {
        0
    } else {
        letters(line.drop_last()) + if is_letter(line.last()) {
            1nat
        } else {
            0nat
        }
    }
}

/// Total number of spaces over the lines `ls`.
pub open spec fn total_spaces(ls: Seq<Seq<char>>) -> nat
    decreases ls.len(),
{
    if ls.len() == 0 {
        0
    } else {
        total_spaces(ls.drop_last()) + spaces(ls.last())
    }
}

/// Total number of letters over the lines `ls`.
pub open spec fn total_letters(ls: Seq<Seq<char>>) -> nat
    decreases ls.len(),
{
    if ls.len() == 0 {
        0
    } else {
        total_letters(ls.drop_last()) + letters(ls.last())
    }
}

/// Total number of characters over the lines `ls`.
pub open spec fn total_chars(ls: Seq<Seq<char>>) -> nat
    decreases ls.len(),
{
    if ls.len() == 0 {
        0
    } else {
        total_chars(ls.drop_last()) + ls.last().len()
    }
}

/// The counts that the program reports.
#[derive(Debug, Clone, Copy, PartialEq, Eq, Structural)]
pub struct Counts {
    /// Spaces plus lines: each line's last word has no space after it.
    pub words: u64,
    pub lines: u64,
    /// ASCII letters.
    pub characters: u64,
}

/// The counts for the lines `ls`.
pub open spec fn counts_spec(ls: Seq<Seq<char>>) -> (nat, nat, nat) {
    (total_spaces(ls) + ls.len(), ls.len(), total_letters(ls))
}

proof fn lemma_counts_bounded(line: Seq<char>)
    ensures
        spaces(line) <= line.len(),
        letters(line) <= line.len(),
    decreases line.len(),
{
    if line.len() > 0 {
        lemma_counts_bounded(line.drop_last());
    }
}

proof fn lemma_totals_bounded(ls: Seq<Seq<char>>)
    ensures
        total_spaces(ls) <= total_chars(ls),
        total_letters(ls) <= total_chars(ls),
    decreases ls.len(),
{
    if ls.len() > 0 {
        lemma_totals_bounded(ls.drop_last());
        lemma_counts_bounded(ls.last());
    }
}

/// The spaces and the letters of one line.
pub fn count_line(line: &Vec<char>) -> (res: (u64, u64))
    requires
        line@.len() <= u64::MAX,
    ensures
        res.0 == spaces(line@),
        res.1 == letters(line@),
{
    let mut sp: u64 = 0;
    let mut le: u64 = 0;
    let mut i: usize = 0;
    while i < line.len()
        invariant
            i <= line@.len(),
            line@.len() <= u64::MAX,
            sp == spaces(line@.take(i as int)),
            le == letters(line@.take(i as int)),
        decreases line@.len() - i,
    {
        let c = line[i];
        assert(line@.take(i + 1).drop_last() =~= line@.take(i as int));
        proof {
            lemma_counts_bounded(line@.take(i as int));
        }
        if c == ' ' {
            sp = sp + 1;
        } else if ('a' <= c && c <= 'z') || ('A' <= c && c <= 'Z') {
            le = le + 1;
        }
        i = i + 1;
    }
    assert(line@.take(line@.len() as int) =~= line@);
    (sp, le)
}

/// Counts gathered over the lines seen so far.
pub struct WordCounter {
    spaces: u64,
    lines: u64,
    letters: u64,
    chars: u64,
    seen: Ghost<Seq<Seq<char>>>,
}

impl View for WordCounter {
    type V = Seq<Seq<char>>;

    closed spec fn view(&self) -> Seq<Seq<char>> {
        self.seen@
    }
}

impl WordCounter {
    /// The counter's invariant: its tallies are those of the lines seen.
    pub closed spec fn wf(&self) -> bool {
        &&& self.spaces == total_spaces(self.seen@)
        &&& self.lines == self.seen@.len()
        &&& self.letters == total_letters(self.seen@)
        &&& self.chars == total_chars(self.seen@)
        &&& self.chars + self.lines <= u64::MAX
    }

    /// Number of characters over all lines seen.
    pub closed spec fn total(&self) -> nat {
        self.chars as nat
    }

    /// Whether a line of `len` characters can still be counted: all the
    /// tallies then still fit in a `u64`.
    pub fn has_room_for(&self, len: usize) -> (b: bool)
        requires
            self.wf(),
        ensures
            b == (self.total() + len + self@.len() + 1 <= u64::MAX),
    {
        let used = self.chars + self.lines;
        if used == u64::MAX {
            false
        } else {
            (len as u64) <= u64::MAX - used - 1
        }
    }

    /// A counter that has seen no line.
    pub fn new() -> (c: WordCounter)
        ensures
            c@ == Seq::<Seq<char>>::empty(),
            c.wf(),
            c.total() == 0,
    {
        WordCounter {
            spaces: 0,
            lines: 0,
            letters: 0,
            chars: 0,
            seen: Ghost(Seq::empty()),
        }
    }

    /// Counts one more line (without its line terminator).
    pub fn add_line(&mut self, line: &Vec<char>)
        requires
            old(self).wf(),
            old(self).total() + line@.len() + old(self)@.len() + 1 <= u64::MAX,
        ensures
            final(self).wf(),
            final(self)@ == old(self)@.push(line@),
            final(self).total() == old(self).total() + line@.len(),
    {
        proof {
            lemma_totals_bounded(self.seen@);
            lemma_counts_bounded(line@);
        }
        let (sp, le) = count_line(line);
        let ghost before = self.seen@;
        self.spaces = self.spaces + sp;
        self.letters = self.letters + le;
        self.lines = self.lines + 1;
        self.chars = self.chars + line.len() as u64;
        self.seen = Ghost(self.seen@.push(line@));
        assert(self.seen@.drop_last() =~= before);
    }

    /// The counts over the lines seen: words are the spaces plus one per line.
    pub fn counts(&self) -> (c: Counts)
        requires
            self.wf(),
        ensures
            (c.words as nat, c.lines as nat, c.characters as nat) == counts_spec(self@),
    {
        proof {
            lemma_totals_bounded(self.seen@);
        }
        Counts { words: self.spaces + self.lines, lines: self.lines, characters: self.letters }
    }
}

/// Letters are counted whatever their case: changing the case of the ASCII
/// letters of a line, to upper or to lower case, keeps its letter count.
pub proof fn lemma_letters_ignore_case(line: Seq<char>)
    ensures
        letters(line.map_values(|c: char| ascii_upper(c))) == letters(line),
        letters(line.map_values(|c: char| ascii_lower(c))) == letters(line),
    decreases line.len(),
{
    if line.len() > 0 {
        lemma_letters_ignore_case(line.drop_last());
        assert(line.map_values(|c: char| ascii_upper(c)).drop_last() =~= line.drop_last().map_values(
            |c: char| ascii_upper(c),
        ));
        assert(line.map_values(|c: char| ascii_lower(c)).drop_last() =~= line.drop_last().map_values(
            |c: char| ascii_lower(c),
        ));
        let c = line.last();
        assert(((c as int) - 32) as char as int == (c as int) - 32 || !('a' <= c && c <= 'z'));
        assert(((c as int) + 32) as char as int == (c as int) + 32 || !('A' <= c && c <= 'Z'));
    }
}

/// Every ASCII letter, of either case, adds one to a line's letter count,
/// and any other character adds none; a space adds one to the space count.
pub proof fn lemma_letters_push(line: Seq<char>, c: char)
    ensures
        letters(line.push(c)) == letters(line) + if ('a' <= c && c <= 'z') || ('A' <= c && c
            <= 'Z') {
            1int
        } else {
            0int
        },
        spaces(line.push(c)) == spaces(line) + if c == ' ' {
            1int
        } else {
            0int
        },
{
    assert(line.push(c).drop_last() =~= line);
}

/// A line's letters and spaces never outnumber its characters.
pub proof fn lemma_line_counts_bounded(line: Seq<char>)
    ensures
        letters(line) + spaces(line) <= line.len(),
    decreases line.len(),
{
    if line.len() > 0 {
        lemma_line_counts_bounded(line.drop_last());
    }
}

/// Each line adds one to the line count, its spaces plus one (for its last
/// word) to the word count, and its ASCII letters to the letter count.
pub proof fn lemma_counts_add_line(ls: Seq<Seq<char>>, line: Seq<char>)
    ensures
        counts_spec(ls.push(line)).0 == counts_spec(ls).0 + spaces(line) + 1,
        counts_spec(ls.push(line)).1 == counts_spec(ls).1 + 1,
        counts_spec(ls.push(line)).2 == counts_spec(ls).2 + letters(line),
{
    assert(ls.push(line).drop_last() =~= ls);
}

/// Counting a text split into two parts gives the sum of the counts of the
/// parts: the counts do not depend on how the lines are fed in.
pub proof fn lemma_counts_additive(a: Seq<Seq<char>>, b: Seq<Seq<char>>)
    ensures
        counts_spec(a + b).0 == counts_spec(a).0 + counts_spec(b).0,
        counts_spec(a + b).1 == counts_spec(a).1 + counts_spec(b).1,
        counts_spec(a + b).2 == counts_spec(a).2 + counts_spec(b).2,
    decreases b.len(),
{
    if b.len() > 0 {
        lemma_counts_additive(a, b.drop_last());
        assert((a + b).drop_last() =~= a + b.drop_last());
    } else {
        assert(a + b =~= a);
    }
}

} // verus!
