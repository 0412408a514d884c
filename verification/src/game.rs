//! The game state machine: one submitted guess at a time.
//!
//! A submitted line is first normalized (surrounding whitespace trimmed,
//! ASCII letters lowercased). A normalized guess of the wrong length, or one
//! that is not in the word list, is rejected and costs no try. An accepted
//! guess consumes a try, is scored against the target, and moves the game to
//! won, lost, or another round.

use vstd::prelude::*;
use vstd::pervasive::VecAdditionalExecFns;
use crate::evaluate::{
    Correctness, count_in, count_occ, eval_spec, evaluate, lemma_count_occ_le_len,
};
use crate::words::{all_lower_alpha, is_lower_alpha, lower_char, push_char};

verus! {

/// Fixed parameters of one game.
#[derive(Clone, Copy, Debug)]
pub struct Configuration {
    /// Number of accepted guesses before the game is over.
    pub guess_tries: u32,
    /// Number of letters in the word to be guessed.
    pub guess_letters: u8,
}

/// Where the game stands.
#[derive(Clone, Copy, Debug, PartialEq, Eq, Structural)]
pub enum GameStatus {
    /// Tries remain and the target is not yet guessed.
    InProgress,
    /// An accepted guess matched the target exactly.
    Won,
    /// Every try is spent without an exact match.
    Lost,
}

/// What the player so far knows of one alphabet letter.
#[derive(Clone, Copy, Debug, PartialEq, Eq, Structural)]
pub enum LetterHint {
    /// No accepted guess has used the letter yet.
    Untried,
    /// The letter was tried and does not occur in the target.
    NotInTarget,
    /// The letter was tried and occurs in the target.
    InTarget,
}

/// The answer to one submitted guess.
#[derive(Debug)]
pub enum GuessOutcome {
    /// The normalized guess does not have the configured number of letters;
    /// no try is consumed.
    WrongLength,
    /// The normalized guess is not in the word list; no try is consumed.
    NotInList,
    /// The guess was accepted: it consumed a try and was scored.
    Accepted { marks: Vec<Correctness>, won: bool },
}

/// ASCII whitespace, the characters that trimming a submitted line removes.
pub open spec fn is_space_char(c: char) -> bool {
    c == ' ' || c == '\t' || c == '\r' || c == '\n'
}

/// `s` without its leading whitespace.
pub open spec fn trim_front(s: Seq<char>) -> Seq<char>
    decreases s.len(),
{
    if s.len() > 0 && is_space_char(s.first()) {
        trim_front(s.drop_first())
    } else {
        s
    }
}

/// `s` without its trailing whitespace.
pub open spec fn trim_back(s: Seq<char>) -> Seq<char>
    decreases s.len(),
{
    if s.len() > 0 && is_space_char(s.last()) {
        trim_back(s.drop_last())
    } else {
        s
    }
}

/// Every character of `s`, lowercased as `lower_char` does.
pub open spec fn lower_seq(s: Seq<char>) -> Seq<char> {
    s.map_values(|c: char| lower_char(c))
}

/// What a submitted line becomes before it is judged: surrounding
/// whitespace trimmed, then ASCII letters lowercased.
pub open spec fn normalize_spec(s: Seq<char>) -> Seq<char> {
    lower_seq(trim_back(trim_front(s)))
}

/// When the first `k` characters are whitespace and the next one is not,
/// trimming the front drops exactly those `k`.
proof fn lemma_trim_front_skip(s: Seq<char>, k: int)
    requires
        0 <= k <= s.len(),
        forall|j: int| 0 <= j < k ==> is_space_char(s[j]),
        k < s.len() ==> !is_space_char(s[k]),
    ensures
        trim_front(s) == s.skip(k),
    decreases k,
{
    if k == 0 {
        assert(s.skip(0) =~= s);
    } else {
        lemma_trim_front_skip(s.drop_first(), k - 1);
        assert(s.drop_first().skip(k - 1) =~= s.skip(k));
    }
}

/// When everything from position `b` on is whitespace and the character
/// before `b` is not, trimming the back keeps exactly the first `b`.
proof fn lemma_trim_back_take(s: Seq<char>, b: int)
    requires
        0 <= b <= s.len(),
        forall|j: int| b <= j < s.len() ==> is_space_char(s[j]),
        b > 0 ==> !is_space_char(s[b - 1]),
    ensures
        trim_back(s) == s.take(b),
    decreases s.len() - b,
{
    if b == s.len() {
        if s.len() > 0 && is_space_char(s.last()) {
            lemma_trim_back_take(s.drop_last(), b - 1);
            assert(b - 1 > 0 ==> !is_space_char(s.drop_last()[b - 2]));
        } else {
            assert(s.take(b) =~= s);
        }
    } else {
        lemma_trim_back_take(s.drop_last(), b);
        assert(s.drop_last().take(b) =~= s.take(b));
    }
}

/// Normalizes a submitted line: trims surrounding whitespace and lowercases
/// ASCII letters.
pub fn normalize_guess(raw: &str) -> (r: String)
    ensures
        r@ == normalize_spec(raw@),
{
    let n = raw.unicode_len();
    let mut a: usize = 0;
    while a < n
        invariant
            n == raw@.len(),
            a <= n,
            forall|j: int| 0 <= j < a ==> is_space_char(raw@[j]),
        ensures
            n == raw@.len(),
            a <= n,
            forall|j: int| 0 <= j < a ==> is_space_char(raw@[j]),
            a < n ==> !is_space_char(raw@[a as int]),
        decreases n - a,
    {
        let c = raw.get_char(a);
        if !(c == ' ' || c == '\t' || c == '\r' || c == '\n') {
            break;
        }
        a = a + 1;
    }
    if a == n {
        proof {
            lemma_trim_front_skip(raw@, n as int);
            assert(raw@.skip(n as int) =~= Seq::<char>::empty());
            assert(lower_seq(Seq::<char>::empty()) =~= Seq::<char>::empty());
        }
        return String::new();
    }
    let mut b: usize = n;
    while b > a
        invariant
            n == raw@.len(),
            a <= b <= n,
            a < n,
            !is_space_char(raw@[a as int]),
            forall|j: int| b <= j < n ==> is_space_char(raw@[j]),
        ensures
            a <= b <= n,
            forall|j: int| b <= j < n ==> is_space_char(raw@[j]),
            b > a ==> !is_space_char(raw@[b - 1]),
        decreases b,
    {
        let c = raw.get_char(b - 1);
        if !(c == ' ' || c == '\t' || c == '\r' || c == '\n') {
            break;
        }
        b = b - 1;
    }
    proof {
        lemma_trim_front_skip(raw@, a as int);
        lemma_trim_back_take(raw@.skip(a as int), b - a);
        assert(raw@.skip(a as int).take(b - a) =~= raw@.subrange(a as int, b as int));
    }
    let ghost trimmed: Seq<char> = raw@.subrange(a as int, b as int);
    let mut r = String::new();
    let mut i: usize = a;
    while i < b
        invariant
            n == raw@.len(),
            a <= i <= b <= n,
            trimmed == raw@.subrange(a as int, b as int),
            r@ == lower_seq(raw@.subrange(a as int, i as int)),
        decreases b - i,
    {
        let c = raw.get_char(i);
        let lc: char = if 'A' <= c && c <= 'Z' {
            (((c as u8) + 32) as char)
        } else {
            c
        };
        push_char(&mut r, lc);
        proof {
            assert(lc == lower_char(raw@[i as int]));
            assert(lower_seq(raw@.subrange(a as int, i + 1)) =~= lower_seq(
                raw@.subrange(a as int, i as int),
            ).push(lower_char(raw@[i as int])));
        }
        i = i + 1;
    }
    r
}

/// Whether some word of the list reads the same as `w`.
fn list_contains(words: &Vec<String>, w: &String) -> (b: bool)
    ensures
        b == exists|k: int| 0 <= k < words@.len() && (#[trigger] words@[k])@ == w@,
{
    let mut k: usize = 0;
    while k < words.len()
        invariant
            k <= words@.len(),
            forall|j: int| 0 <= j < k ==> (#[trigger] words@[j])@ != w@,
        decreases words@.len() - k,
    {
        if words[k] == *w {
            return true;
        }
        k = k + 1;
    }
    false
}

/// The position of a lowercase ASCII letter in the alphabet, 0 through 25.
pub open spec fn letter_index(c: char) -> int {
    (c as u32) - 97
}

/// The lowercase ASCII letter at alphabet position `j`.
pub open spec fn letter_of(j: int) -> char {
    (((j + 97) as u8) as char)
}

/// The per-letter knowledge after recording every letter of the guess `g`:
/// a letter guessed for the first time is recorded with its occurrence
/// count in the target `t`; a letter already recorded keeps its count.
pub open spec fn record_spec(counts: Seq<Option<u8>>, g: Seq<char>, t: Seq<char>) -> Seq<
    Option<u8>,
>
    decreases g.len(),
{
    if g.len() == 0 {
        counts
    } else {
        let prev = record_spec(counts, g.drop_last(), t);
        let idx = letter_index(g.last());
        if 0 <= idx < prev.len() && prev[idx] is None {
            prev.update(idx, Some(count_occ(t, g.last()) as u8))
        } else {
            prev
        }
    }
}

/// What one recorded letter count tells the player.
pub open spec fn hint_of(entry: Option<u8>) -> LetterHint {
    match entry {
        Option::None => LetterHint::Untried,
        Option::Some(cnt) => if cnt == 0 {
            LetterHint::NotInTarget
        } else {
            LetterHint::InTarget
        },
    }
}

/// One game: the hidden target, the configuration, the tries spent, the
/// standing of the game, and the per-letter knowledge shown to the player.
pub struct Game {
    /// The hidden word the player must guess.
    pub target: String,
    /// The game's fixed parameters.
    pub config: Configuration,
    /// Accepted guesses so far.
    pub guesses: u32,
    /// Where the game stands.
    pub status: GameStatus,
    /// For each letter `a` through `z`: `None` until the letter is first
    /// guessed, then how often it occurs in the target.
    pub letter_counts: Vec<Option<u8>>,
}

impl Game {
    /// The game's internal consistency: the target fits the configuration,
    /// spent tries never exceed the allowance, a running game has a try
    /// left, and each recorded letter count is the letter's true occurrence
    /// count in the target.
    pub open spec fn wf(self) -> bool {
        &&& self.target@.len() == self.config.guess_letters as int
        &&& all_lower_alpha(self.target@)
        &&& self.guesses <= self.config.guess_tries
        &&& (self.status is InProgress ==> self.guesses < self.config.guess_tries)
        &&& self.letter_counts@.len() == 26
        &&& forall|j: int| 0 <= j < 26 ==> ((#[trigger] self.letter_counts@[j]) is Some
            ==> self.letter_counts@[j]->0 == count_occ(self.target@, letter_of(j)))
    }

    /// Starts a game on the given target word. With no tries allowed the
    /// game is lost outright; otherwise it awaits the first guess.
    pub fn new(target: String, config: Configuration) -> (g: Game)
        requires
            target@.len() == config.guess_letters as int,
            all_lower_alpha(target@),
        ensures
            g.wf(),
            g.target == target,
            g.config == config,
            g.guesses == 0,
            g.status is Won == false,
            g.status is InProgress <==> config.guess_tries > 0,
            forall|j: int| 0 <= j < 26 ==> (#[trigger] g.letter_counts@[j]) is None,
    {
        let status = if config.guess_tries == 0 {
            GameStatus::Lost
        } else {
            GameStatus::InProgress
        };
        let mut letter_counts: Vec<Option<u8>> = Vec::new();
        let mut j: usize = 0;
        while j < 26
            invariant
                j <= 26,
                letter_counts@.len() == j,
                forall|k: int| 0 <= k < j ==> (#[trigger] letter_counts@[k]) is None,
            decreases 26 - j,
        {
            letter_counts.push(Option::None);
            j = j + 1;
        }
        Game { target, config, guesses: 0, status, letter_counts }
    }

    /// Records every letter of the accepted guess `g` in the per-letter
    /// knowledge: a first-time letter gets its occurrence count in the
    /// target, a known letter keeps it.
    fn record_letters(&mut self, g: &String)
        requires
            old(self).letter_counts@.len() == 26,
            old(self).target@.len() <= 255,
            all_lower_alpha(g@),
        ensures
            final(self).letter_counts@ == record_spec(old(self).letter_counts@, g@, old(self).target@),
            final(self).target == old(self).target,
            final(self).config == old(self).config,
            final(self).guesses == old(self).guesses,
            final(self).status == old(self).status,
            final(self).letter_counts@.len() == 26,
            forall|j: int| 0 <= j < 26 ==> ((#[trigger] final(self).letter_counts@[j]) is Some
                ==> final(self).letter_counts@[j] == old(self).letter_counts@[j]
                    || final(self).letter_counts@[j]->0 == count_occ(
                    old(self).target@,
                    letter_of(j),
                )),
    {
        let len = g.as_str().unicode_len();
        let mut i: usize = 0;
        while i < len
            invariant
                len == g@.len(),
                i <= len,
                all_lower_alpha(g@),
                old(self).target@.len() <= 255,
                self.letter_counts@.len() == 26,
                self.letter_counts@ == record_spec(
                    old(self).letter_counts@,
                    g@.take(i as int),
                    old(self).target@,
                ),
                self.target == old(self).target,
                self.config == old(self).config,
                self.guesses == old(self).guesses,
                self.status == old(self).status,
                forall|j: int| 0 <= j < 26 ==> ((#[trigger] self.letter_counts@[j]) is Some
                    ==> self.letter_counts@[j] == old(self).letter_counts@[j]
                        || self.letter_counts@[j]->0 == count_occ(
                        old(self).target@,
                        letter_of(j),
                    )),
            decreases len - i,
        {
            let c = g.as_str().get_char(i);
            proof {
                assert(is_lower_alpha(g@[i as int]));
                assert(g@.take(i + 1).drop_last() =~= g@.take(i as int));
                assert(g@.take(i + 1).last() == g@[i as int]);
            }
            let u: u32 = c as u32;
            let idx: usize = (u - 97) as usize;
            proof {
                assert(idx == letter_index(c));
                assert(letter_of(idx as int) == c);
            }
            let ghost prev_counts: Seq<Option<u8>> = self.letter_counts@;
            if self.letter_counts[idx].is_none() {
                let cnt = count_in(self.target.as_str(), c);
                proof {
                    lemma_count_occ_le_len(self.target@, c);
                }
                self.letter_counts.set(idx, Option::Some(cnt as u8));
                proof {
                    assert(self.target@.len() <= 255);
                    assert(cnt <= 255);
                    assert(self.letter_counts@[idx as int]->0 == count_occ(
                        old(self).target@,
                        letter_of(idx as int),
                    ));
                    assert(forall|j: int| 0 <= j < 26 && j != idx ==> self.letter_counts@[j]
                        == prev_counts[j]);
                }
            }
            i = i + 1;
        }
        proof {
            assert(g@.take(len as int) =~= g@);
        }
    }

    /// Judges one submitted line. A guess of the wrong length, or one not
    /// in the word list, is rejected and changes nothing, so no try is
    /// consumed. An accepted guess consumes one try and is scored: an exact
    /// match wins at once, even on the last try; otherwise the game is lost
    /// exactly when the last try is spent.
    pub fn submit_guess(&mut self, raw: &str, words: &Vec<String>) -> (out: GuessOutcome)
        requires
            old(self).wf(),
            old(self).status is InProgress,
            forall|k: int| 0 <= k < words@.len() ==> all_lower_alpha((#[trigger] words@[k])@),
        ensures
            final(self).wf(),
            final(self).target == old(self).target,
            final(self).config == old(self).config,
            match out {
                GuessOutcome::WrongLength => {
                    &&& *final(self) == *old(self)
                    &&& normalize_spec(raw@).len() != old(self).config.guess_letters as int
                },
                GuessOutcome::NotInList => {
                    &&& *final(self) == *old(self)
                    &&& normalize_spec(raw@).len() == old(self).config.guess_letters as int
                    &&& !(exists|k: int| 0 <= k < words@.len() && (#[trigger] words@[k])@
                        == normalize_spec(raw@))
                },
                GuessOutcome::Accepted { marks, won } => {
                    &&& normalize_spec(raw@).len() == old(self).config.guess_letters as int
                    &&& exists|k: int| 0 <= k < words@.len() && (#[trigger] words@[k])@
                        == normalize_spec(raw@)
                    &&& marks@ == eval_spec(normalize_spec(raw@), old(self).target@)
                    &&& (won <==> normalize_spec(raw@) == old(self).target@)
                    &&& final(self).guesses == old(self).guesses + 1
                    &&& (won ==> final(self).status is Won)
                    &&& (!won ==> (final(self).status is Lost <==> final(self).guesses
                        == final(self).config.guess_tries))
                    &&& (!won ==> (final(self).status is InProgress <==> final(self).guesses
                        < final(self).config.guess_tries))
                    &&& final(self).letter_counts@ == record_spec(
                        old(self).letter_counts@,
                        normalize_spec(raw@),
                        old(self).target@,
                    )
                },
            },
    {
        let g = normalize_guess(raw);
        let goal: usize = self.config.guess_letters as usize;
        if g.as_str().unicode_len() != goal {
            return GuessOutcome::WrongLength;
        }
        if !list_contains(words, &g) {
            return GuessOutcome::NotInList;
        }
        proof {
            let k = choose|k: int| 0 <= k < words@.len() && (#[trigger] words@[k])@ == g@;
            assert(all_lower_alpha(words@[k]@));
        }
        self.guesses = self.guesses + 1;
        self.record_letters(&g);
        let marks = evaluate(g.as_str(), self.target.as_str());
        let won = g == self.target;
        if won {
            self.status = GameStatus::Won;
        } else if self.guesses == self.config.guess_tries {
            self.status = GameStatus::Lost;
        }
        GuessOutcome::Accepted { marks, won }
    }

    /// The hint shown for each alphabet letter, `a` through `z` in order:
    /// untried, known absent from the target, or known present in it.
    pub fn letter_hints(&self) -> (hints: Vec<LetterHint>)
        requires
            self.letter_counts@.len() == 26,
        ensures
            hints@.len() == 26,
            forall|j: int| 0 <= j < 26 ==> hints@[j] == hint_of(self.letter_counts@[j]),
    {
        let mut hints: Vec<LetterHint> = Vec::new();
        let mut j: usize = 0;
        while j < 26
            invariant
                j <= 26,
                self.letter_counts@.len() == 26,
                hints@.len() == j,
                forall|k: int| 0 <= k < j ==> hints@[k] == hint_of(self.letter_counts@[k]),
            decreases 26 - j,
        {
            let hint = match self.letter_counts[j] {
                Option::None => LetterHint::Untried,
                Option::Some(cnt) => if cnt == 0 {
                    LetterHint::NotInTarget
                } else {
                    LetterHint::InTarget
                },
            };
            hints.push(hint);
            j = j + 1;
        }
        hints
    }
}

} // verus!
