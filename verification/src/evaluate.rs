//! Scoring a guess against the target word.
//!
//! Marking is the classic two-pass rule. The first pass fixes every exact
//! positional match. The second pass walks the remaining positions from left
//! to right and marks a letter as present-elsewhere only while unconsumed
//! occurrences of it remain in the target, so a letter repeated in the guess
//! earns no more marks than the target holds occurrences.

use vstd::prelude::*;

verus! {

/// Correctness of one guessed letter at one position.
#[derive(Clone, Copy, Debug, PartialEq, Eq, Structural)]
pub enum Correctness {
    /// The letter stands in the target word at this very position.
    Correct,
    /// The letter occurs in the target word at another position, and an
    /// unconsumed occurrence of it remains.
    PresentElsewhere,
    /// The letter does not occur in the target word, or every occurrence of
    /// it is already accounted for.
    Absent,
}

/// How many positions of `s` hold the character `c`.
pub open spec fn count_occ(s: Seq<char>, c: char) -> nat
    decreases s.len(),
{
    if s.len() == 0 {
        0
    } else {
        count_occ(s.drop_last(), c) + if s.last() == c {
            1nat
        } else {
            0nat
        }
    }
}

/// How many of the first `upto` positions are exact matches of the letter
/// `c`: guess and target agree there, and the common letter is `c`.
pub open spec fn correct_occ(g: Seq<char>, t: Seq<char>, c: char, upto: int) -> nat
    decreases upto,
{
    if upto <= 0 {
        0
    } else {
        correct_occ(g, t, c, upto - 1) + if g[upto - 1] == t[upto - 1] && g[upto - 1] == c {
            1nat
        } else {
            0nat
        }
    }
}

/// How many positions before `i` were marked present-elsewhere for the
/// letter `c` by the second pass.
pub open spec fn present_before(g: Seq<char>, t: Seq<char>, c: char, i: int) -> nat
    decreases i, 0int,
{
    if i <= 0 {
        0
    } else {
        present_before(g, t, c, i - 1) + if g[i - 1] == c && is_present_at(g, t, i - 1) {
            1nat
        } else {
            0nat
        }
    }
}

/// Whether the second pass marks position `i` as present-elsewhere: the
/// letter is not an exact match here, and the target holds more occurrences
/// of it than the exact matches and the earlier present-elsewhere marks
/// together have consumed.
pub open spec fn is_present_at(g: Seq<char>, t: Seq<char>, i: int) -> bool
    decreases i, 1int,
{
    &&& g[i] != t[i]
    &&& count_occ(t, g[i]) > correct_occ(g, t, g[i], g.len() as int) + present_before(g, t, g[i], i)
}

/// The mark that position `i` receives.
pub open spec fn mark_of(g: Seq<char>, t: Seq<char>, i: int) -> Correctness {
    if g[i] == t[i] {
        Correctness::Correct
    } else if is_present_at(g, t, i) {
        Correctness::PresentElsewhere
    } else {
        Correctness::Absent
    }
}

/// The full sequence of marks for a guess `g` against a target `t` of the
/// same length.
pub open spec fn eval_spec(g: Seq<char>, t: Seq<char>) -> Seq<Correctness> {
    Seq::new(g.len(), |i: int| mark_of(g, t, i))
}

/// A character never occurs more often than the sequence is long.
pub proof fn lemma_count_occ_le_len(s: Seq<char>, c: char)
    ensures
        count_occ(s, c) <= s.len(),
    decreases s.len(),
{
    if s.len() > 0 {
        lemma_count_occ_le_len(s.drop_last(), c);
    }
}

/// Counts the occurrences of `c` in `s`.
pub(crate) fn count_in(s: &str, c: char) -> (n: usize)
    ensures
        n == count_occ(s@, c),
{
    let len = s.unicode_len();
    let mut n: usize = 0;
    let mut j: usize = 0;
    while j < len
        invariant
            len == s@.len(),
            j <= len,
            n <= j,
            n == count_occ(s@.take(j as int), c),
        decreases len - j,
    {
        let cj = s.get_char(j);
        proof {
            assert(s@.take(j + 1).drop_last() =~= s@.take(j as int));
            assert(s@.take(j + 1).last() == s@[j as int]);
        }
        if cj == c {
            n = n + 1;
        }
        j = j + 1;
    }
    proof {
        assert(s@.take(len as int) =~= s@);
    }
    n
}

/// Counts the exact positional matches of the letter `c`.
fn count_correct(guess: &str, target: &str, c: char) -> (n: usize)
    requires
        guess@.len() == target@.len(),
    ensures
        n == correct_occ(guess@, target@, c, guess@.len() as int),
{
    let len = guess.unicode_len();
    let mut n: usize = 0;
    let mut j: usize = 0;
    while j < len
        invariant
            len == guess@.len(),
            guess@.len() == target@.len(),
            j <= len,
            n <= j,
            n == correct_occ(guess@, target@, c, j as int),
        decreases len - j,
    {
        let gj = guess.get_char(j);
        let tj = target.get_char(j);
        if gj == tj && gj == c {
            n = n + 1;
        }
        j = j + 1;
    }
    n
}

/// Counts the present-elsewhere marks for the letter `c` among the first `i`
/// marks, which the caller has already shown to agree with `mark_of`.
fn count_present(
    marks: &Vec<Correctness>,
    guess: &str,
    target: &str,
    c: char,
    i: usize,
) -> (n: usize)
    requires
        guess@.len() == target@.len(),
        i <= marks@.len(),
        i <= guess@.len(),
        forall|j: int| 0 <= j < i ==> marks@[j] == mark_of(guess@, target@, j),
    ensures
        n == present_before(guess@, target@, c, i as int),
{
    let mut n: usize = 0;
    let mut j: usize = 0;
    while j < i
        invariant
            guess@.len() == target@.len(),
            i <= marks@.len(),
            i <= guess@.len(),
            forall|k: int| 0 <= k < i ==> marks@[k] == mark_of(guess@, target@, k),
            j <= i,
            n <= j,
            n == present_before(guess@, target@, c, j as int),
        decreases i - j,
    {
        let gj = guess.get_char(j);
        if marks[j] == Correctness::PresentElsewhere && gj == c {
            n = n + 1;
        }
        proof {
            assert(marks@[j as int] == mark_of(guess@, target@, j as int));
            assert((marks@[j as int] == Correctness::PresentElsewhere) == is_present_at(
                guess@,
                target@,
                j as int,
            ));
        }
        j = j + 1;
    }
    n
}

/// Marks every position of `guess` against `target`, handling repeated
/// letters by consuming target occurrences: exact matches first, then
/// present-elsewhere marks from left to right.
pub fn evaluate(guess: &str, target: &str) -> (marks: Vec<Correctness>)
    requires
        guess@.len() == target@.len(),
    ensures
        marks@ == eval_spec(guess@, target@),
{
    let n = guess.unicode_len();
    let mut marks: Vec<Correctness> = Vec::new();
    let mut i: usize = 0;
    while i < n
        invariant
            n == guess@.len(),
            guess@.len() == target@.len(),
            i <= n,
            marks@.len() == i,
            forall|j: int| 0 <= j < i ==> marks@[j] == mark_of(guess@, target@, j),
        decreases n - i,
    {
        let gc = guess.get_char(i);
        let tc = target.get_char(i);
        if gc == tc {
            marks.push(Correctness::Correct);
        } else {
            let total = count_in(target, gc);
            let exact = count_correct(guess, target, gc);
            let earlier = count_present(&marks, guess, target, gc, i);
            proof {
                assert((total > exact && total - exact > earlier) == is_present_at(
                    guess@,
                    target@,
                    i as int,
                ));
            }
            if total > exact && total - exact > earlier {
                marks.push(Correctness::PresentElsewhere);
            } else {
                marks.push(Correctness::Absent);
            }
        }
        i = i + 1;
    }
    proof {
        assert(marks@ =~= eval_spec(guess@, target@));
    }
    marks
}

/// A character that no position of `s` holds never counts an occurrence,
/// and conversely.
pub proof fn lemma_count_occ_zero(s: Seq<char>, c: char)
    ensures
        count_occ(s, c) == 0 <==> (forall|j: int| 0 <= j < s.len() ==> s[j] != c),
    decreases s.len(),
{
    if s.len() > 0 {
        lemma_count_occ_zero(s.drop_last(), c);
        assert(forall|j: int| 0 <= j < s.len() - 1 ==> s[j] == s.drop_last()[j]);
    }
}

/// A guess equal to the target is marked correct at every position.
pub proof fn lemma_exact_guess_all_correct(g: Seq<char>, t: Seq<char>)
    requires
        g == t,
    ensures
        eval_spec(g, t).len() == g.len(),
        forall|i: int| 0 <= i < g.len() ==> eval_spec(g, t)[i] == Correctness::Correct,
{
}

/// A guess that shares no letter with the target is marked absent at every
/// position.
pub proof fn lemma_disjoint_guess_all_absent(g: Seq<char>, t: Seq<char>)
    requires
        g.len() == t.len(),
        forall|i: int| 0 <= i < g.len() ==> count_occ(t, g[i]) == 0,
    ensures
        eval_spec(g, t).len() == g.len(),
        forall|i: int| 0 <= i < g.len() ==> eval_spec(g, t)[i] == Correctness::Absent,
{
    assert forall|i: int| 0 <= i < g.len() implies eval_spec(g, t)[i] == Correctness::Absent by {
        lemma_count_occ_zero(t, g[i]);
        assert(t[i] != g[i]);
        assert(!is_present_at(g, t, i));
    }
}

} // verus!
