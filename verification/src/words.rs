//! The word source: cleaning corpus lines into candidate words and picking
//! the target word at random.

use vstd::prelude::*;
use crate::game::Configuration;
use rand::seq::SliceRandom;

verus! {

/// A lowercase ASCII letter.
pub open spec fn is_lower_alpha(c: char) -> bool {
    'a' <= c && c <= 'z'
}

/// Lowercase mapping restricted to ASCII: `'A'..='Z'` shift to `'a'..='z'`,
/// every other character stays as it is.
pub open spec fn lower_char(c: char) -> char {
    if 'A' <= c && c <= 'Z' {
        (((c as u8) + 32) as char)
    } else {
        c
    }
}

/// Every character of `s` is a lowercase ASCII letter.
pub open spec fn all_lower_alpha(s: Seq<char>) -> bool {
    forall|j: int| 0 <= j < s.len() ==> is_lower_alpha(s[j])
}

/// What cleaning a corpus line leaves: each character lowercased, and only
/// the ASCII letters kept, in their original order.
pub open spec fn sanitize_spec(s: Seq<char>) -> Seq<char>
    decreases s.len(),
{
    if s.len() == 0 {
        Seq::empty()
    } else {
        sanitize_spec(s.drop_last()) + if is_lower_alpha(lower_char(s.last())) {
            seq![lower_char(s.last())]
        } else {
            Seq::<char>::empty()
        }
    }
}

/// The lines of `s`, as `split('\n')` yields them: newline characters end a
/// line, and the text after the last newline is a line of its own, so the
/// result is never empty.
pub open spec fn split_lines(s: Seq<char>) -> Seq<Seq<char>>
    decreases s.len(),
{
    if s.len() == 0 {
        seq![Seq::<char>::empty()]
    } else {
        let rest = split_lines(s.drop_last());
        if s.last() == '\n' {
            rest.push(Seq::<char>::empty())
        } else {
            rest.update(rest.len() - 1, rest.last().push(s.last()))
        }
    }
}

/// The candidate words a corpus yields: every line after the first two
/// header lines, cleaned by `sanitize_spec`, kept when exactly `len`
/// characters remain.
pub open spec fn words_of(lines: Seq<Seq<char>>, len: int) -> Seq<Seq<char>>
    decreases lines.len(),
{
    if lines.len() <= 2 {
        Seq::empty()
    } else {
        words_of(lines.drop_last(), len) + if sanitize_spec(lines.last()).len() == len {
            seq![sanitize_spec(lines.last())]
        } else {
            Seq::<Seq<char>>::empty()
        }
    }
}

/// Cleaning leaves only lowercase ASCII letters.
pub proof fn lemma_sanitize_all_lower(s: Seq<char>)
    ensures
        all_lower_alpha(sanitize_spec(s)),
    decreases s.len(),
{
    if s.len() > 0 {
        lemma_sanitize_all_lower(s.drop_last());
    }
}

/// Relies on `String::push`: appends exactly the given character.
#[verifier::external_body]
pub(crate) fn push_char(s: &mut String, c: char)
    ensures
        final(s)@ == old(s)@.push(c),
{
    s.push(c);
}

/// Cleans one corpus line: lowercases each character and drops everything
/// that is not an ASCII letter, whitespace included.
pub fn sanitize_word(word: &str) -> (r: String)
    ensures
        r@ == sanitize_spec(word@),
        all_lower_alpha(r@),
{
    let len = word.unicode_len();
    let mut r = String::new();
    let mut i: usize = 0;
    while i < len
        invariant
            len == word@.len(),
            i <= len,
            r@ == sanitize_spec(word@.take(i as int)),
        decreases len - i,
    {
        let c = word.get_char(i);
        let lc: char = if 'A' <= c && c <= 'Z' {
            (((c as u8) + 32) as char)
        } else {
            c
        };
        proof {
            assert(word@.take(i + 1).drop_last() =~= word@.take(i as int));
            assert(word@.take(i + 1).last() == word@[i as int]);
            assert(lc == lower_char(word@[i as int]));
        }
        if 'a' <= lc && lc <= 'z' {
            push_char(&mut r, lc);
        }
        i = i + 1;
    }
    proof {
        assert(word@.take(len as int) =~= word@);
        lemma_sanitize_all_lower(word@);
    }
    r
}

/// Appending one character extends the last line, and a newline opens a
/// fresh empty line.
proof fn lemma_split_lines_push(s: Seq<char>, c: char)
    ensures
        split_lines(s).len() >= 1,
        c == '\n' ==> split_lines(s.push(c)) == split_lines(s).push(Seq::<char>::empty()),
        c != '\n' ==> split_lines(s.push(c)) == split_lines(s).update(
            split_lines(s).len() - 1,
            split_lines(s).last().push(c),
        ),
    decreases s.len(),
{
    if s.len() > 0 {
        lemma_split_lines_push(s.drop_last(), s.last());
    }
    assert(s.push(c).drop_last() =~= s);
    assert(s.push(c).last() == c);
}

/// Filters a corpus into the list of candidate words: skips the two header
/// lines, cleans every further line, and keeps those whose cleaned form has
/// exactly the configured number of letters.
pub fn words_list(all_words: &str, config: &Configuration) -> (r: Vec<String>)
    ensures
        r.deep_view() == words_of(split_lines(all_words@), config.guess_letters as int),
        forall|k: int| 0 <= k < r@.len() ==> (#[trigger] r@[k])@.len()
            == config.guess_letters as int && all_lower_alpha(r@[k]@),
{
    let n = all_words.unicode_len();
    let goal: usize = config.guess_letters as usize;
    let mut r: Vec<String> = Vec::new();
    let ghost mut done: Seq<Seq<char>> = Seq::empty();
    let mut lines_done: usize = 0;
    let mut start: usize = 0;
    let mut i: usize = 0;
    proof {
        assert(all_words@.take(0) =~= Seq::<char>::empty());
        assert(all_words@.subrange(0, 0) =~= Seq::<char>::empty());
        assert(Seq::<Seq<char>>::empty().push(Seq::<char>::empty()) =~= seq![
            Seq::<char>::empty(),
        ]);
    }
    while i < n
        invariant
            n == all_words@.len(),
            goal == config.guess_letters as int,
            start <= i <= n,
            lines_done <= i,
            done.len() == lines_done,
            split_lines(all_words@.take(i as int)) == done.push(
                all_words@.subrange(start as int, i as int),
            ),
            r.deep_view() == words_of(done, goal as int),
            forall|k: int| 0 <= k < r@.len() ==> (#[trigger] r@[k])@.len() == goal as int
                && all_lower_alpha(r@[k]@),
        decreases n - i,
    {
        let c = all_words.get_char(i);
        proof {
            lemma_split_lines_push(all_words@.take(i as int), c);
            assert(all_words@.take(i + 1) =~= all_words@.take(i as int).push(
                all_words@[i as int],
            ));
        }
        if c == '\n' {
            let ghost line: Seq<char> = all_words@.subrange(start as int, i as int);
            if lines_done >= 2 {
                let line_str = all_words.substring_char(start, i);
                let w = sanitize_word(line_str);
                if w.unicode_len() == goal {
                    let ghost old_r = r.deep_view();
                    r.push(w);
                    proof {
                        assert(r.deep_view() =~= old_r.push(sanitize_spec(line)));
                    }
                }
            }
            proof {
                assert((done.push(line)).drop_last() =~= done);
                assert(split_lines(all_words@.take(i + 1)) == (done.push(line)).push(
                    Seq::<char>::empty(),
                ));
                assert(words_of(done.push(line), goal as int) == r.deep_view());
                done = done.push(line);
                assert(all_words@.subrange(i + 1, i + 1) =~= Seq::<char>::empty());
            }
            lines_done = lines_done + 1;
            start = i + 1;
        } else {
            proof {
                let cur = all_words@.subrange(start as int, i as int);
                assert((done.push(cur)).last() == cur);
                assert(split_lines(all_words@.take(i + 1)) == (done.push(cur)).update(
                    done.len() as int,
                    cur.push(c),
                ));
                assert((done.push(cur)).update(done.len() as int, cur.push(c)) =~= done.push(
                    cur.push(c),
                ));
                assert(all_words@.subrange(start as int, i + 1) =~= cur.push(c));
            }
        }
        i = i + 1;
    }
    let ghost last_line: Seq<char> = all_words@.subrange(start as int, n as int);
    if lines_done >= 2 {
        let line_str = all_words.substring_char(start, n);
        let w = sanitize_word(line_str);
        if w.unicode_len() == goal {
            let ghost old_r = r.deep_view();
            r.push(w);
            proof {
                assert(r.deep_view() =~= old_r.push(sanitize_spec(last_line)));
            }
        }
    }
    proof {
        assert(all_words@.take(n as int) =~= all_words@);
        assert((done.push(last_line)).drop_last() =~= done);
        assert(words_of(done.push(last_line), goal as int) == r.deep_view());
    }
    r
}

/// Relies on rand's `SliceRandom::choose`: `None` exactly on an empty
/// slice, otherwise a uniformly chosen element of it, which `cloned` copies
/// out.
#[verifier::external_body]
fn choose_cloned(words: &Vec<String>) -> (r: Option<String>)
    ensures
        match r {
            Some(w) => words@.len() > 0 && exists|k: int|
                0 <= k < words@.len() && w == words@[k],
            None => words@.len() == 0,
        },
{
    words.choose(&mut rand::thread_rng()).cloned()
}

/// Picks the target word uniformly at random from the candidate list;
/// `None` only when the list is empty. A chosen word always comes from the
/// list, so it always has the configured length.
pub fn choose_target(words: &Vec<String>, config: &Configuration) -> (r: Option<String>)
    requires
        forall|k: int| 0 <= k < words@.len() ==> (#[trigger] words@[k])@.len()
            == config.guess_letters as int && all_lower_alpha(words@[k]@),
    ensures
        match r {
            Some(w) => {
                &&& words@.len() > 0
                &&& exists|k: int| 0 <= k < words@.len() && w == words@[k]
                &&& w@.len() == config.guess_letters as int
                &&& all_lower_alpha(w@)
            },
            None => words@.len() == 0,
        },
{
    choose_cloned(words)
}

} // verus!
