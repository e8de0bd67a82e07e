//! Evaluation of a guess against a fixed word, once or in a reusable session.
use vstd::prelude::*;
use itertools::Itertools;
use crate::Clue;
use crate::counts::{
    add_counts, count_map, credit, reset_post, CountMap, ResetToEmpty, ResetToOriginal,
    ResettableMap,
};
use crate::drop_map::{run, step, HasDropMap};

verus! {

/// The characters of two words of equal length, paired position by position.
pub open spec fn pairs_of(fixed: Seq<char>, variable: Seq<char>) -> Seq<(char, char)> {
    Seq::new(fixed.len(), |i: int| (fixed[i], variable[i]))
}

/// The clues for `variable` compared with `fixed`, starting from the credits `m`.
pub open spec fn clues(fixed: Seq<char>, variable: Seq<char>, m: Map<char, int>) -> Seq<Clue> {
    run(pairs_of(fixed, variable), m).0
}

/// Relies on itertools::Itertools::zip_eq: it pairs the characters of the two
/// words in order, and panics only when one runs out before the other.
#[verifier::external_body]
fn zip_chars(fixed: &str, variable: &str) -> (r: Vec<(char, char)>)
    requires
        fixed@.len() == variable@.len(),
    ensures
        r@ == pairs_of(fixed@, variable@),
{
    fixed.chars().zip_eq(variable.chars()).collect()
}

/// Compares `guess` with `solution` using the credits of `counts`, which are
/// reset when the clues have been produced.
fn check<R: ResettableMap>(solution: &str, guess: &str, counts: &mut R) -> (r: Vec<Clue>)
    requires
        old(counts).wf(),
        solution@.len() == guess@.len(),
    ensures
        r@ == clues(solution@, guess@, old(counts).counts()),
        r@.len() == guess@.len(),
        forall|i: int|
            0 <= i < r@.len() && solution@[i] == guess@[i] ==> #[trigger] r@[i] == Clue::Exact,
        reset_post(old(counts), final(counts)),
{
    proof {
        lemma_clues_len(solution@, guess@, counts.counts());
        assert forall|i: int|
            0 <= i < solution@.len() && solution@[i] == guess@[i] implies #[trigger] clues(
            solution@,
            guess@,
            counts.counts(),
        )[i] == Clue::Exact by {
            lemma_exact_match(solution@, guess@, counts.counts(), i);
        }
    }
    let pairs = zip_chars(solution, guess);
    let ghost ps = pairs@;
    let ghost m0 = counts.counts();
    let ghost base = counts.baseline();
    let mut seq = pairs.drop_map();
    let mut out: Vec<Clue> = Vec::new();
    let mut exhausted = seq.is_exhausted();
    while !exhausted
        invariant
            exhausted == (seq.pos() == ps.len()),
            seq.wf(),
            counts.wf(),
            seq.pairs() == ps,
            !seq.is_finished(),
            counts.baseline() == base,
            out@ == run(ps.take(seq.pos() as int), m0).0,
            counts.counts() == run(ps.take(seq.pos() as int), m0).1,
        decreases ps.len() - seq.pos(),
    {
        let ghost pos = seq.pos() as int;
        let next = seq.next(counts);
        proof {
            assert(ps.take(pos + 1).drop_last() =~= ps.take(pos));
        }
        match next {
            Some(clue) => out.push(clue),
            None => {},
        }
        exhausted = seq.is_exhausted();
    }
    let end = seq.next(counts);
    assert(end is None);
    assert(ps.take(ps.len() as int) =~= ps);
    out
}

/// Adds to `counts` one credit for every occurrence of a character in `solution`.
fn init_counts(counts: &mut CountMap, solution: &str)
    requires
        old(counts).wf(),
        forall|k: char| #[trigger] credit(old(counts)@, k) + solution@.len() <= usize::MAX,
    ensures
        final(counts).wf(),
        final(counts)@ == add_counts(old(counts)@, solution@),
{
    let n = solution.unicode_len();
    let ghost s = solution@;
    let ghost m0 = counts@;
    let mut i: usize = 0;
    while i < n
        invariant
            n == s.len(),
            s == solution@,
            i <= n,
            counts.wf(),
            counts@ == add_counts(m0, s.take(i as int)),
            forall|k: char| #[trigger] credit(counts@, k) <= credit(m0, k) + i,
            forall|k: char| #[trigger] credit(m0, k) + s.len() <= usize::MAX,
        decreases n - i,
    {
        let ch = solution.get_char(i);
        let ghost prev = counts@;
        assert(credit(prev, ch) <= credit(m0, ch) + i);
        assert(credit(m0, ch) + s.len() <= usize::MAX);
        counts.add_one(ch);
        proof {
            assert(s.take(i + 1).drop_last() =~= s.take(i as int));
            assert(s.take(i + 1).last() == ch);
            assert forall|k: char| #[trigger] credit(counts@, k) <= credit(m0, k) + i + 1 by {
                assert(credit(prev, k) <= credit(m0, k) + i);
            }
        }
        i = i + 1;
    }
    assert(s.take(n as int) =~= s);
}

/// The clues for `guess` compared with `solution`, with no state kept.
pub fn check_once(solution: &str, guess: &str) -> (r: Vec<Clue>)
    requires
        solution@.len() == guess@.len(),
    ensures
        r@ == clues(solution@, guess@, count_map(solution@)),
        r@.len() == guess@.len(),
        forall|i: int|
            0 <= i < r@.len() && solution@[i] == guess@[i] ==> #[trigger] r@[i] == Clue::Exact,
{
    let len = solution.unicode_len();
    let mut resettable_counts = ResetToEmpty::new();
    proof {
        resettable_counts.lemma_view();
        assert(len == solution@.len());
    }
    init_counts(resettable_counts.get_mut(), solution);
    proof {
        resettable_counts.lemma_view();
        lemma_clues_len(solution@, guess@, count_map(solution@));
    }
    check(solution, guess, &mut resettable_counts)
}

/// A session for one secret word, checked against many guesses.
pub struct Solution {
    solution: String,
    counts: ResetToOriginal,
}

impl Solution {
    /// The secret word.
    pub closed spec fn secret(&self) -> Seq<char> {
        self.solution@
    }

    /// The credits held now.
    pub closed spec fn credits(&self) -> Map<char, int> {
        self.counts.counts()
    }

    /// Between checks the credits are the occurrence counts of the secret.
    pub closed spec fn wf(&self) -> bool {
        &&& self.counts.wf()
        &&& self.counts.baseline() == count_map(self.solution@)
        &&& self.counts.counts() == count_map(self.solution@)
    }

    pub fn new(solution: String) -> (r: Solution)
        ensures
            r.wf(),
            r.secret() == solution@,
    {
        let len = solution.as_str().unicode_len();
        let mut counts = CountMap::new();
        assert(len == solution@.len());
        init_counts(&mut counts, solution.as_str());
        Solution { solution, counts: ResetToOriginal::new(counts) }
    }

    /// The clues for `guess`; the credits are restored afterwards.
    pub fn check(&mut self, guess: &str) -> (r: Vec<Clue>)
        requires
            old(self).wf(),
            guess@.len() == old(self).secret().len(),
        ensures
            final(self).wf(),
            final(self).secret() == old(self).secret(),
            final(self).credits() == old(self).credits(),
            r@ == clues(old(self).secret(), guess@, count_map(old(self).secret())),
            r@.len() == guess@.len(),
    {
        proof {
            lemma_clues_len(self.solution@, guess@, count_map(self.solution@));
        }
        check(self.solution.as_str(), guess, &mut self.counts)
    }
}

/// A session for one fixed guess, checked against many solutions.
pub struct Guess {
    guess: String,
    counts: ResetToEmpty,
}

impl Guess {
    /// The fixed guess.
    pub closed spec fn word(&self) -> Seq<char> {
        self.guess@
    }

    /// Between checks the counter map is empty.
    pub closed spec fn wf(&self) -> bool {
        &&& self.counts.wf()
        &&& self.counts.counts() == Map::<char, int>::empty()
    }

    pub fn new(guess: String) -> (r: Guess)
        ensures
            r.wf(),
            r.word() == guess@,
    {
        Guess { guess, counts: ResetToEmpty::new() }
    }

    /// The clues for the fixed guess compared with `solution`; the counter
    /// map is emptied afterwards.
    pub fn check(&mut self, solution: &str) -> (r: Vec<Clue>)
        requires
            old(self).wf(),
            solution@.len() == old(self).word().len(),
        ensures
            final(self).wf(),
            final(self).word() == old(self).word(),
            r@ == clues(solution@, old(self).word(), count_map(solution@)),
            r@.len() == solution@.len(),
    {
        let len = solution.unicode_len();
        proof {
            self.counts.lemma_view();
            lemma_clues_len(solution@, self.guess@, count_map(solution@));
            assert(len == solution@.len());
        }
        init_counts(self.counts.get_mut(), solution);
        proof {
            self.counts.lemma_view();
        }
        check(solution, self.guess.as_str(), &mut self.counts)
    }
}

proof fn lemma_run_len(pairs: Seq<(char, char)>, m: Map<char, int>)
    ensures
        run(pairs, m).0.len() == pairs.len(),
    decreases pairs.len(),
{
    if pairs.len() > 0 {
        lemma_run_len(pairs.drop_last(), m);
    }
}

/// The clue at position `i` is the step taken from the credits left by the
/// positions before it.
proof fn lemma_run_index(pairs: Seq<(char, char)>, m: Map<char, int>, i: int)
    requires
        0 <= i < pairs.len(),
    ensures
        run(pairs, m).0[i] == step(pairs[i].0, pairs[i].1, run(pairs.take(i), m).1).0,
    decreases pairs.len(),
{
    lemma_run_len(pairs.drop_last(), m);
    if i == pairs.len() - 1 {
        assert(pairs.take(i) =~= pairs.drop_last());
    } else {
        lemma_run_index(pairs.drop_last(), m, i);
        assert(pairs.drop_last().take(i) =~= pairs.take(i));
    }
}

/// There is one clue for each position.
pub proof fn lemma_clues_len(fixed: Seq<char>, variable: Seq<char>, m: Map<char, int>)
    requires
        fixed.len() == variable.len(),
    ensures
        clues(fixed, variable, m).len() == fixed.len(),
{
    lemma_run_len(pairs_of(fixed, variable), m);
}

/// Wherever the two words hold the same character, the clue is `Exact`,
/// whatever the credits.
pub proof fn lemma_exact_match(fixed: Seq<char>, variable: Seq<char>, m: Map<char, int>, i: int)
    requires
        fixed.len() == variable.len(),
        0 <= i < fixed.len(),
        fixed[i] == variable[i],
    ensures
        clues(fixed, variable, m)[i] == Clue::Exact,
{
    lemma_run_index(pairs_of(fixed, variable), m, i);
}

/// Starting from credits that are all non-negative, no credit ever goes
/// below zero.
pub proof fn lemma_credits_non_negative(pairs: Seq<(char, char)>, m: Map<char, int>)
    requires
        forall|k: char| m.contains_key(k) ==> #[trigger] m[k] >= 0,
    ensures
        forall|k: char| #[trigger] run(pairs, m).1.contains_key(k) ==> run(pairs, m).1[k] >= 0,
    decreases pairs.len(),
{
    if pairs.len() > 0 {
        lemma_credits_non_negative(pairs.drop_last(), m);
        let before = run(pairs.drop_last(), m).1;
        assert forall|k: char| #[trigger] run(pairs, m).1.contains_key(k) implies run(
            pairs,
            m,
        ).1[k] >= 0 by {
            if before.contains_key(k) {
                assert(before[k] >= 0);
            }
        }
    }
}

/// Every check leaves a session's credits where they started, so checking the
/// same guess again gives the same clues.
pub proof fn lemma_session_reuse(before: Solution, after: Solution, guess: Seq<char>)
    requires
        before.wf(),
        after.wf(),
        after.secret() == before.secret(),
    ensures
        after.credits() == before.credits(),
        clues(after.secret(), guess, after.credits()) == clues(
            before.secret(),
            guess,
            before.credits(),
        ),
{
}

} // verus!
