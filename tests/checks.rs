use wordle_utils::checkers::{check_once, Guess, Solution};
use wordle_utils::counts::{CountMap, ResetToEmpty, ResetToOriginal, ResettableMap};
use wordle_utils::drop_map::{DropMap, HasDropMap};
use wordle_utils::Clue;

#[test]
fn basic_check() {
    let mut solution = Solution::new(String::from("anise"));
    assert_eq!(
        solution.check(&String::from("shine")),
        vec![Clue::Present, Clue::Absent, Clue::Exact, Clue::Present, Clue::Exact]
    );
}

#[test]
fn multi_check() {
    let mut solution = Solution::new(String::from("ender"));
    assert_eq!(
        solution.check(&String::from("peeve")),
        vec![Clue::Absent, Clue::Present, Clue::Present, Clue::Absent, Clue::Absent]
    );
    assert_eq!(
        solution.check(&String::from("bevel")),
        vec![Clue::Absent, Clue::Present, Clue::Absent, Clue::Exact, Clue::Absent]
    );
}

#[test]
fn once_check() {
    assert_eq!(
        check_once("ender", "peeve"),
        vec![Clue::Absent, Clue::Present, Clue::Present, Clue::Absent, Clue::Absent]
    );
}

#[test]
fn exact_match_keeps_its_credit() {
    assert_eq!(check_once("ab", "aa"), vec![Clue::Exact, Clue::Present]);
    let mut solution = Solution::new(String::from("ab"));
    assert_eq!(solution.check("aa"), vec![Clue::Exact, Clue::Present]);
}

#[test]
fn equal_characters_are_exact() {
    assert_eq!(check_once("aaaa", "aaaa"), vec![Clue::Exact; 4]);
    let clues = check_once("crane", "crate");
    assert_eq!(clues[0], Clue::Exact);
    assert_eq!(clues[1], Clue::Exact);
    assert_eq!(clues[2], Clue::Exact);
    assert_eq!(clues[4], Clue::Exact);
}

#[test]
fn one_clue_per_character() {
    assert_eq!(check_once("", ""), Vec::<Clue>::new());
    assert_eq!(check_once("xyz", "abc").len(), 3);
    assert_eq!(check_once("héllo", "hello"), vec![
        Clue::Exact, Clue::Absent, Clue::Exact, Clue::Exact, Clue::Exact
    ]);
}

#[test]
fn credits_run_out_without_going_negative() {
    assert_eq!(check_once("abcd", "bbbb"), vec![
        Clue::Present, Clue::Exact, Clue::Absent, Clue::Absent
    ]);
    let mut counts = CountMap::new();
    counts.add_one('b');
    let mut map = ResetToEmpty::new();
    assert!(!map.take_credit('b'));
    let mut original = ResetToOriginal::new(counts);
    assert!(original.take_credit('b'));
    assert!(!original.take_credit('b'));
    assert_eq!(original.get().get('b'), 0);
}

#[test]
fn reset_twice_is_reset_once() {
    let mut counts = CountMap::new();
    counts.add_one('e');
    counts.add_one('e');
    counts.add_one('n');
    let mut original = ResetToOriginal::new(counts);
    assert!(original.take_credit('e'));
    assert!(original.take_credit('n'));
    original.reset();
    assert_eq!(original.get().get('e'), 2);
    assert_eq!(original.get().get('n'), 1);
    original.reset();
    assert_eq!(original.get().get('e'), 2);
    assert_eq!(original.get().get('n'), 1);
    assert_eq!(original.get().get('z'), 0);

    let mut empty = ResetToEmpty::new();
    empty.get_mut().add_one('q');
    assert_eq!(empty.get().get('q'), 1);
    empty.reset();
    assert_eq!(empty.get().get('q'), 0);
    empty.reset();
    assert_eq!(empty.get().get('q'), 0);
}

#[test]
fn session_repeats_its_answer() {
    let mut solution = Solution::new(String::from("ender"));
    let first = solution.check("peeve");
    assert_eq!(solution.check("bevel"), vec![
        Clue::Absent, Clue::Present, Clue::Absent, Clue::Exact, Clue::Absent
    ]);
    assert_eq!(solution.check("peeve"), first);
    assert_eq!(solution.check("peeve"), first);
}

#[test]
fn guess_session_matches_one_shot() {
    let mut guess = Guess::new(String::from("peeve"));
    assert_eq!(guess.check("ender"), check_once("ender", "peeve"));
    assert_eq!(guess.check("anise"), check_once("anise", "peeve"));
    assert_eq!(guess.check("ender"), vec![
        Clue::Absent, Clue::Present, Clue::Present, Clue::Absent, Clue::Absent
    ]);
}

#[test]
fn abandoned_sequence_still_resets() {
    let mut counts = CountMap::new();
    counts.add_one('a');
    let mut map = ResetToOriginal::new(counts);
    let mut seq = DropMap::new(vec![('b', 'a'), ('c', 'a')]);
    assert!(!seq.is_exhausted());
    assert_eq!(seq.next(&mut map), Some(Clue::Present));
    assert_eq!(map.get().get('a'), 0);
    seq.finish(&mut map);
    assert_eq!(map.get().get('a'), 1);
    assert!(map.take_credit('a'));
    seq.finish(&mut map);
    assert_eq!(map.get().get('a'), 0);
    assert_eq!(seq.next(&mut map), None);
}

#[test]
fn exhausted_sequence_resets_once() {
    let mut counts = CountMap::new();
    counts.add_one('a');
    let mut map = ResetToOriginal::new(counts);
    let mut seq = DropMap::new(vec![('a', 'a'), ('b', 'a'), ('c', 'a')]);
    assert_eq!(seq.next(&mut map), Some(Clue::Exact));
    assert_eq!(seq.next(&mut map), Some(Clue::Present));
    assert_eq!(seq.next(&mut map), Some(Clue::Absent));
    assert!(seq.is_exhausted());
    assert_eq!(seq.next(&mut map), None);
    assert_eq!(map.get().get('a'), 1);
    assert!(map.take_credit('a'));
    assert_eq!(seq.next(&mut map), None);
    assert_eq!(map.get().get('a'), 0);
}

#[test]
fn pairs_become_a_sequence() {
    let mut map = ResetToEmpty::new();
    map.get_mut().add_one('x');
    let mut seq = vec![('x', 'y'), ('z', 'x')].drop_map();
    assert_eq!(seq.next(&mut map), Some(Clue::Absent));
    assert_eq!(seq.next(&mut map), Some(Clue::Present));
    assert_eq!(map.get().get('x'), 0);
    assert_eq!(seq.next(&mut map), None);
    assert_eq!(map.get().get('x'), 0);
    map.get_mut().add_one('x');
    assert_eq!(map.get().get('x'), 1);
}
