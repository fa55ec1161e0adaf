use cs110l::hangman::{pick_a_random_word, pick_word, Hangman, NUM_INCORRECT_GUESSES};
use cs110l::parallel::{assemble, index_tasks};
use cs110l::text::{count_pieces, nth_piece};
use cs110l::wc::{count_line, WordCounter};

fn chars(s: &str) -> Vec<char> {
    s.chars().collect()
}

#[test]
fn pieces_follow_str_split() {
    for s in ["a\nb", "", "\n", "x\n\ny\n", "one"] {
        let expected: Vec<&str> = s.split('\n').collect();
        assert_eq!(count_pieces(&chars(s), '\n'), expected.len());
        for (k, p) in expected.iter().enumerate() {
            assert_eq!(nth_piece(s, '\n', k), *p);
        }
    }
}

#[test]
fn pick_word_trims_the_chosen_line() {
    let list = "apple\n  banana \r\ncherry";
    assert_eq!(pick_word(list, 0), "apple");
    assert_eq!(pick_word(list, 1), "banana");
    assert_eq!(pick_word(list, 2), "cherry");
    assert_eq!(pick_word("word\n", 1), "");
}

#[test]
fn random_word_draws_every_line() {
    let list = "a\nb\nc";
    let mut seen = [false; 3];
    for _ in 0..300 {
        let w = pick_a_random_word(list);
        match w.as_str() {
            "a" => seen[0] = true,
            "b" => seen[1] = true,
            "c" => seen[2] = true,
            other => panic!("not a line of the list: {:?}", other),
        }
    }
    assert_eq!(seen, [true, true, true]);
}

#[test]
fn hangman_uncovers_one_position_per_guess() {
    let mut g = Hangman::new(chars("abca"));
    assert_eq!(g.shown(), &chars("----"));
    assert_eq!(g.guesses_left(), NUM_INCORRECT_GUESSES);
    assert!(g.guess('a'));
    assert_eq!(g.shown(), &chars("a---"));
    assert!(g.guess('a'));
    assert_eq!(g.shown(), &chars("a--a"));
    assert!(!g.guess('a'));
    assert_eq!(g.guesses_left(), 4);
    assert!(!g.guess('z'));
    assert_eq!(g.guesses_left(), 3);
    assert!(g.guess('c'));
    assert!(g.guess('b'));
    assert!(g.is_solved());
    assert_eq!(g.guessed(), &chars("aacb"));
    assert_eq!(g.guesses_left(), 3);
}

#[test]
fn hangman_runs_out_of_guesses() {
    let mut g = Hangman::new(chars("xy"));
    for left in (0..NUM_INCORRECT_GUESSES).rev() {
        assert!(!g.guess('q'));
        assert_eq!(g.guesses_left(), left);
    }
    assert!(!g.is_solved());
    assert!(g.guessed().is_empty());
}

#[test]
fn hangman_empty_secret_is_solved_at_once() {
    let g = Hangman::new(vec![]);
    assert!(g.is_solved());
}

#[test]
fn count_line_counts_spaces_and_letters() {
    assert_eq!(count_line(&chars("hello world")), (1, 10));
    assert_eq!(count_line(&chars("a1 b2  c3!")), (3, 3));
    assert_eq!(count_line(&chars("")), (0, 0));
    assert_eq!(count_line(&chars("\u{e9}t\u{e9}")), (0, 1));
}

#[test]
fn word_counter_over_lines() {
    let mut c = WordCounter::new();
    for line in ["hello world", "a b c", ""] {
        c.add_line(&chars(line));
    }
    let counts = c.counts();
    assert_eq!(counts.lines, 3);
    assert_eq!(counts.words, 6);
    assert_eq!(counts.characters, 13);
}

#[test]
fn word_counter_room() {
    let mut c = WordCounter::new();
    assert!(c.has_room_for(10));
    assert!(!c.has_room_for(usize::MAX));
    c.add_line(&chars("abc"));
    assert!(c.has_room_for(100));
}

#[test]
fn assemble_same_output_for_any_schedule() {
    let a = assemble(3, vec![(2, 9u32), (0, 1), (1, 4)]);
    let b = assemble(3, vec![(0, 1u32), (1, 4), (2, 9)]);
    assert_eq!(a, b);
}

#[test]
fn word_counts_add_up_over_parts() {
    let lines = ["one two", "three", " four  five "];
    let mut whole = WordCounter::new();
    for l in lines {
        whole.add_line(&chars(l));
    }
    let mut first = WordCounter::new();
    first.add_line(&chars(lines[0]));
    let mut rest = WordCounter::new();
    for l in &lines[1..] {
        rest.add_line(&chars(l));
    }
    let (w, a, b) = (whole.counts(), first.counts(), rest.counts());
    assert_eq!(w.words, a.words + b.words);
    assert_eq!(w.lines, a.lines + b.lines);
    assert_eq!(w.characters, a.characters + b.characters);
}

#[test]
fn tasks_are_tagged_from_the_back() {
    let tasks = index_tasks(vec![10, 20, 30]);
    assert_eq!(tasks, vec![(2, 30), (1, 20), (0, 10)]);
    assert!(index_tasks(Vec::<u8>::new()).is_empty());
}

#[test]
fn assemble_restores_input_order_whatever_the_arrival_order() {
    let input = vec![6, 7, 8, 9, 10];
    let mut results: Vec<(usize, i32)> =
        index_tasks(input.clone()).into_iter().map(|(i, v)| (i, v * v)).collect();
    results.swap(0, 3);
    results.swap(1, 4);
    assert_eq!(assemble(5, results), vec![36, 49, 64, 81, 100]);
}

#[test]
fn assemble_defaults_and_later_results_win() {
    assert_eq!(assemble(3, vec![(2, 5u32)]), vec![0, 0, 5]);
    assert_eq!(assemble(2, vec![(0, 1u32), (1, 2), (0, 3)]), vec![3, 2]);
    assert_eq!(assemble(0, Vec::<(usize, u8)>::new()), Vec::<u8>::new());
    assert_eq!(assemble(4, Vec::<(usize, i32)>::new()), vec![0, 0, 0, 0]);
    assert_eq!(assemble(2, Vec::<(usize, String)>::new()), vec![String::new(), String::new()]);
}
