use rand::Rng;
use txt_analize::chain::{build_model, Model};
use txt_analize::generator::{
    closes_sentence, generate, next_word, pick, sample, Walk, HISTORY_LIMIT, TAIL_LIMIT,
};

fn tokens(words: &[&str]) -> Vec<String> {
    words.iter().map(|w| w.to_string()).collect()
}

/// A model in which "п" is followed by "х" once and by "у" 99 times.
fn skewed() -> Model {
    let mut model = Model::new();
    model.record("п", "х");
    for _ in 0..99 {
        model.record("п", "у");
    }
    model
}

#[test]
fn weighted_sampling_fidelity() {
    let model = skewed();
    let mut rng = rand::thread_rng();
    let mut y = 0;
    for _ in 0..10_000 {
        let draw: usize = rng.gen();
        match next_word(&model, "п", draw) {
            Some(word) => {
                if word == "у" {
                    y += 1;
                } else {
                    assert_eq!(word, "х");
                }
            }
            None => panic!("the word has a row"),
        }
    }
    assert!(y > 5_000);
}

#[test]
fn every_draw_in_range_picks_by_running_sum() {
    let model = skewed();
    let row = model.row_of("п").unwrap();
    assert_eq!(row.total_count(), 100);
    for draw in 0..100usize {
        let expected = if draw <= 1 { "х" } else { "у" };
        assert_eq!(sample(row, draw), expected);
        assert_eq!(sample(row, draw + 100), expected);
        assert_eq!(next_word(&model, "п", draw + 700), Some(expected.to_string()));
    }
}

#[test]
fn the_running_sum_is_compared_with_at_least() {
    // counts а:2 б:3 в:1; the numbers 0..=2 pick а, 3..=5 pick б, and 6,
    // which no draw gives, would pick в
    let mut model = Model::new();
    for word in ["а", "а", "б", "б", "б", "в"] {
        model.record("начало", word);
    }
    let row = model.row_of("начало").unwrap();
    assert_eq!(row.total_count(), 6);
    let expected = [0, 0, 0, 1, 1, 1, 2];
    for n in 0..=6usize {
        assert_eq!(pick(row, n), expected[n]);
    }
    let words = ["а", "а", "а", "б", "б", "б"];
    for draw in 0..6usize {
        assert_eq!(sample(row, draw), words[draw]);
        assert_eq!(sample(row, draw + 6 * 1000), words[draw]);
    }
}

#[test]
fn a_single_successor_is_always_picked() {
    let model = build_model(&tokens(&["а", "б"]));
    for draw in [0usize, 1, 2, 17, usize::MAX] {
        assert_eq!(next_word(&model, "а", draw), Some("б".to_string()));
    }
}

#[test]
fn a_word_without_a_row_has_no_successor() {
    let model = build_model(&tokens(&["а", "б"]));
    assert_eq!(next_word(&model, "б", 0), None);
    assert_eq!(next_word(&model, "в", 5), None);
    assert_eq!(next_word(&Model::new(), "а", 5), None);
}

#[test]
fn walk_starts_on_its_first_word() {
    let walk = Walk::start("слово");
    assert_eq!(walk.current(), "слово");
    assert_eq!(walk.words(), &tokens(&["слово"]));
    assert_eq!(walk.to_text(), "слово ");
    assert_eq!(walk.repetitions(), 1);
    assert!(!walk.halted());
}

#[test]
fn main_step_follows_the_chain() {
    let pool = tokens(&["а", "б", "в.", "а"]);
    let model = build_model(&pool);
    let mut walk = Walk::start("а");
    walk.main_step(&model, &pool, 0, 0);
    assert_eq!(walk.current(), "б");
    walk.main_step(&model, &pool, 0, 0);
    assert_eq!(walk.current(), "в.");
    walk.main_step(&model, &pool, 0, 0);
    assert_eq!(walk.current(), "а");
    assert_eq!(walk.words(), &tokens(&["а", "б", "в.", "а"]));
    assert_eq!(walk.to_text(), "а б в. а ");
    assert_eq!(walk.repetitions(), 2);
}

#[test]
fn model_miss_changes_nothing() {
    let pool = tokens(&["а", "б"]);
    let model = build_model(&pool);
    let mut walk = Walk::start("б");
    walk.main_step(&model, &pool, 3, 7);
    assert_eq!(walk.current(), "б");
    assert_eq!(walk.words(), &tokens(&["б"]));
    assert_eq!(walk.to_text(), "б ");
    assert_eq!(walk.repetitions(), 1);
    assert!(!walk.tail_step(&model, 9));
    assert_eq!(walk.words(), &tokens(&["б"]));
}

#[test]
fn anti_repetition() {
    // а is followed by а and by б, б by в
    let pool = tokens(&["а", "а", "б", "в"]);
    let model = build_model(&pool);
    let mut walk = Walk::start("а");
    walk.main_step(&model, &pool, 0, 0);
    assert_eq!(walk.current(), "а");
    assert_eq!(walk.repetitions(), 2);
    // the walk restarts on pool word 0, which is а again, and goes on to а
    walk.main_step(&model, &pool, 0, 0);
    assert_eq!(walk.current(), "а");
    assert_eq!(walk.repetitions(), 3);
    // the current word stands three times in the history: the next step
    // restarts on pool word 2, which is б, and puts out its successor в;
    // from а the same draw would have given а
    assert_eq!(next_word(&model, "а", 0), Some("а".to_string()));
    walk.main_step(&model, &pool, 2, 0);
    assert_eq!(walk.current(), "в");
    assert_eq!(walk.words(), &tokens(&["а", "а", "а", "в"]));
    assert_eq!(walk.repetitions(), 1);
}

#[test]
fn restart_on_a_word_without_a_row_puts_out_nothing() {
    let pool = tokens(&["а", "а", "б", "в"]);
    let model = build_model(&pool);
    let mut walk = Walk::start("а");
    walk.main_step(&model, &pool, 0, 0);
    assert_eq!(walk.repetitions(), 2);
    walk.main_step(&model, &pool, 3, 0);
    assert_eq!(walk.current(), "в");
    assert_eq!(walk.words(), &tokens(&["а", "а"]));
    assert_eq!(walk.to_text(), "а а ");
    assert_eq!(walk.repetitions(), 0);
}

#[test]
fn restart_draw_is_reduced_modulo_the_pool() {
    let pool = tokens(&["а", "а", "б", "в"]);
    let model = build_model(&pool);
    let mut walk = Walk::start("а");
    walk.main_step(&model, &pool, 0, 0);
    walk.main_step(&model, &pool, 4 * 1000 + 2, 0);
    assert_eq!(walk.current(), "в");
}

#[test]
fn no_restart_below_two_repetitions() {
    let pool = tokens(&["а", "б", "в"]);
    let model = build_model(&pool);
    let mut walk = Walk::start("а");
    assert_eq!(walk.repetitions(), 1);
    // a restart would have led to в's missing row
    walk.main_step(&model, &pool, 2, 0);
    assert_eq!(walk.current(), "б");
}

#[test]
fn history_holds_the_last_twenty_words() {
    let pool = tokens(&["а", "а"]);
    let model = build_model(&pool);
    let mut walk = Walk::start("а");
    for step in 1..40usize {
        walk.main_step(&model, &pool, 0, 0);
        let expected = if step + 1 < HISTORY_LIMIT { step + 1 } else { HISTORY_LIMIT };
        assert_eq!(walk.repetitions(), expected);
    }
    assert_eq!(walk.words().len(), 40);
}

#[test]
fn termination() {
    let pool = tokens(&["а", "б.", "в", "г"]);
    let model = build_model(&pool);
    let mut walk = Walk::start("а");
    assert!(walk.tail_step(&model, 0));
    assert_eq!(walk.current(), "б.");
    assert_eq!(walk.words(), &tokens(&["а", "б."]));
    let mut walk = Walk::start("б.");
    assert!(!walk.tail_step(&model, 0));
    assert_eq!(walk.current(), "в");
    assert!(!walk.tail_step(&model, 0));
    assert_eq!(walk.current(), "г");
}

#[test]
fn tail_remembers_nothing_new() {
    let pool = tokens(&["а", "а"]);
    let model = build_model(&pool);
    let mut walk = Walk::start("а");
    for _ in 0..5 {
        assert!(!walk.tail_step(&model, 0));
        assert_eq!(walk.repetitions(), 1);
        assert!(!walk.halted());
    }
    assert_eq!(walk.words().len(), 6);
}

#[test]
fn tail_halts_above_two_repetitions() {
    let pool = tokens(&["а", "а"]);
    let model = build_model(&pool);
    let mut walk = Walk::start("а");
    walk.main_step(&model, &pool, 0, 0);
    assert_eq!(walk.repetitions(), 2);
    assert!(!walk.halted());
    walk.main_step(&model, &pool, 0, 0);
    assert_eq!(walk.repetitions(), 3);
    assert!(walk.halted());
}

#[test]
fn sentence_ends_with_a_full_stop() {
    assert!(closes_sentence("конец."));
    assert!(closes_sentence("."));
    assert!(!closes_sentence("конец"));
    assert!(!closes_sentence("конец.,"));
    assert!(!closes_sentence(""));
}

#[test]
fn round_trip_on_empty_corpus() {
    let pool: Vec<String> = Vec::new();
    let model = build_model(&pool);
    assert_eq!(model.len(), 0);
    let mut rng = rand::thread_rng();
    assert!(generate(&model, &pool, 100, &mut rng).is_none());
    assert!(generate(&model, &pool, 0, &mut rng).is_none());
}

#[test]
fn generated_text_is_the_replay_of_its_draws() {
    let pool = tokens(&[
        "мама", "мыла", "раму.", "папа", "мыл", "раму,", "а", "мама", "мыла", "окно.", "папа",
        "и", "мама", "мыли", "пол",
    ]);
    let model = build_model(&pool);
    let mut rng = rand::thread_rng();
    for count in [0usize, 1, 2, 5, 50] {
        for _ in 0..50 {
            let out = generate(&model, &pool, count, &mut rng).unwrap();
            let draws = &out.draws;
            assert!(draws.len() >= 1 + 2 * count);
            let tail = draws.len() - 1 - 2 * count;
            assert!(tail <= TAIL_LIMIT);
            let mut walk = Walk::start(&pool[draws[0] % pool.len()]);
            for k in 1..=count {
                walk.main_step(&model, &pool, draws[2 * k - 1], draws[2 * k]);
            }
            let mut finished = false;
            for t in 1..=tail {
                assert!(!walk.halted());
                assert!(!finished);
                finished = walk.tail_step(&model, draws[2 * count + t]);
            }
            assert!(tail == TAIL_LIMIT || finished || walk.halted());
            assert_eq!(walk.words(), &out.words);
            assert_eq!(walk.to_text(), out.text);
            let mut joined = String::new();
            for word in &out.words {
                joined.push_str(word);
                joined.push(' ');
            }
            assert_eq!(out.text, joined);
            assert!(!out.words.is_empty());
            assert!(out.words.len() <= 1 + count + TAIL_LIMIT);
            assert!(pool.contains(&out.words[0]));
            for pair in out.words.windows(2) {
                assert!(model.row_of(&pair[1]).is_some() || pool.contains(&pair[1]));
            }
        }
    }
}

#[test]
fn generated_text_of_a_single_word_pool() {
    let pool = tokens(&["одно"]);
    let model = build_model(&pool);
    let mut rng = rand::thread_rng();
    let out = generate(&model, &pool, 10, &mut rng).unwrap();
    assert_eq!(out.words, tokens(&["одно"]));
    assert_eq!(out.text, "одно ");
    assert_eq!(out.draws.len(), 1 + 2 * 10 + TAIL_LIMIT);
}

#[test]
fn generation_stops_at_the_first_sentence_end_of_the_tail() {
    let pool = tokens(&["а", "б."]);
    let model = build_model(&pool);
    let mut rng = rand::thread_rng();
    for _ in 0..20 {
        let out = generate(&model, &pool, 0, &mut rng).unwrap();
        if out.words[0] == "а" {
            assert_eq!(out.words, tokens(&["а", "б."]));
            assert_eq!(out.text, "а б. ");
            assert_eq!(out.draws.len(), 2);
        } else {
            assert_eq!(out.words, tokens(&["б."]));
            assert_eq!(out.draws.len(), 1 + TAIL_LIMIT);
        }
    }
}
