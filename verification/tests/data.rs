use skillopt::config::{default_effort, default_schedule, default_sel, default_temp_opt, default_test, default_true, default_workers, one, one_usize};
use skillopt::data::{pick, sample_batch};
use skillopt::types::TaskItem;

fn items(n: usize) -> Vec<TaskItem> {
    (0..n)
        .map(|i| TaskItem { id: format!("q{}", i), question: format!("question {}", i), context: String::new(), answers: vec![format!("{}", i)] })
        .collect()
}

fn ids(batch: &[TaskItem]) -> Vec<String> {
    batch.iter().map(|t| t.id.clone()).collect()
}

#[test]
fn small_pools_are_taken_whole_and_in_order() {
    let pool = items(5);
    assert_eq!(ids(&sample_batch(&pool, 5, 1)), ids(&pool));
    assert_eq!(ids(&sample_batch(&pool, 9, 2)), ids(&pool));
    assert!(sample_batch(&[], 3, 3).is_empty());
}

#[test]
fn batches_hold_different_items_of_the_pool() {
    let pool = items(50);
    for seed in 0..20 {
        let batch = sample_batch(&pool, 12, seed);
        assert_eq!(batch.len(), 12);
        let mut seen = ids(&batch);
        seen.sort();
        seen.dedup();
        assert_eq!(seen.len(), 12);
        for t in &batch {
            assert!(pool.iter().any(|p| p.id == t.id && p.question == t.question && p.answers == t.answers));
        }
    }
    assert!(sample_batch(&pool, 0, 1).is_empty());
}

#[test]
fn the_seed_decides() {
    let pool = items(50);
    assert_eq!(ids(&sample_batch(&pool, 10, 7)), ids(&sample_batch(&pool, 10, 7)));
    assert_ne!(ids(&sample_batch(&pool, 10, 7)), ids(&sample_batch(&pool, 10, 8)));
    assert_ne!(ids(&sample_batch(&pool, 10, 7)), ids(&pool[..10]));
}

#[test]
fn a_shorter_batch_begins_a_longer_one() {
    let pool = items(30);
    let long = ids(&sample_batch(&pool, 20, 42));
    assert_eq!(ids(&sample_batch(&pool, 5, 42)), long[..5].to_vec());
}

#[test]
fn picking_follows_the_order() {
    let pool = items(4);
    assert_eq!(ids(&pick(&pool, &vec![3, 0, 2, 1], 3)), vec!["q3", "q0", "q2"]);
}

#[test]
fn configuration_defaults() {
    assert_eq!(one(), 1);
    assert_eq!(one_usize(), 1);
    assert_eq!(default_schedule(), "cosine");
    assert!(default_true());
    assert_eq!(default_sel(), "valid_seen");
    assert_eq!(default_test(), "valid_unseen");
    assert_eq!(default_workers(), 16);
    assert_eq!(default_effort(), "medium");
    assert_eq!(f32::from_bits(default_temp_opt().bits), 0.7);
}
