use common_data::{create_rng, Currency, RollResult, TableData, TableEntry};
use rand::rngs::StdRng;
use rand::SeedableRng;

fn entry(name: &str, cost: Currency, weight: usize) -> TableEntry {
    let mut e = TableEntry::with_weight(weight, cost);
    e.set_name(name.to_string());
    e
}

fn table(entries: Vec<TableEntry>) -> TableData {
    let mut t = TableData::new(true, true, "Test".to_string(), 0).unwrap();
    for e in entries {
        t.push(e);
    }
    t
}

fn total_count(results: &[RollResult]) -> usize {
    results.iter().map(|r| r.count()).sum()
}

fn total_cost(results: &[RollResult]) -> u128 {
    results.iter().map(|r| r.entry().cost().copper_value() * r.count() as u128).sum()
}

fn names(results: &[RollResult]) -> Vec<String> {
    results.iter().map(|r| r.entry().name().to_string()).collect()
}

#[test]
fn count_roll_draws_exactly_count() {
    let t = table(vec![
        entry("Sword", Currency::Copper(10), 1),
        entry("Shield", Currency::Copper(20), 3),
        entry("bow", Currency::Copper(5), 2),
    ]);
    let mut rng = StdRng::seed_from_u64(7);
    for count in [0usize, 1, 4, 25] {
        let results = t.roll_by_count(&mut rng, true, count, true);
        assert_eq!(total_count(&results), count);
        let n = names(&results);
        let mut sorted = n.clone();
        sorted.sort_by_key(|s| s.to_lowercase());
        assert_eq!(n, sorted);
    }
    let results = t.get_random_set_by_count(false, 6, true).unwrap();
    assert_eq!(total_count(&results), 6);
}

#[test]
fn count_roll_without_duplicates_draws_each_once() {
    let t = table(vec![
        entry("a", Currency::Copper(1), 1),
        entry("b", Currency::Copper(1), 1),
        entry("c", Currency::Copper(1), 0),
    ]);
    let mut rng = StdRng::seed_from_u64(11);
    let two = t.roll_by_count(&mut rng, true, 2, false);
    assert_eq!(total_count(&two), 2);
    assert!(two.iter().all(|r| r.count() == 1));
    let all = t.roll_by_count(&mut rng, true, 10, false);
    assert_eq!(names(&all), vec!["a", "b"]);
    let unweighted = t.roll_by_count(&mut rng, false, 10, false);
    assert_eq!(names(&unweighted), vec!["a", "b", "c"]);
}

#[test]
fn empty_tables_roll_nothing() {
    let t = table(vec![]);
    let mut rng = StdRng::seed_from_u64(1);
    assert!(t.roll_by_count(&mut rng, true, 5, true).is_empty());
    assert!(t.roll_by_cost(&mut rng, true, Currency::Gold(5), true).is_empty());
    let weightless = table(vec![entry("a", Currency::Copper(1), 0)]);
    assert!(weightless.roll_by_count(&mut rng, true, 5, true).is_empty());
}

#[test]
fn cost_roll_stays_within_budget() {
    let t = table(vec![
        entry("Sword", Currency::Copper(10), 1),
        entry("Shield", Currency::Copper(20), 3),
        entry("Ring", Currency::Gold(1), 1),
    ]);
    let mut rng = StdRng::seed_from_u64(3);
    for budget in [Currency::Copper(5), Currency::Copper(35), Currency::Silver(25), Currency::Gold(3)] {
        let results = t.roll_by_cost(&mut rng, true, budget, true);
        let spent = total_cost(&results);
        assert!(spent <= budget.copper_value());
        assert!(budget.copper_value() - spent < 10);
    }
    let results = t.get_random_set_by_cost(true, Currency::Silver(4), true).unwrap();
    assert!(total_cost(&results) <= 40);
    assert!(40 - total_cost(&results) < 10);
}

#[test]
fn cost_below_every_entry_rolls_nothing() {
    let t = table(vec![entry("Sword", Currency::Copper(10), 1), entry("Shield", Currency::Copper(20), 3)]);
    let mut rng = StdRng::seed_from_u64(5);
    assert!(t.roll_by_cost(&mut rng, true, Currency::Copper(9), true).is_empty());
}

#[test]
fn cost_roll_without_duplicates_stops_when_nothing_is_left() {
    let t = table(vec![
        entry("a", Currency::Copper(1), 1),
        entry("b", Currency::Copper(0), 1),
        entry("c", Currency::Copper(2), 1),
    ]);
    let mut rng = StdRng::seed_from_u64(9);
    let results = t.roll_by_cost(&mut rng, true, Currency::Gold(1), false);
    assert_eq!(names(&results), vec!["a", "b", "c"]);
    assert!(results.iter().all(|r| r.count() == 1));
    assert_eq!(total_cost(&results), 3);
}

#[test]
fn weights_shape_frequencies() {
    let t = table(vec![entry("Sword", Currency::Copper(10), 1), entry("Shield", Currency::Copper(20), 3)]);
    let mut rng = StdRng::seed_from_u64(42);
    let mut sword = 0usize;
    let mut shield = 0usize;
    for _ in 0..2000 {
        let results = t.roll_by_count(&mut rng, true, 4, true);
        assert_eq!(total_count(&results), 4);
        for r in &results {
            match r.entry().name() {
                "Sword" => sword += r.count(),
                "Shield" => shield += r.count(),
                other => panic!("unexpected entry {}", other),
            }
        }
    }
    let ratio = shield as f64 / sword as f64;
    assert!(ratio > 2.6 && ratio < 3.4, "ratio {}", ratio);
}

#[test]
fn sword_and_shield_scenario() {
    let t = table(vec![entry("Sword", Currency::Copper(10), 1), entry("Shield", Currency::Copper(20), 3)]);
    let mut shield = 0usize;
    let mut sword = 0usize;
    for _ in 0..300 {
        let results = t.get_random_set_by_count(true, 4, true).unwrap();
        assert_eq!(total_count(&results), 4);
        for r in &results {
            if r.entry().name() == "Shield" {
                shield += r.count();
            } else {
                sword += r.count();
            }
        }
    }
    assert!(shield > 2 * sword);
}

#[test]
fn single_random_entry_comes_from_the_table() {
    let t = table(vec![entry("a", Currency::Copper(1), 1), entry("b", Currency::Copper(2), 1)]);
    let e = t.get_random().unwrap();
    assert!(e.name() == "a" || e.name() == "b");
    assert!(create_rng().is_ok());
}

#[test]
fn results_snapshot_entries() {
    let mut t = table(vec![entry("Gem", Currency::Gold(2), 1)]);
    let mut rng = StdRng::seed_from_u64(2);
    let results = t.roll_by_count(&mut rng, false, 3, true);
    t.get_mut(0).unwrap().set_name("Changed".to_string());
    assert_eq!(results.len(), 1);
    assert_eq!(results[0].count(), 3);
    assert_eq!(results[0].entry().name(), "Gem");
    assert_eq!(results[0].entry().cost(), Currency::Gold(2));
}

#[test]
fn rolls_dispatch_on_the_limit() {
    let t = table(vec![entry("a", Currency::Copper(3), 1), entry("b", Currency::Copper(4), 1)]);
    let by_count = t.get_random_set(common_data::RollLimit::Count(5), true, true).unwrap();
    assert_eq!(total_count(&by_count), 5);
    let by_cost = t.get_random_set(common_data::RollLimit::Cost(Currency::Copper(20)), true, true).unwrap();
    assert!(total_cost(&by_cost) <= 20);
    assert!(20 - total_cost(&by_cost) < 3);
}
