use std::cmp::Ordering;

use common_data::{BackendError, Currency, CurrencyError, FileTableData, IdNamePair, RollResult, RollType, TableData, TableEntry};

fn entry(name: &str, cost: Currency, weight: usize) -> TableEntry {
    let mut e = TableEntry::with_weight(weight, cost);
    e.set_name(name.to_string());
    e
}

#[test]
fn new_entries_have_weight_one() {
    let e = TableEntry::new(Currency::Gold(2));
    assert_eq!(e.weight(), 1);
    assert_eq!(e.name(), "");
    assert_eq!(e.cost(), Currency::Gold(2));
    let w = TableEntry::with_weight(5, Currency::Copper(1));
    assert_eq!(w.weight(), 5);
}

#[test]
fn entries_are_edited_in_place() {
    let mut e = TableEntry::new(Currency::Copper(3));
    e.set_name("Rope".to_string());
    e.set_weight(4);
    e.set_cost(Currency::Silver(2));
    assert_eq!(e.name(), "Rope");
    assert_eq!(e.weight(), 4);
    assert_eq!(e.cost(), Currency::Silver(2));
    *e.cost_mut() = Currency::Gold(1);
    assert_eq!(e.cost(), Currency::Gold(1));
    let copy = e.clone();
    assert_eq!(copy, e);
}

#[test]
fn names_compare_case_insensitively() {
    let a = entry("apple", Currency::Copper(1), 1);
    let b = entry("Banana", Currency::Copper(1), 1);
    let c = entry("APPLE", Currency::Copper(2), 1);
    assert_eq!(a.compare_names(&b), Ordering::Less);
    assert_eq!(b.compare_names(&a), Ordering::Greater);
    assert_eq!(a.compare_names(&c), Ordering::Equal);
}

#[test]
fn sort_is_case_insensitive_and_stable() {
    let mut t = TableData::new(true, true, "Loot".to_string(), 0).unwrap();
    t.push(entry("sword", Currency::Copper(10), 1));
    t.push(entry("Axe", Currency::Copper(20), 1));
    t.push(entry("SWORD", Currency::Copper(30), 1));
    t.push(entry("bow", Currency::Copper(40), 1));
    t.sort();
    let names: Vec<&str> = t.entries().iter().map(|e| e.name()).collect();
    assert_eq!(names, vec!["Axe", "bow", "sword", "SWORD"]);
    assert_eq!(t.get(2).unwrap().cost(), Currency::Copper(10));
    assert_eq!(t.get(3).unwrap().cost(), Currency::Copper(30));
}

#[test]
fn totals_of_weights_and_costs() {
    let mut t = TableData::new(true, true, "Loot".to_string(), 0).unwrap();
    assert_eq!(t.total_weight(), 0);
    assert_eq!(t.total_cost(), Ok(Currency::Copper(0)));
    t.push(entry("a", Currency::Gold(1), 2));
    t.push(entry("b", Currency::Silver(5), 3));
    t.push(entry("c", Currency::Copper(50), 5));
    assert_eq!(t.total_weight(), 10);
    assert_eq!(t.total_cost(), Ok(Currency::Gold(2)));
    t.push(entry("d", Currency::Copper(u64::MAX), 1));
    assert_eq!(t.total_cost(), Err(CurrencyError::Overflow));
}

#[test]
fn table_settings_and_entries() {
    let mut t = TableData::with_capacity(false, true, "Inn".to_string(), 4, 2).unwrap();
    assert!(!t.use_cost());
    assert!(t.use_weight());
    assert_eq!(t.name(), "Inn");
    assert_eq!(t.order(), 2);
    assert!(t.path().is_none());
    t.set_use_cost(true);
    t.set_use_weight(false);
    t.set_name("Tavern".to_string());
    t.set_order(5);
    t.set_path(Some(std::path::PathBuf::from("/tmp/tavern.json")));
    assert!(t.use_cost());
    assert!(!t.use_weight());
    assert_eq!(t.name(), "Tavern");
    assert_eq!(t.order(), 5);
    assert_eq!(t.path(), Some(std::path::PathBuf::from("/tmp/tavern.json")));

    t.push(entry("Ale", Currency::Copper(4), 1));
    t.push(entry("Stew", Currency::Silver(1), 1));
    assert_eq!(t.len(), 2);
    assert_eq!(t.iter().count(), 2);
    assert!(t.get(2).is_none());
    t.get_mut(0).unwrap().set_weight(3);
    assert_eq!(t.get(0).unwrap().weight(), 3);
    t.entries_mut().push(entry("Bread", Currency::Copper(2), 1));
    assert_eq!(t.len(), 3);
    let removed = t.remove(1).unwrap();
    assert_eq!(removed.name(), "Stew");
    assert!(t.remove(7).is_none());
    assert_eq!(t.len(), 2);
    t.set_entries(Vec::new());
    assert_eq!(t.len(), 0);
}

#[test]
fn tables_get_fresh_ids() {
    let a = TableData::new(false, false, "A".to_string(), 0).unwrap();
    let b = TableData::new(false, false, "B".to_string(), 1).unwrap();
    assert_ne!(a.id(), b.id());
    assert_eq!(a.id().get_version_num(), 4);
}

#[test]
fn file_data_round_trip() {
    let mut t = TableData::new(true, false, "Gems".to_string(), 3).unwrap();
    t.push(entry("Ruby", Currency::Gold(50), 1));
    let file = t.to_file_data();
    assert!(file.use_cost());
    assert!(!file.use_weight());
    assert_eq!(file.name(), "Gems");
    assert_eq!(file.entries().len(), 1);
    let back = file.into_table_data(7, None).unwrap();
    assert_eq!(back.order(), 7);
    assert_eq!(back.name(), "Gems");
    assert_eq!(back.entries()[0].name(), "Ruby");
    assert_ne!(back.id(), t.id());
    let fresh = FileTableData::new(false, true, "X".to_string(), vec![entry("y", Currency::Copper(1), 2)]);
    assert_eq!(fresh.entries()[0].weight(), 2);
}

#[test]
fn roll_types_are_listed() {
    assert_eq!(RollType::get_values(), vec![RollType::Cost, RollType::Count]);
    assert_eq!(RollType::Cost.label(), "Cost");
    assert_eq!(RollType::Count.label(), "Count");
}

#[test]
fn roll_results_hold_count_and_entry() {
    let r = RollResult::new(3, entry("Torch", Currency::Copper(1), 1));
    assert_eq!(r.count(), 3);
    assert_eq!(r.entry().name(), "Torch");
    assert_eq!(r.clone(), r);
}

#[test]
fn backend_errors_carry_their_text() {
    match BackendError::internal_error("lock failed") {
        BackendError::InternalError(m) => assert_eq!(m, "lock failed"),
        _ => panic!("expected an internal error"),
    }
    match BackendError::argument_error("id", "no such table") {
        BackendError::ArgumentError { arg_name, message } => {
            assert_eq!(arg_name, "id");
            assert_eq!(message, "no such table");
        }
        _ => panic!("expected an argument error"),
    }
}

#[test]
fn id_name_pairs() {
    let t = TableData::new(false, false, "A".to_string(), 0).unwrap();
    let p = IdNamePair::new(t.id(), "A".to_string());
    assert_eq!(p.id(), t.id());
    assert_eq!(p.name(), "A");
}

#[test]
fn cleaning_trims_names_and_prices_free_entries() {
    let e = entry("  Lantern \t", Currency::Silver(0), 2).cleaned().unwrap();
    assert_eq!(e.name(), "Lantern");
    assert_eq!(e.cost(), Currency::Silver(1));
    assert_eq!(e.weight(), 2);
    let kept = entry("Oil", Currency::Gold(3), 1).cleaned().unwrap();
    assert_eq!(kept.cost(), Currency::Gold(3));
    assert!(entry("   ", Currency::Copper(4), 1).cleaned().is_none());
}

#[test]
fn added_entries_are_cleaned_and_sorted() {
    let mut t = TableData::new(true, true, "Shop".to_string(), 0).unwrap();
    t.push(entry("mace", Currency::Copper(7), 1));
    t.add_entries(vec![
        entry(" Dagger ", Currency::Copper(0), 1),
        entry("", Currency::Copper(3), 1),
        entry("axe", Currency::Gold(1), 2),
    ]);
    let names: Vec<&str> = t.entries().iter().map(|e| e.name()).collect();
    assert_eq!(names, vec!["axe", "Dagger", "mace"]);
    assert_eq!(t.get(1).unwrap().cost(), Currency::Copper(1));
}
