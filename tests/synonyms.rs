use meilidb_core::addition::{SynonymsAddition, UpdateError, UpdateQueue};
use meilidb_core::apply::{apply_synonyms_addition, build_synonyms_update, SynonymIndex};
use meilidb_core::changes::SynonymsChanges;

fn strings(items: &[&str]) -> Vec<String> {
    items.iter().map(|s| s.to_string()).collect()
}

fn bytes(items: &[&str]) -> Vec<Vec<u8>> {
    items.iter().map(|s| s.as_bytes().to_vec()).collect()
}

fn words(changes: &SynonymsChanges) -> Vec<Vec<u8>> {
    (0..changes.len()).map(|i| changes.word(i).clone()).collect()
}

fn enqueue(queue: &mut UpdateQueue, decls: &[(&str, &[&str])]) -> u64 {
    let (sender, _receiver) = crossbeam_channel::unbounded();
    let mut addition = SynonymsAddition::new(sender);
    for (word, alts) in decls {
        addition.add_synonym(word, &strings(alts));
    }
    addition.finalize(queue).unwrap()
}

fn apply_all(index: &mut SynonymIndex, queue: &UpdateQueue) {
    for i in 0..queue.len() {
        apply_synonyms_addition(index, queue.update_synonyms(i)).unwrap();
    }
}

#[test]
fn accumulator_concatenates_per_word_in_ascending_order() {
    let (sender, _receiver) = crossbeam_channel::unbounded();
    let mut addition = SynonymsAddition::new(sender);
    addition.add_synonym("zebra", &strings(&["Horse"]));
    addition.add_synonym("car", &strings(&["auto", "AUTO"]));
    addition.add_synonym("bike", &strings(&[]));
    addition.add_synonym("car", &strings(&["vehicle", "auto"]));
    let changes = addition.synonyms();
    assert_eq!(words(changes), bytes(&["bike", "car", "zebra"]));
    assert_eq!(changes.alternatives(0), &bytes(&[]));
    assert_eq!(changes.alternatives(1), &bytes(&["auto", "auto", "vehicle", "auto"]));
    assert_eq!(changes.alternatives(2), &bytes(&["horse"]));
}

#[test]
fn accumulator_orders_words_by_bytes() {
    let (sender, _receiver) = crossbeam_channel::unbounded();
    let mut addition = SynonymsAddition::new(sender);
    for w in ["b", "ab", "a", "", "ba", "é", "z"] {
        addition.add_synonym(w, &strings(&["x"]));
    }
    let changes = addition.synonyms();
    assert_eq!(words(changes), bytes(&["", "a", "ab", "b", "ba", "z", "é"]));
}

#[test]
fn alternatives_are_case_folded_beyond_ascii() {
    let (sender, _receiver) = crossbeam_channel::unbounded();
    let mut addition = SynonymsAddition::new(sender);
    addition.add_synonym("city", &strings(&["ÉCOLE", "Straße"]));
    assert_eq!(addition.synonyms().alternatives(0), &bytes(&["école", "straße"]));
}

#[test]
fn enqueue_assigns_increasing_ids_and_notifies() {
    let (sender, receiver) = crossbeam_channel::unbounded();
    let mut queue = UpdateQueue::new();
    let mut first = SynonymsAddition::new(sender.clone());
    first.add_synonym("car", &strings(&["auto"]));
    assert_eq!(first.finalize(&mut queue), Ok(0));
    assert_eq!(receiver.try_recv(), Ok(()));
    let second = SynonymsAddition::new(sender);
    assert_eq!(second.finalize(&mut queue), Ok(1));
    assert_eq!(receiver.try_recv(), Ok(()));
    assert_eq!(queue.len(), 2);
    assert_eq!(queue.update_id(0), 0);
    assert_eq!(queue.update_id(1), 1);
    assert_eq!(queue.next_id(), 2);
    assert_eq!(words(queue.update_synonyms(0)), bytes(&["car"]));
    assert_eq!(queue.update_synonyms(1).len(), 0);
}

#[test]
fn enqueue_without_receiver_still_succeeds() {
    let (sender, receiver) = crossbeam_channel::unbounded();
    drop(receiver);
    let mut queue = UpdateQueue::with_next_id(41);
    let addition = SynonymsAddition::new(sender);
    assert_eq!(addition.finalize(&mut queue), Ok(41));
    assert_eq!(queue.next_id(), 42);
}

#[test]
fn failed_enqueue_leaves_queue_unchanged() {
    let (sender, receiver) = crossbeam_channel::unbounded();
    let mut queue = UpdateQueue::with_next_id(u64::MAX);
    let mut addition = SynonymsAddition::new(sender);
    addition.add_synonym("car", &strings(&["auto"]));
    assert_eq!(addition.finalize(&mut queue), Err(UpdateError::UpdateIdOverflow));
    assert_eq!(queue.len(), 0);
    assert_eq!(queue.next_id(), u64::MAX);
    assert!(receiver.try_recv().is_err());
}

#[test]
fn scenario_first_addition_on_empty_index() {
    let mut queue = UpdateQueue::new();
    enqueue(&mut queue, &[("car", &["automobile", "Car"])]);
    let mut index = SynonymIndex::new();
    assert_eq!(index.synonyms_keys(), None);
    apply_all(&mut index, &queue);
    assert_eq!(index.synonyms_keys(), Some(bytes(&["car"])));
    assert_eq!(index.alternatives_of(b"car"), Some(bytes(&["automobile", "car"])));
}

#[test]
fn scenario_union_with_existing_key_set() {
    let mut queue = UpdateQueue::new();
    enqueue(&mut queue, &[("car", &["auto"]), ("fast", &["quick", "rapid"])]);
    let mut index = SynonymIndex::new();
    apply_all(&mut index, &queue);
    assert_eq!(index.synonyms_keys(), Some(bytes(&["car", "fast"])));

    let mut later = UpdateQueue::with_next_id(queue.next_id());
    enqueue(&mut later, &[("quick", &["fast", "speedy"])]);
    apply_all(&mut index, &later);
    assert_eq!(index.synonyms_keys(), Some(bytes(&["car", "fast", "quick"])));
    assert_eq!(index.alternatives_of(b"car"), Some(bytes(&["auto"])));
    assert_eq!(index.alternatives_of(b"fast"), Some(bytes(&["quick", "rapid"])));
    assert_eq!(index.alternatives_of(b"quick"), Some(bytes(&["fast", "speedy"])));
}

#[test]
fn scenario_later_update_replaces_alternatives() {
    let mut queue = UpdateQueue::new();
    assert_eq!(enqueue(&mut queue, &[("car", &["auto", "vehicle"])]), 0);
    assert_eq!(enqueue(&mut queue, &[("car", &["wagon"])]), 1);
    let mut index = SynonymIndex::new();
    apply_synonyms_addition(&mut index, queue.update_synonyms(0)).unwrap();
    assert_eq!(index.alternatives_of(b"car"), Some(bytes(&["auto", "vehicle"])));
    apply_synonyms_addition(&mut index, queue.update_synonyms(1)).unwrap();
    assert_eq!(index.alternatives_of(b"car"), Some(bytes(&["wagon"])));
    assert_eq!(index.synonyms_keys(), Some(bytes(&["car"])));
}

#[test]
fn apply_twice_equals_apply_once() {
    let mut queue = UpdateQueue::new();
    enqueue(&mut queue, &[("car", &["b", "a", "b"]), ("bus", &["coach"])]);
    let mut index = SynonymIndex::new();
    apply_synonyms_addition(&mut index, queue.update_synonyms(0)).unwrap();
    let keys_once = index.synonyms_keys();
    let car_once = index.alternatives_of(b"car");
    let bus_once = index.alternatives_of(b"bus");
    apply_synonyms_addition(&mut index, queue.update_synonyms(0)).unwrap();
    assert_eq!(index.synonyms_keys(), keys_once);
    assert_eq!(index.alternatives_of(b"car"), car_once);
    assert_eq!(index.alternatives_of(b"bus"), bus_once);
    assert_eq!(car_once, Some(bytes(&["a", "b"])));
}

#[test]
fn union_interleaves_and_dedups_keys() {
    let mut queue = UpdateQueue::new();
    enqueue(&mut queue, &[("b", &["x"]), ("d", &["x"]), ("f", &["x"])]);
    enqueue(&mut queue, &[("a", &["y"]), ("d", &["y"]), ("g", &["y"]), ("", &["y"])]);
    let mut index = SynonymIndex::new();
    apply_all(&mut index, &queue);
    assert_eq!(index.synonyms_keys(), Some(bytes(&["", "a", "b", "d", "f", "g"])));
    assert_eq!(index.alternatives_of(b"d"), Some(bytes(&["y"])));
    assert_eq!(index.alternatives_of(b"b"), Some(bytes(&["x"])));
    assert_eq!(index.alternatives_of(b"zz"), None);
}

#[test]
fn empty_change_set_on_empty_index_gives_empty_key_set() {
    let mut queue = UpdateQueue::new();
    enqueue(&mut queue, &[]);
    let mut index = SynonymIndex::new();
    apply_all(&mut index, &queue);
    assert_eq!(index.synonyms_keys(), Some(Vec::new()));
}

#[test]
fn round_trip_alternatives_are_sorted_and_distinct() {
    let mut queue = UpdateQueue::new();
    enqueue(&mut queue, &[("w", &["zeta", "Alpha", "alpha", "mu", "ZETA", ""])]);
    let mut index = SynonymIndex::new();
    apply_all(&mut index, &queue);
    assert_eq!(index.alternatives_of(b"w"), Some(bytes(&["", "alpha", "mu", "zeta"])));
}

#[test]
fn enqueue_does_not_block_on_full_channel() {
    let (sender, receiver) = crossbeam_channel::bounded(1);
    sender.send(()).unwrap();
    let mut queue = UpdateQueue::new();
    let addition = SynonymsAddition::new(sender.clone());
    assert_eq!(addition.finalize(&mut queue), Ok(0));
    let (rendezvous, _alive) = crossbeam_channel::bounded(0);
    let addition = SynonymsAddition::new(rendezvous);
    assert_eq!(addition.finalize(&mut queue), Ok(1));
    assert_eq!(receiver.try_recv(), Ok(()));
    assert!(receiver.try_recv().is_err());
}

fn one_change(word: &str, alts: &[&str]) -> SynonymsAddition {
    let (sender, _receiver) = crossbeam_channel::unbounded();
    let mut addition = SynonymsAddition::new(sender);
    addition.add_synonym(word, &strings(alts));
    addition
}

#[test]
fn build_update_merges_stored_keys() {
    let changes = one_change("quick", &["Speedy", "fast", "fast"]);
    let existing = Some(bytes(&["car", "fast"]));
    let (keyset, alternatives) = build_synonyms_update(&existing, changes.synonyms()).ok().unwrap().into_parts();
    assert_eq!(keyset.stream().into_bytes(), bytes(&["car", "fast", "quick"]));
    assert_eq!(alternatives.len(), 1);
    assert_eq!(alternatives[0].0, b"quick".to_vec());
    assert_eq!(alternatives[0].1.stream().into_bytes(), bytes(&["fast", "speedy"]));
}

#[test]
fn build_update_without_stored_keys_uses_new_words() {
    let changes = one_change("car", &["automobile", "Car"]);
    let (keyset, _) = build_synonyms_update(&None, changes.synonyms()).ok().unwrap().into_parts();
    assert_eq!(keyset.stream().into_bytes(), bytes(&["car"]));
}

#[test]
fn build_update_rejects_unsorted_stored_keys() {
    let changes = one_change("car", &["auto"]);
    let unsorted = Some(bytes(&["fast", "car"]));
    assert!(matches!(build_synonyms_update(&unsorted, changes.synonyms()), Err(UpdateError::SetConstruction)));
    let repeated = Some(bytes(&["car", "car"]));
    assert!(matches!(build_synonyms_update(&repeated, changes.synonyms()), Err(UpdateError::SetConstruction)));
}
