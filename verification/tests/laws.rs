use min_subseq_transducer::insert::lower_of;
use min_subseq_transducer::inverse::Inverse;
use min_subseq_transducer::signature::{Alphabet, Signature, SignatureIndex};
use min_subseq_transducer::transducer::{chars_of, Transducer};
use min_subseq_transducer::utils::{
    add_to_or_insert, copy_row, longest_common_prefix, remove_from_or_delete, row_find, Table,
};
use std::collections::{BTreeMap, BTreeSet, HashMap, HashSet, VecDeque};

fn registered(index: &SignatureIndex) -> Vec<&(Signature, usize)> {
    index.buckets().values().flatten().collect()
}

fn word(s: &str) -> Vec<char> {
    s.chars().collect()
}

/// The transducer with its states renumbered in the order in which a walk from
/// the initial state along ascending labels meets them.
fn shape(t: &Transducer) -> (usize, Vec<(Option<usize>, Vec<(char, usize, usize)>)>) {
    let mut number: HashMap<usize, usize> = HashMap::new();
    let mut order: Vec<usize> = Vec::new();
    let mut queue: VecDeque<usize> = VecDeque::new();
    number.insert(0, 0);
    order.push(0);
    queue.push_back(0);
    while let Some(q) = queue.pop_front() {
        let mut row: Vec<(char, usize)> = t.delta.row(q).cloned().unwrap_or_default();
        row.sort();
        for (_, d) in row {
            if !number.contains_key(&d) {
                number.insert(d, order.len());
                order.push(d);
                queue.push_back(d);
            }
        }
    }
    let mut states = Vec::new();
    for q in order {
        let mut row: Vec<(char, usize, usize)> = t
            .delta
            .row(q)
            .cloned()
            .unwrap_or_default()
            .into_iter()
            .map(|(c, d)| (c, number[&d], t.lambda.get(q, c).unwrap()))
            .collect();
        row.sort();
        states.push((t.psi.get(&q).copied(), row));
    }
    (t.iota, states)
}

fn signatures(t: &Transducer) -> HashSet<(Option<usize>, BTreeSet<(char, usize, usize)>)> {
    t.states
        .iter()
        .map(|q| {
            let s = t.signature(*q);
            (
                s.final_output,
                s.transitions.iter().map(|(c, (d, o))| (*c, *d, *o)).collect(),
            )
        })
        .collect()
}

fn assert_minimal(t: &Transducer) {
    assert!(t.min_except.is_empty());
    assert_eq!(signatures(t).len(), t.states.len());
    assert_eq!(registered(&t.states_by_signature).len(), t.states.len());
    for (s, q) in registered(&t.states_by_signature) {
        assert!(t.states.contains(q));
        assert!(s.same(&t.signature(*q)));
    }
}

fn assert_inverse_exact(t: &Transducer) {
    let mut forward: BTreeSet<(usize, char, usize)> = BTreeSet::new();
    for (q, row) in t.delta.rows() {
        for (c, d) in row {
            forward.insert((*d, *c, *q));
        }
    }
    let mut backward: BTreeSet<(usize, char, usize)> = BTreeSet::new();
    for (d, row) in t.delta_inv.rows() {
        for (c, q) in row {
            backward.insert((*d, *c, *q));
        }
    }
    assert_eq!(forward, backward);
}

fn assert_canonical(t: &Transducer) {
    for q in t.states.iter() {
        let mut outputs: Vec<usize> = t
            .lambda
            .row(*q)
            .cloned()
            .unwrap_or_default()
            .into_iter()
            .map(|(_, o)| o)
            .collect();
        if let Some(o) = t.psi.get(q) {
            outputs.push(*o);
        }
        assert_eq!(outputs.iter().min(), Some(&0), "state {}", q);
    }
}

fn assert_outputs(t: &Transducer, entries: &[(&str, usize)]) {
    for (w, o) in entries {
        assert_eq!(t.output(&word(w)), *o, "word {}", w);
        let end = *t.state_sequence(&word(w)).last().unwrap();
        assert!(t.finality.contains(&end));
    }
}

#[test]
fn outputs_are_kept_by_insertions_and_deletions() {
    let mut t = Transducer::from_dictionary(vec![("cab", 15), ("cabab", 10), ("cad", 8), ("cbab", 3)]);
    assert_outputs(&t, &[("cab", 15), ("cabab", 10), ("cad", 8), ("cbab", 3)]);
    t.add_entry_out_of_order("ca", 9);
    assert_outputs(&t, &[("ca", 9), ("cab", 15), ("cabab", 10), ("cad", 8), ("cbab", 3)]);
    t.add_entry_out_of_order("dab", 1);
    assert_outputs(
        &t,
        &[("ca", 9), ("cab", 15), ("cabab", 10), ("cad", 8), ("cbab", 3), ("dab", 1)],
    );
    assert_eq!(t.get_initial_output(), 1);
    t.remove_entry_with_word("cabab");
    assert_outputs(&t, &[("ca", 9), ("cab", 15), ("cad", 8), ("cbab", 3), ("dab", 1)]);
    t.remove_entry_with_word("dab");
    assert_outputs(&t, &[("ca", 9), ("cab", 15), ("cad", 8), ("cbab", 3)]);
    assert_eq!(t.get_initial_output(), 3);
    let end = *t.state_sequence(&word("cab")).last().unwrap();
    assert!(t.delta.get(end, 'a').is_none());
}

#[test]
fn states_have_distinct_signatures() {
    let mut t = Transducer::from_dictionary(vec![("cab", 15), ("cabab", 10), ("cad", 8), ("cbab", 3)]);
    assert_minimal(&t);
    t.add_entry_out_of_order("cabada", 6);
    assert_minimal(&t);
    t.remove_entry_with_word("cab");
    assert_minimal(&t);
    t.add_entry_out_of_order("b", 0);
    assert_minimal(&t);
}

#[test]
fn inverse_holds_exactly_the_transitions() {
    let mut t = Transducer::from_entry("baba", 10);
    assert_inverse_exact(&t);
    t.add_entry_in_order("bc", 15);
    assert_inverse_exact(&t);
    t.reduce_to_epsilon();
    assert_inverse_exact(&t);
    t.add_entry_out_of_order("ba", 7);
    assert_inverse_exact(&t);
    t.increase_except_from_epsilon_to_word(&word("baba"));
    assert_inverse_exact(&t);
    t.reduce_to_epsilon();
    t.remove_entry_with_word("baba");
    assert_inverse_exact(&t);
}

#[test]
fn least_output_at_every_state_is_zero() {
    let mut t = Transducer::from_dictionary(vec![("cab", 15), ("cabab", 10), ("cabad", 8), ("cabc", 12)]);
    assert_canonical(&t);
    t.remove_entry_with_word("cabad");
    assert_canonical(&t);
    t.add_entry_out_of_order("ca", 2);
    assert_canonical(&t);
    t.remove_entry_with_word("ca");
    assert_canonical(&t);
    t.remove_entry_with_word("cab");
    assert_canonical(&t);
}

#[test]
fn insert_then_delete_restores_the_automaton() {
    let mut t = Transducer::from_dictionary(vec![("cab", 15), ("cabab", 10), ("cad", 8), ("cbab", 3)]);
    let before = shape(&t);
    for (w, o) in [("cabada", 6), ("c", 20), ("cbabc", 1), ("zz", 4)] {
        t.add_entry_out_of_order(w, o);
        assert_ne!(shape(&t), before);
        t.remove_entry_with_word(w);
        assert_eq!(shape(&t), before);
        assert_minimal(&t);
    }
}

#[test]
fn any_insertion_order_gives_the_same_automaton() {
    let sorted = vec![("a", 5), ("abc", 10), ("abcc", 13), ("abcd", 15), ("bcd", 2)];
    let expected = shape(&Transducer::from_dictionary(sorted.clone()));
    let orders: [[usize; 5]; 4] = [[4, 3, 2, 1, 0], [2, 0, 4, 1, 3], [1, 3, 0, 2, 4], [3, 4, 0, 1, 2]];
    for order in orders {
        let (w, o) = sorted[order[0]];
        let mut t = Transducer::from_entry(w, o);
        t.reduce_to_epsilon();
        for i in &order[1..] {
            let (w, o) = sorted[*i];
            t.add_entry_out_of_order(w, o);
        }
        assert_eq!(shape(&t), expected);
        assert_outputs(&t, &sorted);
    }
}

#[test]
fn single_character_word() {
    let mut t = Transducer::from_entry("a", 4);
    assert_eq!(t.states, BTreeSet::from([0, 1]));
    assert_eq!(t.output(&word("a")), 4);
    t.reduce_to_epsilon();
    assert_minimal(&t);
    t.add_entry_out_of_order("b", 6);
    assert_outputs(&t, &[("a", 4), ("b", 6)]);
    assert_eq!(t.states, BTreeSet::from([0, 1]));
    assert_eq!(t.get_number_of_transitions(), 2);
    assert!(t.can_remove("a"));
    t.remove_entry_with_word("a");
    assert_outputs(&t, &[("b", 6)]);
    assert_eq!(t.get_initial_output(), 6);
    assert!(!t.can_remove("b"));
}

#[test]
fn word_that_is_a_prefix_of_another() {
    let mut t = Transducer::from_dictionary(vec![("abcd", 7), ("abd", 9)]);
    t.add_entry_out_of_order("ab", 3);
    assert_outputs(&t, &[("ab", 3), ("abcd", 7), ("abd", 9)]);
    assert_eq!(t.get_initial_output(), 3);
    assert_canonical(&t);
    assert_minimal(&t);
    t.add_entry_out_of_order("a", 30);
    assert_outputs(&t, &[("a", 30), ("ab", 3), ("abcd", 7), ("abd", 9)]);
    assert_eq!(t.psi.get(&1), Some(&27));
    t.remove_entry_with_word("ab");
    assert_outputs(&t, &[("a", 30), ("abcd", 7), ("abd", 9)]);
    assert_eq!(t.get_initial_output(), 7);
}

#[test]
fn output_equal_to_initial_output() {
    let mut t = Transducer::from_dictionary(vec![("ab", 5), ("ac", 8)]);
    assert_eq!(t.get_initial_output(), 5);
    t.add_entry_out_of_order("b", 5);
    assert_eq!(t.get_initial_output(), 5);
    assert_outputs(&t, &[("ab", 5), ("ac", 8), ("b", 5)]);
    assert_eq!(t.lambda.get(0, 'b'), Some(0));
    assert_canonical(&t);
}

#[test]
fn output_zero() {
    let mut t = Transducer::from_dictionary(vec![("ab", 5), ("ac", 8)]);
    t.add_entry_out_of_order("abc", 0);
    assert_eq!(t.get_initial_output(), 0);
    assert_outputs(&t, &[("ab", 5), ("abc", 0), ("ac", 8)]);
    assert_canonical(&t);
    assert_minimal(&t);
    t.remove_entry_with_word("abc");
    assert_eq!(t.get_initial_output(), 5);
    assert_outputs(&t, &[("ab", 5), ("ac", 8)]);
}

#[test]
fn dictionary_gives_the_recorded_outputs() {
    let t = Transducer::from_dictionary(vec![("cab", 15), ("cabab", 10), ("cad", 8), ("cbab", 3)]);
    assert_outputs(&t, &[("cab", 15), ("cabab", 10), ("cad", 8), ("cbab", 3)]);
    assert_eq!(t.get_initial_output(), 3);
    assert_eq!(t.get_states().len(), 7);
    assert_eq!(t.get_finality(), &BTreeSet::from([3, 5]));
    assert_eq!(t.get_number_of_transitions(), 8);
}

#[test]
fn removing_a_word_with_a_continuation_drops_one_state() {
    let mut t = Transducer::from_dictionary(vec![("cab", 15), ("cabab", 10), ("cad", 8), ("cbab", 3)]);
    let before = t.get_states().len();
    t.remove_entry_with_word("cab");
    assert_outputs(&t, &[("cabab", 10), ("cad", 8), ("cbab", 3)]);
    assert_eq!(t.get_states().len(), before - 1);
}

#[test]
fn dictionary_pushes_outputs_to_the_front() {
    let t = Transducer::from_dictionary(vec![("cab", 15), ("cabab", 10), ("cabad", 8), ("cabc", 12)]);
    assert_outputs(&t, &[("cab", 15), ("cabab", 10), ("cabad", 8), ("cabc", 12)]);
    let cab = *t.state_sequence(&word("cab")).last().unwrap();
    assert_eq!(t.psi.get(&cab), Some(&7));
    assert_eq!(t.get_initial_output(), 8);
    assert_eq!(t.lambda.get(cab, 'c'), Some(4));
    assert_eq!(t.lambda_star(&word("cabc")), 4);
}

#[test]
fn removing_the_cheapest_word_raises_the_initial_output() {
    let mut t = Transducer::from_dictionary(vec![("a", 5), ("abc", 10), ("abcc", 13), ("abcd", 15)]);
    let a = *t.state_sequence(&word("a")).last().unwrap();
    assert!(t.finality.contains(&a));
    t.remove_entry_with_word("a");
    assert_outputs(&t, &[("abc", 10), ("abcc", 13), ("abcd", 15)]);
    assert_eq!(t.get_initial_output(), 10);
    let a = *t.state_sequence(&word("a")).last().unwrap();
    assert!(!t.finality.contains(&a));
}

#[test]
fn can_remove_tells_what_can_be_deleted() {
    let t = Transducer::from_dictionary(vec![("ab", 5), ("abc", 8)]);
    assert!(t.can_remove("ab"));
    assert!(t.can_remove("abc"));
    assert!(!t.can_remove(""));
    assert!(!t.can_remove("a"));
    assert!(!t.can_remove("abd"));
    assert!(!t.can_remove("abcd"));
    let mut single = Transducer::from_entry("abc", 1);
    single.reduce_to_epsilon();
    assert!(!single.can_remove("abc"));
}

#[test]
fn removes_a_word_that_ends_where_another_goes_on() {
    let mut t = Transducer::from_dictionary(vec![("a", 1), ("ab", 2)]);
    t.remove_entry_with_word("ab");
    assert_outputs(&t, &[("a", 1)]);
    assert_eq!(t.states, BTreeSet::from([0, 1]));
    assert_eq!(t.get_initial_output(), 1);
    assert_canonical(&t);
}

#[test]
fn removes_a_word_that_leaves_the_initial_state_alone() {
    let mut t = Transducer::from_dictionary(vec![("a", 4), ("b", 9)]);
    t.remove_entry_with_word("b");
    assert_outputs(&t, &[("a", 4)]);
    assert_eq!(t.get_initial_output(), 4);
    assert_eq!(t.get_number_of_transitions(), 1);
    assert_minimal(&t);
}

#[test]
fn new_states_follow_the_greatest_state() {
    let mut t = Transducer::from_entry("ab", 0);
    assert_eq!(t.add_new_states(3), vec![3, 4, 5]);
    assert_eq!(t.states, BTreeSet::from([0, 1, 2, 3, 4, 5]));
    t.delete_state(&5);
    assert_eq!(t.add_new_states(1), vec![5]);
    t.states = BTreeSet::from([0, 7]);
    assert_eq!(t.add_new_states(2), vec![8, 9]);
    assert_eq!(t.add_new_states(0), Vec::<usize>::new());
}

#[test]
fn prefix_outputs_and_caps() {
    let mut t = Transducer::from_entry("cab", 15);
    t.add_entry_in_order("cabab", 10);
    t.add_entry_in_order("cad", 8);
    assert_eq!(t.min_except, word("cad"));
    assert_eq!(t.prefix_outputs(&word("cad")), vec![8, 8, 8, 8]);
    assert_eq!(t.prefix_outputs(&word("cab")), vec![8, 8, 8, 10]);
    assert_eq!(t.lambda_i(3, 9), 8);
    assert_eq!(t.lambda_i(0, 3), 3);
    assert_eq!(lower_of(4, 9), 4);
    assert_eq!(lower_of(9, 4), 4);
    assert_eq!(lower_of(4, 4), 4);
}

#[test]
fn compensate_moves_what_the_path_no_longer_emits() {
    let mut t = Transducer::from_entry("ab", 10);
    t.add_entry_in_order("ac", 12);
    assert_eq!(t.lambda.get(1, 'b'), Some(0));
    assert_eq!(t.lambda.get(1, 'c'), Some(2));
    t.compensate(1, 10, 7, Some(('c', 1)), true);
    assert_eq!(t.lambda.get(1, 'b'), Some(3));
    assert_eq!(t.lambda.get(1, 'c'), Some(1));
    assert_eq!(t.psi.get(&1), None);
    t.compensate(2, 10, 4, None, true);
    assert_eq!(t.psi.get(&2), Some(&6));
    t.compensate(2, 10, 4, None, false);
    assert_eq!(t.psi.get(&2), Some(&6));
    t.compensate(2, 3, 4, None, true);
    assert_eq!(t.psi.get(&2), Some(&6));
}

#[test]
fn extract_min_takes_the_least_output_out() {
    let mut t = Transducer::from_entry("ab", 10);
    t.add_entry_in_order("ac", 12);
    add_to_or_insert(&mut t.lambda, 1, 'b', 5);
    add_to_or_insert(&mut t.lambda, 1, 'c', 3);
    assert_eq!(t.extract_min_from_state(&1), 3);
    assert_eq!(t.lambda.get(1, 'b'), Some(2));
    assert_eq!(t.lambda.get(1, 'c'), Some(0));
    t.psi.insert(2, 4);
    assert_eq!(t.extract_min_from_state(&2), 4);
    assert_eq!(t.psi.get(&2), Some(&0));
    assert_eq!(t.extract_min_from_state(&9), 0);
    t.psi.insert(1, 1);
    add_to_or_insert(&mut t.lambda, 1, 'c', 6);
    assert_eq!(t.extract_min_from_state(&1), 1);
    assert_eq!(t.psi.get(&1), Some(&0));
    assert_eq!(t.lambda.get(1, 'b'), Some(1));
    assert_eq!(t.lambda.get(1, 'c'), Some(5));
}

#[test]
fn convergent_and_divergent_states() {
    let t = Transducer::from_dictionary(vec![("cab", 15), ("cabab", 10), ("cad", 8), ("cbab", 3)]);
    assert!(t.is_state_convergent(4));
    assert!(t.is_state_convergent(5));
    assert!(!t.is_state_convergent(1));
    assert!(!t.is_state_convergent(0));
    assert!(t.is_state_divergent(&1));
    assert!(t.is_state_divergent(&3));
    assert!(t.is_state_divergent(&5));
    assert!(!t.is_state_divergent(&0));
    assert!(!t.is_state_divergent(&4));
    assert_eq!(t.state_eq(4), None);
    assert_eq!(t.longest_common_prefix(&word("cabx")), word("cab"));
    assert_eq!(t.longest_common_prefix(&word("x")), word(""));
    assert_eq!(t.longest_common_prefix(&word("cbab")), word("cbab"));
}

#[test]
fn a_copy_has_the_outputs_of_the_copied_state() {
    let mut t = Transducer::from_dictionary(vec![("cab", 15), ("cabab", 10), ("cad", 8), ("cbab", 3)]);
    t.clone_state(6, 'a', 4, 7);
    assert_eq!(t.delta.get(6, 'a'), Some(7));
    assert_eq!(t.delta.get(7, 'b'), Some(5));
    assert_eq!(t.lambda.get(7, 'b'), Some(0));
    assert!(t.states.contains(&7));
    assert!(!t.finality.contains(&7));
    assert!(!t.is_state_convergent(4));
    assert!(t.is_state_convergent(5));
    t.clone_state(2, 'b', 3, 8);
    assert!(t.finality.contains(&8));
    assert_eq!(t.psi.get(&8), Some(&5));
    assert_eq!(t.delta.get(8, 'a'), Some(4));
    assert_inverse_exact(&t);
}

#[test]
fn reduces_by_a_number_of_labels() {
    let mut t = Transducer::from_entry("abab", 1);
    t.reduce_except_by_k(0);
    assert_eq!(t.min_except, word("abab"));
    t.reduce_except_by_k(3);
    assert_eq!(t.min_except, word("a"));
    assert_eq!(registered(&t.states_by_signature).len(), 3);
    t.reduce_except_by_one();
    assert_eq!(t.min_except, word(""));
    t.add_signature(0);
    assert_minimal(&t);
    t.remove_signature(0);
    assert_eq!(registered(&t.states_by_signature).len(), 4);
}

#[test]
fn tables_store_and_forget() {
    let mut table = Table::with_capacity(4);
    add_to_or_insert(&mut table, 3, 'a', 7);
    add_to_or_insert(&mut table, 3, 'b', 8);
    add_to_or_insert(&mut table, 3, 'a', 9);
    add_to_or_insert(&mut table, 1, 'a', 1);
    assert_eq!(table.get(3, 'a'), Some(9));
    assert_eq!(table.get(3, 'b'), Some(8));
    assert_eq!(table.get(3, 'c'), None);
    assert_eq!(table.get(2, 'a'), None);
    assert_eq!(table.degree(3), 2);
    assert_eq!(table.degree(2), 0);
    remove_from_or_delete(&mut table, &3, &'a');
    assert_eq!(table.get(3, 'a'), None);
    assert_eq!(table.row(3), Some(&vec![('b', 8)]));
    remove_from_or_delete(&mut table, &3, &'x');
    remove_from_or_delete(&mut table, &3, &'b');
    assert_eq!(table.row(3), None);
    assert_eq!(table.rows().len(), 1);
    table.set_row(5, vec![('x', 1), ('y', 2)]);
    assert_eq!(table.get(5, 'y'), Some(2));
    table.set_row(5, Vec::new());
    assert_eq!(table.row(5), None);
    assert_eq!(table.remove_row(1), Some(vec![('a', 1)]));
    assert_eq!(table.remove_row(1), None);
    assert_eq!(row_find(&vec![('a', 1), ('b', 2)], 'b'), Some(1));
    assert_eq!(row_find(&vec![('a', 1), ('b', 2)], 'c'), None);
    assert_eq!(copy_row(&vec![('a', 1), ('b', 2)]), vec![('a', 1), ('b', 2)]);
    assert_eq!(Table::new().rows().len(), 0);
}

#[test]
fn inverse_records_and_forgets() {
    let mut inverse = Inverse::with_capacity(2);
    inverse.insert(4, 'a', 3);
    inverse.insert(4, 'a', 6);
    inverse.insert(4, 'a', 3);
    assert_eq!(inverse.row(4).map(|r| r.len()), Some(2));
    inverse.remove(4, 'a', 3);
    assert_eq!(inverse.row(4), Some(&vec![('a', 6)]));
    inverse.remove(4, 'b', 6);
    inverse.remove(4, 'a', 6);
    assert_eq!(inverse.row(4), None);
    inverse.insert(1, 'c', 0);
    assert_eq!(inverse.remove_row(1), Some(vec![('c', 0)]));
    assert_eq!(inverse.remove_row(1), None);
    assert_eq!(Inverse::new().rows().len(), 0);
}

#[test]
fn signatures_are_compared_as_sets() {
    let a = Signature { final_output: Some(1), transitions: vec![('a', (1, 2)), ('b', (3, 4))] };
    let b = Signature { final_output: Some(1), transitions: vec![('b', (3, 4)), ('a', (1, 2))] };
    let c = Signature { final_output: None, transitions: vec![('b', (3, 4)), ('a', (1, 2))] };
    let d = Signature { final_output: Some(1), transitions: vec![('a', (1, 2))] };
    let e = Signature { final_output: Some(1), transitions: vec![('a', (1, 2)), ('b', (3, 5))] };
    let f = Signature { final_output: Some(2), transitions: vec![('a', (1, 2)), ('b', (3, 4))] };
    assert!(a.same(&b));
    assert_eq!(a.hash_of(), b.hash_of());
    assert_ne!(a.hash_of(), c.hash_of());
    assert_ne!(a.hash_of(), d.hash_of());
    assert_eq!(
        Signature { final_output: None, transitions: Vec::new() }.hash_of(),
        0
    );
    assert_eq!(
        Signature { final_output: Some(0), transitions: Vec::new() }.hash_of(),
        961
    );
    assert!(!a.same(&c));
    assert!(!a.same(&d));
    assert!(!d.same(&a));
    assert!(!a.same(&e));
    assert!(!a.same(&f));
    let mut index = SignatureIndex::with_capacity(2);
    index.insert(a, 4);
    assert_eq!(index.get(&b), Some(4));
    assert_eq!(index.get(&c), None);
    index.insert(b, 5);
    assert_eq!(registered(&index).len(), 1);
    assert_eq!(index.get(&e), None);
    index.insert(c, 6);
    index.remove(&d);
    assert_eq!(registered(&index).len(), 2);
    index.remove(&f);
    let again = Signature { final_output: Some(1), transitions: vec![('b', (3, 4)), ('a', (1, 2))] };
    assert_eq!(index.get(&again), Some(5));
    index.remove(&again);
    assert_eq!(index.get(&again), None);
    assert_eq!(registered(&index).len(), 1);
    assert_eq!(registered(&SignatureIndex::new()).len(), 0);
}

#[test]
fn alphabet_holds_each_label_once() {
    let mut alphabet = Alphabet::new();
    assert!(!alphabet.contains('a'));
    alphabet.insert('b');
    alphabet.insert('a');
    alphabet.insert('b');
    assert!(alphabet.contains('a'));
    assert!(alphabet.contains('b'));
    assert!(!alphabet.contains('c'));
    assert_eq!(alphabet.letters(), &vec!['b', 'a']);
    let mut t = Transducer::from_entry("ab", 0);
    t.update_alphabet_with_word(&['c', 'a', 'd']);
    assert_eq!(t.alphabet.letters(), &vec!['a', 'b', 'c', 'd']);
}

#[test]
fn words_are_read_label_by_label() {
    assert_eq!(chars_of("héllo"), vec!['h', 'é', 'l', 'l', 'o']);
    assert_eq!(chars_of(""), Vec::<char>::new());
    assert_eq!(longest_common_prefix(&word("cab"), &word("cab")), word("cab"));
    assert_eq!(longest_common_prefix(&word("cabab"), &word("cab")), word("cab"));
    assert_eq!(longest_common_prefix(&word("cab"), &word("cabab")), word("cab"));
    assert_eq!(longest_common_prefix(&word("abc"), &word("xbc")), word(""));
    assert_eq!(longest_common_prefix(&word(""), &word("a")), word(""));
}

#[test]
fn a_word_of_the_dictionary_is_given_a_new_output() {
    let mut t = Transducer::from_dictionary(vec![("ab", 5), ("ac", 8)]);
    t.add_entry_out_of_order("ab", 2);
    assert_outputs(&t, &[("ab", 2), ("ac", 8)]);
    assert_eq!(t.get_initial_output(), 2);
    t.add_entry_out_of_order("ac", 11);
    assert_outputs(&t, &[("ab", 2), ("ac", 11)]);
    let mut counts: BTreeMap<usize, usize> = BTreeMap::new();
    for q in t.get_states() {
        *counts.entry(t.delta.degree(*q)).or_default() += 1;
    }
    assert_eq!(counts.get(&2), Some(&1));
}

#[test]
fn a_replaced_transition_leaves_no_record_behind() {
    let mut t = Transducer::from_entry("a", 1);
    let fresh = t.add_new_states(1);
    assert_eq!(fresh, vec![2]);
    assert_inverse_exact(&t);
    t.add_delta_transition(0, 'a', 2);
    assert_eq!(t.delta.get(0, 'a'), Some(2));
    assert_eq!(t.delta_inv.row(1), None);
    assert_eq!(t.delta_inv.row(2), Some(&vec![('a', 0)]));
    assert_inverse_exact(&t);
    t.add_delta_transition(0, 'a', 2);
    assert_eq!(t.delta_inv.row(2), Some(&vec![('a', 0)]));
    t.add_delta_transition(2, 'b', 1);
    assert_eq!(t.delta_inv.row(1), Some(&vec![('b', 2)]));
    assert_inverse_exact(&t);
}

#[test]
fn the_empty_word_follows_the_initial_output() {
    let t = Transducer::from_dictionary(vec![("", 5), ("a", 3), ("b", 7)]);
    assert_eq!(t.get_initial_output(), 3);
    assert_eq!(t.output(&word("")), 3);
    assert_outputs(&t, &[("a", 3), ("b", 7)]);
    let mut t = Transducer::from_dictionary(vec![("", 5), ("a", 9)]);
    assert_eq!(t.output(&word("")), 5);
    t.add_entry_out_of_order("b", 2);
    assert_eq!(t.get_initial_output(), 2);
    assert_eq!(t.output(&word("")), 5 - 5 + 2);
    assert_outputs(&t, &[("a", 9), ("b", 2)]);
    t.add_entry_out_of_order("c", 4);
    assert_eq!(t.get_initial_output(), 2);
    assert_eq!(t.output(&word("")), 2);
}

#[test]
fn the_initial_output_is_the_least_recorded_output() {
    let t = Transducer::from_dictionary(vec![("ab", 9), ("abc", 4), ("b", 6)]);
    assert_eq!(t.get_initial_output(), 4);
    let t = Transducer::from_dictionary(vec![("ab", 0), ("abc", 4)]);
    assert_eq!(t.get_initial_output(), 0);
}

#[test]
fn a_deletion_adds_no_more_states_than_the_word_has_labels() {
    let mut t = Transducer::from_dictionary(vec![("ab", 1), ("abc", 2), ("cb", 3), ("cbc", 5)]);
    let before = *t.get_states().iter().next_back().unwrap();
    t.remove_entry_with_word("cbc");
    let after = *t.get_states().iter().next_back().unwrap();
    assert!(after <= before + 3);
    assert_minimal(&t);
    assert_outputs(&t, &[("ab", 1), ("abc", 2), ("cb", 3)]);
}

#[test]
fn the_number_of_transitions_is_bounded_by_the_states() {
    let t = Transducer::from_dictionary(vec![("ab", 1), ("abc", 2), ("cb", 3), ("cbc", 5)]);
    let greatest = *t.get_states().iter().next_back().unwrap();
    assert!(t.get_number_of_transitions() <= (greatest + 1) * 0x110000);
    let mut pairs = 0;
    for (_, row) in t.delta.rows() {
        pairs += row.len();
    }
    assert_eq!(t.get_number_of_transitions(), pairs);
}
