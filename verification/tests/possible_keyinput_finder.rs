use mapper::application::Application;
use mapper::focus::Focus;
use mapper::key::{Key, KeyInput, Modifier, Modifiers};
use mapper::possible_keyinput_finder::PossibleKeyinputFinder;
use std::collections::BTreeMap;

fn ki(key: u64, modifiers: Vec<u32>) -> KeyInput<u64, u32> {
    KeyInput::of(key, modifiers)
}

fn focused(app: u8) -> Focus<u8> {
    Focus::Focused { application: Application::new(app) }
}

#[test]
fn finder_without_records_finds_nothing() {
    let finder: PossibleKeyinputFinder<u8, u64, u32> = PossibleKeyinputFinder::new(vec![], BTreeMap::new());
    assert_eq!(finder.find(Focus::NoFocus), vec![]);
    assert_eq!(finder.find(focused(1)), vec![]);
}

#[test]
fn finder_gives_the_global_record_as_it_stands_without_focus() {
    let global = vec![ki(5, vec![1]), ki(3, vec![]), ki(5, vec![1])];
    let finder: PossibleKeyinputFinder<u8, u64, u32> = PossibleKeyinputFinder::new(global.clone(), BTreeMap::new());
    assert_eq!(finder.find(Focus::NoFocus), global);
}

#[test]
fn finder_sorts_and_deduplicates_under_an_application() {
    let global = vec![ki(5, vec![1]), ki(3, vec![]), ki(5, vec![1])];
    let mut by_application = BTreeMap::new();
    by_application.insert(7u8, vec![ki(4, vec![8, 1]), ki(3, vec![]), ki(4, vec![4]), ki(4, vec![1, 2])]);
    let finder = PossibleKeyinputFinder::new(global, by_application);
    assert_eq!(
        finder.find(focused(7)),
        vec![ki(3, vec![]), ki(4, vec![1, 2]), ki(4, vec![1, 8]), ki(4, vec![4]), ki(5, vec![1])]
    );
    assert_eq!(finder.find(focused(8)), vec![ki(3, vec![]), ki(5, vec![1])]);
}

#[test]
fn finder_under_an_application_includes_all_of_the_global_record() {
    let global = vec![ki(1, vec![]), ki(2, vec![4]), ki(9, vec![1, 4])];
    let mut by_application = BTreeMap::new();
    by_application.insert(1u8, vec![ki(2, vec![]), ki(9, vec![4, 1])]);
    let finder = PossibleKeyinputFinder::new(global, by_application);
    let found = finder.find(focused(1));
    for key_input in finder.find(Focus::NoFocus) {
        assert!(found.contains(&key_input));
    }
    assert_eq!(found.len(), 4);
}

#[test]
fn key_inputs_sort_by_key_and_then_by_their_modifiers_as_in_a_dictionary() {
    assert!(ki(1, vec![16]).sorts_before(&ki(2, vec![])));
    assert!(!ki(2, vec![]).sorts_before(&ki(1, vec![16])));
    assert!(ki(1, vec![1, 2]).sorts_before(&ki(1, vec![4])));
    assert!(ki(1, vec![1, 4]).sorts_before(&ki(1, vec![4])));
    assert!(!ki(1, vec![4]).sorts_before(&ki(1, vec![1, 4])));
    assert!(ki(1, vec![1, 8]).sorts_before(&ki(1, vec![4])));
    assert!(ki(1, vec![1]).sorts_before(&ki(1, vec![1, 16])));
    assert!(ki(1, vec![1, 16]).sorts_before(&ki(1, vec![16])));
    assert!(ki(1, vec![]).sorts_before(&ki(1, vec![1])));
    assert!(!ki(1, vec![1, 4]).sorts_before(&ki(1, vec![4, 1])));
    assert!(ki(1, vec![1, 4]).same_as(&ki(1, vec![4, 1, 1])));
    assert!(!ki(1, vec![1, 4]).same_as(&ki(1, vec![4])));
    assert!(!ki(1, vec![1]).same_as(&ki(2, vec![1])));
}

#[test]
fn modifiers_merge_and_list_their_members() {
    let a = Modifiers::new(vec![Modifier::new(4u32), Modifier::new(1), Modifier::new(4)]);
    let b = Modifiers::new(vec![Modifier::new(2u32), Modifier::new(1)]);
    assert_eq!(a.to_vec(), vec![Modifier::new(1), Modifier::new(4)]);
    assert_eq!(a.merge(&b).to_vec(), vec![Modifier::new(1), Modifier::new(2), Modifier::new(4)]);
    assert_eq!(a.merge(&a), a);
    assert_eq!(a.is_empty(), false);
    assert_eq!(Modifiers::<u32>::new(vec![]).is_empty(), true);
    assert_eq!(Modifier::new(7u32).raw_value(), 7);
    assert_eq!(Key::new(9u64).raw_value(), 9);
}

#[test]
fn key_input_merge_modifiers_is_idempotent() {
    let base = ki(1, vec![4]);
    let extra = Modifiers::new(vec![Modifier::new(1u32), Modifier::new(8)]);
    let once = base.merge_modifiers(&extra);
    assert_eq!(once, ki(1, vec![1, 4, 8]));
    assert_eq!(once.merge_modifiers(&extra), once);
    assert_eq!(once.key(), Key::new(1));
    assert_eq!(once.modifiers(), Modifiers::new(vec![Modifier::new(8), Modifier::new(4), Modifier::new(1)]));
    assert_eq!(once.duplicate(), once);
}

fn sorted_and_deduplicated(mut key_inputs: Vec<KeyInput<u64, u32>>) -> Vec<KeyInput<u64, u32>> {
    key_inputs.sort();
    key_inputs.dedup();
    key_inputs
}

#[test]
fn finder_under_an_application_gives_the_key_inputs_in_their_own_order() {
    let global = vec![
        ki(0x68, vec![1, 16]),
        ki(0x68, vec![16]),
        ki(4, vec![4]),
        ki(4, vec![1, 8]),
        ki(4, vec![1, 8, 2]),
        ki(9, vec![]),
        ki(4, vec![]),
    ];
    let of_application = vec![ki(4, vec![8]), ki(0x68, vec![1]), ki(4, vec![1, 8]), ki(3, vec![64, 2])];
    let mut by_application = BTreeMap::new();
    by_application.insert(1u8, of_application.clone());
    let finder = PossibleKeyinputFinder::new(global.clone(), by_application);

    assert_eq!(finder.find(focused(2)), vec![
        ki(4, vec![]),
        ki(4, vec![1, 2, 8]),
        ki(4, vec![1, 8]),
        ki(4, vec![4]),
        ki(9, vec![]),
        ki(0x68, vec![1, 16]),
        ki(0x68, vec![16]),
    ]);
    assert_eq!(finder.find(focused(2)), sorted_and_deduplicated(global.clone()));
    let mut all = global.clone();
    all.extend(of_application);
    assert_eq!(finder.find(focused(1)), sorted_and_deduplicated(all));
}

#[test]
fn sorts_before_is_the_order_of_the_key_inputs() {
    let key_inputs = vec![
        ki(1, vec![]),
        ki(1, vec![1]),
        ki(1, vec![1, 2]),
        ki(1, vec![1, 16]),
        ki(1, vec![2]),
        ki(1, vec![16]),
        ki(2, vec![]),
        ki(2, vec![1, 2, 4]),
        ki(2, vec![1, 4]),
        ki(2, vec![4]),
    ];
    for a in key_inputs.iter() {
        for b in key_inputs.iter() {
            assert_eq!(a.sorts_before(b), a < b);
            assert_eq!(a.same_as(b), a == b);
        }
    }
}
