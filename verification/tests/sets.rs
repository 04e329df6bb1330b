use phf::key::{bytes_equal, hash_slice, HASH_BASIS};
use phf::ordered_set::OrderedSet;
use phf::set::PhfSet;
use phf::table::KeyTable;
use phf::text::render_texts;
use phf::{PhfEquiv, PhfHash};

/// Searches seeds and table sizes for a layout without collisions.
fn table_of<T: PhfHash + Clone>(keys: &[T]) -> KeyTable<T> {
    let mut n_slots = keys.len().max(1);
    while n_slots <= 64 * keys.len().max(1) {
        for seed in 0..2000u64 {
            let mut slots = vec![usize::MAX; n_slots];
            let mut free = true;
            for (i, key) in keys.iter().enumerate() {
                let slot = KeyTable::<T>::slot_index(key, seed, n_slots);
                if slots[slot] != usize::MAX {
                    free = false;
                    break;
                }
                slots[slot] = i;
            }
            if free {
                return KeyTable::new(seed, slots, keys.to_vec()).unwrap();
            }
        }
        n_slots *= 2;
    }
    panic!("no collision-free layout found");
}

fn set_of(keys: &[&'static str]) -> PhfSet<&'static str> {
    PhfSet::new(table_of(keys))
}

fn ordered_of(keys: &[&'static str]) -> OrderedSet<&'static str> {
    OrderedSet::new(table_of(keys))
}

#[test]
fn ordered_set_of_three_letters() {
    let set = ordered_of(&["a", "b", "c"]);
    assert_eq!(set.len(), 3);
    assert!(!set.is_empty());
    assert_eq!(set.get_index(&"b"), Some(1));

    let mut forward = Vec::new();
    let mut it = set.iter();
    while let Some(item) = it.next() {
        forward.push(*item);
    }
    assert_eq!(forward, vec!["a", "b", "c"]);

    let mut backward = Vec::new();
    let mut it = set.iter();
    while let Some(item) = it.next_back() {
        backward.push(*item);
    }
    assert_eq!(backward, vec!["c", "b", "a"]);

    assert!(!set.contains(&"d"));
    assert_eq!(set.get_index(&"d"), None);
    assert_eq!(set.get_key(&"d"), None);

    // Probes given as plain string slices.
    assert_eq!(set.get_index("b"), Some(1));
    assert_eq!(set.get_key("c"), Some(&"c"));
    assert!(set.contains("a"));
    assert!(!set.contains("d"));
}

#[test]
fn overlapping_sets_are_neither_disjoint_nor_nested() {
    let a = set_of(&["x", "y"]);
    let b = set_of(&["y", "z"]);
    assert!(!a.is_disjoint(&b));
    assert!(!a.is_subset(&b));
    assert!(!b.is_subset(&a));
    assert!(!a.is_superset(&b));
    assert!(a.contains(&"y"));
    assert!(b.contains(&"y"));
}

#[test]
fn every_element_is_found_and_interned() {
    let words = ["alpha", "beta", "gamma", "delta", "epsilon"];
    let set = set_of(&words);
    let ordered = ordered_of(&words);
    for (i, word) in words.iter().enumerate() {
        let probe: String = word.chars().collect();
        let probe: &str = probe.as_str();
        assert!(set.contains(&probe));
        assert!(set.contains_equiv(&probe));
        let kept = set.get_key(&probe).unwrap();
        assert_eq!(*kept, *word);
        assert!(std::ptr::eq(*kept, *word));
        assert_ne!(kept.as_ptr(), probe.as_ptr());
        let kept = set.get_key_equiv(&probe).unwrap();
        assert!(std::ptr::eq(*kept, *word));

        assert!(ordered.contains(&probe));
        assert_eq!(ordered.get_index(&probe), Some(i));
        assert!(std::ptr::eq(*ordered.get_key(&probe).unwrap(), *word));
    }
}

#[test]
fn strangers_are_absent() {
    let set = set_of(&["alpha", "beta", "gamma"]);
    let ordered = ordered_of(&["alpha", "beta", "gamma"]);
    for probe in ["", "alph", "alphaa", "Beta", "delta"] {
        assert!(!set.contains(&probe));
        assert!(!set.contains_equiv(&probe));
        assert_eq!(set.get_key(&probe), None);
        assert_eq!(set.get_key_equiv(&probe), None);
        assert!(!ordered.contains(&probe));
        assert_eq!(ordered.get_key(&probe), None);
        assert_eq!(ordered.get_index(&probe), None);
    }
}

#[test]
fn len_is_the_number_of_items_iterated() {
    let set = set_of(&["p", "q", "r", "s"]);
    let mut it = set.iter();
    assert_eq!(it.size_hint(), (4, Some(4)));
    let mut seen = 0;
    while let Some(_) = it.next() {
        seen += 1;
        assert_eq!(it.size_hint(), (4 - seen, Some(4 - seen)));
    }
    assert_eq!(seen, set.len());
    assert_eq!(it.next(), None);
    assert_eq!(it.next_back(), None);
    assert_eq!(set.iter().count(), set.len());
    assert_eq!(set_of(&[]).iter().count(), 0);

    let ordered = ordered_of(&["p", "q", "r", "s"]);
    let mut it = ordered.iter();
    let mut seen = 0;
    while let Some(_) = it.next() {
        seen += 1;
    }
    assert_eq!(seen, ordered.len());
    assert_eq!(ordered.iter().count(), 4);
    let mut it = ordered.iter();
    it.next();
    it.next_back();
    assert_eq!(it.count(), 2);
}

#[test]
fn set_iteration_order_is_fixed() {
    let set = set_of(&["one", "two", "three"]);
    let mut first = Vec::new();
    let mut it = set.iter();
    while let Some(item) = it.next() {
        first.push(*item);
    }
    let mut second = Vec::new();
    let mut it = set.iter();
    while let Some(item) = it.next() {
        second.push(*item);
    }
    assert_eq!(first, second);
    let mut back = Vec::new();
    let mut it = set.iter();
    while let Some(item) = it.next_back() {
        back.push(*item);
    }
    back.reverse();
    assert_eq!(first, back);
}

#[test]
fn positions_round_trip() {
    let words = ["north", "east", "south", "west"];
    let ordered = ordered_of(&words);
    let mut it = ordered.iter();
    assert_eq!(it.indexable(), 4);
    for i in 0..4 {
        let at = *it.idx(i).unwrap();
        assert_eq!(at, words[i]);
        assert_eq!(ordered.get_index(&at), Some(i));
    }
    assert_eq!(it.idx(4), None);
    assert_eq!(it.idx(usize::MAX), None);
    assert_eq!(it.indexable(), 4);
}

#[test]
fn cursor_meets_in_the_middle() {
    let ordered = ordered_of(&["a", "b", "c", "d", "e"]);
    let mut it = ordered.iter();
    assert_eq!(it.next(), Some(&"a"));
    assert_eq!(it.next_back(), Some(&"e"));
    assert_eq!(it.size_hint(), (3, Some(3)));
    assert_eq!(it.idx(0), Some(&"b"));
    assert_eq!(it.idx(2), Some(&"d"));
    assert_eq!(it.idx(3), None);
    assert_eq!(it.next_back(), Some(&"d"));
    assert_eq!(it.next(), Some(&"b"));
    assert_eq!(it.next(), Some(&"c"));
    assert_eq!(it.next(), None);
    assert_eq!(it.next_back(), None);
    assert_eq!(it.size_hint(), (0, Some(0)));
}

#[test]
fn subset_superset_disjoint_laws() {
    let small = set_of(&["b", "c"]);
    let big = set_of(&["a", "b", "c", "d"]);
    let far = set_of(&["x", "y"]);
    let empty = set_of(&[]);

    assert!(small.is_subset(&small));
    assert!(big.is_subset(&big));
    assert!(empty.is_subset(&empty));

    assert!(small.is_subset(&big));
    assert!(!big.is_subset(&small));
    assert_eq!(big.is_superset(&small), small.is_subset(&big));
    assert_eq!(small.is_superset(&big), big.is_subset(&small));
    assert!(big.is_superset(&small));
    assert!(!small.is_superset(&big));

    assert!(small.is_disjoint(&far));
    assert!(far.is_disjoint(&small));
    assert!(!small.is_disjoint(&big));

    assert!(empty.is_disjoint(&big));
    assert!(empty.is_subset(&big));
    assert!(empty.is_empty());
    assert!(empty.is_disjoint(&empty));
    assert!(big.is_superset(&empty));
    assert!(!empty.is_superset(&big));
}

#[test]
fn ordered_subset_superset_disjoint_laws() {
    let small = ordered_of(&["b", "c"]);
    let big = ordered_of(&["a", "b", "c", "d"]);
    let far = ordered_of(&["x", "y"]);
    let empty = ordered_of(&[]);

    assert!(small.is_subset(&small));
    assert!(small.is_subset(&big));
    assert!(!big.is_subset(&small));
    assert_eq!(big.is_superset(&small), small.is_subset(&big));
    assert_eq!(small.is_superset(&big), big.is_subset(&small));
    assert!(small.is_disjoint(&far));
    assert!(!small.is_disjoint(&big));
    assert!(empty.is_disjoint(&big));
    assert!(empty.is_subset(&big));
    assert!(empty.is_empty());
    assert_eq!(empty.len(), 0);
    assert!(!empty.contains(&"a"));
    assert_eq!(empty.iter().next(), None);
}

#[test]
fn owned_keys_accept_borrowed_probes() {
    let keys: Vec<String> = vec!["red".to_string(), "green".to_string(), "blue".to_string()];
    let ordered = OrderedSet::new(table_of(&keys));
    assert_eq!(ordered.get_index(&"green"), Some(1));
    assert_eq!(ordered.get_index(&"blue".to_string()), Some(2));
    assert!(!ordered.contains(&"pink"));
    let kept: &String = ordered.get_key(&"red").unwrap();
    assert!(std::ptr::eq(kept, ordered.iter().idx(0).unwrap()));

    let set = PhfSet::new(table_of(&keys));
    assert!(set.contains(&"red".to_string()));
    assert!(set.contains_equiv(&"red"));
    assert!(!set.contains_equiv(&"re"));
    assert_eq!(set.get_key_equiv(&"blue").map(|s| s.as_str()), Some("blue"));
    assert_eq!(set.get_key_equiv("green").map(|s| s.as_str()), Some("green"));
    assert!(set.contains_equiv("green"));
    assert!(!set.contains_equiv("greenish"));
    assert!("green".equiv(&"green".to_string()));
    assert!(!"green".equiv(&"greed".to_string()));
}

#[test]
fn integer_keys() {
    let keys: Vec<u64> = vec![7, 0, u64::MAX, 1 << 40, 256];
    let ordered = OrderedSet::new(table_of(&keys));
    for (i, key) in keys.iter().enumerate() {
        assert_eq!(ordered.get_index(key), Some(i));
        assert_eq!(ordered.get_key(key), Some(key));
    }
    assert_eq!(ordered.get_index(&1u64), None);
    assert_eq!(ordered.get_index(&(1u64 << 32)), None);
    assert!(7u64.equiv(&7u64));
    assert!(!7u64.equiv(&(7u64 << 8)));

    let bytes: Vec<u8> = vec![0, 255, 7];
    let set = PhfSet::new(table_of(&bytes));
    assert!(set.contains(&255));
    assert!(!set.contains(&8));
    let shorts: Vec<u16> = vec![0x0102, 0x0201, 0];
    let set = OrderedSet::new(table_of(&shorts));
    assert_eq!(set.get_index(&0x0201u16), Some(1));
    assert_eq!(set.get_index(&0x0101u16), None);
    let words: Vec<u32> = vec![1 << 31, 1, 1 << 16];
    let set = OrderedSet::new(table_of(&words));
    assert_eq!(set.get_index(&(1u32 << 16)), Some(2));
    assert_eq!(set.get_index(&(1u32 << 8)), None);
    assert_eq!(0x0102u16.phf_hash(4), hash_slice(&[2, 1], 4));
    assert_eq!(0x0102_0304u32.phf_hash(4), hash_slice(&[4, 3, 2, 1], 4));
    assert_eq!(9u8.phf_hash(4), hash_slice(&[9], 4));
}

#[test]
fn rendering_lists_elements_in_order() {
    assert_eq!(ordered_of(&["a", "b", "c"]).render(), "{a, b, c}");
    assert_eq!(ordered_of(&["only"]).render(), "{only}");
    assert_eq!(ordered_of(&[]).render(), "{}");
    assert_eq!(set_of(&[]).render(), "{}");
    assert_eq!(set_of(&["solo"]).render(), "{solo}");

    let set = set_of(&["x", "y"]);
    let mut items = Vec::new();
    let mut it = set.iter();
    while let Some(item) = it.next() {
        items.push(*item);
    }
    assert_eq!(set.render(), format!("{{{}, {}}}", items[0], items[1]));

    let owned = OrderedSet::new(table_of(&["k".to_string(), "l".to_string()]));
    assert_eq!(owned.render(), "{k, l}");
}

#[test]
fn rendering_of_prepared_texts() {
    assert_eq!(render_texts(&vec![]), "{}");
    assert_eq!(render_texts(&vec!["1".to_string()]), "{1}");
    assert_eq!(
        render_texts(&vec!["1".to_string(), "".to_string(), "3".to_string()]),
        "{1, , 3}"
    );
}

#[test]
fn hash_values() {
    assert_eq!(hash_slice(&[], 0), HASH_BASIS);
    assert_eq!(hash_slice(&[], 5), HASH_BASIS ^ 5);
    assert_eq!(hash_slice(b"a", 0), 0xaf63_dc4c_8601_ec8c);
    assert_eq!(hash_slice(b"foobar", 0), 0x8594_4171_f739_67e8);
    assert_eq!("a".phf_hash(0), 0xaf63_dc4c_8601_ec8c);
    assert_eq!("foobar".to_string().phf_hash(0), 0x8594_4171_f739_67e8);
    assert_eq!(1u64.phf_hash(3), hash_slice(&[1, 0, 0, 0, 0, 0, 0, 0], 3));
    assert_ne!("a".phf_hash(0), "a".phf_hash(1));
}

#[test]
fn byte_comparison() {
    assert!(bytes_equal(b"", b""));
    assert!(bytes_equal(b"abc", b"abc"));
    assert!(!bytes_equal(b"abc", b"abd"));
    assert!(!bytes_equal(b"abc", b"ab"));
    assert!(!bytes_equal(b"", b"a"));
}

#[test]
fn slot_index_reduces_the_hash() {
    let h = "foobar".phf_hash(9);
    assert_eq!(KeyTable::<&str>::slot_index(&"foobar", 9, 7), (h % 7) as usize);
    assert_eq!(KeyTable::<&str>::slot_index(&"foobar", 9, 1), 0);
}

#[test]
fn table_rejects_layouts_that_are_not_perfect() {
    // Slots that point at the wrong key.
    let good = table_of(&["a", "b"]);
    assert_eq!(good.len(), 2);
    let s_a = KeyTable::<&str>::slot_index(&"a", 0, 16);
    let s_b = KeyTable::<&str>::slot_index(&"b", 0, 16);
    assert_ne!(s_a, s_b);
    let mut slots = vec![usize::MAX; 16];
    slots[s_a] = 0;
    slots[s_b] = 1;
    assert!(KeyTable::new(0, slots.clone(), vec!["a", "b"]).is_some());
    slots[s_a] = 1;
    slots[s_b] = 0;
    assert!(KeyTable::new(0, slots.clone(), vec!["a", "b"]).is_none());
    // The same key twice can never be placed.
    slots[s_a] = 0;
    assert!(KeyTable::new(0, slots.clone(), vec!["a", "a"]).is_none());
    slots[s_a] = 1;
    assert!(KeyTable::new(0, slots, vec!["a", "a"]).is_none());
    // Keys but no slots.
    assert!(KeyTable::new(0, vec![], vec!["a"]).is_none());
    // No keys at all is fine, with or without slots.
    assert!(KeyTable::<&str>::new(0, vec![], vec![]).is_some());
    assert!(KeyTable::<&str>::new(0, vec![3, 4], vec![]).is_some());
}

#[test]
fn table_lookup() {
    let table = table_of(&["k0", "k1", "k2"]);
    assert_eq!(table.len(), 3);
    assert_eq!(table.key_at(1), Some(&"k1"));
    assert_eq!(table.key_at(3), None);
    assert_eq!(table.get_index(&"k2"), Some(2));
    assert_eq!(table.get_index(&"k3"), None);
    assert_eq!(table.get_key(&"k0"), Some(&"k0"));
    assert!(table.contains_key(&"k1"));
    assert!(!table.contains_key(&"k"));
    let mut keys = table.iter();
    assert_eq!(keys.len(), 3);
    assert_eq!(keys.next(), Some(&"k0"));
    assert_eq!(keys.next_back(), Some(&"k2"));
    assert_eq!(keys.idx(0), Some(&"k1"));
    assert_eq!(keys.idx(1), None);
    assert_eq!(keys.count(), 1);
}
