use dag_consensus::collections::{KeyMap, KeySet};
use dag_consensus::committee::{Authority, Committee};
use dag_consensus::crypto::{Digest, PublicKey};
use dag_consensus::text::{join, sort_texts, write_decimal};

#[test]
fn key_sets_stay_sorted() {
    let mut set = KeySet::from_vec(&vec![5u64, 1, 3, 1]);
    assert_eq!(set.to_vec(), vec![1, 3, 5]);
    assert!(!set.insert(3));
    assert!(set.insert(2));
    assert!(set.remove(&5));
    assert!(!set.remove(&5));
    assert_eq!(set.to_vec(), vec![1, 2, 3]);
    assert_eq!(set.position(&3), Some(2));
    assert_eq!(set.position(&4), None);
    let mut other = KeySet::from_vec(&vec![9u64, 2]);
    other.extend(&set);
    assert_eq!(other.to_vec(), vec![1, 2, 3, 9]);
}

#[test]
fn key_maps_replace() {
    let mut map = KeyMap::new();
    assert_eq!(map.insert(2u64, 'b'), None);
    assert_eq!(map.insert(1u64, 'a'), None);
    assert_eq!(map.insert(2u64, 'c'), Some('b'));
    assert_eq!(map.get(&2), Some(&'c'));
    assert_eq!(map.key_list(), vec![1, 2]);
    assert_eq!(map.remove(&1), Some('a'));
    assert_eq!(map.remove(&1), None);
    let _ = map.insert(7, 'x');
    let _ = map.insert(8, 'y');
    map.remove_all(&vec![2, 8, 3]);
    assert_eq!(map.key_list(), vec![7]);
}

#[test]
fn digests_are_ordered_by_bytes() {
    let mut low = [9u8; 32];
    low[0] = 1;
    let mut high = [0u8; 32];
    high[0] = 2;
    let set = KeySet::from_vec(&vec![Digest(high), Digest(low)]);
    assert_eq!(set.at(0).0, low);
    assert_eq!(set.at(1).0, high);
}

#[test]
fn committee_knows_its_members() {
    let mut authorities = KeyMap::new();
    for n in [3u8, 1, 2] {
        let workers = KeySet::from_vec(&vec![n as u32]);
        let _ = authorities.insert(PublicKey([n; 32]), Authority { stake: n as u32, workers });
    }
    let committee = Committee {
        authorities,
        quorum_threshold: 4,
        validity_threshold: 2,
        solid_step_length: 2,
        solid_wave_length: 4,
    };
    assert_eq!(committee.stake(&PublicKey([3; 32])), 3);
    assert_eq!(committee.stake(&PublicKey([4; 32])), 0);
    assert_eq!(committee.node_index(&PublicKey([2; 32])), Some(1));
    assert_eq!(committee.node_index(&PublicKey([4; 32])), None);
    assert!(committee.worker(&PublicKey([2; 32]), &2));
    assert!(!committee.worker(&PublicKey([2; 32]), &3));
    assert!(!committee.worker(&PublicKey([4; 32]), &4));
    assert_eq!(committee.weigh(&committee.keys()), 6);
}

#[test]
fn numbers_are_written_in_decimal() {
    for n in [0u128, 7, 10, 99, 1234567890, u64::MAX as u128] {
        let mut text = String::from("n=");
        write_decimal(&mut text, n);
        assert_eq!(text, format!("n={}", n));
    }
}

#[test]
fn texts_are_joined() {
    assert_eq!(join(&vec![], ", "), "");
    assert_eq!(join(&vec!["a".to_string()], ", "), "a");
    let list = vec!["a".to_string(), "".to_string(), "b".to_string()];
    assert_eq!(join(&list, ", "), "a, , b");
}

#[test]
fn texts_are_sorted() {
    let list: Vec<String> =
        ["[2,1]", "[10,0]", "[2,0]", "[?,?]", "", "[2,1]", "[2"].iter().map(|s| s.to_string()).collect();
    let mut expected = list.clone();
    expected.sort();
    assert_eq!(sort_texts(list.clone()), expected);
    let mut reversed = list;
    reversed.reverse();
    assert_eq!(sort_texts(reversed), expected);
}
