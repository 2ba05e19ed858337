use sum_btc::ledger::{bytes_copy, bytes_eq};
use sum_btc::rank::{bytes_before, entry_before, rank_entries};

#[test]
fn byte_strings_in_lexicographic_order() {
    assert!(bytes_before(&b"".to_vec(), &b"a".to_vec()));
    assert!(bytes_before(&b"a".to_vec(), &b"ab".to_vec()));
    assert!(bytes_before(&b"ab".to_vec(), &b"b".to_vec()));
    assert!(bytes_before(&vec![1, 2, 3], &vec![1, 2, 4]));
    assert!(!bytes_before(&b"a".to_vec(), &b"a".to_vec()));
    assert!(!bytes_before(&b"".to_vec(), &b"".to_vec()));
    assert!(!bytes_before(&b"b".to_vec(), &b"ab".to_vec()));
    assert!(!bytes_before(&vec![0xff], &vec![0x7f, 0x00]));
}

#[test]
fn entries_by_sum_then_address() {
    assert!(entry_before(&b"z".to_vec(), 5, &b"a".to_vec(), 4));
    assert!(!entry_before(&b"a".to_vec(), 4, &b"z".to_vec(), 5));
    assert!(entry_before(&b"a".to_vec(), 4, &b"b".to_vec(), 4));
    assert!(!entry_before(&b"a".to_vec(), 4, &b"a".to_vec(), 4));
    assert!(entry_before(&b"a".to_vec(), 0, &b"a".to_vec(), -1));
}

#[test]
fn ranking_keeps_every_entry() {
    let entries = vec![
        (b"m".to_vec(), 3),
        (b"a".to_vec(), -2),
        (b"k".to_vec(), 3),
        (b"q".to_vec(), 10),
        (b"b".to_vec(), 0),
    ];
    assert_eq!(
        rank_entries(&entries),
        vec![
            (b"q".to_vec(), 10),
            (b"k".to_vec(), 3),
            (b"m".to_vec(), 3),
            (b"b".to_vec(), 0),
            (b"a".to_vec(), -2),
        ]
    );
    assert!(rank_entries(&vec![]).is_empty());
}

#[test]
fn byte_strings_compared_and_copied() {
    assert!(bytes_eq(&vec![1, 2], &vec![1, 2]));
    assert!(!bytes_eq(&vec![1, 2], &vec![1, 3]));
    assert!(!bytes_eq(&vec![1, 2], &vec![1]));
    assert!(bytes_eq(&vec![], &vec![]));
    assert_eq!(bytes_copy(&vec![9, 8, 7]), vec![9, 8, 7]);
}
