use metricstore::arena::Arena;
use metricstore::filename::{decimal_digits, sort_names, timed_file_name, wal_file_name, KIB};
use metricstore::skip_list::SkipList;
use metricstore::sorted_list::SortedList;
use metricstore::trie::Trie;

#[test]
fn trie_basics() {
    let mut my_trie = Trie::new();

    my_trie.insert("test");
    assert_eq!(my_trie.contains("test"), true);
    my_trie.insert("tester");
    assert_eq!(my_trie.contains("test"), true);
    assert_eq!(my_trie.contains("tester"), true);
}

#[test]
fn trie_prefixes_are_not_members() {
    let mut trie = Trie::new();
    trie.insert("tester");
    assert!(!trie.contains("test"));
    assert!(!trie.contains(""));
    assert!(!trie.contains("testers"));
    trie.insert("test");
    assert!(trie.contains("test"));
}

#[test]
fn sorted_list_basics() {
    let mut slist = SortedList::new();

    slist.add(5);
    assert_eq!(slist.peek_begin(), Some(5));
    assert_eq!(slist.seek_end(), Some(5));

    slist.add(4);
    assert_eq!(slist.peek_begin(), Some(4));
    assert_eq!(slist.seek_end(), Some(5));
    slist.add(6);
    assert_eq!(slist.peek_begin(), Some(4));
    assert_eq!(slist.seek_end(), Some(6));

    let mut iter = slist.iter();
    assert_eq!(iter.next(), Some(4));
    assert_eq!(iter.next(), Some(5));
    assert_eq!(iter.next(), Some(6));
    assert_eq!(iter.next(), None);
    assert_eq!(iter.next(), None);

    assert_eq!(slist.pop(), Some(4));
    assert_eq!(slist.pop(), Some(5));
    assert_eq!(slist.pop(), Some(6));
    assert_eq!(slist.pop(), None);
}

#[test]
fn skip_list_basics() {
    let mut slist = SkipList::new();

    slist.add(5);

    assert_eq!(slist.len(), 1);
    assert_eq!(slist.contains(&5), true);

    slist.add(10);
    slist.add(20);
    slist.add(50);
    slist.add(55);
    assert_eq!(slist.contains(&5), true);
    assert_eq!(slist.contains(&10), true);
    assert_eq!(slist.contains(&20), true);
    assert_eq!(slist.contains(&50), true);
    assert_eq!(slist.contains(&55), true);
    assert_eq!(slist.contains(&7), false);
    assert_eq!(slist.len(), 5);

    let mut iter = slist.iter();
    assert_eq!(iter.next(), Some(5));
    assert_eq!(iter.next(), Some(10));
    assert_eq!(iter.next(), Some(20));
    assert_eq!(iter.next(), Some(50));
    assert_eq!(iter.next(), Some(55));
    assert_eq!(iter.next(), None);

    assert_eq!(slist.get(0), Some(5));
    assert_eq!(slist.get(4), Some(55));
    assert_eq!(slist.get(5), None);
}

#[test]
fn arena_allocates_and_resets() {
    let mut arena = Arena::new(8);
    assert_eq!(arena.alloc_str("abcd"), Some(0));
    assert_eq!(arena.alloc_str("ef"), Some(4));
    // the next allocation would overrun the capacity and is refused
    assert_eq!(arena.alloc_str("ghi"), None);
    assert_eq!(arena.alloc_str("gh"), Some(6));
    assert_eq!(arena.alloc_str("x"), None);
    arena.reset();
    assert_eq!(arena.alloc_str("fresh"), Some(0));
}

#[test]
fn file_names_embed_the_timestamp() {
    assert_eq!(KIB, 1024);
    assert_eq!(decimal_digits(0), b"0");
    assert_eq!(decimal_digits(1622547800123), b"1622547800123");
    assert_eq!(timed_file_name("wals/wal", ".bin", 42), b"wals/wal_42.bin");
    assert_eq!(wal_file_name(1622547800123), b"wals/wal_1622547800123.bin".to_vec());
    // names of successive log files sort in creation order
    let earlier = wal_file_name(1622547800123);
    let later = wal_file_name(1622547800124);
    assert!(earlier < later);
}

#[test]
fn sort_names_orders_log_files_chronologically() {
    let names = vec![
        wal_file_name(1622547800125),
        wal_file_name(1622547800123),
        wal_file_name(1622547800124),
        wal_file_name(1622547800123),
    ];
    let sorted = sort_names(names);
    assert_eq!(
        sorted,
        vec![
            wal_file_name(1622547800123),
            wal_file_name(1622547800123),
            wal_file_name(1622547800124),
            wal_file_name(1622547800125),
        ]
    );
}
