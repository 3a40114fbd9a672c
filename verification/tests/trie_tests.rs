use trie::{Trie, TrieNode};

#[test]
fn it_works() {
    let mut trie = Trie::new();
    trie.insert("abcde");
    assert_eq!(trie.search_prefix("abc"), true);
    assert_eq!(trie.search_full_world("abcde"), true);
    assert_eq!(trie.search_full_world("abc"), false);
}

#[test]
fn fresh_trie_holds_no_word() {
    let mut trie = Trie::new();
    assert_eq!(trie.search_prefix("x"), false);
    assert_eq!(trie.search_full_world("x"), false);
}

#[test]
fn empty_prefix_is_always_found() {
    let mut trie = Trie::new();
    assert_eq!(trie.search_prefix(""), true);
    trie.insert("tree");
    assert_eq!(trie.search_prefix(""), true);
}

#[test]
fn empty_word_is_found_only_after_insert() {
    let mut trie = Trie::new();
    assert_eq!(trie.search_full_world(""), false);
    trie.insert("tree");
    assert_eq!(trie.search_full_world(""), false);
    trie.insert("");
    assert_eq!(trie.search_full_world(""), true);
    assert_eq!(trie.search_prefix(""), true);
    assert_eq!(trie.search_full_world("tree"), true);
}

#[test]
fn words_that_share_a_prefix() {
    let mut trie = Trie::new();
    trie.insert("cat");
    trie.insert("car");
    assert_eq!(trie.search_prefix("ca"), true);
    assert_eq!(trie.search_full_world("ca"), false);
    assert_eq!(trie.search_full_world("cat"), true);
    assert_eq!(trie.search_full_world("car"), true);
    assert_eq!(trie.search_full_world("ca"), false);
    assert_eq!(trie.search_prefix("cab"), false);
}

#[test]
fn inserted_word_is_found() {
    for word in ["a", "abcde", "zebra", "", "a b c", "日本語"] {
        let mut trie = Trie::new();
        trie.insert(word);
        assert_eq!(trie.search_full_world(word), true);
        assert_eq!(trie.search_prefix(word), true);
    }
}

#[test]
fn every_prefix_of_an_inserted_word_is_found() {
    let word = "prefix";
    let mut trie = Trie::new();
    trie.insert(word);
    for len in 0..=word.len() {
        assert_eq!(trie.search_prefix(&word[..len]), true);
    }
    assert_eq!(trie.search_prefix("prefixe"), false);
    assert_eq!(trie.search_prefix("pra"), false);
    assert_eq!(trie.search_prefix("r"), false);
}

#[test]
fn strict_prefix_of_a_word_is_no_word() {
    let word = "prefix";
    let mut trie = Trie::new();
    trie.insert(word);
    for len in 0..word.len() {
        assert_eq!(trie.search_full_world(&word[..len]), false);
    }
}

#[test]
fn word_that_was_not_inserted_is_not_found() {
    let mut trie = Trie::new();
    trie.insert("car");
    trie.insert("cart");
    trie.insert("dog");
    assert_eq!(trie.search_full_world("ca"), false);
    assert_eq!(trie.search_full_world("carts"), false);
    assert_eq!(trie.search_full_world("do"), false);
    assert_eq!(trie.search_full_world("dogs"), false);
    assert_eq!(trie.search_full_world("cat"), false);
    assert_eq!(trie.search_full_world("art"), false);
    assert_eq!(trie.search_full_world("Car"), false);
}

#[test]
fn longer_word_after_its_prefix() {
    let mut trie = Trie::new();
    trie.insert("car");
    assert_eq!(trie.search_full_world("cart"), false);
    assert_eq!(trie.search_prefix("cart"), false);
    trie.insert("cart");
    assert_eq!(trie.search_full_world("car"), true);
    assert_eq!(trie.search_full_world("cart"), true);
    assert_eq!(trie.search_prefix("cart"), true);
}

#[test]
fn prefix_after_its_longer_word() {
    let mut trie = Trie::new();
    trie.insert("cart");
    assert_eq!(trie.search_full_world("car"), false);
    trie.insert("car");
    assert_eq!(trie.search_full_world("car"), true);
    assert_eq!(trie.search_full_world("cart"), true);
}

fn answers(trie: &mut Trie) -> Vec<(bool, bool)> {
    let queries = ["", "a", "ab", "abc", "abcd", "b", "ba", "bad", "c", "x", "abd", "é", "és"];
    let mut found = Vec::new();
    for query in queries {
        found.push((trie.search_prefix(query), trie.search_full_world(query)));
    }
    found
}

#[test]
fn repeated_insert_changes_no_answer() {
    let mut once = Trie::new();
    once.insert("ab");
    once.insert("abc");
    once.insert("bad");

    let mut thrice = Trie::new();
    thrice.insert("ab");
    thrice.insert("abc");
    thrice.insert("abc");
    thrice.insert("abc");
    thrice.insert("bad");

    assert_eq!(answers(&mut once), answers(&mut thrice));
    assert_eq!(
        answers(&mut once),
        vec![
            (true, false),
            (true, false),
            (true, true),
            (true, true),
            (false, false),
            (true, false),
            (true, false),
            (true, true),
            (false, false),
            (false, false),
            (false, false),
            (false, false),
            (false, false),
        ]
    );
}

#[test]
fn insertion_order_changes_no_answer() {
    let words = ["abc", "ab", "bad", "és"];
    let orders: [[usize; 4]; 6] =
        [[0, 1, 2, 3], [3, 2, 1, 0], [1, 0, 3, 2], [2, 3, 0, 1], [1, 2, 3, 0], [0, 3, 1, 2]];
    let mut first = Trie::new();
    for word in words {
        first.insert(word);
    }
    let expected = answers(&mut first);
    for order in orders {
        let mut trie = Trie::new();
        for index in order {
            trie.insert(words[index]);
        }
        assert_eq!(answers(&mut trie), expected);
    }
}

#[test]
fn queries_leave_the_tree_as_it_was() {
    let mut trie = Trie::new();
    trie.insert("abc");
    let before = format!("{:?}", trie);
    assert_eq!(trie.search_prefix("abcd"), false);
    assert_eq!(trie.search_full_world("ab"), false);
    assert_eq!(trie.search_prefix("zz"), false);
    assert_eq!(format!("{:?}", trie), before);
    assert_eq!(trie.search_full_world("abc"), true);
    assert_eq!(trie.search_full_world("abc"), true);
}

#[test]
fn each_scalar_value_is_a_symbol_of_its_own() {
    let mut trie = Trie::new();
    trie.insert("é");
    assert_eq!(trie.search_full_world("é"), true);
    assert_eq!(trie.search_full_world("e"), false);
    assert_eq!(trie.search_prefix("e"), false);
    // 'e' followed by a combining acute accent: two symbols, not one
    assert_eq!(trie.search_full_world("e\u{301}"), false);
    assert_eq!(trie.search_full_world("É"), false);

    trie.insert("日本語");
    assert_eq!(trie.search_prefix("日"), true);
    assert_eq!(trie.search_prefix("日本"), true);
    assert_eq!(trie.search_full_world("日本"), false);
    assert_eq!(trie.search_full_world("日本語"), true);
    assert_eq!(trie.search_prefix("本"), false);
}

#[test]
fn case_is_kept() {
    let mut trie = Trie::new();
    trie.insert("Word");
    assert_eq!(trie.search_full_world("Word"), true);
    assert_eq!(trie.search_full_world("word"), false);
    assert_eq!(trie.search_prefix("w"), false);
    assert_eq!(trie.search_prefix("W"), true);
}

#[test]
fn long_word() {
    let word = "ab".repeat(2000);
    let mut trie = Trie::new();
    trie.insert(&word);
    assert_eq!(trie.search_full_world(&word), true);
    assert_eq!(trie.search_prefix(&word[..3999]), true);
    assert_eq!(trie.search_full_world(&word[..3999]), false);
}

#[test]
fn new_node_is_bare() {
    let node = TrieNode::new();
    assert_eq!(format!("{:?}", node), "TrieNode { children: {}, is_end_of_word: false }");
}

#[test]
fn new_trie_has_a_bare_root() {
    let trie = Trie::new();
    assert_eq!(
        format!("{:?}", trie),
        "Trie { root: TrieNode { children: {}, is_end_of_word: false } }"
    );
}

#[test]
fn insert_builds_one_node_for_each_symbol() {
    let mut trie = Trie::new();
    trie.insert("ab");
    assert_eq!(
        format!("{:?}", trie),
        "Trie { root: TrieNode { children: {97: TrieNode { children: {98: TrieNode { children: {}, \
         is_end_of_word: true }}, is_end_of_word: false }}, is_end_of_word: false } }"
    );
}
