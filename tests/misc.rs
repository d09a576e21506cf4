use steam_path::account::Account;
use steam_path::error::SteamError;
use steam_path::html_parser::{parse_html, Element};
use steam_path::steam_requester::{country_from_header, extract_friend_name, friend_count_from_text};
use std::collections::HashMap;

use steam_path::util::{combine_tuple_lists, join_maps_on_shortest, maps_have_intersection, unzip_tuple_lists};

#[test]
fn friend_name_is_text_before_first_tag_trimmed() {
    assert_eq!(
        extract_friend_name("  Dr. Someone \n\t<br><span class=\"x\">Online</span>".to_string()),
        Some("Dr. Someone".to_string())
    );
}

#[test]
fn friend_name_without_tag_is_whole_text_trimmed() {
    assert_eq!(extract_friend_name("\u{a0} plain name  ".to_string()), Some("plain name".to_string()));
}

#[test]
fn friend_name_may_be_empty() {
    assert_eq!(extract_friend_name("<div>x</div>".to_string()), Some(String::new()));
    assert_eq!(extract_friend_name(String::new()), Some(String::new()));
    assert_eq!(extract_friend_name("   \n".to_string()), Some(String::new()));
}

#[test]
fn friend_name_keeps_inner_spaces_and_unicode() {
    assert_eq!(extract_friend_name("Ünïcode  Name<".to_string()), Some("Ünïcode  Name".to_string()));
}

#[test]
fn account_links() {
    assert_eq!(
        Account::FriendCode("76561198043820228".to_string()).get_link(),
        "https://steamcommunity.com/profiles/76561198043820228"
    );
    assert_eq!(
        Account::ProfileName("Undeadnemesiss".to_string()).get_link(),
        "https://steamcommunity.com/id/Undeadnemesiss"
    );
}

#[test]
fn steam_error_keeps_its_message() {
    assert_eq!(SteamError::new("No process available").message(), "No process available");
    assert_eq!(SteamError::boxed_new("Inner parsing failed").message(), "Inner parsing failed");
}

#[test]
fn parse_html_gives_a_text_node_under_an_empty_root() {
    match parse_html("<html></html>".to_string()) {
        Ok(Element::Text(text, parent)) => {
            assert_eq!(text, "This is text");
            match *parent {
                Element::Html(_, children) => assert!(children.is_empty()),
                _ => panic!("parent is not the root"),
            }
        },
        _ => panic!("unexpected tree"),
    }
}

#[test]
fn zip_stops_at_the_shorter_list() {
    let pairs = combine_tuple_lists(vec!["a", "b", "c"], vec![1, 2]);
    assert_eq!(pairs, vec![("a", 1), ("b", 2)]);
    let none: Vec<(u8, u8)> = combine_tuple_lists(vec![], vec![1, 2]);
    assert!(none.is_empty());
}

#[test]
fn unzip_splits_pairs() {
    let (names, links) = unzip_tuple_lists(vec![("n1".to_string(), 10), ("n2".to_string(), 20)]);
    assert_eq!(names, vec!["n1", "n2"]);
    assert_eq!(links, vec![10, 20]);
    let (a, b): (Vec<u8>, Vec<u8>) = unzip_tuple_lists(vec![]);
    assert!(a.is_empty() && b.is_empty());
}

#[test]
fn join_keeps_the_shorter_list_of_each_key() {
    let mut a: HashMap<u32, Vec<u32>> = HashMap::new();
    a.insert(1, vec![1, 2, 3]);
    a.insert(2, vec![2]);
    a.insert(3, vec![3, 3]);
    let mut b: HashMap<u32, Vec<u32>> = HashMap::new();
    b.insert(1, vec![9]);
    b.insert(2, vec![7, 7]);
    b.insert(3, vec![5, 5]);
    b.insert(4, vec![4, 4, 4]);
    let j = join_maps_on_shortest(&a, &b);
    assert_eq!(j.len(), 4);
    assert_eq!(j[&1], vec![9]);
    assert_eq!(j[&2], vec![2]);
    assert_eq!(j[&3], vec![3, 3]);
    assert_eq!(j[&4], vec![4, 4, 4]);
}

#[test]
fn join_with_empty_maps() {
    let empty: HashMap<String, Vec<String>> = HashMap::new();
    let mut a: HashMap<String, Vec<String>> = HashMap::new();
    a.insert("k".to_string(), vec!["v".to_string()]);
    assert_eq!(join_maps_on_shortest(&a, &empty), a);
    assert_eq!(join_maps_on_shortest(&empty, &a), a);
}

#[test]
fn intersection_of_key_sets() {
    let mut a: HashMap<u64, u8> = HashMap::new();
    a.insert(1, 0);
    a.insert(2, 0);
    let mut b: HashMap<u64, u8> = HashMap::new();
    b.insert(3, 1);
    assert!(!maps_have_intersection(&a, &b));
    b.insert(2, 5);
    assert!(maps_have_intersection(&a, &b));
    assert!(!maps_have_intersection(&HashMap::new(), &b));
}

#[test]
fn country_is_last_comma_part_trimmed() {
    assert_eq!(country_from_header("\n  Seattle, Washington,  United States \t"), "United States");
    assert_eq!(country_from_header("Germany"), "Germany");
    assert_eq!(country_from_header("  "), "");
    assert_eq!(country_from_header("Somewhere,"), "");
}

#[test]
fn friend_count_reads_the_number_after_the_last_semicolon() {
    assert_eq!(friend_count_from_text("\n\t\t 123 \t"), 123);
    assert_eq!(friend_count_from_text("Friends&nbsp;4 5 6"), 456);
    assert_eq!(friend_count_from_text("-5"), -5);
    assert_eq!(friend_count_from_text("+7"), 7);
}

#[test]
fn unreadable_friend_count_is_zero() {
    assert_eq!(friend_count_from_text("1,234"), 0);
    assert_eq!(friend_count_from_text("Friends"), 0);
    assert_eq!(friend_count_from_text(""), 0);
    assert_eq!(friend_count_from_text("99999999999"), 0);
    assert_eq!(friend_count_from_text("12;"), 0);
}
