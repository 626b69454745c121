use fondabots_lib::tools::{parse_date, parse_u64, basicize, create_paged_list, keep_basic_chars, occurs, paginate, simplify_chars, sort_by_date, split_on, matches_name};

#[test]
fn basicize_simplifies_text() {
    assert_eq!(basicize("Éléphant`s"), "elephant's");
    assert_eq!(basicize("ABC"), "abc");
    assert_eq!(basicize("a\u{202f}b"), "a b");
    assert_eq!(basicize("Ça va"), "ca va");
    assert_eq!(basicize(""), "");
}

#[test]
fn simplify_and_keep_chars() {
    assert_eq!(simplify_chars(&vec!['a', '`', '\u{202f}']), vec!['a', '\'', ' ']);
    assert_eq!(keep_basic_chars(&vec!['e', '\u{301}', 'x', '日']), vec!['e', 'x', '日']);
}

#[test]
fn words_and_occurrences() {
    assert_eq!(split_on(&"a bc".chars().collect(), ' '), vec![vec!['a'], vec!['b', 'c']]);
    assert_eq!(split_on(&"a  b".chars().collect(), ' '), vec![vec!['a'], vec![], vec!['b']]);
    assert_eq!(split_on(&vec![], ' '), vec![Vec::<char>::new()]);
    assert!(occurs(&"fond".chars().collect(), &"fondation".chars().collect()));
    assert!(!occurs(&"fondations".chars().collect(), &"fondation".chars().collect()));
    assert!(occurs(&vec![], &vec!['x']));
    assert!(matches_name("fonda scp", "La Fondation SCP"));
    assert!(!matches_name("fondations", "La Fondation SCP"));
}

#[test]
fn pages_respect_the_limit() {
    let pages = paginate(vec!["aaa".to_string(), "bb".to_string(), "cccc".to_string(), "d".to_string()], 5);
    assert_eq!(pages, vec!["aaabb".to_string(), "ccccd".to_string()]);
    assert!(paginate(vec![], 5).is_empty());
    let long = paginate(vec!["toolong".to_string(), "x".to_string()], 3);
    assert_eq!(long, vec!["toolong".to_string(), "x".to_string()]);
    let bytes = paginate(vec!["é".to_string(), "é".to_string(), "é".to_string()], 4);
    assert_eq!(bytes, vec!["éé".to_string(), "é".to_string()]);
}

#[test]
fn paged_list_writes_each_object() {
    let pages = create_paged_list(vec![1u64, 22, 333], |n: &u64| format!("{n};"), 6);
    assert_eq!(pages, vec!["1;22;".to_string(), "333;".to_string()]);
}

#[test]
fn sort_by_date_puts_the_most_recent_first() {
    let sorted = sort_by_date(vec![(1, 10), (2, 30), (3, 20), (4, 30)]);
    assert_eq!(sorted, vec![(2, 30), (4, 30), (3, 20), (1, 10)]);
    assert!(sort_by_date(vec![]).is_empty());
}

#[test]
fn dates_read_as_the_start_of_the_day() {
    assert_eq!(parse_date("25/12/2020"), Some(1608854400));
    assert_eq!(parse_date("01/01/1970"), Some(0));
    assert_eq!(parse_date("2020-12-25"), None);
    assert_eq!(parse_date("32/01/2020"), None);
}

#[test]
fn decimal_numbers_read_like_from_str() {
    assert_eq!(parse_u64("0"), Some(0));
    assert_eq!(parse_u64("+42"), Some(42));
    assert_eq!(parse_u64("007"), Some(7));
    assert_eq!(parse_u64("18446744073709551615"), Some(u64::MAX));
    assert_eq!(parse_u64("18446744073709551616"), None);
    assert_eq!(parse_u64("99999999999999999999x"), None);
    assert_eq!(parse_u64(""), None);
    assert_eq!(parse_u64("+"), None);
    assert_eq!(parse_u64("-1"), None);
    assert_eq!(parse_u64(" 1"), None);
    assert_eq!(parse_u64("1a"), None);
    for s in ["0", "+42", "12x", "18446744073709551616", "", "+", "٣"] {
        assert_eq!(parse_u64(s), s.parse::<u64>().ok());
    }
}
