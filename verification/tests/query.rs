use crystarium::query::{chars_of, page_of_query};

fn by_std(query: &str) -> i16 {
    query.split("page=").last().unwrap().parse::<i16>().unwrap_or(1)
}

#[test]
fn page_number_is_read_behind_the_last_marker() {
    assert_eq!(page_of_query("page=3"), 3);
    assert_eq!(page_of_query("a=1&page=12"), 12);
    assert_eq!(page_of_query("page=2&page=7"), 7);
    assert_eq!(page_of_query("page=page=4"), 4);
    assert_eq!(page_of_query("ppage=5"), 5);
    assert_eq!(page_of_query("5"), 5);
    assert_eq!(page_of_query("page=-3"), -3);
    assert_eq!(page_of_query("page=+3"), 3);
    assert_eq!(page_of_query("page=007"), 7);
    assert_eq!(page_of_query("page=32767"), 32767);
    assert_eq!(page_of_query("page=-32768"), -32768);
}

#[test]
fn page_number_defaults_to_one() {
    assert_eq!(page_of_query(""), 1);
    assert_eq!(page_of_query("page="), 1);
    assert_eq!(page_of_query("page=x"), 1);
    assert_eq!(page_of_query("page=3&a=1"), 1);
    assert_eq!(page_of_query("page= 3"), 1);
    assert_eq!(page_of_query("page=-"), 1);
    assert_eq!(page_of_query("page=+"), 1);
    assert_eq!(page_of_query("page=+-3"), 1);
    assert_eq!(page_of_query("page=32768"), 1);
    assert_eq!(page_of_query("page=-32769"), 1);
    assert_eq!(page_of_query("page=99999999999999999999"), 1);
    assert_eq!(page_of_query("page=٣"), 1);
}

#[test]
fn page_number_agrees_with_the_standard_parser() {
    let samples = [
        "", "page", "page=", "page=0", "page=1", "page=-0", "page=+0", "page=65535", "page=65536",
        "page=32768", "page=-32768", "page=-32769", "page=1e3", "page=12page=", "page=12page=13",
        "pagepage=9", "x", "-", "+", "--1", "page=3 ", "é=page=4", "page=4é", "page=000000000000012",
    ];
    for query in samples {
        assert_eq!(page_of_query(query), by_std(query), "{query:?}");
    }
}

#[test]
fn characters_are_listed_in_order() {
    assert_eq!(chars_of("aé=3"), vec!['a', 'é', '=', '3']);
    assert!(chars_of("").is_empty());
}
