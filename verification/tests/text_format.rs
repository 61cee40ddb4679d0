use lru_cache::error::CacheError;
use lru_cache::lru::text::{decode_lines, encode_lines};
use lru_cache::lru::traits::CacheTrait;
use lru_cache::lru::Cache;

fn pair(key: &str, value: &str) -> (String, String) {
    (key.to_string(), value.to_string())
}

#[test]
fn empty_document_holds_no_record() {
    assert_eq!(decode_lines("").unwrap(), Vec::<(String, String)>::new());
}

#[test]
fn one_line_per_record() {
    let records = decode_lines("a\t1\nb\t2\nc\t3\n").unwrap();
    assert_eq!(records, vec![pair("a", "1"), pair("b", "2"), pair("c", "3")]);
}

#[test]
fn last_line_needs_no_line_feed() {
    let records = decode_lines("a\t1\nb\t2").unwrap();
    assert_eq!(records, vec![pair("a", "1"), pair("b", "2")]);
}

#[test]
fn empty_lines_are_skipped() {
    let records = decode_lines("\n\na\t1\n\n\nb\t2\n\n").unwrap();
    assert_eq!(records, vec![pair("a", "1"), pair("b", "2")]);
}

#[test]
fn carriage_return_before_line_feed_is_dropped() {
    let records = decode_lines("a\t1\r\nb\t2\r\n\r\n").unwrap();
    assert_eq!(records, vec![pair("a", "1"), pair("b", "2")]);
}

#[test]
fn carriage_return_at_the_very_end_is_kept() {
    let records = decode_lines("a\t1\r").unwrap();
    assert_eq!(records, vec![pair("a", "1\r")]);
}

#[test]
fn only_one_carriage_return_is_dropped() {
    let records = decode_lines("a\t1\r\r\n").unwrap();
    assert_eq!(records, vec![pair("a", "1\r")]);
}

#[test]
fn key_and_value_may_be_empty() {
    let records = decode_lines("\t\n\tv\nk\t\n").unwrap();
    assert_eq!(records, vec![pair("", ""), pair("", "v"), pair("k", "")]);
}

#[test]
fn text_beyond_ascii_is_kept() {
    let records = decode_lines("clé\tvaleur é\nключ\t値\n").unwrap();
    assert_eq!(records, vec![pair("clé", "valeur é"), pair("ключ", "値")]);
}

#[test]
fn line_without_tab_is_a_parse_error() {
    let result = decode_lines("a\t1\nnothing here\nb\t2\n");
    assert!(matches!(result, Err(CacheError::ParseError(_))));
}

#[test]
fn line_with_two_tabs_is_a_parse_error() {
    let result = decode_lines("a\t1\t2\n");
    assert!(matches!(result, Err(CacheError::ParseError(_))));
}

#[test]
fn lone_carriage_return_line_is_a_parse_error() {
    let result = decode_lines("a\t1\n\r");
    assert!(matches!(result, Err(CacheError::ParseError(_))));
}

#[test]
fn parse_error_says_what_is_wrong() {
    match decode_lines("no tab") {
        Err(error) => assert_eq!(error.to_string(), "Erreur de parsing: Format de ligne invalide"),
        Ok(_) => panic!("a line without a tab was read"),
    }
}

#[test]
fn records_are_written_one_per_line() {
    let content = encode_lines(&vec![pair("a", "1"), pair("b", "2")]);
    assert_eq!(content, "a\t1\nb\t2\n");
}

#[test]
fn no_record_gives_an_empty_document() {
    assert_eq!(encode_lines(&Vec::new()), "");
}

#[test]
fn written_records_are_read_back() {
    let records = vec![pair("un", "1"), pair("", "x y"), pair("clé", ""), pair("d", "4")];
    assert_eq!(decode_lines(&encode_lines(&records)).unwrap(), records);
}

#[test]
fn error_texts() {
    assert_eq!(
        CacheError::CapacityError("zéro".to_string()).to_string(),
        "Erreur de capacité: zéro"
    );
    assert_eq!(CacheError::StorageError("disque".to_string()).to_string(), "Erreur I/O: disque");
    assert_eq!(CacheError::ParseError("ligne".to_string()).to_string(), "Erreur de parsing: ligne");
}

#[test]
fn cache_is_written_least_recent_first() {
    let mut cache: Cache<u32, String> = Cache::new(3);
    cache.put(1, "100".to_string());
    cache.put(2, "200".to_string());
    cache.put(3, "300".to_string());
    cache.get(&1);
    assert_eq!(
        cache.records(),
        vec![pair("2", "200"), pair("3", "300"), pair("1", "100")]
    );
    assert_eq!(cache.persist(), "2\t200\n3\t300\n1\t100\n");
}

#[test]
fn written_cache_is_read_back() {
    let mut cache: Cache<String, String> = Cache::new(3);
    cache.put("a".to_string(), "1".to_string());
    cache.put("b".to_string(), "2".to_string());
    cache.put("c".to_string(), "3".to_string());
    cache.put("d".to_string(), "4".to_string());
    cache.get(&"b".to_string());
    let records = decode_lines(&cache.persist()).unwrap();
    let mut again: Cache<String, String> = Cache::new_persistent(3, Some(records));
    assert_eq!(again.persist(), cache.persist());
    assert_eq!(again.get(&"a".to_string()), None);
    assert_eq!(again.get(&"c".to_string()), Some(&"3".to_string()));
    assert_eq!(again.get(&"d".to_string()), Some(&"4".to_string()));
    assert_eq!(again.get(&"b".to_string()), Some(&"2".to_string()));
}

fn records_by_std(content: &str) -> Option<Vec<(String, String)>> {
    let mut records = Vec::new();
    for line in content.lines() {
        if line.is_empty() {
            continue;
        }
        let parts: Vec<&str> = line.split('\t').collect();
        if parts.len() != 2 {
            return None;
        }
        records.push((parts[0].to_string(), parts[1].to_string()));
    }
    Some(records)
}

#[test]
fn reading_agrees_with_lines_and_split_of_std() {
    let pieces = ["a", "\t", "\n", "\r", "é", ""];
    let mut count = 0;
    for a in pieces {
        for b in pieces {
            for c in pieces {
                for d in pieces {
                    for e in pieces {
                        let content = format!("{}{}{}{}{}", a, b, c, d, e);
                        assert_eq!(decode_lines(&content).ok(), records_by_std(&content), "{:?}", content);
                        count += 1;
                    }
                }
            }
        }
    }
    assert_eq!(count, 7776);
}
