use stat_rank::identity::{read_cache, read_list, IdMap, LoadError};

#[test]
fn whitelist_with_entry_lacking_uuid_is_discarded_whole() {
    let mut names = IdMap::new();
    let whitelist = "[{\"uuid\":\"u1\",\"name\":\"Alex\"},{\"name\":\"Ghost\"},{\"uuid\":\"u3\",\"name\":\"Eve\"}]";
    assert_eq!(names.load_whitelist(whitelist), Err(LoadError::MissingUuid));
    assert!(!names.contains("u1"));
    assert!(!names.contains("u3"));
    assert_eq!(names.load_user_name_cache("{\"u2\":\"Bob\"}"), Ok(()));
    assert_eq!(names.load_user_name("[{\"uuid\":\"u4\",\"name\":\"Dan\"}]"), Ok(()));
    assert_eq!(names.get("u2"), Some("Bob"));
    assert_eq!(names.get("u4"), Some("Dan"));
    assert_eq!(names.get("u1"), None);
}

#[test]
fn failed_source_leaves_earlier_entries() {
    let mut names = IdMap::new();
    assert_eq!(names.load_whitelist("[{\"uuid\":\"u1\",\"name\":\"Alex\"}]"), Ok(()));
    assert_eq!(names.load_user_name("[{\"uuid\":\"u1\",\"name\":\"New\"},{\"uuid\":\"u2\"}]"), Err(LoadError::MissingName));
    assert_eq!(names.get("u1"), Some("Alex"));
    assert_eq!(names.get("u2"), None);
    assert_eq!(names.load_user_name_cache("{\"u1\":\"Cache\",\"u5\":5}"), Err(LoadError::MissingName));
    assert_eq!(names.get("u1"), Some("Alex"));
    assert_eq!(names.load_user_name_cache("{"), Err(LoadError::MalformedPayload));
    assert_eq!(names.load_whitelist("nonsense"), Err(LoadError::MalformedPayload));
    assert_eq!(names.load_user_name("[1,"), Err(LoadError::MalformedPayload));
    assert_eq!(names.get("u1"), Some("Alex"));
}

#[test]
fn whitelist_fills_only_what_is_missing() {
    let mut names = IdMap::new();
    names.insert("u1".to_string(), "Old".to_string());
    assert_eq!(
        names.load_whitelist("[{\"uuid\":\"u1\",\"name\":\"New\"},{\"uuid\":\"u2\",\"name\":\"Two\"},{\"uuid\":\"u2\",\"name\":\"Again\"}]"),
        Ok(())
    );
    assert_eq!(names.get("u1"), Some("Old"));
    assert_eq!(names.get("u2"), Some("Two"));
}

#[test]
fn later_sources_overwrite() {
    let mut names = IdMap::new();
    assert_eq!(names.load_whitelist("[{\"uuid\":\"u1\",\"name\":\"White\"},{\"uuid\":\"u2\",\"name\":\"White2\"},{\"uuid\":\"u3\",\"name\":\"White3\"}]"), Ok(()));
    assert_eq!(names.load_user_name_cache("{\"u1\":\"Cache\",\"u2\":\"Cache2\"}"), Ok(()));
    assert_eq!(names.load_user_name("[{\"uuid\":\"u1\",\"name\":\"First\"},{\"uuid\":\"u1\",\"name\":\"Registry\"}]"), Ok(()));
    assert_eq!(names.get("u1"), Some("Registry"));
    assert_eq!(names.get("u2"), Some("Cache2"));
    assert_eq!(names.get("u3"), Some("White3"));
    assert!(names.contains("u3"));
    assert!(!names.contains("u4"));
}

#[test]
fn uuid_is_looked_at_before_name() {
    let mut names = IdMap::new();
    assert_eq!(names.load_user_name("[{}]"), Err(LoadError::MissingUuid));
    assert_eq!(names.load_user_name("[{\"uuid\":5,\"name\":\"x\"}]"), Err(LoadError::MissingUuid));
    assert_eq!(names.load_user_name("[{\"uuid\":\"u\",\"name\":null}]"), Err(LoadError::MissingName));
    assert_eq!(names.load_user_name("[7]"), Err(LoadError::MissingUuid));
}

#[test]
fn source_of_another_kind_gives_no_entries() {
    let mut names = IdMap::new();
    assert_eq!(names.load_whitelist("{\"uuid\":\"u1\",\"name\":\"Alex\"}"), Ok(()));
    assert_eq!(names.load_user_name_cache("[\"a\",\"b\"]"), Ok(()));
    assert_eq!(names.load_user_name("{}"), Ok(()));
    assert!(!names.contains("u1"));
}

#[test]
fn read_list_and_cache_give_pairs_in_order() {
    let list = json::parse("[{\"uuid\":\"b\",\"name\":\"B\",\"x\":1},{\"name\":\"A\",\"uuid\":\"a\"}]").unwrap();
    assert_eq!(
        read_list(&list),
        Ok(vec![("b".to_string(), "B".to_string()), ("a".to_string(), "A".to_string())])
    );
    let cache = json::parse("{\"z\":\"Z\",\"y\":\"Y\"}").unwrap();
    assert_eq!(
        read_cache(&cache),
        Ok(vec![("z".to_string(), "Z".to_string()), ("y".to_string(), "Y".to_string())])
    );
    let bad = json::parse("{\"z\":\"Z\",\"y\":[]}").unwrap();
    assert_eq!(read_cache(&bad), Err(LoadError::MissingName));
}

#[test]
fn merge_with_and_without_overwrite() {
    let mut names = IdMap::new();
    names.merge(vec![("a".to_string(), "1".to_string()), ("a".to_string(), "2".to_string())], false);
    assert_eq!(names.get("a"), Some("1"));
    names.merge(vec![("a".to_string(), "3".to_string()), ("a".to_string(), "4".to_string())], true);
    assert_eq!(names.get("a"), Some("4"));
}

#[test]
fn default_table_is_empty() {
    let names = IdMap::default();
    assert!(!names.contains("u1"));
    assert_eq!(names.get(""), None);
}
