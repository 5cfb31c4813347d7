use stat_rank::level::{get_level_name, identifier_of, ConfigError};

#[test]
fn level_name_is_value_of_first_matching_line() {
    let properties = "#Minecraft server properties\nmotd=A Server\nlevel-name=my world\nlevel-name=other\npvp=true\n";
    assert_eq!(get_level_name(properties), Ok("my world".to_string()));
}

#[test]
fn level_name_is_trimmed() {
    assert_eq!(get_level_name("level-name =  spaced out \t\r\nx=1"), Ok("spaced out".to_string()));
    assert_eq!(get_level_name("level-name=\u{3000}wide\u{a0}"), Ok("wide".to_string()));
    assert_eq!(get_level_name("level-name=   "), Ok("".to_string()));
}

#[test]
fn level_name_ends_at_second_equals_sign() {
    assert_eq!(get_level_name("level-name=a=b=c"), Ok("a".to_string()));
    assert_eq!(get_level_name("level-name=="), Ok("".to_string()));
}

#[test]
fn level_name_defaults_to_world_without_equals_sign() {
    assert_eq!(get_level_name("a=b\nlevel-name\nc=d"), Ok("world".to_string()));
    assert_eq!(get_level_name("level-name-of-sorts"), Ok("world".to_string()));
}

#[test]
fn level_name_line_is_found_by_its_start() {
    assert_eq!(get_level_name("level-names=plural"), Ok("plural".to_string()));
    assert_eq!(get_level_name(" level-name=indented\nlevel-name=flush"), Ok("flush".to_string()));
    assert_eq!(get_level_name("Level-Name=upper\n"), Err(ConfigError::MissingLevelName));
}

#[test]
fn missing_level_name_is_an_error() {
    assert_eq!(get_level_name(""), Err(ConfigError::MissingLevelName));
    assert_eq!(get_level_name("motd=x\npvp=true"), Err(ConfigError::MissingLevelName));
    assert_eq!(get_level_name("motd=level-name=x"), Err(ConfigError::MissingLevelName));
    assert_eq!(get_level_name("\n\n\n"), Err(ConfigError::MissingLevelName));
}

#[test]
fn level_name_on_last_line_without_line_feed() {
    assert_eq!(get_level_name("a=1\nlevel-name=end"), Ok("end".to_string()));
    assert_eq!(get_level_name("level-name=\u{e9}t\u{e9}\n"), Ok("\u{e9}t\u{e9}".to_string()));
}

#[test]
fn identifier_is_what_stands_before_the_first_dot() {
    assert_eq!(identifier_of("069a79f4-44e9-4726-a5be-fca90e38aaf5.json"), "069a79f4-44e9-4726-a5be-fca90e38aaf5");
    assert_eq!(identifier_of("a.b.c"), "a");
    assert_eq!(identifier_of("plain"), "plain");
    assert_eq!(identifier_of(".hidden"), "");
    assert_eq!(identifier_of(""), "");
    assert_eq!(identifier_of("\u{fc}ber.json"), "\u{fc}ber");
}
