//! The two names that a run takes from its surroundings: the name of the
//! level, from the server's properties, and a player's identifier, from the
//! name of a stat file.

use crate::text::{
    begins_with, chars_of, find_char, is_space, lemma_position_bounds, part_of, position_from,
    trim_bounds, trimmed,
};
use vstd::prelude::*;
use vstd::string::{StrSliceExecFns, StringExecFns};

verus! {

/// Why no level name was found.
#[derive(Clone, Copy, Debug, PartialEq, Eq, Structural)]
pub enum ConfigError {
    /// No line of the properties begins with `level-name`.
    MissingLevelName,
}

/// The bounds of the first line at or after `start` that begins with
/// `level-name`, where there is one. Lines end at a line feed.
pub open spec fn level_line(s: Seq<char>, start: int) -> Option<(int, int)>
    decreases s.len() - start,
    when 0 <= start <= s.len()
    via level_line_decreases
{
    let end = position_from(s, '\n', start);
    if "level-name"@.is_prefix_of(s.subrange(start, end)) {
        Some((start, end))
    } else if end >= s.len() {
        None
    } else {
        level_line(s, end + 1)
    }
}

#[via_fn]
proof fn level_line_decreases(s: Seq<char>, start: int) {
    lemma_position_bounds(s, '\n', start);
}

/// The value of a line of the form `key=value`: what stands between the
/// first `=` and the next one, or the end of the line; `world` where the
/// line has no `=`.
pub open spec fn line_value(line: Seq<char>) -> Seq<char> {
    let first = position_from(line, '=', 0);
    if first >= line.len() {
        "world"@
    } else {
        line.subrange(first + 1, position_from(line, '=', first + 1))
    }
}

/// The level name that the properties give: the value of the first line
/// that begins with `level-name`, without the white space around it.
pub open spec fn level_name(properties: Seq<char>) -> Option<Seq<char>> {
    match level_line(properties, 0) {
        Some((start, end)) => Some(trimmed(line_value(properties.subrange(start, end)))),
        None => None,
    }
}

/// The identifier that the name of a stat file gives: what stands before
/// its first dot.
pub open spec fn identifier_in(file_name: Seq<char>) -> Seq<char> {
    file_name.subrange(0, position_from(file_name, '.', 0))
}

/// Reads the level name off the text of the server's properties.
pub fn get_level_name(properties: &str) -> (result: Result<String, ConfigError>)
    ensures
        match result {
            Ok(name) => level_name(properties@) == Some(name@),
            Err(_) => level_name(properties@) is None,
        },
{
    let chars = chars_of(properties);
    let prefix = chars_of("level-name");
    let mut start: usize = 0;
    loop
        invariant
            chars@ == properties@,
            prefix@ == "level-name"@,
            start <= chars@.len(),
            level_line(chars@, 0) == level_line(chars@, start as int),
        decreases chars@.len() - start,
    {
        assert(chars@.take(chars@.len() as int) =~= chars@);
        let end = find_char(&chars, '\n', start, chars.len());
        if begins_with(&chars, start, end, &prefix) {
            let line = part_of(&chars, start, end);
            assert(line@.take(line@.len() as int) =~= line@);
            let first = find_char(&line, '=', 0, line.len());
            if first >= line.len() {
                proof {
                    reveal_strlit("world");
                    assert(!is_space("world"@[0]) && !is_space("world"@.last()));
                }
                return Ok(String::from_str("world"));
            }
            let second = find_char(&line, '=', first + 1, line.len());
            let value = part_of(&line, first + 1, second);
            let (from, to) = trim_bounds(&value);
            let name = properties.substring_char(start + first + 1 + from, start + first + 1 + to);
            assert(name@ =~= value@.subrange(from as int, to as int));
            return Ok(String::from_str(name));
        }
        if end >= chars.len() {
            return Err(ConfigError::MissingLevelName);
        }
        start = end + 1;
    }
}

/// Reads a player's identifier off the name of a stat file.
pub fn identifier_of(file_name: &str) -> (identifier: String)
    ensures
        identifier@ == identifier_in(file_name@),
{
    let chars = chars_of(file_name);
    assert(chars@.take(chars@.len() as int) =~= chars@);
    let dot = find_char(&chars, '.', 0, chars.len());
    String::from_str(file_name.substring_char(0, dot))
}

} // verus!
