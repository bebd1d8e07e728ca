//! First-run setup: whether a stored configuration can be used, reading the user's
//! choice of entertainment group, and the configuration that the choice gives.
use vstd::prelude::*;

use crate::decimal::{self, parse_index, parse_light_id, ParseFailure};
use crate::hue::{BridgeConfig, Group};

verus! {

/// A stored configuration is used as it is only when it holds a client key.
pub fn config_is_complete(config: &BridgeConfig) -> (complete: bool)
    ensures
        complete == (config.clientkey@.len() > 0),
{
    !config.clientkey.as_str().is_empty()
}

/// The numeric ids among a group's light ids, in order; an id that is not a `u16`
/// number is left out.
pub open spec fn numeric_ids(names: Seq<String>) -> Seq<u16>
    decreases names.len(),
{
    if names.len() == 0 {
        Seq::empty()
    } else {
        let rest = numeric_ids(names.drop_last());
        match decimal::parsed_unsigned(names.last()@, 0xffff) {
            Some(v) => rest.push(v as u16),
            None => rest,
        }
    }
}

/// The ids, for streaming, of the group's lights.
pub fn light_ids_of(group: &Group) -> (ids: Vec<u16>)
    ensures
        ids@ == numeric_ids(group.lights@),
{
    let mut ids: Vec<u16> = Vec::new();
    let n = group.lights.len();
    let mut i: usize = 0;
    assert(group.lights@.take(0) =~= Seq::<String>::empty());
    while i < n
        invariant
            n == group.lights@.len(),
            i <= n,
            ids@ == numeric_ids(group.lights@.take(i as int)),
        decreases n - i,
    {
        assert(group.lights@.take(i + 1).drop_last() =~= group.lights@.take(i as int));
        match parse_light_id(group.lights[i].as_str()) {
            Some(id) => ids.push(id),
            None => {},
        }
        i = i + 1;
    }
    assert(group.lights@.take(n as int) =~= group.lights@);
    ids
}

/// Why setup cannot go on.
#[derive(Debug, PartialEq, Eq)]
pub enum SetupError {
    /// The bridge has no entertainment areas; one has to be made in the Hue app first.
    NoEntertainmentGroups,
    /// The number entered is not a group's.
    InvalidSelection,
    /// What was entered is not a number; the failure says why.
    UnreadableSelection(ParseFailure),
}

/// Setup goes on only where the bridge has at least one entertainment area.
pub fn require_groups(groups: &Vec<Group>) -> (res: Result<(), SetupError>)
    ensures
        groups@.len() > 0 <==> res is Ok,
        res matches Err(e) ==> e == SetupError::NoEntertainmentGroups,
{
    if groups.len() == 0 {
        Err(SetupError::NoEntertainmentGroups)
    } else {
        Ok(())
    }
}

/// A white-space character by Unicode's White_Space property: tab, line feed, vertical
/// tab, form feed, carriage return, space, next line, no-break space, ogham space mark,
/// the spaces U+2000 to U+200A, line separator, paragraph separator, narrow no-break
/// space, medium mathematical space and ideographic space.
pub open spec fn is_white(c: char) -> bool {
    let v = c as int;
    ||| 9 <= v <= 13
    ||| v == 0x20
    ||| v == 0x85
    ||| v == 0xa0
    ||| v == 0x1680
    ||| 0x2000 <= v <= 0x200a
    ||| v == 0x2028
    ||| v == 0x2029
    ||| v == 0x202f
    ||| v == 0x205f
    ||| v == 0x3000
}

/// `s` less its leading white space.
pub open spec fn trim_start_white(s: Seq<char>) -> Seq<char>
    decreases s.len(),
{
    if s.len() > 0 && is_white(s[0]) {
        trim_start_white(s.drop_first())
    } else {
        s
    }
}

/// `s` less its trailing white space.
pub open spec fn trim_end_white(s: Seq<char>) -> Seq<char>
    decreases s.len(),
{
    if s.len() > 0 && is_white(s.last()) {
        trim_end_white(s.drop_last())
    } else {
        s
    }
}

/// `s` less its leading and trailing white space.
pub open spec fn trim_white(s: Seq<char>) -> Seq<char> {
    trim_end_white(trim_start_white(s))
}

/// `str::trim`: `text` without its leading and trailing white space, white space being
/// the characters of Unicode's White_Space property.
#[verifier::external_body]
fn trim_text(text: &str) -> (t: &str)
    ensures
        t@ == trim_white(text@),
{
    text.trim()
}

/// The group number in an entry that is already trimmed, or why it is none.
pub fn selection_in(entry: &str) -> (index: Result<usize, SetupError>)
    ensures
        match index {
            Ok(i) => decimal::parse_outcome(entry@, usize::MAX as int) == Ok::<int, ParseFailure>(
                i as int,
            ),
            Err(e) => exists|f: ParseFailure|
                decimal::parse_outcome(entry@, usize::MAX as int) == Err::<int, ParseFailure>(f)
                    && e == SetupError::UnreadableSelection(f),
        },
{
    match parse_index(entry) {
        Ok(i) => Ok(i),
        Err(f) => Err(SetupError::UnreadableSelection(f)),
    }
}

/// The group number that the user typed, white space around it ignored, or why it is
/// none.
pub fn read_selection(input: &str) -> (index: Result<usize, SetupError>)
    ensures
        match index {
            Ok(i) => decimal::parse_outcome(trim_white(input@), usize::MAX as int) == Ok::<
                int,
                ParseFailure,
            >(i as int),
            Err(e) => exists|f: ParseFailure|
                decimal::parse_outcome(trim_white(input@), usize::MAX as int) == Err::<
                    int,
                    ParseFailure,
                >(f) && e == SetupError::UnreadableSelection(f),
        },
{
    selection_in(trim_text(input))
}

/// The configuration for the group numbered `index` in `groups`: the bridge's address,
/// our credentials, the group's id and the numeric ids of its lights.
pub fn config_for_group(
    ip: String,
    username: String,
    clientkey: String,
    groups: &Vec<Group>,
    index: usize,
) -> (config: Result<BridgeConfig, SetupError>)
    ensures
        index >= groups@.len() <==> config is Err,
        config matches Err(e) ==> e == SetupError::InvalidSelection,
        config matches Ok(c) ==> {
            &&& c.ip == ip
            &&& c.username == username
            &&& c.clientkey == clientkey
            &&& c.group_id == groups@[index as int].id
            &&& c.light_ids@ == numeric_ids(groups@[index as int].lights@)
        },
{
    if index >= groups.len() {
        return Err(SetupError::InvalidSelection);
    }
    let group = &groups[index];
    let light_ids = light_ids_of(group);
    Ok(BridgeConfig { ip, username, clientkey, group_id: group.id.clone(), light_ids })
}

} // verus!
