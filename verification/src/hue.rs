//! The Hue bridge: its configuration, the addresses of its API, registration,
//! entertainment groups, stream activation, and the entertainment streaming packets.
use vstd::prelude::*;
use vstd::string::*;

use crate::text::{self, contains_str, string_le};

verus! {

/// What the bridge needs from us: its address, our credentials, the entertainment group
/// to stream to and the numeric ids of that group's lights.
#[derive(Clone)]
pub struct BridgeConfig {
    pub ip: String,
    pub username: String,
    pub clientkey: String,
    pub group_id: String,
    pub light_ids: Vec<u16>,
}

/// A group of lights as the bridge lists it.
pub struct Group {
    pub id: String,
    pub name: String,
    pub lights: Vec<String>,
    pub group_type: String,
}

/// `http://{ip}/api`: where a new user is registered.
pub fn registration_url(ip: &str) -> (url: String)
    ensures
        url@ == "http://"@ + ip@ + "/api"@,
{
    let mut url = String::from_str("http://");
    url.append(ip);
    url.append("/api");
    url
}

/// `http://{ip}/api/{username}/groups`: the list of the bridge's groups.
pub fn groups_url(ip: &str, username: &str) -> (url: String)
    ensures
        url@ == "http://"@ + ip@ + "/api/"@ + username@ + "/groups"@,
{
    let mut url = String::from_str("http://");
    url.append(ip);
    url.append("/api/");
    url.append(username);
    url.append("/groups");
    url
}

/// `https://{ip}/api/{username}/groups/{group_id}`: the configured group, on which
/// streaming is switched on and off.
pub fn group_url(config: &BridgeConfig) -> (url: String)
    ensures
        url@ == "https://"@ + config.ip@ + "/api/"@ + config.username@ + "/groups/"@
            + config.group_id@,
{
    let mut url = String::from_str("https://");
    url.append(config.ip.as_str());
    url.append("/api/");
    url.append(config.username.as_str());
    url.append("/groups/");
    url.append(config.group_id.as_str());
    url
}

/// `{ip}:2100`: the bridge's entertainment streaming endpoint.
pub fn stream_address(ip: &str) -> (addr: String)
    ensures
        addr@ == ip@ + ":2100"@,
{
    let mut addr = String::from_str(ip);
    addr.append(":2100");
    addr
}


/// The address of the bridge that discovery reported first, if it reported any.
pub fn first_bridge_ip(mut addresses: Vec<String>) -> (ip: Option<String>)
    ensures
        addresses@.len() == 0 ==> ip is None,
        addresses@.len() > 0 ==> ip == Some(addresses@[0]),
{
    if addresses.len() == 0 {
        None
    } else {
        Some(addresses.remove(0))
    }
}

/// The part of a registration reply that reports success.
pub struct RegistrationSuccess {
    pub username: String,
    pub clientkey: Option<String>,
}

/// One item of the bridge's reply to a registration request.
pub struct RegistrationResponse {
    pub success: Option<RegistrationSuccess>,
}

/// The credentials that a reply carries: the first item's user name and client key,
/// when that item reports success with a client key.
pub open spec fn reply_credentials(items: Seq<RegistrationResponse>) -> Option<(Seq<char>, Seq<char>)> {
    if items.len() > 0 && items[0].success is Some && items[0].success->0.clientkey is Some {
        Some((items[0].success->0.username@, items[0].success->0.clientkey->0@))
    } else {
        None
    }
}

/// The user name and client key of a reply, if it grants them.
pub fn credentials_from(items: &Vec<RegistrationResponse>) -> (creds: Option<(String, String)>)
    ensures
        match creds {
            Some((user, key)) => reply_credentials(items@) == Some((user@, key@)),
            None => reply_credentials(items@) is None,
        },
{
    if items.len() == 0 {
        return None;
    }
    match &items[0].success {
        Some(success) => match &success.clientkey {
            Some(key) => Some((success.username.clone(), key.clone())),
            None => None,
        },
        None => None,
    }
}

/// How many times registration is tried, one second apart, while the user is asked
/// to press the bridge's link button.
pub const REGISTRATION_ATTEMPTS: u32 = 30;

/// What to do after a registration attempt.
pub enum RegistrationStep {
    /// The bridge granted this user name and client key.
    Registered(String, String),
    /// Wait a second, then try again.
    PauseThenRetry,
    /// Wait a second, then give up: the button was not pressed in time, or no client
    /// key was granted.
    PauseThenGiveUp,
}

/// The progress of registering with the bridge.
pub struct Registration {
    pub attempts: u32,
}

impl Registration {
    pub fn new() -> (reg: Registration)
        ensures
            reg.attempts == 0,
    {
        Registration { attempts: 0 }
    }

    /// Takes the outcome of one attempt: the reply's items, or `None` where the request
    /// failed or its reply could not be read.
    pub fn attempted(&mut self, reply: Option<&Vec<RegistrationResponse>>) -> (step: RegistrationStep)
        requires
            old(self).attempts < REGISTRATION_ATTEMPTS,
        ensures
            final(self).attempts == old(self).attempts + 1,
            match step {
                RegistrationStep::Registered(user, key) => reply is Some && reply_credentials(
                    reply->0@,
                ) == Some((user@, key@)),
                RegistrationStep::PauseThenRetry => (reply is None || reply_credentials(reply->0@) is None)
                    && final(self).attempts < REGISTRATION_ATTEMPTS,
                RegistrationStep::PauseThenGiveUp => (reply is None || reply_credentials(reply->0@) is None)
                    && final(self).attempts == REGISTRATION_ATTEMPTS,
            },
    {
        self.attempts = self.attempts + 1;
        let creds = match reply {
            Some(items) => credentials_from(items),
            None => None,
        };
        match creds {
            Some((user, key)) => RegistrationStep::Registered(user, key),
            None => {
                if self.attempts < REGISTRATION_ATTEMPTS {
                    RegistrationStep::PauseThenRetry
                } else {
                    RegistrationStep::PauseThenGiveUp
                }
            },
        }
    }
}

/// The bridge answered a stream activation request with an error: its reply's text
/// mentions `error`.
pub fn activation_failed(reply: &str) -> (failed: bool)
    ensures
        failed == text::occurs_in(reply@, "error"@),
{
    contains_str(reply, "error")
}


/// `group` is an entertainment area.
pub open spec fn is_entertainment(group: Group) -> bool {
    group.group_type@ == "Entertainment"@
}

/// The groups of a listing keyed by id, each given its key as its id, that are
/// entertainment areas, in the listing's order.
pub open spec fn entertainment_in(entries: Seq<(String, Group)>) -> Seq<Group>
    decreases entries.len(),
{
    if entries.len() == 0 {
        Seq::empty()
    } else {
        let rest = entertainment_in(entries.drop_last());
        let (id, g) = entries.last();
        let labelled = Group { id: id, name: g.name, lights: g.lights, group_type: g.group_type };
        if is_entertainment(labelled) {
            rest.push(labelled)
        } else {
            rest
        }
    }
}

/// The groups are in order of name.
pub open spec fn sorted_by_name(groups: Seq<Group>) -> bool {
    forall|i: int, j: int|
        0 <= i < j < groups.len() ==> text::lex_le(#[trigger] groups[i].name@, #[trigger] groups[j].name@)
}

/// `out` places `input`'s groups at the positions `perm` gives: `out[i]` is
/// `input[perm[i]]`, each group of `input` used once, and groups with equal names keep
/// their order.
pub open spec fn stable_arrangement(out: Seq<Group>, input: Seq<Group>, perm: Seq<int>) -> bool {
    &&& perm.len() == out.len()
    &&& input.len() == out.len()
    &&& forall|i: int| 0 <= i < perm.len() ==> 0 <= #[trigger] perm[i] < input.len()
    &&& forall|i: int| 0 <= i < perm.len() ==> out[i] == input[#[trigger] perm[i]]
    &&& forall|i: int, j: int|
        0 <= i < j < perm.len() ==> #[trigger] perm[i] != #[trigger] perm[j]
    &&& forall|i: int, j: int|
        0 <= i < j < perm.len() && out[i].name@ == out[j].name@ ==> #[trigger] perm[i]
            < #[trigger] perm[j]
}

/// `out` is `input` sorted by name, equal names keeping their order.
pub open spec fn stably_sorted(out: Seq<Group>, input: Seq<Group>) -> bool {
    sorted_by_name(out) && exists|perm: Seq<int>| stable_arrangement(out, input, perm)
}

/// Where a group named `name` goes among `groups`, which are in order of name:
/// after every group whose name sorts before or with it.
fn insertion_point(groups: &Vec<Group>, name: &String) -> (pos: usize)
    requires
        sorted_by_name(groups@),
    ensures
        pos <= groups@.len(),
        forall|i: int| 0 <= i < pos ==> text::lex_le(#[trigger] groups@[i].name@, name@),
        forall|i: int| pos <= i < groups@.len() ==> !text::lex_le(#[trigger] groups@[i].name@, name@),
{
    let n = groups.len();
    let mut pos: usize = 0;
    while pos < n
        invariant
            n == groups@.len(),
            pos <= n,
            sorted_by_name(groups@),
            forall|i: int| 0 <= i < pos ==> text::lex_le(#[trigger] groups@[i].name@, name@),
        decreases n - pos,
    {
        if !string_le(&groups[pos].name, name) {
            assert forall|i: int| pos <= i < groups@.len() implies !text::lex_le(
                #[trigger] groups@[i].name@,
                name@,
            ) by {
                if text::lex_le(groups@[i].name@, name@) {
                    assert(text::lex_le(groups@[pos as int].name@, groups@[i].name@) || pos == i);
                    text::lemma_lex_le_transitive(groups@[pos as int].name@, groups@[i].name@, name@);
                }
            }
            return pos;
        }
        pos = pos + 1;
    }
    pos
}

/// Puts `group` into `sorted`, after every group whose name sorts before or with it.
fn insert_sorted(sorted: &mut Vec<Group>, group: Group, Ghost(input): Ghost<Seq<Group>>, Ghost(perm): Ghost<Seq<int>>) -> (new_perm: Ghost<Seq<int>>)
    requires
        sorted_by_name(old(sorted)@),
        stable_arrangement(old(sorted)@, input, perm),
    ensures
        sorted_by_name(final(sorted)@),
        stable_arrangement(final(sorted)@, input.push(group), new_perm@),
{
    let pos = insertion_point(sorted, &group.name);
    let ghost old_s = sorted@;
    let ghost n = input.len() as int;
    let ghost g = group;
    sorted.insert(pos, group);
    let ghost p2 = perm.insert(pos as int, n);
    let ghost input2 = input.push(g);
    proof {
        let s2 = sorted@;
        assert(s2 == old_s.insert(pos as int, g));
        assert forall|i: int, j: int| 0 <= i < j < s2.len() implies text::lex_le(
            #[trigger] s2[i].name@,
            #[trigger] s2[j].name@,
        ) by {
            if j == pos {
                assert(s2[i] == old_s[i]);
            } else if i == pos {
                assert(s2[j] == old_s[j - 1]);
                text::lemma_lex_le_total(old_s[j - 1].name@, g.name@);
            } else {
                let oi = if i < pos { i } else { i - 1 };
                let oj = if j < pos { j } else { j - 1 };
                assert(s2[i] == old_s[oi]);
                assert(s2[j] == old_s[oj]);
                if oi == oj {
                    text::lemma_lex_le_reflexive(old_s[oi].name@);
                }
            }
        }
        assert(p2.len() == s2.len());
        assert forall|i: int| 0 <= i < p2.len() implies 0 <= #[trigger] p2[i] < input2.len() by {
            if i < pos {
                assert(p2[i] == perm[i]);
            } else if i > pos {
                assert(p2[i] == perm[i - 1]);
            }
        }
        assert forall|i: int| 0 <= i < p2.len() implies s2[i] == input2[#[trigger] p2[i]] by {
            if i < pos {
                assert(p2[i] == perm[i]);
                assert(s2[i] == old_s[i]);
            } else if i > pos {
                assert(p2[i] == perm[i - 1]);
                assert(s2[i] == old_s[i - 1]);
            }
        }
        assert forall|i: int, j: int| 0 <= i < j < p2.len() implies #[trigger] p2[i] != #[trigger] p2[j] by {
            let oi = if i < pos { i } else { i - 1 };
            let oj = if j < pos { j } else { j - 1 };
            if i != pos && j != pos {
                assert(p2[i] == perm[oi]);
                assert(p2[j] == perm[oj]);
                assert(perm[oi] != perm[oj]);
            } else if i == pos {
                assert(p2[j] == perm[oj]);
            } else {
                assert(p2[i] == perm[oi]);
            }
        }
        assert forall|i: int, j: int|
            0 <= i < j < p2.len() && s2[i].name@ == s2[j].name@ implies #[trigger] p2[i]
                < #[trigger] p2[j] by {
            let oi = if i < pos { i } else { i - 1 };
            let oj = if j < pos { j } else { j - 1 };
            if i != pos && j != pos {
                assert(p2[i] == perm[oi]);
                assert(p2[j] == perm[oj]);
                assert(s2[i] == old_s[oi]);
                assert(s2[j] == old_s[oj]);
            } else if i == pos {
                assert(s2[j] == old_s[oj]);
                text::lemma_lex_le_reflexive(g.name@);
                assert(false);
            } else {
                assert(p2[i] == perm[oi]);
            }
        }
    }
    Ghost(p2)
}

/// The entertainment areas of a listing of groups keyed by id, each given its key as
/// its id, sorted by name; groups of equal names keep the listing's order.
pub fn entertainment_groups(entries: Vec<(String, Group)>) -> (groups: Vec<Group>)
    ensures
        stably_sorted(groups@, entertainment_in(entries@)),
{
    let ghost all = entries@;
    let entertainment = String::from_str("Entertainment");
    let mut sorted: Vec<Group> = Vec::new();
    let ghost mut perm: Seq<int> = Seq::empty();
    assert(stable_arrangement(sorted@, entertainment_in(all.take(0)), perm)) by {
        assert(all.take(0) =~= Seq::<(String, Group)>::empty());
    }
    for entry in it: entries.into_iter()
        invariant
            it.seq() == all,
            entertainment@ == "Entertainment"@,
            sorted_by_name(sorted@),
            stable_arrangement(sorted@, entertainment_in(all.take(it.index() as int)), perm),
    {
        let ghost k = it.index() as int;
        let ghost before = entertainment_in(all.take(k));
        let (id, mut group) = entry;
        group.id = id;
        assert(all.take(k + 1).drop_last() =~= all.take(k));
        if group.group_type == entertainment {
            let Ghost(p) = insert_sorted(&mut sorted, group, Ghost(before), Ghost(perm));
            proof {
                perm = p;
            }
        }
    }
    assert(all.take(all.len() as int) =~= all);
    sorted
}


proof fn lemma_listing_is_entertainment(entries: Seq<(String, Group)>)
    ensures
        forall|i: int|
            0 <= i < entertainment_in(entries).len() ==> is_entertainment(
                #[trigger] entertainment_in(entries)[i],
            ),
        forall|i: int|
            0 <= i < entertainment_in(entries).len() ==> exists|k: int|
                0 <= k < entries.len() && (#[trigger] entertainment_in(entries)[i]).id == entries[k].0
                    && entertainment_in(entries)[i].name == entries[k].1.name,
    decreases entries.len(),
{
    if entries.len() > 0 {
        let init = entries.drop_last();
        lemma_listing_is_entertainment(init);
        let rest = entertainment_in(init);
        let all = entertainment_in(entries);
        assert forall|i: int| 0 <= i < all.len() implies exists|k: int|
            0 <= k < entries.len() && (#[trigger] all[i]).id == entries[k].0 && all[i].name
                == entries[k].1.name by {
            if i < rest.len() {
                let k = choose|k: int|
                    0 <= k < init.len() && (#[trigger] rest[i]).id == init[k].0 && rest[i].name
                        == init[k].1.name;
                assert(entries[k] == init[k]);
            } else {
                assert(all[i].id == entries[entries.len() - 1].0);
            }
        }
    }
}

/// The groups that `entertainment_groups` gives are all entertainment areas, each
/// carrying as its id the key under which the listing held a group of that name.
pub proof fn law_only_entertainment_areas(entries: Seq<(String, Group)>, groups: Seq<Group>)
    requires
        stably_sorted(groups, entertainment_in(entries)),
    ensures
        forall|i: int| 0 <= i < groups.len() ==> is_entertainment(#[trigger] groups[i]),
        forall|i: int|
            0 <= i < groups.len() ==> exists|k: int|
                0 <= k < entries.len() && (#[trigger] groups[i]).id == entries[k].0 && groups[i].name
                    == entries[k].1.name,
{
    lemma_listing_is_entertainment(entries);
    let input = entertainment_in(entries);
    let perm = choose|perm: Seq<int>| stable_arrangement(groups, input, perm);
    assert forall|i: int| 0 <= i < groups.len() implies is_entertainment(#[trigger] groups[i]) by {
        assert(groups[i] == input[perm[i]]);
    }
    assert forall|i: int| 0 <= i < groups.len() implies exists|k: int|
        0 <= k < entries.len() && (#[trigger] groups[i]).id == entries[k].0 && groups[i].name
            == entries[k].1.name by {
        assert(groups[i] == input[perm[i]]);
        assert(0 <= perm[i] < input.len());
        let k = choose|k: int|
            0 <= k < entries.len() && (#[trigger] input[perm[i]]).id == entries[k].0 && input[perm[i]].name
                == entries[k].1.name;
    }
}


/// Only the first item of a registration reply counts: what follows it never changes
/// the credentials; an empty reply grants none; a first item that reports success with
/// a client key grants its user name and key.
pub proof fn law_first_item_counts(items: Seq<RegistrationResponse>)
    ensures
        items.len() > 0 ==> reply_credentials(items) == reply_credentials(items.take(1)),
        items.len() == 0 ==> reply_credentials(items) is None,
        items.len() > 0 && items[0].success is Some && items[0].success->0.clientkey is Some
            ==> reply_credentials(items) == Some(
            (items[0].success->0.username@, items[0].success->0.clientkey->0@),
        ),
{
    if items.len() > 0 {
        assert(items.take(1)[0] == items[0]);
    }
}

proof fn lemma_entertainment_count(entries: Seq<(String, Group)>)
    ensures
        (forall|k: int| 0 <= k < entries.len() ==> (#[trigger] entries[k]).1.group_type@ == "Entertainment"@)
            ==> entertainment_in(entries).len() == entries.len(),
        (forall|k: int| 0 <= k < entries.len() ==> (#[trigger] entries[k]).1.group_type@ != "Entertainment"@)
            ==> entertainment_in(entries).len() == 0,
    decreases entries.len(),
{
    if entries.len() > 0 {
        lemma_entertainment_count(entries.drop_last());
        let last = entries.len() - 1;
        assert(entries.drop_last().len() == last);
        if forall|k: int| 0 <= k < entries.len() ==> (#[trigger] entries[k]).1.group_type@ == "Entertainment"@ {
            assert forall|k: int| 0 <= k < entries.drop_last().len() implies (#[trigger] entries.drop_last()[k]).1.group_type@ == "Entertainment"@ by {
                assert(entries.drop_last()[k] == entries[k]);
            }
            assert(entries[last].1.group_type@ == "Entertainment"@);
        }
        if forall|k: int| 0 <= k < entries.len() ==> (#[trigger] entries[k]).1.group_type@ != "Entertainment"@ {
            assert forall|k: int| 0 <= k < entries.drop_last().len() implies (#[trigger] entries.drop_last()[k]).1.group_type@ != "Entertainment"@ by {
                assert(entries.drop_last()[k] == entries[k]);
            }
            assert(entries[last].1.group_type@ != "Entertainment"@);
        }
    }
}

/// A group is kept exactly when its type reads `Entertainment`: a listing of such
/// groups only keeps them all, and a listing of other groups only keeps none; the result
/// always has as many groups as `entertainment_in` keeps.
pub proof fn law_kept_by_type(entries: Seq<(String, Group)>, groups: Seq<Group>)
    requires
        stably_sorted(groups, entertainment_in(entries)),
    ensures
        (forall|k: int| 0 <= k < entries.len() ==> (#[trigger] entries[k]).1.group_type@ == "Entertainment"@)
            ==> groups.len() == entries.len(),
        (forall|k: int| 0 <= k < entries.len() ==> (#[trigger] entries[k]).1.group_type@ != "Entertainment"@)
            ==> groups.len() == 0,
{
    lemma_entertainment_count(entries);
    let perm = choose|perm: Seq<int>| stable_arrangement(groups, entertainment_in(entries), perm);
}

} // verus!
