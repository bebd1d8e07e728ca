//! What to do when a run fails: wait for the network, wait for the bridge, start
//! setup over, or give up.
use vstd::prelude::*;

use crate::text::{self, contains_str};

verus! {

/// The kinds of I/O error that the recovery rules tell apart.
#[derive(Clone, Copy, Debug, PartialEq, Eq, Structural)]
pub enum IoErrorKind {
    NetworkUnreachable,
    HostUnreachable,
    AddrNotAvailable,
    NotConnected,
    ConnectionRefused,
    Other,
}

/// An I/O error of this kind means the network is not up yet.
pub open spec fn means_network_down(kind: IoErrorKind) -> bool {
    ||| kind == IoErrorKind::NetworkUnreachable
    ||| kind == IoErrorKind::HostUnreachable
    ||| kind == IoErrorKind::AddrNotAvailable
    ||| kind == IoErrorKind::NotConnected
}

/// What `str::to_lowercase` makes of `s`: its Unicode lowercase mapping.
pub uninterp spec fn lowercase(s: Seq<char>) -> Seq<char>;

/// The lowercase of an ASCII character: `A`-`Z` become `a`-`z`, the rest stay.
pub open spec fn ascii_lower_char(c: char) -> char {
    if 65 <= (c as int) <= 90 {
        ((c as int) + 32) as char
    } else {
        c
    }
}

/// `s` with each ASCII capital letter made lowercase.
pub open spec fn ascii_lowercase(s: Seq<char>) -> Seq<char> {
    Seq::new(s.len(), |i: int| ascii_lower_char(s[i]))
}

/// `str::to_lowercase`: the lowercase equivalent of `s`, by Unicode's mapping. On ASCII
/// text that mapping turns `A`-`Z` into `a`-`z` and keeps every other character.
#[verifier::external_body]
fn to_lowercase(s: &str) -> (lower: String)
    ensures
        lower@ == lowercase(s@),
        vstd::utf8::is_ascii_chars(s@) ==> lower@ == ascii_lowercase(s@),
{
    s.to_lowercase()
}

/// A lowercased error text that names an unreachable network or host.
pub open spec fn names_unreachable(lower: Seq<char>) -> bool {
    ||| text::occurs_in(lower, "network is unreachable"@)
    ||| text::occurs_in(lower, "no route to host"@)
    ||| text::occurs_in(lower, "host is unreachable"@)
}

/// Whether an already lowercased error text names an unreachable network or host.
pub fn mentions_unreachable(lower: &str) -> (named: bool)
    ensures
        named == names_unreachable(lower@),
{
    contains_str(lower, "network is unreachable") || contains_str(lower, "no route to host")
        || contains_str(lower, "host is unreachable")
}

/// Some error in the chain is an I/O error of the network-down kinds.
pub open spec fn any_network_down(kinds: Seq<IoErrorKind>) -> bool {
    exists|i: int| 0 <= i < kinds.len() && means_network_down(#[trigger] kinds[i])
}

/// Some error in the chain is an I/O error of the given kind.
pub open spec fn any_of_kind(kinds: Seq<IoErrorKind>, kind: IoErrorKind) -> bool {
    exists|i: int| 0 <= i < kinds.len() && #[trigger] kinds[i] == kind
}

fn has_network_down(kinds: &Vec<IoErrorKind>) -> (found: bool)
    ensures
        found == any_network_down(kinds@),
{
    let mut i: usize = 0;
    while i < kinds.len()
        invariant
            i <= kinds@.len(),
            forall|j: int| 0 <= j < i ==> !means_network_down(#[trigger] kinds@[j]),
        decreases kinds@.len() - i,
    {
        let k = kinds[i];
        match k {
            IoErrorKind::NetworkUnreachable | IoErrorKind::HostUnreachable
            | IoErrorKind::AddrNotAvailable | IoErrorKind::NotConnected => {
                assert(means_network_down(kinds@[i as int]));
                return true;
            },
            _ => {},
        }
        i = i + 1;
    }
    false
}

fn has_kind(kinds: &Vec<IoErrorKind>, kind: IoErrorKind) -> (found: bool)
    ensures
        found == any_of_kind(kinds@, kind),
{
    let mut i: usize = 0;
    while i < kinds.len()
        invariant
            i <= kinds@.len(),
            forall|j: int| 0 <= j < i ==> #[trigger] kinds@[j] != kind,
        decreases kinds@.len() - i,
    {
        if kinds[i] == kind {
            return true;
        }
        i = i + 1;
    }
    false
}

/// The error means the network is not ready yet: some error in its chain is an I/O
/// error of a network-down kind, or the text of the whole chain, lowercased, names an
/// unreachable network or host.
pub open spec fn network_not_ready(kinds: Seq<IoErrorKind>, chain_text: Seq<char>) -> bool {
    any_network_down(kinds) || names_unreachable(lowercase(chain_text))
}

/// The not-ready rule on an ASCII chain text, whose lowercase is known.
pub open spec fn ascii_network_not_ready(kinds: Seq<IoErrorKind>, chain_text: Seq<char>) -> bool {
    any_network_down(kinds) || names_unreachable(ascii_lowercase(chain_text))
}

/// Whether the error, given by the I/O error kinds in its chain and the text of the
/// whole chain, means the network is not ready yet.
pub fn is_network_not_ready_error(kinds: &Vec<IoErrorKind>, chain_text: &str) -> (not_ready: bool)
    ensures
        not_ready == network_not_ready(kinds@, chain_text@),
        vstd::utf8::is_ascii_chars(chain_text@) ==> not_ready == ascii_network_not_ready(
            kinds@,
            chain_text@,
        ),
{
    if has_network_down(kinds) {
        return true;
    }
    let lower = to_lowercase(chain_text);
    mentions_unreachable(lower.as_str())
}

/// What to do about a failed run.
#[derive(Debug, PartialEq, Eq)]
pub enum Recovery {
    /// The network is not up yet: wait 2 seconds, then run again.
    AwaitNetwork,
    /// The bridge refused the connection: wait 5 seconds, then run again.
    AwaitBridge,
    /// The credentials or the group are no longer good: forget the stored
    /// configuration and run setup again.
    ResetConfiguration,
    /// Report the error and stop.
    Fatal,
}

impl Recovery {
    /// How many seconds to wait before running again, where the run is retried.
    pub fn retry_delay_secs(&self) -> (secs: Option<u64>)
        ensures
            match self {
                Recovery::AwaitNetwork => secs == Some(2u64),
                Recovery::AwaitBridge => secs == Some(5u64),
                _ => secs is None,
            },
    {
        match self {
            Recovery::AwaitNetwork => Some(2),
            Recovery::AwaitBridge => Some(5),
            _ => None,
        }
    }
}

/// The error says the user is not authorised or the group is gone.
pub open spec fn rejects_configuration(message: Seq<char>) -> bool {
    ||| text::occurs_in(message, "unauthorized user"@)
    ||| (text::occurs_in(message, "resource"@) && text::occurs_in(message, "not available"@))
}

/// The recovery for a failure, given the I/O error kinds in the error's chain and the
/// text of the whole chain, once lowercased.
pub open spec fn recovery_rule(
    kinds: Seq<IoErrorKind>,
    lowered_chain: Seq<char>,
    message: Seq<char>,
) -> Recovery {
    if any_network_down(kinds) || names_unreachable(lowered_chain) {
        Recovery::AwaitNetwork
    } else if any_of_kind(kinds, IoErrorKind::ConnectionRefused) {
        Recovery::AwaitBridge
    } else if rejects_configuration(message) {
        Recovery::ResetConfiguration
    } else {
        Recovery::Fatal
    }
}

/// The recovery for a failure whose chain text is already lowercased.
pub fn recovery_for_lowered(kinds: &Vec<IoErrorKind>, lowered_chain: &str, message: &str) -> (r: Recovery)
    ensures
        r == recovery_rule(kinds@, lowered_chain@, message@),
{
    if has_network_down(kinds) || mentions_unreachable(lowered_chain) {
        Recovery::AwaitNetwork
    } else if has_kind(kinds, IoErrorKind::ConnectionRefused) {
        Recovery::AwaitBridge
    } else if contains_str(message, "unauthorized user") || (contains_str(message, "resource")
        && contains_str(message, "not available")) {
        Recovery::ResetConfiguration
    } else {
        Recovery::Fatal
    }
}

/// The recovery for a failed run, given the I/O error kinds in the error's chain, the
/// text of the whole chain and the error's own message: wait for the network while it
/// is not ready, wait for the bridge when a connection was refused, start setup over
/// when the bridge rejects the user or the group, and otherwise give up.
pub fn recovery_for(kinds: &Vec<IoErrorKind>, chain_text: &str, message: &str) -> (r: Recovery)
    ensures
        r == recovery_rule(kinds@, lowercase(chain_text@), message@),
        vstd::utf8::is_ascii_chars(chain_text@) ==> r == recovery_rule(
            kinds@,
            ascii_lowercase(chain_text@),
            message@,
        ),
{
    let lower = to_lowercase(chain_text);
    recovery_for_lowered(kinds, lower.as_str(), message)
}


proof fn lemma_occurs_after_prefix(prefix: Seq<char>, hay: Seq<char>, needle: Seq<char>)
    requires
        text::occurs_in(hay, needle),
    ensures
        text::occurs_in(prefix + hay, needle),
{
    let i = choose|i: int| text::occurs_at(hay, needle, i);
    let whole = prefix + hay;
    assert(whole.subrange(prefix.len() + i, prefix.len() + i + needle.len()) =~= hay.subrange(
        i,
        i + needle.len(),
    ));
    assert(text::occurs_at(whole, needle, prefix.len() + i));
}

/// Putting context in front of an error keeps it a network-not-ready error: the I/O
/// kinds of its chain are still there behind those of the context, and the chain text
/// becomes `context: text`, whose lowercase still names the unreachable network.
pub proof fn law_context_keeps_network_not_ready(
    kinds: Seq<IoErrorKind>,
    context_kinds: Seq<IoErrorKind>,
    context: Seq<char>,
    chain_text: Seq<char>,
)
    requires
        ascii_network_not_ready(kinds, chain_text),
    ensures
        ascii_network_not_ready(context_kinds + kinds, context + ": "@ + chain_text),
{
    let all = context_kinds + kinds;
    if any_network_down(kinds) {
        let i = choose|i: int| 0 <= i < kinds.len() && means_network_down(#[trigger] kinds[i]);
        assert(all[context_kinds.len() + i] == kinds[i]);
        assert(means_network_down(all[context_kinds.len() + i]));
    } else {
        let head = context + ": "@;
        let lower = ascii_lowercase(chain_text);
        assert(ascii_lowercase(head + chain_text) =~= ascii_lowercase(head) + lower);
        let prefix = ascii_lowercase(head);
        if text::occurs_in(lower, "network is unreachable"@) {
            lemma_occurs_after_prefix(prefix, lower, "network is unreachable"@);
        } else if text::occurs_in(lower, "no route to host"@) {
            lemma_occurs_after_prefix(prefix, lower, "no route to host"@);
        } else {
            lemma_occurs_after_prefix(prefix, lower, "host is unreachable"@);
        }
    }
}


/// The lowercased chain text names an unreachable network or host, in these words.
pub open spec fn says_unreachable(lowered: Seq<char>) -> bool {
    ||| text::occurs_in(lowered, "network is unreachable"@)
    ||| text::occurs_in(lowered, "no route to host"@)
    ||| text::occurs_in(lowered, "host is unreachable"@)
}

/// The recovery rules, kind by kind and phrase by phrase:
/// - an I/O error in the chain whose kind is network unreachable, host unreachable,
///   address not available or not connected, or a lowercased chain text naming an
///   unreachable network or host, means waiting for the network;
/// - otherwise a refused connection in the chain means waiting for the bridge;
/// - otherwise a message that names an unauthorized user, or a resource that is not
///   available, means setting up again;
/// - otherwise the failure is fatal.
pub proof fn law_recovery_table(kinds: Seq<IoErrorKind>, lowered: Seq<char>, message: Seq<char>)
    ensures
        (exists|i: int|
            0 <= i < kinds.len() && (#[trigger] kinds[i] == IoErrorKind::NetworkUnreachable
                || kinds[i] == IoErrorKind::HostUnreachable || kinds[i]
                == IoErrorKind::AddrNotAvailable || kinds[i] == IoErrorKind::NotConnected))
            ==> recovery_rule(kinds, lowered, message) == Recovery::AwaitNetwork,
        says_unreachable(lowered) ==> recovery_rule(kinds, lowered, message)
            == Recovery::AwaitNetwork,
        (forall|i: int|
            0 <= i < kinds.len() ==> #[trigger] kinds[i] == IoErrorKind::ConnectionRefused
                || kinds[i] == IoErrorKind::Other) && !says_unreachable(lowered) ==> {
            if exists|i: int| 0 <= i < kinds.len() && #[trigger] kinds[i] == IoErrorKind::ConnectionRefused {
                recovery_rule(kinds, lowered, message) == Recovery::AwaitBridge
            } else if text::occurs_in(message, "unauthorized user"@) || (text::occurs_in(
                message,
                "resource"@,
            ) && text::occurs_in(message, "not available"@)) {
                recovery_rule(kinds, lowered, message) == Recovery::ResetConfiguration
            } else {
                recovery_rule(kinds, lowered, message) == Recovery::Fatal
            }
        },
{
    if exists|i: int|
        0 <= i < kinds.len() && (#[trigger] kinds[i] == IoErrorKind::NetworkUnreachable
            || kinds[i] == IoErrorKind::HostUnreachable || kinds[i] == IoErrorKind::AddrNotAvailable
            || kinds[i] == IoErrorKind::NotConnected) {
        let i = choose|i: int|
            0 <= i < kinds.len() && (#[trigger] kinds[i] == IoErrorKind::NetworkUnreachable
                || kinds[i] == IoErrorKind::HostUnreachable || kinds[i]
                == IoErrorKind::AddrNotAvailable || kinds[i] == IoErrorKind::NotConnected);
        assert(means_network_down(kinds[i]));
    }
    if (forall|i: int|
        0 <= i < kinds.len() ==> #[trigger] kinds[i] == IoErrorKind::ConnectionRefused || kinds[i]
            == IoErrorKind::Other) {
        if any_network_down(kinds) {
            let i = choose|i: int| 0 <= i < kinds.len() && means_network_down(#[trigger] kinds[i]);
            assert(kinds[i] == IoErrorKind::ConnectionRefused || kinds[i] == IoErrorKind::Other);
        }
    }
}

} // verus!
