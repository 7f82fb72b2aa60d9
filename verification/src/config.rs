//! What a user can change, and nothing more.
//!
//! Every field has a default, so that an absent or malformed configuration is
//! never worse than no configuration.
use crate::model::{ecosystem_name, Ecosystem};
use crate::text::{begins, copy_strings};
use vstd::prelude::*;

verus! {

/// The name this server goes by.
pub const NAME: &'static str = "package-checker";

/// The whole user-facing surface.
#[derive(Clone, Debug, PartialEq)]
pub struct Config {
    pub online: Online,
    /// Never touch the network for matching; use the downloaded archives only.
    ///
    /// Distinct from `online.enabled: false`, which still downloads archives.
    /// This is the air-gapped switch: it also means a missing archive stays
    /// missing rather than being fetched.
    pub offline: bool,
}

/// Looking advisories up over the network instead of waiting for an archive.
#[derive(Clone, Debug, PartialEq)]
pub struct Online {
    /// On by default: the first run is when people decide whether a tool
    /// works. Turning it off costs only the first run of a dependency set.
    pub enabled: bool,
    /// Package names never to send, matched as a prefix against
    /// `ecosystem:name`: `npm:@acme/` or a bare `@acme/` both work.
    pub exclude: Vec<String>,
    /// How long a cached answer is trusted.
    pub ttl_hours: u64,
}

impl Default for Online {
    fn default() -> (r: Online)
        ensures
            r.enabled,
            r.exclude@.len() == 0,
            r.ttl_hours == 12,
    {
        Online { enabled: true, exclude: Vec::new(), ttl_hours: 12 }
    }
}

impl Default for Config {
    fn default() -> (r: Config)
        ensures
            r.online.enabled,
            r.online.exclude@.len() == 0,
            r.online.ttl_hours == 12,
            !r.offline,
    {
        Config { online: Online::default(), offline: false }
    }
}

/// Whether a prefix covers a package, by its qualified or its bare name.
pub open spec fn covers(prefix: Seq<char>, e: Ecosystem, name: Seq<char>) -> bool {
    prefix.is_prefix_of(ecosystem_name(e) + ":"@ + name) || prefix.is_prefix_of(name)
}

/// Whether a package may be sent: no excluded prefix covers it.
pub open spec fn sendable(exclude: Seq<Seq<char>>, e: Ecosystem, name: Seq<char>) -> bool {
    forall|i: int| 0 <= i < exclude.len() ==> !covers(#[trigger] exclude[i], e, name)
}

impl Config {
    /// Whether this package may be sent to osv.dev.
    pub fn may_send(&self, ecosystem: Ecosystem, name: &str) -> (r: bool)
        ensures
            r == sendable(self.online.exclude.deep_view(), ecosystem, name@),
    {
        let mut qualified = ecosystem.as_str().to_owned();
        qualified.append(":");
        qualified.append(name);
        let ghost exclude = self.online.exclude.deep_view();
        let mut i: usize = 0;
        while i < self.online.exclude.len()
            invariant
                i <= self.online.exclude@.len(),
                exclude == self.online.exclude.deep_view(),
                qualified@ == ecosystem_name(ecosystem) + ":"@ + name@,
                forall|j: int| 0 <= j < i ==> !covers(#[trigger] exclude[j], ecosystem, name@),
            decreases self.online.exclude@.len() - i,
        {
            let prefix = self.online.exclude[i].as_str();
            if begins(qualified.as_str(), prefix) || begins(name, prefix) {
                proof {
                    assert(covers(exclude[i as int], ecosystem, name@));
                }
                return false;
            }
            i += 1;
        }
        true
    }

    pub fn copy(&self) -> (r: Config)
        ensures
            r.offline == self.offline,
            r.online.enabled == self.online.enabled,
            r.online.ttl_hours == self.online.ttl_hours,
            r.online.exclude.deep_view() == self.online.exclude.deep_view(),
    {
        Config {
            online: Online {
                enabled: self.online.enabled,
                exclude: copy_strings(&self.online.exclude),
                ttl_hours: self.online.ttl_hours,
            },
            offline: self.offline,
        }
    }
}

/// Excluding more never lets more be sent.
pub proof fn excluding_more_sends_less(
    exclude: Seq<Seq<char>>,
    more: Seq<Seq<char>>,
    e: Ecosystem,
    name: Seq<char>,
)
    requires
        sendable(exclude + more, e, name),
    ensures
        sendable(exclude, e, name),
{
    assert forall|i: int| 0 <= i < exclude.len() implies !covers(
        #[trigger] exclude[i],
        e,
        name,
    ) by {
        assert((exclude + more)[i] == exclude[i]);
    }
}

/// A package whose qualified name is excluded is never sent, and neither is
/// anything that begins with it.
pub proof fn a_qualified_prefix_covers_what_it_begins(e: Ecosystem, name: Seq<char>, rest: Seq<char>)
    ensures
        covers(ecosystem_name(e) + ":"@ + name, e, name + rest),
        covers(name, e, name + rest),
{
    let whole = ecosystem_name(e) + ":"@ + (name + rest);
    let prefix = ecosystem_name(e) + ":"@ + name;
    assert(prefix =~= whole.subrange(0, prefix.len() as int));
    assert(name =~= (name + rest).subrange(0, name.len() as int));
}

} // verus!
