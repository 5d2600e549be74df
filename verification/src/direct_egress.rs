//! Host egress for IronHub calls made outside capability dispatch.
//!
//! `ironclaw ironhub …` and hub-delivered installs call the IronHub service
//! directly, so no network policy is staged for their invocation by the
//! capability pipeline. This module decides which of those requests may
//! borrow the fixed IronHub policy ([`artifact_network_policy`]) and keeps the
//! ledger of staged policies: a policy is staged for a `(scope, capability)`
//! pair exactly while at least one IronHub request for that pair is in
//! flight, and it is always the fixed policy, never the one a request carries.
//!
//! The runtime that drives it performs the outside work each step names:
//! staging the policy (after taking the handoff guard), sending the request,
//! and dropping the guard, which revokes the policy.
use vstd::prelude::*;

use crate::artifact_hosts;
use crate::text::same_text;
use crate::artifact_hosts::{
    artifact_network_policy, check_download_url, DownloadUrl, NetworkPolicy, NetworkScheme,
};

verus! {

/// Capability id of the IronHub catalog search.
pub const IRONHUB_SEARCH_CAPABILITY_ID: &'static str = "builtin.ironhub_search";

/// Capability id of the IronHub package information lookup.
pub const IRONHUB_INFO_CAPABILITY_ID: &'static str = "builtin.ironhub_info";

/// Capability id of the IronHub install.
pub const IRONHUB_INSTALL_CAPABILITY_ID: &'static str = "builtin.ironhub_install";

/// What the admission and the ledger read of an outgoing HTTP request.
#[derive(Debug)]
pub struct EgressRequest {
    /// The resource scope the request runs under, as its canonical key.
    pub scope: String,
    pub capability_id: String,
    pub url: String,
    /// How many credential injections the request asks for.
    pub credential_injections: usize,
    /// The policy the request carries; the IronHub egress never stages it.
    pub network_policy: NetworkPolicy,
}

/// An egress failure.
#[derive(Debug)]
pub enum EgressError {
    /// The request was refused before anything was sent.
    Request { reason: String, request_bytes: u64, response_bytes: u64 },
}

/// `error` refuses a request for `reason`, with nothing sent or received.
pub open spec fn is_refusal(error: EgressError, reason: Seq<char>) -> bool {
    match error {
        EgressError::Request { reason: text, request_bytes, response_bytes } => {
            &&& text@ == reason
            &&& request_bytes == 0
            &&& response_bytes == 0
        },
    }
}

/// The refusal of a request for `reason`.
pub fn refused(reason: &str) -> (error: EgressError)
    ensures
        is_refusal(error, reason@),
{
    EgressError::Request { reason: reason.to_owned(), request_bytes: 0, response_bytes: 0 }
}

/// One of the three IronHub capability ids.
pub open spec fn is_ironhub_capability(capability_id: Seq<char>) -> bool {
    ||| capability_id == IRONHUB_SEARCH_CAPABILITY_ID@
    ||| capability_id == IRONHUB_INFO_CAPABILITY_ID@
    ||| capability_id == IRONHUB_INSTALL_CAPABILITY_ID@
}

/// Why a request may not borrow the IronHub policy, or `None` where it may:
/// one of the IronHub capability ids, no injected credentials, and a URL that
/// parses and is a whitelisted starting point.
pub open spec fn admission_refusal(
    capability_id: Seq<char>,
    credential_injections: nat,
    url: Seq<char>,
) -> Option<Seq<char>> {
    if !is_ironhub_capability(capability_id) {
        Some("IronHub egress serves IronHub capabilities only"@)
    } else if credential_injections > 0 {
        Some("IronHub egress never injects credentials"@)
    } else {
        match artifact_hosts::parsed_download_url(url) {
            None => Some("IronHub egress URL is invalid"@),
            Some(parsed) => if artifact_hosts::whitelist_verdict(parsed) is Ok {
                None
            } else {
                Some("IronHub egress URL is not on the download whitelist"@)
            },
        }
    }
}

/// [`admission_refusal`] of a request.
pub open spec fn request_refusal(request: EgressRequest) -> Option<Seq<char>> {
    admission_refusal(
        request.capability_id@,
        request.credential_injections as nat,
        request.url@,
    )
}

/// Only IronHub's own requests may borrow the IronHub policy: one of its three
/// capability ids, no injected credentials, and a whitelisted starting URL.
pub fn admit_request(request: &EgressRequest) -> (admitted: Result<(), EgressError>)
    ensures
        match request_refusal(*request) {
            None => admitted is Ok,
            Some(reason) => admitted matches Err(error) && is_refusal(error, reason),
        },
{
    let capability_id = request.capability_id.as_str();
    if !(same_text(capability_id, IRONHUB_SEARCH_CAPABILITY_ID) || same_text(
        capability_id,
        IRONHUB_INFO_CAPABILITY_ID,
    ) || same_text(capability_id, IRONHUB_INSTALL_CAPABILITY_ID)) {
        return Err(refused("IronHub egress serves IronHub capabilities only"));
    }
    if request.credential_injections != 0 {
        return Err(refused("IronHub egress never injects credentials"));
    }
    let url = match DownloadUrl::parse(request.url.as_str()) {
        Some(url) => url,
        None => {
            return Err(refused("IronHub egress URL is invalid"));
        },
    };
    match check_download_url(&url) {
        Ok(()) => Ok(()),
        Err(_) => Err(refused("IronHub egress URL is not on the download whitelist")),
    }
}

/// A `(scope, capability id)` pair, the unit a policy is staged for.
pub type StageKey = (Seq<char>, Seq<char>);

/// How many requests hold `key` in a ledger view: zero where none does.
pub open spec fn in_flight_count(ledger: Map<StageKey, nat>, key: StageKey) -> nat {
    if ledger.dom().contains(key) {
        ledger[key]
    } else {
        0
    }
}

/// The ledger after one more request for `key` starts.
pub open spec fn after_lease(ledger: Map<StageKey, nat>, key: StageKey) -> Map<StageKey, nat> {
    ledger.insert(key, in_flight_count(ledger, key) + 1)
}

/// The ledger after one request for `key` returns: the last one to return
/// takes the staged policy away; a key with nothing staged is left alone.
pub open spec fn after_release(ledger: Map<StageKey, nat>, key: StageKey) -> Map<StageKey, nat> {
    if !ledger.dom().contains(key) {
        ledger
    } else if ledger[key] <= 1 {
        ledger.remove(key)
    } else {
        ledger.insert(key, (ledger[key] - 1) as nat)
    }
}

/// What the runtime does after a lease.
#[derive(Debug)]
pub enum LeaseStep {
    /// A policy is already staged for this pair; the request shares it.
    Joined,
    /// Nothing was staged for this pair: take the handoff guard first, so a
    /// failed stage can never leave authority behind, then stage this policy.
    Stage(NetworkPolicy),
}

/// What the runtime does after a release.
#[derive(Debug, Clone, Copy, PartialEq, Eq, Structural)]
pub enum ReleaseStep {
    /// Other requests still hold the policy; it stays staged.
    Kept,
    /// That was the last request: drop the handoff guard, revoking the policy.
    Revoke,
    /// Nothing was staged for this pair.
    NotStaged,
}

/// One staged policy, shared by every in-flight request with the same scope
/// and capability. An install fetches bundled files concurrently under one
/// scope; revoking per request would pull the policy out from under a sibling
/// that has staged but not yet read it.
struct StagedPolicy {
    scope: String,
    capability_id: String,
    in_flight: usize,
}

spec fn key_of(entry: StagedPolicy) -> StageKey {
    (entry.scope@, entry.capability_id@)
}

/// No pair is staged twice, and every staged pair has a request in flight.
spec fn ledger_wf(staged: Seq<StagedPolicy>) -> bool {
    &&& forall|i: int, j: int|
        0 <= i < staged.len() && 0 <= j < staged.len() && i != j ==> key_of(#[trigger] staged[i])
            != key_of(#[trigger] staged[j])
    &&& forall|i: int| 0 <= i < staged.len() ==> (#[trigger] staged[i]).in_flight > 0
}

spec fn ledger_view(staged: Seq<StagedPolicy>) -> Map<StageKey, nat> {
    Map::new(
        |key: StageKey| exists|i: int| 0 <= i < staged.len() && key_of(#[trigger] staged[i]) == key,
        |key: StageKey|
            staged[choose|i: int| 0 <= i < staged.len() && key_of(#[trigger] staged[i]) == key].in_flight as nat,
    )
}

proof fn lemma_ledger_view_at(staged: Seq<StagedPolicy>, i: int)
    requires
        ledger_wf(staged),
        0 <= i < staged.len(),
    ensures
        ledger_view(staged).dom().contains(key_of(staged[i])),
        ledger_view(staged)[key_of(staged[i])] == staged[i].in_flight,
{
    let key = key_of(staged[i]);
    assert(ledger_view(staged).dom().contains(key));
    let j = choose|j: int| 0 <= j < staged.len() && key_of(#[trigger] staged[j]) == key;
    assert(j == i);
}

/// Changing the count of one entry to another positive count changes only
/// that pair's count in the view.
proof fn lemma_count_changed(before: Seq<StagedPolicy>, after: Seq<StagedPolicy>, i: int)
    requires
        ledger_wf(before),
        0 <= i < before.len(),
        after.len() == before.len(),
        forall|j: int| 0 <= j < before.len() && j != i ==> after[j] == before[j],
        key_of(after[i]) == key_of(before[i]),
        after[i].in_flight > 0,
    ensures
        ledger_wf(after),
        ledger_view(after) == ledger_view(before).insert(
            key_of(before[i]),
            after[i].in_flight as nat,
        ),
{
    let key = key_of(before[i]);
    let expected = ledger_view(before).insert(key, after[i].in_flight as nat);
    assert forall|j: int| 0 <= j < after.len() implies key_of(#[trigger] after[j]) == key_of(
        before[j],
    ) by {}
    assert(ledger_wf(after));
    lemma_ledger_view_at(before, i);
    lemma_ledger_view_at(after, i);
    assert forall|k: StageKey|
        #![trigger ledger_view(after).dom().contains(k)]
        ledger_view(after).dom().contains(k) == expected.dom().contains(k) by {
        if ledger_view(before).dom().contains(k) {
            lemma_ledger_view_dom(before, k);
            let j = choose|j: int| 0 <= j < before.len() && key_of(#[trigger] before[j]) == k;
            assert(key_of(after[j]) == k);
        }
        if ledger_view(after).dom().contains(k) {
            lemma_ledger_view_dom(after, k);
            let j = choose|j: int| 0 <= j < after.len() && key_of(#[trigger] after[j]) == k;
            assert(key_of(before[j]) == k);
        }
    }
    assert forall|k: StageKey| #[trigger]
        ledger_view(after).dom().contains(k) implies ledger_view(after)[k] == expected[k] by {
        lemma_ledger_view_dom(after, k);
        let j = choose|j: int| 0 <= j < after.len() && key_of(#[trigger] after[j]) == k;
        lemma_ledger_view_at(after, j);
        lemma_ledger_view_at(before, j);
    }
    assert(ledger_view(after) =~= expected);
}

/// Removing an entry with `swap_remove` removes exactly its pair from the view.
proof fn lemma_entry_removed(before: Seq<StagedPolicy>, i: int)
    requires
        ledger_wf(before),
        0 <= i < before.len(),
    ensures
        ledger_wf(before.update(i, before.last()).drop_last()),
        ledger_view(before.update(i, before.last()).drop_last()) == ledger_view(before).remove(
            key_of(before[i]),
        ),
{
    let after = before.update(i, before.last()).drop_last();
    let n = before.len() as int;
    let key = key_of(before[i]);
    let expected = ledger_view(before).remove(key);
    assert forall|j: int| 0 <= j < after.len() implies #[trigger] after[j] == before[
        if j == i {
            n - 1
        } else {
            j
        }
    ] by {}
    assert(ledger_wf(after)) by {
        assert forall|a: int, b: int|
            0 <= a < after.len() && 0 <= b < after.len() && a != b implies key_of(
            #[trigger] after[a],
        ) != key_of(#[trigger] after[b]) by {
            let sa = if a == i {
                n - 1
            } else {
                a
            };
            let sb = if b == i {
                n - 1
            } else {
                b
            };
            assert(after[a] == before[sa]);
            assert(after[b] == before[sb]);
        }
        assert forall|a: int| 0 <= a < after.len() implies (#[trigger] after[a]).in_flight > 0 by {
            let sa = if a == i {
                n - 1
            } else {
                a
            };
            assert(after[a] == before[sa]);
        }
    }
    lemma_ledger_view_at(before, i);
    assert forall|k: StageKey|
        #![trigger ledger_view(after).dom().contains(k)]
        ledger_view(after).dom().contains(k) == expected.dom().contains(k) by {
        if expected.dom().contains(k) {
            lemma_ledger_view_dom(before, k);
            let j = choose|j: int| 0 <= j < before.len() && key_of(#[trigger] before[j]) == k;
            assert(j != i);
            let t = if j == n - 1 {
                i
            } else {
                j
            };
            assert(after[t] == before[j]);
            assert(key_of(after[t]) == k);
        }
        if ledger_view(after).dom().contains(k) {
            lemma_ledger_view_dom(after, k);
            let t = choose|t: int| 0 <= t < after.len() && key_of(#[trigger] after[t]) == k;
            let j = if t == i {
                n - 1
            } else {
                t
            };
            assert(after[t] == before[j]);
            assert(key_of(before[j]) == k);
            assert(j != i);
            lemma_ledger_view_at(before, j);
        }
    }
    assert forall|k: StageKey| #[trigger]
        ledger_view(after).dom().contains(k) implies ledger_view(after)[k] == expected[k] by {
        lemma_ledger_view_dom(after, k);
        let t = choose|t: int| 0 <= t < after.len() && key_of(#[trigger] after[t]) == k;
        let j = if t == i {
            n - 1
        } else {
            t
        };
        assert(after[t] == before[j]);
        lemma_ledger_view_at(after, t);
        lemma_ledger_view_at(before, j);
    }
    assert(ledger_view(after) =~= expected);
}

proof fn lemma_ledger_view_dom(staged: Seq<StagedPolicy>, key: StageKey)
    requires
        ledger_wf(staged),
        ledger_view(staged).dom().contains(key),
    ensures
        exists|i: int| 0 <= i < staged.len() && key_of(#[trigger] staged[i]) == key,
{
}

/// Host egress for IronHub calls made outside capability dispatch: the ports
/// the runtime stages policies through, and the ledger of staged policies.
pub struct IronhubDirectEgress<P> {
    ports: P,
    staged: Vec<StagedPolicy>,
}

impl<P> IronhubDirectEgress<P> {
    /// The ledger is well formed: each pair at most once, each with a request
    /// in flight.
    pub closed spec fn wf(&self) -> bool {
        ledger_wf(self.staged@)
    }

    /// For each pair that has a policy staged, how many requests hold it.
    pub closed spec fn in_flight(&self) -> Map<StageKey, nat> {
        ledger_view(self.staged@)
    }

    /// The runtime ports this egress was made with.
    pub closed spec fn held_ports(&self) -> P {
        self.ports
    }

    /// An egress over `ports` with nothing staged.
    pub fn new(ports: P) -> (egress: Self)
        ensures
            egress.wf(),
            egress.in_flight() == Map::<StageKey, nat>::empty(),
            egress.held_ports() == ports,
    {
        let egress = IronhubDirectEgress { ports, staged: Vec::new() };
        assert(egress.in_flight() =~= Map::<StageKey, nat>::empty());
        egress
    }

    /// The runtime ports this egress was made with.
    pub fn ports(&self) -> (ports: &P)
        ensures
            *ports == self.held_ports(),
    {
        &self.ports
    }

    /// Where the ledger holds `(scope, capability_id)`, if it does.
    fn position(&self, scope: &String, capability_id: &String) -> (index: Option<usize>)
        ensures
            match index {
                Some(i) => i < self.staged@.len() && key_of(self.staged@[i as int]) == (
                scope@,
                capability_id@,
                ),
                None => forall|i: int|
                    0 <= i < self.staged@.len() ==> key_of(#[trigger] self.staged@[i]) != (
                    scope@,
                    capability_id@,
                    ),
            },
    {
        let mut i: usize = 0;
        while i < self.staged.len()
            invariant
                i <= self.staged@.len(),
                forall|k: int|
                    0 <= k < i ==> key_of(#[trigger] self.staged@[k]) != (scope@, capability_id@),
            decreases self.staged@.len() - i,
        {
            if self.staged[i].scope == *scope && self.staged[i].capability_id == *capability_id {
                return Some(i);
            }
            i = i + 1;
        }
        None
    }

    /// One more request for `(scope, capability_id)` starts: it joins the
    /// policy already staged for that pair, or the fixed IronHub policy is
    /// staged for it.
    pub fn lease(&mut self, scope: &String, capability_id: &String) -> (step: LeaseStep)
        requires
            old(self).wf(),
            in_flight_count(old(self).in_flight(), (scope@, capability_id@)) < usize::MAX,
        ensures
            final(self).wf(),
            final(self).held_ports() == old(self).held_ports(),
            final(self).in_flight() == after_lease(old(self).in_flight(), (scope@, capability_id@)),
            step is Stage <==> !old(self).in_flight().dom().contains((scope@, capability_id@)),
            step matches LeaseStep::Stage(policy) ==> artifact_hosts::is_artifact_policy(policy),
    {
        let ghost key = (scope@, capability_id@);
        let ghost before = self.staged@;
        match self.position(scope, capability_id) {
            Some(i) => {
                proof {
                    lemma_ledger_view_at(before, i as int);
                }
                self.staged[i].in_flight = self.staged[i].in_flight + 1;
                proof {
                    lemma_count_changed(before, self.staged@, i as int);
                    assert(ledger_view(self.staged@) =~= after_lease(ledger_view(before), key));
                }
                LeaseStep::Joined
            },
            None => {
                self.staged.push(
                    StagedPolicy { scope: scope.clone(), capability_id: capability_id.clone(), in_flight: 1 },
                );
                proof {
                    let after = self.staged@;
                    let n = before.len() as int;
                    assert(ledger_wf(after));
                    assert(!ledger_view(before).dom().contains(key)) by {
                        if ledger_view(before).dom().contains(key) {
                            lemma_ledger_view_dom(before, key);
                        }
                    }
                    lemma_ledger_view_at(after, n);
                    assert(key_of(after[n]) == key);
                    assert(ledger_view(after).dom().contains(key));
                    assert forall|k: StageKey|
                        #![trigger ledger_view(after).dom().contains(k)]
                        ledger_view(after).dom().contains(k) == after_lease(
                            ledger_view(before),
                            key,
                        ).dom().contains(k) by {
                        if ledger_view(before).dom().contains(k) {
                            lemma_ledger_view_dom(before, k);
                            let j = choose|j: int| 0 <= j < before.len() && key_of(#[trigger] before[j]) == k;
                            assert(after[j] == before[j]);
                        }
                        if ledger_view(after).dom().contains(k) {
                            lemma_ledger_view_dom(after, k);
                            let j = choose|j: int| 0 <= j < after.len() && key_of(#[trigger] after[j]) == k;
                            if j < n {
                                assert(after[j] == before[j]);
                                assert(key_of(before[j]) == k);
                            }
                        }
                    }
                    assert forall|k: StageKey| #[trigger]
                        ledger_view(after).dom().contains(k) implies ledger_view(after)[k]
                        == after_lease(ledger_view(before), key)[k] by {
                        lemma_ledger_view_dom(after, k);
                        let j = choose|j: int| 0 <= j < after.len() && key_of(#[trigger] after[j]) == k;
                        lemma_ledger_view_at(after, j);
                        if j < n {
                            assert(after[j] == before[j]);
                            lemma_ledger_view_at(before, j);
                        }
                    }
                    assert(ledger_view(after) =~= after_lease(ledger_view(before), key));
                }
                LeaseStep::Stage(artifact_network_policy())
            },
        }
    }

    /// One request for `(scope, capability_id)` returns, or its future is
    /// dropped: it gives up its share of the staged policy, and the last one
    /// to return has the policy revoked.
    pub fn release(&mut self, scope: &String, capability_id: &String) -> (step: ReleaseStep)
        requires
            old(self).wf(),
        ensures
            final(self).wf(),
            final(self).held_ports() == old(self).held_ports(),
            final(self).in_flight() == after_release(old(self).in_flight(), (scope@, capability_id@)),
            step == (if !old(self).in_flight().dom().contains((scope@, capability_id@)) {
                ReleaseStep::NotStaged
            } else if old(self).in_flight()[(scope@, capability_id@)] == 1 {
                ReleaseStep::Revoke
            } else {
                ReleaseStep::Kept
            }),
    {
        let ghost key = (scope@, capability_id@);
        let ghost before = self.staged@;
        match self.position(scope, capability_id) {
            None => {
                assert(!ledger_view(before).dom().contains(key)) by {
                    if ledger_view(before).dom().contains(key) {
                        lemma_ledger_view_dom(before, key);
                    }
                }
                ReleaseStep::NotStaged
            },
            Some(i) => {
                proof {
                    lemma_ledger_view_at(before, i as int);
                }
                self.staged[i].in_flight = self.staged[i].in_flight - 1;
                if self.staged[i].in_flight == 0 {
                    self.staged.swap_remove(i);
                    proof {
                        lemma_entry_removed(before, i as int);
                        assert(self.staged@ =~= before.update(i as int, before.last()).drop_last());
                    }
                    ReleaseStep::Revoke
                } else {
                    proof {
                        lemma_count_changed(before, self.staged@, i as int);
                        assert(ledger_view(self.staged@) =~= after_release(ledger_view(before), key));
                    }
                    ReleaseStep::Kept
                }
            },
        }
    }

    /// The decisions of an IronHub request: it is admitted (see
    /// [`admit_request`]) or refused with nothing staged; once admitted it
    /// takes a lease on the policy for its scope and capability. The runtime
    /// then performs the returned step, sends the request through the host
    /// egress, and calls [`IronhubDirectEgress::release`] for the same pair
    /// when the request returns or its future is dropped.
    pub fn execute(&mut self, request: &EgressRequest) -> (result: Result<LeaseStep, EgressError>)
        requires
            old(self).wf(),
            request_refusal(*request) is None ==> in_flight_count(
                old(self).in_flight(),
                (request.scope@, request.capability_id@),
            ) < usize::MAX,
        ensures
            final(self).wf(),
            final(self).held_ports() == old(self).held_ports(),
            match request_refusal(*request) {
                Some(reason) => {
                    &&& result matches Err(error) && is_refusal(error, reason)
                    &&& final(self).in_flight() == old(self).in_flight()
                },
                None => {
                    &&& result is Ok
                    &&& final(self).in_flight() == after_lease(
                        old(self).in_flight(),
                        (request.scope@, request.capability_id@),
                    )
                    &&& (result->Ok_0 is Stage <==> !old(self).in_flight().dom().contains(
                        (request.scope@, request.capability_id@),
                    ))
                    &&& result->Ok_0 matches LeaseStep::Stage(policy) ==> artifact_hosts::is_artifact_policy(policy)
                },
            },
    {
        match admit_request(request) {
            Err(error) => Err(error),
            Ok(()) => Ok(self.lease(&request.scope, &request.capability_id)),
        }
    }

    /// How many requests for `(scope, capability_id)` are in flight: zero
    /// where nothing is staged for the pair.
    pub fn in_flight_of(&self, scope: &String, capability_id: &String) -> (count: usize)
        requires
            self.wf(),
        ensures
            count == in_flight_count(self.in_flight(), (scope@, capability_id@)),
    {
        match self.position(scope, capability_id) {
            Some(i) => {
                proof {
                    lemma_ledger_view_at(self.staged@, i as int);
                }
                self.staged[i].in_flight
            },
            None => {
                assert(!self.in_flight().dom().contains((scope@, capability_id@))) by {
                    if self.in_flight().dom().contains((scope@, capability_id@)) {
                        lemma_ledger_view_dom(self.staged@, (scope@, capability_id@));
                    }
                }
                0
            },
        }
    }

    /// The IronHub egress never performs credential exchanges: every such
    /// request is refused.
    pub fn execute_credential_exchange(&self, request: &EgressRequest) -> (result: Result<
        (),
        EgressError,
    >)
        ensures
            result matches Err(error) && is_refusal(
                error,
                "IronHub egress never performs credential exchanges"@,
            ),
    {
        Err(refused("IronHub egress never performs credential exchanges"))
    }

    /// A well-formed ledger holds a policy for a pair only while at least one
    /// request for that pair is in flight.
    pub proof fn lemma_staged_pairs_have_requests(&self)
        requires
            self.wf(),
        ensures
            forall|key: StageKey| #[trigger]
                self.in_flight().dom().contains(key) ==> self.in_flight()[key] >= 1,
    {
        assert forall|key: StageKey| #[trigger]
            self.in_flight().dom().contains(key) implies self.in_flight()[key] >= 1 by {
            lemma_ledger_view_dom(self.staged@, key);
            let i = choose|i: int| 0 <= i < self.staged@.len() && key_of(#[trigger] self.staged@[i]) == key;
            lemma_ledger_view_at(self.staged@, i);
        }
    }
}

/// Every pair a ledger holds has at least one request in flight.
pub open spec fn counts_positive(ledger: Map<StageKey, nat>) -> bool {
    forall|key: StageKey| #[trigger] ledger.dom().contains(key) ==> ledger[key] >= 1
}

/// A request that returns undoes its lease: the ledger is as before, and the
/// release revokes the policy exactly when the lease staged it.
pub proof fn lemma_release_undoes_lease(ledger: Map<StageKey, nat>, key: StageKey)
    requires
        counts_positive(ledger),
    ensures
        after_release(after_lease(ledger, key), key) == ledger,
        counts_positive(after_lease(ledger, key)),
        (after_lease(ledger, key)[key] == 1) == !ledger.dom().contains(key),
{
    let leased = after_lease(ledger, key);
    if ledger.dom().contains(key) {
        assert(after_release(leased, key) =~= ledger);
    } else {
        assert(after_release(leased, key) =~= ledger);
    }
}

/// Two overlapping requests for a pair with nothing staged share one staging:
/// the first stages the policy, the second joins it, the first to return
/// leaves it staged for the second, and the second to return revokes it.
pub proof fn lemma_overlapping_requests_share_one_staging(ledger: Map<StageKey, nat>, key: StageKey)
    requires
        counts_positive(ledger),
        !ledger.dom().contains(key),
    ensures
        after_lease(ledger, key).dom().contains(key),
        after_release(after_lease(after_lease(ledger, key), key), key).dom().contains(key),
        after_release(after_lease(after_lease(ledger, key), key), key)[key] == 1,
        after_release(after_release(after_lease(after_lease(ledger, key), key), key), key)
            == ledger,
{
    let one = after_lease(ledger, key);
    let two = after_lease(one, key);
    let back = after_release(two, key);
    assert(back =~= one);
    assert(after_release(back, key) =~= ledger);
}

/// A request the IronHub egress admits starts at a URL that parses, and the
/// fixed IronHub policy grants that URL's host over `https` on the default
/// port: the direct path and the capability path are held to one whitelist.
pub proof fn lemma_admitted_request_host_is_granted(request: EgressRequest, policy: NetworkPolicy)
    requires
        request_refusal(request) is None,
        artifact_hosts::is_artifact_policy(policy),
    ensures
        is_ironhub_capability(request.capability_id@),
        request.credential_injections == 0,
        artifact_hosts::parsed_download_url(request.url@) is Some,
        artifact_hosts::whitelist_verdict(artifact_hosts::parsed_download_url(request.url@)->0) is Ok,
        artifact_hosts::parsed_download_url(request.url@)->0.host is Some,
        exists|i: int|
            0 <= i < policy.allowed_targets@.len() && (#[trigger] policy.allowed_targets@[i]).host_pattern@
                == artifact_hosts::parsed_download_url(request.url@)->0.host->0
                && policy.allowed_targets@[i].scheme == Some(NetworkScheme::Https)
                && policy.allowed_targets@[i].port is None,
{
    artifact_hosts::lemma_whitelisted_host_is_granted(artifact_hosts::parsed_download_url(request.url@)->0, policy);
}

/// Requests that agree on everything but the network policy they carry are
/// admitted or refused alike, for the same reason: the carried policy plays no
/// part in admission, and an admitted request only ever has the fixed IronHub
/// policy staged for it (see [`IronhubDirectEgress::execute`]).
pub proof fn lemma_carried_policy_is_ignored(a: EgressRequest, b: EgressRequest)
    requires
        a.capability_id@ == b.capability_id@,
        a.credential_injections == b.credential_injections,
        a.url@ == b.url@,
    ensures
        request_refusal(a) == request_refusal(b),
{
}

/// One step in the history of a ledger: a request for a pair starts (takes a
/// lease) or returns (releases it).
pub ghost enum LedgerEvent {
    Lease(StageKey),
    Release(StageKey),
}

/// The ledger after one event.
pub open spec fn apply_event(ledger: Map<StageKey, nat>, event: LedgerEvent) -> Map<StageKey, nat> {
    match event {
        LedgerEvent::Lease(key) => after_lease(ledger, key),
        LedgerEvent::Release(key) => after_release(ledger, key),
    }
}

/// The ledger after a history of events, in order.
pub open spec fn replay(ledger: Map<StageKey, nat>, events: Seq<LedgerEvent>) -> Map<StageKey, nat>
    decreases events.len(),
{
    if events.len() == 0 {
        ledger
    } else {
        apply_event(replay(ledger, events.drop_last()), events.last())
    }
}

/// How one event changes the number of live requests for `key`.
pub open spec fn live_change(event: LedgerEvent, key: StageKey) -> int {
    match event {
        LedgerEvent::Lease(k) => if k == key {
            1
        } else {
            0
        },
        LedgerEvent::Release(k) => if k == key {
            -1
        } else {
            0
        },
    }
}

/// The number of requests for `key` that have started and not yet returned.
pub open spec fn live_requests(events: Seq<LedgerEvent>, key: StageKey) -> int
    decreases events.len(),
{
    if events.len() == 0 {
        0
    } else {
        live_requests(events.drop_last(), key) + live_change(events.last(), key)
    }
}

/// Every release belongs to a request that is live at that point: a lease is
/// released at most once, and only after it was taken.
pub open spec fn releases_only_live(events: Seq<LedgerEvent>) -> bool {
    forall|i: int|
        0 <= i < events.len() ==> match #[trigger] events[i] {
            LedgerEvent::Lease(_) => true,
            LedgerEvent::Release(key) => live_requests(events.take(i), key) >= 1,
        }
}

/// How many times, over a history started from an empty ledger, the policy
/// for `key` was staged: a lease of `key` found nothing staged for it.
pub open spec fn stagings(events: Seq<LedgerEvent>, key: StageKey) -> nat
    decreases events.len(),
{
    if events.len() == 0 {
        0
    } else {
        stagings(events.drop_last(), key) + if events.last() == LedgerEvent::Lease(key)
            && !replay(Map::empty(), events.drop_last()).dom().contains(key) {
            1nat
        } else {
            0nat
        }
    }
}

/// How many times, over a history started from an empty ledger, the policy
/// for `key` was revoked: a release of `key` was its last live request.
pub open spec fn revocations(events: Seq<LedgerEvent>, key: StageKey) -> nat
    decreases events.len(),
{
    if events.len() == 0 {
        0
    } else {
        revocations(events.drop_last(), key) + if events.last() == LedgerEvent::Release(key)
            && in_flight_count(replay(Map::empty(), events.drop_last()), key) == 1 {
            1nat
        } else {
            0nat
        }
    }
}

/// Over any interleaving of leases and releases on one egress (which starts
/// empty, see [`IronhubDirectEgress::new`]), for every pair: the ledger's
/// count is the number of requests that have started and not yet returned; the
/// pair is staged exactly while that number is at least one; and the policy
/// has been staged exactly once more than it has been revoked while requests
/// are live, and as often as it has been revoked once none are.
pub proof fn lemma_ledger_counts_live_requests(events: Seq<LedgerEvent>)
    requires
        releases_only_live(events),
    ensures
        counts_positive(replay(Map::empty(), events)),
        forall|key: StageKey|
            #![trigger live_requests(events, key)]
            {
                &&& live_requests(events, key) >= 0
                &&& in_flight_count(replay(Map::empty(), events), key) == live_requests(events, key)
                &&& (replay(Map::empty(), events).dom().contains(key) <==> live_requests(events, key)
                    >= 1)
                &&& stagings(events, key) == revocations(events, key) + if live_requests(
                    events,
                    key,
                ) >= 1 {
                    1int
                } else {
                    0int
                }
            },
    decreases events.len(),
{
    if events.len() == 0 {
        assert forall|key: StageKey| #![trigger live_requests(events, key)]
            !replay(Map::empty(), events).dom().contains(key) by {}
    } else {
        let prev = events.drop_last();
        let n = events.len() - 1;
        assert forall|i: int| 0 <= i < prev.len() implies match #[trigger] prev[i] {
            LedgerEvent::Lease(_) => true,
            LedgerEvent::Release(key) => live_requests(prev.take(i), key) >= 1,
        } by {
            assert(prev[i] == events[i]);
            assert(prev.take(i) =~= events.take(i));
        }
        lemma_ledger_counts_live_requests(prev);
        let before = replay(Map::empty(), prev);
        let after = replay(Map::empty(), events);
        assert(after == apply_event(before, events.last()));
        assert(events.take(n) =~= prev);
        assert(events[n] == events.last());
        assert forall|key: StageKey| #[trigger] after.dom().contains(key) implies after[key] >= 1 by {
            assert(before.dom().contains(key) ==> before[key] >= 1);
        }
        assert forall|key: StageKey|
            #![trigger live_requests(events, key)]
            {
                &&& live_requests(events, key) >= 0
                &&& in_flight_count(after, key) == live_requests(events, key)
                &&& (after.dom().contains(key) <==> live_requests(events, key) >= 1)
                &&& stagings(events, key) == revocations(events, key) + if live_requests(
                    events,
                    key,
                ) >= 1 {
                    1int
                } else {
                    0int
                }
            } by {
            assert(live_requests(events, key) == live_requests(prev, key) + live_change(
                events.last(),
                key,
            ));
            assert(before.dom().contains(key) ==> before[key] >= 1);
            match events.last() {
                LedgerEvent::Lease(k) => {},
                LedgerEvent::Release(k) => {
                    assert(live_requests(prev, k) >= 1);
                },
            }
        }
    }
}

/// Leases of one pair that overlap, with nothing live for it before (such as
/// `n` concurrent installs under one scope): the policy is staged exactly once
/// and then held by all `n` requests.
pub proof fn lemma_overlapping_leases_stage_once(key: StageKey, n: nat)
    requires
        n >= 1,
    ensures
        releases_only_live(Seq::new(n, |i: int| LedgerEvent::Lease(key))),
        stagings(Seq::new(n, |i: int| LedgerEvent::Lease(key)), key) == 1,
        in_flight_count(replay(Map::empty(), Seq::new(n, |i: int| LedgerEvent::Lease(key))), key)
            == n,
{
    let events = Seq::new(n, |i: int| LedgerEvent::Lease(key));
    lemma_leases_only(key, n);
    lemma_ledger_counts_live_requests(events);
    assert(live_requests(events, key) == n);
}

proof fn lemma_leases_only(key: StageKey, n: nat)
    ensures
        releases_only_live(Seq::new(n, |i: int| LedgerEvent::Lease(key))),
        revocations(Seq::new(n, |i: int| LedgerEvent::Lease(key)), key) == 0,
        live_requests(Seq::new(n, |i: int| LedgerEvent::Lease(key)), key) == n,
    decreases n,
{
    let events = Seq::new(n, |i: int| LedgerEvent::Lease(key));
    if n > 0 {
        lemma_leases_only(key, (n - 1) as nat);
        assert(events.drop_last() =~= Seq::new((n - 1) as nat, |i: int| LedgerEvent::Lease(key)));
    }
}

/// Admission over a request's parts: a request is admitted exactly when its
/// capability id is `builtin.ironhub_search`, `builtin.ironhub_info` or
/// `builtin.ironhub_install`, it asks for no credential injection, and its URL
/// parses to a whitelisted URL. Nothing else about the URL text (a query, a
/// fragment, its spelling before parsing) plays a part.
pub proof fn lemma_admission_by_parts(request: EgressRequest)
    ensures
        request_refusal(request) is None <==> {
            &&& (request.capability_id@ == "builtin.ironhub_search"@ || request.capability_id@
                == "builtin.ironhub_info"@ || request.capability_id@ == "builtin.ironhub_install"@)
            &&& request.credential_injections == 0
            &&& artifact_hosts::parsed_download_url(request.url@) is Some
            &&& artifact_hosts::whitelist_verdict(
                artifact_hosts::parsed_download_url(request.url@)->0,
            ) is Ok
        },
{
}

/// Admission reads the URL only through what it parses to: two requests with
/// the same capability id and credential injections whose URLs parse to the
/// same URL are admitted or refused alike, for the same reason.
pub proof fn lemma_admission_by_parsed_url(a: EgressRequest, b: EgressRequest)
    requires
        a.capability_id@ == b.capability_id@,
        a.credential_injections == b.credential_injections,
        artifact_hosts::parsed_download_url(a.url@) == artifact_hosts::parsed_download_url(b.url@),
    ensures
        request_refusal(a) == request_refusal(b),
{
}

} // verus!
