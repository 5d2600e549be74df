use ironhub_egress::artifact_hosts::{artifact_network_policy, NetworkPolicy, NetworkScheme};
use ironhub_egress::direct_egress::{
    admit_request, refused, EgressError, EgressRequest, IronhubDirectEgress, LeaseStep,
    ReleaseStep, IRONHUB_INFO_CAPABILITY_ID, IRONHUB_INSTALL_CAPABILITY_ID,
    IRONHUB_SEARCH_CAPABILITY_ID,
};

fn whitelisted_url() -> String {
    json_file("https://github.com/CjS77/naomi-addons/releases/download/v1/manifest")
}

/// `name` with the `.json` extension appended.
fn json_file(name: &str) -> String {
    format!("{name}{JSON_EXTENSION}")
}

const JSON_EXTENSION: &str = ".json";

fn request(scope: &str, capability_id: &str, url: &str) -> EgressRequest {
    EgressRequest {
        scope: scope.to_string(),
        capability_id: capability_id.to_string(),
        url: url.to_string(),
        credential_injections: 0,
        network_policy: artifact_network_policy(),
    }
}

fn reason(result: &Result<(), EgressError>) -> String {
    match result {
        Err(EgressError::Request {
            reason,
            request_bytes,
            response_bytes,
        }) => {
            assert_eq!(*request_bytes, 0);
            assert_eq!(*response_bytes, 0);
            reason.clone()
        }
        Ok(()) => panic!("request was admitted"),
    }
}

fn assert_is_artifact_policy(policy: &NetworkPolicy) {
    assert!(policy.deny_private_ip_ranges);
    assert_eq!(policy.max_egress_bytes, None);
    let hosts: Vec<&str> = policy
        .allowed_targets
        .iter()
        .map(|target| {
            assert_eq!(target.scheme, Some(NetworkScheme::Https));
            assert_eq!(target.port, None);
            target.host_pattern.as_str()
        })
        .collect();
    assert_eq!(
        hosts,
        vec![
            "hub.ironclaw.com",
            "github.com",
            "release-assets.githubusercontent.com",
            "objects.githubusercontent.com",
        ]
    );
}

/// The policy exists only while an IronHub request holds it; two overlapping
/// requests share one staging, and the first to finish does not revoke it
/// from under the second.
#[test]
fn stages_the_ironhub_policy_only_while_a_request_is_in_flight() {
    let mut egress = IronhubDirectEgress::new(());
    let scope = "ironhub-direct-egress-lease-owner".to_string();
    let install = IRONHUB_INSTALL_CAPABILITY_ID.to_string();

    // Nothing is staged before any request.
    assert_eq!(egress.release(&scope, &install), ReleaseStep::NotStaged);

    let step = egress
        .execute(&request(&scope, IRONHUB_INSTALL_CAPABILITY_ID, whitelisted_url().as_str()))
        .expect("IronHub request is admitted");
    match step {
        LeaseStep::Stage(policy) => assert_is_artifact_policy(&policy),
        LeaseStep::Joined => panic!("the first request must stage the policy"),
    }
    assert_eq!(
        egress.release(&scope, &install),
        ReleaseStep::Revoke,
        "the policy must be revoked once the request returns"
    );
    assert_eq!(egress.release(&scope, &install), ReleaseStep::NotStaged);

    let first = egress.lease(&scope, &install);
    let second = egress.lease(&scope, &install);
    assert!(matches!(first, LeaseStep::Stage(_)));
    assert!(matches!(second, LeaseStep::Joined));
    assert_eq!(
        egress.release(&scope, &install),
        ReleaseStep::Kept,
        "an overlapping request keeps the policy staged"
    );
    assert_eq!(egress.release(&scope, &install), ReleaseStep::Revoke);
    assert_eq!(egress.release(&scope, &install), ReleaseStep::NotStaged);
}

#[test]
fn refuses_requests_that_are_not_ironhub_downloads() {
    let mut egress = IronhubDirectEgress::new(());
    let scope = "ironhub-direct-egress-admit-owner";

    for (capability_id, url) in [
        ("builtin.http", whitelisted_url().as_str()),
        (
            IRONHUB_SEARCH_CAPABILITY_ID,
            json_file("https://github.com/attacker/repo/releases/download/v1/manifest").as_str(),
        ),
        (
            IRONHUB_INFO_CAPABILITY_ID,
            json_file("https://raw.githubusercontent.com/CjS77/naomi-addons/main/manifest").as_str(),
        ),
    ] {
        let result = egress.execute(&request(scope, capability_id, url));
        assert!(
            matches!(result, Err(EgressError::Request { .. })),
            "{capability_id} {url}: {result:?}"
        );
        assert_eq!(
            egress.release(&scope.to_string(), &capability_id.to_string()),
            ReleaseStep::NotStaged,
            "a refused request stages nothing"
        );
    }
    assert!(matches!(
        egress.execute_credential_exchange(&request(
            scope,
            IRONHUB_INSTALL_CAPABILITY_ID,
            whitelisted_url().as_str()
        )),
        Err(EgressError::Request { .. })
    ));
}

#[test]
fn each_refusal_names_its_reason() {
    assert_eq!(
        reason(&admit_request(&request("s", "builtin.http", whitelisted_url().as_str()))),
        "IronHub egress serves IronHub capabilities only"
    );
    let mut with_credentials = request("s", IRONHUB_INSTALL_CAPABILITY_ID, whitelisted_url().as_str());
    with_credentials.credential_injections = 1;
    assert_eq!(
        reason(&admit_request(&with_credentials)),
        "IronHub egress never injects credentials"
    );
    assert_eq!(
        reason(&admit_request(&request(
            "s",
            IRONHUB_INSTALL_CAPABILITY_ID,
            "not a url"
        ))),
        "IronHub egress URL is invalid"
    );
    assert_eq!(
        reason(&admit_request(&request(
            "s",
            IRONHUB_SEARCH_CAPABILITY_ID,
            "https://objects.githubusercontent.com/github-production-release-asset/1/m.json"
        ))),
        "IronHub egress URL is not on the download whitelist"
    );
    let egress = IronhubDirectEgress::new(());
    assert_eq!(
        reason(&egress.execute_credential_exchange(&request(
            "s",
            IRONHUB_INSTALL_CAPABILITY_ID,
            whitelisted_url().as_str()
        ))),
        "IronHub egress never performs credential exchanges"
    );
}

#[test]
fn each_ironhub_capability_is_admitted_for_a_whitelisted_url() {
    for capability_id in [
        IRONHUB_SEARCH_CAPABILITY_ID,
        IRONHUB_INFO_CAPABILITY_ID,
        IRONHUB_INSTALL_CAPABILITY_ID,
    ] {
        assert!(admit_request(&request("s", capability_id, whitelisted_url().as_str())).is_ok());
        assert!(admit_request(&request(
            "s",
            capability_id,
            json_file("https://hub.ironclaw.com/api/catalog/manifest").as_str()
        ))
        .is_ok());
    }
}

#[test]
fn the_staged_policy_is_the_fixed_one_not_the_one_the_request_carries() {
    let mut egress = IronhubDirectEgress::new(());
    let mut carried = request("scope", IRONHUB_SEARCH_CAPABILITY_ID, whitelisted_url().as_str());
    carried.network_policy = NetworkPolicy {
        allowed_targets: Vec::new(),
        deny_private_ip_ranges: false,
        max_egress_bytes: Some(1),
    };
    match egress.execute(&carried).expect("admitted") {
        LeaseStep::Stage(policy) => assert_is_artifact_policy(&policy),
        LeaseStep::Joined => panic!("nothing was staged before"),
    }
}

#[test]
fn leases_for_different_scopes_or_capabilities_are_independent() {
    let mut egress = IronhubDirectEgress::new("ports");
    assert_eq!(*egress.ports(), "ports");
    let a = "scope-a".to_string();
    let b = "scope-b".to_string();
    let install = IRONHUB_INSTALL_CAPABILITY_ID.to_string();
    let search = IRONHUB_SEARCH_CAPABILITY_ID.to_string();
    assert!(matches!(egress.lease(&a, &install), LeaseStep::Stage(_)));
    assert!(matches!(egress.lease(&b, &install), LeaseStep::Stage(_)));
    assert!(matches!(egress.lease(&a, &search), LeaseStep::Stage(_)));
    assert!(matches!(egress.lease(&a, &install), LeaseStep::Joined));
    assert_eq!(egress.release(&b, &install), ReleaseStep::Revoke);
    assert_eq!(egress.release(&a, &install), ReleaseStep::Kept);
    assert_eq!(egress.release(&a, &search), ReleaseStep::Revoke);
    assert_eq!(egress.release(&a, &install), ReleaseStep::Revoke);
    assert_eq!(egress.release(&b, &install), ReleaseStep::NotStaged);
    assert_eq!(egress.release(&a, &install), ReleaseStep::NotStaged);
}

#[test]
fn a_refusal_reports_nothing_sent_or_received() {
    match refused("why") {
        EgressError::Request {
            reason,
            request_bytes,
            response_bytes,
        } => {
            assert_eq!(reason, "why");
            assert_eq!(request_bytes, 0);
            assert_eq!(response_bytes, 0);
        }
    }
}

#[test]
fn the_count_follows_the_live_requests_over_an_interleaving() {
    let mut egress = IronhubDirectEgress::new(());
    let scope = "scope".to_string();
    let install = IRONHUB_INSTALL_CAPABILITY_ID.to_string();
    let search = IRONHUB_SEARCH_CAPABILITY_ID.to_string();
    assert_eq!(egress.in_flight_of(&scope, &install), 0);
    let mut stagings = 0;
    for _ in 0..3 {
        if matches!(egress.lease(&scope, &install), LeaseStep::Stage(_)) {
            stagings += 1;
        }
    }
    assert_eq!(stagings, 1);
    assert_eq!(egress.in_flight_of(&scope, &install), 3);
    egress.lease(&scope, &search);
    assert_eq!(egress.release(&scope, &install), ReleaseStep::Kept);
    assert_eq!(egress.in_flight_of(&scope, &install), 2);
    assert_eq!(egress.in_flight_of(&scope, &search), 1);
    assert_eq!(egress.release(&scope, &install), ReleaseStep::Kept);
    assert_eq!(egress.release(&scope, &install), ReleaseStep::Revoke);
    assert_eq!(egress.in_flight_of(&scope, &install), 0);
    assert!(matches!(egress.lease(&scope, &install), LeaseStep::Stage(_)));
    assert_eq!(egress.in_flight_of(&scope, &install), 1);
}
