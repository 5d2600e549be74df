# ironhub_egress

The fixed IronHub download whitelist and the admission and staging decisions of
the IronHub direct egress, verified with Verus.

- `src/artifact_hosts.rs`: the two fixed lists (starting-URL prefixes and
  exact hosts), the whitelist check on a parsed URL, the fixed network policy,
  and the laws that tie them together (every whitelisted host is granted by the
  policy; every whitelisted URL begins with one of the two documented prefixes;
  no policy host is a wildcard). URL parsing itself is done by the `url` crate.
- `src/direct_egress.rs`: which requests may borrow the IronHub policy, and the
  ledger that keeps a policy staged for a `(scope, capability)` pair exactly
  while a request for it is in flight. The runtime performs the staging,
  sending and revoking that each returned step names.
- `src/text.rs`: character-sequence helpers (prefix test, encoded separator
  search, ASCII lower-casing).
- `app/lib.rs`: the runtime around those decisions: the lock round the ledger,
  the lease that releases on drop, and the calls on the host runtime ports
  (behind a trait, since the host runtime crates are not available here).
