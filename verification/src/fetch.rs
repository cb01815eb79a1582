//! Fetching package metadata: the in-memory cache and the retry policy.
use vstd::prelude::*;
use crate::registry::PackageMetadata;
use crate::strmap::StrMap;

verus! {

/// Package metadata already fetched, by package name.
pub struct MetadataCache {
    entries: StrMap<PackageMetadata>,
}

impl MetadataCache {
    /// The cached documents by name.
    pub closed spec fn cached(&self) -> Map<Seq<char>, PackageMetadata> {
        self.entries@
    }

    /// An empty cache.
    pub fn new() -> (c: Self)
        ensures
            c.cached() == Map::<Seq<char>, PackageMetadata>::empty(),
    {
        MetadataCache { entries: StrMap::new() }
    }

    /// A copy of the cached document for `name`, if there is one.
    pub fn get(&self, name: &str) -> (r: Option<PackageMetadata>)
        ensures
            match r {
                Some(m) => {
                    let c = self.cached()[name@];
                    &&& self.cached().dom().contains(name@)
                    &&& m.name == c.name
                    &&& m.dist_tags@ == c.dist_tags@
                    &&& m.dist_tags.key_order() == c.dist_tags.key_order()
                    &&& m.versions@.dom() == c.versions@.dom()
                    &&& m.versions.key_order() == c.versions.key_order()
                    &&& forall|k: Seq<char>| #[trigger] m.versions@.dom().contains(k) ==> m.versions@[k].equiv(&c.versions@[k])
                },
                None => !self.cached().dom().contains(name@),
            },
    {
        match self.entries.get(name) {
            Some(m) => Some(m.duplicate()),
            None => None,
        }
    }

    /// Stores the document fetched for `name`.
    pub fn insert(&mut self, name: String, metadata: PackageMetadata)
        ensures
            final(self).cached() == old(self).cached().insert(name@, metadata),
    {
        self.entries.insert(name, metadata);
    }
}

/// A document stored in the cache is what the cache gives back for that
/// name, until another document is stored under the same name.
pub proof fn lemma_cache_returns_stored(
    before: MetadataCache,
    after: MetadataCache,
    name: Seq<char>,
    metadata: PackageMetadata,
)
    requires
        after.cached() == before.cached().insert(name, metadata),
    ensures
        after.cached().dom().contains(name),
        after.cached()[name] == metadata,
{
}

/// What one request for a metadata document came to.
#[derive(PartialEq, Eq, Structural, Clone, Copy)]
pub enum AttemptOutcome {
    /// A success status and a body that parsed.
    Parsed,
    /// A success status and a body that did not parse.
    BodyUnreadable,
    /// A status that is not a success (the package does not exist).
    Status(u16),
    /// The request itself failed (connection, timeout).
    RequestFailed,
}

/// Why a fetch gave up.
#[derive(PartialEq, Eq, Structural, Clone, Copy)]
pub enum FetchFailure {
    /// The body did not parse, on the last allowed attempt.
    BodyUnreadable,
    /// The registry answered with this status.
    NotFound(u16),
    /// The request failed on the last allowed attempt.
    RequestFailed,
}

/// What to do after an attempt.
#[derive(PartialEq, Eq, Structural, Clone, Copy)]
pub enum FetchStep {
    /// Use the parsed document.
    Done,
    /// Wait this many milliseconds, then send the request again.
    RetryAfter(u64),
    /// Stop with this failure.
    Fail(FetchFailure),
}

/// Retries allowed after the first attempt.
pub const MAX_RETRIES: u32 = 3;

/// The wait before retry number `used + 1`: 500 ms, doubled for each retry already made.
pub open spec fn backoff_ms(used: nat) -> nat
    decreases used,
{
    if used == 0 {
        500
    } else {
        2 * backoff_ms((used - 1) as nat)
    }
}

/// The retry policy of one metadata fetch: up to three retries, with
/// exponential backoff, after a failed request or an unreadable body; none
/// after an error status.
pub struct FetchRetry {
    retries_left: u32,
}

impl FetchRetry {
    /// Retries still allowed.
    pub closed spec fn left(&self) -> nat {
        self.retries_left as nat
    }

    #[verifier::type_invariant]
    closed spec fn bounded(&self) -> bool {
        self.retries_left <= MAX_RETRIES
    }

    /// A fetch that has made no attempt yet.
    pub fn new() -> (f: Self)
        ensures
            f.left() == MAX_RETRIES,
    {
        FetchRetry { retries_left: MAX_RETRIES }
    }

    /// Decides what follows an attempt. A retry is granted only while one is
    /// left, and uses it up; so a fetch makes at most four attempts.
    pub fn record(&mut self, outcome: AttemptOutcome) -> (step: FetchStep)
        ensures
            old(self).left() <= MAX_RETRIES,
            final(self).left() <= MAX_RETRIES,
            match outcome {
                AttemptOutcome::Parsed => step == FetchStep::Done && final(self).left() == old(self).left(),
                AttemptOutcome::Status(code) => step == FetchStep::Fail(FetchFailure::NotFound(code))
                    && final(self).left() == old(self).left(),
                AttemptOutcome::BodyUnreadable => if old(self).left() == 0 {
                    step == FetchStep::Fail(FetchFailure::BodyUnreadable) && final(self).left() == 0
                } else {
                    step == FetchStep::RetryAfter(
                        backoff_ms((MAX_RETRIES - old(self).left()) as nat) as u64,
                    ) && final(self).left() == old(self).left() - 1
                },
                AttemptOutcome::RequestFailed => if old(self).left() == 0 {
                    step == FetchStep::Fail(FetchFailure::RequestFailed) && final(self).left() == 0
                } else {
                    step == FetchStep::RetryAfter(
                        backoff_ms((MAX_RETRIES - old(self).left()) as nat) as u64,
                    ) && final(self).left() == old(self).left() - 1
                },
            },
    {
        proof {
            use_type_invariant(&*self);
        }
        match outcome {
            AttemptOutcome::Parsed => FetchStep::Done,
            AttemptOutcome::Status(code) => FetchStep::Fail(FetchFailure::NotFound(code)),
            AttemptOutcome::BodyUnreadable => {
                if self.retries_left == 0 {
                    FetchStep::Fail(FetchFailure::BodyUnreadable)
                } else {
                    let delay = self.next_delay();
                    self.retries_left = self.retries_left - 1;
                    FetchStep::RetryAfter(delay)
                }
            },
            AttemptOutcome::RequestFailed => {
                if self.retries_left == 0 {
                    FetchStep::Fail(FetchFailure::RequestFailed)
                } else {
                    let delay = self.next_delay();
                    self.retries_left = self.retries_left - 1;
                    FetchStep::RetryAfter(delay)
                }
            },
        }
    }

    fn next_delay(&self) -> (d: u64)
        requires
            self.retries_left <= MAX_RETRIES,
        ensures
            d == backoff_ms((MAX_RETRIES - self.left()) as nat),
    {
        let used = MAX_RETRIES - self.retries_left;
        proof {
            reveal_with_fuel(backoff_ms, 4);
        }
        if used == 0 {
            500
        } else if used == 1 {
            1000
        } else if used == 2 {
            2000
        } else {
            4000
        }
    }
}

} // verus!
