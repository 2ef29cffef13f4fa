//! The decisions of the latency probe: what to knock on, how often, and which
//! probes count. The probing itself is network I/O and happens outside.

use vstd::prelude::*;

use crate::text::{chars_of, push_range, push_str};

verus! {

/// How to probe: where to knock, how many times, and how long to wait.
#[derive(Clone, Debug)]
pub struct ProbeSettings {
    /// Absolute health path appended to each region URL (`/healthz`).
    pub health_path: String,
    /// Measured probes per region.
    pub samples: usize,
    /// Unmeasured probes run first, to prime the TCP/TLS connection.
    pub warmup: usize,
    /// Per-probe timeout in milliseconds.
    pub timeout_ms: u64,
}

/// `url` without its trailing slashes (`str::trim_end_matches('/')`).
pub open spec fn strip_trailing_slashes(url: Seq<char>) -> Seq<char>
    decreases url.len(),
{
    if url.len() > 0 && url.last() == '/' {
        strip_trailing_slashes(url.drop_last())
    } else {
        url
    }
}

/// The URL a probe requests: the region URL, trailing slashes removed, then the
/// health path.
pub open spec fn target_of(url: Seq<char>, health_path: Seq<char>) -> Seq<char> {
    strip_trailing_slashes(url) + health_path
}

proof fn lemma_strip_at(url: Seq<char>, k: int)
    requires
        0 <= k <= url.len(),
        forall|i: int| k <= i < url.len() ==> #[trigger] url[i] == '/',
        k > 0 ==> url[k - 1] != '/',
    ensures
        strip_trailing_slashes(url) == url.subrange(0, k),
    decreases url.len() - k,
{
    if k < url.len() {
        assert forall|i: int| k <= i < url.len() - 1 implies #[trigger] url.drop_last()[i] == '/' by {
            assert(url.drop_last()[i] == url[i]);
        }
        lemma_strip_at(url.drop_last(), k);
        assert(url.drop_last().subrange(0, k) == url.subrange(0, k));
    } else {
        assert(url.subrange(0, k) == url);
    }
}

impl ProbeSettings {
    /// The URL to probe for a region.
    pub fn target(&self, url: &str) -> (t: String)
        ensures
            t@ == target_of(url@, self.health_path@),
    {
        let v = chars_of(url);
        let mut end = v.len();
        while end > 0 && v[end - 1] == '/'
            invariant
                end <= v@.len(),
                forall|i: int| end <= i < v@.len() ==> #[trigger] v@[i] == '/',
            decreases end,
        {
            end = end - 1;
        }
        proof {
            lemma_strip_at(v@, end as int);
        }
        let mut t = String::new();
        push_range(&mut t, &v, 0, end);
        push_str(&mut t, self.health_path.as_str());
        t
    }

    /// How many probes a region gets: the warm-up ones, then the measured ones.
    pub fn probe_count(&self) -> (n: usize)
        requires
            self.warmup + self.samples <= usize::MAX,
        ensures
            n == self.warmup + self.samples,
    {
        self.warmup + self.samples
    }

    /// Whether probe number `probe` (from 0) yields a sample: it must come after
    /// the warm-up and have reached the region.
    pub fn counts_sample(&self, probe: usize, reached: bool) -> (b: bool)
        ensures
            b == (probe >= self.warmup && reached),
    {
        probe >= self.warmup && reached
    }
}

} // verus!
