//! Naming of the database container images the test harness runs against:
//! the supported server versions and the image registries they come from.

use vstd::prelude::*;

verus! {

/// Where a test image comes from.
#[derive(Debug)]
pub enum ImageOrigin {
    Local,
    Latest,
    Master,
}

/// The database server versions the extension supports.
#[derive(Debug)]
pub enum PgVersion {
    V14,
    V13,
    V12,
}

impl PgVersion {
    /// Reads a major version number; anything but a supported one is an
    /// error carrying the words the harness reports.
    pub fn try_from(value: &str) -> (r: Result<PgVersion, String>)
        ensures
            value@ == ("14")@ ==> (r matches Ok(v) && v is V14),
            value@ == ("13")@ ==> (r matches Ok(v) && v is V13),
            value@ == ("12")@ ==> (r matches Ok(v) && v is V12),
            value@ != ("14")@ && value@ != ("13")@ && value@ != ("12")@ ==> (r matches Err(e)
                && e@ == ("Unknown postgres version ")@ + value@),
    {
        proof {
            reveal_strlit("14");
            reveal_strlit("13");
            reveal_strlit("12");
        }
        let n: usize = value.unicode_len();
        if n == 2 && value.get_char(0) == '1' && value.get_char(1) == '4' {
            proof {
                assert(value@ =~= ("14")@);
            }
            Ok(PgVersion::V14)
        } else if n == 2 && value.get_char(0) == '1' && value.get_char(1) == '3' {
            proof {
                assert(value@ =~= ("13")@);
            }
            Ok(PgVersion::V13)
        } else if n == 2 && value.get_char(0) == '1' && value.get_char(1) == '2' {
            proof {
                assert(value@ =~= ("12")@);
            }
            Ok(PgVersion::V12)
        } else {
            proof {
                assert(value@ != ("14")@ && value@ != ("13")@ && value@ != ("12")@);
            }
            Err(String::from_str("Unknown postgres version ").concat(value))
        }
    }

    /// The version's wording in image tags and messages.
    pub fn as_str(&self) -> (r: &'static str)
        ensures
            self is V14 ==> r@ == ("14")@,
            self is V13 ==> r@ == ("13")@,
            self is V12 ==> r@ == ("12")@,
    {
        match self {
            PgVersion::V14 => "14",
            PgVersion::V13 => "13",
            PgVersion::V12 => "12",
        }
    }
}

/// The URI of the image for one origin and server version.
pub fn postgres_image_uri(origin: ImageOrigin, version: PgVersion) -> (r: &'static str)
    ensures
        ({
            let prefix: Seq<char> = match origin {
                ImageOrigin::Local => ("local/dev_promscale_extension:head-ts2-")@,
                ImageOrigin::Latest => ("timescaledev/promscale-extension:latest-ts2.7.0-")@,
                ImageOrigin::Master => ("ghcr.io/timescale/dev_promscale_extension:master-ts2-")@,
            };
            let tag: Seq<char> = match version {
                PgVersion::V12 => ("pg12")@,
                PgVersion::V13 => ("pg13")@,
                PgVersion::V14 => ("pg14")@,
            };
            r@ == prefix + tag
        }),
{
    proof {
        reveal_strlit("local/dev_promscale_extension:head-ts2-");
        reveal_strlit("timescaledev/promscale-extension:latest-ts2.7.0-");
        reveal_strlit("ghcr.io/timescale/dev_promscale_extension:master-ts2-");
        reveal_strlit("pg12");
        reveal_strlit("pg13");
        reveal_strlit("pg14");
        reveal_strlit("local/dev_promscale_extension:head-ts2-pg12");
        reveal_strlit("local/dev_promscale_extension:head-ts2-pg13");
        reveal_strlit("local/dev_promscale_extension:head-ts2-pg14");
        reveal_strlit("timescaledev/promscale-extension:latest-ts2.7.0-pg12");
        reveal_strlit("timescaledev/promscale-extension:latest-ts2.7.0-pg13");
        reveal_strlit("timescaledev/promscale-extension:latest-ts2.7.0-pg14");
        reveal_strlit("ghcr.io/timescale/dev_promscale_extension:master-ts2-pg12");
        reveal_strlit("ghcr.io/timescale/dev_promscale_extension:master-ts2-pg13");
        reveal_strlit("ghcr.io/timescale/dev_promscale_extension:master-ts2-pg14");
    }
    match (origin, version) {
        (ImageOrigin::Local, PgVersion::V12) => "local/dev_promscale_extension:head-ts2-pg12",
        (ImageOrigin::Local, PgVersion::V13) => "local/dev_promscale_extension:head-ts2-pg13",
        (ImageOrigin::Local, PgVersion::V14) => "local/dev_promscale_extension:head-ts2-pg14",
        (ImageOrigin::Latest, PgVersion::V12) => "timescaledev/promscale-extension:latest-ts2.7.0-pg12",
        (ImageOrigin::Latest, PgVersion::V13) => "timescaledev/promscale-extension:latest-ts2.7.0-pg13",
        (ImageOrigin::Latest, PgVersion::V14) => "timescaledev/promscale-extension:latest-ts2.7.0-pg14",
        (ImageOrigin::Master, PgVersion::V12) => "ghcr.io/timescale/dev_promscale_extension:master-ts2-pg12",
        (ImageOrigin::Master, PgVersion::V13) => "ghcr.io/timescale/dev_promscale_extension:master-ts2-pg13",
        (ImageOrigin::Master, PgVersion::V14) => "ghcr.io/timescale/dev_promscale_extension:master-ts2-pg14",
    }
}

} // verus!

verus! {

/// Seconds of backoff before the next connection attempt, doubling from one
/// second: attempt 1 waits one second, attempt `k` waits `2^(k-1)`.
pub open spec fn spec_backoff_secs(attempt: nat) -> nat
    decreases attempt,
{
    if attempt <= 1 {
        1
    } else {
        2 * spec_backoff_secs((attempt - 1) as nat)
    }
}

proof fn lemma_backoff_monotone(a: nat, b: nat)
    requires
        a <= b,
    ensures
        spec_backoff_secs(a) <= spec_backoff_secs(b),
    decreases b,
{
    if a < b {
        lemma_backoff_monotone(a, (b - 1) as nat);
    }
}

/// The backoff the retry loop sleeps for after failed attempt `cur_count`.
/// The doubling stays within a `u64` for every attempt the loop can reach.
pub fn retry_backoff_secs(cur_count: u32) -> (r: u64)
    requires
        1 <= cur_count <= 64,
    ensures
        r as nat == spec_backoff_secs(cur_count as nat),
{
    let mut r: u64 = 1;
    let mut k: u32 = 1;
    while k < cur_count
        invariant
            1 <= k <= cur_count <= 64,
            r as nat == spec_backoff_secs(k as nat),
        decreases cur_count - k,
    {
        proof {
            lemma_backoff_monotone(k as nat, 63);
            assert(spec_backoff_secs(63) == 0x4000_0000_0000_0000) by {
                reveal_with_fuel(spec_backoff_secs, 64);
            }
        }
        r = r * 2;
        k = k + 1;
    }
    r
}

/// Whether the retry loop stops after failed attempt `cur_count`: only once
/// the attempt that just failed was the last one allowed.
pub fn retry_gives_up(cur_count: u32, max_count: u32) -> (r: bool)
    ensures
        r == (cur_count == max_count),
{
    cur_count == max_count
}

} // verus!
