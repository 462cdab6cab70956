//! What the proxy tells of itself.
use crate::json::{members_view, Json, JsonView};
use crate::wire::{number, whole_number};
use vstd::prelude::*;

verus! {

/// The port that the proxy listens on.
pub const LISTEN_PORT: u16 = 8899;

/// How many entries the cache may hold.
pub const CACHE_MAX_SIZE: usize = 2000;

/// How long an entry of the cache counts, in seconds.
pub const CACHE_TTL_SECS: u64 = 7200;

/// How long an entry of the cache counts, in nanoseconds.
pub const CACHE_TTL: u64 = 7_200_000_000_000;

/// How often the expired entries of the cache are dropped, in seconds.
pub const CACHE_CLEAN_INTERVAL_SECS: u64 = 60;

/// The number of nanoseconds in a second.
pub const NANOS_PER_SEC: u64 = 1_000_000_000;

/// The short report of the proxy's state.
pub open spec fn health_report(target_base_url: Seq<char>, cache_size: u64) -> JsonView {
    JsonView::Object(
        map![
            "status"@ => JsonView::Text("ok"@),
            "target_base_url"@ => JsonView::Text(target_base_url),
            "cache_size"@ => JsonView::Number(whole_number(cache_size)),
            "fix_reasoning_content"@ => JsonView::Bool(true),
        ],
    )
}

/// The full report of the proxy's state: the short one, the bound of the cache, and how long its
/// entries count, in whole seconds.
pub open spec fn status_report(
    target_base_url: Seq<char>,
    cache_size: u64,
    cache_max: u64,
    cache_ttl: u64,
) -> JsonView {
    health_report(target_base_url, cache_size).with_member(
        "cache_max"@,
        JsonView::Number(whole_number(cache_max)),
    ).with_member(
        "cache_ttl_secs"@,
        JsonView::Number(whole_number(cache_ttl / NANOS_PER_SEC)),
    )
}

/// The short report of the proxy's state.
pub fn health_check(target_base_url: &str, cache_size: usize) -> (report: Json)
    ensures
        report@ == health_report(target_base_url@, cache_size as u64),
{
    let mut report = Json::Object(Vec::new());
    proof {
        assert(report@ == JsonView::Object(members_view(Seq::empty())));
    }
    report.set("status".to_owned(), Json::Text("ok".to_owned()));
    report.set("target_base_url".to_owned(), Json::Text(target_base_url.to_owned()));
    report.set("cache_size".to_owned(), number(cache_size as u64));
    report.set("fix_reasoning_content".to_owned(), Json::Bool(true));
    report
}

/// The full report of the proxy's state.
pub fn status_page(
    target_base_url: &str,
    cache_size: usize,
    cache_max: usize,
    cache_ttl: u64,
) -> (report: Json)
    ensures
        report@ == status_report(
            target_base_url@,
            cache_size as u64,
            cache_max as u64,
            cache_ttl,
        ),
{
    let mut report = health_check(target_base_url, cache_size);
    report.set("cache_max".to_owned(), number(cache_max as u64));
    report.set("cache_ttl_secs".to_owned(), number(cache_ttl / NANOS_PER_SEC));
    report
}

/// The short report has exactly four members: the status, the upstream address as it is configured,
/// the number of entries in the cache, and that reasoning texts are filled in.
pub proof fn the_short_report_has_four_members(target_base_url: Seq<char>, cache_size: u64)
    ensures
        ({
            let members = health_report(target_base_url, cache_size)->Object_0;
            &&& health_report(target_base_url, cache_size) is Object
            &&& members.contains_pair("status"@, JsonView::Text("ok"@))
            &&& members.contains_pair("target_base_url"@, JsonView::Text(target_base_url))
            &&& members.contains_pair("cache_size"@, JsonView::Number(whole_number(cache_size)))
            &&& members.contains_pair("fix_reasoning_content"@, JsonView::Bool(true))
            &&& forall|name: Seq<char>| #[trigger]
                members.contains_key(name) ==> name == "status"@ || name == "target_base_url"@ || name
                    == "cache_size"@ || name == "fix_reasoning_content"@
        }),
{
    member_names_differ();
}

/// The full report is the short one and two members more: the bound of the cache, and the lifetime of
/// its entries in whole seconds.
pub proof fn the_full_report_has_two_more(
    target_base_url: Seq<char>,
    cache_size: u64,
    cache_max: u64,
    cache_ttl: u64,
    seconds: u64,
)
    requires
        seconds * 1_000_000_000 <= cache_ttl < (seconds + 1) * 1_000_000_000,
    ensures
        ({
            let short = health_report(target_base_url, cache_size)->Object_0;
            let members = status_report(target_base_url, cache_size, cache_max, cache_ttl)->Object_0;
            &&& status_report(target_base_url, cache_size, cache_max, cache_ttl) is Object
            &&& members.contains_pair("cache_max"@, JsonView::Number(whole_number(cache_max)))
            &&& members.contains_pair("cache_ttl_secs"@, JsonView::Number(whole_number(seconds)))
            &&& members.remove("cache_max"@).remove("cache_ttl_secs"@) == short
        }),
{
    member_names_differ();
    assert(cache_ttl / NANOS_PER_SEC == seconds);
    let short = health_report(target_base_url, cache_size)->Object_0;
    let members = status_report(target_base_url, cache_size, cache_max, cache_ttl)->Object_0;
    assert(members.remove("cache_max"@).remove("cache_ttl_secs"@) =~= short);
}

/// The names of the members of the reports are different names.
proof fn member_names_differ()
    ensures
        "status"@ != "target_base_url"@,
        "status"@ != "cache_size"@,
        "status"@ != "fix_reasoning_content"@,
        "target_base_url"@ != "cache_size"@,
        "target_base_url"@ != "fix_reasoning_content"@,
        "cache_size"@ != "fix_reasoning_content"@,
        "cache_max"@ != "cache_ttl_secs"@,
        "cache_max"@ != "status"@,
        "cache_max"@ != "target_base_url"@,
        "cache_max"@ != "cache_size"@,
        "cache_max"@ != "fix_reasoning_content"@,
        "cache_ttl_secs"@ != "status"@,
        "cache_ttl_secs"@ != "target_base_url"@,
        "cache_ttl_secs"@ != "cache_size"@,
        "cache_ttl_secs"@ != "fix_reasoning_content"@,
{
    reveal_strlit("status");
    reveal_strlit("target_base_url");
    reveal_strlit("cache_size");
    reveal_strlit("fix_reasoning_content");
    reveal_strlit("cache_max");
    reveal_strlit("cache_ttl_secs");
    assert("status"@.len() == 6);
    assert("target_base_url"@.len() == 15);
    assert("cache_size"@.len() == 10);
    assert("fix_reasoning_content"@.len() == 21);
    assert("cache_max"@.len() == 9);
    assert("cache_ttl_secs"@.len() == 14);
}

} // verus!
