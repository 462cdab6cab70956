//! The way of a request through the proxy, and of its response back.
use crate::cache::ReasoningCache;
use crate::headers::{
    few_fields, header_fields, key_is_valid, option_text, upstream_fields, upstream_headers,
    BodyKind, HeaderError,
};
use crate::json::JsonView;
use crate::messages::{
    any_memorable, choices_of, is_patch, memorable, patch_request, remember_response, remembered,
    PatchedBody,
};
use crate::route::{
    cleaned, decoded, decodes, resolve_path, resolved, target_url, upstream, url,
};
use crate::wire::parsed_json;
use axum::http::{HeaderMap, HeaderValue};
use vstd::prelude::*;

verus! {

/// What the proxy is set up with.
pub struct ProxyConfig {
    /// The address upstream, without slashes at its end.
    pub target_base_url: String,
    /// The API key that goes upstream whatever the client sends.
    pub target_api_key: Option<String>,
    /// How long an entry of the cache counts, in nanoseconds.
    pub cache_ttl: u64,
    /// How many entries the cache may hold.
    pub cache_max_size: usize,
}

/// A request that goes upstream.
pub struct UpstreamRequest {
    pub path: String,
    pub url: String,
    pub headers: HeaderMap<HeaderValue>,
    pub body: PatchedBody,
}

/// Why a client does not get the response that it asked for.
#[derive(Clone, Copy)]
pub enum Refusal {
    /// The body of the request could not be read.
    UnreadableRequest,
    /// The API key cannot be a header value.
    InvalidApiKey,
    /// The upstream server could not be reached.
    UpstreamFailed,
    /// The body of the response could not be read.
    UnreadableResponse,
}

/// The HTTP status of a refusal: the client's fault or the upstream server's.
pub open spec fn refusal_code(refusal: Refusal) -> u16 {
    match refusal {
        Refusal::UnreadableRequest => 400,
        Refusal::InvalidApiKey => 400,
        Refusal::UpstreamFailed => 502,
        Refusal::UnreadableResponse => 502,
    }
}

/// The HTTP status of a refusal.
pub fn refusal_status(refusal: Refusal) -> (status: u16)
    ensures
        status == refusal_code(refusal),
{
    match refusal {
        Refusal::UnreadableRequest => 400,
        Refusal::InvalidApiKey => 400,
        Refusal::UpstreamFailed => 502,
        Refusal::UnreadableResponse => 502,
    }
}

/// Makes the request that goes upstream out of the one that came in.
pub fn prepare_request(
    config: &ProxyConfig,
    raw_path: &str,
    query: Option<&str>,
    headers: &HeaderMap<HeaderValue>,
    body: Vec<u8>,
    cache: &ReasoningCache,
    now: u64,
) -> (prepared: Result<UpstreamRequest, HeaderError>)
    ensures
        match prepared {
            Ok(request) => {
                &&& key_is_valid(option_text(config.target_api_key), header_fields(*headers))
                &&& request.path@ == resolved(raw_path@)
                &&& decodes(raw_path@) ==> resolved(raw_path@) == upstream(
                    cleaned(decoded(raw_path@)),
                )
                &&& request.url@ == url(
                    config.target_base_url@,
                    resolved(raw_path@),
                    match query {
                        Some(q) => Some(q@),
                        None => None,
                    },
                )
                &&& header_fields(request.headers) == upstream_fields(
                    option_text(config.target_api_key),
                    header_fields(*headers),
                )
                &&& is_patch(request.body, resolved(raw_path@), body@, cache@, now)
            },
            Err(HeaderError::InvalidApiKey) => !key_is_valid(
                option_text(config.target_api_key),
                header_fields(*headers),
            ),
            Err(HeaderError::TooManyFields) => !few_fields(header_fields(*headers)),
        },
{
    let path = resolve_path(raw_path);
    let url = target_url(config.target_base_url.as_str(), path.as_str(), query);
    let headers = match upstream_headers(headers, &config.target_api_key) {
        Ok(headers) => headers,
        Err(error) => return Err(error),
    };
    let body = patch_request(path.as_str(), body, cache, now);
    Ok(UpstreamRequest { path, url, headers, body })
}

/// Whether a status tells of success.
pub open spec fn is_success(status: u16) -> bool {
    200 <= status < 300
}

/// The choices of a response that are taken into the cache: those of a JSON body that comes with
/// success.
pub open spec fn choices_to_keep(kind: BodyKind, status: u16, body: Seq<u8>) -> Seq<JsonView> {
    match parsed_json(body) {
        Some(document) => if kind is Json && is_success(status) {
            choices_of(document)
        } else {
            seq![]
        },
        None => seq![],
    }
}

/// Takes the reasoning texts of a response into the cache, where it is JSON and tells of success;
/// tells how many those were. Where there are any and the time at which they would expire cannot be
/// written down, nothing is taken in and nothing is told.
pub fn absorb_response(
    config: &ProxyConfig,
    kind: BodyKind,
    status: u16,
    body: &[u8],
    cache: &mut ReasoningCache,
    now: u64,
) -> (cached: Option<usize>)
    requires
        old(cache).well_formed(),
    ensures
        final(cache).well_formed(),
        ({
            let choices = choices_to_keep(kind, status, body@);
            match cached {
                Some(count) => {
                    &&& any_memorable(choices) ==> now + config.cache_ttl <= u64::MAX
                    &&& count == memorable(choices, now, config.cache_ttl)
                    &&& final(cache)@ == remembered(
                        old(cache)@,
                        choices,
                        now,
                        config.cache_ttl,
                        config.cache_max_size as nat,
                    )
                },
                None => any_memorable(choices) && now + config.cache_ttl > u64::MAX && final(cache)@
                    == old(cache)@,
            }
        }),
{
    proof {
        reveal(Seq::filter);
    }
    match kind {
        BodyKind::Json => if 200 <= status && status < 300 {
            remember_response(body, cache, now, config.cache_ttl, config.cache_max_size)
        } else {
            Some(0)
        },
        _ => Some(0),
    }
}

} // verus!
