//! The conditional-request decision: from a table, a request path and an
//! optional `If-None-Match` value to a status, headers and body.
use vstd::prelude::*;
use vstd::string::*;

use crate::etag::{encode_etag, etag_of, lemma_etag_injective};
use crate::map::{Asset, AssetMap};
use crate::text::same_text;

verus! {

/// The three outcomes of a request.
#[derive(Debug, Clone, Copy, PartialEq, Eq, Structural)]
pub enum Status {
    /// 200: the asset's content, type and entity tag.
    Success,
    /// 304: the client's copy is current; no body.
    NotModified,
    /// 404: no asset has that name; no headers, no body.
    NotFound,
}

/// What the serving framework writes back for one request.
#[derive(Debug)]
pub struct Response<'a> {
    pub status: Status,
    pub content_type: Option<&'a str>,
    pub etag: Option<String>,
    pub body: Option<&'a [u8]>,
}

/// A response as plain values.
pub struct ResponseView {
    pub status: Status,
    pub content_type: Option<Seq<char>>,
    pub etag: Option<Seq<char>>,
    pub body: Option<Seq<u8>>,
}

impl<'a> View for Response<'a> {
    type V = ResponseView;

    open spec fn view(&self) -> ResponseView {
        ResponseView {
            status: self.status,
            content_type: match self.content_type {
                Some(t) => Some(t@),
                None => None,
            },
            etag: match self.etag {
                Some(e) => Some(e@),
                None => None,
            },
            body: match self.body {
                Some(b) => Some(b@),
                None => None,
            },
        }
    }
}

/// The text of an optional header value.
pub open spec fn text_of(v: Option<&str>) -> Option<Seq<char>> {
    match v {
        Some(s) => Some(s@),
        None => None,
    }
}

/// The answer for a request that names `asset`: 304 with the entity tag when
/// the validator equals the asset's own entity tag, else 200 with the content.
pub open spec fn asset_response(asset: Asset, validator: Option<Seq<char>>) -> ResponseView {
    let tag = etag_of(asset.digest@);
    if validator == Some(tag) {
        ResponseView { status: Status::NotModified, content_type: None, etag: Some(tag), body: None }
    } else {
        ResponseView {
            status: Status::Success,
            content_type: Some(asset.content_type@),
            etag: Some(tag),
            body: Some(asset.content@),
        }
    }
}

/// The 404 answer.
pub open spec fn not_found() -> ResponseView {
    ResponseView { status: Status::NotFound, content_type: None, etag: None, body: None }
}

/// The name that a request path asks for: the path without one leading `/`.
pub open spec fn request_key(path: Seq<char>) -> Seq<char> {
    if path.len() > 0 && path[0] == '/' {
        path.drop_first()
    } else {
        path
    }
}

/// Some member of `members` is named `key`.
pub open spec fn has_name(members: Seq<Asset>, key: Seq<char>) -> bool {
    exists|i: int| 0 <= i < members.len() && (#[trigger] members[i]).name@ == key
}

/// The member that `respond_spec` answers for, where some member has `key`.
pub open spec fn named(members: Seq<Asset>, key: Seq<char>) -> Asset {
    members[choose|i: int| 0 <= i < members.len() && (#[trigger] members[i]).name@ == key]
}

/// The answer to a request for `path` with an optional validator: 404 when no
/// member has the requested name, whatever the validator; else the answer
/// for the member that has it.
pub open spec fn respond_spec(
    members: Seq<Asset>,
    path: Seq<char>,
    validator: Option<Seq<char>>,
) -> ResponseView {
    let key = request_key(path);
    if has_name(members, key) {
        asset_response(named(members, key), validator)
    } else {
        not_found()
    }
}

/// Strips one leading `/` from a request path.
pub fn strip_leading_slash(path: &str) -> (r: &str)
    ensures
        r@ == request_key(path@),
{
    if !path.is_empty() && path.get_char(0) == '/' {
        let n = path.unicode_len();
        path.substring_char(1, n)
    } else {
        path
    }
}

/// The answer for a request that names `asset`, given the client's
/// `If-None-Match` value if it sent one.
pub fn respond_to_asset<'a>(asset: &Asset<'a>, if_none_match: Option<&str>) -> (r: Response<'a>)
    ensures
        r@ == asset_response(*asset, text_of(if_none_match)),
{
    let etag = encode_etag(asset.digest);
    let not_modified = match if_none_match {
        Some(v) => same_text(v, etag.as_str()),
        None => false,
    };
    if not_modified {
        Response { status: Status::NotModified, content_type: None, etag: Some(etag), body: None }
    } else {
        Response {
            status: Status::Success,
            content_type: Some(asset.content_type),
            etag: Some(etag),
            body: Some(asset.content),
        }
    }
}

/// The answer to a request for `path`: the path loses one leading `/` and is
/// looked up; a miss is 404 before any validator is looked at.
///
/// The path is never resolved against a file system, so `.` and `..`
/// segments get no treatment of their own: such a path is looked up as it
/// stands, and misses unless a member has exactly that name. The validator
/// is compared byte for byte with the asset's own entity tag.
pub fn respond<'a>(assets: &AssetMap<'a>, path: &str, if_none_match: Option<&str>) -> (r: Response<'a>)
    requires
        assets.wf(),
    ensures
        r@ == respond_spec(assets.members@, path@, text_of(if_none_match)),
{
    let key = strip_leading_slash(path);
    match assets.get(key) {
        Some(asset) => {
            let r = respond_to_asset(asset, if_none_match);
            proof {
                let members = assets.members@;
                let i = choose|i: int|
                    0 <= i < members.len() && (#[trigger] members[i]).name@ == key@;
                assert(members[i].name@ == key@);
                assert(named(members, key@) == members[i]);
            }
            r
        },
        None => Response { status: Status::NotFound, content_type: None, etag: None, body: None },
    }
}

/// A request for a name that no asset has is answered 404, whatever
/// validator it carries: the validator is never compared.
pub proof fn lemma_not_found_precedence(
    members: Seq<Asset>,
    path: Seq<char>,
    validator: Option<Seq<char>>,
)
    requires
        !has_name(members, request_key(path)),
    ensures
        respond_spec(members, path, validator) == not_found(),
        respond_spec(members, path, validator).status != Status::NotModified,
{
}

/// A request for an asset without a validator is answered 200 with the
/// asset's content, type and entity tag; the same request carrying that
/// entity tag is answered 304, with the tag and without a body.
pub proof fn lemma_revalidation_round_trip(members: Seq<Asset>, path: Seq<char>)
    requires
        has_name(members, request_key(path)),
    ensures
        ({
            let asset = named(members, request_key(path));
            let first = respond_spec(members, path, None);
            let again = respond_spec(members, path, first.etag);
            &&& first.status == Status::Success
            &&& first.body == Some(asset.content@)
            &&& first.content_type == Some(asset.content_type@)
            &&& first.etag == Some(etag_of(asset.digest@))
            &&& again.status == Status::NotModified
            &&& again.body is None
            &&& again.etag == first.etag
        }),
{
}

/// The entity tag obtained for one asset does not revalidate a request for
/// another asset whose digest differs: that request is answered 200 with
/// the other asset's content.
pub proof fn lemma_etag_isolation(members: Seq<Asset>, path_a: Seq<char>, path_b: Seq<char>)
    requires
        has_name(members, request_key(path_a)),
        has_name(members, request_key(path_b)),
        named(members, request_key(path_a)).digest@ != named(members, request_key(path_b)).digest@,
    ensures
        ({
            let tag = respond_spec(members, path_a, None).etag;
            let answer = respond_spec(members, path_b, tag);
            &&& answer.status == Status::Success
            &&& answer.body == Some(named(members, request_key(path_b)).content@)
        }),
{
    let da = named(members, request_key(path_a)).digest@;
    let db = named(members, request_key(path_b)).digest@;
    if etag_of(da) == etag_of(db) {
        lemma_etag_injective(da, db);
    }
}

} // verus!
