//! Forwarding of requests: the address a request is forwarded to, and which headers
//! of the answer are passed back.

use vstd::prelude::*;
use vstd::utf8::{encode_utf8, decode_utf8, is_char_boundary, encode_utf8_decode_utf8};
use crate::config::Proxy;

verus! {

/// `url::Url`, declared so that URLs can be carried through verified code; what a URL
/// holds is seen only through `url_text`.
#[verifier::external_type_specification]
#[verifier::external_body]
pub struct ExUrl(url::Url);

/// `url::ParseError`, the error of `Url::parse`, carried through unread.
#[verifier::external_type_specification]
#[verifier::external_body]
pub struct ExUrlParseError(url::ParseError);

/// The text of a URL, as `Url::as_str` gives it.
pub uninterp spec fn url_text(u: url::Url) -> Seq<char>;

/// The text of the URL that `Url::parse` reads from `input`, or `None` where it fails.
pub uninterp spec fn parsed_url(input: Seq<char>) -> Option<Seq<char>>;

/// The text of the URL `url` after `Url::set_path` with `path`.
pub uninterp spec fn url_with_path(url: Seq<char>, path: Seq<char>) -> Seq<char>;

/// The text of the URL `url` after `Url::set_query` with `query`.
pub uninterp spec fn url_with_query(url: Seq<char>, query: Option<Seq<char>>) -> Seq<char>;

/// The text of an optional string.
pub open spec fn opt_text(q: Option<&str>) -> Option<Seq<char>> {
    match q {
        Some(s) => Some(s@),
        None => None,
    }
}

/// `Url::as_str`: the contract names the text of the URL `url_text`.
#[verifier::external_body]
fn url_as_str(u: &url::Url) -> (r: &str)
    ensures
        r@ == url_text(*u),
{
    u.as_str()
}

/// `Url::parse`: the contract says that it succeeds exactly where `parsed_url` is some
/// text, and that the URL it gives has that text; how URLs are read is not stated.
#[verifier::external_body]
fn url_parse(input: &str) -> (r: Result<url::Url, url::ParseError>)
    ensures
        r is Ok <==> parsed_url(input@) is Some,
        r matches Ok(u) ==> url_text(u) == parsed_url(input@)->0,
{
    url::Url::parse(input)
}

/// `Url::set_path`: the contract says that the new text is `url_with_path` of the old
/// text and `path`; how a path is written into a URL is not stated. The function panics
/// where the text outgrows `u32` offsets, which the bound in `requires` rules out: each
/// byte of `path` is written as at most three bytes, and at most a few are added.
#[verifier::external_body]
fn url_set_path(u: &mut url::Url, path: &str)
    requires
        fits_url(encode_utf8(url_text(*old(u))).len() as int, encode_utf8(path@).len() as int),
    ensures
        url_text(*final(u)) == url_with_path(url_text(*old(u)), path@),
{
    u.set_path(path)
}

/// `Url::set_query`: the contract says that the new text is `url_with_query` of the old
/// text and `query`; how a query is written into a URL is not stated. The function panics
/// where the text outgrows `u32` offsets, which the bound in `requires` rules out.
#[verifier::external_body]
fn url_set_query(u: &mut url::Url, query: Option<&str>)
    requires
        fits_url(encode_utf8(url_text(*old(u))).len() as int, opt_bytes(opt_text(query))),
    ensures
        url_text(*final(u)) == url_with_query(url_text(*old(u)), opt_text(query)),
{
    u.set_query(query)
}

/// The number of UTF-8 bytes of an optional text, zero for none.
pub open spec fn opt_bytes(q: Option<Seq<char>>) -> int {
    match q {
        Some(s) => encode_utf8(s).len() as int,
        None => 0,
    }
}

/// Whether an address of `text_len` bytes can take on a part of `part_len` bytes, each
/// written as at most three, within the `u32` offsets that URLs keep.
pub open spec fn fits_url(text_len: int, part_len: int) -> bool {
    text_len + 3 * part_len + 8 <= u32::MAX
}

fn check_fits_url(text_len: usize, part_len: usize) -> (r: bool)
    ensures
        r == fits_url(text_len as int, part_len as int),
{
    if text_len > 0xffff_fff7 {
        return false;
    }
    let room: usize = 0xffff_fff7 - text_len;
    let r = part_len <= room / 3;
    assert(r == (3 * part_len <= room)) by (nonlinear_arith)
        requires
            r == (part_len <= room / 3),
    ;
    r
}

/// The characters of `path` after its first `prefix_len` bytes.
pub open spec fn forwarded_path(path: Seq<char>, prefix_len: int) -> Seq<char> {
    decode_utf8(encode_utf8(path).subrange(prefix_len, encode_utf8(path).len() as int))
}

/// The part of `request_path` after its first `prefix_len` bytes: the path that is
/// forwarded once the prefix of the rule is taken off.
pub fn forward_path(request_path: &str, prefix_len: usize) -> (r: &str)
    requires
        is_char_boundary(encode_utf8(request_path@), prefix_len as int),
    ensures
        encode_utf8(r@) == encode_utf8(request_path@).subrange(prefix_len as int, encode_utf8(request_path@).len() as int),
        r@ == forwarded_path(request_path@, prefix_len as int),
{
    let (_, rest) = request_path.split_at(prefix_len);
    proof {
        encode_utf8_decode_utf8(rest@);
    }
    rest
}

/// The address that a request for `request_path` with `query` is forwarded to under a
/// rule for the prefix `rule_path` whose first target is `target_url`: the target, with
/// the path of the request after the prefix, and the query of the request. `None` where
/// the target is no URL, or where the address could outgrow the `u32` offsets that URLs keep.
pub open spec fn forwarded_address(
    rule_path: Seq<char>,
    target_url: Seq<char>,
    request_path: Seq<char>,
    query: Option<Seq<char>>,
) -> Option<Seq<char>> {
    let path = forwarded_path(request_path, encode_utf8(rule_path).len() as int);
    match parsed_url(target_url) {
        Some(t) => if fits_url(encode_utf8(t).len() as int, encode_utf8(path).len() as int) && fits_url(
            encode_utf8(url_with_path(t, path)).len() as int,
            opt_bytes(query),
        ) {
            Some(url_with_query(url_with_path(t, path), query))
        } else {
            None
        },
        None => None,
    }
}

/// The text of an optional string.
pub open spec fn opt_string_text(s: Option<String>) -> Option<Seq<char>> {
    match s {
        Some(t) => Some(t@),
        None => None,
    }
}

/// The address that a request for `request_path` with `query` is forwarded to under the
/// rule `pr`, as `forwarded_address` says: only the rule's path and its first target's
/// URL are used.
pub fn forward_url(pr: &Proxy, request_path: &str, query: Option<&str>) -> (r: Option<String>)
    requires
        pr.target.len() > 0,
        encode_utf8(pr.path@).len() <= usize::MAX,
        is_char_boundary(encode_utf8(request_path@), encode_utf8(pr.path@).len() as int),
    ensures
        opt_string_text(r) == forwarded_address(pr.path@, pr.target[0].url@, request_path@, opt_text(query)),
        parsed_url(pr.target[0].url@) is None ==> r is None,
        r matches Some(s) ==> parsed_url(pr.target[0].url@) is Some && s@ == url_with_query(
            url_with_path(
                parsed_url(pr.target[0].url@)->0,
                forwarded_path(request_path@, encode_utf8(pr.path@).len() as int),
            ),
            opt_text(query),
        ),
{
    broadcast use vstd::slice::group_slice_axioms;

    let rest = forward_path(request_path, pr.path.as_str().len());
    let mut u = match url_parse(pr.target[0].url.as_str()) {
        Ok(u) => u,
        Err(_) => return None,
    };
    if !check_fits_url(url_as_str(&u).as_bytes().len(), rest.as_bytes().len()) {
        return None;
    }
    url_set_path(&mut u, rest);
    let q_len: usize = match query {
        Some(q) => q.as_bytes().len(),
        None => 0,
    };
    if !check_fits_url(url_as_str(&u).as_bytes().len(), q_len) {
        return None;
    }
    url_set_query(&mut u, query);
    Some(url_as_str(&u).to_owned())
}

/// Where the target is a URL and the address fits, the request is forwarded to the
/// target with the request's path after the prefix and with the request's query as
/// it was sent, whatever that query holds; where the target is no URL, it is not forwarded.
pub proof fn law_forward_keeps_query(
    rule_path: Seq<char>,
    target_url: Seq<char>,
    request_path: Seq<char>,
    query: Option<Seq<char>>,
)
    ensures
        parsed_url(target_url) is None ==> forwarded_address(rule_path, target_url, request_path, query) is None,
        ({
            let path = forwarded_path(request_path, encode_utf8(rule_path).len() as int);
            parsed_url(target_url) matches Some(t) ==> (
                fits_url(encode_utf8(t).len() as int, encode_utf8(path).len() as int)
                && fits_url(encode_utf8(url_with_path(t, path)).len() as int, opt_bytes(query))
                ==> forwarded_address(rule_path, target_url, request_path, query) == Some(
                    url_with_query(url_with_path(t, path), query),
                )
            )
        }),
{
}

/// Two rules with the same path and the same URL for their first target forward every
/// request to the same address: the weights and the other targets play no part.
pub proof fn law_forward_uses_first_target(pr1: Proxy, pr2: Proxy, request_path: Seq<char>, query: Option<Seq<char>>)
    requires
        pr1.target.len() > 0,
        pr2.target.len() > 0,
        pr1.path@ == pr2.path@,
        pr1.target[0].url@ == pr2.target[0].url@,
    ensures
        forwarded_address(pr1.path@, pr1.target[0].url@, request_path, query) == forwarded_address(
            pr2.path@,
            pr2.target[0].url@,
            request_path,
            query,
        ),
{
}

/// Whether a header of a forwarded answer is passed back to the client: all but
/// `connection` and `content-length` are. The comparison is exact; header names taken
/// from a header map are already lower-case.
pub fn keeps_response_header(name: &str) -> (r: bool)
    ensures
        r == (name@ != "connection"@ && name@ != "content-length"@),
{
    let n = name.to_owned();
    !(n == "connection".to_owned()) && !(n == "content-length".to_owned())
}

} // verus!
