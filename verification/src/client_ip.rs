//! Which address a request came from.

use vstd::prelude::*;

use crate::headers::{header_text, HeaderList};
use crate::text::{split_once, split_once_exec, trim, trim_exec, chars_of, string_of};

verus! {

/// The text before the first comma of `v`, or all of `v` when it has none.
pub open spec fn first_list_item(v: Seq<char>) -> Seq<char> {
    match split_once(v, seq![',']) {
        Some((head, _)) => head,
        None => v,
    }
}

/// The address that `client_ip` reports: the leftmost entry of
/// `X-Forwarded-For`, else `X-Real-Ip`, else the peer's address, else
/// `unknown`; header values trimmed of whitespace.
pub open spec fn client_ip_spec(
    h: Seq<(Seq<char>, Seq<u8>)>,
    peer: Option<Seq<char>>,
) -> Seq<char> {
    match header_text(h, "x-forwarded-for"@) {
        Some(v) => trim(first_list_item(v)),
        None => match header_text(h, "x-real-ip"@) {
            Some(v) => trim(v),
            None => match peer {
                Some(p) => p,
                None => "unknown"@,
            },
        },
    }
}

/// Resolves the best guess of the client's address.
///
/// Priority: the leftmost entry of `X-Forwarded-For`, then `X-Real-Ip`,
/// then the address of the connected peer, and `unknown` when none is
/// known.
pub fn client_ip(headers: &HeaderList, peer: Option<&str>) -> (res: String)
    ensures
        res@ == client_ip_spec(headers@, match peer {
            Some(p) => Some(p@),
            None => None,
        }),
{
    if let Some(xff) = headers.get_str("x-forwarded-for") {
        let cs = chars_of(xff.as_str());
        let comma: Vec<char> = vec![','];
        assert(comma@ =~= seq![',']);
        let first = match split_once_exec(cs.as_slice(), comma.as_slice()) {
            Some((head, _)) => head,
            None => cs,
        };
        let t = trim_exec(first.as_slice());
        return string_of(t.as_slice());
    }
    if let Some(xri) = headers.get_str("x-real-ip") {
        let cs = chars_of(xri.as_str());
        let t = trim_exec(cs.as_slice());
        return string_of(t.as_slice());
    }
    if let Some(p) = peer {
        return p.to_owned();
    }
    "unknown".to_owned()
}

} // verus!
