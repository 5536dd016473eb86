//! Extraction of client-address information from the headers of a framed
//! request.
//!
//! Header lines are the lines after the request line up to the first empty
//! line. A header field splits at its first colon; names compare
//! case-insensitively, and when a name repeats the last occurrence wins.
//! The reported public address prefers `Fly-Client-Ip`, then the first
//! comma-separated entry of `X-Forwarded-For`, then `X-Real-Ip`, and falls
//! back to the transport-layer peer address.

use vstd::prelude::*;

use crate::text::{find_from, lines_of, lower_bytes, lower_eq, split_lines, trim, trimmed};

verus! {

/// Client-address information derived from one request.
pub struct IpInfo {
    pub public_ip: Vec<u8>,
    pub peer_ip: Vec<u8>,
    pub forwarded: Vec<u8>,
    pub user_agent: Vec<u8>,
}

/// The lower-case bytes of `fly-client-ip`.
pub open spec fn fly_name() -> Seq<u8> {
    seq![102u8, 108u8, 121u8, 45u8, 99u8, 108u8, 105u8, 101u8, 110u8, 116u8, 45u8, 105u8, 112u8]
}

/// The lower-case bytes of `x-forwarded-for`.
pub open spec fn xff_name() -> Seq<u8> {
    seq![120u8, 45u8, 102u8, 111u8, 114u8, 119u8, 97u8, 114u8, 100u8, 101u8, 100u8, 45u8, 102u8, 111u8, 114u8]
}

/// The lower-case bytes of `x-real-ip`.
pub open spec fn xreal_name() -> Seq<u8> {
    seq![120u8, 45u8, 114u8, 101u8, 97u8, 108u8, 45u8, 105u8, 112u8]
}

/// The lower-case bytes of `user-agent`.
pub open spec fn ua_name() -> Seq<u8> {
    seq![117u8, 115u8, 101u8, 114u8, 45u8, 97u8, 103u8, 101u8, 110u8, 116u8]
}

/// The bytes of `none`, reported when no forwarding chain was sent.
pub open spec fn none_text() -> Seq<u8> {
    seq![110u8, 111u8, 110u8, 101u8]
}

/// The bytes of `unknown`, reported when no user agent was sent.
pub open spec fn unknown_text() -> Seq<u8> {
    seq![117u8, 110u8, 107u8, 110u8, 111u8, 119u8, 110u8]
}

/// The longest prefix of lines before an empty line.
pub open spec fn until_blank(ls: Seq<Seq<u8>>) -> Seq<Seq<u8>>
    decreases ls.len(),
{
    if ls.len() == 0 || ls[0].len() == 0 {
        Seq::empty()
    } else {
        seq![ls[0]] + until_blank(ls.drop_first())
    }
}

pub proof fn lemma_until_blank_is(ls: Seq<Seq<u8>>, k: int)
    requires
        0 <= k <= ls.len(),
        forall|j: int| 0 <= j < k ==> ls[j].len() > 0,
        k < ls.len() ==> ls[k].len() == 0,
    ensures
        until_blank(ls) == ls.take(k),
    decreases k,
{
    if k == 0 {
        assert(ls.take(0) =~= Seq::<Seq<u8>>::empty());
    } else {
        lemma_until_blank_is(ls.drop_first(), k - 1);
        assert(ls.drop_first().take(k - 1) =~= ls.take(k).drop_first());
        assert(seq![ls[0]] + ls.take(k).drop_first() =~= ls.take(k));
    }
}

/// The header lines of a request: the lines after the request line, up to
/// the first empty line.
pub open spec fn header_lines(s: Seq<u8>) -> Seq<Seq<u8>> {
    if lines_of(s).len() == 0 {
        Seq::empty()
    } else {
        until_blank(lines_of(s).drop_first())
    }
}

pub open spec fn has_colon(l: Seq<u8>) -> bool {
    find_from(l, 58, 0) < l.len()
}

/// The trimmed text before a header line's first colon.
pub open spec fn field_key(l: Seq<u8>) -> Seq<u8> {
    trimmed(l.take(find_from(l, 58, 0)))
}

/// The trimmed text after a header line's first colon.
pub open spec fn field_value(l: Seq<u8>) -> Seq<u8> {
    trimmed(l.skip(find_from(l, 58, 0) + 1))
}

/// Whether a header line carries the given lower-case field name.
pub open spec fn key_is(l: Seq<u8>, name: Seq<u8>) -> bool {
    has_colon(l) && lower_bytes(field_key(l)) == name
}

/// The value of the last header line carrying the given name, if any.
pub open spec fn header_lookup(ls: Seq<Seq<u8>>, name: Seq<u8>) -> Option<Seq<u8>>
    decreases ls.len(),
{
    if ls.len() == 0 {
        Option::None
    } else if key_is(ls.last(), name) {
        Option::Some(field_value(ls.last()))
    } else {
        header_lookup(ls.drop_last(), name)
    }
}

/// The trimmed first comma-separated entry of a forwarding chain.
pub open spec fn first_segment(v: Seq<u8>) -> Seq<u8> {
    trimmed(v.take(find_from(v, 44, 0)))
}

/// The public address a request reports: `Fly-Client-Ip` if sent, else the
/// first entry of `X-Forwarded-For`, else `X-Real-Ip`, else the peer
/// address.
pub open spec fn chosen_public_ip(hs: Seq<Seq<u8>>, peer: Seq<u8>) -> Seq<u8> {
    match header_lookup(hs, fly_name()) {
        Option::Some(v) => v,
        Option::None => match header_lookup(hs, xff_name()) {
            Option::Some(v) => first_segment(v),
            Option::None => match header_lookup(hs, xreal_name()) {
                Option::Some(v) => v,
                Option::None => peer,
            },
        },
    }
}

fn fly_name_vec() -> (v: Vec<u8>)
    ensures
        v@ == fly_name(),
        lower_bytes(v@) == v@,
{
    let mut v: Vec<u8> = Vec::new();
    v.push(102);
    v.push(108);
    v.push(121);
    v.push(45);
    v.push(99);
    v.push(108);
    v.push(105);
    v.push(101);
    v.push(110);
    v.push(116);
    v.push(45);
    v.push(105);
    v.push(112);
    proof {
        assert(v@ =~= fly_name());
        assert(lower_bytes(v@) =~= v@);
    }
    v
}

fn xff_name_vec() -> (v: Vec<u8>)
    ensures
        v@ == xff_name(),
        lower_bytes(v@) == v@,
{
    let mut v: Vec<u8> = Vec::new();
    v.push(120);
    v.push(45);
    v.push(102);
    v.push(111);
    v.push(114);
    v.push(119);
    v.push(97);
    v.push(114);
    v.push(100);
    v.push(101);
    v.push(100);
    v.push(45);
    v.push(102);
    v.push(111);
    v.push(114);
    proof {
        assert(v@ =~= xff_name());
        assert(lower_bytes(v@) =~= v@);
    }
    v
}

fn xreal_name_vec() -> (v: Vec<u8>)
    ensures
        v@ == xreal_name(),
        lower_bytes(v@) == v@,
{
    let mut v: Vec<u8> = Vec::new();
    v.push(120);
    v.push(45);
    v.push(114);
    v.push(101);
    v.push(97);
    v.push(108);
    v.push(45);
    v.push(105);
    v.push(112);
    proof {
        assert(v@ =~= xreal_name());
        assert(lower_bytes(v@) =~= v@);
    }
    v
}

fn ua_name_vec() -> (v: Vec<u8>)
    ensures
        v@ == ua_name(),
        lower_bytes(v@) == v@,
{
    let mut v: Vec<u8> = Vec::new();
    v.push(117);
    v.push(115);
    v.push(101);
    v.push(114);
    v.push(45);
    v.push(97);
    v.push(103);
    v.push(101);
    v.push(110);
    v.push(116);
    proof {
        assert(v@ =~= ua_name());
        assert(lower_bytes(v@) =~= v@);
    }
    v
}

fn none_vec() -> (v: Vec<u8>)
    ensures
        v@ == none_text(),
{
    let mut v: Vec<u8> = Vec::new();
    v.push(110);
    v.push(111);
    v.push(110);
    v.push(101);
    proof {
        assert(v@ =~= none_text());
    }
    v
}

fn unknown_vec() -> (v: Vec<u8>)
    ensures
        v@ == unknown_text(),
{
    let mut v: Vec<u8> = Vec::new();
    v.push(117);
    v.push(110);
    v.push(107);
    v.push(110);
    v.push(111);
    v.push(119);
    v.push(110);
    proof {
        assert(v@ =~= unknown_text());
    }
    v
}

fn first_segment_exec(v: &Vec<u8>) -> (r: Vec<u8>)
    ensures
        r@ == first_segment(v@),
{
    let c = crate::text::find_byte(v.as_slice(), 44, 0, v.len());
    proof {
        assert(v@.take(v@.len() as int) =~= v@);
    }
    let seg = vstd::slice::slice_subrange(v.as_slice(), 0, c);
    let r = trim(seg);
    proof {
        assert(seg@ =~= v@.take(c as int));
    }
    r
}

fn clone_bytes(v: &Vec<u8>) -> (r: Vec<u8>)
    ensures
        r@ == v@,
{
    let r = vstd::slice::slice_to_vec(v.as_slice());
    r
}

/// Extracts the client-address information of one framed request: the
/// reported public address, the peer address, the full forwarding chain
/// (or `none`), and the user agent (or `unknown`).
pub fn extract_ip_info(req: &Vec<u8>, peer_ip: &Vec<u8>) -> (r: IpInfo)
    ensures
        r.peer_ip@ == peer_ip@,
        r.public_ip@ == chosen_public_ip(header_lines(req@), peer_ip@),
        r.forwarded@ == (match header_lookup(header_lines(req@), xff_name()) {
            Option::Some(v) => v,
            Option::None => none_text(),
        }),
        r.user_agent@ == (match header_lookup(header_lines(req@), ua_name()) {
            Option::Some(v) => v,
            Option::None => unknown_text(),
        }),
{
    let lines = split_lines(req.as_slice(), req.len());
    proof {
        assert(req@.take(req@.len() as int) =~= req@);
    }
    let ghost all = lines.deep_view();
    let ghost hs = header_lines(req@);
    let n = lines.len();
    if n == 0 {
        return IpInfo {
            public_ip: clone_bytes(peer_ip),
            peer_ip: clone_bytes(peer_ip),
            forwarded: none_vec(),
            user_agent: unknown_vec(),
        };
    }
    let mut e: usize = 1;
    while e < n && lines[e].len() > 0
        invariant
            1 <= e <= n == lines@.len(),
            all == lines.deep_view(),
            forall|j: int| 1 <= j < e ==> all[j].len() > 0,
        decreases n - e,
    {
        proof {
            assert(lines[e as int].deep_view() =~= lines[e as int]@);
        }
        e = e + 1;
    }
    proof {
        assert forall|j: int| 0 <= j < e - 1 implies all.drop_first()[j].len() > 0 by {
            assert(all.drop_first()[j] == all[j + 1]);
        }
        if e < n {
            assert(lines[e as int].deep_view() =~= lines[e as int]@);
            assert(all.drop_first()[e - 1].len() == 0);
        }
        lemma_until_blank_is(all.drop_first(), e - 1);
        assert(all.drop_first().take(e - 1) =~= all.subrange(1, e as int));
        assert(hs == all.subrange(1, e as int));
    }
    let fname = fly_name_vec();
    let xname = xff_name_vec();
    let rname = xreal_name_vec();
    let uname = ua_name_vec();
    let mut fly: Option<Vec<u8>> = Option::None;
    let mut xff: Option<Vec<u8>> = Option::None;
    let mut xreal: Option<Vec<u8>> = Option::None;
    let mut ua: Option<Vec<u8>> = Option::None;
    let mut i: usize = 1;
    while i < e
        invariant
            1 <= i <= e <= n == lines@.len(),
            all == lines.deep_view(),
            hs == all.subrange(1, e as int),
            fname@ == fly_name(),
            xname@ == xff_name(),
            rname@ == xreal_name(),
            uname@ == ua_name(),
            lower_bytes(fname@) == fname@,
            lower_bytes(xname@) == xname@,
            lower_bytes(rname@) == rname@,
            lower_bytes(uname@) == uname@,
            fly.deep_view() == header_lookup(hs.take(i - 1), fly_name()),
            xff.deep_view() == header_lookup(hs.take(i - 1), xff_name()),
            xreal.deep_view() == header_lookup(hs.take(i - 1), xreal_name()),
            ua.deep_view() == header_lookup(hs.take(i - 1), ua_name()),
        decreases e - i,
    {
        let line = &lines[i];
        proof {
            assert(line.deep_view() =~= line@);
            assert(hs[i - 1] == line@);
            assert(hs.take(i as int).drop_last() =~= hs.take(i - 1));
            assert(hs.take(i as int).last() == line@);
        }
        let c = crate::text::find_byte(line.as_slice(), 58, 0, line.len());
        proof {
            assert(line@.take(line@.len() as int) =~= line@);
        }
        if c < line.len() {
            let rawk = vstd::slice::slice_subrange(line.as_slice(), 0, c);
            let rawv = vstd::slice::slice_subrange(line.as_slice(), c + 1, line.len());
            let key = trim(rawk);
            let val = trim(rawv);
            proof {
                assert(rawk@ =~= line@.take(c as int));
                assert(rawv@ =~= line@.skip(c as int + 1));
                assert(key@ == field_key(line@));
                assert(val@ == field_value(line@));
            }
            if lower_eq(key.as_slice(), fname.as_slice()) {
                fly = Option::Some(val);
            } else if lower_eq(key.as_slice(), xname.as_slice()) {
                xff = Option::Some(val);
            } else if lower_eq(key.as_slice(), rname.as_slice()) {
                xreal = Option::Some(val);
            } else if lower_eq(key.as_slice(), uname.as_slice()) {
                ua = Option::Some(val);
            }
        }
        i = i + 1;
    }
    proof {
        assert(hs.take(e - 1) =~= hs);
    }
    let public_ip: Vec<u8> = match &fly {
        Option::Some(v) => {
            proof {
                assert(v.deep_view() =~= v@);
            }
            clone_bytes(v)
        },
        Option::None => match &xff {
            Option::Some(v) => {
                proof {
                    assert(v.deep_view() =~= v@);
                }
                first_segment_exec(v)
            },
            Option::None => match &xreal {
                Option::Some(v) => {
                    proof {
                        assert(v.deep_view() =~= v@);
                    }
                    clone_bytes(v)
                },
                Option::None => clone_bytes(peer_ip),
            },
        },
    };
    let forwarded: Vec<u8> = match xff {
        Option::Some(v) => {
            proof {
                assert(v.deep_view() =~= v@);
            }
            v
        },
        Option::None => none_vec(),
    };
    let user_agent: Vec<u8> = match ua {
        Option::Some(v) => {
            proof {
                assert(v.deep_view() =~= v@);
            }
            v
        },
        Option::None => unknown_vec(),
    };
    IpInfo { public_ip, peer_ip: clone_bytes(peer_ip), forwarded, user_agent }
}

} // verus!
