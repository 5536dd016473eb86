//! Formatting of one HTTP response.
//!
//! A response is one status line, a `Content-Type` header, a
//! `Content-Length` header carrying the body's decimal length, a closing
//! `Connection: close` header, and the body. The connection always closes
//! after exactly one response.

use vstd::prelude::*;

verus! {

/// The bytes of `HTTP/1.1 `.
pub open spec fn http_version_text() -> Seq<u8> {
    seq![72u8, 84u8, 84u8, 80u8, 47u8, 49u8, 46u8, 49u8, 32u8]
}

/// The bytes of `\r\nContent-Type: `.
pub open spec fn content_type_text() -> Seq<u8> {
    seq![13u8, 10u8, 67u8, 111u8, 110u8, 116u8, 101u8, 110u8, 116u8, 45u8, 84u8, 121u8, 112u8, 101u8, 58u8, 32u8]
}

/// The bytes of `\r\nContent-Length: `.
pub open spec fn content_length_text() -> Seq<u8> {
    seq![13u8, 10u8, 67u8, 111u8, 110u8, 116u8, 101u8, 110u8, 116u8, 45u8, 76u8, 101u8, 110u8, 103u8, 116u8, 104u8, 58u8, 32u8]
}

/// The bytes of `\r\nConnection: close\r\n\r\n`.
pub open spec fn close_text() -> Seq<u8> {
    seq![13u8, 10u8, 67u8, 111u8, 110u8, 110u8, 101u8, 99u8, 116u8, 105u8, 111u8, 110u8, 58u8, 32u8, 99u8, 108u8, 111u8, 115u8, 101u8, 13u8, 10u8, 13u8, 10u8]
}

/// The bytes of `429 Too Many Requests`.
pub open spec fn too_many_text() -> Seq<u8> {
    seq![52u8, 50u8, 57u8, 32u8, 84u8, 111u8, 111u8, 32u8, 77u8, 97u8, 110u8, 121u8, 32u8, 82u8, 101u8, 113u8, 117u8, 101u8, 115u8, 116u8, 115u8]
}

/// The bytes of `rate limit exceeded`.
pub open spec fn rate_limited_text() -> Seq<u8> {
    seq![114u8, 97u8, 116u8, 101u8, 32u8, 108u8, 105u8, 109u8, 105u8, 116u8, 32u8, 101u8, 120u8, 99u8, 101u8, 101u8, 100u8, 101u8, 100u8]
}

/// The bytes of `text/plain`.
pub open spec fn plain_type_text() -> Seq<u8> {
    seq![116u8, 101u8, 120u8, 116u8, 47u8, 112u8, 108u8, 97u8, 105u8, 110u8]
}

/// The decimal digits of a non-negative number, most significant first.
pub open spec fn dec_digits(n: int) -> Seq<u8>
    decreases n,
    when n >= 0
{
    if n < 10 {
        seq![(48 + n) as u8]
    } else {
        dec_digits(n / 10).push((48 + n % 10) as u8)
    }
}

/// The full wire form of one response: status line, `Content-Type`,
/// `Content-Length` equal to the body's length, `Connection: close`, and
/// the body.
pub open spec fn response_bytes(status: Seq<u8>, ctype: Seq<u8>, body: Seq<u8>) -> Seq<u8> {
    http_version_text() + status + content_type_text() + ctype + content_length_text()
        + dec_digits(body.len() as int) + close_text() + body
}

fn push_decimal(out: &mut Vec<u8>, n: usize)
    ensures
        final(out)@ == old(out)@ + dec_digits(n as int),
    decreases n,
{
    if n < 10 {
        out.push(48 + n as u8);
        proof {
            assert(out@ =~= old(out)@ + dec_digits(n as int));
        }
    } else {
        proof {
            assert(n / 10 < n) by {
                vstd::arithmetic::div_mod::lemma_fundamental_div_mod(n as int, 10);
            }
        }
        push_decimal(out, n / 10);
        let d: u8 = (n % 10) as u8;
        out.push(48 + d);
        proof {
            assert(out@ =~= old(out)@ + dec_digits(n as int));
        }
    }
}

/// The wire bytes of one response over the given status text, content type
/// and body.
pub fn format_response(status: &[u8], ctype: &[u8], body: &[u8]) -> (r: Vec<u8>)
    ensures
        r@ == response_bytes(status@, ctype@, body@),
{
    let mut out: Vec<u8> = Vec::new();
    out.push(72);
    out.push(84);
    out.push(84);
    out.push(80);
    out.push(47);
    out.push(49);
    out.push(46);
    out.push(49);
    out.push(32);
    proof {
        assert(out@ =~= http_version_text());
    }
    out.extend_from_slice(status);
    let ghost mark1 = out@;
    out.push(13);
    out.push(10);
    out.push(67);
    out.push(111);
    out.push(110);
    out.push(116);
    out.push(101);
    out.push(110);
    out.push(116);
    out.push(45);
    out.push(84);
    out.push(121);
    out.push(112);
    out.push(101);
    out.push(58);
    out.push(32);
    proof {
        assert(out@ =~= mark1 + content_type_text());
    }
    out.extend_from_slice(ctype);
    let ghost mark2 = out@;
    out.push(13);
    out.push(10);
    out.push(67);
    out.push(111);
    out.push(110);
    out.push(116);
    out.push(101);
    out.push(110);
    out.push(116);
    out.push(45);
    out.push(76);
    out.push(101);
    out.push(110);
    out.push(103);
    out.push(116);
    out.push(104);
    out.push(58);
    out.push(32);
    proof {
        assert(out@ =~= mark2 + content_length_text());
    }
    push_decimal(&mut out, body.len());
    let ghost mark3 = out@;
    out.push(13);
    out.push(10);
    out.push(67);
    out.push(111);
    out.push(110);
    out.push(110);
    out.push(101);
    out.push(99);
    out.push(116);
    out.push(105);
    out.push(111);
    out.push(110);
    out.push(58);
    out.push(32);
    out.push(99);
    out.push(108);
    out.push(111);
    out.push(115);
    out.push(101);
    out.push(13);
    out.push(10);
    out.push(13);
    out.push(10);
    proof {
        assert(out@ =~= mark3 + close_text());
    }
    out.extend_from_slice(body);
    proof {
        assert(out@ =~= response_bytes(status@, ctype@, body@));
    }
    out
}

/// The status text of a rate-limit rejection.
pub fn too_many_requests_status() -> (v: Vec<u8>)
    ensures
        v@ == too_many_text(),
{
    let mut v: Vec<u8> = Vec::new();
    v.push(52);
    v.push(50);
    v.push(57);
    v.push(32);
    v.push(84);
    v.push(111);
    v.push(111);
    v.push(32);
    v.push(77);
    v.push(97);
    v.push(110);
    v.push(121);
    v.push(32);
    v.push(82);
    v.push(101);
    v.push(113);
    v.push(117);
    v.push(101);
    v.push(115);
    v.push(116);
    v.push(115);
    proof {
        assert(v@ =~= too_many_text());
    }
    v
}

/// The body text of a rate-limit rejection.
pub fn rate_limited_message() -> (v: Vec<u8>)
    ensures
        v@ == rate_limited_text(),
{
    let mut v: Vec<u8> = Vec::new();
    v.push(114);
    v.push(97);
    v.push(116);
    v.push(101);
    v.push(32);
    v.push(108);
    v.push(105);
    v.push(109);
    v.push(105);
    v.push(116);
    v.push(32);
    v.push(101);
    v.push(120);
    v.push(99);
    v.push(101);
    v.push(101);
    v.push(100);
    v.push(101);
    v.push(100);
    proof {
        assert(v@ =~= rate_limited_text());
    }
    v
}

/// The content type of a rate-limit rejection.
pub fn plain_text_type() -> (v: Vec<u8>)
    ensures
        v@ == plain_type_text(),
{
    let mut v: Vec<u8> = Vec::new();
    v.push(116);
    v.push(101);
    v.push(120);
    v.push(116);
    v.push(47);
    v.push(112);
    v.push(108);
    v.push(97);
    v.push(105);
    v.push(110);
    proof {
        assert(v@ =~= plain_type_text());
    }
    v
}

} // verus!
