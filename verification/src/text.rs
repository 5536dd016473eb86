//! Byte-level text helpers shared by the request framer and the header
//! scanner: ASCII case folding, whitespace trimming, splitting a byte region
//! into lines the way `str::lines` does (split at line feeds, with one
//! trailing carriage return stripped from each line and a final empty
//! segment dropped).

use vstd::prelude::*;

verus! {

pub const LF: u8 = 10;

pub const CR: u8 = 13;

/// The ASCII bytes that count as whitespace when trimming a header value.
pub open spec fn is_space(b: u8) -> bool {
    b == 32 || (9 <= b && b <= 13)
}

/// ASCII lower-casing of one byte; other bytes are unchanged.
pub open spec fn lower_byte(b: u8) -> u8 {
    if 65 <= b && b <= 90 {
        (b + 32) as u8
    } else {
        b
    }
}

/// ASCII lower-casing of a byte sequence.
pub open spec fn lower_bytes(s: Seq<u8>) -> Seq<u8> {
    s.map_values(|b: u8| lower_byte(b))
}

pub open spec fn trim_front(s: Seq<u8>) -> Seq<u8>
    decreases s.len(),
{
    if s.len() > 0 && is_space(s[0]) {
        trim_front(s.drop_first())
    } else {
        s
    }
}

pub open spec fn trim_back(s: Seq<u8>) -> Seq<u8>
    decreases s.len(),
{
    if s.len() > 0 && is_space(s.last()) {
        trim_back(s.drop_last())
    } else {
        s
    }
}

/// A byte sequence with leading and trailing ASCII whitespace removed.
pub open spec fn trimmed(s: Seq<u8>) -> Seq<u8> {
    trim_back(trim_front(s))
}

/// Index of the first occurrence of `b` in `s` at or after `i`, or `s.len()`
/// when there is none.
pub open spec fn find_from(s: Seq<u8>, b: u8, i: int) -> int
    decreases s.len() - i,
    when 0 <= i <= s.len()
{
    if i >= s.len() {
        s.len() as int
    } else if s[i] == b {
        i
    } else {
        find_from(s, b, i + 1)
    }
}

pub proof fn lemma_find_from(s: Seq<u8>, b: u8, i: int)
    requires
        0 <= i <= s.len(),
    ensures
        i <= find_from(s, b, i) <= s.len(),
        find_from(s, b, i) < s.len() ==> s[find_from(s, b, i)] == b,
        forall|j: int| i <= j < find_from(s, b, i) ==> s[j] != b,
    decreases s.len() - i,
{
    if i < s.len() && s[i] != b {
        lemma_find_from(s, b, i + 1);
    }
}

/// `find_from` is the unique index satisfying the first-occurrence
/// characterization.
pub proof fn lemma_find_from_is(s: Seq<u8>, b: u8, i: int, r: int)
    requires
        0 <= i <= r <= s.len(),
        forall|j: int| i <= j < r ==> s[j] != b,
        r < s.len() ==> s[r] == b,
    ensures
        find_from(s, b, i) == r,
    decreases r - i,
{
    if i < r {
        lemma_find_from_is(s, b, i + 1, r);
    }
}

/// One trailing carriage return removed, as `str::lines` does per line.
pub open spec fn strip_cr(l: Seq<u8>) -> Seq<u8> {
    if l.len() > 0 && l.last() == CR {
        l.drop_last()
    } else {
        l
    }
}

/// The lines of a byte region, split at line feeds; each line loses one
/// trailing carriage return, and a final empty segment is dropped.
pub open spec fn lines_of(s: Seq<u8>) -> Seq<Seq<u8>>
    decreases s.len(),
        via lines_of_dec
{
    if s.len() == 0 {
        Seq::empty()
    } else {
        let j = find_from(s, LF, 0);
        if j >= s.len() {
            seq![strip_cr(s)]
        } else {
            seq![strip_cr(s.take(j))] + lines_of(s.skip(j + 1))
        }
    }
}

#[via_fn]
proof fn lines_of_dec(s: Seq<u8>) {
    if s.len() > 0 {
        lemma_find_from(s, LF, 0);
    }
}

/// Finding a byte in a suffix mirrors finding it in the whole sequence.
pub proof fn lemma_find_from_skip(s: Seq<u8>, b: u8, p: int)
    requires
        0 <= p <= s.len(),
    ensures
        find_from(s.skip(p), b, 0) == find_from(s, b, p) - p,
{
    lemma_find_from(s, b, p);
    let r = find_from(s, b, p);
    assert forall|j: int| 0 <= j < r - p implies s.skip(p)[j] != b by {
        assert(s.skip(p)[j] == s[j + p]);
    }
    if r < s.len() {
        assert(s.skip(p)[r - p] == s[r]);
    }
    lemma_find_from_is(s.skip(p), b, 0, r - p);
}

pub fn lower(b: u8) -> (r: u8)
    ensures
        r == lower_byte(b),
{
    if 65 <= b && b <= 90 {
        b + 32
    } else {
        b
    }
}

/// Case-insensitive ASCII equality of two byte strings.
pub fn lower_eq(a: &[u8], b: &[u8]) -> (r: bool)
    ensures
        r == (lower_bytes(a@) == lower_bytes(b@)),
{
    if a.len() != b.len() {
        assert(lower_bytes(a@).len() != lower_bytes(b@).len());
        return false;
    }
    let n = a.len();
    let mut i: usize = 0;
    while i < n
        invariant
            i <= n,
            n == a@.len() == b@.len(),
            forall|j: int| 0 <= j < i ==> lower_byte(a@[j]) == lower_byte(b@[j]),
        decreases n - i,
    {
        if lower(a[i]) != lower(b[i]) {
            assert(lower_bytes(a@)[i as int] != lower_bytes(b@)[i as int]);
            return false;
        }
        i = i + 1;
    }
    assert(lower_bytes(a@) =~= lower_bytes(b@));
    true
}

/// Index of the first occurrence of `b` in `s[from..upto]`, or `upto` when
/// there is none; phrased over the region `s@.take(upto)`.
pub fn find_byte(s: &[u8], b: u8, from: usize, upto: usize) -> (r: usize)
    requires
        from <= upto <= s@.len(),
    ensures
        r == find_from(s@.take(upto as int), b, from as int),
        from <= r <= upto,
        r < upto ==> s@[r as int] == b,
        forall|j: int| from <= j < r ==> s@[j] != b,
{
    let ghost region = s@.take(upto as int);
    let mut i: usize = from;
    while i < upto
        invariant
            from <= i <= upto <= s@.len(),
            region == s@.take(upto as int),
            forall|j: int| from <= j < i ==> s@[j] != b,
        decreases upto - i,
    {
        if s[i] == b {
            proof {
                assert forall|j: int| from <= j < i implies region[j] != b by {
                    assert(region[j] == s@[j]);
                }
                assert(region[i as int] == s@[i as int]);
                lemma_find_from_is(region, b, from as int, i as int);
            }
            return i;
        }
        i = i + 1;
    }
    proof {
        assert forall|j: int| from <= j < upto implies region[j] != b by {
            assert(region[j] == s@[j]);
        }
        lemma_find_from_is(region, b, from as int, upto as int);
    }
    upto
}

/// The lines of `s[..upto]`, as `lines_of` describes them.
pub fn split_lines(s: &[u8], upto: usize) -> (r: Vec<Vec<u8>>)
    requires
        upto <= s@.len(),
    ensures
        r.deep_view() == lines_of(s@.take(upto as int)),
{
    let ghost region = s@.take(upto as int);
    let mut out: Vec<Vec<u8>> = Vec::new();
    let mut pos: usize = 0;
    proof {
        assert(region.skip(0) =~= region);
        assert(out.deep_view() =~= Seq::<Seq<u8>>::empty());
    }
    while pos < upto
        invariant
            pos <= upto <= s@.len(),
            region == s@.take(upto as int),
            lines_of(region) == out.deep_view() + lines_of(region.skip(pos as int)),
        decreases upto - pos,
    {
        let lf = find_byte(s, LF, pos, upto);
        let end = if lf > pos && s[lf - 1] == CR {
            lf - 1
        } else {
            lf
        };
        let line = vstd::slice::slice_to_vec(vstd::slice::slice_subrange(s, pos, end));
        let ghost seg = region.subrange(pos as int, lf as int);
        proof {
            let suffix = region.skip(pos as int);
            assert forall|j: int| pos <= j < lf implies region[j] == s@[j] by {}
            lemma_find_from_skip(region, LF, pos as int);
            assert forall|j: int| pos <= j < lf implies region[j] != LF by {
                assert(region[j] == s@[j]);
            }
            if lf < upto {
                assert(region[lf as int] == s@[lf as int]);
            }
            lemma_find_from_is(region, LF, pos as int, lf as int);
            assert(find_from(suffix, LF, 0) == lf - pos);
            assert(line@ == strip_cr(seg)) by {
                if lf > pos && s@[lf - 1] == CR {
                    assert(seg.len() > 0);
                    assert(seg.last() == s@[lf - 1]);
                    assert(line@ =~= seg.drop_last());
                } else {
                    if seg.len() > 0 {
                        assert(seg.last() == s@[lf - 1]);
                    }
                    assert(line@ =~= seg);
                }
            }
            if lf < upto {
                assert(suffix.take(lf - pos) =~= seg);
                assert(suffix.skip(lf - pos + 1) =~= region.skip(lf + 1));
                assert(lines_of(suffix) == seq![strip_cr(seg)] + lines_of(region.skip(lf + 1)));
            } else {
                assert(suffix =~= seg);
                assert(lines_of(suffix) == seq![strip_cr(seg)]);
                assert(region.skip(upto as int) =~= Seq::<u8>::empty());
                assert(lines_of(region.skip(upto as int)) == Seq::<Seq<u8>>::empty());
            }
        }
        let ghost prev = out.deep_view();
        out.push(line);
        proof {
            assert(line.deep_view() =~= line@);
            assert(out.deep_view() =~~= prev + seq![line@]);
        }
        if lf < upto {
            pos = lf + 1;
        } else {
            pos = upto;
        }
        proof {
            assert(lines_of(region) =~~= out.deep_view() + lines_of(region.skip(pos as int)));
        }
    }
    proof {
        assert(region.skip(pos as int) =~= Seq::<u8>::empty());
        assert(lines_of(region) =~~= out.deep_view());
    }
    out
}

pub proof fn lemma_trim_front_is(s: Seq<u8>, i: int)
    requires
        0 <= i <= s.len(),
        forall|k: int| 0 <= k < i ==> is_space(s[k]),
        i < s.len() ==> !is_space(s[i]),
    ensures
        trim_front(s) == s.skip(i),
    decreases i,
{
    if i == 0 {
        assert(s.skip(0) =~= s);
    } else {
        assert(is_space(s[0]));
        lemma_trim_front_is(s.drop_first(), i - 1);
        assert(s.drop_first().skip(i - 1) =~= s.skip(i));
    }
}

pub proof fn lemma_trim_back_is(s: Seq<u8>, j: int)
    requires
        0 <= j <= s.len(),
        forall|k: int| j <= k < s.len() ==> is_space(s[k]),
        j > 0 ==> !is_space(s[j - 1]),
    ensures
        trim_back(s) == s.take(j),
    decreases s.len() - j,
{
    if j == s.len() {
        assert(s.take(j) =~= s);
    } else {
        assert(is_space(s.last()));
        lemma_trim_back_is(s.drop_last(), j);
        assert(s.drop_last().take(j) =~= s.take(j));
    }
}

/// A copy of `s` with leading and trailing ASCII whitespace removed.
pub fn trim(s: &[u8]) -> (r: Vec<u8>)
    ensures
        r@ == trimmed(s@),
{
    let n = s.len();
    let mut i: usize = 0;
    while i < n && is_space_byte(s[i])
        invariant
            i <= n,
            n == s@.len(),
            forall|k: int| 0 <= k < i ==> is_space(s@[k]),
        decreases n - i,
    {
        i = i + 1;
    }
    let mut j: usize = n;
    while j > i && is_space_byte(s[j - 1])
        invariant
            i <= j <= n,
            n == s@.len(),
            forall|k: int| j <= k < n ==> is_space(s@[k]),
        decreases j,
    {
        j = j - 1;
    }
    let r = vstd::slice::slice_to_vec(vstd::slice::slice_subrange(s, i, j));
    proof {
        lemma_trim_front_is(s@, i as int);
        let t = s@.skip(i as int);
        assert forall|k: int| j - i <= k < t.len() implies is_space(t[k]) by {
            assert(t[k] == s@[k + i]);
        }
        if j > i {
            assert(t[j - i - 1] == s@[j - 1]);
        }
        lemma_trim_back_is(t, j - i);
        assert(t.take(j - i) =~= s@.subrange(i as int, j as int));
    }
    r
}

fn is_space_byte(b: u8) -> (r: bool)
    ensures
        r == is_space(b),
{
    b == 32 || (9 <= b && b <= 13)
}

} // verus!
