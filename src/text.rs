//! Byte-wise ordering of strings, and the two std string transformations
//! that tag normalisation relies on.
use vstd::prelude::*;
use vstd::utf8::{encode_utf8, encode_utf8_decode_utf8};

verus! {

/// Lexicographic order on byte strings: a proper prefix comes first.
pub open spec fn lex_before(x: Seq<u8>, y: Seq<u8>) -> bool
    decreases x.len(),
{
    if x.len() == 0 {
        y.len() > 0
    } else if y.len() == 0 {
        false
    } else if x[0] != y[0] {
        x[0] < y[0]
    } else {
        lex_before(x.drop_first(), y.drop_first())
    }
}

/// Strings are ordered by their UTF-8 encoding, byte by byte.
pub open spec fn str_before(a: Seq<char>, b: Seq<char>) -> bool {
    lex_before(encode_utf8(a), encode_utf8(b))
}

pub proof fn lemma_lex_irreflexive(x: Seq<u8>)
    ensures
        !lex_before(x, x),
    decreases x.len(),
{
    if x.len() > 0 {
        lemma_lex_irreflexive(x.drop_first());
    }
}

pub proof fn lemma_lex_transitive(x: Seq<u8>, y: Seq<u8>, z: Seq<u8>)
    requires
        lex_before(x, y),
        lex_before(y, z),
    ensures
        lex_before(x, z),
    decreases x.len(),
{
    if x.len() > 0 && y.len() > 0 && z.len() > 0 && x[0] == y[0] && y[0] == z[0] {
        lemma_lex_transitive(x.drop_first(), y.drop_first(), z.drop_first());
    }
}

pub proof fn lemma_lex_total(x: Seq<u8>, y: Seq<u8>)
    requires
        x != y,
    ensures
        lex_before(x, y) || lex_before(y, x),
    decreases x.len(),
{
    if x.len() == 0 && y.len() == 0 {
        assert(x =~= y);
    }
    if x.len() > 0 && y.len() > 0 && x[0] == y[0] {
        if x.drop_first() == y.drop_first() {
            assert(x =~= seq![x[0]] + x.drop_first());
            assert(y =~= seq![y[0]] + y.drop_first());
        } else {
            lemma_lex_total(x.drop_first(), y.drop_first());
        }
    }
}

pub proof fn lemma_str_order(a: Seq<char>, b: Seq<char>, c: Seq<char>)
    ensures
        !str_before(a, a),
        str_before(a, b) && str_before(b, c) ==> str_before(a, c),
        a != b ==> str_before(a, b) || str_before(b, a),
{
    lemma_lex_irreflexive(encode_utf8(a));
    if str_before(a, b) && str_before(b, c) {
        lemma_lex_transitive(encode_utf8(a), encode_utf8(b), encode_utf8(c));
    }
    if a != b {
        encode_utf8_decode_utf8(a);
        encode_utf8_decode_utf8(b);
        lemma_lex_total(encode_utf8(a), encode_utf8(b));
    }
}

proof fn lemma_lex_skip(x: Seq<u8>, y: Seq<u8>, i: int)
    requires
        0 <= i < x.len(),
        i < y.len(),
        x[i] == y[i],
    ensures
        lex_before(x.skip(i), y.skip(i)) == lex_before(x.skip(i + 1), y.skip(i + 1)),
{
    assert(x.skip(i).drop_first() =~= x.skip(i + 1));
    assert(y.skip(i).drop_first() =~= y.skip(i + 1));
}

/// Byte-wise comparison of two strings.
pub fn str_less(a: &String, b: &String) -> (r: bool)
    ensures
        r == str_before(a@, b@),
{
    let x = a.as_str().as_bytes();
    let y = b.as_str().as_bytes();
    let ghost xs = x@;
    let ghost ys = y@;
    let mut i: usize = 0;
    assert(xs.skip(0) =~= xs);
    assert(ys.skip(0) =~= ys);
    while i < x.len() && i < y.len() && x[i] == y[i]
        invariant
            xs == x@,
            ys == y@,
            xs == encode_utf8(a@),
            ys == encode_utf8(b@),
            i <= x.len(),
            i <= y.len(),
            lex_before(xs, ys) == lex_before(xs.skip(i as int), ys.skip(i as int)),
        decreases x.len() - i,
    {
        proof {
            lemma_lex_skip(xs, ys, i as int);
        }
        i = i + 1;
    }
    if i == x.len() {
        i < y.len()
    } else if i == y.len() {
        false
    } else {
        x[i] < y[i]
    }
}

/// Name for what `str::to_lowercase` returns.
pub uninterp spec fn lower_of(s: Seq<char>) -> Seq<char>;

/// Unicode `White_Space`, the characters that `str::trim` removes.
pub open spec fn is_white_space(c: char) -> bool {
    let u = c as u32;
    (0x9 <= u <= 0xd) || u == 0x20 || u == 0x85 || u == 0xa0 || u == 0x1680 || (0x2000 <= u
        <= 0x200a) || u == 0x2028 || u == 0x2029 || u == 0x202f || u == 0x205f || u == 0x3000
}

/// `s` without its leading white space.
pub open spec fn trim_start_of(s: Seq<char>) -> Seq<char>
    decreases s.len(),
{
    if s.len() > 0 && is_white_space(s[0]) {
        trim_start_of(s.drop_first())
    } else {
        s
    }
}

/// `s` without its trailing white space.
pub open spec fn trim_end_of(s: Seq<char>) -> Seq<char>
    decreases s.len(),
{
    if s.len() > 0 && is_white_space(s.last()) {
        trim_end_of(s.drop_last())
    } else {
        s
    }
}

/// `s` without white space at either end.
pub open spec fn trim_of(s: Seq<char>) -> Seq<char> {
    trim_end_of(trim_start_of(s))
}

/// Relies on `str::to_lowercase`: the result depends on the characters alone.
#[verifier::external_body]
pub(crate) fn lowercase(s: &str) -> (r: String)
    ensures
        r@ == lower_of(s@),
{
    s.to_lowercase()
}

/// Relies on `str::trim`: leading and trailing `White_Space` characters are removed.
#[verifier::external_body]
pub(crate) fn trim(s: &str) -> (r: &str)
    ensures
        r@ == trim_of(s@),
{
    s.trim()
}

/// The key under which a tag is indexed: lower-cased, then trimmed.
pub open spec fn tag_key(t: Seq<char>) -> Seq<char> {
    trim_of(lower_of(t))
}

/// Length in characters of a tag once surrounding white space is removed.
pub open spec fn trimmed_len(t: Seq<char>) -> nat {
    trim_of(t).len()
}

pub fn normalize_tag(t: &String) -> (r: String)
    ensures
        r@ == tag_key(t@),
{
    let lower = lowercase(t.as_str());
    trim(lower.as_str()).to_owned()
}

pub fn trimmed_tag_len(t: &String) -> (r: usize)
    ensures
        r as nat == trimmed_len(t@),
{
    trim(t.as_str()).unicode_len()
}

pub fn copy_strings(v: &Vec<String>) -> (r: Vec<String>)
    ensures
        r.deep_view() == v.deep_view(),
{
    let mut r: Vec<String> = Vec::new();
    let mut i: usize = 0;
    while i < v.len()
        invariant
            i <= v.len(),
            r@.len() == i,
            forall|j: int| 0 <= j < i ==> #[trigger] r@[j]@ == v@[j]@,
        decreases v.len() - i,
    {
        r.push(v[i].clone());
        i = i + 1;
    }
    assert(r.deep_view() =~= v.deep_view());
    r
}

pub fn copy_opt_string(v: &Option<String>) -> (r: Option<String>)
    ensures
        r.deep_view() == v.deep_view(),
{
    match v {
        Some(s) => Some(s.clone()),
        None => None,
    }
}

pub fn copy_opt_strings(v: &Option<Vec<String>>) -> (r: Option<Vec<String>>)
    ensures
        r.deep_view() == v.deep_view(),
{
    match v {
        Some(s) => Some(copy_strings(s)),
        None => None,
    }
}

/// Position `k` occurs in `r`.
pub open spec fn listed(r: Seq<usize>, k: int) -> bool {
    exists|i: int| 0 <= i < r.len() && r[i] == k
}

/// Positions of `keys`, in ascending order of the keys they hold.
pub fn order_by_key(keys: &Vec<String>) -> (r: Vec<usize>)
    requires
        forall|i: int, j: int| 0 <= i < j < keys@.len() ==> (#[trigger] keys@[i])@ != (#[trigger] keys@[j])@,
    ensures
        forall|i: int| 0 <= i < r@.len() ==> #[trigger] r@[i] < keys@.len(),
        forall|i: int, j: int|
            0 <= i < j < r@.len() ==> str_before(keys@[(#[trigger] r@[i]) as int]@, keys@[(#[trigger] r@[j]) as int]@),
        forall|k: int| 0 <= k < keys@.len() ==> #[trigger] listed(r@, k),
{
    let mut out: Vec<usize> = Vec::new();
    let mut k: usize = 0;
    while k < keys.len()
        invariant
            k <= keys@.len(),
            forall|i: int, j: int| 0 <= i < j < keys@.len() ==> (#[trigger] keys@[i])@ != (#[trigger] keys@[j])@,
            forall|i: int| 0 <= i < out@.len() ==> #[trigger] out@[i] < k,
            forall|i: int, j: int|
                0 <= i < j < out@.len() ==> str_before(keys@[(#[trigger] out@[i]) as int]@, keys@[(#[trigger] out@[j]) as int]@),
            forall|m: int| 0 <= m < k ==> #[trigger] listed(out@, m),
        decreases keys.len() - k,
    {
        let mut p: usize = 0;
        while p < out.len() && str_less(&keys[out[p]], &keys[k])
            invariant
                k < keys@.len(),
                p <= out@.len(),
                forall|i: int| 0 <= i < out@.len() ==> #[trigger] out@[i] < k,
                forall|q: int| 0 <= q < p ==> str_before(keys@[(#[trigger] out@[q]) as int]@, keys@[k as int]@),
            decreases out.len() - p,
        {
            p = p + 1;
        }
        let ghost prev = out@;
        let ghost kk = keys@[k as int]@;
        assert(forall|m: int| 0 <= m < k ==> #[trigger] listed(prev, m));
        proof {
            if p < prev.len() {
                let o = prev[p as int] as int;
                assert(keys@[o]@ != kk);
                lemma_str_order(keys@[o]@, kk, kk);
                assert(str_before(kk, keys@[o]@));
                assert forall|q: int| p <= q < prev.len() implies str_before(kk, keys@[prev[q] as int]@) by {
                    if q > p {
                        assert(str_before(keys@[o]@, keys@[prev[q] as int]@));
                        lemma_str_order(kk, keys@[o]@, keys@[prev[q] as int]@);
                    }
                }
            }
        }
        out.insert(p, k);
        proof {
            assert(out@ == prev.insert(p as int, k));
            assert forall|i: int| 0 <= i < out@.len() implies #[trigger] out@[i] < k + 1 by {
                if i < p {
                    assert(out@[i] == prev[i]);
                } else if i > p {
                    assert(out@[i] == prev[i - 1]);
                }
            }
            assert forall|i: int, j: int|
                0 <= i < j < out@.len() implies str_before(keys@[(#[trigger] out@[i]) as int]@, keys@[(#[trigger] out@[j]) as int]@) by {
                let ki = if i < p { prev[i] } else if i == p { k } else { prev[i - 1] };
                let kj = if j < p { prev[j] } else if j == p { k } else { prev[j - 1] };
                assert(out@[i] == ki);
                assert(out@[j] == kj);
                if i < p && j > p {
                    lemma_str_order(keys@[ki as int]@, kk, keys@[kj as int]@);
                }
            }
            assert forall|m: int| 0 <= m < k + 1 implies #[trigger] listed(out@, m) by {
                if m == k {
                    assert(out@[p as int] == m);
                } else {
                    assert(listed(prev, m));
                    let i = choose|i: int| 0 <= i < prev.len() && prev[i] == m;
                    if i < p {
                        assert(out@[i] == m);
                    } else {
                        assert(out@[i + 1] == m);
                    }
                }
            }
        }
        k = k + 1;
    }
    out
}

} // verus!
