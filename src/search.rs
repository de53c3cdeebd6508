//! Substring search on the bytes of two strings.

use vstd::arithmetic::div_mod::{
    lemma_add_mod_noop,
    lemma_mod_add_multiples_vanish,
    lemma_mul_mod_noop_left,
    lemma_sub_mod_noop,
};
use vstd::arithmetic::power::pow;
use vstd::prelude::*;
use vstd::string::StringSliceAdditionalSpecFns;

verus! {

/// The UTF-8 bytes of `s`.
pub open spec fn bytes_of(s: &str) -> Seq<u8> {
    s.spec_bytes()
}

/// `p` occurs in `t` starting at byte `i`.
pub open spec fn matches_at(t: Seq<u8>, p: Seq<u8>, i: int) -> bool {
    0 <= i && i + p.len() <= t.len() && t.subrange(i, i + p.len()) == p
}

/// What a search returns: the first byte offset at which the non-empty
/// pattern `p` occurs in `t`, or `None` where `t` or `p` is empty or `p` does
/// not occur.
pub open spec fn search_result(t: Seq<u8>, p: Seq<u8>, r: Option<usize>) -> bool {
    match r {
        Some(i) => t.len() > 0 && p.len() > 0 && matches_at(t, p, i as int) && forall|j: int|
            0 <= j < i ==> !#[trigger] matches_at(t, p, j),
        None => t.len() == 0 || p.len() == 0 || forall|j: int| !#[trigger] matches_at(t, p, j),
    }
}

/// Radix of the rolling hash.
pub const BASE: usize = 31;

/// Modulus of the rolling hash.
pub const PRIME: usize = 997;

/// The bytes of `s` read as digits in radix `BASE`, most significant first.
pub open spec fn poly(s: Seq<u8>) -> int
    decreases s.len(),
{
    if s.len() == 0 {
        0
    } else {
        poly(s.drop_last()) * BASE + s.last()
    }
}

proof fn lemma_poly_nonneg(s: Seq<u8>)
    ensures
        poly(s) >= 0,
    decreases s.len(),
{
    if s.len() > 0 {
        lemma_poly_nonneg(s.drop_last());
    }
}

/// Splitting off the leading digit.
proof fn lemma_poly_front(s: Seq<u8>)
    requires
        s.len() >= 1,
    ensures
        poly(s) == s[0] * pow(BASE as int, (s.len() - 1) as nat) + poly(s.drop_first()),
    decreases s.len(),
{
    reveal(pow);
    if s.len() == 1 {
        assert(s.drop_last() =~= Seq::<u8>::empty());
        assert(s.drop_first() =~= Seq::<u8>::empty());
    } else {
        let a = s.drop_last();
        lemma_poly_front(a);
        assert(a.drop_first() =~= s.drop_first().drop_last());
        assert(s.drop_first().last() == s.last());
        let pw = pow(BASE as int, (a.len() - 1) as nat);
        assert(pow(BASE as int, (s.len() - 1) as nat) == BASE * pw);
        let x = poly(a.drop_first());
        assert((s[0] * pw + x) * BASE + s.last() == s[0] * (BASE * pw) + (x * BASE + s.last())) by (nonlinear_arith);
    }
}

/// One step of the hash fold.
proof fn lemma_fold_step(x: int, b: int)
    requires
        x >= 0,
        b >= 0,
    ensures
        ((BASE * (x % PRIME as int)) % PRIME as int + b) % PRIME as int == (x * BASE + b) % PRIME as int,
{
    let p = PRIME as int;
    lemma_mul_mod_noop_left(x, BASE as int, p);
    assert((x % p) * BASE == BASE * (x % p));
    lemma_add_mod_noop(x * BASE, b, p);
    lemma_add_mod_noop((x % p) * BASE % p, b, p);
    assert(((x % p) * BASE % p) % p == (x % p) * BASE % p) by {
        vstd::arithmetic::div_mod::lemma_mod_twice((x % p) * BASE, p);
    }
}

/// Sliding the window one byte to the right.
proof fn lemma_roll(w: Seq<u8>, c: u8, h: int, mult: int)
    requires
        w.len() >= 1,
        h == poly(w) % PRIME as int,
        mult == pow(BASE as int, (w.len() - 1) as nat) % PRIME as int,
    ensures
        ((h + PRIME - (mult * w[0]) % PRIME as int) % PRIME as int * BASE + c) % PRIME as int == poly(
            w.drop_first().push(c),
        ) % PRIME as int,
{
    let p = PRIME as int;
    let pw = pow(BASE as int, (w.len() - 1) as nat);
    let q = w[0] * pw;
    let a = poly(w);
    lemma_poly_front(w);
    let rest = w.drop_first();
    assert(w.drop_first().push(c).drop_last() =~= rest);
    assert(poly(w.drop_first().push(c)) == poly(rest) * BASE + c);
    assert(poly(rest) == a - q);
    lemma_mul_mod_noop_left(pw, w[0] as int, p);
    assert(mult * w[0] % p == q % p);
    lemma_mod_add_multiples_vanish(h - q % p, p);
    assert(h + PRIME - (mult * w[0]) % p == p + (h - q % p));
    lemma_sub_mod_noop(a, q, p);
    let d = (h + PRIME - (mult * w[0]) % p) % p;
    assert(d == (a - q) % p);
    lemma_mul_mod_noop_left(a - q, BASE as int, p);
    lemma_add_mod_noop((a - q) * BASE, c as int, p);
    lemma_add_mod_noop(d * BASE, c as int, p);
    vstd::arithmetic::div_mod::lemma_mod_twice(d * BASE, p);
    vstd::arithmetic::div_mod::lemma_mod_twice((a - q) * BASE, p);
}

/// The rolling hash of `bytes`: `poly(bytes)` modulo `PRIME`.
fn find_hash(bytes: &[u8]) -> (r: usize)
    ensures
        r == poly(bytes@) % PRIME as int,
{
    let mut hash: usize = 0;
    let mut i: usize = 0;
    while i < bytes.len()
        invariant
            i <= bytes@.len(),
            hash == poly(bytes@.subrange(0, i as int)) % PRIME as int,
        decreases bytes@.len() - i,
    {
        let b = bytes[i];
        proof {
            let pre = bytes@.subrange(0, i as int);
            assert(bytes@.subrange(0, i + 1).drop_last() =~= pre);
            lemma_poly_nonneg(pre);
            lemma_fold_step(poly(pre), b as int);
        }
        hash = ((BASE * hash) % PRIME + (b as usize)) % PRIME;
        i = i + 1;
    }
    assert(bytes@.subrange(0, i as int) =~= bytes@);
    hash
}

/// Whether `p` occurs in `t` at `start`.
fn same_bytes(t: &[u8], start: usize, p: &[u8]) -> (r: bool)
    requires
        start + p@.len() <= t@.len() <= usize::MAX,
    ensures
        r == matches_at(t@, p@, start as int),
{
    let mut k: usize = 0;
    while k < p.len()
        invariant
            k <= p@.len(),
            start + p@.len() <= t@.len() <= usize::MAX,
            forall|q: int| 0 <= q < k ==> t@[start + q] == p@[q],
        decreases p@.len() - k,
    {
        if t[start + k] != p[k] {
            assert(t@.subrange(start as int, start + p@.len())[k as int] != p@[k as int]);
            return false;
        }
        k = k + 1;
    }
    assert(t@.subrange(start as int, start + p@.len()) =~= p@);
    true
}

/// Rabin-Karp: the windows of `text` whose rolling hash equals that of
/// `pattern` are compared byte by byte; the first match is returned.
pub fn rabin_karp_search(text: &str, pattern: &str) -> (r: Option<usize>)
    ensures
        search_result(bytes_of(text), bytes_of(pattern), r),
{
    let t = text.as_bytes();
    let p = pattern.as_bytes();
    let n = t.len();
    let m = p.len();
    if n == 0 || m == 0 || m > n {
        return None;
    }
    let mut mult: usize = 1;
    let mut e: usize = 1;
    proof {
        reveal(pow);
    }
    while e < m
        invariant
            1 <= e <= m,
            mult == pow(BASE as int, (e - 1) as nat) % PRIME as int,
            mult < PRIME,
        decreases m - e,
    {
        proof {
            reveal(pow);
            vstd::arithmetic::power::lemma_pow_positive(BASE as int, (e - 1) as nat);
            lemma_mul_mod_noop_left(pow(BASE as int, (e - 1) as nat), BASE as int, PRIME as int);
            assert(pow(BASE as int, e as nat) == BASE * pow(BASE as int, (e - 1) as nat));
        }
        mult = (mult * BASE) % PRIME;
        e = e + 1;
    }
    let pattern_hash = find_hash(p);
    let mut hash = find_hash(vstd::slice::slice_subrange(t, 0, m));
    let mut i: usize = m;
    let mut done = false;
    while !done
        invariant
            m <= i <= n,
            m >= 1,
            t@ == bytes_of(text),
            p@ == bytes_of(pattern),
            n == t@.len(),
            m == p@.len(),
            mult == pow(BASE as int, (m - 1) as nat) % PRIME as int,
            mult < PRIME,
            pattern_hash == poly(p@) % PRIME as int,
            hash == poly(t@.subrange(i - m, i as int)) % PRIME as int,
            forall|j: int| 0 <= j < i - m ==> !#[trigger] matches_at(t@, p@, j),
            done ==> i == n && !matches_at(t@, p@, n - m),
        decreases n - i + if done {
            0int
        } else {
            1int
        },
    {
        if hash == pattern_hash && same_bytes(t, i - m, p) {
            proof {
                assert(search_result(t@, p@, Some((i - m) as usize)));
            }
            return Some(i - m);
        }
        proof {
            if matches_at(t@, p@, i - m) {
                assert(t@.subrange(i - m, i as int) == p@);
            }
        }
        if i < n {
            let out = t[i - m] as usize;
            let c = t[i];
            proof {
                assert(mult * out < 997 * 256) by (nonlinear_arith)
                    requires mult < 997, out < 256;
                let w = t@.subrange(i - m, i as int);
                lemma_roll(w, c, hash as int, mult as int);
                assert(w.drop_first().push(c) =~= t@.subrange(i + 1 - m, i + 1));
            }
            hash = (hash + PRIME - (mult * out) % PRIME) % PRIME;
            hash = (hash * BASE + (c as usize)) % PRIME;
            i = i + 1;
        } else {
            done = true;
        }
    }
    proof {
        assert forall|j: int| !#[trigger] matches_at(t@, p@, j) by {
            if 0 <= j && j + m <= n && j < n - m {
                assert(j < i - m);
            }
        }
    }
    None
}

/// `p[0..k]` is both a prefix and a suffix of `p[0..q]`.
pub open spec fn border(p: Seq<u8>, q: int, k: int) -> bool {
    &&& 0 <= k <= q <= p.len()
    &&& forall|x: int| 0 <= x < k ==> #[trigger] p[x] == p[q - k + x]
}

/// `lps[q]`, for each `q < upto`, is the length of the longest proper prefix
/// of `p[0..=q]` that is also its suffix.
pub open spec fn is_lps(p: Seq<u8>, lps: Seq<usize>, upto: int) -> bool {
    forall|q: int|
        0 <= q < upto ==> {
            &&& #[trigger] lps[q] <= q
            &&& border(p, q + 1, lps[q] as int)
            &&& forall|k: int| lps[q] < k <= q ==> !#[trigger] border(p, q + 1, k)
        }
}

/// A border of `p[0..q]` shorter than another border `l` is a border of `p[0..l]`.
proof fn lemma_border_of_border(p: Seq<u8>, q: int, l: int, k: int)
    requires
        border(p, q, l),
        border(p, q, k),
        k <= l,
    ensures
        border(p, l, k),
{
    assert forall|x: int| 0 <= x < k implies #[trigger] p[x] == p[l - k + x] by {
        assert(p[x] == p[q - k + x]);
        assert(p[l - k + x] == p[q - l + (l - k + x)]);
    }
}

/// A border of a border of `p[0..q]` is a border of `p[0..q]`.
proof fn lemma_border_trans(p: Seq<u8>, q: int, l: int, k: int)
    requires
        border(p, q, l),
        border(p, l, k),
    ensures
        border(p, q, k),
{
    assert forall|x: int| 0 <= x < k implies #[trigger] p[x] == p[q - k + x] by {
        assert(p[x] == p[l - k + x]);
        assert(p[l - k + x] == p[q - l + (l - k + x)]);
    }
}

/// The longest-proper-prefix-suffix table of `pattern`.
fn lps_array(pattern: &[u8]) -> (r: Vec<usize>)
    requires
        pattern@.len() <= usize::MAX,
    ensures
        r@.len() == pattern@.len(),
        is_lps(pattern@, r@, pattern@.len() as int),
{
    let ghost p = pattern@;
    let m = pattern.len();
    let mut lps: Vec<usize> = Vec::new();
    while lps.len() < m
        invariant
            lps@.len() <= m,
            forall|q: int| 0 <= q < lps@.len() ==> #[trigger] lps@[q] == 0,
        decreases m - lps@.len(),
    {
        lps.push(0);
    }
    if m == 0 {
        return lps;
    }
    assert(border(p, 1, 0));
    let mut i: usize = 1;
    let mut l: usize = 0;
    while i < m
        invariant
            p == pattern@,
            m == p.len(),
            lps@.len() == m,
            1 <= i <= m,
            l < i,
            is_lps(p, lps@, i as int),
            border(p, i as int, l as int),
            forall|k: int| l < k < i && #[trigger] border(p, i as int, k) ==> p[k] != p[i as int],
        decreases 2 * (m - i) + l,
    {
        if pattern[i] == pattern[l] {
            l = l + 1;
            lps.set(i, l);
            proof {
                assert(border(p, i + 1, l as int)) by {
                    assert forall|x: int| 0 <= x < l implies #[trigger] p[x] == p[i + 1 - l + x] by {
                        if x < l - 1 {
                            assert(p[x] == p[i - (l - 1) + x]);
                        }
                    }
                }
                assert forall|k: int| l < k <= i implies !#[trigger] border(p, i + 1, k) by {
                    if border(p, i + 1, k) {
                        assert(border(p, i as int, k - 1)) by {
                            assert forall|x: int| 0 <= x < k - 1 implies #[trigger] p[x] == p[i - (k - 1) + x] by {
                                assert(p[x] == p[i + 1 - k + x]);
                            }
                        }
                        assert(p[k - 1] == p[i + 1 - k + (k - 1)]);
                    }
                }
                assert(is_lps(p, lps@, i + 1));
            }
            i = i + 1;
        } else if l != 0 {
            let nl = lps[l - 1];
            proof {
                assert(border(p, l as int, nl as int));
                lemma_border_trans(p, i as int, l as int, nl as int);
                assert forall|k: int| nl < k < i && #[trigger] border(p, i as int, k) implies p[k] != p[i as int] by {
                    if k < l {
                        lemma_border_of_border(p, i as int, l as int, k);
                    }
                }
            }
            l = nl;
        } else {
            lps.set(i, 0);
            proof {
                assert(border(p, i + 1, 0));
                assert forall|k: int| 0 < k <= i implies !#[trigger] border(p, i + 1, k) by {
                    if border(p, i + 1, k) {
                        assert(border(p, i as int, k - 1)) by {
                            assert forall|x: int| 0 <= x < k - 1 implies #[trigger] p[x] == p[i - (k - 1) + x] by {
                                assert(p[x] == p[i + 1 - k + x]);
                            }
                        }
                        assert(p[k - 1] == p[i + 1 - k + (k - 1)]);
                    }
                }
                assert(is_lps(p, lps@, i + 1));
            }
            i = i + 1;
            proof {
                assert(border(p, i as int, 0));
            }
        }
    }
    lps
}

/// Knuth-Morris-Pratt: after a mismatch the pattern slides by its prefix
/// table, so no byte of `text` is read twice in a row of matches.
pub fn kmp_search(text: &str, pattern: &str) -> (r: Option<usize>)
    ensures
        search_result(bytes_of(text), bytes_of(pattern), r),
{
    let t = text.as_bytes();
    let p = pattern.as_bytes();
    if t.len() == 0 || p.len() == 0 {
        return None;
    }
    let lps = lps_array(p);
    let n = t.len();
    let m = p.len();
    let mut i: usize = 0;
    let mut j: usize = 0;
    while i < n
        invariant
            t@ == bytes_of(text),
            p@ == bytes_of(pattern),
            n == t@.len(),
            m == p@.len(),
            m >= 1,
            lps@.len() == m,
            is_lps(p@, lps@, m as int),
            j < m,
            j <= i <= n,
            forall|x: int| 0 <= x < j ==> #[trigger] p@[x] == t@[i - j + x],
            forall|s: int| 0 <= s < i - j ==> !#[trigger] matches_at(t@, p@, s),
        decreases 2 * (n - i) + j,
    {
        if t[i] == p[j] {
            i = i + 1;
            j = j + 1;
            if j == m {
                proof {
                    assert(t@.subrange(i - j, i - j + m) =~= p@);
                }
                return Some(i - j);
            }
        } else if j != 0 {
            let nj = lps[j - 1];
            proof {
                let q = j - 1;
                assert(lps@[q] <= q);
                assert(border(p@, j as int, nj as int));
                assert forall|x: int| 0 <= x < nj implies #[trigger] p@[x] == t@[i - nj + x] by {
                    assert(p@[x] == p@[j - nj + x]);
                    assert(p@[j - nj + x] == t@[i - j + (j - nj + x)]);
                }
                assert forall|s: int| 0 <= s < i - nj implies !#[trigger] matches_at(t@, p@, s) by {
                    if s >= i - j && matches_at(t@, p@, s) {
                        let k = i - s;
                        assert(t@.subrange(s, s + m)[k] == p@[k]);
                        if s > i - j {
                            assert(border(p@, j as int, k)) by {
                                assert forall|x: int| 0 <= x < k implies #[trigger] p@[x] == p@[j - k + x] by {
                                    assert(t@.subrange(s, s + m)[x] == p@[x]);
                                    assert(p@[j - k + x] == t@[i - j + (j - k + x)]);
                                }
                            }
                        }
                    }
                }
            }
            j = nj;
        } else {
            proof {
                assert forall|s: int| 0 <= s < i + 1 implies !#[trigger] matches_at(t@, p@, s) by {
                    if s == i && matches_at(t@, p@, s) {
                        assert(t@.subrange(s, s + m)[0] == p@[0]);
                    }
                }
            }
            i = i + 1;
        }
    }
    proof {
        assert forall|s: int| !#[trigger] matches_at(t@, p@, s) by {
            if 0 <= s && s + m <= n && s >= i - j {
                assert(s + m > n);
            }
        }
    }
    None
}

} // verus!
