//! Lexicographic order on byte strings, the order of `str` in std, and the
//! uniqueness of a strictly sorted arrangement.

use vstd::prelude::*;
use vstd::utf8::*;

verus! {

/// Lexicographic order on byte sequences: the order of `[u8]` and of `str`.
pub open spec fn bytes_lt(a: Seq<u8>, b: Seq<u8>) -> bool
    decreases a.len(),
{
    if a.len() == 0 {
        b.len() > 0
    } else if b.len() == 0 {
        false
    } else if a[0] != b[0] {
        a[0] < b[0]
    } else {
        bytes_lt(a.drop_first(), b.drop_first())
    }
}

/// The order of two strings: that of their UTF-8 encodings.
pub open spec fn str_lt(a: Seq<char>, b: Seq<char>) -> bool {
    bytes_lt(encode_utf8(a), encode_utf8(b))
}

pub proof fn lemma_bytes_lt_irreflexive(a: Seq<u8>)
    ensures
        !bytes_lt(a, a),
    decreases a.len(),
{
    if a.len() > 0 {
        lemma_bytes_lt_irreflexive(a.drop_first());
    }
}

pub proof fn lemma_bytes_lt_transitive(a: Seq<u8>, b: Seq<u8>, c: Seq<u8>)
    requires
        bytes_lt(a, b),
        bytes_lt(b, c),
    ensures
        bytes_lt(a, c),
    decreases a.len(),
{
    if a.len() > 0 && b.len() > 0 && c.len() > 0 && a[0] == b[0] && b[0] == c[0] {
        lemma_bytes_lt_transitive(a.drop_first(), b.drop_first(), c.drop_first());
    }
}

pub proof fn lemma_bytes_lt_total(a: Seq<u8>, b: Seq<u8>)
    requires
        a != b,
    ensures
        bytes_lt(a, b) || bytes_lt(b, a),
    decreases a.len(),
{
    if a.len() > 0 && b.len() > 0 && a[0] == b[0] {
        if a.drop_first() == b.drop_first() {
            assert(a =~= seq![a[0]] + a.drop_first());
            assert(b =~= seq![b[0]] + b.drop_first());
        }
        lemma_bytes_lt_total(a.drop_first(), b.drop_first());
    } else if a.len() == 0 && b.len() == 0 {
        assert(a =~= b);
    }
}

/// Byte strings are ordered lexicographically: `a` comes before `b` exactly
/// when `a` is a proper prefix of `b`, or at the first index where they
/// differ `a` has the smaller byte. Length alone decides nothing.
pub proof fn lemma_bytes_lt_lexicographic(a: Seq<u8>, b: Seq<u8>)
    ensures
        bytes_lt(a, b) <==> ((a.len() < b.len() && forall|j: int| 0 <= j < a.len() ==> a[j] == b[j]) || exists|i: int|
            0 <= i < a.len() && i < b.len() && a[i] < b[i] && forall|j: int| 0 <= j < i ==> #[trigger] a[j] == b[j]),
    decreases a.len(),
{
    if a.len() == 0 {
    } else if b.len() == 0 {
    } else if a[0] != b[0] {
        if a[0] < b[0] {
            assert(forall|j: int| 0 <= j < 0 ==> #[trigger] a[j] == b[j]);
        }
    } else {
        let a1 = a.drop_first();
        let b1 = b.drop_first();
        lemma_bytes_lt_lexicographic(a1, b1);
        if a1.len() < b1.len() && forall|j: int| 0 <= j < a1.len() ==> a1[j] == b1[j] {
            assert forall|j: int| 0 <= j < a.len() implies a[j] == b[j] by {
                if j > 0 {
                    assert(a[j] == a1[j - 1] && b[j] == b1[j - 1]);
                }
            }
        }
        if a.len() < b.len() && forall|j: int| 0 <= j < a.len() ==> a[j] == b[j] {
            assert forall|j: int| 0 <= j < a1.len() implies a1[j] == b1[j] by {
                assert(a[j + 1] == b[j + 1]);
            }
        }
        if exists|i: int| 0 <= i < a1.len() && i < b1.len() && a1[i] < b1[i] && forall|j: int| 0 <= j < i ==> #[trigger] a1[j] == b1[j] {
            let i = choose|i: int| 0 <= i < a1.len() && i < b1.len() && a1[i] < b1[i] && forall|j: int| 0 <= j < i ==> #[trigger] a1[j] == b1[j];
            assert(a[i + 1] < b[i + 1]);
            assert forall|j: int| 0 <= j < i + 1 implies #[trigger] a[j] == b[j] by {
                if j > 0 {
                    assert(a1[j - 1] == b1[j - 1]);
                }
            }
        }
        if exists|i: int| 0 <= i < a.len() && i < b.len() && a[i] < b[i] && forall|j: int| 0 <= j < i ==> #[trigger] a[j] == b[j] {
            let i = choose|i: int| 0 <= i < a.len() && i < b.len() && a[i] < b[i] && forall|j: int| 0 <= j < i ==> #[trigger] a[j] == b[j];
            assert(i > 0);
            assert(a1[i - 1] < b1[i - 1]);
            assert forall|j: int| 0 <= j < i - 1 implies #[trigger] a1[j] == b1[j] by {
                assert(a[j + 1] == b[j + 1]);
            }
        }
    }
}

/// Repository names are ordered by their UTF-8 bytes, lexicographically: a
/// name comes first when it is a proper prefix of the other, or when it has
/// the smaller byte where they first differ, whatever their lengths.
pub proof fn lemma_str_lt_lexicographic(a: Seq<char>, b: Seq<char>)
    ensures
        str_lt(a, b) <==> ({
            let x = encode_utf8(a);
            let y = encode_utf8(b);
            (x.len() < y.len() && forall|j: int| 0 <= j < x.len() ==> x[j] == y[j]) || exists|i: int|
                0 <= i < x.len() && i < y.len() && x[i] < y[i] && forall|j: int| 0 <= j < i ==> #[trigger] x[j] == y[j]
        }),
{
    lemma_bytes_lt_lexicographic(encode_utf8(a), encode_utf8(b));
}

/// `str_lt` is a strict total order.
pub proof fn lemma_str_lt_order()
    ensures
        forall|a: Seq<char>| !#[trigger] str_lt(a, a),
        forall|a: Seq<char>, b: Seq<char>, c: Seq<char>|
            #[trigger] str_lt(a, b) && #[trigger] str_lt(b, c) ==> str_lt(a, c),
        forall|a: Seq<char>, b: Seq<char>| a != b ==> #[trigger] str_lt(a, b) || #[trigger] str_lt(b, a),
{
    assert forall|a: Seq<char>| !#[trigger] str_lt(a, a) by {
        lemma_bytes_lt_irreflexive(encode_utf8(a));
    }
    assert forall|a: Seq<char>, b: Seq<char>, c: Seq<char>|
        #[trigger] str_lt(a, b) && #[trigger] str_lt(b, c) implies str_lt(a, c) by {
        lemma_bytes_lt_transitive(encode_utf8(a), encode_utf8(b), encode_utf8(c));
    }
    assert forall|a: Seq<char>, b: Seq<char>| a != b implies #[trigger] str_lt(a, b) || #[trigger] str_lt(b, a) by {
        encode_utf8_decode_utf8(a);
        encode_utf8_decode_utf8(b);
        lemma_bytes_lt_total(encode_utf8(a), encode_utf8(b));
    }
}

/// Compares two byte strings as `<` on `[u8]` does.
pub fn bytes_less(a: &[u8], b: &[u8]) -> (res: bool)
    ensures
        res == bytes_lt(a@, b@),
{
    let mut i: usize = 0;
    assert(a@.skip(0) =~= a@);
    assert(b@.skip(0) =~= b@);
    while i < a.len() && i < b.len()
        invariant
            i <= a@.len(),
            i <= b@.len(),
            bytes_lt(a@, b@) == bytes_lt(a@.skip(i as int), b@.skip(i as int)),
        decreases a@.len() - i,
    {
        if a[i] != b[i] {
            assert(a@.skip(i as int)[0] == a@[i as int]);
            assert(b@.skip(i as int)[0] == b@[i as int]);
            return a[i] < b[i];
        }
        assert(a@.skip(i as int).drop_first() =~= a@.skip(i as int + 1));
        assert(b@.skip(i as int).drop_first() =~= b@.skip(i as int + 1));
        i = i + 1;
    }
    i < b.len()
}

/// `s` is strictly increasing under `lt`.
pub open spec fn strictly_sorted<T>(s: Seq<T>, lt: spec_fn(T, T) -> bool) -> bool {
    forall|i: int, j: int| 0 <= i < j < s.len() ==> lt(#[trigger] s[i], #[trigger] s[j])
}

/// Two strictly sorted sequences with the same elements are equal.
pub proof fn lemma_strictly_sorted_unique<T>(a: Seq<T>, b: Seq<T>, lt: spec_fn(T, T) -> bool)
    requires
        forall|x: T| !#[trigger] lt(x, x),
        forall|x: T, y: T, z: T| #[trigger] lt(x, y) && #[trigger] lt(y, z) ==> lt(x, z),
        strictly_sorted(a, lt),
        strictly_sorted(b, lt),
        forall|x: T| a.contains(x) <==> b.contains(x),
    ensures
        a == b,
    decreases a.len(),
{
    if a.len() == 0 {
        if b.len() > 0 {
            assert(b.contains(b[0]));
        }
        assert(a =~= b);
    } else if b.len() == 0 {
        assert(a.contains(a[0]));
    } else {
        assert(a.contains(a[0]));
        assert(b.contains(b[0]));
        let k = choose|k: int| 0 <= k < b.len() && b[k] == a[0];
        let m = choose|m: int| 0 <= m < a.len() && a[m] == b[0];
        if k > 0 {
            assert(lt(b[0], b[k]));
            if m > 0 {
                assert(lt(a[0], a[m]));
                assert(lt(a[0], a[0]));
            }
        }
        assert(a[0] == b[0]);
        let ta = a.drop_first();
        let tb = b.drop_first();
        assert forall|x: T| ta.contains(x) implies tb.contains(x) by {
            let i = choose|i: int| 0 <= i < ta.len() && ta[i] == x;
            assert(lt(a[0], a[i + 1]));
            assert(b.contains(x));
            let j = choose|j: int| 0 <= j < b.len() && b[j] == x;
            if j == 0 {
                assert(lt(x, x));
            }
            assert(tb[j - 1] == x);
        }
        assert forall|x: T| tb.contains(x) implies ta.contains(x) by {
            let i = choose|i: int| 0 <= i < tb.len() && tb[i] == x;
            assert(lt(b[0], b[i + 1]));
            assert(a.contains(x));
            let j = choose|j: int| 0 <= j < a.len() && a[j] == x;
            if j == 0 {
                assert(lt(x, x));
            }
            assert(ta[j - 1] == x);
        }
        assert forall|i: int, j: int| 0 <= i < j < ta.len() implies lt(#[trigger] ta[i], #[trigger] ta[j]) by {
            assert(lt(a[i + 1], a[j + 1]));
        }
        assert forall|i: int, j: int| 0 <= i < j < tb.len() implies lt(#[trigger] tb[i], #[trigger] tb[j]) by {
            assert(lt(b[i + 1], b[j + 1]));
        }
        lemma_strictly_sorted_unique(ta, tb, lt);
        assert(a =~= seq![a[0]] + ta);
        assert(b =~= seq![b[0]] + tb);
    }
}

/// Every finite collection has a strictly sorted arrangement under a strict
/// total order.
pub proof fn lemma_strictly_sorted_exists<T>(s: Seq<T>, lt: spec_fn(T, T) -> bool)
    requires
        forall|x: T| !#[trigger] lt(x, x),
        forall|x: T, y: T, z: T| #[trigger] lt(x, y) && #[trigger] lt(y, z) ==> lt(x, z),
        forall|x: T, y: T| x != y ==> #[trigger] lt(x, y) || #[trigger] lt(y, x),
    ensures
        exists|g: Seq<T>|
            strictly_sorted(g, lt) && forall|x: T| #[trigger] g.contains(x) <==> s.contains(x),
    decreases s.len(),
{
    if s.len() == 0 {
        let g = Seq::<T>::empty();
        assert(strictly_sorted(g, lt));
        assert(forall|x: T| #[trigger] g.contains(x) <==> s.contains(x));
    } else {
        let init = s.drop_last();
        let x = s.last();
        lemma_strictly_sorted_exists(init, lt);
        let g0 = choose|g: Seq<T>|
            strictly_sorted(g, lt) && forall|y: T| #[trigger] g.contains(y) <==> init.contains(y);
        assert forall|y: T| s.contains(y) <==> init.contains(y) || y == x by {
            if s.contains(y) {
                let i = choose|i: int| 0 <= i < s.len() && s[i] == y;
                if i < s.len() - 1 {
                    assert(init[i] == y);
                }
            }
            if init.contains(y) {
                let i = choose|i: int| 0 <= i < init.len() && init[i] == y;
                assert(s[i] == y);
            }
            if y == x {
                assert(s[s.len() - 1] == y);
            }
        }
        if g0.contains(x) {
            assert(forall|y: T| #[trigger] g0.contains(y) <==> s.contains(y));
        } else {
            let k = lemma_insertion_point(g0, x, lt);
            let g = g0.insert(k, x);
            assert forall|a: int, b: int| 0 <= a < b < g.len() implies lt(#[trigger] g[a], #[trigger] g[b]) by {
                if b < k {
                    assert(lt(g0[a], g0[b]));
                } else if b == k {
                } else if a < k {
                    assert(lt(g0[a], x));
                    assert(lt(x, g0[k]));
                    if b - 1 > k {
                        assert(lt(g0[k], g0[b - 1]));
                    }
                } else if a == k {
                    assert(lt(x, g0[k]));
                    if b - 1 > k {
                        assert(lt(g0[k], g0[b - 1]));
                    }
                } else {
                    assert(lt(g0[a - 1], g0[b - 1]));
                }
            }
            assert forall|y: T| #[trigger] g.contains(y) <==> s.contains(y) by {
                if g.contains(y) {
                    let q = choose|q: int| 0 <= q < g.len() && g[q] == y;
                    if q < k {
                        assert(g0[q] == y);
                    } else if q > k {
                        assert(g0[q - 1] == y);
                    }
                }
                if g0.contains(y) {
                    let q = choose|q: int| 0 <= q < g0.len() && g0[q] == y;
                    if q < k {
                        assert(g[q] == y);
                    } else {
                        assert(g[q + 1] == y);
                    }
                }
                if y == x {
                    assert(g[k] == y);
                }
            }
            assert(strictly_sorted(g, lt));
        }
    }
}

/// The index at which `x` keeps a strictly sorted `g` sorted.
proof fn lemma_insertion_point<T>(g: Seq<T>, x: T, lt: spec_fn(T, T) -> bool) -> (k: int)
    requires
        forall|y: T, z: T| y != z ==> #[trigger] lt(y, z) || #[trigger] lt(z, y),
        !g.contains(x),
    ensures
        0 <= k <= g.len(),
        forall|i: int| 0 <= i < k ==> lt(#[trigger] g[i], x),
        k < g.len() ==> lt(x, g[k]),
    decreases g.len(),
{
    if g.len() == 0 {
        0
    } else if lt(x, g[0]) {
        0
    } else {
        assert(g[0] != x);
        assert(lt(g[0], x));
        assert forall|i: int| 0 <= i < g.drop_first().len() implies g.drop_first()[i] != x by {
            assert(g[i + 1] == g.drop_first()[i]);
        }
        let k = lemma_insertion_point(g.drop_first(), x, lt);
        assert forall|i: int| 0 <= i < k + 1 implies lt(#[trigger] g[i], x) by {
            if i > 0 {
                assert(g[i] == g.drop_first()[i - 1]);
            }
        }
        if k + 1 < g.len() {
            assert(g[k + 1] == g.drop_first()[k]);
        }
        k + 1
    }
}

} // verus!
