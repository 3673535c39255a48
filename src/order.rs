//! Byte-wise string order and stable insertion ordering of positions.
use vstd::prelude::*;
use vstd::relations::sorted_by;
use vstd::utf8::encode_utf8;

verus! {

/// `a` sorts before or equal to `b`, comparing bytes lexicographically.
pub open spec fn bytes_le(a: Seq<u8>, b: Seq<u8>) -> bool
    decreases a.len(),
{
    if a.len() == 0 {
        true
    } else if b.len() == 0 {
        false
    } else if a[0] != b[0] {
        a[0] < b[0]
    } else {
        bytes_le(a.drop_first(), b.drop_first())
    }
}

/// Inserts position `x` into `s` after every position that orders before or
/// equal to it, scanning from the end: the step of a stable insertion sort.
pub open spec fn insert_by(s: Seq<int>, x: int, le: spec_fn(int, int) -> bool) -> Seq<int>
    decreases s.len(),
{
    if s.len() == 0 {
        seq![x]
    } else if le(s.last(), x) {
        s.push(x)
    } else {
        insert_by(s.drop_last(), x, le).push(s.last())
    }
}

/// The positions `0..n` in stable insertion-sort order under `le`.
pub open spec fn sort_by_le(n: nat, le: spec_fn(int, int) -> bool) -> Seq<int>
    decreases n,
{
    if n == 0 {
        Seq::empty()
    } else {
        insert_by(sort_by_le((n - 1) as nat, le), n - 1, le)
    }
}

/// Byte-wise lexicographic comparison of two strings.
pub fn str_le(a: &str, b: &str) -> (r: bool)
    ensures
        r == bytes_le(encode_utf8(a@), encode_utf8(b@)),
{
    let x = a.as_bytes();
    let y = b.as_bytes();
    let mut i: usize = 0;
    assert(x@.skip(0) =~= x@);
    assert(y@.skip(0) =~= y@);
    while i < x.len()
        invariant
            i <= x@.len(),
            i <= y@.len(),
            x@ == encode_utf8(a@),
            y@ == encode_utf8(b@),
            bytes_le(x@, y@) == bytes_le(x@.skip(i as int), y@.skip(i as int)),
        decreases x@.len() - i,
    {
        assert(x@.skip(i as int).drop_first() =~= x@.skip(i + 1));
        if i >= y.len() {
            assert(y@.skip(i as int).len() == 0);
            assert(x@.skip(i as int).len() > 0);
            return false;
        }
        assert(y@.skip(i as int).drop_first() =~= y@.skip(i + 1));
        assert(x@.skip(i as int)[0] == x@[i as int]);
        assert(y@.skip(i as int)[0] == y@[i as int]);
        if x[i] != y[i] {
            return x[i] < y[i];
        }
        i = i + 1;
    }
    assert(x@.skip(i as int).len() == 0);
    true
}

/// Where the scan from the end stops, `insert_by` puts `x`.
pub proof fn lemma_insert_at(s: Seq<int>, x: int, le: spec_fn(int, int) -> bool, j: int)
    requires
        0 <= j <= s.len(),
        j == 0 || le(s[j - 1], x),
        forall|k: int| j <= k < s.len() ==> !le(#[trigger] s[k], x),
    ensures
        insert_by(s, x, le) == s.take(j).push(x) + s.skip(j),
    decreases s.len(),
{
    if s.len() == 0 {
        assert(s.take(j).push(x) + s.skip(j) =~= seq![x]);
    } else if j == s.len() {
        assert(s.take(j).push(x) + s.skip(j) =~= s.push(x));
    } else {
        let t = s.drop_last();
        assert(!le(s[s.len() - 1], x));
        assert forall|k: int| j <= k < t.len() implies !le(#[trigger] t[k], x) by {
            assert(t[k] == s[k]);
        }
        if j > 0 {
            assert(t[j - 1] == s[j - 1]);
        }
        lemma_insert_at(t, x, le, j);
        assert((t.take(j).push(x) + t.skip(j)).push(s.last()) =~= s.take(j).push(x) + s.skip(j));
    }
}

/// Every byte sequence orders before or equal to itself.
pub proof fn lemma_bytes_le_refl(a: Seq<u8>)
    ensures
        bytes_le(a, a),
    decreases a.len(),
{
    if a.len() > 0 {
        lemma_bytes_le_refl(a.drop_first());
    }
}

/// Byte sequences ordered both ways are equal.
pub proof fn lemma_bytes_le_antisym(a: Seq<u8>, b: Seq<u8>)
    requires
        bytes_le(a, b),
        bytes_le(b, a),
    ensures
        a == b,
    decreases a.len(),
{
    if a.len() == 0 {
        assert(a =~= b);
    } else {
        lemma_bytes_le_antisym(a.drop_first(), b.drop_first());
        assert(a =~= seq![a[0]] + a.drop_first());
        assert(b =~= seq![b[0]] + b.drop_first());
    }
}

/// Byte-wise order is transitive.
pub proof fn lemma_bytes_le_trans(a: Seq<u8>, b: Seq<u8>, c: Seq<u8>)
    requires
        bytes_le(a, b),
        bytes_le(b, c),
    ensures
        bytes_le(a, c),
    decreases a.len(),
{
    if a.len() > 0 && b.len() > 0 && c.len() > 0 && a[0] == b[0] && b[0] == c[0] {
        lemma_bytes_le_trans(a.drop_first(), b.drop_first(), c.drop_first());
    }
}

/// Any two byte sequences are ordered one way or the other.
pub proof fn lemma_bytes_le_total(a: Seq<u8>, b: Seq<u8>)
    ensures
        bytes_le(a, b) || bytes_le(b, a),
    decreases a.len(),
{
    if a.len() > 0 && b.len() > 0 && a[0] == b[0] {
        lemma_bytes_le_total(a.drop_first(), b.drop_first());
    }
}

/// `le` is total and transitive on positions.
pub open spec fn total_preorder(le: spec_fn(int, int) -> bool) -> bool {
    &&& forall|x: int, y: int| #[trigger] le(x, y) || #[trigger] le(y, x)
    &&& forall|x: int, y: int, z: int| #[trigger] le(x, y) && #[trigger] le(y, z) ==> le(x, z)
}

/// `insert_by` places `x` at a position where everything before orders before
/// or equal to it and it orders before or equal to everything after.
pub proof fn lemma_insert_by_sorted(s: Seq<int>, x: int, le: spec_fn(int, int) -> bool) -> (j: int)
    requires
        total_preorder(le),
        sorted_by(s, le),
    ensures
        0 <= j <= s.len(),
        insert_by(s, x, le) == s.insert(j, x),
        sorted_by(insert_by(s, x, le), le),
    decreases s.len(),
{
    if s.len() == 0 {
        assert(s.insert(0, x) =~= seq![x]);
        0
    } else if le(s.last(), x) {
        let r = s.push(x);
        assert(s.insert(s.len() as int, x) =~= r);
        assert forall|i: int, k: int| 0 <= i < k < r.len() implies #[trigger] le(r[i], r[k]) by {
            if k == s.len() && i < s.len() - 1 {
                assert(le(s[i], s[s.len() - 1]));
            }
        }
        s.len() as int
    } else {
        let t = s.drop_last();
        assert(sorted_by(t, le));
        let j = lemma_insert_by_sorted(t, x, le);
        let u = t.insert(j, x);
        let r = u.push(s.last());
        assert(r =~= s.insert(j, x));
        assert(le(x, s.last()));
        assert forall|i: int, k: int| 0 <= i < k < r.len() implies #[trigger] le(r[i], r[k]) by {
            if k == r.len() - 1 {
                if i < j {
                    assert(r[i] == s[i]);
                } else if i == j {
                } else {
                    assert(r[i] == s[i - 1]);
                }
            }
        }
        j
    }
}

/// The stable insertion order of `0..n` is sorted and lists each position once.
pub proof fn lemma_sort_by_le(n: nat, le: spec_fn(int, int) -> bool)
    requires
        total_preorder(le),
    ensures
        sort_by_le(n, le).len() == n,
        sorted_by(sort_by_le(n, le), le),
        sort_by_le(n, le).no_duplicates(),
        forall|k: int| 0 <= k < n ==> 0 <= #[trigger] sort_by_le(n, le)[k] < n,
        forall|i: int| 0 <= i < n ==> #[trigger] sort_by_le(n, le).contains(i),
    decreases n,
{
    if n > 0 {
        let m = (n - 1) as nat;
        lemma_sort_by_le(m, le);
        let s = sort_by_le(m, le);
        let j = lemma_insert_by_sorted(s, m as int, le);
        let r = s.insert(j, m as int);
        assert forall|k: int| 0 <= k < n implies 0 <= #[trigger] r[k] < n by {
            if k < j {
                assert(r[k] == s[k]);
            } else if k > j {
                assert(r[k] == s[k - 1]);
            }
        }
        assert forall|a: int, b: int| 0 <= a < r.len() && 0 <= b < r.len() && a != b implies r[a]
            != r[b] by {
            if a != j && b != j {
                let a0 = if a < j { a } else { a - 1 };
                let b0 = if b < j { b } else { b - 1 };
                assert(r[a] == s[a0]);
                assert(r[b] == s[b0]);
            } else if a == j {
                let b0 = if b < j { b } else { b - 1 };
                assert(r[b] == s[b0]);
            } else {
                let a0 = if a < j { a } else { a - 1 };
                assert(r[a] == s[a0]);
            }
        }
        assert forall|i: int| 0 <= i < n implies #[trigger] r.contains(i) by {
            if i == m {
                assert(r[j] == i);
            } else {
                assert(s.contains(i));
                let k = choose|k: int| 0 <= k < s.len() && s[k] == i;
                if k < j {
                    assert(r[k] == i);
                } else {
                    assert(r[k + 1] == i);
                }
            }
        }
    }
}

} // verus!
