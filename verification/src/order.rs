//! The order of text as `str` compares it (byte-wise UTF-8, which is the
//! order of the characters' code points), and the stable insertion that
//! sorting and grouping by text are built on.

use vstd::prelude::*;

verus! {

/// `a < b` for strings: at the first difference the smaller character wins;
/// a proper prefix comes first.
pub open spec fn text_lt(a: Seq<char>, b: Seq<char>) -> bool
    decreases a.len(),
{
    if a.len() == 0 {
        b.len() > 0
    } else if b.len() == 0 {
        false
    } else if a[0] != b[0] {
        (a[0] as int) < (b[0] as int)
    } else {
        text_lt(a.drop_first(), b.drop_first())
    }
}

pub proof fn lemma_text_lt_irreflexive(a: Seq<char>)
    ensures
        !text_lt(a, a),
    decreases a.len(),
{
    if a.len() > 0 {
        lemma_text_lt_irreflexive(a.drop_first());
    }
}

pub proof fn lemma_text_lt_asymmetric(a: Seq<char>, b: Seq<char>)
    ensures
        !(text_lt(a, b) && text_lt(b, a)),
    decreases a.len(),
{
    if a.len() > 0 && b.len() > 0 && a[0] == b[0] {
        lemma_text_lt_asymmetric(a.drop_first(), b.drop_first());
    }
}

pub proof fn lemma_text_lt_transitive(a: Seq<char>, b: Seq<char>, c: Seq<char>)
    requires
        text_lt(a, b),
        text_lt(b, c),
    ensures
        text_lt(a, c),
    decreases a.len(),
{
    if a.len() > 0 && b.len() > 0 && c.len() > 0 && a[0] == b[0] && b[0] == c[0] {
        lemma_text_lt_transitive(a.drop_first(), b.drop_first(), c.drop_first());
    }
}

pub proof fn lemma_text_lt_total(a: Seq<char>, b: Seq<char>)
    ensures
        a == b || text_lt(a, b) || text_lt(b, a),
    decreases a.len(),
{
    if a.len() == 0 && b.len() == 0 {
        assert(a =~= b);
    } else if a.len() > 0 && b.len() > 0 && a[0] == b[0] {
        lemma_text_lt_total(a.drop_first(), b.drop_first());
        if a.drop_first() == b.drop_first() {
            assert(a =~= seq![a[0]] + a.drop_first());
            assert(b =~= seq![b[0]] + b.drop_first());
        }
    } else if a.len() > 0 && b.len() > 0 {
        assert((a[0] as int) != (b[0] as int));
    }
}

/// Whether `a` sorts before `b`.
pub fn text_lt_chars(a: &[char], b: &[char]) -> (r: bool)
    ensures
        r == text_lt(a@, b@),
{
    let n = a.len();
    let m = b.len();
    let mut i: usize = 0;
    assert(a@.skip(0) =~= a@);
    assert(b@.skip(0) =~= b@);
    while i < n && i < m
        invariant
            i <= n == a@.len(),
            i <= m == b@.len(),
            text_lt(a@, b@) == text_lt(a@.skip(i as int), b@.skip(i as int)),
        decreases n - i,
    {
        if a[i] != b[i] {
            let x: char = a[i];
            let y: char = b[i];
            proof { assert((x as int) < (y as int) <==> x < y); }
            return x < y;
        }
        assert(a@.skip(i as int).drop_first() =~= a@.skip(i + 1));
        assert(b@.skip(i as int).drop_first() =~= b@.skip(i + 1));
        i = i + 1;
    }
    i == n && i < m
}

/// Where a stable insertion puts an element with key `k` into a list with
/// keys `ks`: before the first strictly greater key, else at the end.
pub open spec fn is_insert_pos(ks: Seq<Seq<char>>, k: Seq<char>, j: int) -> bool {
    &&& 0 <= j <= ks.len()
    &&& (j < ks.len() ==> text_lt(k, ks[j]))
    &&& forall|i: int| 0 <= i < j ==> !text_lt(k, #[trigger] ks[i])
}

pub open spec fn insert_pos(ks: Seq<Seq<char>>, k: Seq<char>) -> int {
    choose|j: int| is_insert_pos(ks, k, j)
}

pub proof fn lemma_insert_pos(ks: Seq<Seq<char>>, k: Seq<char>, j: int)
    requires
        is_insert_pos(ks, k, j),
    ensures
        insert_pos(ks, k) == j,
{
    let c = choose|c: int| is_insert_pos(ks, k, c);
    assert(is_insert_pos(ks, k, c));
    if c < j {
        assert(!text_lt(k, ks[c]));
    } else if c > j {
        assert(!text_lt(k, ks[j]));
    }
}

/// Finds the stable insertion position of `k` among `ks`.
pub fn find_insert_pos(ks: &Vec<Vec<char>>, k: &[char]) -> (r: usize)
    ensures
        is_insert_pos(ks@.map_values(|v: Vec<char>| v@), k@, r as int),
        insert_pos(ks@.map_values(|v: Vec<char>| v@), k@) == r as int,
{
    let ghost kv = ks@.map_values(|v: Vec<char>| v@);
    let n = ks.len();
    let mut j: usize = 0;
    while j < n
        invariant
            j <= n == ks@.len() == kv.len(),
            kv == ks@.map_values(|v: Vec<char>| v@),
            forall|i: int| 0 <= i < j ==> !text_lt(k@, #[trigger] kv[i]),
        decreases n - j,
    {
        assert(kv[j as int] == ks@[j as int]@);
        if text_lt_chars(k, ks[j].as_slice()) {
            proof {
                lemma_insert_pos(kv, k@, j as int);
            }
            return j;
        }
        j = j + 1;
    }
    proof {
        lemma_insert_pos(kv, k@, n as int);
    }
    n
}

/// Keys in order: no key is greater than a later one.
pub open spec fn keys_sorted(ks: Seq<Seq<char>>) -> bool {
    forall|i: int, j: int| 0 <= i < j < ks.len() ==> !text_lt(#[trigger] ks[j], #[trigger] ks[i])
}

/// Inserting at the stable position keeps a sorted key list sorted.
pub proof fn lemma_insert_keeps_sorted(ks: Seq<Seq<char>>, k: Seq<char>)
    requires
        keys_sorted(ks),
    ensures
        keys_sorted(ks.insert(insert_pos(ks, k), k)),
{
    let j = insert_pos(ks, k);
    lemma_insert_pos_exists(ks, k);
    let r = ks.insert(j, k);
    assert forall|a: int, b: int| 0 <= a < b < r.len() implies !text_lt(#[trigger] r[b], #[trigger] r[a]) by {
        if a < j && b == j {
            // ks[a] <= k since k is not below ks[a]
            assert(!text_lt(k, ks[a]));
        } else if a == j && b > j {
            // k < ks[j] <= ks[b - 1]
            let kb = ks[b - 1];
            assert(text_lt(k, ks[j]));
            if text_lt(kb, k) {
                if j < b - 1 {
                    assert(!text_lt(ks[b - 1], ks[j]));
                    lemma_text_lt_total(ks[j], kb);
                    if text_lt(ks[j], kb) {
                        lemma_text_lt_transitive(k, ks[j], kb);
                    }
                } else {
                }
                lemma_text_lt_asymmetric(k, kb);
                if text_lt(ks[j], kb) {
                    lemma_text_lt_transitive(k, ks[j], kb);
                }
            }
        } else if a < j && b > j {
            assert(r[a] == ks[a] && r[b] == ks[b - 1]);
        } else if b < j {
            assert(r[a] == ks[a] && r[b] == ks[b]);
        } else {
            assert(r[a] == ks[a - 1] && r[b] == ks[b - 1]);
        }
    }
}

pub proof fn lemma_insert_pos_exists(ks: Seq<Seq<char>>, k: Seq<char>)
    ensures
        is_insert_pos(ks, k, insert_pos(ks, k)),
{
    if exists|j: int| 0 <= j < ks.len() && text_lt(k, ks[j]) {
        let j0 = choose|j: int| 0 <= j < ks.len() && text_lt(k, ks[j]);
        lemma_first_greater(ks, k, j0);
    } else {
        assert(is_insert_pos(ks, k, ks.len() as int));
    }
}

proof fn lemma_first_greater(ks: Seq<Seq<char>>, k: Seq<char>, j0: int)
    requires
        0 <= j0 < ks.len(),
        text_lt(k, ks[j0]),
    ensures
        exists|j: int| is_insert_pos(ks, k, j),
    decreases j0,
{
    if exists|i: int| 0 <= i < j0 && text_lt(k, ks[i]) {
        let i = choose|i: int| 0 <= i < j0 && text_lt(k, ks[i]);
        lemma_first_greater(ks, k, i);
    } else {
        assert(is_insert_pos(ks, k, j0));
    }
}

} // verus!
