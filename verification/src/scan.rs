//! Turning the files found under an artifact directory into artifact records:
//! ordering, relative paths, risk checks and SHA-256 digests.
use vstd::prelude::*;
use vstd::string::*;
use sha2::{Digest, Sha256};
use crate::packet::{ArtifactRecord, ArtifactRecordView, PacketError, PacketErrorView, record_views};
use crate::risk::{lemma_split_on_nonempty, risk_flags, risk_flags_for, split_on};
use crate::text::{chars_of, join, join_strings, push_char, same_chars, views};

verus! {

/// What a directory walk found of one file: the components of its path, the
/// path as it is shown to a user, and its size and contents, each of which
/// may have failed to be read (with the message that says why).
#[derive(Debug)]
pub struct ScannedFile {
    pub path: Vec<String>,
    pub display: String,
    pub size_bytes: Result<u64, String>,
    pub contents: Result<Vec<u8>, String>,
}

// ---------------------------------------------------------------------------
// Ordering of paths

/// Strict lexicographic order of texts, character by character.
pub open spec fn text_before(a: Seq<char>, b: Seq<char>) -> bool
    decreases a.len(),
{
    if a.len() == 0 {
        b.len() > 0
    } else if b.len() == 0 {
        false
    } else if a[0] != b[0] {
        a[0] < b[0]
    } else {
        text_before(a.drop_first(), b.drop_first())
    }
}

/// Strict lexicographic order of paths, component by component, as paths
/// are ordered.
pub open spec fn path_before(a: Seq<Seq<char>>, b: Seq<Seq<char>>) -> bool
    decreases a.len(),
{
    if a.len() == 0 {
        b.len() > 0
    } else if b.len() == 0 {
        false
    } else if a[0] != b[0] {
        text_before(a[0], b[0])
    } else {
        path_before(a.drop_first(), b.drop_first())
    }
}

/// Texts are ordered as in a dictionary: `a` comes before `b` exactly when
/// `a` is a proper beginning of `b`, or at the first position where they
/// differ `a` has the smaller character.
pub proof fn lemma_text_before_means(a: Seq<char>, b: Seq<char>)
    ensures
        text_before(a, b) <==> ((a.len() < b.len() && a == b.take(a.len() as int)) || exists|k: int|
            0 <= k < a.len() && k < b.len() && a.take(k) == b.take(k) && #[trigger] a[k] < b[k]),
    decreases a.len(),
{
    if a.len() == 0 {
        assert(a =~= b.take(0));
    } else if b.len() == 0 {
    } else if a[0] != b[0] {
        if a.len() < b.len() && a == b.take(a.len() as int) {
            assert(a[0] == b.take(a.len() as int)[0]);
        }
        if exists|k: int| 0 <= k < a.len() && k < b.len() && a.take(k) == b.take(k) && #[trigger] a[k] < b[k] {
            let k = choose|k: int| 0 <= k < a.len() && k < b.len() && a.take(k) == b.take(k) && #[trigger] a[k] < b[k];
            if k > 0 {
                assert(a.take(k)[0] == a[0] && b.take(k)[0] == b[0]);
            }
        }
        if a[0] < b[0] {
            assert(a.take(0) =~= b.take(0));
            assert(a[0] < b[0]);
        }
    } else {
        let a1 = a.drop_first();
        let b1 = b.drop_first();
        lemma_text_before_means(a1, b1);
        // a proper beginning
        if a.len() < b.len() && a == b.take(a.len() as int) {
            assert(a1 =~= b1.take(a1.len() as int));
        }
        if a1.len() < b1.len() && a1 == b1.take(a1.len() as int) {
            assert forall|i: int| 0 <= i < a.len() implies #[trigger] a[i] == b.take(a.len() as int)[i] by {
                if i > 0 {
                    assert(a[i] == a1[i - 1]);
                    assert(b1.take(a1.len() as int)[i - 1] == b[i]);
                }
            }
            assert(a =~= b.take(a.len() as int));
        }
        // a first difference
        if exists|k: int| 0 <= k < a.len() && k < b.len() && a.take(k) == b.take(k) && #[trigger] a[k] < b[k] {
            let k = choose|k: int| 0 <= k < a.len() && k < b.len() && a.take(k) == b.take(k) && #[trigger] a[k] < b[k];
            assert(k > 0);
            assert(a1.take(k - 1) =~= b1.take(k - 1)) by {
                assert forall|i: int| 0 <= i < k - 1 implies #[trigger] a1.take(k - 1)[i] == b1.take(k - 1)[i] by {
                    assert(a.take(k)[i + 1] == b.take(k)[i + 1]);
                }
            }
            assert(a1[k - 1] == a[k] && b1[k - 1] == b[k]);
        }
        if exists|k: int| 0 <= k < a1.len() && k < b1.len() && a1.take(k) == b1.take(k) && #[trigger] a1[k] < b1[k] {
            let k = choose|k: int| 0 <= k < a1.len() && k < b1.len() && a1.take(k) == b1.take(k) && #[trigger] a1[k] < b1[k];
            assert(a.take(k + 1) =~= b.take(k + 1)) by {
                assert forall|i: int| 0 <= i < k + 1 implies #[trigger] a.take(k + 1)[i] == b.take(k + 1)[i] by {
                    if i > 0 {
                        assert(a1.take(k)[i - 1] == b1.take(k)[i - 1]);
                    }
                }
            }
            assert(a[k + 1] == a1[k] && b[k + 1] == b1[k]);
        }
    }
}

/// Paths are ordered component by component: `a` comes before `b` exactly
/// when `a` is a proper beginning of `b`, or at the first component where
/// they differ `a`'s text comes before `b`'s.
pub proof fn lemma_path_before_means(a: Seq<Seq<char>>, b: Seq<Seq<char>>)
    ensures
        path_before(a, b) <==> ((a.len() < b.len() && a == b.take(a.len() as int)) || exists|k: int|
            0 <= k < a.len() && k < b.len() && a.take(k) == b.take(k) && #[trigger] a[k] != b[k] && text_before(a[k], b[k])),
    decreases a.len(),
{
    if a.len() == 0 {
        assert(a =~= b.take(0));
    } else if b.len() == 0 {
    } else if a[0] != b[0] {
        if a.len() < b.len() && a == b.take(a.len() as int) {
            assert(a[0] == b.take(a.len() as int)[0]);
        }
        if exists|k: int| 0 <= k < a.len() && k < b.len() && a.take(k) == b.take(k) && #[trigger] a[k] != b[k] && text_before(a[k], b[k]) {
            let k = choose|k: int| 0 <= k < a.len() && k < b.len() && a.take(k) == b.take(k) && #[trigger] a[k] != b[k] && text_before(a[k], b[k]);
            if k > 0 {
                assert(a.take(k)[0] == a[0] && b.take(k)[0] == b[0]);
            }
        }
        if text_before(a[0], b[0]) {
            assert(a.take(0) =~= b.take(0));
        }
    } else {
        let a1 = a.drop_first();
        let b1 = b.drop_first();
        lemma_path_before_means(a1, b1);
        // a proper beginning
        if a.len() < b.len() && a == b.take(a.len() as int) {
            assert(a1 =~= b1.take(a1.len() as int));
        }
        if a1.len() < b1.len() && a1 == b1.take(a1.len() as int) {
            assert forall|i: int| 0 <= i < a.len() implies #[trigger] a[i] == b.take(a.len() as int)[i] by {
                if i > 0 {
                    assert(a[i] == a1[i - 1]);
                    assert(b1.take(a1.len() as int)[i - 1] == b[i]);
                }
            }
            assert(a =~= b.take(a.len() as int));
        }
        // a first difference
        if exists|k: int| 0 <= k < a.len() && k < b.len() && a.take(k) == b.take(k) && #[trigger] a[k] != b[k] && text_before(a[k], b[k]) {
            let k = choose|k: int| 0 <= k < a.len() && k < b.len() && a.take(k) == b.take(k) && #[trigger] a[k] != b[k] && text_before(a[k], b[k]);
            assert(k > 0);
            assert(a1.take(k - 1) =~= b1.take(k - 1)) by {
                assert forall|i: int| 0 <= i < k - 1 implies #[trigger] a1.take(k - 1)[i] == b1.take(k - 1)[i] by {
                    assert(a.take(k)[i + 1] == b.take(k)[i + 1]);
                }
            }
            assert(a1[k - 1] == a[k] && b1[k - 1] == b[k]);
        }
        if exists|k: int| 0 <= k < a1.len() && k < b1.len() && a1.take(k) == b1.take(k) && #[trigger] a1[k] != b1[k] && text_before(a1[k], b1[k]) {
            let k = choose|k: int| 0 <= k < a1.len() && k < b1.len() && a1.take(k) == b1.take(k) && #[trigger] a1[k] != b1[k] && text_before(a1[k], b1[k]);
            assert(a.take(k + 1) =~= b.take(k + 1)) by {
                assert forall|i: int| 0 <= i < k + 1 implies #[trigger] a.take(k + 1)[i] == b.take(k + 1)[i] by {
                    if i > 0 {
                        assert(a1.take(k)[i - 1] == b1.take(k)[i - 1]);
                    }
                }
            }
            assert(a[k + 1] == a1[k] && b[k + 1] == b1[k]);
        }
    }
}

/// Whether `a` comes strictly before `b`.
pub fn text_lt(a: &Vec<char>, b: &Vec<char>) -> (r: bool)
    ensures
        r == text_before(a@, b@),
{
    let mut i: usize = 0;
    assert(a@.skip(0) =~= a@);
    assert(b@.skip(0) =~= b@);
    loop
        invariant
            i <= a@.len(),
            i <= b@.len(),
            text_before(a@, b@) == text_before(a@.skip(i as int), b@.skip(i as int)),
        decreases a@.len() - i,
    {
        if i == a.len() {
            assert(a@.skip(i as int).len() == 0);
            return i < b.len();
        }
        if i == b.len() {
            return false;
        }
        if a[i] != b[i] {
            assert(a@.skip(i as int)[0] == a@[i as int]);
            assert(b@.skip(i as int)[0] == b@[i as int]);
            return a[i] < b[i];
        }
        assert(a@.skip(i as int).drop_first() =~= a@.skip(i + 1));
        assert(b@.skip(i as int).drop_first() =~= b@.skip(i + 1));
        i += 1;
    }
}

/// The views of a list of character vectors.
pub open spec fn char_views(v: Seq<Vec<char>>) -> Seq<Seq<char>> {
    v.map_values(|x: Vec<char>| x@)
}

/// Whether path `a` comes strictly before path `b`.
pub fn path_lt(a: &Vec<Vec<char>>, b: &Vec<Vec<char>>) -> (r: bool)
    ensures
        r == path_before(char_views(a@), char_views(b@)),
{
    let ghost av = char_views(a@);
    let ghost bv = char_views(b@);
    let mut i: usize = 0;
    assert(av.skip(0) =~= av);
    assert(bv.skip(0) =~= bv);
    loop
        invariant
            av == char_views(a@),
            bv == char_views(b@),
            i <= a@.len(),
            i <= b@.len(),
            path_before(av, bv) == path_before(av.skip(i as int), bv.skip(i as int)),
        decreases a@.len() - i,
    {
        if i == a.len() {
            assert(av.skip(i as int).len() == 0);
            return i < b.len();
        }
        if i == b.len() {
            return false;
        }
        assert(av.skip(i as int)[0] == a@[i as int]@);
        assert(bv.skip(i as int)[0] == b@[i as int]@);
        if !same_chars(&a[i], &b[i]) {
            return text_lt(&a[i], &b[i]);
        }
        assert(av.skip(i as int).drop_first() =~= av.skip(i + 1));
        assert(bv.skip(i as int).drop_first() =~= bv.skip(i + 1));
        i += 1;
    }
}

/// Where index `i` goes in an order already sorted by path: after every
/// entry whose path does not come after its own.
pub open spec fn place(keys: Seq<Seq<Seq<char>>>, order: Seq<usize>, i: usize) -> Seq<usize>
    decreases order.len(),
{
    if order.len() == 0 {
        seq![i]
    } else if path_before(keys[i as int], keys[order.last() as int]) {
        place(keys, order.drop_last(), i).push(order.last())
    } else {
        order.push(i)
    }
}

/// The indices `0..n` ordered by path, ties kept in index order (a stable
/// insertion sort).
pub open spec fn path_order(keys: Seq<Seq<Seq<char>>>, n: nat) -> Seq<usize>
    decreases n,
{
    if n == 0 {
        Seq::empty()
    } else {
        place(keys, path_order(keys, (n - 1) as nat), (n - 1) as usize)
    }
}

proof fn lemma_place_at(keys: Seq<Seq<Seq<char>>>, order: Seq<usize>, i: usize, k: int)
    requires
        0 <= k <= order.len(),
        forall|j: int| k <= j < order.len() ==> path_before(keys[i as int], #[trigger] keys[order[j] as int]),
        k == 0 || !path_before(keys[i as int], keys[order[k - 1] as int]),
    ensures
        place(keys, order, i) == order.take(k).push(i) + order.skip(k),
    decreases order.len(),
{
    if order.len() == 0 {
        assert(order.take(k).push(i) + order.skip(k) =~= seq![i]);
    } else if k == order.len() {
        assert(order.take(k) =~= order);
        assert(order.take(k).push(i) + order.skip(k) =~= order.push(i));
    } else {
        let last = order.last();
        assert(path_before(keys[i as int], keys[order[order.len() - 1] as int]));
        lemma_place_at(keys, order.drop_last(), i, k);
        assert(order.drop_last().take(k).push(i) + order.drop_last().skip(k) + seq![last] =~= order.take(k).push(i) + order.skip(k));
        assert(place(keys, order.drop_last(), i).push(last) =~= place(keys, order.drop_last(), i) + seq![last]);
    }
}

/// The indices of `order` are all below `n` and distinct.
pub open spec fn is_index_permutation(order: Seq<usize>, n: nat) -> bool {
    &&& order.len() == n
    &&& forall|j: int| 0 <= j < order.len() ==> #[trigger] order[j] < n
    &&& order.no_duplicates()
}

proof fn lemma_place_elements(keys: Seq<Seq<Seq<char>>>, order: Seq<usize>, i: usize)
    ensures
        place(keys, order, i).len() == order.len() + 1,
        forall|x: usize| #[trigger] place(keys, order, i).contains(x) <==> (order.contains(x) || x == i),
        order.no_duplicates() && !order.contains(i) ==> place(keys, order, i).no_duplicates(),
    decreases order.len(),
{
    if order.len() == 0 {
        assert(place(keys, order, i) =~= seq![i]);
        assert forall|x: usize| #[trigger] place(keys, order, i).contains(x) <==> (order.contains(x) || x == i) by {
            if place(keys, order, i).contains(x) {
                assert(place(keys, order, i)[0] == i);
            }
            if x == i {
                assert(place(keys, order, i)[0] == i);
            }
        }
    } else if path_before(keys[i as int], keys[order.last() as int]) {
        let init = order.drop_last();
        let last = order.last();
        lemma_place_elements(keys, init, i);
        let p = place(keys, init, i);
        assert(place(keys, order, i) == p.push(last));
        assert forall|x: usize| #[trigger] place(keys, order, i).contains(x) <==> (order.contains(x) || x == i) by {
            if p.push(last).contains(x) {
                let j = choose|j: int| 0 <= j < p.push(last).len() && p.push(last)[j] == x;
                if j < p.len() {
                    assert(p.contains(x));
                    if init.contains(x) {
                        let m = choose|m: int| 0 <= m < init.len() && init[m] == x;
                        assert(order[m] == x);
                    }
                } else {
                    assert(order[order.len() - 1] == x);
                }
            }
            if order.contains(x) {
                let m = choose|m: int| 0 <= m < order.len() && order[m] == x;
                if m < order.len() - 1 {
                    assert(init[m] == x);
                    assert(p.contains(x));
                    let j = choose|j: int| 0 <= j < p.len() && p[j] == x;
                    assert(p.push(last)[j] == x);
                } else {
                    assert(p.push(last)[p.len() as int] == x);
                }
            }
            if x == i {
                assert(p.contains(i));
                let j = choose|j: int| 0 <= j < p.len() && p[j] == i;
                assert(p.push(last)[j] == i);
            }
        }
        if order.no_duplicates() && !order.contains(i) {
            assert(init.no_duplicates()) by {
                assert forall|a: int, b: int| 0 <= a < init.len() && 0 <= b < init.len() && a != b implies init[a] != init[b] by {
                    assert(init[a] == order[a] && init[b] == order[b]);
                }
            }
            assert(!init.contains(i)) by {
                if init.contains(i) {
                    let m = choose|m: int| 0 <= m < init.len() && init[m] == i;
                    assert(order[m] == i);
                }
            }
            assert(!p.contains(last)) by {
                if init.contains(last) {
                    let m = choose|m: int| 0 <= m < init.len() && init[m] == last;
                    assert(order[m] == last);
                    assert(order[order.len() - 1] == last);
                }
                assert(order[order.len() - 1] == last);
            }
            assert forall|a: int, b: int| 0 <= a < p.push(last).len() && 0 <= b < p.push(last).len() && a != b implies p.push(last)[a] != p.push(last)[b] by {
                if a < p.len() && b < p.len() {
                } else if a < p.len() {
                    assert(p.contains(p[a]));
                } else if b < p.len() {
                    assert(p.contains(p[b]));
                }
            }
        }
    } else {
        assert(place(keys, order, i) == order.push(i));
        assert forall|x: usize| #[trigger] place(keys, order, i).contains(x) <==> (order.contains(x) || x == i) by {
            if order.push(i).contains(x) {
                let j = choose|j: int| 0 <= j < order.push(i).len() && order.push(i)[j] == x;
                if j < order.len() {
                    assert(order[j] == x);
                }
            }
            if order.contains(x) {
                let m = choose|m: int| 0 <= m < order.len() && order[m] == x;
                assert(order.push(i)[m] == x);
            }
            if x == i {
                assert(order.push(i)[order.len() as int] == i);
            }
        }
        if order.no_duplicates() && !order.contains(i) {
            assert forall|a: int, b: int| 0 <= a < order.push(i).len() && 0 <= b < order.push(i).len() && a != b implies order.push(i)[a] != order.push(i)[b] by {
                if a < order.len() && b < order.len() {
                } else if a < order.len() {
                    assert(order.contains(order[a]));
                } else if b < order.len() {
                    assert(order.contains(order[b]));
                }
            }
        }
    }
}

/// Ordering by path neither loses nor repeats a file: the order holds each
/// index below `n` exactly once.
pub proof fn lemma_path_order_permutation(keys: Seq<Seq<Seq<char>>>, n: nat)
    requires
        n <= usize::MAX,
    ensures
        is_index_permutation(path_order(keys, n), n),
        forall|x: usize| #[trigger] path_order(keys, n).contains(x) <==> x < n,
    decreases n,
{
    if n > 0 {
        let prev = path_order(keys, (n - 1) as nat);
        lemma_path_order_permutation(keys, (n - 1) as nat);
        lemma_place_elements(keys, prev, (n - 1) as usize);
        assert(!prev.contains((n - 1) as usize)) by {
            if prev.contains((n - 1) as usize) {
                let m = choose|m: int| 0 <= m < prev.len() && prev[m] == (n - 1) as usize;
                assert(prev[m] < n - 1);
            }
        }
        let cur = path_order(keys, n);
        assert forall|x: usize| #[trigger] cur.contains(x) <==> x < n by {
            if x < n - 1 {
                assert(prev.contains(x));
            }
        }
        assert forall|j: int| 0 <= j < cur.len() implies #[trigger] cur[j] < n by {
            assert(cur.contains(cur[j]));
            if prev.contains(cur[j]) {
                let m = choose|m: int| 0 <= m < prev.len() && prev[m] == cur[j];
            }
        }
    } else {
        assert(path_order(keys, n) =~= Seq::<usize>::empty());
    }
}

proof fn lemma_text_before_asymmetric(a: Seq<char>, b: Seq<char>)
    ensures
        text_before(a, b) ==> !text_before(b, a),
        !text_before(a, a),
    decreases a.len(),
{
    if a.len() > 0 && b.len() > 0 {
        lemma_text_before_asymmetric(a.drop_first(), b.drop_first());
    }
    if a.len() > 0 {
        lemma_text_before_asymmetric(a.drop_first(), a.drop_first());
    }
}

/// Ordering paths is strict: no path comes before itself, and of two paths
/// at most one comes before the other.
pub proof fn lemma_path_before_asymmetric(a: Seq<Seq<char>>, b: Seq<Seq<char>>)
    ensures
        path_before(a, b) ==> !path_before(b, a),
        !path_before(a, a),
    decreases a.len(),
{
    if a.len() > 0 && b.len() > 0 {
        lemma_text_before_asymmetric(a[0], b[0]);
        lemma_path_before_asymmetric(a.drop_first(), b.drop_first());
    }
    if a.len() > 0 {
        lemma_path_before_asymmetric(a.drop_first(), a.drop_first());
    }
}

proof fn lemma_text_before_total(a: Seq<char>, b: Seq<char>)
    ensures
        a == b || text_before(a, b) || text_before(b, a),
    decreases a.len(),
{
    if a.len() == 0 {
        if b.len() == 0 {
            assert(a =~= b);
        }
    } else if b.len() > 0 && a[0] == b[0] {
        lemma_text_before_total(a.drop_first(), b.drop_first());
        if a.drop_first() == b.drop_first() {
            assert(a.drop_first().len() == b.drop_first().len());
            assert forall|i: int| 0 <= i < a.len() implies a[i] == b[i] by {
                if i > 0 {
                    assert(a[i] == a.drop_first()[i - 1]);
                    assert(b[i] == b.drop_first()[i - 1]);
                }
            }
            assert(a =~= b);
        }
    }
}

proof fn lemma_text_before_transitive(a: Seq<char>, b: Seq<char>, c: Seq<char>)
    requires
        text_before(a, b),
        text_before(b, c),
    ensures
        text_before(a, c),
    decreases a.len(),
{
    if a.len() > 0 && a[0] == b[0] && b[0] == c[0] {
        lemma_text_before_transitive(a.drop_first(), b.drop_first(), c.drop_first());
    }
}

proof fn lemma_path_before_total(a: Seq<Seq<char>>, b: Seq<Seq<char>>)
    ensures
        a == b || path_before(a, b) || path_before(b, a),
    decreases a.len(),
{
    if a.len() == 0 {
        if b.len() == 0 {
            assert(a =~= b);
        }
    } else if b.len() > 0 {
        if a[0] == b[0] {
            lemma_path_before_total(a.drop_first(), b.drop_first());
            if a.drop_first() == b.drop_first() {
                assert(a.drop_first().len() == b.drop_first().len());
                assert forall|i: int| 0 <= i < a.len() implies a[i] == b[i] by {
                    if i > 0 {
                        assert(a[i] == a.drop_first()[i - 1]);
                        assert(b[i] == b.drop_first()[i - 1]);
                    }
                }
                assert(a =~= b);
            }
        } else {
            lemma_text_before_total(a[0], b[0]);
        }
    }
}

proof fn lemma_path_before_transitive(a: Seq<Seq<char>>, b: Seq<Seq<char>>, c: Seq<Seq<char>>)
    requires
        path_before(a, b),
        path_before(b, c),
    ensures
        path_before(a, c),
    decreases a.len(),
{
    if a.len() > 0 {
        if a[0] != b[0] && b[0] != c[0] {
            lemma_text_before_transitive(a[0], b[0], c[0]);
            lemma_text_before_asymmetric(a[0], b[0]);
        } else if a[0] == b[0] && b[0] == c[0] {
            lemma_path_before_transitive(a.drop_first(), b.drop_first(), c.drop_first());
        }
    }
}

/// Paths are totally ordered: of two different paths one comes before the
/// other, and coming before is transitive.
pub proof fn lemma_path_order_total(a: Seq<Seq<char>>, b: Seq<Seq<char>>, c: Seq<Seq<char>>)
    ensures
        a == b || path_before(a, b) || path_before(b, a),
        path_before(a, b) && path_before(b, c) ==> path_before(a, c),
{
    lemma_path_before_total(a, b);
    if path_before(a, b) && path_before(b, c) {
        lemma_path_before_transitive(a, b, c);
    }
}

/// Each entry of the order is in place next to the one before it: its path
/// does not come before the previous one's, and of two equal paths the file
/// listed first is taken first.
pub open spec fn adjacent_in_order(keys: Seq<Seq<Seq<char>>>, order: Seq<usize>) -> bool {
    forall|k: int|
        0 <= k < order.len() - 1 ==> {
            &&& !path_before(#[trigger] keys[order[k + 1] as int], keys[order[k] as int])
            &&& keys[order[k] as int] == keys[order[k + 1] as int] ==> order[k] < order[k + 1]
        }
}

proof fn lemma_place_in_order(keys: Seq<Seq<Seq<char>>>, order: Seq<usize>, i: usize)
    requires
        adjacent_in_order(keys, order),
        forall|j: int| 0 <= j < order.len() ==> #[trigger] order[j] < i,
    ensures
        adjacent_in_order(keys, place(keys, order, i)),
        forall|j: int| 0 <= j < place(keys, order, i).len() ==> #[trigger] place(keys, order, i)[j] <= i,
    decreases order.len(),
{
    lemma_place_elements(keys, order, i);
    let r = place(keys, order, i);
    if order.len() == 0 {
        assert(r =~= seq![i]);
    } else if path_before(keys[i as int], keys[order.last() as int]) {
        let init = order.drop_last();
        let last = order.last();
        lemma_place_in_order(keys, init, i);
        let p = place(keys, init, i);
        lemma_place_elements(keys, init, i);
        assert(r == p.push(last));
        lemma_path_before_asymmetric(keys[i as int], keys[last as int]);
        assert forall|k: int| 0 <= k < r.len() - 1 implies {
            &&& !path_before(#[trigger] keys[r[k + 1] as int], keys[r[k] as int])
            &&& keys[r[k] as int] == keys[r[k + 1] as int] ==> r[k] < r[k + 1]
        } by {
            if k < r.len() - 2 {
                assert(r[k] == p[k] && r[k + 1] == p[k + 1]);
                assert(!path_before(keys[p[k + 1] as int], keys[p[k] as int]));
            } else {
                assert(r[k + 1] == last);
                assert(r[k] == p.last());
                if init.len() == 0 || !path_before(keys[i as int], keys[init.last() as int]) {
                    assert(p.last() == i);
                } else {
                    assert(p.last() == init.last());
                    let m = order.len() - 2;
                    assert(init.last() == order[m]);
                    assert(last == order[m + 1]);
                    assert(!path_before(keys[order[m + 1] as int], keys[order[m] as int]));
                    assert(keys[order[m] as int] == keys[order[m + 1] as int] ==> order[m] < order[m + 1]);
                }
            }
        }
        assert forall|j: int| 0 <= j < r.len() implies #[trigger] r[j] <= i by {
            if j < p.len() {
                assert(r[j] == p[j]);
            } else {
                assert(r[j] == order[order.len() - 1]);
            }
        }
    } else {
        assert(r == order.push(i));
        assert forall|k: int| 0 <= k < r.len() - 1 implies {
            &&& !path_before(#[trigger] keys[r[k + 1] as int], keys[r[k] as int])
            &&& keys[r[k] as int] == keys[r[k + 1] as int] ==> r[k] < r[k + 1]
        } by {
            if k < r.len() - 2 {
                assert(r[k] == order[k] && r[k + 1] == order[k + 1]);
            } else {
                assert(r[k] == order[order.len() - 1]);
            }
        }
        assert forall|j: int| 0 <= j < r.len() implies #[trigger] r[j] <= i by {
            if j < order.len() {
                assert(r[j] == order[j]);
            }
        }
    }
}

/// Ordering by path sorts: no file is taken before one whose path comes
/// before its own, and files with equal paths keep their listed order.
pub proof fn lemma_path_order_sorted(keys: Seq<Seq<Seq<char>>>, n: nat)
    requires
        n <= usize::MAX,
    ensures
        adjacent_in_order(keys, path_order(keys, n)),
    decreases n,
{
    if n > 0 {
        lemma_path_order_sorted(keys, (n - 1) as nat);
        lemma_path_order_permutation(keys, (n - 1) as nat);
        let prev = path_order(keys, (n - 1) as nat);
        lemma_place_in_order(keys, prev, (n - 1) as usize);
    }
}

/// Ordering by path sorts the whole order: no file is taken after one whose
/// path comes after its own.
pub proof fn lemma_path_order_fully_sorted(keys: Seq<Seq<Seq<char>>>, n: nat)
    requires
        n <= usize::MAX,
    ensures
        forall|a: int, b: int|
            0 <= a < b < n ==> !path_before(
                #[trigger] keys[path_order(keys, n)[b] as int],
                #[trigger] keys[path_order(keys, n)[a] as int],
            ),
{
    let o = path_order(keys, n);
    lemma_path_order_sorted(keys, n);
    lemma_path_order_permutation(keys, n);
    assert forall|a: int, b: int| 0 <= a < b < n implies !path_before(
        #[trigger] keys[o[b] as int],
        #[trigger] keys[o[a] as int],
    ) by {
        lemma_sorted_from(keys, o, a, b);
    }
}

proof fn lemma_sorted_from(keys: Seq<Seq<Seq<char>>>, o: Seq<usize>, a: int, b: int)
    requires
        adjacent_in_order(keys, o),
        0 <= a < b < o.len(),
    ensures
        !path_before(keys[o[b] as int], keys[o[a] as int]),
    decreases b - a,
{
    let x = keys[o[a] as int];
    let y = keys[o[b - 1] as int];
    let z = keys[o[b] as int];
    assert(!path_before(keys[o[(b - 1) + 1] as int], keys[o[b - 1] as int]));
    if b - 1 > a {
        lemma_sorted_from(keys, o, a, b - 1);
        // !before(y, x) and !before(z, y): were z before x, then y == x or x
        // before y would put z before y.
        lemma_path_order_total(y, x, x);
        if path_before(z, x) {
            if y == x {
            } else {
                lemma_path_order_total(z, x, y);
            }
        }
    }
}

/// The path components of a found file, by which files are ordered.
pub open spec fn file_key(f: ScannedFile) -> Seq<Seq<char>> {
    views(f.path@)
}

pub open spec fn file_keys(files: Seq<ScannedFile>) -> Seq<Seq<Seq<char>>> {
    files.map_values(|f: ScannedFile| file_key(f))
}

fn chars_of_components(path: &Vec<String>) -> (r: Vec<Vec<char>>)
    ensures
        char_views(r@) == views(path@),
{
    let mut r: Vec<Vec<char>> = Vec::new();
    for i in 0..path.len()
        invariant
            r@.len() == i,
            char_views(r@) == views(path@.take(i as int)),
    {
        let c = chars_of(path[i].as_str());
        assert(c@ == path@[i as int]@);
        let ghost old_r = r@;
        r.push(c);
        assert forall|j: int| 0 <= j < i + 1 implies char_views(r@)[j] == views(path@.take(i + 1))[j] by {
            if j < i {
                assert(r@[j] == old_r[j]);
                assert(char_views(old_r)[j] == views(path@.take(i as int))[j]);
            }
        }
        assert(char_views(r@) =~= views(path@.take(i + 1)));
    }
    assert(path@.take(path.len() as int) =~= path@);
    r
}

/// The indices of the files, ordered by path.
pub fn sort_by_path(files: &Vec<ScannedFile>) -> (order: Vec<usize>)
    ensures
        order@ == path_order(file_keys(files@), files@.len()),
{
    let ghost keys = file_keys(files@);
    let mut ks: Vec<Vec<Vec<char>>> = Vec::new();
    for i in 0..files.len()
        invariant
            keys == file_keys(files@),
            ks@.len() == i,
            forall|j: int| 0 <= j < i ==> char_views(#[trigger] ks@[j]@) == keys[j],
    {
        ks.push(chars_of_components(&files[i].path));
    }
    let mut order: Vec<usize> = Vec::new();
    for i in 0..files.len()
        invariant
            keys == file_keys(files@),
            ks@.len() == files@.len(),
            forall|j: int| 0 <= j < ks@.len() ==> char_views(#[trigger] ks@[j]@) == keys[j],
            order@ == path_order(keys, i as nat),
            forall|j: int| 0 <= j < order@.len() ==> #[trigger] order@[j] < i,
    {
        let mut k = order.len();
        loop
            invariant
                keys == file_keys(files@),
                ks@.len() == files@.len(),
                forall|j: int| 0 <= j < ks@.len() ==> char_views(#[trigger] ks@[j]@) == keys[j],
                forall|j: int| 0 <= j < order@.len() ==> #[trigger] order@[j] < i,
                i < files@.len(),
                k <= order@.len(),
                forall|j: int| k <= j < order@.len() ==> path_before(keys[i as int], #[trigger] keys[order@[j] as int]),
            ensures
                k <= order@.len(),
                forall|j: int| k <= j < order@.len() ==> path_before(keys[i as int], #[trigger] keys[order@[j] as int]),
                k == 0 || !path_before(keys[i as int], keys[order@[k - 1] as int]),
            decreases k,
        {
            if k == 0 {
                break;
            }
            let before = path_lt(&ks[i], &ks[order[k - 1]]);
            if !before {
                break;
            }
            k -= 1;
        }
        proof {
            lemma_place_at(keys, order@, i, k as int);
        }
        order.insert(k, i);
        assert(order@ =~= path_order(keys, (i + 1) as nat));
    }
    order
}

// ---------------------------------------------------------------------------
// Relative paths

/// The path of a file relative to the artifact directory: the components
/// after the directory's own, joined with `/`; nothing when the directory's
/// components do not begin the file's.
pub open spec fn relative_path(root: Seq<Seq<char>>, path: Seq<Seq<char>>) -> Option<Seq<char>> {
    if root.is_prefix_of(path) {
        Some(join(path.skip(root.len() as int), "/"@))
    } else {
        None
    }
}

/// No character of `s` is `sep`.
pub open spec fn free_of(s: Seq<char>, sep: char) -> bool {
    forall|i: int| 0 <= i < s.len() ==> #[trigger] s[i] != sep
}

proof fn lemma_split_extend(a: Seq<char>, b: Seq<char>, sep: char)
    requires
        free_of(b, sep),
    ensures
        split_on(a + b, sep) == split_on(a, sep).update(
            split_on(a, sep).len() - 1,
            split_on(a, sep).last() + b,
        ),
    decreases b.len(),
{
    lemma_split_on_nonempty(a, sep);
    if b.len() == 0 {
        assert(a + b =~= a);
        assert(split_on(a, sep).last() + b =~= split_on(a, sep).last());
        assert(split_on(a, sep).update(split_on(a, sep).len() - 1, split_on(a, sep).last())
            =~= split_on(a, sep));
    } else {
        let b0 = b.drop_last();
        assert(free_of(b0, sep)) by {
            assert forall|i: int| 0 <= i < b0.len() implies #[trigger] b0[i] != sep by {
                assert(b0[i] == b[i]);
            }
        }
        lemma_split_extend(a, b0, sep);
        assert((a + b).drop_last() =~= a + b0);
        assert((a + b).last() == b[b.len() - 1]);
        lemma_split_on_nonempty(a + b0, sep);
        assert((split_on(a, sep).last() + b0).push(b.last()) =~= split_on(a, sep).last() + b);
        assert(split_on(a + b, sep) =~= split_on(a, sep).update(
            split_on(a, sep).len() - 1,
            split_on(a, sep).last() + b,
        ));
    }
}

proof fn lemma_split_join(parts: Seq<Seq<char>>)
    requires
        parts.len() > 0,
        forall|i: int| 0 <= i < parts.len() ==> free_of(#[trigger] parts[i], '/'),
    ensures
        split_on(join(parts, "/"@), '/') == parts,
    decreases parts.len(),
{
    reveal_strlit("/");
    let last = parts.last();
    assert(free_of(parts[parts.len() - 1], '/'));
    if parts.len() == 1 {
        lemma_split_extend(Seq::empty(), last, '/');
        assert(Seq::<char>::empty() + last =~= last);
        assert(Seq::<char>::empty() + last =~= parts[0]);
        assert(split_on(join(parts, "/"@), '/') =~= parts);
    } else {
        let init = parts.drop_last();
        assert forall|i: int| 0 <= i < init.len() implies free_of(#[trigger] init[i], '/') by {
            assert(init[i] == parts[i]);
        }
        lemma_split_join(init);
        let j = join(init, "/"@);
        let js = j + "/"@;
        assert(js.drop_last() =~= j);
        assert(js.last() == '/');
        lemma_split_on_nonempty(j, '/');
        assert(split_on(js, '/') == init.push(Seq::empty()));
        lemma_split_extend(js, last, '/');
        assert(Seq::<char>::empty() + last =~= last);
        assert(split_on(js + last, '/') =~= parts);
    }
}

proof fn lemma_join_shape(parts: Seq<Seq<char>>)
    requires
        parts.len() > 0,
        forall|i: int| 0 <= i < parts.len() ==> free_of(#[trigger] parts[i], '/'),
        forall|i: int| 0 <= i < parts.len() ==> (#[trigger] parts[i]).len() > 0,
    ensures
        join(parts, "/"@).len() > 0,
        join(parts, "/"@)[0] != '/',
        join(parts, "/"@).last() != '/',
        forall|i: int|
            0 <= i < join(parts, "/"@).len() - 1 && #[trigger] join(parts, "/"@)[i] == '/' ==> join(
                parts,
                "/"@,
            )[i + 1] != '/',
    decreases parts.len(),
{
    reveal_strlit("/");
    let last = parts.last();
    assert(free_of(parts[parts.len() - 1], '/'));
    assert(parts[parts.len() - 1].len() > 0);
    if parts.len() == 1 {
        assert(last[0] != '/');
    } else {
        let init = parts.drop_last();
        assert forall|i: int| 0 <= i < init.len() implies free_of(#[trigger] init[i], '/') && init[i].len() > 0 by {
            assert(init[i] == parts[i]);
        }
        lemma_join_shape(init);
        let j = join(init, "/"@);
        let s = join(parts, "/"@);
        assert(s == j + "/"@ + last);
        assert(s[0] == j[0]);
        assert(s.last() == last[last.len() - 1]);
        assert forall|i: int| 0 <= i < s.len() - 1 && #[trigger] s[i] == '/' implies s[i + 1] != '/' by {
            if i < j.len() - 1 {
                assert(s[i] == j[i] && s[i + 1] == j[i + 1]);
            } else if i == j.len() - 1 {
                assert(s[i] == j.last());
            } else if i == j.len() {
                assert(s[i + 1] == last[0]);
            } else {
                assert(s[i] == last[i - j.len() - 1]);
            }
        }
    }
}

/// A relative path leads back to the file: when the file's components after
/// the artifact directory's are not empty and hold no `/`, the relative path
/// does not begin or end with `/`, holds no `//`, and splitting it at `/`
/// gives back exactly those components; a file at the directory itself gets
/// the empty relative path.
pub proof fn lemma_relative_path_rejoins(root: Seq<Seq<char>>, path: Seq<Seq<char>>)
    requires
        relative_path(root, path) is Some,
        forall|i: int| root.len() <= i < path.len() ==> free_of(#[trigger] path[i], '/'),
        forall|i: int| root.len() <= i < path.len() ==> (#[trigger] path[i]).len() > 0,
    ensures
        ({
            let s = relative_path(root, path)->0;
            &&& root == path.take(root.len() as int)
            &&& path.len() == root.len() ==> s.len() == 0
            &&& path.len() > root.len() ==> {
                &&& root + split_on(s, '/') == path
                &&& s.len() > 0
                &&& s[0] != '/'
                &&& s.last() != '/'
                &&& forall|i: int| 0 <= i < s.len() - 1 && #[trigger] s[i] == '/' ==> s[i + 1] != '/'
            }
        }),
{
    let rest = path.skip(root.len() as int);
    assert(root =~= path.take(root.len() as int));
    if path.len() > root.len() {
        assert forall|i: int| 0 <= i < rest.len() implies free_of(#[trigger] rest[i], '/') && rest[i].len() > 0 by {
            assert(rest[i] == path[root.len() + i]);
        }
        lemma_split_join(rest);
        lemma_join_shape(rest);
        assert(root + rest =~= path);
    } else {
        assert(rest.len() == 0);
    }
}

/// The path of a file relative to the artifact directory, with `/` between
/// its components.
pub fn relative_artifact_path(root: &Vec<String>, path: &Vec<String>, display: &String) -> (r: Result<
    String,
    PacketError,
>)
    ensures
        match r {
            Ok(rel) => relative_path(views(root@), views(path@)) == Some(rel@),
            Err(e) => relative_path(views(root@), views(path@)) is None && e@
                == (PacketErrorView::RelativePath { path: display@ }),
        },
{
    let ghost rv = views(root@);
    let ghost pv = views(path@);
    if root.len() > path.len() {
        return Err(PacketError::RelativePath { path: display.clone() });
    }
    for i in 0..root.len()
        invariant
            rv == views(root@),
            pv == views(path@),
            root@.len() <= path@.len(),
            forall|j: int| 0 <= j < i ==> rv[j] == pv[j],
    {
        if root[i] != path[i] {
            assert(rv[i as int] != pv.subrange(0, rv.len() as int)[i as int]);
            return Err(PacketError::RelativePath { path: display.clone() });
        }
    }
    assert(rv =~= pv.subrange(0, rv.len() as int));
    let mut rest: Vec<String> = Vec::new();
    let n = root.len();
    for i in n..path.len()
        invariant
            n == root@.len(),
            n <= path@.len(),
            pv == views(path@),
            rest@.len() == i - n,
            views(rest@) == pv.skip(n as int).take(i - n),
    {
        let c = path[i].clone();
        let ghost old_rest = rest@;
        rest.push(c);
        assert forall|j: int| 0 <= j < i + 1 - n implies views(rest@)[j] == pv.skip(n as int).take(i + 1 - n)[j] by {
            if j < i - n {
                assert(rest@[j] == old_rest[j]);
                assert(views(old_rest)[j] == pv.skip(n as int).take(i - n)[j]);
            }
        }
        assert(views(rest@) =~= pv.skip(n as int).take(i + 1 - n));
    }
    assert(pv.skip(n as int).take(path@.len() - n) =~= pv.skip(n as int));
    Ok(join_strings(&rest, "/"))
}

// ---------------------------------------------------------------------------
// Digests

/// The SHA-256 digest of some bytes, as the `sha2` crate computes it.
pub uninterp spec fn sha256(data: Seq<u8>) -> Seq<u8>;

/// Trusted: calls `sha2::Sha256::digest`, whose result is the 32-byte
/// SHA-256 digest of its input. The contract names that digest `sha256` and
/// states its length; what the digest is, is not stated.
#[verifier::external_body]
fn sha256_digest(data: &Vec<u8>) -> (d: Vec<u8>)
    ensures
        d@ == sha256(data@),
        d@.len() == 32,
{
    Sha256::digest(data.as_slice()).to_vec()
}

/// The lower-case hexadecimal digit with value `d`.
pub open spec fn hex_digit(d: int) -> char {
    if d < 10 {
        (d + 48) as char
    } else {
        (d + 87) as char
    }
}

/// Lower-case hexadecimal, two digits per byte, high nibble first.
pub open spec fn hex_lower(bytes: Seq<u8>) -> Seq<char>
    decreases bytes.len(),
{
    if bytes.len() == 0 {
        Seq::empty()
    } else {
        hex_lower(bytes.drop_last()) + seq![
            hex_digit(bytes.last() as int / 16),
            hex_digit(bytes.last() as int % 16),
        ]
    }
}

fn hex_char(d: u8) -> (c: char)
    requires
        d < 16,
    ensures
        c == hex_digit(d as int),
{
    if d < 10 {
        (d + 48) as char
    } else {
        (d + 87) as char
    }
}

/// Lower-case hexadecimal of some bytes.
pub fn to_hex(bytes: &Vec<u8>) -> (h: String)
    ensures
        h@ == hex_lower(bytes@),
{
    let mut h = String::new();
    for i in 0..bytes.len()
        invariant
            h@ == hex_lower(bytes@.take(i as int)),
    {
        assert(bytes@.take(i + 1).drop_last() =~= bytes@.take(i as int));
        let b = bytes[i];
        push_char(&mut h, hex_char(b / 16));
        push_char(&mut h, hex_char(b % 16));
        assert(h@ =~= hex_lower(bytes@.take(i + 1)));
    }
    assert(bytes@.take(bytes.len() as int) =~= bytes@);
    h
}

/// A lower-case hexadecimal digit.
pub open spec fn is_hex_digit(c: char) -> bool {
    ('0' <= c && c <= '9') || ('a' <= c && c <= 'f')
}

/// The shape of a SHA-256 digest in hexadecimal: 64 lower-case hex digits.
pub open spec fn is_hex_digest(h: Seq<char>) -> bool {
    h.len() == 64 && forall|i: int| 0 <= i < h.len() ==> is_hex_digit(#[trigger] h[i])
}

/// The SHA-256 digest of some bytes in lower-case hexadecimal: 64 digits.
pub fn sha256_hex(data: &Vec<u8>) -> (h: String)
    ensures
        h@ == hex_lower(sha256(data@)),
        h@.len() == 64,
        forall|i: int| 0 <= i < h@.len() ==> is_hex_digit(#[trigger] h@[i]),
{
    let d = sha256_digest(data);
    let h = to_hex(&d);
    proof {
        lemma_hex_shape(d@);
    }
    h
}

/// Hexadecimal has two digits per byte, and only lower-case hex digits.
pub proof fn lemma_hex_shape(bytes: Seq<u8>)
    ensures
        hex_lower(bytes).len() == 2 * bytes.len(),
        forall|i: int| 0 <= i < hex_lower(bytes).len() ==> is_hex_digit(#[trigger] hex_lower(bytes)[i]),
    decreases bytes.len(),
{
    if bytes.len() > 0 {
        lemma_hex_shape(bytes.drop_last());
        let init = hex_lower(bytes.drop_last());
        let h = hex_lower(bytes);
        assert forall|i: int| 0 <= i < h.len() implies is_hex_digit(#[trigger] h[i]) by {
            if i < init.len() {
                assert(h[i] == init[i]);
            }
        }
    }
}

// ---------------------------------------------------------------------------
// Scanning

/// What one file contributes: its record, or the reason the scan stops at it.
/// In this order: the file must lie under the artifact directory; a risky
/// file is refused unless risky files are allowed; its size and then its
/// contents must have been read.
pub open spec fn scan_step(root: Seq<Seq<char>>, f: ScannedFile, allow_risky: bool) -> Result<
    ArtifactRecordView,
    PacketErrorView,
> {
    match relative_path(root, file_key(f)) {
        None => Err(PacketErrorView::RelativePath { path: f.display@ }),
        Some(rel) => {
            let flags = risk_flags(rel);
            if !allow_risky && flags.len() > 0 {
                Err(PacketErrorView::RiskyArtifact { path: rel, flags: flags })
            } else {
                match f.size_bytes {
                    Err(m) => Err(PacketErrorView::Unreadable { message: m@ }),
                    Ok(size) => match f.contents {
                        Err(m) => Err(PacketErrorView::Unreadable { message: m@ }),
                        Ok(bytes) => Ok(
                            ArtifactRecordView {
                                path: rel,
                                size_bytes: size,
                                sha256: hex_lower(sha256(bytes@)),
                                risk_flags: flags,
                            },
                        ),
                    },
                }
            }
        },
    }
}

/// The records of the files taken in the given order, or the reason of the
/// first file at which the scan stops.
pub open spec fn scan_files(
    root: Seq<Seq<char>>,
    files: Seq<ScannedFile>,
    order: Seq<usize>,
    allow_risky: bool,
) -> Result<Seq<ArtifactRecordView>, PacketErrorView>
    decreases order.len(),
{
    if order.len() == 0 {
        Ok(Seq::empty())
    } else {
        match scan_files(root, files, order.drop_last(), allow_risky) {
            Err(e) => Err(e),
            Ok(rs) => match scan_step(root, files[order.last() as int], allow_risky) {
                Err(e) => Err(e),
                Ok(r) => Ok(rs.push(r)),
            },
        }
    }
}

/// The outcome of scanning an artifact directory: the files are taken in
/// path order; the scan stops at the first file that fails; a directory
/// without files is refused.
pub open spec fn scan_outcome(
    dir: Seq<char>,
    root: Seq<Seq<char>>,
    files: Seq<ScannedFile>,
    allow_risky: bool,
) -> Result<Seq<ArtifactRecordView>, PacketErrorView> {
    match scan_files(root, files, path_order(file_keys(files), files.len()), allow_risky) {
        Err(e) => Err(e),
        Ok(rs) => if rs.len() == 0 {
            Err(PacketErrorView::NoArtifacts { dir })
        } else {
            Ok(rs)
        },
    }
}

proof fn lemma_scan_stops(
    root: Seq<Seq<char>>,
    files: Seq<ScannedFile>,
    order: Seq<usize>,
    allow_risky: bool,
    k: int,
)
    requires
        0 <= k <= order.len(),
        scan_files(root, files, order.take(k), allow_risky) is Err,
    ensures
        scan_files(root, files, order, allow_risky) == scan_files(
            root,
            files,
            order.take(k),
            allow_risky,
        ),
    decreases order.len(),
{
    if k < order.len() {
        assert(order.drop_last().take(k) =~= order.take(k));
        lemma_scan_stops(root, files, order.drop_last(), allow_risky, k);
    } else {
        assert(order.take(k) =~= order);
    }
}

proof fn lemma_scan_files_records(
    root: Seq<Seq<char>>,
    files: Seq<ScannedFile>,
    order: Seq<usize>,
    allow_risky: bool,
    rs: Seq<ArtifactRecordView>,
)
    requires
        scan_files(root, files, order, allow_risky) == Ok::<_, PacketErrorView>(rs),
    ensures
        rs.len() == order.len(),
        forall|k: int|
            0 <= k < order.len() ==> scan_step(root, files[#[trigger] order[k] as int], allow_risky)
                == Ok::<_, PacketErrorView>(rs[k]),
    decreases order.len(),
{
    if order.len() > 0 {
        let init = order.drop_last();
        match scan_files(root, files, init, allow_risky) {
            Ok(prev) => {
                lemma_scan_files_records(root, files, init, allow_risky, prev);
                assert(rs == prev.push(rs.last()));
                assert forall|k: int|
                    0 <= k < order.len() implies scan_step(root, files[#[trigger] order[k] as int], allow_risky)
                        == Ok::<_, PacketErrorView>(rs[k]) by {
                    if k < init.len() {
                        assert(order[k] == init[k]);
                        assert(rs[k] == prev[k]);
                    }
                }
            },
            Err(e) => {},
        }
    }
}

/// What a successful scan gives: one record per file, in path order, each
/// with the file's path relative to the artifact directory, its size, the
/// SHA-256 of its contents and the risk flags of its relative path; and when
/// risky files are not allowed, no record carries a risk flag.
pub proof fn lemma_scan_records(
    dir: Seq<char>,
    root: Seq<Seq<char>>,
    files: Seq<ScannedFile>,
    allow_risky: bool,
    rs: Seq<ArtifactRecordView>,
)
    requires
        files.len() <= usize::MAX,
        scan_outcome(dir, root, files, allow_risky) == Ok::<_, PacketErrorView>(rs),
    ensures
        rs.len() == files.len(),
        rs.len() > 0,
        forall|a: int, b: int|
            0 <= a < b < files.len() ==> !path_before(
                #[trigger] file_key(files[path_order(file_keys(files), files.len())[b] as int]),
                #[trigger] file_key(files[path_order(file_keys(files), files.len())[a] as int]),
            ),
        forall|k: int|
            #![trigger rs[k]]
            0 <= k < rs.len() ==> {
                let f = files[path_order(file_keys(files), files.len())[k] as int];
                &&& relative_path(root, file_key(f)) == Some(rs[k].path)
                &&& f.size_bytes == Ok::<u64, String>(rs[k].size_bytes)
                &&& f.contents matches Ok(bytes) && rs[k].sha256 == hex_lower(sha256(bytes@))
                &&& rs[k].risk_flags == risk_flags(rs[k].path)
                &&& !allow_risky ==> rs[k].risk_flags.len() == 0
            },
{
    let order = path_order(file_keys(files), files.len());
    lemma_path_order_permutation(file_keys(files), files.len());
    lemma_path_order_fully_sorted(file_keys(files), files.len());
    assert forall|a: int, b: int| 0 <= a < b < files.len() implies !path_before(
        #[trigger] file_key(files[order[b] as int]),
        #[trigger] file_key(files[order[a] as int]),
    ) by {
        assert(file_keys(files)[order[b] as int] == file_key(files[order[b] as int]));
        assert(file_keys(files)[order[a] as int] == file_key(files[order[a] as int]));
    }
    lemma_scan_files_records(root, files, order, allow_risky, rs);
    assert forall|k: int| #![trigger rs[k]] 0 <= k < rs.len() implies {
        let f = files[order[k] as int];
        &&& relative_path(root, file_key(f)) == Some(rs[k].path)
        &&& f.size_bytes == Ok::<u64, String>(rs[k].size_bytes)
        &&& f.contents matches Ok(bytes) && rs[k].sha256 == hex_lower(sha256(bytes@))
        &&& rs[k].risk_flags == risk_flags(rs[k].path)
        &&& !allow_risky ==> rs[k].risk_flags.len() == 0
    } by {
        assert(scan_step(root, files[order[k] as int], allow_risky) == Ok::<_, PacketErrorView>(rs[k]));
    }
}

/// By default a risky file is never let through: when risky files are not
/// allowed and some file under the directory has a risky relative path, the
/// scan fails.
pub proof fn lemma_risky_file_refused(
    dir: Seq<char>,
    root: Seq<Seq<char>>,
    files: Seq<ScannedFile>,
    j: int,
)
    requires
        files.len() <= usize::MAX,
        0 <= j < files.len(),
        relative_path(root, file_key(files[j])) matches Some(rel) && risk_flags(rel).len() > 0,
    ensures
        scan_outcome(dir, root, files, false) is Err,
{
    if let Ok(rs) = scan_outcome(dir, root, files, false) {
        let order = path_order(file_keys(files), files.len());
        lemma_path_order_permutation(file_keys(files), files.len());
        lemma_scan_records(dir, root, files, false, rs);
        assert(order.contains(j as usize));
        let k = choose|k: int| 0 <= k < order.len() && order[k] == j as usize;
        assert(rs[k].risk_flags.len() == 0);
    }
}

proof fn lemma_scan_files_all_ok(
    root: Seq<Seq<char>>,
    files: Seq<ScannedFile>,
    order: Seq<usize>,
    allow_risky: bool,
)
    requires
        forall|k: int| 0 <= k < order.len() ==> #[trigger] order[k] < files.len(),
        forall|i: int|
            #![trigger files[i]]
            0 <= i < files.len() ==> {
                &&& relative_path(root, file_key(files[i])) is Some
                &&& files[i].size_bytes is Ok
                &&& files[i].contents is Ok
                &&& !allow_risky ==> risk_flags(relative_path(root, file_key(files[i]))->0).len() == 0
            },
    ensures
        scan_files(root, files, order, allow_risky) is Ok,
        scan_files(root, files, order, allow_risky)->Ok_0.len() == order.len(),
        forall|k: int|
            0 <= k < order.len() ==> {
                let f = files[#[trigger] order[k] as int];
                let r = scan_files(root, files, order, allow_risky)->Ok_0[k];
                &&& Some(r.path) == relative_path(root, file_key(f))
                &&& f.size_bytes == Ok::<u64, String>(r.size_bytes)
            },
    decreases order.len(),
{
    if order.len() > 0 {
        let init = order.drop_last();
        assert forall|k: int| 0 <= k < init.len() implies #[trigger] init[k] < files.len() by {
            assert(init[k] == order[k]);
        }
        lemma_scan_files_all_ok(root, files, init, allow_risky);
        let f = files[order.last() as int];
        assert(order[order.len() - 1] < files.len());
        let prev = scan_files(root, files, init, allow_risky)->Ok_0;
        let all = scan_files(root, files, order, allow_risky)->Ok_0;
        assert(scan_step(root, f, allow_risky) is Ok);
        assert(all == prev.push(scan_step(root, f, allow_risky)->Ok_0));
        assert forall|k: int| 0 <= k < order.len() implies {
            let g = files[#[trigger] order[k] as int];
            let r = all[k];
            &&& Some(r.path) == relative_path(root, file_key(g))
            &&& g.size_bytes == Ok::<u64, String>(r.size_bytes)
        } by {
            if k < init.len() {
                assert(init[k] == order[k]);
                assert(all[k] == prev[k]);
            }
        }
    }
}

/// A scan refuses nothing but what its checks find: when every file lies
/// under the artifact directory, its size and contents were read, and (unless
/// risky files are allowed) it carries no risk flag, and there is at least one
/// file, the scan succeeds with one record per file, each with its file's
/// relative path and size, whatever the sizes are, empty files included.
pub proof fn lemma_clean_scan_succeeds(
    dir: Seq<char>,
    root: Seq<Seq<char>>,
    files: Seq<ScannedFile>,
    allow_risky: bool,
)
    requires
        files.len() <= usize::MAX,
        files.len() > 0,
        forall|i: int|
            #![trigger files[i]]
            0 <= i < files.len() ==> {
                &&& relative_path(root, file_key(files[i])) is Some
                &&& files[i].size_bytes is Ok
                &&& files[i].contents is Ok
                &&& !allow_risky ==> risk_flags(relative_path(root, file_key(files[i]))->0).len() == 0
            },
    ensures
        scan_outcome(dir, root, files, allow_risky) is Ok,
        scan_outcome(dir, root, files, allow_risky)->Ok_0.len() == files.len(),
        forall|i: int|
            #![trigger files[i]]
            0 <= i < files.len() ==> exists|k: int|
                0 <= k < files.len() && {
                    let r = #[trigger] scan_outcome(dir, root, files, allow_risky)->Ok_0[k];
                    &&& Some(r.path) == relative_path(root, file_key(files[i]))
                    &&& files[i].size_bytes == Ok::<u64, String>(r.size_bytes)
                },
{
    let order = path_order(file_keys(files), files.len());
    lemma_path_order_permutation(file_keys(files), files.len());
    lemma_scan_files_all_ok(root, files, order, allow_risky);
    let rs = scan_outcome(dir, root, files, allow_risky)->Ok_0;
    assert forall|i: int| #![trigger files[i]] 0 <= i < files.len() implies exists|k: int|
        0 <= k < files.len() && {
            let r = #[trigger] scan_outcome(dir, root, files, allow_risky)->Ok_0[k];
            &&& Some(r.path) == relative_path(root, file_key(files[i]))
            &&& files[i].size_bytes == Ok::<u64, String>(r.size_bytes)
        } by {
        assert(order.contains(i as usize));
        let k = choose|k: int| 0 <= k < order.len() && order[k] == i as usize;
        assert(files[order[k] as int] == files[i]);
        assert(rs[k] == scan_files(root, files, order, allow_risky)->Ok_0[k]);
    }
}

/// What stops a scan at a file, in order of precedence: a file outside the
/// artifact directory; then, unless risky files are allowed, a risky file,
/// whether or not it could be read; then a failed size read; then a failed
/// contents read. A file that passes all of these gives a record.
pub proof fn lemma_scan_step_precedence(root: Seq<Seq<char>>, f: ScannedFile, allow_risky: bool)
    ensures
        relative_path(root, file_key(f)) is None ==> scan_step(root, f, allow_risky)
            == Err::<ArtifactRecordView, _>(PacketErrorView::RelativePath { path: f.display@ }),
        ({
            let rel = relative_path(root, file_key(f))->0;
            relative_path(root, file_key(f)) is Some && !allow_risky && risk_flags(rel).len() > 0
                ==> scan_step(root, f, allow_risky) == Err::<ArtifactRecordView, _>(
                PacketErrorView::RiskyArtifact { path: rel, flags: risk_flags(rel) },
            )
        }),
        ({
            let rel = relative_path(root, file_key(f))->0;
            relative_path(root, file_key(f)) is Some && (allow_risky || risk_flags(rel).len() == 0)
                ==> match (f.size_bytes, f.contents) {
                (Err(m), _) => scan_step(root, f, allow_risky) == Err::<ArtifactRecordView, _>(
                    PacketErrorView::Unreadable { message: m@ },
                ),
                (Ok(_), Err(m)) => scan_step(root, f, allow_risky) == Err::<ArtifactRecordView, _>(
                    PacketErrorView::Unreadable { message: m@ },
                ),
                (Ok(size), Ok(bytes)) => scan_step(root, f, allow_risky) == Ok::<_, PacketErrorView>(
                    ArtifactRecordView {
                        path: rel,
                        size_bytes: size,
                        sha256: hex_lower(sha256(bytes@)),
                        risk_flags: risk_flags(rel),
                    },
                ),
            }
        }),
{
}

/// A failed scan fails at the first file, in path order, at which a scan
/// stops: every file taken before it gives a record; a scan that takes every
/// file fails only when there are none.
pub proof fn lemma_scan_fails_at_first_failure(
    root: Seq<Seq<char>>,
    files: Seq<ScannedFile>,
    order: Seq<usize>,
    allow_risky: bool,
)
    requires
        scan_files(root, files, order, allow_risky) is Err,
    ensures
        exists|k: int|
            0 <= k < order.len() && scan_step(root, files[order[k] as int], allow_risky) == Err::<
                ArtifactRecordView,
                _,
            >(scan_files(root, files, order, allow_risky)->Err_0) && forall|j: int|
                0 <= j < k ==> (#[trigger] scan_step(root, files[order[j] as int], allow_risky)) is Ok,
    decreases order.len(),
{
    let init = order.drop_last();
    match scan_files(root, files, init, allow_risky) {
        Err(e) => {
            lemma_scan_fails_at_first_failure(root, files, init, allow_risky);
            let k = choose|k: int|
                0 <= k < init.len() && scan_step(root, files[init[k] as int], allow_risky) == Err::<
                    ArtifactRecordView,
                    _,
                >(scan_files(root, files, init, allow_risky)->Err_0) && forall|j: int|
                    0 <= j < k ==> (#[trigger] scan_step(root, files[init[j] as int], allow_risky)) is Ok;
            assert(init[k] == order[k]);
            assert forall|j: int| 0 <= j < k implies (#[trigger] scan_step(root, files[order[j] as int], allow_risky)) is Ok by {
                assert(init[j] == order[j]);
                assert(scan_step(root, files[init[j] as int], allow_risky) is Ok);
            }
        },
        Ok(rs) => {
            lemma_scan_files_records(root, files, init, allow_risky, rs);
            let k = order.len() - 1;
            assert(order[k] == order.last());
            assert forall|j: int| 0 <= j < k implies (#[trigger] scan_step(root, files[order[j] as int], allow_risky)) is Ok by {
                assert(init[j] == order[j]);
                assert(scan_step(root, files[init[j] as int], allow_risky) == Ok::<_, PacketErrorView>(rs[j]));
            }
        },
    }
}

/// No two found files have the same path.
pub open spec fn distinct_paths(files: Seq<ScannedFile>) -> bool {
    forall|i: int, j: int|
        0 <= i < j < files.len() ==> file_key(#[trigger] files[i]) != file_key(#[trigger] files[j])
}

/// The files, in the given order.
pub open spec fn taken(files: Seq<ScannedFile>, order: Seq<usize>) -> Seq<ScannedFile> {
    order.map_values(|i: usize| files[i as int])
}

/// Every file comes strictly before each later one by path.
pub open spec fn strictly_sorted(t: Seq<ScannedFile>) -> bool {
    forall|a: int, b: int|
        0 <= a < b < t.len() ==> path_before(file_key(#[trigger] t[a]), file_key(#[trigger] t[b]))
}

proof fn lemma_scan_files_same_taken(
    root: Seq<Seq<char>>,
    f1: Seq<ScannedFile>,
    o1: Seq<usize>,
    f2: Seq<ScannedFile>,
    o2: Seq<usize>,
    allow_risky: bool,
)
    requires
        taken(f1, o1) == taken(f2, o2),
    ensures
        scan_files(root, f1, o1, allow_risky) == scan_files(root, f2, o2, allow_risky),
    decreases o1.len(),
{
    assert(taken(f1, o1).len() == o1.len());
    assert(taken(f2, o2).len() == o2.len());
    if o1.len() > 0 {
        assert(taken(f1, o1.drop_last()) =~= taken(f1, o1).drop_last());
        assert(taken(f2, o2.drop_last()) =~= taken(f2, o2).drop_last());
        lemma_scan_files_same_taken(root, f1, o1.drop_last(), f2, o2.drop_last(), allow_risky);
        assert(taken(f1, o1)[o1.len() - 1] == f1[o1.last() as int]);
        assert(taken(f2, o2)[o2.len() - 1] == f2[o2.last() as int]);
    }
}

proof fn lemma_taken_sorted(files: Seq<ScannedFile>)
    requires
        files.len() <= usize::MAX,
        distinct_paths(files),
    ensures
        strictly_sorted(taken(files, path_order(file_keys(files), files.len()))),
        taken(files, path_order(file_keys(files), files.len())).len() == files.len(),
        forall|x: ScannedFile|
            #![trigger files.contains(x)]
            taken(files, path_order(file_keys(files), files.len())).contains(x)
                <==> files.contains(x),
{
    let keys = file_keys(files);
    let o = path_order(keys, files.len());
    let t = taken(files, o);
    lemma_path_order_permutation(keys, files.len());
    lemma_path_order_fully_sorted(keys, files.len());
    assert forall|a: int, b: int| 0 <= a < b < t.len() implies path_before(
        file_key(#[trigger] t[a]),
        file_key(#[trigger] t[b]),
    ) by {
        assert(t[a] == files[o[a] as int] && t[b] == files[o[b] as int]);
        assert(keys[o[a] as int] == file_key(files[o[a] as int]));
        assert(keys[o[b] as int] == file_key(files[o[b] as int]));
        assert(!path_before(keys[o[b] as int], keys[o[a] as int]));
        assert(o[a] != o[b]);
        if o[a] < o[b] {
            assert(file_key(files[o[a] as int]) != file_key(files[o[b] as int]));
        } else {
            assert(file_key(files[o[b] as int]) != file_key(files[o[a] as int]));
        }
        lemma_path_order_total(keys[o[a] as int], keys[o[b] as int], keys[o[b] as int]);
    }
    assert forall|x: ScannedFile| #![trigger files.contains(x)] t.contains(x) <==> files.contains(x) by {
        if t.contains(x) {
            let k = choose|k: int| 0 <= k < t.len() && t[k] == x;
            assert(files[o[k] as int] == x);
        }
        if files.contains(x) {
            let j = choose|j: int| 0 <= j < files.len() && files[j] == x;
            assert(o.contains(j as usize));
            let k = choose|k: int| 0 <= k < o.len() && o[k] == j as usize;
            assert(t[k] == x);
        }
    }
}

proof fn lemma_sorted_prefix_equal(t1: Seq<ScannedFile>, t2: Seq<ScannedFile>, k: int)
    requires
        strictly_sorted(t1),
        strictly_sorted(t2),
        forall|x: ScannedFile| t1.contains(x) <==> t2.contains(x),
        0 <= k <= t1.len(),
        k <= t2.len(),
    ensures
        forall|j: int| 0 <= j < k ==> #[trigger] t1[j] == t2[j],
    decreases k,
{
    if k > 0 {
        lemma_sorted_prefix_equal(t1, t2, k - 1);
        let i = k - 1;
        let x = t1[i];
        let y = t2[i];
        assert(t1.contains(x));
        assert(t2.contains(x));
        let m = choose|m: int| 0 <= m < t2.len() && t2[m] == x;
        assert(t2.contains(y));
        assert(t1.contains(y));
        let n = choose|n: int| 0 <= n < t1.len() && t1[n] == y;
        if x != y {
            if m < i {
                assert(t1[m] == t2[m]);
                assert(path_before(file_key(t1[m]), file_key(t1[i])));
                lemma_path_before_asymmetric(file_key(x), file_key(x));
            } else if n < i {
                assert(t1[n] == t2[n]);
                assert(path_before(file_key(t2[n]), file_key(t2[i])));
                lemma_path_before_asymmetric(file_key(y), file_key(y));
            } else {
                assert(m > i && n > i);
                assert(path_before(file_key(t1[i]), file_key(t1[n])));
                assert(path_before(file_key(t2[i]), file_key(t2[m])));
                lemma_path_order_total(file_key(x), file_key(y), file_key(x));
                lemma_path_before_asymmetric(file_key(x), file_key(x));
            }
        }
    }
}

proof fn lemma_sorted_unique(t1: Seq<ScannedFile>, t2: Seq<ScannedFile>)
    requires
        strictly_sorted(t1),
        strictly_sorted(t2),
        forall|x: ScannedFile| t1.contains(x) <==> t2.contains(x),
    ensures
        t1 == t2,
{
    let k = if t1.len() <= t2.len() { t1.len() } else { t2.len() };
    lemma_sorted_prefix_equal(t1, t2, k as int);
    if t1.len() < t2.len() {
        let y = t2[k as int];
        assert(t2.contains(y));
        let n = choose|n: int| 0 <= n < t1.len() && t1[n] == y;
        assert(t1[n] == t2[n]);
        assert(path_before(file_key(t2[n]), file_key(t2[k as int])));
        lemma_path_before_asymmetric(file_key(y), file_key(y));
    } else if t2.len() < t1.len() {
        let x = t1[k as int];
        assert(t1.contains(x));
        let m = choose|m: int| 0 <= m < t2.len() && t2[m] == x;
        assert(t1[m] == t2[m]);
        assert(path_before(file_key(t1[m]), file_key(t1[k as int])));
        lemma_path_before_asymmetric(file_key(x), file_key(x));
    }
    assert(t1 =~= t2);
}

/// The order in which a directory lists its entries does not matter: two
/// listings of the same files, each without repeated paths, scan to the same
/// records in the same order, or to the same error.
pub proof fn lemma_scan_ignores_listing_order(
    dir: Seq<char>,
    root: Seq<Seq<char>>,
    files1: Seq<ScannedFile>,
    files2: Seq<ScannedFile>,
    allow_risky: bool,
)
    requires
        files1.len() <= usize::MAX,
        files2.len() <= usize::MAX,
        distinct_paths(files1),
        distinct_paths(files2),
        forall|x: ScannedFile| files1.contains(x) <==> files2.contains(x),
    ensures
        scan_outcome(dir, root, files1, allow_risky) == scan_outcome(dir, root, files2, allow_risky),
{
    let o1 = path_order(file_keys(files1), files1.len());
    let o2 = path_order(file_keys(files2), files2.len());
    lemma_taken_sorted(files1);
    lemma_taken_sorted(files2);
    let t1 = taken(files1, o1);
    let t2 = taken(files2, o2);
    assert forall|x: ScannedFile| t1.contains(x) <==> t2.contains(x) by {
        assert(t1.contains(x) <==> files1.contains(x));
        assert(t2.contains(x) <==> files2.contains(x));
    }
    lemma_sorted_unique(t1, t2);
    lemma_scan_files_same_taken(root, files1, o1, files2, o2, allow_risky);
}

fn scan_one(root: &Vec<String>, f: &ScannedFile, allow_risky: bool) -> (r: Result<
    ArtifactRecord,
    PacketError,
>)
    ensures
        match r {
            Ok(a) => scan_step(views(root@), *f, allow_risky) == Ok::<_, PacketErrorView>(a@)
                && is_hex_digest(a.sha256@),
            Err(e) => scan_step(views(root@), *f, allow_risky) == Err::<ArtifactRecordView, _>(e@),
        },
{
    let rel = relative_artifact_path(root, &f.path, &f.display)?;
    let flags = risk_flags_for(rel.as_str());
    if !allow_risky && flags.len() > 0 {
        return Err(PacketError::RiskyArtifact { path: rel, flags });
    }
    let size = match &f.size_bytes {
        Ok(size) => *size,
        Err(m) => {
            return Err(PacketError::Unreadable { message: m.clone() });
        },
    };
    let sha = match &f.contents {
        Ok(bytes) => sha256_hex(bytes),
        Err(m) => {
            return Err(PacketError::Unreadable { message: m.clone() });
        },
    };
    Ok(ArtifactRecord { path: rel, size_bytes: size, sha256: sha, risk_flags: flags })
}

/// Scans the files found under an artifact directory: takes them in path
/// order, gives each its path relative to the directory, its risk flags, its
/// size and its SHA-256; refuses a risky file unless risky files are allowed,
/// passes on the first read failure, and refuses a directory without files.
pub fn scan_artifacts(
    artifact_dir: &String,
    root: &Vec<String>,
    files: &Vec<ScannedFile>,
    allow_risky: bool,
) -> (r: Result<Vec<ArtifactRecord>, PacketError>)
    ensures
        match r {
            Ok(rs) => scan_outcome(artifact_dir@, views(root@), files@, allow_risky) == Ok::<
                _,
                PacketErrorView,
            >(record_views(rs@)),
            Err(e) => scan_outcome(artifact_dir@, views(root@), files@, allow_risky) == Err::<
                Seq<ArtifactRecordView>,
                _,
            >(e@),
        },
        r matches Ok(rs) ==> forall|k: int| 0 <= k < rs@.len() ==> is_hex_digest(#[trigger] rs@[k].sha256@),
{
    let order = sort_by_path(files);
    let ghost rv = views(root@);
    let mut records: Vec<ArtifactRecord> = Vec::new();
    let n = files.len();
    proof {
        lemma_path_order_permutation(file_keys(files@), files@.len());
        assert(order@.take(0) =~= Seq::<usize>::empty());
        assert(record_views(records@) =~= Seq::<ArtifactRecordView>::empty());
    }
    for k in 0..order.len()
        invariant
            rv == views(root@),
            order@ == path_order(file_keys(files@), files@.len()),
            forall|j: int| 0 <= j < order@.len() ==> #[trigger] order@[j] < files@.len(),
            scan_files(rv, files@, order@.take(k as int), allow_risky) == Ok::<
                _,
                PacketErrorView,
            >(record_views(records@)),
            forall|j: int| 0 <= j < records@.len() ==> is_hex_digest(#[trigger] records@[j].sha256@),
    {
        assert(order@.take(k + 1).drop_last() =~= order@.take(k as int));
        assert(order@.take(k + 1).last() == order@[k as int]);
        match scan_one(root, &files[order[k]], allow_risky) {
            Ok(a) => {
                let ghost before = records@;
                records.push(a);
                assert(record_views(records@) =~= record_views(before).push(a@));
            },
            Err(e) => {
                proof {
                    lemma_scan_stops(rv, files@, order@, allow_risky, k + 1);
                }
                return Err(e);
            },
        }
    }
    assert(order@.take(order.len() as int) =~= order@);
    if records.len() == 0 {
        return Err(PacketError::NoArtifacts { dir: artifact_dir.clone() });
    }
    Ok(records)
}

} // verus!
