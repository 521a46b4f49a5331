//! The bookkeeping of a lookup by GeoHash cells.
//!
//! A lookup reads the bucket of every cell and hands each subscription to
//! the caller once, however many of the cells it watches. The legacy lists
//! of the cells give more ids; those not handed out yet are read last, in
//! string order, each once.
use vstd::prelude::*;
use crate::geohash::text_lt;
use crate::text::{same_text, texts_of};

verus! {

// ------------------------------------------------------------------
// The order of texts
// ------------------------------------------------------------------

/// Two texts agree on their first `n` characters.
proof fn lemma_take_agree(a: Seq<char>, b: Seq<char>, n: int, j: int)
    requires
        0 <= j < n <= a.len(),
        n <= b.len(),
        a.take(n) == b.take(n),
    ensures
        a[j] == b[j],
{
    assert(a.take(n)[j] == a[j]);
    assert(b.take(n)[j] == b[j]);
}

/// Where two texts differ below `n`, they have a first place of
/// difference.
proof fn lemma_first_difference(a: Seq<char>, b: Seq<char>, n: int)
    requires
        0 <= n <= a.len(),
        n <= b.len(),
        exists|i: int| 0 <= i < n && a[i] != b[i],
    ensures
        exists|k: int|
            #![trigger a[k], b[k]]
            0 <= k < n && a[k] != b[k] && a.take(k) == b.take(k),
    decreases n,
{
    if exists|i: int| 0 <= i < n - 1 && a[i] != b[i] {
        lemma_first_difference(a, b, n - 1);
    } else {
        let k = n - 1;
        assert(a.take(k) =~= b.take(k));
        assert(a[k] != b[k]);
    }
}

/// No text comes before itself.
pub proof fn lemma_text_lt_irreflexive(a: Seq<char>)
    ensures
        !text_lt(a, a),
{
}

/// The order of texts is transitive.
pub proof fn lemma_text_lt_transitive(a: Seq<char>, b: Seq<char>, c: Seq<char>)
    requires
        text_lt(a, b),
        text_lt(b, c),
    ensures
        text_lt(a, c),
{
    let ab = exists|k: int|
        #![trigger a[k], b[k]]
        0 <= k < a.len() && k < b.len() && a.take(k) == b.take(k) && (a[k] as int) < (b[k] as int);
    let bc = exists|k: int|
        #![trigger b[k], c[k]]
        0 <= k < b.len() && k < c.len() && b.take(k) == c.take(k) && (b[k] as int) < (c[k] as int);
    if ab && bc {
        let k1 = choose|k: int|
            #![trigger a[k], b[k]]
            0 <= k < a.len() && k < b.len() && a.take(k) == b.take(k) && (a[k] as int) < (b[k] as int);
        let k2 = choose|k: int|
            #![trigger b[k], c[k]]
            0 <= k < b.len() && k < c.len() && b.take(k) == c.take(k) && (b[k] as int) < (c[k] as int);
        if k1 < k2 {
            lemma_take_agree(b, c, k2, k1);
            assert(a.take(k1) =~= c.take(k1)) by {
                assert forall|j: int| 0 <= j < k1 implies a.take(k1)[j] == c.take(k1)[j] by {
                    lemma_take_agree(a, b, k1, j);
                    lemma_take_agree(b, c, k2, j);
                }
            }
            assert(a[k1] == a[k1] && c[k1] == c[k1]);
        } else if k2 < k1 {
            lemma_take_agree(a, b, k1, k2);
            assert(a.take(k2) =~= c.take(k2)) by {
                assert forall|j: int| 0 <= j < k2 implies a.take(k2)[j] == c.take(k2)[j] by {
                    lemma_take_agree(a, b, k1, j);
                    lemma_take_agree(b, c, k2, j);
                }
            }
            assert(a[k2] == a[k2] && c[k2] == c[k2]);
        } else {
            assert(a.take(k1) =~= c.take(k1));
            assert(a[k1] == a[k1] && c[k1] == c[k1]);
        }
    } else if ab {
        // b is a proper prefix of c
        let k1 = choose|k: int|
            #![trigger a[k], b[k]]
            0 <= k < a.len() && k < b.len() && a.take(k) == b.take(k) && (a[k] as int) < (b[k] as int);
        assert(b.len() < c.len() && b == c.take(b.len() as int));
        assert(c.take(b.len() as int)[k1] == c[k1]);
        assert(a.take(k1) =~= c.take(k1)) by {
            assert forall|j: int| 0 <= j < k1 implies a.take(k1)[j] == c.take(k1)[j] by {
                lemma_take_agree(a, b, k1, j);
                assert(c.take(b.len() as int)[j] == c[j]);
            }
        }
        assert(a[k1] == a[k1] && c[k1] == c[k1]);
    } else if bc {
        // a is a proper prefix of b
        let k2 = choose|k: int|
            #![trigger b[k], c[k]]
            0 <= k < b.len() && k < c.len() && b.take(k) == c.take(k) && (b[k] as int) < (c[k] as int);
        assert(a.len() < b.len() && a == b.take(a.len() as int));
        if k2 < a.len() {
            assert(b.take(a.len() as int)[k2] == b[k2]);
            assert(a.take(k2) =~= c.take(k2)) by {
                assert forall|j: int| 0 <= j < k2 implies a.take(k2)[j] == c.take(k2)[j] by {
                    assert(b.take(a.len() as int)[j] == b[j]);
                    lemma_take_agree(b, c, k2, j);
                }
            }
            assert(a[k2] == a[k2] && c[k2] == c[k2]);
        } else {
            assert(a =~= c.take(a.len() as int)) by {
                assert forall|j: int| 0 <= j < a.len() implies a[j] == c.take(a.len() as int)[j] by {
                    assert(b.take(a.len() as int)[j] == b[j]);
                    lemma_take_agree(b, c, k2, j);
                }
            }
        }
    } else {
        assert(a.len() < b.len() && a == b.take(a.len() as int));
        assert(b.len() < c.len() && b == c.take(b.len() as int));
        assert(a =~= c.take(a.len() as int)) by {
            assert forall|j: int| 0 <= j < a.len() implies a[j] == c.take(a.len() as int)[j] by {
                assert(b.take(a.len() as int)[j] == b[j]);
                assert(c.take(b.len() as int)[j] == c[j]);
            }
        }
    }
}

/// Of two different texts, one comes first.
pub proof fn lemma_text_lt_total(a: Seq<char>, b: Seq<char>)
    requires
        a != b,
    ensures
        text_lt(a, b) || text_lt(b, a),
{
    let n = if a.len() <= b.len() { a.len() as int } else { b.len() as int };
    if exists|i: int| 0 <= i < n && a[i] != b[i] {
        lemma_first_difference(a, b, n);
        let k = choose|k: int|
            #![trigger a[k], b[k]]
            0 <= k < n && a[k] != b[k] && a.take(k) == b.take(k);
        if (a[k] as int) < (b[k] as int) {
            assert(text_lt(a, b));
        } else {
            assert(b.take(k) == a.take(k));
            assert(text_lt(b, a));
        }
    } else if a.len() <= b.len() {
        assert(a =~= b.take(a.len() as int));
        if a.len() == b.len() {
            assert(a =~= b);
        }
    } else {
        assert(b =~= a.take(b.len() as int));
    }
}

/// Whether `a` comes before `b` in string order.
pub fn text_less(a: &str, b: &str) -> (r: bool)
    ensures
        r == text_lt(a@, b@),
{
    let n = a.unicode_len();
    let m = b.unicode_len();
    let mut k: usize = 0;
    while k < n && k < m
        invariant
            n == a@.len(),
            m == b@.len(),
            k <= n,
            k <= m,
            a@.take(k as int) == b@.take(k as int),
        decreases n - k,
    {
        let x = a.get_char(k);
        let y = b.get_char(k);
        if x != y {
            let r = (x as u32) < (y as u32);
            proof {
                let s = a@;
                let t = b@;
                if r {
                    assert(s[k as int] == s[k as int] && t[k as int] == t[k as int]);
                } else {
                    assert forall|j: int|
                        0 <= j < s.len() && j < t.len() && s.take(j) == t.take(j) implies !((s[j] as int)
                        < (t[j] as int)) by {
                        if j < k {
                            lemma_take_agree(s, t, k as int, j);
                        } else if j > k {
                            lemma_take_agree(s, t, j, k as int);
                        }
                    }
                    if s.len() < t.len() && s == t.take(s.len() as int) {
                        assert(t.take(s.len() as int)[k as int] == t[k as int]);
                    }
                }
            }
            return r;
        }
        proof {
            let ta = a@.take(k + 1);
            let tb = b@.take(k + 1);
            assert(ta =~= tb) by {
                assert forall|j: int| 0 <= j < ta.len() implies #[trigger] ta[j] == tb[j] by {
                    if j < k {
                        lemma_take_agree(a@, b@, k as int, j);
                    }
                }
            }
        }
        k = k + 1;
    }
    proof {
        let s = a@;
        let t = b@;
        if n < m {
            assert(s =~= t.take(n as int)) by {
                assert(s.take(n as int) =~= s);
            }
        } else {
            assert forall|j: int|
                0 <= j < s.len() && j < t.len() && s.take(j) == t.take(j) implies !((s[j] as int) < (
                t[j] as int)) by {
                lemma_take_agree(s, t, k as int, j);
            }
        }
    }
    n < m
}

// ------------------------------------------------------------------
// Ids handed out
// ------------------------------------------------------------------

/// The ids of the subscriptions a lookup has handed out so far.
pub struct SeenIds {
    ids: Vec<String>,
}

impl View for SeenIds {
    type V = Set<Seq<char>>;

    closed spec fn view(&self) -> Set<Seq<char>> {
        texts_of(self.ids@).to_set()
    }
}

impl SeenIds {
    /// No id yet.
    pub fn new() -> (r: SeenIds)
        ensures
            r@ == Set::<Seq<char>>::empty(),
    {
        let r = SeenIds { ids: Vec::new() };
        assert(r@ =~= Set::<Seq<char>>::empty());
        r
    }

    /// Whether `id` was handed out.
    pub fn contains(&self, id: &str) -> (r: bool)
        ensures
            r == self@.contains(id@),
    {
        let mut i: usize = 0;
        while i < self.ids.len()
            invariant
                i <= self.ids@.len(),
                forall|j: int| 0 <= j < i ==> self.ids@[j]@ != id@,
            decreases self.ids@.len() - i,
        {
            if same_text(self.ids[i].as_str(), id) {
                assert(texts_of(self.ids@)[i as int] == id@);
                return true;
            }
            i = i + 1;
        }
        assert(!texts_of(self.ids@).contains(id@)) by {
            assert forall|j: int| 0 <= j < texts_of(self.ids@).len() implies texts_of(self.ids@)[j]
                != id@ by {
                assert(texts_of(self.ids@)[j] == self.ids@[j]@);
            }
        }
        false
    }

    /// Records `id` as handed out; `true` when it was not before.
    pub fn insert(&mut self, id: &str) -> (r: bool)
        ensures
            r == !old(self)@.contains(id@),
            final(self)@ == old(self)@.insert(id@),
    {
        if self.contains(id) {
            assert(self@.insert(id@) =~= self@);
            false
        } else {
            let ghost before = texts_of(self.ids@);
            self.ids.push(id.to_string());
            proof {
                assert(texts_of(self.ids@) =~= before.push(id@));
                assert(texts_of(self.ids@).to_set() =~= before.to_set().insert(id@)) by {
                    assert forall|t: Seq<char>| texts_of(self.ids@).to_set().contains(t) implies before.to_set().insert(
                        id@,
                    ).contains(t) by {
                        let j = choose|j: int| 0 <= j < texts_of(self.ids@).len() && texts_of(self.ids@)[j] == t;
                        if j < before.len() {
                            assert(before[j] == t);
                        }
                    }
                    assert forall|t: Seq<char>| before.to_set().insert(id@).contains(t) implies texts_of(
                        self.ids@,
                    ).to_set().contains(t) by {
                        if t == id@ {
                            assert(texts_of(self.ids@)[before.len() as int] == t);
                        } else {
                            let j = choose|j: int| 0 <= j < before.len() && before[j] == t;
                            assert(texts_of(self.ids@)[j] == t);
                        }
                    }
                }
            }
            true
        }
    }
}

// ------------------------------------------------------------------
// The legacy ids, in order
// ------------------------------------------------------------------

/// A list of texts in strictly increasing string order.
pub open spec fn strictly_sorted(v: Seq<Seq<char>>) -> bool {
    forall|i: int, j: int| 0 <= i < j < v.len() ==> text_lt(#[trigger] v[i], #[trigger] v[j])
}

/// The ids of a list, each once, in string order: what `sort` then `dedup`
/// leave of it.
pub fn sorted_unique(ids: &Vec<String>) -> (r: Vec<String>)
    ensures
        strictly_sorted(texts_of(r@)),
        texts_of(r@).to_set() == texts_of(ids@).to_set(),
{
    let mut out: Vec<String> = Vec::new();
    let mut i: usize = 0;
    while i < ids.len()
        invariant
            i <= ids@.len(),
            strictly_sorted(texts_of(out@)),
            texts_of(out@).to_set() == texts_of(ids@.take(i as int)).to_set(),
        decreases ids@.len() - i,
    {
        let x = ids[i].as_str();
        let ghost o = texts_of(out@);
        let mut p: usize = 0;
        while p < out.len() && text_less(out[p].as_str(), x)
            invariant
                o == texts_of(out@),
                p <= out@.len(),
                forall|j: int| 0 <= j < p ==> text_lt(#[trigger] o[j], x@),
            decreases out@.len() - p,
        {
            assert(o[p as int] == out@[p as int]@);
            p = p + 1;
        }
        let ghost sx = texts_of(ids@.take(i + 1));
        proof {
            assert(sx =~= texts_of(ids@.take(i as int)).push(x@));
        }
        if p < out.len() && same_text(out[p].as_str(), x) {
            proof {
                assert(o[p as int] == x@);
                assert(o.to_set() =~= sx.to_set()) by {
                    assert forall|t: Seq<char>| sx.to_set().contains(t) implies o.to_set().contains(t) by {
                        let j = choose|j: int| 0 <= j < sx.len() && sx[j] == t;
                        if j < i {
                            assert(texts_of(ids@.take(i as int))[j] == t);
                            assert(texts_of(ids@.take(i as int)).to_set().contains(t));
                        }
                    }
                    assert forall|t: Seq<char>| o.to_set().contains(t) implies sx.to_set().contains(t) by {
                        assert(texts_of(ids@.take(i as int)).to_set().contains(t));
                        let j = choose|j: int|
                            0 <= j < texts_of(ids@.take(i as int)).len() && texts_of(ids@.take(i as int))[j] == t;
                        assert(sx[j] == t);
                    }
                }
            }
        } else {
            proof {
                if p < out@.len() {
                    assert(o[p as int] == out@[p as int]@);
                    assert(!text_lt(o[p as int], x@));
                    assert(o[p as int] != x@);
                    lemma_text_lt_total(o[p as int], x@);
                }
            }
            out.insert(p, ids[i].clone());
            proof {
                let n = texts_of(out@);
                assert(n =~= o.insert(p as int, x@));
                assert forall|a: int, b: int| 0 <= a < b < n.len() implies text_lt(#[trigger] n[a], #[trigger] n[b]) by {
                    if b < p {
                        assert(n[a] == o[a] && n[b] == o[b]);
                    } else if b == p {
                        assert(n[a] == o[a]);
                    } else if a < p {
                        assert(n[a] == o[a] && n[b] == o[b - 1]);
                        if b - 1 > p {
                            assert(text_lt(o[p as int], o[b - 1]));
                            lemma_text_lt_transitive(x@, o[p as int], o[b - 1]);
                        }
                        lemma_text_lt_transitive(o[a], x@, o[b - 1]);
                    } else if a == p {
                        assert(n[b] == o[b - 1]);
                        if b - 1 > p {
                            assert(text_lt(o[p as int], o[b - 1]));
                            lemma_text_lt_transitive(x@, o[p as int], o[b - 1]);
                        }
                    } else {
                        assert(n[a] == o[a - 1] && n[b] == o[b - 1]);
                    }
                }
                assert(n.to_set() =~= sx.to_set()) by {
                    assert forall|t: Seq<char>| sx.to_set().contains(t) implies n.to_set().contains(t) by {
                        let j = choose|j: int| 0 <= j < sx.len() && sx[j] == t;
                        if j < i {
                            assert(texts_of(ids@.take(i as int))[j] == t);
                            assert(texts_of(ids@.take(i as int)).to_set().contains(t));
                            let q = choose|q: int| 0 <= q < o.len() && o[q] == t;
                            if q < p {
                                assert(n[q] == t);
                            } else {
                                assert(n[q + 1] == t);
                            }
                        } else {
                            assert(n[p as int] == t);
                        }
                    }
                    assert forall|t: Seq<char>| n.to_set().contains(t) implies sx.to_set().contains(t) by {
                        let q = choose|q: int| 0 <= q < n.len() && n[q] == t;
                        if q == p {
                            assert(sx[i as int] == t);
                        } else {
                            let q2 = if q < p { q } else { q - 1 };
                            assert(o[q2] == t);
                            assert(o.to_set().contains(t));
                            let j = choose|j: int|
                                0 <= j < texts_of(ids@.take(i as int)).len() && texts_of(ids@.take(i as int))[j] == t;
                            assert(sx[j] == t);
                        }
                    }
                }
            }
        }
        i = i + 1;
    }
    assert(ids@.take(ids@.len() as int) =~= ids@);
    out
}

} // verus!
