//! Secondary indices: sets of (value, subject) keys, scanned in key order.
use vstd::prelude::*;
use crate::text::{lemma_str_order, str_before, str_less};

verus! {

/// A value that an index is keyed by, with a strict total order.
pub trait IndexValue: View + Sized {
    spec fn before(a: Self::V, b: Self::V) -> bool;

    proof fn lemma_order(a: Self::V, b: Self::V, c: Self::V)
        ensures
            !Self::before(a, a),
            Self::before(a, b) && Self::before(b, c) ==> Self::before(a, c),
            a != b ==> Self::before(a, b) || Self::before(b, a),
    ;

    fn less(&self, other: &Self) -> (r: bool)
        ensures
            r == Self::before(self@, other@),
    ;

    fn same(&self, other: &Self) -> (r: bool)
        ensures
            r == (self@ == other@),
    ;

    fn duplicate(&self) -> (r: Self)
        ensures
            r@ == self@,
    ;
}

impl IndexValue for u32 {
    open spec fn before(a: u32, b: u32) -> bool {
        a < b
    }

    proof fn lemma_order(a: u32, b: u32, c: u32) {
    }

    fn less(&self, other: &u32) -> (r: bool) {
        *self < *other
    }

    fn same(&self, other: &u32) -> (r: bool) {
        *self == *other
    }

    fn duplicate(&self) -> (r: u32) {
        *self
    }
}

impl IndexValue for u64 {
    open spec fn before(a: u64, b: u64) -> bool {
        a < b
    }

    proof fn lemma_order(a: u64, b: u64, c: u64) {
    }

    fn less(&self, other: &u64) -> (r: bool) {
        *self < *other
    }

    fn same(&self, other: &u64) -> (r: bool) {
        *self == *other
    }

    fn duplicate(&self) -> (r: u64) {
        *self
    }
}

impl IndexValue for String {
    open spec fn before(a: Seq<char>, b: Seq<char>) -> bool {
        str_before(a, b)
    }

    proof fn lemma_order(a: Seq<char>, b: Seq<char>, c: Seq<char>) {
        lemma_str_order(a, b, c);
    }

    fn less(&self, other: &String) -> (r: bool) {
        str_less(self, other)
    }

    fn same(&self, other: &String) -> (r: bool) {
        *self == *other
    }

    fn duplicate(&self) -> (r: String) {
        self.clone()
    }
}

/// One index entry: an indexed value and the subject it points at.
pub struct Entry<K> {
    pub value: K,
    pub subject: String,
}

/// Keys order by value first, then by subject.
pub open spec fn key_before<K: IndexValue>(p: (K::V, Seq<char>), q: (K::V, Seq<char>)) -> bool {
    K::before(p.0, q.0) || (p.0 == q.0 && str_before(p.1, q.1))
}

/// `p` comes before `q` in the direction of the scan.
pub open spec fn in_order<K: IndexValue>(
    p: (K::V, Seq<char>),
    q: (K::V, Seq<char>),
    reversed: bool,
) -> bool {
    if reversed {
        key_before::<K>(q, p)
    } else {
        key_before::<K>(p, q)
    }
}

/// Where a scan resumes: strictly past `value` alone, or, with a
/// subject, strictly past the key (`value`, `subject`).
pub struct KeyBound<K> {
    pub value: K,
    pub subject: Option<String>,
}

pub open spec fn bound_view<K: View>(b: &Option<KeyBound<K>>) -> Option<(K::V, Option<Seq<char>>)> {
    match b {
        Some(kb) => Some((kb.value@, opt_view(&kb.subject))),
        None => None,
    }
}

/// A key lies past an exclusive bound, in the direction of the scan.
pub open spec fn in_range<K: IndexValue>(
    bound: Option<(K::V, Option<Seq<char>>)>,
    reversed: bool,
    p: (K::V, Seq<char>),
) -> bool {
    match bound {
        None => true,
        Some((b, None)) => if reversed {
            K::before(p.0, b)
        } else {
            K::before(b, p.0)
        },
        Some((b, Some(s))) => in_order::<K>((b, s), p, reversed),
    }
}

/// `page` is the first `limit` keys of `keys` past `bound`, in scan order
/// (all of them, when there are fewer).
pub open spec fn is_page<K: IndexValue>(
    keys: Set<(K::V, Seq<char>)>,
    bound: Option<(K::V, Option<Seq<char>>)>,
    reversed: bool,
    limit: nat,
    page: Seq<(K::V, Seq<char>)>,
) -> bool {
    &&& page.len() <= limit
    &&& forall|i: int|
        0 <= i < page.len() ==> keys.contains(#[trigger] page[i]) && in_range::<K>(
            bound,
            reversed,
            page[i],
        )
    &&& forall|i: int, j: int|
        0 <= i < j < page.len() ==> in_order::<K>(#[trigger] page[i], #[trigger] page[j], reversed)
    &&& forall|p: (K::V, Seq<char>)|
        #[trigger] keys.contains(p) && in_range::<K>(bound, reversed, p) && !page.contains(p)
            ==> page.len() == limit && (page.len() == 0 || in_order::<K>(page.last(), p, reversed))
}

pub proof fn lemma_key_order<K: IndexValue>(
    p: (K::V, Seq<char>),
    q: (K::V, Seq<char>),
    r: (K::V, Seq<char>),
)
    ensures
        !key_before::<K>(p, p),
        key_before::<K>(p, q) && key_before::<K>(q, r) ==> key_before::<K>(p, r),
        p != q ==> key_before::<K>(p, q) || key_before::<K>(q, p),
{
    K::lemma_order(p.0, q.0, r.0);
    K::lemma_order(p.0, r.0, q.0);
    K::lemma_order(q.0, p.0, r.0);
    lemma_str_order(p.1, q.1, r.1);
}

pub open spec fn key_of<K: IndexValue>(e: Entry<K>) -> (K::V, Seq<char>) {
    (e.value@, e.subject@)
}

fn entry_before<K: IndexValue>(a: &Entry<K>, b: &Entry<K>) -> (r: bool)
    ensures
        r == key_before::<K>(key_of(*a), key_of(*b)),
{
    a.value.less(&b.value) || (a.value.same(&b.value) && str_less(&a.subject, &b.subject))
}

fn entry_in_order<K: IndexValue>(a: &Entry<K>, b: &Entry<K>, reversed: bool) -> (r: bool)
    ensures
        r == in_order::<K>(key_of(*a), key_of(*b), reversed),
{
    if reversed {
        entry_before(b, a)
    } else {
        entry_before(a, b)
    }
}

fn entry_in_range<K: IndexValue>(bound: &Option<KeyBound<K>>, reversed: bool, e: &Entry<K>) -> (r: bool)
    ensures
        r == in_range::<K>(bound_view(bound), reversed, key_of(*e)),
{
    match bound {
        None => true,
        Some(kb) => match &kb.subject {
            None => if reversed {
                e.value.less(&kb.value)
            } else {
                kb.value.less(&e.value)
            },
            Some(sub) => {
                let before = kb.value.less(&e.value) || (kb.value.same(&e.value) && str_less(sub, &e.subject));
                let after = e.value.less(&kb.value) || (e.value.same(&kb.value) && str_less(&e.subject, sub));
                if reversed {
                    after
                } else {
                    before
                }
            },
        },
    }
}

pub open spec fn opt_view<K: View>(o: &Option<K>) -> Option<K::V> {
    match o {
        Some(v) => Some(v@),
        None => None,
    }
}

/// An index as a list of entries; its meaning is the set of their keys.
pub struct Index<K> {
    pub entries: Vec<Entry<K>>,
}

impl<K: IndexValue> Index<K> {
    pub open spec fn keys(&self) -> Set<(K::V, Seq<char>)> {
        Set::new(
            |p: (K::V, Seq<char>)|
                exists|i: int| 0 <= i < self.entries@.len() && key_of(#[trigger] self.entries@[i]) == p,
        )
    }

    pub open spec fn keys_at(&self, pos: Seq<usize>) -> Seq<(K::V, Seq<char>)> {
        Seq::new(pos.len(), |i: int| key_of(self.entries@[pos[i] as int]))
    }

    pub fn new() -> (r: Self)
        ensures
            r.keys() == Set::<(K::V, Seq<char>)>::empty(),
            r.entries@.len() == 0,
    {
        let r = Index { entries: Vec::new() };
        assert(r.keys() =~= Set::<(K::V, Seq<char>)>::empty());
        r
    }

    pub fn contains(&self, value: &K, subject: &String) -> (r: bool)
        ensures
            r == self.keys().contains((value@, subject@)),
    {
        let mut i: usize = 0;
        while i < self.entries.len()
            invariant
                i <= self.entries@.len(),
                forall|j: int| 0 <= j < i ==> key_of(#[trigger] self.entries@[j]) != (value@, subject@),
            decreases self.entries.len() - i,
        {
            let e = &self.entries[i];
            if e.value.same(value) && e.subject == *subject {
                assert(key_of(self.entries@[i as int]) == (value@, subject@));
                return true;
            }
            i = i + 1;
        }
        false
    }

    /// Adds a key; a key already present is left as it is.
    pub fn insert(&mut self, value: K, subject: String)
        ensures
            final(self).keys() == old(self).keys().insert((value@, subject@)),
    {
        if !self.contains(&value, &subject) {
            let ghost prev = self.entries@;
            let ghost k = (value@, subject@);
            self.entries.push(Entry { value, subject });
            proof {
                let n = prev.len() as int;
                assert(key_of(self.entries@[n]) == k);
                assert forall|p: (K::V, Seq<char>)|
                    self.keys().contains(p) == old(self).keys().insert(k).contains(p) by {
                    if old(self).keys().contains(p) {
                        let i = choose|i: int| 0 <= i < prev.len() && key_of(#[trigger] prev[i]) == p;
                        assert(self.entries@[i] == prev[i]);
                    }
                    if self.keys().contains(p) && p != k {
                        let i = choose|i: int|
                            0 <= i < self.entries@.len() && key_of(#[trigger] self.entries@[i]) == p;
                        assert(i < n);
                        assert(prev[i] == self.entries@[i]);
                    }
                }
                assert(self.keys() =~= old(self).keys().insert(k));
            }
        } else {
            proof {
                assert(self.keys() =~= old(self).keys().insert((value@, subject@)));
            }
        }
    }

    /// Drops a key; nothing else changes.
    pub fn remove(&mut self, value: &K, subject: &String)
        ensures
            final(self).keys() == old(self).keys().remove((value@, subject@)),
    {
        let ghost k = (value@, subject@);
        let mut i: usize = 0;
        while i < self.entries.len()
            invariant
                k == (value@, subject@),
                i <= self.entries@.len(),
                forall|j: int| 0 <= j < i ==> key_of(#[trigger] self.entries@[j]) != k,
                forall|p: (K::V, Seq<char>)|
                    p != k ==> (#[trigger] self.keys().contains(p) <==> old(self).keys().contains(p)),
            decreases self.entries.len() - i,
        {
            let e = &self.entries[i];
            if e.value.same(value) && e.subject == *subject {
                let ghost prev = self.entries@;
                let ghost before = self.keys();
                assert(key_of(prev[i as int]) == k);
                self.entries.remove(i);
                proof {
                    assert forall|j: int| 0 <= j < i implies key_of(#[trigger] self.entries@[j]) != k by {
                        assert(self.entries@[j] == prev[j]);
                    }
                    assert forall|p: (K::V, Seq<char>)|
                        p != k implies (#[trigger] self.keys().contains(p) <==> before.contains(p)) by {
                        if before.contains(p) {
                            let j = choose|j: int| 0 <= j < prev.len() && key_of(#[trigger] prev[j]) == p;
                            if j < i {
                                assert(self.entries@[j] == prev[j]);
                            } else {
                                assert(j != i);
                                assert(self.entries@[j - 1] == prev[j]);
                            }
                        }
                        if self.keys().contains(p) {
                            let j = choose|j: int|
                                0 <= j < self.entries@.len() && key_of(#[trigger] self.entries@[j]) == p;
                            if j < i {
                                assert(self.entries@[j] == prev[j]);
                            } else {
                                assert(self.entries@[j] == prev[j + 1]);
                            }
                        }
                    }
                }
            } else {
                i = i + 1;
            }
        }
        assert(self.keys() =~= old(self).keys().remove(k));
    }

    /// Positions of the first `limit` entries past `bound`, in key order
    /// (descending when `reversed`).
    pub fn scan(&self, bound: &Option<KeyBound<K>>, reversed: bool, limit: usize) -> (r: Vec<usize>)
        ensures
            forall|i: int| 0 <= i < r@.len() ==> #[trigger] r@[i] < self.entries@.len(),
            is_page::<K>(self.keys(), bound_view(bound), reversed, limit as nat, self.keys_at(r@)),
    {
        let ghost b = bound_view(bound);
        let ghost ks = self.keys();
        let mut page: Vec<usize> = Vec::new();
        let mut done = false;
        while !done && page.len() < limit
            invariant
                done ==> forall|p: (K::V, Seq<char>)|
                    #[trigger] ks.contains(p) && in_range::<K>(b, reversed, p) ==> self.keys_at(
                        page@,
                    ).contains(p),
                b == bound_view(bound),
                ks == self.keys(),
                page@.len() <= limit,
                forall|i: int| 0 <= i < page@.len() ==> #[trigger] page@[i] < self.entries@.len(),
                forall|i: int|
                    0 <= i < page@.len() ==> in_range::<K>(b, reversed, #[trigger] self.keys_at(page@)[i]),
                forall|i: int, j: int|
                    0 <= i < j < page@.len() ==> in_order::<K>(
                        #[trigger] self.keys_at(page@)[i],
                        #[trigger] self.keys_at(page@)[j],
                        reversed,
                    ),
                forall|p: (K::V, Seq<char>)|
                    #[trigger] ks.contains(p) && in_range::<K>(b, reversed, p) && !self.keys_at(
                        page@,
                    ).contains(p) ==> page@.len() > 0 ==> in_order::<K>(
                        self.keys_at(page@).last(),
                        p,
                        reversed,
                    ),
            decreases limit - page.len() + if done { 0int } else { 1int },
        {
            let ghost cur = self.keys_at(page@);
            assert(page@.len() > 0 ==> cur.last() == key_of(self.entries@[page@[page@.len() - 1] as int]));
            let mut best: Option<usize> = None;
            let mut j: usize = 0;
            while j < self.entries.len()
                invariant
                    b == bound_view(bound),
                    cur == self.keys_at(page@),
                    page@.len() > 0 ==> cur.last() == key_of(self.entries@[page@[page@.len() - 1] as int]),
                    j <= self.entries@.len(),
                    forall|i: int| 0 <= i < page@.len() ==> #[trigger] page@[i] < self.entries@.len(),
                    match best {
                        Some(x) => x < self.entries@.len() && in_range::<K>(
                            b,
                            reversed,
                            key_of(self.entries@[x as int]),
                        ) && (page@.len() == 0 || in_order::<K>(
                            cur.last(),
                            key_of(self.entries@[x as int]),
                            reversed,
                        )),
                        None => true,
                    },
                    forall|k: int|
                        0 <= k < j && in_range::<K>(b, reversed, key_of(#[trigger] self.entries@[k])) && (
                        page@.len() == 0 || in_order::<K>(cur.last(), key_of(self.entries@[k]), reversed))
                            ==> match best {
                            Some(x) => key_of(self.entries@[x as int]) == key_of(self.entries@[k])
                                || in_order::<K>(
                                key_of(self.entries@[x as int]),
                                key_of(self.entries@[k]),
                                reversed,
                            ),
                            None => false,
                        },
                decreases self.entries.len() - j,
            {
                let e = &self.entries[j];
                let ok = entry_in_range(bound, reversed, e) && (page.len() == 0
                    || entry_in_order(&self.entries[page[page.len() - 1]], e, reversed));
                if ok {
                    assert(in_range::<K>(b, reversed, key_of(self.entries@[j as int])));
                    assert(page@.len() == 0 || in_order::<K>(cur.last(), key_of(self.entries@[j as int]), reversed));
                    let better = match best {
                        None => true,
                        Some(x) => entry_in_order(e, &self.entries[x], reversed),
                    };
                    if better {
                        proof {
                            assert forall|k: int|
                                0 <= k < j && in_range::<K>(b, reversed, key_of(#[trigger] self.entries@[k]))
                                    && (page@.len() == 0 || in_order::<K>(
                                    cur.last(),
                                    key_of(self.entries@[k]),
                                    reversed,
                                )) implies key_of(self.entries@[j as int]) == key_of(self.entries@[k])
                                || in_order::<K>(
                                key_of(self.entries@[j as int]),
                                key_of(self.entries@[k]),
                                reversed,
                            ) by {
                                if let Some(x) = best {
                                    let kx = key_of(self.entries@[x as int]);
                                    let kj = key_of(self.entries@[j as int]);
                                    let kk = key_of(self.entries@[k]);
                                    lemma_key_order::<K>(kj, kx, kk);
                                    lemma_key_order::<K>(kk, kx, kj);
                                }
                            }
                        }
                        best = Some(j);
                    } else {
                        proof {
                            if let Some(x) = best {
                                let kx = key_of(self.entries@[x as int]);
                                let kj = key_of(self.entries@[j as int]);
                                lemma_key_order::<K>(kx, kj, kj);
                            }
                        }
                    }
                }
                j = j + 1;
            }
            match best {
                None => {
                    proof {
                        assert forall|p: (K::V, Seq<char>)|
                            #[trigger] ks.contains(p) && in_range::<K>(b, reversed, p) implies cur.contains(
                                p,
                            ) by {
                            if !cur.contains(p) {
                                let k = choose|k: int|
                                    0 <= k < self.entries@.len() && key_of(#[trigger] self.entries@[k])
                                        == p;
                                assert(in_range::<K>(b, reversed, key_of(self.entries@[k])));
                            }
                        }
                    }
                    done = true;
                },
                Some(x) => {
                    let ghost c = key_of(self.entries@[x as int]);
                    page.push(x);
                    proof {
                        let nxt = self.keys_at(page@);
                        assert(nxt =~= cur.push(c));
                        assert forall|i: int, j: int|
                            0 <= i < j < nxt.len() implies in_order::<K>(
                                #[trigger] nxt[i],
                                #[trigger] nxt[j],
                                reversed,
                            ) by {
                            if j == nxt.len() - 1 && i < j - 1 {
                                lemma_key_order::<K>(nxt[i], cur.last(), c);
                                lemma_key_order::<K>(c, cur.last(), nxt[i]);
                            }
                        }
                        assert forall|p: (K::V, Seq<char>)|
                            #[trigger] ks.contains(p) && in_range::<K>(b, reversed, p) && !nxt.contains(p)
                                implies in_order::<K>(c, p, reversed) by {
                            assert(!cur.contains(p)) by {
                                if cur.contains(p) {
                                    let i = choose|i: int| 0 <= i < cur.len() && cur[i] == p;
                                    assert(nxt[i] == p);
                                }
                            }
                            assert(p != c) by {
                                assert(nxt[nxt.len() - 1] == c);
                            }
                            let k = choose|k: int|
                                0 <= k < self.entries@.len() && key_of(#[trigger] self.entries@[k]) == p;
                            assert(in_range::<K>(b, reversed, key_of(self.entries@[k])));
                        }
                    }
                },
            }
        }
        proof {
            let fin = self.keys_at(page@);
            assert forall|i: int| 0 <= i < fin.len() implies ks.contains(#[trigger] fin[i]) by {
                assert(key_of(self.entries@[page@[i] as int]) == fin[i]);
            }
        }
        page
    }
}

} // verus!
