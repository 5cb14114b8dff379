//! Tables keyed by text and kept in ascending key order.
//!
//! A table is modelled as the sequence of its entries. Keys ascend strictly
//! in the order of their code points, which is the order of their UTF-8
//! bytes.

use vstd::prelude::*;
use crate::text::{chars_of, str_eq, views};

verus! {

// ---------------------------------------------------------------------
// The order of texts
// ---------------------------------------------------------------------

/// `a` comes strictly before `b`.
pub open spec fn before(a: Seq<char>, b: Seq<char>) -> bool
    decreases a.len(),
{
    if b.len() == 0 {
        false
    } else if a.len() == 0 {
        true
    } else if a[0] != b[0] {
        a[0] < b[0]
    } else {
        before(a.skip(1), b.skip(1))
    }
}

pub proof fn lemma_before_irreflexive(a: Seq<char>)
    ensures
        !before(a, a),
    decreases a.len(),
{
    if a.len() > 0 {
        lemma_before_irreflexive(a.skip(1));
    }
}

pub proof fn lemma_before_transitive(a: Seq<char>, b: Seq<char>, c: Seq<char>)
    requires
        before(a, b),
        before(b, c),
    ensures
        before(a, c),
    decreases a.len(),
{
    if a.len() > 0 && b.len() > 0 && c.len() > 0 && a[0] == b[0] && b[0] == c[0] {
        lemma_before_transitive(a.skip(1), b.skip(1), c.skip(1));
    }
}

pub proof fn lemma_before_total(a: Seq<char>, b: Seq<char>)
    ensures
        before(a, b) || before(b, a) || a == b,
        !(before(a, b) && before(b, a)),
    decreases a.len(),
{
    if a.len() > 0 && b.len() > 0 && a[0] == b[0] {
        lemma_before_total(a.skip(1), b.skip(1));
        if a.skip(1) == b.skip(1) {
            assert(a =~= seq![a[0]] + a.skip(1));
            assert(b =~= seq![b[0]] + b.skip(1));
        }
    } else if a.len() == 0 && b.len() == 0 {
        assert(a =~= b);
    }
}

/// Whether `a` comes strictly before `b`.
pub fn str_before(a: &str, b: &str) -> (r: bool)
    ensures
        r == before(a@, b@),
{
    let x = chars_of(a);
    let y = chars_of(b);
    let mut i: usize = 0;
    assert(x@.skip(0) =~= x@);
    assert(y@.skip(0) =~= y@);
    while i < x.len() && i < y.len()
        invariant
            i <= x.len(),
            i <= y.len(),
            x@ == a@,
            y@ == b@,
            before(a@, b@) == before(a@.skip(i as int), b@.skip(i as int)),
        decreases x.len() - i,
    {
        if x[i] != y[i] {
            return x[i] < y[i];
        }
        assert(a@.skip(i as int).skip(1) =~= a@.skip(i + 1));
        assert(b@.skip(i as int).skip(1) =~= b@.skip(i + 1));
        i += 1;
    }
    i < y.len()
}

// ---------------------------------------------------------------------
// Entries
// ---------------------------------------------------------------------

/// Keys ascend strictly.
pub open spec fn ascending<V>(s: Seq<(Seq<char>, V)>) -> bool {
    forall|i: int, j: int| 0 <= i < j < s.len() ==> before(#[trigger] s[i].0, #[trigger] s[j].0)
}

/// How many keys come before `k`, counted from the front.
pub open spec fn rank<V>(s: Seq<(Seq<char>, V)>, k: Seq<char>) -> nat
    decreases s.len(),
{
    if s.len() > 0 && before(s[0].0, k) {
        1 + rank(s.skip(1), k)
    } else {
        0
    }
}

pub open spec fn present<V>(s: Seq<(Seq<char>, V)>, k: Seq<char>) -> bool {
    rank(s, k) < s.len() && s[rank(s, k) as int].0 == k
}

/// The value at `k`, if there is one.
pub open spec fn lookup<V>(s: Seq<(Seq<char>, V)>, k: Seq<char>) -> Option<V> {
    if present(s, k) {
        Some(s[rank(s, k) as int].1)
    } else {
        None
    }
}

/// The entries with `v` at `k`.
pub open spec fn put<V>(s: Seq<(Seq<char>, V)>, k: Seq<char>, v: V) -> Seq<(Seq<char>, V)> {
    if present(s, k) {
        s.update(rank(s, k) as int, (k, v))
    } else {
        s.insert(rank(s, k) as int, (k, v))
    }
}

/// The entries without `k`.
pub open spec fn del<V>(s: Seq<(Seq<char>, V)>, k: Seq<char>) -> Seq<(Seq<char>, V)> {
    if present(s, k) {
        s.remove(rank(s, k) as int)
    } else {
        s
    }
}

pub proof fn lemma_rank<V>(s: Seq<(Seq<char>, V)>, k: Seq<char>)
    requires
        ascending(s),
    ensures
        rank(s, k) <= s.len(),
        forall|i: int| 0 <= i < rank(s, k) ==> before(#[trigger] s[i].0, k),
        forall|i: int| rank(s, k) <= i < s.len() ==> !before(#[trigger] s[i].0, k),
        forall|i: int| rank(s, k) < i < s.len() ==> #[trigger] s[i].0 != k,
        !present(s, k) ==> forall|i: int| rank(s, k) <= i < s.len() ==> before(k, #[trigger] s[i].0),
        present(s, k) ==> forall|i: int| rank(s, k) < i < s.len() ==> before(k, #[trigger] s[i].0),
    decreases s.len(),
{
    if s.len() > 0 && before(s[0].0, k) {
        let t = s.skip(1);
        assert(ascending(t));
        lemma_rank(t, k);
        assert forall|i: int| 0 <= i < rank(s, k) implies before(#[trigger] s[i].0, k) by {
            if i > 0 {
                assert(t[i - 1] == s[i]);
            }
        }
        assert forall|i: int| rank(s, k) <= i < s.len() implies !before(#[trigger] s[i].0, k) by {
            assert(t[i - 1] == s[i]);
        }
        assert forall|i: int| rank(s, k) < i < s.len() implies #[trigger] s[i].0 != k by {
            assert(t[i - 1] == s[i]);
        }
        assert(present(s, k) == present(t, k)) by {
            if rank(t, k) < t.len() {
                assert(t[rank(t, k) as int] == s[rank(s, k) as int]);
            }
        }
        if !present(s, k) {
            assert forall|i: int| rank(s, k) <= i < s.len() implies before(
                k,
                #[trigger] s[i].0,
            ) by {
                assert(t[i - 1] == s[i]);
            }
        } else {
            assert forall|i: int| rank(s, k) < i < s.len() implies before(k, #[trigger] s[i].0) by {
                assert(t[i - 1] == s[i]);
            }
        }
    } else if s.len() > 0 {
        assert forall|i: int| 0 <= i < s.len() implies !before(#[trigger] s[i].0, k) by {
            if i > 0 && before(s[i].0, k) {
                lemma_before_transitive(s[0].0, s[i].0, k);
            }
        }
        lemma_before_total(s[0].0, k);
        assert forall|i: int| 0 < i < s.len() implies before(k, #[trigger] s[i].0) by {
            assert(before(s[0].0, s[i].0));
            if before(k, s[0].0) {
                lemma_before_transitive(k, s[0].0, s[i].0);
            }
        }
        assert forall|i: int| 0 < i < s.len() implies #[trigger] s[i].0 != k by {
            assert(before(k, s[i].0));
            lemma_before_irreflexive(k);
        }
    }
}

/// A key is found exactly when some entry carries it.
pub proof fn lemma_has<V>(s: Seq<(Seq<char>, V)>, i: int)
    requires
        ascending(s),
        0 <= i < s.len(),
    ensures
        present(s, s[i].0),
        rank(s, s[i].0) == i,
        lookup(s, s[i].0) == Some(s[i].1),
{
    let k = s[i].0;
    lemma_rank(s, k);
    lemma_before_irreflexive(k);
    if rank(s, k) > i {
        assert(before(s[i].0, k));
    } else if rank(s, k) < i {
        assert(s[i].0 != k);
    }
}

pub proof fn lemma_put_ascending<V>(s: Seq<(Seq<char>, V)>, k: Seq<char>, v: V)
    requires
        ascending(s),
    ensures
        ascending(put(s, k, v)),
{
    lemma_rank(s, k);
    let r = rank(s, k) as int;
    let t = put(s, k, v);
    assert forall|i: int, j: int| 0 <= i < j < t.len() implies before(
        #[trigger] t[i].0,
        #[trigger] t[j].0,
    ) by {
        if present(s, k) {
            assert(t[i].0 == s[i].0);
            assert(t[j].0 == s[j].0);
        } else {
            let a = if i < r { i } else { i - 1 };
            let b = if j < r { j } else { j - 1 };
            if i != r {
                assert(t[i] == s[a]);
            }
            if j != r {
                assert(t[j] == s[b]);
            }
        }
    }
}

pub proof fn lemma_del_ascending<V>(s: Seq<(Seq<char>, V)>, k: Seq<char>)
    requires
        ascending(s),
    ensures
        ascending(del(s, k)),
{
    lemma_rank(s, k);
    let r = rank(s, k) as int;
    let t = del(s, k);
    if present(s, k) {
        assert forall|i: int, j: int| 0 <= i < j < t.len() implies before(
            #[trigger] t[i].0,
            #[trigger] t[j].0,
        ) by {
            assert(t[i] == s[if i < r { i } else { i + 1 }]);
            assert(t[j] == s[if j < r { j } else { j + 1 }]);
        }
    }
}

/// What a read gives back after a write: the value written at its key, the
/// old value everywhere else.
pub proof fn lemma_lookup_put<V>(s: Seq<(Seq<char>, V)>, k: Seq<char>, v: V, q: Seq<char>)
    requires
        ascending(s),
    ensures
        lookup(put(s, k, v), q) == if q == k {
            Some(v)
        } else {
            lookup(s, q)
        },
{
    lemma_put_ascending(s, k, v);
    lemma_rank(s, k);
    let t = put(s, k, v);
    let r = rank(s, k) as int;
    assert(t[r] == (k, v));
    if q == k {
        lemma_has(t, r);
    } else {
        if present(s, q) {
            let j = rank(s, q) as int;
            let j2 = if present(s, k) || j < r { j } else { j + 1 };
            assert(t[j2] == s[j]);
            lemma_has(t, j2);
        } else if present(t, q) {
            let j2 = rank(t, q) as int;
            assert(j2 != r);
            let j = if present(s, k) || j2 < r { j2 } else { j2 - 1 };
            assert(s[j] == t[j2]);
            lemma_has(s, j);
        }
    }
}

/// What a read gives back after a removal.
pub proof fn lemma_lookup_del<V>(s: Seq<(Seq<char>, V)>, k: Seq<char>, q: Seq<char>)
    requires
        ascending(s),
    ensures
        lookup(del(s, k), q) == if q == k {
            None
        } else {
            lookup(s, q)
        },
{
    lemma_del_ascending(s, k);
    lemma_rank(s, k);
    let t = del(s, k);
    let r = rank(s, k) as int;
    if present(s, k) {
        if q == k {
            if present(t, q) {
                let j2 = rank(t, q) as int;
                let j = if j2 < r { j2 } else { j2 + 1 };
                assert(t[j2] == s[j]);
                lemma_has(s, j);
            }
        } else if present(s, q) {
            let j = rank(s, q) as int;
            let j2 = if j < r { j } else { j - 1 };
            assert(t[j2] == s[j]);
            lemma_has(t, j2);
        } else if present(t, q) {
            let j2 = rank(t, q) as int;
            let j = if j2 < r { j2 } else { j2 + 1 };
            assert(t[j2] == s[j]);
            lemma_has(s, j);
        }
    }
}

/// Every entry after a write is the one written or an old one.
pub proof fn lemma_put_entries<V>(s: Seq<(Seq<char>, V)>, k: Seq<char>, v: V, i: int)
    requires
        ascending(s),
        0 <= i < put(s, k, v).len(),
    ensures
        put(s, k, v)[i] == (k, v) || exists|j: int| 0 <= j < s.len() && s[j] == put(s, k, v)[i],
{
    lemma_rank(s, k);
    let r = rank(s, k) as int;
    let t = put(s, k, v);
    if i != r {
        let j = if present(s, k) || i < r { i } else { i - 1 };
        assert(s[j] == t[i]);
    }
}

/// Tables that give the same answers are the same.
pub proof fn lemma_same_answers<V>(a: Seq<(Seq<char>, V)>, b: Seq<(Seq<char>, V)>)
    requires
        ascending(a),
        ascending(b),
        forall|k: Seq<char>| #[trigger] lookup(a, k) == lookup(b, k),
    ensures
        a == b,
    decreases a.len(),
{
    if a.len() == 0 {
        if b.len() > 0 {
            lemma_has(b, 0);
            assert(lookup(a, b[0].0) == lookup(b, b[0].0));
        }
        assert(a =~= b);
    } else {
        lemma_has(a, 0);
        assert(lookup(a, a[0].0) == lookup(b, a[0].0));
        let j = rank(b, a[0].0) as int;
        assert(b[j].0 == a[0].0);
        lemma_has(b, 0);
        assert(lookup(a, b[0].0) == lookup(b, b[0].0));
        let i = rank(a, b[0].0) as int;
        assert(a[i].0 == b[0].0);
        if a[0].0 != b[0].0 {
            assert(before(a[0].0, a[i].0));
            assert(before(b[0].0, b[j].0));
            lemma_before_total(a[0].0, b[0].0);
        }
        assert(a[0] == b[0]);
        let p = a.skip(1);
        let q = b.skip(1);
        assert forall|k: Seq<char>| #[trigger] lookup(p, k) == lookup(q, k) by {
            lemma_lookup_rest(a, k);
            lemma_lookup_rest(b, k);
            assert(lookup(a, k) == lookup(b, k));
        }
        lemma_same_answers(p, q);
        assert(a =~= seq![a[0]] + p);
        assert(b =~= seq![b[0]] + q);
    }
}

proof fn lemma_lookup_rest<V>(s: Seq<(Seq<char>, V)>, k: Seq<char>)
    requires
        ascending(s),
        s.len() > 0,
    ensures
        ascending(s.skip(1)),
        lookup(s.skip(1), k) == if k == s[0].0 {
            None
        } else {
            lookup(s, k)
        },
{
    let t = s.skip(1);
    assert forall|i: int, j: int| 0 <= i < j < t.len() implies before(
        #[trigger] t[i].0,
        #[trigger] t[j].0,
    ) by {
        assert(t[i] == s[i + 1] && t[j] == s[j + 1]);
    }
    if present(t, k) {
        let r = rank(t, k) as int;
        assert(t[r] == s[r + 1]);
        lemma_has(s, r + 1);
        lemma_has(s, 0);
    } else if present(s, k) && k != s[0].0 {
        let r = rank(s, k) as int;
        assert(t[r - 1] == s[r]);
        lemma_has(t, r - 1);
    }
}

/// A key that is found is the key of the entry found.
pub proof fn lemma_lookup_entry<V>(s: Seq<(Seq<char>, V)>, k: Seq<char>)
    requires
        present(s, k),
    ensures
        exists|j: int| 0 <= j < s.len() && s[j] == (k, lookup(s, k)->0),
{
    let r = rank(s, k) as int;
    assert(s[r] == (k, lookup(s, k)->0));
}

// ---------------------------------------------------------------------
// The table
// ---------------------------------------------------------------------

/// A table from texts to values, in ascending key order.
#[derive(Debug, PartialEq, Eq)]
pub struct Table<T: View> {
    entries: Vec<(String, T)>,
}

impl<T: View> View for Table<T> {
    type V = Seq<(Seq<char>, T::V)>;

    closed spec fn view(&self) -> Seq<(Seq<char>, T::V)> {
        views(self.entries@)
    }
}

impl<T: View> Table<T> {
    /// The entries ascend.
    #[verifier::type_invariant]
    spec fn inv(self) -> bool {
        ascending(views(self.entries@))
    }

    /// The table without entries.
    pub fn new() -> (r: Table<T>)
        ensures
            r@ == Seq::<(Seq<char>, T::V)>::empty(),
    {
        let entries: Vec<(String, T)> = Vec::new();
        assert(views(entries@) =~= Seq::<(Seq<char>, T::V)>::empty());
        Table { entries }
    }

    /// Number of entries.
    pub fn len(&self) -> (r: usize)
        ensures
            r == self@.len(),
            ascending(self@),
    {
        proof {
            use_type_invariant(self);
        }
        self.entries.len()
    }

    fn position(&self, k: &str) -> (r: usize)
        ensures
            r == rank(self@, k@),
            r <= self@.len(),
            ascending(self@),
    {
        proof {
            use_type_invariant(self);
            lemma_rank(self@, k@);
        }
        let mut i: usize = 0;
        assert(self@.skip(0) =~= self@);
        while i < self.entries.len() && str_before(self.entries[i].0.as_str(), k)
            invariant
                i <= self.entries.len(),
                rank(self@, k@) == i + rank(self@.skip(i as int), k@),
            decreases self.entries.len() - i,
        {
            assert(self@.skip(i as int).skip(1) =~= self@.skip(i + 1));
            i += 1;
        }
        i
    }

    /// The value at `k`.
    pub fn get(&self, k: &str) -> (r: Option<&T>)
        ensures
            match r {
                Some(v) => lookup(self@, k@) == Some(v@),
                None => lookup(self@, k@) is None,
            },
    {
        let p = self.position(k);
        if p < self.entries.len() && str_eq(self.entries[p].0.as_str(), k) {
            Some(&self.entries[p].1)
        } else {
            None
        }
    }

    /// Whether `k` is a key.
    pub fn contains(&self, k: &str) -> (r: bool)
        ensures
            r == present(self@, k@),
    {
        self.get(k).is_some()
    }

    /// The key of entry `i`, in ascending order.
    pub fn key(&self, i: usize) -> (r: &str)
        requires
            i < self@.len(),
        ensures
            r@ == self@[i as int].0,
    {
        self.entries[i].0.as_str()
    }

    /// The value of entry `i`, in ascending key order.
    pub fn value(&self, i: usize) -> (r: &T)
        requires
            i < self@.len(),
        ensures
            r@ == self@[i as int].1,
    {
        &self.entries[i].1
    }

    /// Writes `v` at `k`.
    pub fn insert(&mut self, k: String, v: T)
        ensures
            final(self)@ == put(old(self)@, k@, v@),
    {
        let p = self.position(k.as_str());
        proof {
            lemma_put_ascending(self@, k@, v@);
        }
        let found = p < self.entries.len() && str_eq(self.entries[p].0.as_str(), k.as_str());
        let entry = (k, v);
        let mut entries = self.take();
        let ghost was = entries@;
        if found {
            assert(views(was.update(p as int, entry)) =~= views(was).update(p as int, entry@));
            entries[p] = entry;
        } else {
            assert(views(was.insert(p as int, entry)) =~= views(was).insert(p as int, entry@));
            entries.insert(p, entry);
        }
        self.entries = entries;
    }

    /// Replaces the value of entry `i`.
    pub fn set_value(&mut self, i: usize, v: T)
        requires
            i < old(self)@.len(),
        ensures
            final(self)@ == old(self)@.update(i as int, (old(self)@[i as int].0, v@)),
    {
        proof {
            use_type_invariant(&*self);
        }
        let mut entries = self.take();
        let ghost was = entries@;
        let key = entries[i].0.clone();
        let entry = (key, v);
        assert(views(was.update(i as int, entry)) =~= views(was).update(i as int, entry@));
        entries[i] = entry;
        self.entries = entries;
    }

    /// Takes the entries out.
    fn take(&mut self) -> (r: Vec<(String, T)>)
        ensures
            r@ == old(self).entries@,
    {
        let mut entries: Vec<(String, T)> = Vec::new();
        assert(views(entries@) =~= Seq::<(Seq<char>, T::V)>::empty());
        core::mem::swap(&mut self.entries, &mut entries);
        entries
    }

    /// Removes `k`.
    pub fn remove(&mut self, k: &str)
        ensures
            final(self)@ == del(old(self)@, k@),
    {
        let p = self.position(k);
        proof {
            lemma_del_ascending(self@, k@);
        }
        if p < self.entries.len() && str_eq(self.entries[p].0.as_str(), k) {
            let mut entries = self.take();
            let ghost was = entries@;
            assert(views(was.remove(p as int)) =~= views(was).remove(p as int));
            let _ = entries.remove(p);
            self.entries = entries;
        }
    }
}

/// Values that can be copied.
pub trait Dup: View + Sized {
    fn dup(&self) -> (r: Self)
        ensures
            r@ == self@,
    ;
}

impl Dup for String {
    fn dup(&self) -> (r: String) {
        self.clone()
    }
}

impl<T: Dup> Dup for Table<T> {
    fn dup(&self) -> (r: Table<T>) {
        proof {
            use_type_invariant(self);
        }
        let mut entries: Vec<(String, T)> = Vec::new();
        let mut i: usize = 0;
        assert(views(entries@) =~= self@.take(0));
        while i < self.entries.len()
            invariant
                i <= self.entries.len(),
                views(entries@) == self@.take(i as int),
            decreases self.entries.len() - i,
        {
            let e = (self.entries[i].0.clone(), self.entries[i].1.dup());
            proof {
                crate::text::lemma_views_push(entries@, e);
                assert(self@[i as int] == self.entries@[i as int]@);
            }
            entries.push(e);
            i += 1;
            assert(self@.take(i as int) =~= self@.take(i - 1).push(self@[i - 1]));
        }
        assert(self@.take(i as int) =~= self@);
        Table { entries }
    }
}

} // verus!
