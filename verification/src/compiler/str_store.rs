use vstd::prelude::*;

use crate::index_vec::Indexer;
use crate::unicode::str_equal;

verus! {

/// An interned string that does not own its underlying data. MStr values from one store can be
/// compared directly for string equality.
#[derive(Debug, Clone, Copy, PartialEq, Eq, Hash, Structural)]
pub struct MStr(u32);

impl Indexer for MStr {
    closed spec fn id(&self) -> nat {
        self.0 as nat
    }

    proof fn lemma_id(a: Self, b: Self) {
    }

    fn index(&self) -> (r: usize) {
        self.0 as usize
    }

    fn from_index(value: usize) -> (r: Self) {
        proof {
            crate::index_vec::lemma_u32_wrap(value);
        }
        MStr(value as u32)
    }
}

/// The store of `s` after interning `t`: unchanged if it holds `t` already, else `t` is added at
/// the end.
pub open spec fn interned<T>(s: Seq<T>, t: T) -> Seq<T> {
    if s.contains(t) {
        s
    } else {
        s.push(t)
    }
}

/// Converts normal Rust strings into interned MStr values.
pub struct StrStore {
    strs: Vec<String>,
}

impl View for StrStore {
    type V = Seq<Seq<char>>;

    closed spec fn view(&self) -> Seq<Seq<char>> {
        self.strs@.map_values(|s: String| s@)
    }
}

impl StrStore {
    /// Each string is held once.
    pub open spec fn wf(&self) -> bool {
        self@.no_duplicates()
    }

    pub fn new() -> (r: Self)
        ensures
            r.wf(),
            r@ == Seq::<Seq<char>>::empty(),
    {
        let r = StrStore { strs: Vec::new() };
        assert(r@ =~= Seq::<Seq<char>>::empty());
        r
    }

    /// Interns `s`: the id of the string equal to `s`, added to the store if it was not there.
    pub fn get_mstr(&mut self, s: &str) -> (r: MStr)
        requires
            old(self).wf(),
        ensures
            final(self).wf(),
            final(self)@ == interned(old(self)@, s@),
            final(self)@.contains(s@),
            r.id() == (final(self)@.index_of(s@) as u32) as nat,
            r.id() <= final(self)@.index_of(s@) < final(self)@.len(),
    {
        let n = self.strs.len();
        let mut i: usize = 0;
        while i < n
            invariant
                n == self.strs@.len(),
                i <= n,
                self.wf(),
                forall|k: int| 0 <= k < i ==> self@[k] != s@,
            decreases n - i,
        {
            if str_equal(self.strs[i].as_str(), s) {
                proof {
                    assert(self@[i as int] == s@);
                    assert(self@.contains(s@));
                    let j = self@.index_of(s@);
                    assert(self@[j] == s@);
                    assert(j == i) by {
                        if j != i {
                            assert(self@[j] != self@[i as int]);
                        }
                    }
                }
                return MStr::from_index(i);
            }
            i = i + 1;
        }
        proof {
            assert(!self@.contains(s@));
        }
        let ghost old_view = self@;
        self.strs.push(s.to_owned());
        proof {
            assert(self@ =~= old_view.push(s@));
            assert(self@[n as int] == s@);
            let j = self@.index_of(s@);
            assert(self@.contains(s@));
            assert(self@[j] == s@);
            assert(j == n);
        }
        MStr::from_index(n)
    }

    /// The number of strings held.
    pub fn len(&self) -> (r: usize)
        ensures
            r == self@.len(),
    {
        self.strs.len()
    }

    /// The string that `mstr` stands for.
    pub fn get_str(&self, mstr: MStr) -> (r: &str)
        requires
            mstr.id() < self@.len(),
        ensures
            r@ == self@[mstr.id() as int],
    {
        self.strs[mstr.index()].as_str()
    }
}

/// `id` names `text` in `store`: the text is there, and the id is its place (as a 32-bit id).
pub open spec fn names_text(store: Seq<Seq<char>>, id: MStr, text: Seq<char>) -> bool {
    &&& store.contains(text)
    &&& id.id() == (store.index_of(text) as u32) as nat
}

/// In a store without duplicates, the id of a string's place names that string.
pub proof fn lemma_names_own_text(store: Seq<Seq<char>>, id: MStr)
    requires
        store.no_duplicates(),
        id.id() < store.len(),
    ensures
        names_text(store, id, store[id.id() as int]),
{
    let i = id.id() as int;
    assert(store.contains(store[i]));
    let j = store.index_of(store[i]);
    assert(store[j] == store[i]);
    assert(j == i);
    MStr::lemma_id(id, id);
    assert(i <= u32::MAX);
}

/// A store that grows without duplicates keeps each string it held at its place.
pub proof fn lemma_index_of_prefix<T>(a: Seq<T>, b: Seq<T>, t: T)
    requires
        a.is_prefix_of(b),
        b.no_duplicates(),
        a.contains(t),
    ensures
        b.contains(t),
        b.index_of(t) == a.index_of(t),
{
    let i = a.index_of(t);
    assert(a[i] == t);
    assert(b[i] == a[i]) by {
        assert(a[i] == b.subrange(0, a.len() as int)[i]);
    }
    assert(b.contains(t));
    let j = b.index_of(t);
    assert(b[j] == t);
    assert(j == i);
}

/// A store that grows without duplicates keeps each id naming its string.
pub proof fn lemma_names_text_grow(a: Seq<Seq<char>>, b: Seq<Seq<char>>, id: MStr, text: Seq<char>)
    requires
        a.is_prefix_of(b),
        b.no_duplicates(),
        names_text(a, id, text),
    ensures
        names_text(b, id, text),
{
    lemma_index_of_prefix(a, b, text);
}

/// Two ids of one store are equal exactly when they stand for equal strings.
pub proof fn lemma_mstr_eq_iff_str_eq(store: Seq<Seq<char>>, a: MStr, b: MStr)
    requires
        store.no_duplicates(),
        a.id() < store.len(),
        b.id() < store.len(),
    ensures
        (a == b) <==> (store[a.id() as int] == store[b.id() as int]),
{
    MStr::lemma_id(a, b);
}

/// Interning keeps every string that the store held at its place, and afterwards the store holds
/// the interned string, once, at the place that its id names (while ids fit in 32 bits).
pub proof fn lemma_interned_lookup<T>(store: Seq<T>, s: T)
    requires
        store.no_duplicates(),
        interned(store, s).len() <= u32::MAX + 1,
    ensures
        interned(store, s).no_duplicates(),
        forall|k: int| 0 <= k < store.len() ==> #[trigger] interned(store, s)[k] == store[k],
        0 <= interned(store, s).index_of(s) < interned(store, s).len(),
        interned(store, s)[interned(store, s).index_of(s)] == s,
        ((interned(store, s).index_of(s) as u32) as nat) == interned(store, s).index_of(s),
{
    let t = interned(store, s);
    lemma_interned_lookup_dups(store, s);
    if !store.contains(s) {
        assert(t[store.len() as int] == s);
    }
    assert(t.contains(s));
}

/// Interning a string keeps the id of every string that the store already held.
pub proof fn lemma_interned_keeps_index<T>(store: Seq<T>, s: T, t: T)
    requires
        store.no_duplicates(),
        store.contains(t),
    ensures
        interned(store, s).contains(t),
        interned(store, s).index_of(t) == store.index_of(t),
{
    let u = interned(store, s);
    let k = store.index_of(t);
    assert(store[k] == t);
    if !store.contains(s) {
        assert(u[k] == t);
        assert(u[store.len() as int] == s);
        lemma_interned_lookup_dups(store, s);
    }
    assert(u[k] == t);
    assert(u.contains(t));
    let j = u.index_of(t);
    assert(u[j] == t);
    if !store.contains(s) {
        assert(u.no_duplicates());
    }
    assert(j == k);
}

pub proof fn lemma_interned_lookup_dups<T>(store: Seq<T>, s: T)
    requires
        store.no_duplicates(),
    ensures
        interned(store, s).no_duplicates(),
{
    let t = interned(store, s);
    if !store.contains(s) {
        assert forall|i: int, j: int| 0 <= i < t.len() && 0 <= j < t.len() && i != j implies t[i]
            != t[j] by {
            if i == store.len() {
                assert(t[j] == store[j]);
            } else if j == store.len() {
                assert(t[i] == store[i]);
            }
        }
    }
}

/// Interning keeps everything the store held, at its place.
pub proof fn lemma_interned_prefix<T>(store: Seq<T>, s: T)
    ensures
        store.is_prefix_of(interned(store, s)),
        interned(store, s).len() <= store.len() + 1,
{
    assert(store =~= interned(store, s).subrange(0, store.len() as int));
}

/// A prefix of a prefix is a prefix.
pub proof fn lemma_seq_prefix_trans<T>(a: Seq<T>, b: Seq<T>, c: Seq<T>)
    requires
        a.is_prefix_of(b),
        b.is_prefix_of(c),
    ensures
        a.is_prefix_of(c),
{
    assert forall|i: int| 0 <= i < a.len() implies a[i] == c[i] by {
        assert(a[i] == b.subrange(0, a.len() as int)[i]);
        assert(b[i] == c.subrange(0, b.len() as int)[i]);
    }
    assert(a =~= c.subrange(0, a.len() as int));
}

/// Interning a string a second time changes nothing and gives the same id.
pub proof fn lemma_interned_idempotent<T>(store: Seq<T>, s: T)
    ensures
        interned(interned(store, s), s) == interned(store, s),
{
    if !store.contains(s) {
        assert(interned(store, s)[store.len() as int] == s);
    }
}

} // verus!
