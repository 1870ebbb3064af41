//! Keyword to value map of a FITS header, kept sorted by keyword.

use vstd::prelude::*;
use vstd::string::StringExecFns;
use crate::text::chars_of;

verus! {

broadcast use vstd::string::group_string_axioms;

/// `a` comes before `b` in lexicographic order of characters (code points).
pub open spec fn str_less(a: Seq<char>, b: Seq<char>) -> bool
    decreases a.len(),
{
    if a.len() == 0 {
        b.len() > 0
    } else if b.len() == 0 {
        false
    } else if a[0] != b[0] {
        a[0] < b[0]
    } else {
        str_less(a.drop_first(), b.drop_first())
    }
}

/// No string comes before itself.
pub proof fn lemma_str_less_irreflexive(a: Seq<char>)
    ensures
        !str_less(a, a),
    decreases a.len(),
{
    if a.len() > 0 {
        lemma_str_less_irreflexive(a.drop_first());
    }
}

/// Of two different strings one comes before the other, and not both ways.
pub proof fn lemma_str_less_total(a: Seq<char>, b: Seq<char>)
    ensures
        a != b ==> (str_less(a, b) || str_less(b, a)),
        !(str_less(a, b) && str_less(b, a)),
    decreases a.len(),
{
    if a.len() > 0 && b.len() > 0 && a[0] == b[0] {
        lemma_str_less_total(a.drop_first(), b.drop_first());
        if a.drop_first() == b.drop_first() {
            assert(a =~= seq![a[0]] + a.drop_first());
            assert(b =~= seq![b[0]] + b.drop_first());
        }
    } else if a.len() == 0 && b.len() == 0 {
        assert(a =~= b);
    }
}

/// Lexicographic order is transitive.
pub proof fn lemma_str_less_transitive(a: Seq<char>, b: Seq<char>, c: Seq<char>)
    requires
        str_less(a, b),
        str_less(b, c),
    ensures
        str_less(a, c),
    decreases a.len(),
{
    if a.len() > 0 && b.len() > 0 && c.len() > 0 && a[0] == b[0] && b[0] == c[0] {
        lemma_str_less_transitive(a.drop_first(), b.drop_first(), c.drop_first());
    }
}

/// Whether the characters `a` come before the characters `b`.
fn chars_less(a: &Vec<char>, b: &Vec<char>) -> (r: bool)
    ensures
        r == str_less(a@, b@),
{
    let mut i: usize = 0;
    proof {
        assert(a@.subrange(0, a@.len() as int) =~= a@);
        assert(b@.subrange(0, b@.len() as int) =~= b@);
    }
    while i < a.len() && i < b.len() && a[i] == b[i]
        invariant
            i <= a@.len(),
            i <= b@.len(),
            str_less(a@, b@) == str_less(a@.subrange(i as int, a@.len() as int), b@.subrange(i as int, b@.len() as int)),
        decreases a@.len() - i,
    {
        proof {
            let sa = a@.subrange(i as int, a@.len() as int);
            let sb = b@.subrange(i as int, b@.len() as int);
            assert(sa.drop_first() =~= a@.subrange(i as int + 1, a@.len() as int));
            assert(sb.drop_first() =~= b@.subrange(i as int + 1, b@.len() as int));
        }
        i = i + 1;
    }
    if i == a.len() {
        i < b.len()
    } else if i == b.len() {
        false
    } else {
        a[i] < b[i]
    }
}

/// Whether `a` comes before `b`.
pub fn string_less(a: &str, b: &str) -> (r: bool)
    ensures
        r == str_less(a@, b@),
{
    let ca = chars_of(a);
    let cb = chars_of(b);
    chars_less(&ca, &cb)
}

/// Keys strictly ascending: sorted and without repeats.
pub open spec fn keys_ascending(es: Seq<(Seq<char>, Seq<char>)>) -> bool {
    forall|i: int, j: int| 0 <= i < j < es.len() ==> str_less(#[trigger] es[i].0, #[trigger] es[j].0)
}

/// The value of the last entry of `es` with key `k`.
pub open spec fn value_of(es: Seq<(Seq<char>, Seq<char>)>, k: Seq<char>) -> Seq<char>
    decreases es.len(),
{
    if es.len() == 0 {
        Seq::empty()
    } else if es.last().0 == k {
        es.last().1
    } else {
        value_of(es.drop_last(), k)
    }
}

/// The map whose entries are `es`.
pub open spec fn map_of(es: Seq<(Seq<char>, Seq<char>)>) -> Map<Seq<char>, Seq<char>> {
    Map::new(
        |k: Seq<char>| exists|i: int| 0 <= i < es.len() && #[trigger] es[i].0 == k,
        |k: Seq<char>| value_of(es, k),
    )
}

/// With ascending keys, an entry's value is the value of its key.
proof fn lemma_value_of(es: Seq<(Seq<char>, Seq<char>)>, i: int)
    requires
        keys_ascending(es),
        0 <= i < es.len(),
    ensures
        value_of(es, es[i].0) == es[i].1,
    decreases es.len(),
{
    if i < es.len() - 1 {
        assert(str_less(es[i].0, es[es.len() - 1].0));
        lemma_str_less_irreflexive(es[i].0);
        let d = es.drop_last();
        assert(keys_ascending(d)) by {
            assert forall|a: int, b: int| 0 <= a < b < d.len() implies str_less(#[trigger] d[a].0, #[trigger] d[b].0) by {
                assert(str_less(es[a].0, es[b].0));
            }
        }
        lemma_value_of(d, i);
    }
}

/// With ascending keys, entry `i` is the map's value at its key.
pub proof fn lemma_map_of_entry(es: Seq<(Seq<char>, Seq<char>)>, i: int)
    requires
        keys_ascending(es),
        0 <= i < es.len(),
    ensures
        map_of(es).dom().contains(es[i].0),
        map_of(es)[es[i].0] == es[i].1,
{
    let k = es[i].0;
    assert(exists|j: int| 0 <= j < es.len() && #[trigger] es[j].0 == k);
    lemma_value_of(es, i);
}

/// A FITS header: each keyword once, with its value, kept in ascending order
/// of keyword.
#[derive(Debug)]
pub struct HeaderMap {
    entries: Vec<(String, String)>,
}

impl HeaderMap {
    /// The entries as character sequences, in ascending order of keyword.
    pub closed spec fn spec_entries(&self) -> Seq<(Seq<char>, Seq<char>)> {
        Seq::new(self.entries@.len(), |i: int| (self.entries@[i].0@, self.entries@[i].1@))
    }

    #[verifier::type_invariant]
    spec fn ascending(&self) -> bool {
        keys_ascending(self.spec_entries())
    }

    /// An empty header.
    pub fn new() -> (r: Self)
        ensures
            r.spec_entries() == Seq::<(Seq<char>, Seq<char>)>::empty(),
            r@ == Map::<Seq<char>, Seq<char>>::empty(),
    {
        let r = HeaderMap { entries: Vec::new() };
        proof {
            assert(r.spec_entries() =~= Seq::<(Seq<char>, Seq<char>)>::empty());
            assert(map_of(r.spec_entries()) =~= Map::<Seq<char>, Seq<char>>::empty());
        }
        r
    }

    /// A copy of this header.
    pub fn duplicate(&self) -> (r: Self)
        ensures
            r.spec_entries() == self.spec_entries(),
            r@ == self@,
    {
        proof {
            use_type_invariant(self);
        }
        let mut entries: Vec<(String, String)> = Vec::new();
        let mut i: usize = 0;
        while i < self.entries.len()
            invariant
                i <= self.entries@.len(),
                entries@.len() == i,
                forall|j: int| 0 <= j < i ==> (#[trigger] entries@[j]).0@ == self.entries@[j].0@ && entries@[j].1@ == self.entries@[j].1@,
            decreases self.entries@.len() - i,
        {
            let k = self.entries[i].0.clone();
            let v = self.entries[i].1.clone();
            entries.push((k, v));
            i = i + 1;
        }
        proof {
            assert(Seq::new(entries@.len(), |j: int| (entries@[j].0@, entries@[j].1@)) =~= self.spec_entries());
        }
        HeaderMap { entries }
    }

    /// Number of keywords; the entries ascend strictly by keyword.
    pub fn len(&self) -> (r: usize)
        ensures
            r == self.spec_entries().len(),
            keys_ascending(self.spec_entries()),
    {
        proof {
            use_type_invariant(self);
        }
        self.entries.len()
    }

    /// Entry `i` in ascending order of keyword.
    pub fn entry(&self, i: usize) -> (r: (&String, &String))
        requires
            i < self.spec_entries().len(),
        ensures
            (r.0@, r.1@) == self.spec_entries()[i as int],
    {
        (&self.entries[i].0, &self.entries[i].1)
    }

    /// Position of the first entry whose key is not before `key`, and whether
    /// that entry's key is `key`.
    fn locate(&self, key: &Vec<char>) -> (r: (usize, bool))
        ensures
            r.0 <= self.spec_entries().len(),
            forall|j: int| 0 <= j < r.0 ==> str_less(#[trigger] self.spec_entries()[j].0, key@),
            r.1 ==> r.0 < self.spec_entries().len() && self.spec_entries()[r.0 as int].0 == key@,
            !r.1 ==> forall|j: int| r.0 <= j < self.spec_entries().len() ==> str_less(key@, #[trigger] self.spec_entries()[j].0),
    {
        proof {
            use_type_invariant(self);
        }
        let ghost es = self.spec_entries();
        let mut i: usize = 0;
        while i < self.entries.len()
            invariant
                es == self.spec_entries(),
                keys_ascending(es),
                i <= es.len(),
                forall|j: int| 0 <= j < i ==> str_less(#[trigger] es[j].0, key@),
            decreases es.len() - i,
        {
            let k = chars_of(self.entries[i].0.as_str());
            if !chars_less(&k, key) {
                let eq = !chars_less(key, &k);
                proof {
                    lemma_str_less_total(k@, key@);
                    if !eq {
                        assert forall|j: int| i <= j < es.len() implies str_less(key@, #[trigger] es[j].0) by {
                            if j > i {
                                assert(str_less(es[i as int].0, es[j].0));
                                lemma_str_less_transitive(key@, es[i as int].0, es[j].0);
                            }
                        }
                    }
                }
                return (i, eq);
            }
            i = i + 1;
        }
        (i, false)
    }

    /// The value stored for `key`.
    pub fn get(&self, key: &str) -> (r: Option<&String>)
        ensures
            match r {
                Some(v) => self@.dom().contains(key@) && v@ == self@[key@],
                None => !self@.dom().contains(key@),
            },
    {
        proof {
            use_type_invariant(self);
        }
        let k = chars_of(key);
        let (i, found) = self.locate(&k);
        proof {
            let es = self.spec_entries();
            if found {
                lemma_map_of_entry(es, i as int);
            } else {
                assert forall|j: int| 0 <= j < es.len() implies #[trigger] es[j].0 != key@ by {
                    if j < i {
                        assert(str_less(es[j].0, key@));
                    } else {
                        assert(str_less(key@, es[j].0));
                    }
                    lemma_str_less_irreflexive(key@);
                }
            }
        }
        if found {
            Some(&self.entries[i].1)
        } else {
            None
        }
    }

    /// Whether `key` has a value.
    pub fn contains_key(&self, key: &str) -> (r: bool)
        ensures
            r == self@.dom().contains(key@),
    {
        self.get(key).is_some()
    }

    /// Stores `value` for `key`, replacing any earlier value.
    pub fn insert(&mut self, key: String, value: String)
        ensures
            final(self)@ == old(self)@.insert(key@, value@),
    {
        proof {
            use_type_invariant(&*self);
        }
        let ghost es = self.spec_entries();
        let ghost old_map = self@;
        let k = chars_of(key.as_str());
        let (i, found) = self.locate(&k);
        let ghost kv = (key@, value@);
        let mut entries: Vec<(String, String)> = Vec::new();
        std::mem::swap(&mut entries, &mut self.entries);
        if found {
            entries.set(i, (key, value));
        } else {
            entries.insert(i, (key, value));
        }
        proof {
            let es2 = Seq::new(entries@.len(), |j: int| (entries@[j].0@, entries@[j].1@));
            if found {
                assert(es2 =~= es.update(i as int, kv));
            } else {
                assert(es2 =~= es.insert(i as int, kv));
            }
            lemma_insert_view(es, es2, i as int, found, kv);
        }
        self.entries = entries;
    }
}

impl View for HeaderMap {
    type V = Map<Seq<char>, Seq<char>>;

    closed spec fn view(&self) -> Map<Seq<char>, Seq<char>> {
        map_of(self.spec_entries())
    }
}

/// Placing `kv` at its sorted position keeps keys ascending and stores it in the map.
proof fn lemma_insert_view(es: Seq<(Seq<char>, Seq<char>)>, es2: Seq<(Seq<char>, Seq<char>)>, i: int, found: bool,
    kv: (Seq<char>, Seq<char>))
    requires
        keys_ascending(es),
        0 <= i <= es.len(),
        forall|j: int| 0 <= j < i ==> str_less(#[trigger] es[j].0, kv.0),
        found ==> i < es.len() && es[i].0 == kv.0 && es2 == es.update(i, kv),
        !found ==> (forall|j: int| i <= j < es.len() ==> str_less(kv.0, #[trigger] es[j].0)) && es2 == es.insert(i, kv),
    ensures
        keys_ascending(es2),
        map_of(es2) == map_of(es).insert(kv.0, kv.1),
{
    assert(keys_ascending(es2)) by {
        assert forall|a: int, b: int| 0 <= a < b < es2.len() implies str_less(#[trigger] es2[a].0, #[trigger] es2[b].0) by {
            if found {
                if a == i {
                    assert(str_less(es[a].0, es[b].0));
                } else if b == i {
                    assert(str_less(es[a].0, es[b].0));
                } else {
                    assert(str_less(es[a].0, es[b].0));
                }
            } else {
                if a < i && b < i {
                    assert(str_less(es[a].0, es[b].0));
                } else if a < i && b == i {
                } else if a < i && b > i {
                    assert(str_less(es[a].0, es[b - 1].0));
                } else if a == i {
                    assert(str_less(kv.0, es[b - 1].0));
                } else {
                    assert(str_less(es[a - 1].0, es[b - 1].0));
                }
            }
        }
    }
    let m = map_of(es);
    let m2 = map_of(es2);
    let target = m.insert(kv.0, kv.1);
    let ii = if found { i } else { i };
    assert(es2[ii] == kv);
    lemma_map_of_entry(es2, ii);
    assert forall|k: Seq<char>| #[trigger] m2.dom().contains(k) == target.dom().contains(k) by {
        if m2.dom().contains(k) {
            let j = choose|j: int| 0 <= j < es2.len() && #[trigger] es2[j].0 == k;
            if k != kv.0 {
                if found {
                    assert(es[j].0 == k);
                } else if j < i {
                    assert(es[j].0 == k);
                } else {
                    assert(es[j - 1].0 == k);
                }
            }
        }
        if m.dom().contains(k) && k != kv.0 {
            let j = choose|j: int| 0 <= j < es.len() && #[trigger] es[j].0 == k;
            if found || j < i {
                assert(es2[j].0 == k);
            } else {
                assert(es2[j + 1].0 == k);
            }
        }
    }
    assert forall|k: Seq<char>| #[trigger] m2.dom().contains(k) implies m2[k] == target[k] by {
        if k != kv.0 {
            let j = choose|j: int| 0 <= j < es2.len() && #[trigger] es2[j].0 == k;
            lemma_map_of_entry(es2, j);
            let jo = if found || j < i { j } else { j - 1 };
            assert(es[jo] == es2[j]);
            lemma_map_of_entry(es, jo);
        }
    }
    assert(m2 =~= target);
}

/// A lookup after storing a keyword's value gives that value, and leaves
/// every other keyword's value as it was.
pub proof fn law_lookup_after_insert(h: Map<Seq<char>, Seq<char>>, k: Seq<char>, v: Seq<char>, other: Seq<char>)
    requires
        other != k,
    ensures
        h.insert(k, v).dom().contains(k),
        h.insert(k, v)[k] == v,
        h.insert(k, v).dom().contains(other) == h.dom().contains(other),
        h.dom().contains(other) ==> h.insert(k, v)[other] == h[other],
{
}

} // verus!
