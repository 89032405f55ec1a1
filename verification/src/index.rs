//! Insertion-ordered string keys, alone and in pairs: each distinct key gets
//! the position of its first appearance.

use crate::sequences::are_indices;
use vstd::hash_map::StringHashMap;
use vstd::prelude::*;

verus! {

/// The distinct elements of `s`, each at its first appearance.
pub open spec fn first_seen<T>(s: Seq<T>) -> Seq<T>
    decreases s.len(),
{
    if s.len() == 0 {
        Seq::empty()
    } else {
        let before = first_seen(s.drop_last());
        if before.contains(s.last()) {
            before
        } else {
            before.push(s.last())
        }
    }
}

/// `first_seen` holds the same elements, none of them twice.
pub proof fn lemma_first_seen<T>(s: Seq<T>)
    ensures
        first_seen(s).no_duplicates(),
        forall|x: T| #[trigger] first_seen(s).contains(x) <==> s.contains(x),
    decreases s.len(),
{
    if s.len() > 0 {
        let before = first_seen(s.drop_last());
        lemma_first_seen(s.drop_last());
        assert forall|x: T| #[trigger] first_seen(s).contains(x) implies s.contains(x) by {
            if before.contains(x) {
                assert(s.drop_last().contains(x));
                let k = choose|k: int| 0 <= k < s.drop_last().len() && s.drop_last()[k] == x;
                assert(s[k] == x);
            } else {
                assert(x == s.last());
                assert(s[s.len() - 1] == x);
            }
        }
        assert forall|x: T| s.contains(x) implies #[trigger] first_seen(s).contains(x) by {
            let k = choose|k: int| 0 <= k < s.len() && s[k] == x;
            if k < s.len() - 1 {
                assert(s.drop_last()[k] == x);
                assert(s.drop_last().contains(x));
                assert(before.contains(x));
                let m = choose|m: int| 0 <= m < before.len() && before[m] == x;
                assert(first_seen(s)[m] == x);
            } else if !before.contains(x) {
                assert(first_seen(s)[before.len() as int] == x);
            }
        }
    } else {
        assert forall|x: T| !(#[trigger] first_seen(s).contains(x)) && !s.contains(x) by {}
    }
}

/// Whether element `i` equals none before it.
pub open spec fn appears_first<T>(s: Seq<T>, i: int) -> bool {
    forall|j: int| 0 <= j < i ==> #[trigger] s[j] != s[i]
}

/// The distinct elements stand in the order of their first appearances: each is
/// taken from there, and from nowhere else.
pub proof fn law_first_seen_takes_first_appearances<T>(s: Seq<T>) -> (src: Seq<int>)
    ensures
        are_indices(src, s.len() as int),
        src.len() == first_seen(s).len(),
        forall|t: int| 0 <= t < src.len() ==> s[#[trigger] src[t]] == first_seen(s)[t],
        forall|i: int| 0 <= i < s.len() ==> (src.contains(i) <==> #[trigger] appears_first(s, i)),
    decreases s.len(),
{
    if s.len() == 0 {
        Seq::empty()
    } else {
        let d = s.drop_last();
        let n = d.len() as int;
        let before = law_first_seen_takes_first_appearances(d);
        lemma_first_seen(d);
        let fresh = !first_seen(d).contains(s.last());
        let src = if fresh {
            before.push(n)
        } else {
            before
        };
        assert forall|t: int| 0 <= t < src.len() implies s[#[trigger] src[t]] == first_seen(
            s,
        )[t] by {
            if t < before.len() {
                assert(src[t] == before[t]);
                assert(d[before[t]] == s[before[t]]);
            }
        }
        assert forall|i: int| 0 <= i < s.len() implies (src.contains(i)
            <==> #[trigger] appears_first(s, i)) by {
            if i < n {
                assert(appears_first(s, i) <==> appears_first(d, i)) by {
                    assert forall|j: int| 0 <= j <= i implies #[trigger] d[j] == s[j] by {}
                    if appears_first(d, i) {
                        assert forall|j: int| 0 <= j < i implies #[trigger] s[j] != s[i] by {
                            assert(d[j] != d[i]);
                        }
                    }
                }
                if before.contains(i) {
                    let t = choose|t: int| 0 <= t < before.len() && before[t] == i;
                    assert(src[t] == i);
                }
                if src.contains(i) {
                    let t = choose|t: int| 0 <= t < src.len() && src[t] == i;
                    assert(before[t] == i);
                }
            } else {
                if fresh {
                    assert(src[before.len() as int] == n);
                    assert forall|j: int| 0 <= j < n implies #[trigger] s[j] != s[n] by {
                        assert(d[j] == s[j]);
                        assert(d.contains(d[j]));
                    }
                } else {
                    assert(d.contains(s.last()));
                    let j = choose|j: int| 0 <= j < d.len() && d[j] == s.last();
                    assert(s[j] == s[n]);
                    if src.contains(n) {
                        let t = choose|t: int| 0 <= t < src.len() && src[t] == n;
                        assert(before[t] == n);
                    }
                }
            }
        }
        src
    }
}

/// One more element adds itself at the end unless it was seen already.
pub proof fn lemma_first_seen_push<T>(s: Seq<T>, x: T)
    ensures
        first_seen(s.push(x)) == if s.contains(x) {
            first_seen(s)
        } else {
            first_seen(s).push(x)
        },
{
    lemma_first_seen(s);
    assert(s.push(x).drop_last() =~= s);
    assert(first_seen(s).contains(x) <==> s.contains(x));
}

/// Keys in order of first appearance, with a hash index from key to position.
pub struct KeyIndex {
    keys: Vec<String>,
    positions: StringHashMap<usize>,
}

impl View for KeyIndex {
    type V = Seq<Seq<char>>;

    closed spec fn view(&self) -> Seq<Seq<char>> {
        self.keys.deep_view()
    }
}

impl KeyIndex {
    /// Every key is indexed at its own position, and nothing else is indexed.
    pub closed spec fn wf(&self) -> bool {
        &&& forall|i: int|
            0 <= i < self@.len() ==> {
                &&& self.positions@.contains_key(#[trigger] self@[i])
                &&& self.positions@[self@[i]] == i
            }
        &&& forall|k: Seq<char>| #[trigger]
            self.positions@.contains_key(k) ==> self.positions@[k] < self@.len()
                && self@[self.positions@[k] as int] == k
    }

    /// No key stands at two positions.
    pub proof fn lemma_no_duplicates(&self)
        requires
            self.wf(),
        ensures
            self@.no_duplicates(),
    {
    }

    /// An index with no keys.
    pub fn new() -> (index: Self)
        ensures
            index.wf(),
            index@ == Seq::<Seq<char>>::empty(),
    {
        let index = KeyIndex { keys: Vec::new(), positions: StringHashMap::new() };
        assert(index@ =~= Seq::<Seq<char>>::empty());
        index
    }

    /// The number of keys.
    pub fn len(&self) -> (n: usize)
        ensures
            n == self@.len(),
    {
        self.keys.len()
    }

    /// The key at `pos`.
    pub fn key(&self, pos: usize) -> (key: &String)
        requires
            pos < self@.len(),
        ensures
            key@ == self@[pos as int],
    {
        &self.keys[pos]
    }

    /// The position of `key`, if it was added.
    pub fn find(&self, key: &str) -> (pos: Option<usize>)
        requires
            self.wf(),
        ensures
            match pos {
                Some(p) => p < self@.len() && self@[p as int] == key@,
                None => !self@.contains(key@),
            },
    {
        match self.positions.get(key) {
            Some(p) => Some(*p),
            None => None,
        }
    }

    /// The position of `key`, added at the end if it is new.
    pub fn find_or_add(&mut self, key: &str) -> (pos: usize)
        requires
            old(self).wf(),
        ensures
            final(self).wf(),
            final(self)@ == if old(self)@.contains(key@) {
                old(self)@
            } else {
                old(self)@.push(key@)
            },
            pos < final(self)@.len(),
            final(self)@[pos as int] == key@,
    {
        if let Some(p) = self.positions.get(key) {
            return *p;
        }
        let pos: usize = self.keys.len();
        self.keys.push(key.to_owned());
        self.positions.insert(key.to_owned(), pos);
        assert(self@ =~= old(self)@.push(key@));
        assert forall|i: int| 0 <= i < self@.len() implies {
            &&& self.positions@.contains_key(#[trigger] self@[i])
            &&& self.positions@[self@[i]] == i
        } by {
            if i < pos {
                assert(old(self).positions@.contains_key(old(self)@[i]));
            }
        }
        assert forall|k: Seq<char>| #[trigger]
            self.positions@.contains_key(k) implies self.positions@[k] < self@.len()
            && self@[self.positions@[k] as int] == k by {
            if k != key@ {
                assert(old(self).positions@.contains_key(k));
            }
        }
        pos
    }
}

/// Pairs of keys in order of first appearance, with a hash index from pair to
/// position.
pub struct PairIndex {
    pairs: Vec<(String, String)>,
    firsts: KeyIndex,
    seconds: Vec<KeyIndex>,
    positions: Vec<Vec<usize>>,
}

impl View for PairIndex {
    type V = Seq<(Seq<char>, Seq<char>)>;

    closed spec fn view(&self) -> Seq<(Seq<char>, Seq<char>)> {
        self.pairs.deep_view()
    }
}

impl PairIndex {
    /// Whether first key `i` with its second key `j` is at position `p`.
    spec fn at(&self, i: int, j: int, p: int) -> bool {
        &&& 0 <= i < self.firsts@.len()
        &&& 0 <= j < self.seconds@[i]@.len()
        &&& self.positions@[i]@[j] == p
    }

    spec fn indexed(&self, p: int) -> bool {
        exists|i: int, j: int| self.at(i, j, p)
    }

    /// Every pair is indexed at its own position, and nothing else is indexed.
    pub closed spec fn wf(&self) -> bool {
        &&& self.firsts.wf()
        &&& self.seconds@.len() == self.firsts@.len()
        &&& self.positions@.len() == self.firsts@.len()
        &&& forall|i: int|
            0 <= i < self.seconds@.len() ==> {
                &&& (#[trigger] self.seconds@[i]).wf()
                &&& self.positions@[i]@.len() == self.seconds@[i]@.len()
            }
        &&& forall|i: int, j: int, p: int| #[trigger]
            self.at(i, j, p) ==> {
                &&& 0 <= p < self@.len()
                &&& self@[p] == (self.firsts@[i], self.seconds@[i]@[j])
            }
        &&& forall|p: int|
            0 <= p < self@.len() ==> #[trigger] self.indexed(p)
    }

    /// An index with no pairs.
    pub fn new() -> (index: Self)
        ensures
            index.wf(),
            index@ == Seq::<(Seq<char>, Seq<char>)>::empty(),
    {
        let index = PairIndex {
            pairs: Vec::new(),
            firsts: KeyIndex::new(),
            seconds: Vec::new(),
            positions: Vec::new(),
        };
        assert(index@ =~= Seq::<(Seq<char>, Seq<char>)>::empty());
        index
    }

    /// The pair at `pos`.
    pub fn pair(&self, pos: usize) -> (pair: &(String, String))
        requires
            pos < self@.len(),
        ensures
            pair.deep_view() == self@[pos as int],
    {
        &self.pairs[pos]
    }

    /// The position of a pair, added at the end if it is new.
    pub fn find_or_add(&mut self, first: &str, second: &str) -> (pos: usize)
        requires
            old(self).wf(),
        ensures
            final(self).wf(),
            final(self)@ == if old(self)@.contains((first@, second@)) {
                old(self)@
            } else {
                old(self)@.push((first@, second@))
            },
            pos < final(self)@.len(),
            final(self)@[pos as int] == (first@, second@),
    {
        let ghost before = *self;
        let ghost pair = (first@, second@);
        let i: usize = self.firsts.find_or_add(first);
        if i == self.seconds.len() {
            self.seconds.push(KeyIndex::new());
            self.positions.push(Vec::new());
        }
        proof {
            before.firsts.lemma_no_duplicates();
            self.firsts.lemma_no_duplicates();
            assert(i < before.firsts@.len() || !before.firsts@.contains(first@)) by {
                if before.firsts@.contains(first@) {
                    assert(self.firsts@ == before.firsts@);
                }
            }
            assert forall|k: int| 0 <= k < before.firsts@.len() implies #[trigger] self.firsts@[k]
                == before.firsts@[k] by {}
            if i < before.firsts@.len() {
                assert(before.firsts@.contains(before.firsts@[i as int]));
            }
        }
        assert(self.seconds@.len() == self.firsts@.len());
        let ghost middle = self.seconds@[i as int];
        let ghost middle_positions = self.positions@[i as int]@;
        let j: usize = self.seconds[i].find_or_add(second);
        if j < self.positions[i].len() {
            let pos: usize = self.positions[i][j];
            proof {
                assert(middle@.contains(second@)) by {
                    if !middle@.contains(second@) {
                        assert(self.seconds@[i as int]@[j as int] == middle@[j as int]);
                        assert(middle@.contains(middle@[j as int]));
                    }
                }
                assert(before.at(i as int, j as int, pos as int));
                assert(before@[pos as int] == pair);
                assert(before@.contains(pair));
                assert(self@ == before@);
                assert forall|a: int, b: int, p: int| #[trigger] self.at(a, b, p) implies {
                    &&& 0 <= p < self@.len()
                    &&& self@[p] == (self.firsts@[a], self.seconds@[a]@[b])
                } by {
                    assert(before.at(a, b, p));
                }
                assert forall|p: int| 0 <= p < self@.len() implies #[trigger] self.indexed(
                    p,
                ) by {
                    assert(before.indexed(p));
                    let (a, b) = choose|a: int, b: int| before.at(a, b, p);
                    assert(self.at(a, b, p));
                }
            }
            return pos;
        }
        let pos: usize = self.pairs.len();
        self.pairs.push((first.to_owned(), second.to_owned()));
        self.positions[i].push(pos);
        proof {
            assert(self@ =~= before@.push(pair));
            assert(!middle@.contains(second@)) by {
                if middle@.contains(second@) {
                    assert(self.seconds@[i as int]@ == middle@);
                }
            }
            if before@.contains(pair) {
                let p = choose|p: int| 0 <= p < before@.len() && before@[p] == pair;
                assert(before.indexed(p));
                let (a, b) = choose|a: int, b: int| before.at(a, b, p);
                assert(before.firsts@[a] == first@);
                assert(a == i) by {
                    assert(self.firsts@[a] == self.firsts@[i as int]);
                }
                assert(middle@[b] == second@);
            }
            assert forall|a: int, b: int, p: int| #[trigger] self.at(a, b, p) implies {
                &&& 0 <= p < self@.len()
                &&& self@[p] == (self.firsts@[a], self.seconds@[a]@[b])
            } by {
                if a != i || b < middle_positions.len() {
                    assert(before.at(a, b, p));
                }
            }
            assert forall|p: int| 0 <= p < self@.len() implies #[trigger] self.indexed(
                p,
            ) by {
                if p < before@.len() {
                    assert(before.indexed(p));
                    let (a, b) = choose|a: int, b: int| before.at(a, b, p);
                    assert(self.at(a, b, p));
                } else {
                    assert(self.at(i as int, j as int, p));
                }
            }
        }
        pos
    }
}

} // verus!
