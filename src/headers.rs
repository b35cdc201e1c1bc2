//! Ordered string maps: header fields and query arguments.
use vstd::prelude::*;

verus! {

/// A key/value pair as text.
pub type Entry = (Seq<char>, Seq<char>);

/// The first index at or after `i` whose key is `k`, or -1.
pub open spec fn key_pos(h: Seq<Entry>, k: Seq<char>, i: int) -> int
    decreases h.len() - i,
{
    if i < 0 || i >= h.len() {
        -1
    } else if h[i].0 == k {
        i
    } else {
        key_pos(h, k, i + 1)
    }
}

/// `h` with `k` set to `v`: an existing key keeps its place and takes the new
/// value, a new key goes last.
pub open spec fn with_entry(h: Seq<Entry>, k: Seq<char>, v: Seq<char>) -> Seq<Entry> {
    let p = key_pos(h, k, 0);
    if p >= 0 {
        h.update(p, (k, v))
    } else {
        h.push((k, v))
    }
}

/// The value stored under `k`.
pub open spec fn value_of(h: Seq<Entry>, k: Seq<char>) -> Option<Seq<char>> {
    let p = key_pos(h, k, 0);
    if p >= 0 {
        Some(h[p].1)
    } else {
        None
    }
}

pub proof fn lemma_key_pos_bounds(h: Seq<Entry>, k: Seq<char>, i: int)
    ensures
        key_pos(h, k, i) == -1 || (i <= key_pos(h, k, i) < h.len() && h[key_pos(h, k, i)].0 == k),
        key_pos(h, k, i) == -1 ==> forall|j: int| 0 <= i <= j < h.len() ==> h[j].0 != k,
    decreases h.len() - i,
{
    if 0 <= i < h.len() && h[i].0 != k {
        lemma_key_pos_bounds(h, k, i + 1);
    }
}

/// Header fields in insertion order; inserting a key that is present replaces
/// its value in place.
pub struct HttpHeaders {
    entries: Vec<(String, String)>,
}

impl View for HttpHeaders {
    type V = Seq<Entry>;

    closed spec fn view(&self) -> Seq<Entry> {
        self.entries@.map_values(|e: (String, String)| (e.0@, e.1@))
    }
}

impl HttpHeaders {
    pub fn new() -> (r: HttpHeaders)
        ensures
            r@ == Seq::<Entry>::empty(),
    {
        let r = HttpHeaders { entries: Vec::new() };
        assert(r@ =~= Seq::<Entry>::empty());
        r
    }

    fn position(&self, k: &String) -> (r: Option<usize>)
        ensures
            match r {
                Some(i) => key_pos(self@, k@, 0) == i as int && i < self@.len(),
                None => key_pos(self@, k@, 0) == -1,
            },
    {
        proof {
            lemma_key_pos_bounds(self@, k@, 0);
        }
        let mut i: usize = 0;
        while i < self.entries.len()
            invariant
                i <= self.entries@.len(),
                self@.len() == self.entries@.len(),
                key_pos(self@, k@, i as int) == key_pos(self@, k@, 0),
            decreases self.entries@.len() - i,
        {
            assert(self@[i as int].0 == self.entries@[i as int].0@);
            if self.entries[i].0 == *k {
                return Some(i);
            }
            i = i + 1;
        }
        None
    }

    /// Sets `key` to `value`.
    pub fn insert(&mut self, key: &str, value: &str)
        ensures
            final(self)@ == with_entry(old(self)@, key@, value@),
    {
        let k = key.to_owned();
        let v = value.to_owned();
        self.insert_owned(k, v);
    }

    pub fn insert_owned(&mut self, k: String, v: String)
        ensures
            final(self)@ == with_entry(old(self)@, k@, v@),
    {
        let ghost ks = k@;
        let ghost vs = v@;
        match self.position(&k) {
            Some(i) => {
                self.entries.set(i, (k, v));
                assert(self@ =~= with_entry(old(self)@, ks, vs));
            },
            None => {
                self.entries.push((k, v));
                assert(self@ =~= with_entry(old(self)@, ks, vs));
            },
        }
    }

    /// The value stored under `key`.
    pub fn get(&self, key: &str) -> (r: Option<&String>)
        ensures
            match r {
                Some(v) => value_of(self@, key@) == Some(v@),
                None => value_of(self@, key@) is None,
            },
    {
        let k = key.to_owned();
        match self.position(&k) {
            Some(i) => Some(&self.entries[i].1),
            None => None,
        }
    }

    pub fn contains_key(&self, key: &str) -> (r: bool)
        ensures
            r == (value_of(self@, key@) is Some),
    {
        let k = key.to_owned();
        self.position(&k).is_some()
    }

    pub fn len(&self) -> (r: usize)
        ensures
            r == self@.len(),
    {
        self.entries.len()
    }

    pub fn is_empty(&self) -> (r: bool)
        ensures
            r == (self@.len() == 0),
    {
        self.entries.len() == 0
    }

    /// The key and value at position `i` of the insertion order.
    pub fn entry(&self, i: usize) -> (r: (&String, &String))
        requires
            i < self@.len(),
        ensures
            (r.0@, r.1@) == self@[i as int],
    {
        (&self.entries[i].0, &self.entries[i].1)
    }

    /// A copy with the same entries.
    pub fn clone(&self) -> (r: HttpHeaders)
        ensures
            r@ == self@,
    {
        let mut out: Vec<(String, String)> = Vec::new();
        let mut i: usize = 0;
        while i < self.entries.len()
            invariant
                i <= self.entries@.len(),
                out@.len() == i,
                forall|j: int|
                    0 <= j < i ==> (#[trigger] out@[j]).0@ == self.entries@[j].0@ && out@[j].1@
                        == self.entries@[j].1@,
            decreases self.entries@.len() - i,
        {
            let k = self.entries[i].0.clone();
            let v = self.entries[i].1.clone();
            out.push((k, v));
            i = i + 1;
        }
        let r = HttpHeaders { entries: out };
        assert(r@ =~= self@);
        r
    }
}

/// Query arguments of a request, in insertion order, one value per key.
pub struct QueryArgs {
    pairs: HttpHeaders,
}

impl View for QueryArgs {
    type V = Seq<Entry>;

    closed spec fn view(&self) -> Seq<Entry> {
        self.pairs@
    }
}

impl QueryArgs {
    pub fn new() -> (r: QueryArgs)
        ensures
            r@ == Seq::<Entry>::empty(),
    {
        QueryArgs { pairs: HttpHeaders::new() }
    }

    pub fn insert(&mut self, key: String, value: String)
        ensures
            final(self)@ == with_entry(old(self)@, key@, value@),
    {
        self.pairs.insert_owned(key, value);
    }

    pub fn get(&self, key: &str) -> (r: Option<&String>)
        ensures
            match r {
                Some(v) => value_of(self@, key@) == Some(v@),
                None => value_of(self@, key@) is None,
            },
    {
        self.pairs.get(key)
    }

    pub fn len(&self) -> (r: usize)
        ensures
            r == self@.len(),
    {
        self.pairs.len()
    }

    pub fn is_empty(&self) -> (r: bool)
        ensures
            r == (self@.len() == 0),
    {
        self.pairs.is_empty()
    }

    pub fn entry(&self, i: usize) -> (r: (&String, &String))
        requires
            i < self@.len(),
        ensures
            (r.0@, r.1@) == self@[i as int],
    {
        self.pairs.entry(i)
    }

    pub fn clone(&self) -> (r: QueryArgs)
        ensures
            r@ == self@,
    {
        QueryArgs { pairs: self.pairs.clone() }
    }
}

} // verus!
