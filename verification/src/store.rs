use vstd::prelude::*;

verus! {

/// The value the association list binds to a key: the first matching entry,
/// scanning from the front.
pub open spec fn lookup(entries: Seq<(Vec<u8>, Vec<u8>)>, key: Seq<u8>) -> Option<Seq<u8>>
    decreases entries.len(),
{
    if entries.len() == 0 {
        None
    } else if entries[0].0@ == key {
        Some(entries[0].1@)
    } else {
        lookup(entries.drop_first(), key)
    }
}

/// Whether a key is bound.
pub open spec fn has_key(entries: Seq<(Vec<u8>, Vec<u8>)>, key: Seq<u8>) -> bool {
    lookup(entries, key) is Some
}

proof fn lemma_lookup_push(entries: Seq<(Vec<u8>, Vec<u8>)>, key: Vec<u8>, val: Vec<u8>, k: Seq<u8>)
    ensures
        lookup(entries.push((key, val)), k) == if has_key(entries, k) {
            lookup(entries, k)
        } else if k == key@ {
            Some(val@)
        } else {
            None
        },
    decreases entries.len(),
{
    if entries.len() == 0 {
        assert(entries.push((key, val)).drop_first() =~= entries);
    } else {
        assert(entries.push((key, val)).drop_first() =~= entries.drop_first().push((key, val)));
        lemma_lookup_push(entries.drop_first(), key, val, k);
    }
}

/// Compare two byte slices for equality.
pub fn bytes_eq(a: &[u8], b: &[u8]) -> (r: bool)
    ensures
        r == (a@ == b@),
{
    if a.len() != b.len() {
        assert(a@ != b@);
        return false;
    }
    let mut i: usize = 0;
    while i < a.len()
        invariant
            i <= a@.len(),
            a@.len() == b@.len(),
            forall|j: int| 0 <= j < i ==> a@[j] == b@[j],
        decreases a@.len() - i,
    {
        if a[i] != b[i] {
            return false;
        }
        i = i + 1;
    }
    proof {
        assert(a@ =~= b@);
    }
    true
}

/// A write-once map from byte-string keys to byte-string values, held as an
/// association list with unique keys.  It models one directory tree of the
/// repository: `chunks/`, `index/`, or `backup/`.
pub struct Store {
    entries: Vec<(Vec<u8>, Vec<u8>)>,
}

impl Store {
    /// The entries, in insertion order.
    pub closed spec fn view(&self) -> Seq<(Vec<u8>, Vec<u8>)> {
        self.entries@
    }

    /// Keys are never bound twice.
    pub closed spec fn wf(&self) -> bool {
        forall|i: int, j: int|
            0 <= i < j < self.entries@.len() ==> (#[trigger] self.entries@[i]).0@ != (
            #[trigger] self.entries@[j]).0@
    }

    pub fn new() -> (r: Store)
        ensures
            r.wf(),
            r@ =~= Seq::<(Vec<u8>, Vec<u8>)>::empty(),
    {
        Store { entries: Vec::new() }
    }

    pub fn len(&self) -> (r: usize)
        ensures
            r == self@.len(),
    {
        self.entries.len()
    }

    /// Whether `key` is bound.
    pub fn contains_key(&self, key: &[u8]) -> (r: bool)
        ensures
            r == has_key(self@, key@),
    {
        proof {
            assert(self.entries@.skip(0) =~= self.entries@);
        }
        let mut i: usize = 0;
        while i < self.entries.len()
            invariant
                i <= self.entries@.len(),
                lookup(self.entries@, key@) == lookup(self.entries@.skip(i as int), key@),
            decreases self.entries@.len() - i,
        {
            proof {
                assert(self.entries@.skip(i as int).drop_first() =~= self.entries@.skip(
                    i as int + 1,
                ));
            }
            if bytes_eq(self.entries[i].0.as_slice(), key) {
                assert(self.entries@.skip(i as int)[0] == self.entries@[i as int]);
                return true;
            }
            i = i + 1;
        }
        assert(self.entries@.skip(self.entries@.len() as int) =~= Seq::<(
            Vec<u8>,
            Vec<u8>,
        )>::empty());
        false
    }

    /// The value bound to `key`, if any.
    pub fn get(&self, key: &[u8]) -> (r: Option<&Vec<u8>>)
        ensures
            match r {
                Some(v) => lookup(self@, key@) == Some(v@),
                None => lookup(self@, key@) is None,
            },
    {
        proof {
            assert(self.entries@.skip(0) =~= self.entries@);
        }
        let mut i: usize = 0;
        while i < self.entries.len()
            invariant
                i <= self.entries@.len(),
                lookup(self.entries@, key@) == lookup(self.entries@.skip(i as int), key@),
            decreases self.entries@.len() - i,
        {
            proof {
                assert(self.entries@.skip(i as int).drop_first() =~= self.entries@.skip(
                    i as int + 1,
                ));
            }
            if bytes_eq(self.entries[i].0.as_slice(), key) {
                assert(self.entries@.skip(i as int)[0] == self.entries@[i as int]);
                return Some(&self.entries[i].1);
            }
            i = i + 1;
        }
        assert(self.entries@.skip(self.entries@.len() as int) =~= Seq::<(
            Vec<u8>,
            Vec<u8>,
        )>::empty());
        None
    }

    /// Bind `key` to `val`.  The caller must know the key is fresh: entries
    /// are write-once.
    pub fn insert(&mut self, key: Vec<u8>, val: Vec<u8>)
        requires
            old(self).wf(),
            !has_key(old(self)@, key@),
        ensures
            final(self).wf(),
            final(self)@ == old(self)@.push((key, val)),
            forall|k: Seq<u8>|
                #[trigger] lookup(final(self)@, k) == if has_key(old(self)@, k) {
                    lookup(old(self)@, k)
                } else if k == key@ {
                    Some(val@)
                } else {
                    None
                },
    {
        proof {
            assert forall|k: Seq<u8>| true implies #[trigger] lookup(
                old(self)@.push((key, val)),
                k,
            ) == (if has_key(old(self)@, k) {
                lookup(old(self)@, k)
            } else if k == key@ {
                Some(val@)
            } else {
                None
            }) by {
                lemma_lookup_push(old(self)@, key, val, k);
            }
            lemma_has_key_index(old(self)@, key@);
        }
        self.entries.push((key, val));
    }

    /// The keys, in insertion order.
    pub fn keys(&self) -> (r: Vec<Vec<u8>>)
        ensures
            r@.len() == self@.len(),
            forall|i: int| 0 <= i < r@.len() ==> r@[i]@ == self@[i].0@,
    {
        let mut out: Vec<Vec<u8>> = Vec::new();
        let mut i: usize = 0;
        while i < self.entries.len()
            invariant
                i <= self.entries@.len(),
                out@.len() == i,
                forall|j: int| 0 <= j < i ==> out@[j]@ == self.entries@[j].0@,
            decreases self.entries@.len() - i,
        {
            out.push(self.entries[i].0.clone());
            i = i + 1;
        }
        out
    }
}

/// In a well-formed store, no two entries share a key.
pub proof fn lemma_wf_distinct_keys(s: &Store)
    requires
        s.wf(),
    ensures
        forall|i: int, j: int| 0 <= i < j < s@.len() ==> (#[trigger] s@[i]).0@ != (#[trigger] s@[j]).0@,
{
}

/// A successful lookup is witnessed by an entry with that key and value.
pub proof fn lemma_lookup_index(entries: Seq<(Vec<u8>, Vec<u8>)>, k: Seq<u8>)
    requires
        lookup(entries, k) is Some,
    ensures
        exists|i: int|
            0 <= i < entries.len() && (#[trigger] entries[i]).0@ == k && entries[i].1@ == lookup(
                entries,
                k,
            )->Some_0,
    decreases entries.len(),
{
    if entries[0].0@ == k {
        assert(entries[0].0@ == k && entries[0].1@ == lookup(entries, k)->Some_0);
    } else {
        lemma_lookup_index(entries.drop_first(), k);
        let i = choose|i: int|
            0 <= i < entries.drop_first().len() && (#[trigger] entries.drop_first()[i]).0@ == k
                && entries.drop_first()[i].1@ == lookup(entries.drop_first(), k)->Some_0;
        assert(entries[i + 1].0@ == k && entries[i + 1].1@ == lookup(entries, k)->Some_0);
    }
}

/// A bound key is the key of some entry, and an entry's key is bound.
pub proof fn lemma_has_key_index(entries: Seq<(Vec<u8>, Vec<u8>)>, k: Seq<u8>)
    ensures
        has_key(entries, k) <==> exists|i: int| 0 <= i < entries.len() && (
        #[trigger] entries[i]).0@ == k,
    decreases entries.len(),
{
    if entries.len() > 0 {
        lemma_has_key_index(entries.drop_first(), k);
        if entries[0].0@ != k && has_key(entries.drop_first(), k) {
            let i = choose|i: int|
                0 <= i < entries.drop_first().len() && (#[trigger] entries.drop_first()[i]).0@
                    == k;
            assert(entries[i + 1].0@ == k);
        }
        if exists|i: int| 0 <= i < entries.len() && (#[trigger] entries[i]).0@ == k {
            let i = choose|i: int| 0 <= i < entries.len() && (#[trigger] entries[i]).0@ == k;
            if i > 0 {
                assert(entries.drop_first()[i - 1].0@ == k);
            }
        }
    }
}

} // verus!
