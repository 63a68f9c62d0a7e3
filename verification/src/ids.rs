use vstd::prelude::*;

verus! {

/// Compares two byte strings for equality.
fn bytes_eq(a: &Vec<u8>, b: &Vec<u8>) -> (r: bool)
    ensures
        r == (a@ == b@),
{
    if a.len() != b.len() {
        assert(a@ != b@) by {
            assert(a@.len() != b@.len());
        }
        return false;
    }
    let n = a.len();
    let mut i: usize = 0;
    while i < n
        invariant
            n == a@.len() && n == b@.len(),
            i <= n,
            forall|k: int| 0 <= k < i ==> a@[k] == b@[k],
        decreases n - i,
    {
        if a[i] != b[i] {
            return false;
        }
        i += 1;
    }
    proof {
        assert(a@ =~= b@);
    }
    true
}

/// Assigns dense indices to the distinct object ids (byte strings) seen so
/// far. The engine and the graph model work on these indices; only the store
/// wrappers see the raw ids. The table is injective: two distinct indices
/// always hold two distinct ids.
pub struct Interner {
    keys: Vec<Vec<u8>>,
}

impl View for Interner {
    type V = Seq<Seq<u8>>;

    closed spec fn view(&self) -> Seq<Seq<u8>> {
        self.keys@.map_values(|k: Vec<u8>| k@)
    }
}

impl Interner {
    /// No two indices hold the same id.
    pub open spec fn wf(&self) -> bool {
        forall|i: int, j: int|
            0 <= i < self@.len() && 0 <= j < self@.len() && i != j ==> self@[i] != self@[j]
    }

    pub fn new() -> (r: Interner)
        ensures
            r@.len() == 0,
            r.wf(),
    {
        Interner { keys: Vec::new() }
    }

    pub fn len(&self) -> (r: usize)
        ensures
            r == self@.len(),
    {
        self.keys.len()
    }

    /// The id held at an index.
    pub fn get(&self, i: usize) -> (r: &Vec<u8>)
        requires
            i < self@.len(),
        ensures
            r@ == self@[i as int],
    {
        &self.keys[i]
    }

    /// The id held at an index, as an owned copy.
    pub fn get_owned(&self, i: usize) -> (r: Vec<u8>)
        requires
            i < self@.len(),
        ensures
            r@ == self@[i as int],
    {
        let src = &self.keys[i];
        let n = src.len();
        let mut r: Vec<u8> = Vec::new();
        let mut k: usize = 0;
        while k < n
            invariant
                i < self@.len(),
                n == self@[i as int].len(),
                k <= n,
                r@.len() == k,
                forall|x: int| 0 <= x < k ==> r@[x] == self@[i as int][x],
            decreases n - k,
        {
            r.push(self.keys[i][k]);
            k += 1;
        }
        proof {
            assert(r@ =~= self@[i as int]);
        }
        r
    }

    /// The index holding the given id, if any.
    pub fn lookup(&self, key: &Vec<u8>) -> (r: Option<usize>)
        ensures
            match r {
                Some(i) => i < self@.len() && self@[i as int] == key@,
                None => forall|i: int| 0 <= i < self@.len() ==> self@[i] != key@,
            },
    {
        let n = self.keys.len();
        let mut i: usize = 0;
        while i < n
            invariant
                n == self@.len(),
                i <= n,
                forall|k: int| 0 <= k < i ==> self@[k] != key@,
            decreases n - i,
        {
            if bytes_eq(&self.keys[i], key) {
                return Some(i);
            }
            i += 1;
        }
        None
    }

    /// Returns the index for the id, adding it if it is new. The second
    /// component is true exactly when the id was not seen before.
    pub fn intern(&mut self, key: Vec<u8>) -> (r: (usize, bool))
        requires
            old(self).wf(),
        ensures
            final(self).wf(),
            r.0 < final(self)@.len(),
            final(self)@[r.0 as int] == key@,
            old(self)@.is_prefix_of(final(self)@),
            r.1 ==> final(self)@ == old(self)@.push(key@) && r.0 == old(self)@.len()
                && (forall|i: int| 0 <= i < old(self)@.len() ==> old(self)@[i] != key@),
            !r.1 ==> final(self)@ == old(self)@,
    {
        match self.lookup(&key) {
            Some(i) => (i, false),
            None => {
                let i = self.keys.len();
                self.keys.push(key);
                proof {
                    assert(self@ =~= old(self)@.push(key@));
                }
                (i, true)
            },
        }
    }
}

} // verus!
