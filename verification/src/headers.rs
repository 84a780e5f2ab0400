//! The header multimap: string keys, each with an ordered list of
//! string values.
//!
//! Entries keep the order in which their keys first arrived, and the
//! values of one key keep their arrival order; a key is present only
//! while it has at least one value.  The wire format does not fix an
//! iteration order, so this insertion order is the one the crate
//! guarantees, for header emission among other things.

use vstd::prelude::*;

use crate::strings::str_eq;

verus! {

/// The model of the entry list: each entry a key and its values.
pub open spec fn entries_view(v: Seq<(String, Vec<String>)>) -> Seq<(Seq<char>, Seq<Seq<char>>)> {
    v.map_values(|p: (String, Vec<String>)| (p.0@, p.1.deep_view()))
}

/// First position of key `k` among the entries, or `-1` when absent.
pub open spec fn key_index(m: Seq<(Seq<char>, Seq<Seq<char>>)>, k: Seq<char>) -> int
    decreases m.len(),
{
    if m.len() == 0 {
        -1
    } else if m[0].0 == k {
        0
    } else {
        let r = key_index(m.drop_first(), k);
        if r < 0 {
            -1
        } else {
            r + 1
        }
    }
}

/// The values of key `k`, when present.
pub open spec fn spec_get(m: Seq<(Seq<char>, Seq<Seq<char>>)>, k: Seq<char>) -> Option<
    Seq<Seq<char>>,
> {
    if key_index(m, k) < 0 {
        None
    } else {
        Some(m[key_index(m, k)].1)
    }
}

/// Appending values under key `k`: nothing to add leaves the map as it
/// is; a present key keeps its place and gains the values at the end of
/// its list; an absent key makes a new last entry.
pub open spec fn spec_add_all(
    m: Seq<(Seq<char>, Seq<Seq<char>>)>,
    k: Seq<char>,
    vs: Seq<Seq<char>>,
) -> Seq<(Seq<char>, Seq<Seq<char>>)> {
    if vs.len() == 0 {
        m
    } else {
        let i = key_index(m, k);
        if i < 0 {
            m.push((k, vs))
        } else {
            m.update(i, (m[i].0, m[i].1 + vs))
        }
    }
}

/// Well-formed headers: keys pairwise distinct, every value list
/// non-empty.
pub open spec fn headers_wf(m: Seq<(Seq<char>, Seq<Seq<char>>)>) -> bool {
    &&& forall|i: int, j: int|
        0 <= i < j < m.len() ==> (#[trigger] m[i]).0 != (#[trigger] m[j]).0
    &&& forall|i: int| 0 <= i < m.len() ==> (#[trigger] m[i]).1.len() > 0
}

/// What `key_index` finds: a position in range holding `k`, before
/// which `k` does not occur, or `-1` exactly when `k` occurs nowhere.
pub proof fn lemma_key_index(m: Seq<(Seq<char>, Seq<Seq<char>>)>, k: Seq<char>)
    ensures
        -1 <= key_index(m, k) < m.len(),
        key_index(m, k) >= 0 ==> m[key_index(m, k)].0 == k,
        key_index(m, k) == -1 ==> forall|i: int| 0 <= i < m.len() ==> (#[trigger] m[i]).0 != k,
        forall|i: int| 0 <= i < key_index(m, k) ==> (#[trigger] m[i]).0 != k,
    decreases m.len(),
{
    if m.len() > 0 && m[0].0 != k {
        lemma_key_index(m.drop_first(), k);
        assert(forall|i: int|
            1 <= i < m.len() ==> #[trigger] m[i] == m.drop_first()[i - 1]);
    }
}

/// `key_index` is determined by the first position where `k` stands.
pub proof fn lemma_key_index_first(m: Seq<(Seq<char>, Seq<Seq<char>>)>, k: Seq<char>, i: int)
    requires
        0 <= i <= m.len(),
        forall|j: int| 0 <= j < i ==> (#[trigger] m[j]).0 != k,
    ensures
        i == m.len() ==> key_index(m, k) == -1,
        i < m.len() && m[i].0 == k ==> key_index(m, k) == i,
    decreases m.len(),
{
    if m.len() > 0 && m[0].0 != k {
        assert(forall|j: int|
            0 <= j < i - 1 ==> #[trigger] m.drop_first()[j] == m[j + 1]);
        lemma_key_index_first(m.drop_first(), k, if i == 0 { 0 } else { i - 1 });
    }
}

/// Appending values keeps the headers well formed.
pub proof fn lemma_add_all_wf(m: Seq<(Seq<char>, Seq<Seq<char>>)>, k: Seq<char>, vs: Seq<
    Seq<char>,
>)
    requires
        headers_wf(m),
    ensures
        headers_wf(spec_add_all(m, k, vs)),
{
    lemma_key_index(m, k);
}

/// An insertion-ordered multimap from header keys to their values.
#[derive(Debug, Clone, PartialEq, Eq)]
pub struct Headers {
    entries: Vec<(String, Vec<String>)>,
}

impl View for Headers {
    type V = Seq<(Seq<char>, Seq<Seq<char>>)>;

    closed spec fn view(&self) -> Seq<(Seq<char>, Seq<Seq<char>>)> {
        entries_view(self.entries@)
    }
}

impl Headers {
    /// The empty header map.
    pub fn new() -> (r: Headers)
        ensures
            r@ == Seq::<(Seq<char>, Seq<Seq<char>>)>::empty(),
    {
        let entries: Vec<(String, Vec<String>)> = Vec::new();
        proof {
            assert(entries_view(entries@) =~= Seq::<(Seq<char>, Seq<Seq<char>>)>::empty());
        }
        Headers { entries }
    }

    /// How many keys are present.
    pub fn len(&self) -> (r: usize)
        ensures
            r == self@.len(),
    {
        self.entries.len()
    }

    /// Position of key `k`, when present.
    fn find_idx(&self, k: &str) -> (r: Option<usize>)
        ensures
            match r {
                Some(i) => i < self@.len() && key_index(self@, k@) == i,
                None => key_index(self@, k@) == -1,
            },
    {
        let n = self.entries.len();
        let mut i: usize = 0;
        while i < n
            invariant
                n == self@.len(),
                i <= n,
                self@.len() == self.entries@.len(),
                forall|j: int| 0 <= j < i ==> (#[trigger] self@[j]).0 != k@,
            decreases n - i,
        {
            if str_eq(self.entries[i].0.as_str(), k) {
                proof {
                    lemma_key_index_first(self@, k@, i as int);
                }
                return Some(i);
            }
            i += 1;
        }
        proof {
            lemma_key_index_first(self@, k@, n as int);
        }
        None
    }

    /// The values of key `k`, when present.
    pub fn get<'a>(&'a self, k: &str) -> (r: Option<&'a Vec<String>>)
        ensures
            match r {
                Some(vs) => spec_get(self@, k@) == Some(vs.deep_view()),
                None => spec_get(self@, k@) is None,
            },
    {
        match self.find_idx(k) {
            Some(i) => Some(&self.entries[i].1),
            None => None,
        }
    }

    /// The key of the entry at position `i`.
    pub fn key_at<'a>(&'a self, i: usize) -> (r: &'a String)
        requires
            i < self@.len(),
        ensures
            r@ == self@[i as int].0,
    {
        &self.entries[i].0
    }

    /// The values of the entry at position `i`.
    pub fn values_at<'a>(&'a self, i: usize) -> (r: &'a Vec<String>)
        requires
            i < self@.len(),
        ensures
            r.deep_view() == self@[i as int].1,
    {
        &self.entries[i].1
    }

    /// Appends the given values under key `k`.
    pub fn add_values(&mut self, k: String, vs: Vec<String>)
        ensures
            final(self)@ == spec_add_all(old(self)@, k@, vs.deep_view()),
    {
        if vs.len() == 0 {
            proof {
                assert(vs.deep_view() =~= Seq::<Seq<char>>::empty());
            }
            return ;
        }
        proof {
            assert(vs.deep_view().len() == vs@.len());
        }
        match self.find_idx(k.as_str()) {
            None => {
                let ghost m0 = self@;
                self.entries.push((k, vs));
                proof {
                    assert(self@ =~= m0.push((k@, vs.deep_view())));
                }
            },
            Some(i) => {
                let ghost m0 = self@;
                let mut pair = self.entries.remove(i);
                let mut more = vs;
                pair.1.append(&mut more);
                proof {
                    assert(pair.1.deep_view() =~= m0[i as int].1 + vs.deep_view());
                }
                self.entries.insert(i, pair);
                proof {
                    assert(self@ =~= m0.update(i as int, (m0[i as int].0, m0[i as int].1
                        + vs.deep_view())));
                }
            },
        }
    }

    /// Appends one value under key `k`.
    pub fn add(&mut self, k: String, v: String)
        ensures
            final(self)@ == spec_add_all(old(self)@, k@, seq![v@]),
    {
        let mut vs: Vec<String> = Vec::new();
        vs.push(v);
        proof {
            assert(vs.deep_view() =~= seq![vs@[0]@]);
        }
        self.add_values(k, vs);
    }
}

} // verus!
