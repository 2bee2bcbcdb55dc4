//! A fixed-dimension key-to-vector store.
//!
//! `Embedding<K, S>` maps caller-chosen keys to vectors of scalars whose
//! length is fixed at construction; adding a vector of any other length
//! is refused, re-adding a key overwrites, and asking for an absent key
//! is a typed error, never a panic.

use crate::text::dec_rep;
use crate::text::str_eq_chars;
use crate::text::to_decimal;
use vstd::prelude::*;
use vstd::slice::slice_to_vec;
use vstd::string::StrSliceExecFns;
use vstd::string::StringExecFns;

verus! {

/// The errors of the store.
#[derive(Debug, PartialEq)]
pub enum Error {
    /// The vector's length does not match the store's dimension; the
    /// detail names the expected and the given length.
    WrongEmbeddingDimension(String),
    /// No vector is stored under the key; the detail shows the key.
    VectorNotFound(String),
}

/// An embedding key: a cheaply duplicable value with a mathematical key
/// that decidable equality agrees with, and a rendering for error
/// details.
pub trait EmbeddingKey: Copy + Sized {
    /// The mathematical identity of the key.
    type Key;

    /// The key of this value.
    spec fn emb_key(self) -> Self::Key;

    /// How the key reads in an error detail.
    spec fn shown(self) -> Seq<char>;

    /// Decide equality of two keys.
    fn eq_key(&self, other: &Self) -> (r: bool)
        ensures
            r == (self.emb_key() == other.emb_key()),
    ;

    /// Render the key for an error detail.
    fn describe(&self) -> (r: String)
        ensures
            r@ == self.shown(),
    ;
}

impl EmbeddingKey for usize {
    type Key = usize;

    open spec fn emb_key(self) -> usize {
        self
    }

    open spec fn shown(self) -> Seq<char> {
        dec_rep(self as nat)
    }

    fn eq_key(&self, other: &usize) -> (r: bool) {
        *self == *other
    }

    fn describe(&self) -> (r: String) {
        to_decimal(*self)
    }
}

impl<'a> EmbeddingKey for &'a str {
    type Key = Seq<char>;

    open spec fn emb_key(self) -> Seq<char> {
        self@
    }

    open spec fn shown(self) -> Seq<char> {
        seq!['"'] + self@ + seq!['"']
    }

    fn eq_key(&self, other: &&'a str) -> (r: bool) {
        str_eq_chars(self, other)
    }

    fn describe(&self) -> (r: String) {
        let mut s = String::from_str("\"");
        s.append(self);
        s.append("\"");
        proof {
            reveal_strlit("\"");
            assert(s@ =~= self.shown());
        }
        s
    }
}

/// The mathematical state of a store: its dimension and its key-to-
/// vector map.
#[verifier::reject_recursive_types(KK)]
pub struct EmbeddingModel<KK, S> {
    pub dim: nat,
    pub vecs: Map<KK, Seq<S>>,
}

/// The map held by an association list of keyed vectors, later entries
/// overriding earlier ones.
pub open spec fn entries_map<K: EmbeddingKey, S>(entries: Seq<(K, Vec<S>)>) -> Map<
    K::Key,
    Seq<S>,
>
    decreases entries.len(),
{
    if entries.len() == 0 {
        Map::empty()
    } else {
        entries_map(entries.drop_last()).insert(entries.last().0.emb_key(), entries.last().1@)
    }
}

/// An entry's key is mapped to its vector when no later entry carries
/// an equal key.
proof fn lemma_entries_map_lookup<K: EmbeddingKey, S>(entries: Seq<(K, Vec<S>)>, i: int)
    requires
        0 <= i < entries.len(),
        forall|p: int, q: int|
            0 <= p < q < entries.len() ==> (#[trigger] entries[p]).0.emb_key() != (
            #[trigger] entries[q]).0.emb_key(),
    ensures
        entries_map(entries).contains_key(entries[i].0.emb_key()),
        entries_map(entries)[entries[i].0.emb_key()] == entries[i].1@,
    decreases entries.len(),
{
    if i < entries.len() - 1 {
        lemma_entries_map_lookup(entries.drop_last(), i);
        assert(entries[entries.len() - 1].0.emb_key() != entries[i].0.emb_key());
    }
}

/// A key carried by no entry is absent from the map.
proof fn lemma_entries_map_absent<K: EmbeddingKey, S>(entries: Seq<(K, Vec<S>)>, kk: K::Key)
    requires
        forall|i: int| 0 <= i < entries.len() ==> (#[trigger] entries[i]).0.emb_key() != kk,
    ensures
        !entries_map(entries).contains_key(kk),
    decreases entries.len(),
{
    if entries.len() > 0 {
        lemma_entries_map_absent(entries.drop_last(), kk);
    }
}

/// Every key of the map is carried by some entry.
proof fn lemma_entries_map_dom<K: EmbeddingKey, S>(entries: Seq<(K, Vec<S>)>, kk: K::Key)
    requires
        entries_map(entries).contains_key(kk),
    ensures
        exists|i: int| 0 <= i < entries.len() && (#[trigger] entries[i]).0.emb_key() == kk,
    decreases entries.len(),
{
    if entries.len() > 0 {
        if entries.last().0.emb_key() == kk {
            assert(entries[entries.len() - 1].0.emb_key() == kk);
        } else {
            lemma_entries_map_dom(entries.drop_last(), kk);
            let i = choose|i: int|
                0 <= i < entries.drop_last().len() && (#[trigger] entries.drop_last()[i]).0
                    .emb_key() == kk;
            assert(entries[i].0.emb_key() == kk);
        }
    }
}

/// Overwriting an entry in place overwrites its key's mapping.
proof fn lemma_entries_map_update<K: EmbeddingKey, S>(
    entries: Seq<(K, Vec<S>)>,
    i: int,
    key: K,
    v: Vec<S>,
)
    requires
        0 <= i < entries.len(),
        entries[i].0.emb_key() == key.emb_key(),
        forall|p: int, q: int|
            0 <= p < q < entries.len() ==> (#[trigger] entries[p]).0.emb_key() != (
            #[trigger] entries[q]).0.emb_key(),
    ensures
        entries_map(entries.update(i, (key, v))) == entries_map(entries).insert(
            key.emb_key(),
            v@,
        ),
    decreases entries.len(),
{
    let upd = entries.update(i, (key, v));
    if i == entries.len() - 1 {
        assert(upd.drop_last() =~= entries.drop_last());
        assert(upd.last() == (key, v));
        assert(entries_map(upd) =~= entries_map(entries).insert(key.emb_key(), v@));
    } else {
        assert(upd.drop_last() =~= entries.drop_last().update(i, (key, v)));
        assert(upd.last() == entries.last());
        lemma_entries_map_update(entries.drop_last(), i, key, v);
        assert(entries[entries.len() - 1].0.emb_key() != key.emb_key());
        assert(entries_map(upd) =~= entries_map(entries).insert(key.emb_key(), v@));
    }
}

/// A fixed-dimension key-to-vector store.
#[derive(Debug)]
pub struct Embedding<K: EmbeddingKey, S: Copy> {
    emb_dim: usize,
    emb_vectors: Vec<(K, Vec<S>)>,
}

impl<K: EmbeddingKey, S: Copy> View for Embedding<K, S> {
    type V = EmbeddingModel<K::Key, S>;

    closed spec fn view(&self) -> EmbeddingModel<K::Key, S> {
        EmbeddingModel { dim: self.emb_dim as nat, vecs: entries_map(self.emb_vectors@) }
    }
}

impl<K: EmbeddingKey, S: Copy> Embedding<K, S> {
    /// Well-formedness: entry keys are distinct and every stored vector
    /// has the store's dimension.
    pub closed spec fn wf(self) -> bool {
        &&& (forall|p: int, q: int|
            0 <= p < q < self.emb_vectors@.len() ==> (#[trigger] self.emb_vectors@[p]).0
                .emb_key() != (#[trigger] self.emb_vectors@[q]).0.emb_key())
        &&& (forall|i: int|
            0 <= i < self.emb_vectors@.len() ==> (#[trigger] self.emb_vectors@[i]).1@.len()
                == self.emb_dim)
    }

    /// An empty store fixed at dimension `dim`.
    pub fn new(dim: usize) -> (r: Embedding<K, S>)
        ensures
            r.wf(),
            r@.dim == dim,
            r@.vecs == Map::<K::Key, Seq<S>>::empty(),
    {
        Embedding { emb_dim: dim, emb_vectors: Vec::new() }
    }

    /// The position of `key` among the entries, if present.
    fn find_key(&self, key: &K) -> (r: Option<usize>)
        ensures
            match r {
                Some(i) => i < self.emb_vectors@.len() && self.emb_vectors@[i as int].0.emb_key()
                    == key.emb_key(),
                None => forall|i: int|
                    0 <= i < self.emb_vectors@.len() ==> (#[trigger] self.emb_vectors@[i]).0
                        .emb_key() != key.emb_key(),
            },
    {
        let mut i: usize = 0;
        while i < self.emb_vectors.len()
            invariant
                i <= self.emb_vectors@.len(),
                forall|p: int|
                    0 <= p < i ==> (#[trigger] self.emb_vectors@[p]).0.emb_key() != key.emb_key(),
            decreases self.emb_vectors@.len() - i,
        {
            if self.emb_vectors[i].0.eq_key(key) {
                return Some(i);
            }
            i += 1;
        }
        None
    }

    /// Store `vector` under `key`, overwriting what the key held; a
    /// vector whose length is not the store's dimension is refused with
    /// `WrongEmbeddingDimension`, naming the expected and given lengths.
    pub fn add_vector(&mut self, key: K, vector: &[S]) -> (r: Result<(), Error>)
        requires
            old(self).wf(),
        ensures
            final(self).wf(),
            final(self)@.dim == old(self)@.dim,
            match r {
                Ok(()) => vector@.len() == old(self)@.dim && final(self)@.vecs == old(
                    self,
                )@.vecs.insert(key.emb_key(), vector@),
                Err(Error::WrongEmbeddingDimension(msg)) => vector@.len() != old(self)@.dim
                    && final(self)@ == old(self)@ && msg@ == dim_error_text(
                    old(self)@.dim,
                    vector@.len(),
                ),
                Err(Error::VectorNotFound(_)) => false,
            },
    {
        let vector: Vec<S> = slice_to_vec(vector);

        if vector.len() != self.emb_dim {
            let mut msg = String::from_str("Expected: ");
            msg.append(to_decimal(self.emb_dim).as_str());
            msg.append(" Got: ");
            msg.append(to_decimal(vector.len()).as_str());
            proof {
                assert(msg@ =~= dim_error_text(old(self)@.dim, vector@.len()));
            }
            return Err(Error::WrongEmbeddingDimension(msg));
        }
        match self.find_key(&key) {
            Some(i) => {
                proof {
                    lemma_entries_map_update(self.emb_vectors@, i as int, key, vector);
                }
                self.emb_vectors[i] = (key, vector);
            },
            None => {
                self.emb_vectors.push((key, vector));
                proof {
                    assert(self.emb_vectors@.drop_last() =~= old(self).emb_vectors@);
                }
            },
        }
        Ok(())
    }

    /// The vector stored under `key`, or `VectorNotFound`, showing the
    /// key, if the store holds none.
    pub fn get_vector(&self, key: K) -> (r: Result<Vec<S>, Error>)
        requires
            self.wf(),
        ensures
            match r {
                Ok(v) => self@.vecs.contains_key(key.emb_key()) && v@ == self@.vecs[key.emb_key()]
                    && v@.len() == self@.dim,
                Err(Error::VectorNotFound(msg)) => !self@.vecs.contains_key(key.emb_key())
                    && msg@ == "No vector found for "@ + key.shown(),
                Err(Error::WrongEmbeddingDimension(_)) => false,
            },
    {
        match self.find_key(&key) {
            Some(i) => {
                proof {
                    lemma_entries_map_lookup(self.emb_vectors@, i as int);
                }
                Ok(slice_to_vec(self.emb_vectors[i].1.as_slice()))
            },
            None => {
                proof {
                    lemma_entries_map_absent(self.emb_vectors@, key.emb_key());
                }
                let mut msg = String::from_str("No vector found for ");
                msg.append(key.describe().as_str());
                Err(Error::VectorNotFound(msg))
            },
        }
    }

    /// The store's dimension.
    pub fn dim(&self) -> (r: usize)
        ensures
            r == self@.dim,
    {
        self.emb_dim
    }

    /// An unordered snapshot of the stored keys, each exactly once.
    pub fn keys(&self) -> (r: Vec<K>)
        requires
            self.wf(),
        ensures
            forall|k: int|
                0 <= k < r@.len() ==> self@.vecs.contains_key((#[trigger] r@[k]).emb_key()),
            forall|kk: K::Key|
                self@.vecs.contains_key(kk) ==> exists|k: int|
                    0 <= k < r@.len() && (#[trigger] r@[k]).emb_key() == kk,
            forall|k1: int, k2: int|
                0 <= k1 < k2 < r@.len() ==> (#[trigger] r@[k1]).emb_key() != (
                #[trigger] r@[k2]).emb_key(),
    {
        let mut out: Vec<K> = Vec::new();
        let mut i: usize = 0;
        while i < self.emb_vectors.len()
            invariant
                self.wf(),
                i <= self.emb_vectors@.len(),
                out@.len() == i,
                forall|k: int|
                    0 <= k < i ==> (#[trigger] out@[k]).emb_key() == self.emb_vectors@[k].0
                        .emb_key(),
            decreases self.emb_vectors@.len() - i,
        {
            out.push(self.emb_vectors[i].0);
            i += 1;
        }
        proof {
            assert forall|k: int|
                0 <= k < out@.len() implies self@.vecs.contains_key(
                (#[trigger] out@[k]).emb_key(),
            ) by {
                lemma_entries_map_lookup(self.emb_vectors@, k);
            }
            assert forall|kk: K::Key| self@.vecs.contains_key(kk) implies exists|k: int|
                0 <= k < out@.len() && (#[trigger] out@[k]).emb_key() == kk by {
                lemma_entries_map_dom(self.emb_vectors@, kk);
                let i0 = choose|i0: int|
                    0 <= i0 < self.emb_vectors@.len() && (#[trigger] self.emb_vectors@[i0]).0
                        .emb_key() == kk;
                assert(out@[i0].emb_key() == kk);
            }
        }
        out
    }
}

/// The detail text of a dimension mismatch.
pub open spec fn dim_error_text(expected: nat, got: nat) -> Seq<char> {
    "Expected: "@ + dec_rep(expected) + " Got: "@ + dec_rep(got)
}

} // verus!
