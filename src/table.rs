use crate::idx::NameTableIdx;
use crate::hash::{
    check_hash_index, hash_covers, hash_index_ok, lemma_hash_slot, name_hash, name_hash_spec, search_hash,
};
use crate::model::{
    first_index_of, flatten_layers, intern_layers, lemma_first_index_is,
    lemma_first_index_sound, layers_lookup, widen, Layers,
};
use crate::text::{blob_entries, blob_slice, check_offsets, offsets_wf, same_text};
use vstd::prelude::*;
use vstd::string::StringSliceAdditionalSpecFns;

verus! {

/// An immutable table over a blob of concatenated names and the offsets
/// that cut it.
pub struct StaticNameTable {
    initial_idx: usize,
    names: &'static str,
    name_offsets: &'static [usize],
    parent: Option<Box<AnyNameTable>>,
}

/// A table of any kind, as held by the table built upon it.
pub enum AnyNameTable {
    Static(StaticNameTable),
    Hashed(StaticHashedNameTable),
    Dynamic(DynamicNameTable),
}

/// The layers of the chain below a table.
spec fn link_layers(parent: Option<Box<AnyNameTable>>) -> Layers
    decreases parent,
{
    match parent {
        Some(p) => p.node_layers(),
        None => Seq::empty(),
    }
}

/// The chain below a table is well formed, the table's first id follows
/// its last one, and the table's own ids stay within `usize`.
spec fn link_wf(parent: Option<Box<AnyNameTable>>, initial: usize, local_len: nat) -> bool
    decreases parent,
{
    &&& match parent {
        Some(p) => p.node_wf() && initial == flatten_layers(p.node_layers()).len(),
        None => initial == 0,
    }
    &&& initial + local_len <= usize::MAX
}

/// The chain below a well-formed table ends just before the table's first id.
proof fn lemma_link_len(parent: Option<Box<AnyNameTable>>, initial: usize, local_len: nat)
    requires
        link_wf(parent, initial, local_len),
    ensures
        flatten_layers(link_layers(parent)).len() == initial,
        initial + local_len <= usize::MAX,
{
    match parent {
        Some(_) => {},
        None => {
            assert(flatten_layers(Seq::<Seq<Seq<char>>>::empty()).len() == 0);
        },
    }
}

impl AnyNameTable {
    /// The names of each node of the chain, the root first.
    pub closed spec fn node_layers(self) -> Layers
        decreases self,
    {
        match self {
            AnyNameTable::Static(t) => link_layers(t.parent).push(t.local_view()),
            AnyNameTable::Hashed(t) => link_layers(t.parent).push(t.local_view()),
            AnyNameTable::Dynamic(t) => link_layers(t.parent).push(t.local_view()),
        }
    }

    /// Every node of the chain is well formed.
    pub closed spec fn node_wf(self) -> bool
        decreases self,
    {
        match self {
            AnyNameTable::Static(t) => link_wf(t.parent, t.initial_idx, t.local_view().len())
                && t.local_ok(),
            AnyNameTable::Hashed(t) => link_wf(t.parent, t.initial_idx, t.local_view().len())
                && t.local_ok(),
            AnyNameTable::Dynamic(t) => link_wf(t.parent, t.initial_idx, t.local_view().len()),
        }
    }

    /// The name at global index `idx`, found by walking down the chain.
    fn at_in_chain(&self, idx: usize) -> (r: &str)
        requires
            self.node_wf(),
            idx < flatten_layers(self.node_layers()).len(),
        ensures
            r@ == flatten_layers(self.node_layers())[idx as int],
    {
        let mut cur: &AnyNameTable = self;
        loop
            invariant
                cur.node_wf(),
                idx < flatten_layers(cur.node_layers()).len(),
                flatten_layers(cur.node_layers())[idx as int] == flatten_layers(
                    self.node_layers(),
                )[idx as int],
            decreases cur.node_layers().len(),
        {
            let initial = cur.initial_local();
            if idx >= initial {
                return cur.at_local(idx - initial);
            }
            cur = cur.parent().unwrap();
        }
    }

    /// The global id of `name`, searching each node from the outermost down.
    fn find_in_chain(&self, name: &str) -> (r: Option<usize>)
        requires
            self.node_wf(),
        ensures
            widen(r) == layers_lookup(self.node_layers(), name@),
    {
        let mut cur: &AnyNameTable = self;
        loop
            invariant
                cur.node_wf(),
                layers_lookup(cur.node_layers(), name@) == layers_lookup(
                    self.node_layers(),
                    name@,
                ),
            decreases cur.node_layers().len(),
        {
            proof {
                lemma_first_index_sound(cur.node_layers().last(), name@);
            }
            match cur.find_local(name) {
                Some(i) => {
                    return Some(cur.initial_local() + i);
                },
                None => {
                    match cur.parent() {
                        Some(p) => {
                            cur = p;
                        },
                        None => {
                            proof {
                                assert(cur.node_layers().drop_last().len() == 0);
                                assert(layers_lookup(cur.node_layers().drop_last(), name@) is None);
                            }
                            return None;
                        },
                    }
                },
            }
        }
    }
}

/// The common contract of every kind of table. A table is the outermost
/// node of a chain; its model is the sequence of the chain's layers, one
/// per node, the root first, and a name's global id is its position in
/// their concatenation.
pub trait NameTable {
    /// The table and the chain below it are well formed.
    spec fn wf(&self) -> bool;

    /// The names of each node of the chain, the root first.
    spec fn layers(&self) -> Layers;

    /// The table this one was built upon, if any.
    fn parent(&self) -> (r: Option<&AnyNameTable>)
        requires
            self.wf(),
        ensures
            self.layers().len() >= 1,
            r is Some <==> self.layers().len() > 1,
            r matches Some(p) ==> p.node_wf() && p.node_layers() == self.layers().drop_last(),
    ;

    /// The global id of this table's first own name.
    fn initial_local(&self) -> (r: usize)
        requires
            self.wf(),
        ensures
            self.layers().len() >= 1,
            r == flatten_layers(self.layers().drop_last()).len(),
            flatten_layers(self.layers()).len() <= usize::MAX,
    ;

    /// How many names this table holds itself.
    fn len_local(&self) -> (r: usize)
        requires
            self.wf(),
        ensures
            self.layers().len() >= 1,
            r == self.layers().last().len(),
            flatten_layers(self.layers()).len() <= usize::MAX,
    ;

    /// This table's own name at local index `idx`.
    fn at_local(&self, idx: usize) -> (r: &str)
        requires
            self.wf(),
            idx < self.layers().last().len(),
        ensures
            r@ == self.layers().last()[idx as int],
    ;

    /// The local index of `name` among this table's own names.
    fn find_local(&self, name: &str) -> (r: Option<usize>)
        requires
            self.wf(),
        ensures
            widen(r) == first_index_of(self.layers().last(), name@),
    ;

    /// How many names the whole chain holds.
    fn len(&self) -> (r: usize)
        requires
            self.wf(),
        ensures
            r == flatten_layers(self.layers()).len(),
    ;

    /// The name with global id `idx`. Ids at or past the end of the chain
    /// are outside its domain: asking for one is a caller's error.
    fn at(&self, idx: usize) -> (r: &str)
        requires
            self.wf(),
            idx < flatten_layers(self.layers()).len(),
        ensures
            r@ == flatten_layers(self.layers())[idx as int],
    ;

    /// The global id of `name`: this table's own names shadow those below.
    fn find(&self, name: &str) -> (r: Option<usize>)
        requires
            self.wf(),
        ensures
            widen(r) == layers_lookup(self.layers(), name@),
    ;

    /// The table as a node that another table can be built upon.
    fn into_node(self) -> (r: AnyNameTable)
        requires
            self.wf(),
        ensures
            r.node_wf(),
            r.node_layers() == self.layers(),
    ;
}

impl NameTable for AnyNameTable {
    open spec fn wf(&self) -> bool {
        self.node_wf()
    }

    open spec fn layers(&self) -> Layers {
        self.node_layers()
    }

    fn parent(&self) -> (r: Option<&AnyNameTable>) {
        match self {
            AnyNameTable::Static(t) => t.parent(),
            AnyNameTable::Hashed(t) => t.parent(),
            AnyNameTable::Dynamic(t) => t.parent(),
        }
    }

    fn initial_local(&self) -> (r: usize) {
        match self {
            AnyNameTable::Static(t) => t.initial_local(),
            AnyNameTable::Hashed(t) => t.initial_local(),
            AnyNameTable::Dynamic(t) => t.initial_local(),
        }
    }

    fn len_local(&self) -> (r: usize) {
        match self {
            AnyNameTable::Static(t) => t.len_local(),
            AnyNameTable::Hashed(t) => t.len_local(),
            AnyNameTable::Dynamic(t) => t.len_local(),
        }
    }

    fn at_local(&self, idx: usize) -> (r: &str) {
        match self {
            AnyNameTable::Static(t) => t.at_local(idx),
            AnyNameTable::Hashed(t) => t.at_local(idx),
            AnyNameTable::Dynamic(t) => t.at_local(idx),
        }
    }

    fn find_local(&self, name: &str) -> (r: Option<usize>) {
        match self {
            AnyNameTable::Static(t) => t.find_local(name),
            AnyNameTable::Hashed(t) => t.find_local(name),
            AnyNameTable::Dynamic(t) => t.find_local(name),
        }
    }

    fn len(&self) -> (r: usize) {
        match self {
            AnyNameTable::Static(t) => t.len(),
            AnyNameTable::Hashed(t) => t.len(),
            AnyNameTable::Dynamic(t) => t.len(),
        }
    }

    fn at(&self, idx: usize) -> (r: &str) {
        self.at_in_chain(idx)
    }

    fn find(&self, name: &str) -> (r: Option<usize>) {
        self.find_in_chain(name)
    }

    fn into_node(self) -> (r: AnyNameTable) {
        self
    }
}

impl StaticNameTable {
    /// This table's own names.
    pub closed spec fn local_view(&self) -> Seq<Seq<char>> {
        blob_entries(self.names.spec_bytes(), self.name_offsets@)
    }

    /// The blob and its offsets agree.
    pub closed spec fn local_ok(&self) -> bool {
        offsets_wf(self.names.spec_bytes(), self.name_offsets@)
    }

    /// A root table over `names_`, cut at `name_offsets_`.
    pub fn new(names_: &'static str, name_offsets_: &'static [usize]) -> (r: Self)
        requires
            offsets_wf(names_.spec_bytes(), name_offsets_@),
        ensures
            r.wf(),
            r.layers() == seq![blob_entries(names_.spec_bytes(), name_offsets_@)],
    {
        let r = StaticNameTable {
            initial_idx: 0usize,
            names: names_,
            name_offsets: name_offsets_,
            parent: None,
        };
        proof {
            r.lemma_unfold();
            assert(name_offsets_.len() == name_offsets_@.len());
            assert(r.layers() =~= seq![blob_entries(names_.spec_bytes(), name_offsets_@)]);
        }
        r
    }

    /// A table over `names_`, cut at `name_offsets_`, whose ids continue
    /// where those of `parent` end.
    pub fn new_upon<ParentTableType: NameTable>(
        names_: &'static str,
        name_offsets_: &'static [usize],
        parent: ParentTableType,
    ) -> (r: Self)
        requires
            parent.wf(),
            offsets_wf(names_.spec_bytes(), name_offsets_@),
            flatten_layers(parent.layers()).len() + name_offsets_@.len() - 1 <= usize::MAX,
        ensures
            r.wf(),
            r.layers() == parent.layers().push(blob_entries(names_.spec_bytes(), name_offsets_@)),
    {
        let initial = parent.len();
        StaticNameTable {
            initial_idx: initial,
            names: names_,
            name_offsets: name_offsets_,
            parent: Some(Box::new(parent.into_node())),
        }
    }

    /// The name that `idx` denotes.
    pub fn index<T: NameTableIdx>(&self, idx: T) -> (r: &str)
        requires
            self.wf(),
            idx.index_value() < flatten_layers(self.layers()).len(),
        ensures
            r@ == flatten_layers(self.layers())[idx.index_value() as int],
    {
        self.at(idx.to_index())
    }
}

impl StaticNameTable {
    proof fn lemma_unfold(&self)
        ensures
            self.wf() == (link_wf(self.parent, self.initial_idx, self.local_view().len())
                && self.local_ok()),
            self.layers() == link_layers(self.parent).push(self.local_view()),
            self.layers().drop_last() == link_layers(self.parent),
            self.layers().last() == self.local_view(),
            self.local_ok() ==> self.local_view().len() == self.name_offsets@.len() - 1,
            self.wf() ==> flatten_layers(self.layers()) == flatten_layers(link_layers(self.parent))
                + self.local_view(),
            self.wf() ==> flatten_layers(link_layers(self.parent)).len() == self.initial_idx,
    {
        assert(self.layers().drop_last() =~= link_layers(self.parent));
        if self.wf() {
            lemma_link_len(self.parent, self.initial_idx, self.local_view().len());
        }
    }
}

impl NameTable for StaticNameTable {
    closed spec fn wf(&self) -> bool {
        AnyNameTable::Static(*self).node_wf()
    }

    closed spec fn layers(&self) -> Layers {
        AnyNameTable::Static(*self).node_layers()
    }

    fn parent(&self) -> (r: Option<&AnyNameTable>) {
        match &self.parent {
            Some(p) => Some(&**p),
            None => None,
        }
    }

    fn initial_local(&self) -> (r: usize) {
        proof {
            self.lemma_unfold();
        }
        self.initial_idx
    }

    fn len_local(&self) -> (r: usize) {
        proof {
            self.lemma_unfold();
        }
        self.name_offsets.len() - 1
    }

    fn at_local(&self, idx: usize) -> (r: &str) {
        blob_slice(self.names, self.name_offsets, idx)
    }

    fn find_local(&self, name: &str) -> (r: Option<usize>) {
        let n = self.len_local();
        let mut i: usize = 0;
        while i < n
            invariant
                self.wf(),
                n == self.layers().last().len(),
                i <= n,
                forall|j: int| 0 <= j < i ==> self.layers().last()[j] != name@,
            decreases n - i,
        {
            if same_text(self.at_local(i), name) {
                proof {
                    lemma_first_index_is(self.layers().last(), name@, i as int);
                }
                return Some(i);
            }
            i = i + 1;
        }
        None
    }

    fn len(&self) -> (r: usize) {
        proof {
            self.lemma_unfold();
        }
        self.initial_local() + self.len_local()
    }

    fn at(&self, idx: usize) -> (r: &str) {
        let initial = self.initial_local();
        proof {
            self.lemma_unfold();
        }
        if idx >= initial {
            self.at_local(idx - initial)
        } else {
            self.parent().unwrap().at_in_chain(idx)
        }
    }

    fn find(&self, name: &str) -> (r: Option<usize>) {
        proof {
            self.lemma_unfold();
            lemma_first_index_sound(self.layers().last(), name@);
        }
        match self.find_local(name) {
            Some(i) => Some(self.initial_local() + i),
            None => match self.parent() {
                Some(p) => p.find_in_chain(name),
                None => {
                    proof {
                        assert(layers_lookup(self.layers().drop_last(), name@) is None);
                    }
                    None
                },
            },
        }
    }

    fn into_node(self) -> (r: AnyNameTable) {
        AnyNameTable::Static(self)
    }
}

/// An immutable table like [`StaticNameTable`], with a sorted hash index
/// that makes lookups of its own names logarithmic.
pub struct StaticHashedNameTable {
    initial_idx: usize,
    names: &'static str,
    name_offsets: &'static [usize],
    hash_idxes: &'static [(u64, usize)],
    parent: Option<Box<AnyNameTable>>,
}

impl StaticHashedNameTable {
    /// This table's own names.
    pub closed spec fn local_view(&self) -> Seq<Seq<char>> {
        blob_entries(self.names.spec_bytes(), self.name_offsets@)
    }

    /// This table's hash index.
    pub closed spec fn hash_pairs(&self) -> Seq<(u64, usize)> {
        self.hash_idxes@
    }

    /// The blob, its offsets and the hash index agree.
    pub closed spec fn local_ok(&self) -> bool {
        &&& offsets_wf(self.names.spec_bytes(), self.name_offsets@)
        &&& hash_index_ok(self.hash_idxes@, self.local_view())
    }

    /// A root table over `names_`, cut at `name_offsets_`, with hash index
    /// `hash_idxes_` (empty to disable hashing).
    pub fn new(
        names_: &'static str,
        name_offsets_: &'static [usize],
        hash_idxes_: &'static [(u64, usize)],
    ) -> (r: Self)
        requires
            offsets_wf(names_.spec_bytes(), name_offsets_@),
            hash_index_ok(hash_idxes_@, blob_entries(names_.spec_bytes(), name_offsets_@)),
        ensures
            r.wf(),
            r.layers() == seq![blob_entries(names_.spec_bytes(), name_offsets_@)],
            r.hash_pairs() == hash_idxes_@,
    {
        let r = StaticHashedNameTable {
            initial_idx: 0usize,
            names: names_,
            name_offsets: name_offsets_,
            hash_idxes: hash_idxes_,
            parent: None,
        };
        proof {
            r.lemma_unfold();
            assert(name_offsets_.len() == name_offsets_@.len());
            assert(r.layers() =~= seq![blob_entries(names_.spec_bytes(), name_offsets_@)]);
        }
        r
    }

    /// Like `new`, but checks the data first: `None` unless the offsets
    /// cut the blob into names and the hash index is empty or exact.
    pub fn new_checked(
        names_: &'static str,
        name_offsets_: &'static [usize],
        hash_idxes_: &'static [(u64, usize)],
    ) -> (r: Option<Self>)
        ensures
            r is Some <==> (offsets_wf(names_.spec_bytes(), name_offsets_@) && hash_index_ok(
                hash_idxes_@,
                blob_entries(names_.spec_bytes(), name_offsets_@),
            )),
            r matches Some(t) ==> t.wf() && t.layers() == seq![
                blob_entries(names_.spec_bytes(), name_offsets_@),
            ] && t.hash_pairs() == hash_idxes_@,
    {
        if !check_offsets(names_, name_offsets_) {
            return None;
        }
        if !check_hash_index(hash_idxes_, names_, name_offsets_) {
            return None;
        }
        Some(StaticHashedNameTable::new(names_, name_offsets_, hash_idxes_))
    }

    /// A table over `names_`, cut at `name_offsets_`, with hash index
    /// `hash_idxes_`, whose ids continue where those of `parent` end.
    pub fn new_upon<ParentTableType: NameTable>(
        names_: &'static str,
        name_offsets_: &'static [usize],
        hash_idxes_: &'static [(u64, usize)],
        parent: ParentTableType,
    ) -> (r: Self)
        requires
            parent.wf(),
            offsets_wf(names_.spec_bytes(), name_offsets_@),
            hash_index_ok(hash_idxes_@, blob_entries(names_.spec_bytes(), name_offsets_@)),
            flatten_layers(parent.layers()).len() + name_offsets_@.len() - 1 <= usize::MAX,
        ensures
            r.wf(),
            r.layers() == parent.layers().push(blob_entries(names_.spec_bytes(), name_offsets_@)),
            r.hash_pairs() == hash_idxes_@,
    {
        let initial = parent.len();
        let r = StaticHashedNameTable {
            initial_idx: initial,
            names: names_,
            name_offsets: name_offsets_,
            hash_idxes: hash_idxes_,
            parent: Some(Box::new(parent.into_node())),
        };
        proof {
            r.lemma_unfold();
        }
        r
    }

    /// The name that `idx` denotes.
    pub fn index<T: NameTableIdx>(&self, idx: T) -> (r: &str)
        requires
            self.wf(),
            idx.index_value() < flatten_layers(self.layers()).len(),
        ensures
            r@ == flatten_layers(self.layers())[idx.index_value() as int],
    {
        self.at(idx.to_index())
    }

    /// Whether this table was given a hash index.
    pub fn hash_enabled(&self) -> (r: bool)
        requires
            self.wf(),
        ensures
            r == (self.hash_pairs().len() != 0),
    {
        self.hash_idxes.len() != 0
    }

    /// Looks `name` up through the hash index. A hash that lands on another
    /// name means absent; since the index is collision-free this agrees
    /// with a linear scan on every name.
    pub fn find_local_hashing(&self, name: &str) -> (r: Option<usize>)
        requires
            self.wf(),
            self.hash_pairs().len() != 0,
        ensures
            widen(r) == first_index_of(self.layers().last(), name@),
    {
        proof {
            self.lemma_unfold();
        }
        let ghost names = self.local_view();
        let ghost pairs = self.hash_idxes@;
        let target = name_hash(name);
        match search_hash(self.hash_idxes, target) {
            Some(k) => {
                let j = self.hash_idxes[k].1;
                if same_text(self.at_local(j), name) {
                    proof {
                        assert forall|i: int| 0 <= i < j implies names[i] != name@ by {
                            if names[i] == name@ {
                                lemma_hash_slot(pairs, names, i, k as int);
                            }
                        }
                        lemma_first_index_is(names, name@, j as int);
                    }
                    Some(j)
                } else {
                    proof {
                        assert forall|i: int| 0 <= i < names.len() implies names[i] != name@ by {
                            if names[i] == name@ {
                                lemma_hash_slot(pairs, names, i, k as int);
                            }
                        }
                    }
                    None
                }
            },
            None => {
                proof {
                    assert forall|i: int| 0 <= i < names.len() implies names[i] != name@ by {
                        if names[i] == name@ {
                            assert(hash_covers(pairs, i));
                            let l = choose|l: int| 0 <= l < pairs.len() && pairs[l].1 == i;
                            assert(pairs[l].0 == name_hash_spec(names[i]));
                        }
                    }
                }
                None
            },
        }
    }

    /// Looks `name` up by scanning this table's own names.
    pub fn find_local_fallback(&self, name: &str) -> (r: Option<usize>)
        requires
            self.wf(),
        ensures
            widen(r) == first_index_of(self.layers().last(), name@),
    {
        let n = self.len_local();
        let mut i: usize = 0;
        while i < n
            invariant
                self.wf(),
                n == self.layers().last().len(),
                i <= n,
                forall|j: int| 0 <= j < i ==> self.layers().last()[j] != name@,
            decreases n - i,
        {
            if same_text(self.at_local(i), name) {
                proof {
                    lemma_first_index_is(self.layers().last(), name@, i as int);
                }
                return Some(i);
            }
            i = i + 1;
        }
        None
    }
}

impl StaticHashedNameTable {
    proof fn lemma_unfold(&self)
        ensures
            self.wf() == (link_wf(self.parent, self.initial_idx, self.local_view().len())
                && self.local_ok()),
            self.layers() == link_layers(self.parent).push(self.local_view()),
            self.layers().drop_last() == link_layers(self.parent),
            self.layers().last() == self.local_view(),
            self.local_ok() ==> self.local_view().len() == self.name_offsets@.len() - 1,
            self.wf() ==> flatten_layers(self.layers()) == flatten_layers(link_layers(self.parent))
                + self.local_view(),
            self.wf() ==> flatten_layers(link_layers(self.parent)).len() == self.initial_idx,
    {
        assert(self.layers().drop_last() =~= link_layers(self.parent));
        if self.wf() {
            lemma_link_len(self.parent, self.initial_idx, self.local_view().len());
        }
    }
}

impl NameTable for StaticHashedNameTable {
    closed spec fn wf(&self) -> bool {
        AnyNameTable::Hashed(*self).node_wf()
    }

    closed spec fn layers(&self) -> Layers {
        AnyNameTable::Hashed(*self).node_layers()
    }

    fn parent(&self) -> (r: Option<&AnyNameTable>) {
        match &self.parent {
            Some(p) => Some(&**p),
            None => None,
        }
    }

    fn initial_local(&self) -> (r: usize) {
        proof {
            self.lemma_unfold();
        }
        self.initial_idx
    }

    fn len_local(&self) -> (r: usize) {
        proof {
            self.lemma_unfold();
        }
        self.name_offsets.len() - 1
    }

    fn at_local(&self, idx: usize) -> (r: &str) {
        blob_slice(self.names, self.name_offsets, idx)
    }

    fn find_local(&self, name: &str) -> (r: Option<usize>) {
        if self.hash_enabled() {
            self.find_local_hashing(name)
        } else {
            self.find_local_fallback(name)
        }
    }

    fn len(&self) -> (r: usize) {
        proof {
            self.lemma_unfold();
        }
        self.initial_local() + self.len_local()
    }

    fn at(&self, idx: usize) -> (r: &str) {
        let initial = self.initial_local();
        proof {
            self.lemma_unfold();
        }
        if idx >= initial {
            self.at_local(idx - initial)
        } else {
            self.parent().unwrap().at_in_chain(idx)
        }
    }

    fn find(&self, name: &str) -> (r: Option<usize>) {
        proof {
            self.lemma_unfold();
            lemma_first_index_sound(self.layers().last(), name@);
        }
        match self.find_local(name) {
            Some(i) => Some(self.initial_local() + i),
            None => match self.parent() {
                Some(p) => p.find_in_chain(name),
                None => {
                    proof {
                        assert(layers_lookup(self.layers().drop_last(), name@) is None);
                    }
                    None
                },
            },
        }
    }

    fn into_node(self) -> (r: AnyNameTable) {
        AnyNameTable::Hashed(self)
    }
}

/// A growable table: names are appended by interning and never removed.
pub struct DynamicNameTable {
    initial_idx: usize,
    names: Vec<String>,
    parent: Option<Box<AnyNameTable>>,
}

impl DynamicNameTable {
    /// This table's own names, in the order they were interned.
    pub closed spec fn local_view(&self) -> Seq<Seq<char>> {
        self.names@.map_values(|s: String| s@)
    }

    /// An empty root table.
    pub fn new() -> (r: Self)
        ensures
            r.wf(),
            r.layers() == seq![Seq::<Seq<char>>::empty()],
    {
        let r = DynamicNameTable { initial_idx: 0usize, names: Vec::new(), parent: None };
        proof {
            r.lemma_unfold();
            assert(r.local_view() =~= Seq::<Seq<char>>::empty());
            assert(r.layers() =~= seq![Seq::<Seq<char>>::empty()]);
        }
        r
    }

    /// An empty table whose ids continue where those of `parent` end.
    pub fn new_upon<ParentTableType: NameTable>(parent: ParentTableType) -> (r: Self)
        requires
            parent.wf(),
        ensures
            r.wf(),
            r.layers() == parent.layers().push(Seq::<Seq<char>>::empty()),
    {
        let initial = parent.len();
        let r = DynamicNameTable {
            initial_idx: initial,
            names: Vec::new(),
            parent: Some(Box::new(parent.into_node())),
        };
        proof {
            r.lemma_unfold();
            assert(r.local_view() =~= Seq::<Seq<char>>::empty());
        }
        r
    }

    /// The id of `name`: its id in the chain if it is already there,
    /// otherwise the next id, with `name` appended to this table.
    pub fn intern(&mut self, name: &str) -> (r: usize)
        requires
            old(self).wf(),
            flatten_layers(old(self).layers()).len() < usize::MAX,
        ensures
            final(self).wf(),
            (final(self).layers(), r as nat) == intern_layers(old(self).layers(), name@),
    {
        proof {
            self.lemma_unfold();
        }
        match self.find(name) {
            Some(i) => i,
            None => {
                self.names.push(name.to_owned());
                proof {
                    self.lemma_unfold();
                    assert(self.local_view() =~= old(self).local_view().push(name@));
                    assert(self.layers() =~= old(self).layers().update(
                        old(self).layers().len() - 1,
                        old(self).layers().last().push(name@),
                    ));
                }
                self.initial_idx + self.names.len() - 1
            },
        }
    }

    /// The name that `idx` denotes.
    pub fn index<T: NameTableIdx>(&self, idx: T) -> (r: &str)
        requires
            self.wf(),
            idx.index_value() < flatten_layers(self.layers()).len(),
        ensures
            r@ == flatten_layers(self.layers())[idx.index_value() as int],
    {
        self.at(idx.to_index())
    }
}

impl DynamicNameTable {
    proof fn lemma_unfold(&self)
        ensures
            self.wf() == link_wf(self.parent, self.initial_idx, self.local_view().len()),
            self.layers() == link_layers(self.parent).push(self.local_view()),
            self.layers().drop_last() == link_layers(self.parent),
            self.layers().last() == self.local_view(),
            self.local_view().len() == self.names@.len(),
            self.wf() ==> flatten_layers(self.layers()) == flatten_layers(link_layers(self.parent))
                + self.local_view(),
            self.wf() ==> flatten_layers(link_layers(self.parent)).len() == self.initial_idx,
    {
        assert(self.layers().drop_last() =~= link_layers(self.parent));
        if self.wf() {
            lemma_link_len(self.parent, self.initial_idx, self.local_view().len());
        }
    }
}

impl NameTable for DynamicNameTable {
    closed spec fn wf(&self) -> bool {
        AnyNameTable::Dynamic(*self).node_wf()
    }

    closed spec fn layers(&self) -> Layers {
        AnyNameTable::Dynamic(*self).node_layers()
    }

    fn parent(&self) -> (r: Option<&AnyNameTable>) {
        match &self.parent {
            Some(p) => Some(&**p),
            None => None,
        }
    }

    fn initial_local(&self) -> (r: usize) {
        proof {
            self.lemma_unfold();
        }
        self.initial_idx
    }

    fn len_local(&self) -> (r: usize) {
        proof {
            self.lemma_unfold();
        }
        self.names.len()
    }

    fn at_local(&self, idx: usize) -> (r: &str) {
        self.names[idx].as_str()
    }

    fn find_local(&self, name: &str) -> (r: Option<usize>) {
        let n = self.len_local();
        let mut i: usize = 0;
        while i < n
            invariant
                self.wf(),
                n == self.layers().last().len(),
                i <= n,
                forall|j: int| 0 <= j < i ==> self.layers().last()[j] != name@,
            decreases n - i,
        {
            if same_text(self.at_local(i), name) {
                proof {
                    lemma_first_index_is(self.layers().last(), name@, i as int);
                }
                return Some(i);
            }
            i = i + 1;
        }
        None
    }

    fn len(&self) -> (r: usize) {
        proof {
            self.lemma_unfold();
        }
        self.initial_local() + self.len_local()
    }

    fn at(&self, idx: usize) -> (r: &str) {
        let initial = self.initial_local();
        proof {
            self.lemma_unfold();
        }
        if idx >= initial {
            self.at_local(idx - initial)
        } else {
            self.parent().unwrap().at_in_chain(idx)
        }
    }

    fn find(&self, name: &str) -> (r: Option<usize>) {
        proof {
            self.lemma_unfold();
            lemma_first_index_sound(self.layers().last(), name@);
        }
        match self.find_local(name) {
            Some(i) => Some(self.initial_local() + i),
            None => match self.parent() {
                Some(p) => p.find_in_chain(name),
                None => {
                    proof {
                        assert(layers_lookup(self.layers().drop_last(), name@) is None);
                    }
                    None
                },
            },
        }
    }

    fn into_node(self) -> (r: AnyNameTable) {
        AnyNameTable::Dynamic(self)
    }
}

} // verus!
