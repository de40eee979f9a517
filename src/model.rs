use vstd::prelude::*;

verus! {

/// A chain of tables seen from its outermost node: one sequence of names
/// per node, the root first.
pub type Layers = Seq<Seq<Seq<char>>>;

/// The whole namespace of a chain: each layer's names after those of the
/// layers below it, so that position in this sequence is the global id.
pub open spec fn flatten_layers(layers: Layers) -> Seq<Seq<char>>
    decreases layers.len(),
{
    if layers.len() == 0 {
        Seq::empty()
    } else {
        flatten_layers(layers.drop_last()) + layers.last()
    }
}

/// The sum of the layers' own sizes.
pub open spec fn sum_of_sizes(layers: Layers) -> nat
    decreases layers.len(),
{
    if layers.len() == 0 {
        0
    } else {
        sum_of_sizes(layers.drop_last()) + layers.last().len()
    }
}

/// `i` is the first position of `name` in `names`.
pub open spec fn is_first_index(names: Seq<Seq<char>>, name: Seq<char>, i: int) -> bool {
    &&& 0 <= i < names.len()
    &&& names[i] == name
    &&& forall|j: int| 0 <= j < i ==> names[j] != name
}

/// The first position of `name` in `names`, if it occurs.
pub open spec fn first_index_of(names: Seq<Seq<char>>, name: Seq<char>) -> Option<nat> {
    if exists|i: int| 0 <= i < names.len() && names[i] == name {
        Some((choose|i: int| is_first_index(names, name, i)) as nat)
    } else {
        None
    }
}

/// Lookup over a chain: the outermost layer holding `name` answers with its
/// first position there, shifted by the sizes of the layers below it.
pub open spec fn layers_lookup(layers: Layers, name: Seq<char>) -> Option<nat>
    decreases layers.len(),
{
    if layers.len() == 0 {
        None
    } else {
        match first_index_of(layers.last(), name) {
            Some(i) => Some(flatten_layers(layers.drop_last()).len() + i),
            None => layers_lookup(layers.drop_last(), name),
        }
    }
}

/// Interning into the outermost layer: a name already in the chain keeps its
/// id; a new one is appended to the outermost layer and gets the next id.
pub open spec fn intern_layers(layers: Layers, name: Seq<char>) -> (Layers, nat) {
    match layers_lookup(layers, name) {
        Some(i) => (layers, i),
        None => (
            layers.update(layers.len() - 1, layers.last().push(name)),
            flatten_layers(layers).len(),
        ),
    }
}

/// An optional machine index read as a natural number.
pub open spec fn widen(o: Option<usize>) -> Option<nat> {
    match o {
        Some(i) => Some(i as nat),
        None => None,
    }
}

/// The first match found by a scan is what `first_index_of` names.
pub proof fn lemma_first_index_is(names: Seq<Seq<char>>, name: Seq<char>, i: int)
    requires
        is_first_index(names, name, i),
    ensures
        first_index_of(names, name) == Some(i as nat),
{
    let k = choose|k: int| is_first_index(names, name, k);
    assert(is_first_index(names, name, k));
    if k < i {
        assert(names[k] != name);
    } else if i < k {
        assert(names[i] != name);
    }
}

/// A name that occurs has a first position, and `first_index_of` gives it.
pub proof fn lemma_first_index_found(names: Seq<Seq<char>>, name: Seq<char>, i: int)
    requires
        0 <= i < names.len(),
        names[i] == name,
    ensures
        first_index_of(names, name) matches Some(k) && is_first_index(names, name, k as int) && k <= i,
    decreases i,
{
    if exists|j: int| 0 <= j < i && names[j] == name {
        let j = choose|j: int| 0 <= j < i && names[j] == name;
        lemma_first_index_found(names, name, j);
    } else {
        lemma_first_index_is(names, name, i);
    }
}

/// Whatever `first_index_of` answers is the first position of the name.
pub proof fn lemma_first_index_sound(names: Seq<Seq<char>>, name: Seq<char>)
    ensures
        first_index_of(names, name) matches Some(k) ==> is_first_index(names, name, k as int),
{
    if exists|i: int| 0 <= i < names.len() && names[i] == name {
        let i = choose|i: int| 0 <= i < names.len() && names[i] == name;
        lemma_first_index_found(names, name, i);
    }
}

/// A flattened chain is as long as the sum of its layers' sizes.
pub proof fn lemma_size_additive(layers: Layers)
    ensures
        flatten_layers(layers).len() == sum_of_sizes(layers),
    decreases layers.len(),
{
    if layers.len() > 0 {
        lemma_size_additive(layers.drop_last());
    }
}

/// A flattened chain is its lower layers' names followed by the top layer's.
proof fn lemma_flatten_split(layers: Layers)
    requires
        layers.len() > 0,
    ensures
        flatten_layers(layers) == flatten_layers(layers.drop_last()) + layers.last(),
        flatten_layers(layers).len() == flatten_layers(layers.drop_last()).len()
            + layers.last().len(),
{
}

/// Lookup answers only with a position that holds the name, and finds
/// nothing only when no position does.
pub proof fn lemma_lookup_sound(layers: Layers, name: Seq<char>)
    ensures
        layers_lookup(layers, name) matches Some(r) ==> r < flatten_layers(layers).len()
            && flatten_layers(layers)[r as int] == name,
        layers_lookup(layers, name) is None ==> forall|i: int|
            0 <= i < flatten_layers(layers).len() ==> flatten_layers(layers)[i] != name,
    decreases layers.len(),
{
    if layers.len() > 0 {
        let below = layers.drop_last();
        let top = layers.last();
        lemma_flatten_split(layers);
        lemma_lookup_sound(below, name);
        lemma_first_index_sound(top, name);
        if first_index_of(top, name) is None {
            assert forall|i: int| 0 <= i < top.len() implies top[i] != name by {
                if top[i] == name {
                    lemma_first_index_found(top, name, i);
                }
            }
            assert(layers_lookup(layers, name) == layers_lookup(below, name));
            assert forall|i: int|
                0 <= i < flatten_layers(layers).len() && layers_lookup(layers, name) is None implies flatten_layers(
                layers,
            )[i] != name by {
                if i >= flatten_layers(below).len() {
                    assert(flatten_layers(layers)[i] == top[i - flatten_layers(below).len()]);
                } else {
                    assert(flatten_layers(layers)[i] == flatten_layers(below)[i]);
                }
            }
        }
    }
}

/// Index round trip: in a chain whose names are all distinct, looking up
/// the name at global id `i` gives back `i`.
pub proof fn lemma_index_round_trip(layers: Layers, i: int)
    requires
        forall|a: int, b: int|
            0 <= a < b < flatten_layers(layers).len() ==> flatten_layers(layers)[a]
                != flatten_layers(layers)[b],
        0 <= i < flatten_layers(layers).len(),
    ensures
        layers_lookup(layers, flatten_layers(layers)[i]) == Some(i as nat),
    decreases layers.len(),
{
    let flat = flatten_layers(layers);
    let below = layers.drop_last();
    let top = layers.last();
    let name = flat[i];
    lemma_flatten_split(layers);
    let base = flatten_layers(below).len() as int;
    if i >= base {
        assert forall|j: int| 0 <= j < i - base implies top[j] != name by {
            assert(top[j] == flat[base + j]);
        }
        lemma_first_index_is(top, name, i - base);
    } else {
        assert forall|j: int| 0 <= j < top.len() implies top[j] != name by {
            assert(top[j] == flat[base + j]);
        }
        assert(!(exists|j: int| 0 <= j < top.len() && top[j] == name));
        assert(flatten_layers(below)[i] == name);
        assert forall|a: int, b: int|
            0 <= a < b < flatten_layers(below).len() implies flatten_layers(below)[a]
                != flatten_layers(below)[b] by {
            assert(flat[a] == flatten_layers(below)[a]);
            assert(flat[b] == flatten_layers(below)[b]);
        }
        lemma_index_round_trip(below, i);
    }
}

/// Shadowing: a name held both by the outermost node and by a node below
/// is found in the outermost node, never below it.
pub proof fn lemma_shadowing(layers: Layers, name: Seq<char>)
    requires
        layers.len() > 0,
        layers.last().contains(name),
        flatten_layers(layers.drop_last()).contains(name),
    ensures
        layers_lookup(layers, name) matches Some(r) && r >= flatten_layers(layers.drop_last()).len()
            && r < flatten_layers(layers).len(),
        layers_lookup(layers.drop_last(), name) matches Some(a) && a < flatten_layers(
            layers.drop_last(),
        ).len(),
{
    let top = layers.last();
    let below = layers.drop_last();
    let j = choose|j: int| 0 <= j < top.len() && top[j] == name;
    lemma_first_index_found(top, name, j);
    lemma_flatten_split(layers);
    lemma_lookup_sound(below, name);
    let k = choose|k: int| 0 <= k < flatten_layers(below).len() && flatten_layers(below)[k] == name;
    assert(flatten_layers(below)[k] == name);
}

/// After interning `name`, lookup finds it under the id that intern gave.
proof fn lemma_intern_found(layers: Layers, name: Seq<char>)
    requires
        layers.len() > 0,
    ensures
        intern_layers(layers, name).0.len() == layers.len(),
        layers_lookup(intern_layers(layers, name).0, name) == Some(intern_layers(layers, name).1),
{
    if layers_lookup(layers, name) is None {
        let (next, id) = intern_layers(layers, name);
        let top = layers.last();
        assert(next.drop_last() =~= layers.drop_last());
        lemma_lookup_sound(layers, name);
        lemma_flatten_split(layers);
        assert forall|j: int| 0 <= j < top.len() implies top[j] != name by {
            assert(flatten_layers(layers)[flatten_layers(layers.drop_last()).len() + j] == top[j]);
        }
        lemma_first_index_is(top.push(name), name, top.len() as int);
    }
}

/// Interning one name changes no other name's lookup.
proof fn lemma_intern_keeps(layers: Layers, name: Seq<char>, other: Seq<char>)
    requires
        layers.len() > 0,
        other != name,
    ensures
        layers_lookup(intern_layers(layers, name).0, other) == layers_lookup(layers, other),
{
    if layers_lookup(layers, name) is None {
        let next = intern_layers(layers, name).0;
        let top = layers.last();
        assert(next.drop_last() =~= layers.drop_last());
        assert(next.last() == top.push(name));
        lemma_first_index_sound(top, other);
        match first_index_of(top, other) {
            Some(k) => {
                assert forall|j: int| 0 <= j < k implies top.push(name)[j] != other by {
                    assert(top.push(name)[j] == top[j]);
                }
                lemma_first_index_is(top.push(name), other, k as int);
            },
            None => {
                assert forall|j: int| 0 <= j < top.len() + 1 implies top.push(name)[j] != other by {
                    if j < top.len() && top[j] == other {
                        lemma_first_index_found(top, other, j);
                    }
                }
            },
        }
    }
}

/// Intern idempotence: interning the same name twice gives the same id and
/// leaves the chain as the first call left it, which grew it by at most one.
pub proof fn lemma_intern_idempotent(layers: Layers, name: Seq<char>)
    requires
        layers.len() > 0,
    ensures
        intern_layers(intern_layers(layers, name).0, name) == intern_layers(layers, name),
        flatten_layers(intern_layers(layers, name).0).len() <= flatten_layers(layers).len() + 1,
{
    lemma_intern_found(layers, name);
    if layers_lookup(layers, name) is None {
        let next = intern_layers(layers, name).0;
        lemma_flatten_split(layers);
        lemma_flatten_split(next);
        assert(next.drop_last() =~= layers.drop_last());
    }
}

/// The chain after interning each of `names` in turn.
pub open spec fn intern_each(layers: Layers, names: Seq<Seq<char>>) -> Layers
    decreases names.len(),
{
    if names.len() == 0 {
        layers
    } else {
        intern_layers(intern_each(layers, names.drop_last()), names.last()).0
    }
}

/// How many distinct names among `names` the chain does not hold yet.
pub open spec fn distinct_new(layers: Layers, names: Seq<Seq<char>>) -> nat
    decreases names.len(),
{
    if names.len() == 0 {
        0
    } else {
        distinct_new(layers, names.drop_last()) + if !names.drop_last().contains(names.last())
            && layers_lookup(layers, names.last()) is None {
            1nat
        } else {
            0nat
        }
    }
}

/// One intern grows the chain by one exactly when the name was absent.
proof fn lemma_intern_growth(layers: Layers, name: Seq<char>)
    requires
        layers.len() > 0,
    ensures
        flatten_layers(intern_layers(layers, name).0).len() == flatten_layers(layers).len() + if layers_lookup(layers, name) is None {
            1nat
        } else {
            0nat
        },
{
    if layers_lookup(layers, name) is None {
        let next = intern_layers(layers, name).0;
        lemma_flatten_split(layers);
        lemma_flatten_split(next);
        assert(next.drop_last() =~= layers.drop_last());
    }
}

/// After interning each of `names`, a name is absent exactly when it was
/// absent before and is not among `names`.
proof fn lemma_intern_each_lookup(layers: Layers, names: Seq<Seq<char>>, other: Seq<char>)
    requires
        layers.len() > 0,
    ensures
        intern_each(layers, names).len() == layers.len(),
        layers_lookup(intern_each(layers, names), other) is None <==> (!names.contains(other)
            && layers_lookup(layers, other) is None),
    decreases names.len(),
{
    if names.len() > 0 {
        let prev = names.drop_last();
        let last = names.last();
        lemma_intern_each_lookup(layers, prev, other);
        let mid = intern_each(layers, prev);
        lemma_intern_found(mid, last);
        assert(names =~= prev.push(last));
        if other == last {
            assert(names[names.len() - 1] == other);
        } else {
            lemma_intern_keeps(mid, last, other);
            if names.contains(other) {
                let i = choose|i: int| 0 <= i < names.len() && names[i] == other;
                assert(prev[i] == other);
            }
            if prev.contains(other) {
                let i = choose|i: int| 0 <= i < prev.len() && prev[i] == other;
                assert(names[i] == other);
            }
        }
    }
}

/// A name the chain already holds keeps its id through any run of interns.
proof fn lemma_intern_each_keeps(layers: Layers, names: Seq<Seq<char>>, name: Seq<char>)
    requires
        layers.len() > 0,
        layers_lookup(layers, name) is Some,
    ensures
        layers_lookup(intern_each(layers, names), name) == layers_lookup(layers, name),
    decreases names.len(),
{
    if names.len() > 0 {
        let prev = names.drop_last();
        let last = names.last();
        lemma_intern_each_keeps(layers, prev, name);
        lemma_intern_each_lookup(layers, prev, name);
        let mid = intern_each(layers, prev);
        if last != name {
            lemma_intern_keeps(mid, last, name);
        }
    }
}

/// Intern stability: once `name` has been interned, interning it again,
/// after any run of other interns, gives the same id and changes nothing.
pub proof fn lemma_intern_stable(layers: Layers, name: Seq<char>, others: Seq<Seq<char>>)
    requires
        layers.len() > 0,
    ensures
        intern_layers(intern_each(intern_layers(layers, name).0, others), name) == (
            intern_each(intern_layers(layers, name).0, others),
            intern_layers(layers, name).1,
        ),
{
    let first = intern_layers(layers, name).0;
    lemma_intern_found(layers, name);
    lemma_intern_each_keeps(first, others, name);
}

/// Interning a run of names grows the chain by exactly the number of
/// distinct names among them that it did not hold yet.
pub proof fn lemma_intern_each_growth(layers: Layers, names: Seq<Seq<char>>)
    requires
        layers.len() > 0,
    ensures
        flatten_layers(intern_each(layers, names)).len() == flatten_layers(layers).len()
            + distinct_new(layers, names),
    decreases names.len(),
{
    if names.len() > 0 {
        let prev = names.drop_last();
        let last = names.last();
        lemma_intern_each_growth(layers, prev);
        lemma_intern_each_lookup(layers, prev, last);
        lemma_intern_growth(intern_each(layers, prev), last);
    }
}

} // verus!
