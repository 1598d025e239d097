//! Tables of runs, and the ordered index by which their rows are grouped.
//!
//! A table is a vector of rows. Rows are grouped by instance, by algorithm,
//! or by both; each grouping has an index: for every distinct key one row that
//! carries it, in ascending order of the keys. The position of a key in the
//! index is the position of its group in every result of this library.
use vstd::prelude::*;
use crate::datastructures::{
    algorithm_lt, instance_lt, lemma_algorithm_asymmetric, lemma_algorithm_total,
    lemma_algorithm_transitive, lemma_instance_asymmetric, lemma_instance_total,
    lemma_instance_transitive, Algorithm, AlgorithmId, Instance, InstanceId,
};

verus! {

/// One observed execution of an algorithm on an instance.
#[derive(Debug, PartialEq, Eq)]
pub struct RunRecord {
    /// The algorithm that ran
    pub algorithm: Algorithm,
    /// The instance it ran on
    pub instance: Instance,
    /// The quality it reached (fixed-point, smaller is better)
    pub quality: u64,
    /// The running time in seconds (fixed-point)
    pub time: u64,
    /// The natural logarithm of the running time in seconds (fixed-point)
    pub log_time: i32,
    /// Whether the run was feasible, did not fail and did not time out
    pub valid: bool,
}

impl Clone for RunRecord {
    fn clone(&self) -> (r: Self)
        ensures
            r == *self,
    {
        RunRecord {
            algorithm: self.algorithm.clone(),
            instance: self.instance.clone(),
            quality: self.quality,
            time: self.time,
            log_time: self.log_time,
            valid: self.valid,
        }
    }
}

/// The expected best quality of an algorithm on an instance when a number of
/// replicas of it run.
#[derive(Debug, PartialEq, Eq)]
pub struct StatRow {
    /// The instance
    pub instance: Instance,
    /// The algorithm
    pub algorithm: Algorithm,
    /// The number of replicas
    pub sample_size: u32,
    /// The expected best quality (fixed-point)
    pub e_min: u64,
}

impl Clone for StatRow {
    fn clone(&self) -> (r: Self)
        ensures
            r == *self,
    {
        StatRow {
            instance: self.instance.clone(),
            algorithm: self.algorithm.clone(),
            sample_size: self.sample_size,
            e_min: self.e_min,
        }
    }
}

/// What a row is grouped by: the instance and the algorithm it speaks of.
pub struct Key {
    pub instance: InstanceId,
    pub algorithm: AlgorithmId,
}

/// The part of the key that a grouping looks at.
#[derive(Debug, Clone, Copy, PartialEq, Eq)]
pub enum KeyKind {
    /// Rows of one instance form a group.
    Instance,
    /// Rows of one algorithm form a group.
    Algorithm,
    /// Rows of one algorithm on one instance form a group.
    Group,
}

/// The order of keys under a grouping: by instance, by algorithm, or by
/// instance first and algorithm second.
pub open spec fn key_lt(kind: KeyKind, a: Key, b: Key) -> bool {
    match kind {
        KeyKind::Instance => instance_lt(a.instance, b.instance),
        KeyKind::Algorithm => algorithm_lt(a.algorithm, b.algorithm),
        KeyKind::Group => instance_lt(a.instance, b.instance) || (a.instance == b.instance
            && algorithm_lt(a.algorithm, b.algorithm)),
    }
}

/// Whether two keys fall into the same group.
pub open spec fn key_eq(kind: KeyKind, a: Key, b: Key) -> bool {
    match kind {
        KeyKind::Instance => a.instance == b.instance,
        KeyKind::Algorithm => a.algorithm == b.algorithm,
        KeyKind::Group => a.instance == b.instance && a.algorithm == b.algorithm,
    }
}

/// Under every grouping the keys are totally ordered: of two keys exactly one
/// comes first unless they fall into the same group, and the order is
/// transitive.
pub proof fn lemma_key_order(kind: KeyKind, a: Key, b: Key, c: Key)
    ensures
        key_lt(kind, a, b) || key_eq(kind, a, b) || key_lt(kind, b, a),
        !(key_lt(kind, a, b) && key_lt(kind, b, a)),
        !(key_lt(kind, a, b) && key_eq(kind, a, b)),
        key_lt(kind, a, b) && key_lt(kind, b, c) ==> key_lt(kind, a, c),
{
    lemma_instance_total(a.instance, b.instance);
    lemma_instance_asymmetric(a.instance, b.instance);
    lemma_algorithm_total(a.algorithm, b.algorithm);
    lemma_algorithm_asymmetric(a.algorithm, b.algorithm);
    lemma_algorithm_asymmetric(a.algorithm, a.algorithm);
    if key_lt(kind, a, b) && key_lt(kind, b, c) {
        if instance_lt(a.instance, b.instance) && instance_lt(b.instance, c.instance) {
            lemma_instance_transitive(a.instance, b.instance, c.instance);
        }
        if algorithm_lt(a.algorithm, b.algorithm) && algorithm_lt(b.algorithm, c.algorithm) {
            lemma_algorithm_transitive(a.algorithm, b.algorithm, c.algorithm);
        }
    }
}

/// A row that names an instance and an algorithm.
pub trait Keyed {
    /// The key of the row.
    spec fn key(&self) -> Key;

    /// The instance that the row speaks of.
    fn instance_of(&self) -> (r: &Instance)
        ensures
            r@ == self.key().instance,
    ;

    /// The algorithm that the row speaks of.
    fn algorithm_of(&self) -> (r: &Algorithm)
        ensures
            r@ == self.key().algorithm,
    ;
}

impl Keyed for RunRecord {
    open spec fn key(&self) -> Key {
        Key { instance: self.instance@, algorithm: self.algorithm@ }
    }

    fn instance_of(&self) -> (r: &Instance) {
        &self.instance
    }

    fn algorithm_of(&self) -> (r: &Algorithm) {
        &self.algorithm
    }
}

impl Keyed for StatRow {
    open spec fn key(&self) -> Key {
        Key { instance: self.instance@, algorithm: self.algorithm@ }
    }

    fn instance_of(&self) -> (r: &Instance) {
        &self.instance
    }

    fn algorithm_of(&self) -> (r: &Algorithm) {
        &self.algorithm
    }
}

/// The keys of the rows of a table.
pub open spec fn keys<T: Keyed>(rows: Seq<T>) -> Seq<Key> {
    Seq::new(rows.len(), |i: int| rows[i].key())
}

/// Whether the key of `a` comes before the key of `b`.
pub fn key_less<T: Keyed, U: Keyed>(a: &T, b: &U, kind: KeyKind) -> (r: bool)
    ensures
        r == key_lt(kind, a.key(), b.key()),
{
    match kind {
        KeyKind::Instance => a.instance_of().precedes(b.instance_of()),
        KeyKind::Algorithm => a.algorithm_of().precedes(b.algorithm_of()),
        KeyKind::Group => {
            if a.instance_of().precedes(b.instance_of()) {
                true
            } else if a.instance_of().same_as(b.instance_of()) {
                a.algorithm_of().precedes(b.algorithm_of())
            } else {
                false
            }
        },
    }
}

/// Whether `a` and `b` fall into the same group.
pub fn key_same<T: Keyed, U: Keyed>(a: &T, b: &U, kind: KeyKind) -> (r: bool)
    ensures
        r == key_eq(kind, a.key(), b.key()),
{
    match kind {
        KeyKind::Instance => a.instance_of().same_as(b.instance_of()),
        KeyKind::Algorithm => a.algorithm_of().same_as(b.algorithm_of()),
        KeyKind::Group => a.instance_of().same_as(b.instance_of()) && a.algorithm_of().same_as(
            b.algorithm_of(),
        ),
    }
}

/// `index` lists rows among the first `upto` of the table in strictly
/// ascending order of their keys.
pub open spec fn is_ascending(keys: Seq<Key>, kind: KeyKind, index: Seq<usize>, upto: int) -> bool {
    &&& forall|i: int| 0 <= i < index.len() ==> (#[trigger] index[i]) < upto
    &&& forall|i: int, j: int|
        0 <= i < j < index.len() ==> key_lt(kind, keys[#[trigger] index[i] as int], keys[
            #[trigger] index[j] as int])
}

/// Some row listed in `index` falls into the group of `key`.
pub open spec fn lists(keys: Seq<Key>, kind: KeyKind, index: Seq<usize>, key: Key) -> bool {
    exists|i: int| 0 <= i < index.len() && key_eq(kind, keys[#[trigger] index[i] as int], key)
}

/// Every one of the first `upto` rows of the table has its group listed in
/// `index`.
pub open spec fn covers(keys: Seq<Key>, kind: KeyKind, index: Seq<usize>, upto: int) -> bool {
    forall|r: int| 0 <= r < upto ==> #[trigger] lists(keys, kind, index, keys[r])
}

/// `index` is the index of the table under the grouping `kind`: it lists one
/// row of every group, in strictly ascending order of the keys.
pub open spec fn is_index(keys: Seq<Key>, kind: KeyKind, index: Seq<usize>) -> bool {
    is_ascending(keys, kind, index, keys.len() as int) && covers(keys, kind, index,
        keys.len() as int)
}

/// Where the key of `probe` belongs in an ascending index: the position
/// before which every listed key comes before it and from which on none does.
fn position<T: Keyed, U: Keyed>(rows: &Vec<T>, kind: KeyKind, index: &Vec<usize>, probe: &U) -> (p:
    usize)
    requires
        is_ascending(keys(rows@), kind, index@, rows@.len() as int),
    ensures
        p <= index@.len(),
        forall|i: int|
            0 <= i < p ==> key_lt(kind, keys(rows@)[#[trigger] index@[i] as int], probe.key()),
        forall|i: int|
            p <= i < index@.len() ==> !key_lt(
                kind,
                keys(rows@)[#[trigger] index@[i] as int],
                probe.key(),
            ),
{
    let ghost ks = keys(rows@);
    let mut lo: usize = 0;
    let mut hi: usize = index.len();
    while lo < hi
        invariant
            lo <= hi <= index@.len(),
            ks == keys(rows@),
            is_ascending(ks, kind, index@, rows@.len() as int),
            forall|i: int| 0 <= i < lo ==> key_lt(kind, ks[#[trigger] index@[i] as int],
                probe.key()),
            forall|i: int|
                hi <= i < index@.len() ==> !key_lt(kind, ks[#[trigger] index@[i] as int],
                    probe.key()),
        decreases hi - lo,
    {
        let mid: usize = lo + (hi - lo) / 2;
        let listed: usize = index[mid];
        if key_less(&rows[listed], probe, kind) {
            proof {
                assert forall|i: int| 0 <= i < mid + 1 implies key_lt(
                    kind,
                    ks[#[trigger] index@[i] as int],
                    probe.key(),
                ) by {
                    if i < mid {
                        lemma_key_order(kind, ks[index@[i] as int], ks[listed as int], probe.key());
                    }
                }
            }
            lo = mid + 1;
        } else {
            proof {
                assert forall|i: int| mid <= i < index@.len() implies !key_lt(
                    kind,
                    ks[#[trigger] index@[i] as int],
                    probe.key(),
                ) by {
                    if mid < i {
                        lemma_key_order(kind, ks[listed as int], ks[index@[i] as int], probe.key());
                    }
                }
            }
            hi = mid;
        }
    }
    lo
}

/// The place of the group of `probe` in the index, if the table has a row of
/// that group.
pub fn find<T: Keyed, U: Keyed>(rows: &Vec<T>, kind: KeyKind, index: &Vec<usize>, probe: &U) -> (r:
    Option<usize>)
    requires
        is_index(keys(rows@), kind, index@),
    ensures
        match r {
            Some(i) => i < index@.len() && key_eq(kind, keys(rows@)[index@[i as int] as int],
                probe.key()),
            None => forall|k: int| 0 <= k < rows@.len() ==> !key_eq(kind,
                #[trigger] keys(rows@)[k], probe.key()),
        },
{
    let ghost ks = keys(rows@);
    let p = position(rows, kind, index, probe);
    if p < index.len() && key_same(&rows[index[p]], probe, kind) {
        Some(p)
    } else {
        proof {
            assert forall|k: int| 0 <= k < rows@.len() implies !key_eq(
                kind,
                #[trigger] ks[k],
                probe.key(),
            ) by {
                if key_eq(kind, ks[k], probe.key()) {
                    assert(lists(ks, kind, index@, ks[k]));
                    let i = choose|i: int|
                        0 <= i < index@.len() && key_eq(kind, ks[#[trigger] index@[i] as int],
                            ks[k]);
                    let listed = ks[index@[i] as int];
                    lemma_key_order(kind, listed, probe.key(), probe.key());
                    if i < p {
                        assert(key_lt(kind, ks[index@[i] as int], probe.key()));
                    } else if i > p {
                        lemma_key_order(kind, ks[index@[p as int] as int], listed, probe.key());
                        lemma_key_order(kind, ks[index@[p as int] as int], probe.key(), listed);
                        assert(!key_lt(kind, ks[index@[p as int] as int], probe.key()));
                    }
                }
            }
        }
        None
    }
}

/// Listing a row whose group is not listed yet, at the place where its key
/// belongs, keeps the index ascending and makes it cover that row too.
proof fn lemma_insert_listed(keys: Seq<Key>, kind: KeyKind, before: Seq<usize>, p: int, r: usize)
    requires
        0 <= r < keys.len(),
        0 <= p <= before.len(),
        is_ascending(keys, kind, before, r as int),
        covers(keys, kind, before, r as int),
        forall|i: int| 0 <= i < p ==> key_lt(kind, keys[#[trigger] before[i] as int],
            keys[r as int]),
        forall|i: int|
            p <= i < before.len() ==> !key_lt(kind, keys[#[trigger] before[i] as int],
                keys[r as int]),
        p < before.len() ==> !key_eq(kind, keys[before[p] as int], keys[r as int]),
    ensures
        is_ascending(keys, kind, before.insert(p, r), r + 1),
        covers(keys, kind, before.insert(p, r), r + 1),
{
    let after = before.insert(p, r);
    let probe = keys[r as int];
    assert forall|i: int, j: int| 0 <= i < j < after.len() implies key_lt(
        kind,
        keys[#[trigger] after[i] as int],
        keys[#[trigger] after[j] as int],
    ) by {
        if i == p {
            let old_j = j - 1;
            assert(after[j] == before[old_j]);
            let listed = keys[before[old_j] as int];
            lemma_key_order(kind, listed, probe, probe);
            lemma_key_order(kind, probe, listed, probe);
            if old_j > p {
                let first = keys[before[p] as int];
                lemma_key_order(kind, first, listed, probe);
                lemma_key_order(kind, first, probe, probe);
            }
        } else if j == p {
            assert(after[i] == before[i]);
        } else {
            let old_i = if i < p { i } else { i - 1 };
            let old_j = if j < p { j } else { j - 1 };
            assert(after[i] == before[old_i]);
            assert(after[j] == before[old_j]);
        }
    }
    assert forall|i: int| 0 <= i < after.len() implies (#[trigger] after[i]) < r + 1 by {
        if i != p {
            let old_i = if i < p { i } else { i - 1 };
            assert(after[i] == before[old_i]);
        }
    }
    assert forall|k: int| 0 <= k < r + 1 implies #[trigger] lists(keys, kind, after, keys[k]) by {
        if k == r {
            lemma_key_order(kind, probe, probe, probe);
            assert(key_eq(kind, keys[after[p] as int], keys[k]));
        } else {
            assert(lists(keys, kind, before, keys[k]));
            let i = choose|i: int|
                0 <= i < before.len() && key_eq(kind, keys[#[trigger] before[i] as int], keys[k]);
            let moved = if i < p { i } else { i + 1 };
            assert(after[moved] == before[i]);
            assert(key_eq(kind, keys[after[moved] as int], keys[k]));
        }
    }
}

/// Builds the index of a table under a grouping.
pub fn key_index<T: Keyed>(rows: &Vec<T>, kind: KeyKind) -> (index: Vec<usize>)
    ensures
        is_index(keys(rows@), kind, index@),
{
    let ghost ks = keys(rows@);
    let mut index: Vec<usize> = Vec::new();
    let mut r: usize = 0;
    while r < rows.len()
        invariant
            r <= rows@.len(),
            ks == keys(rows@),
            is_ascending(ks, kind, index@, r as int),
            covers(ks, kind, index@, r as int),
        decreases rows@.len() - r,
    {
        proof {
            assert(is_ascending(ks, kind, index@, rows@.len() as int));
        }
        let p = position(rows, kind, &index, &rows[r]);
        let ghost before = index@;
        if p < index.len() && key_same(&rows[index[p]], &rows[r], kind) {
            proof {
                assert(key_eq(kind, ks[index@[p as int] as int], ks[r as int]));
                assert(lists(ks, kind, index@, ks[r as int]));
            }
        } else {
            index.insert(p, r);
            proof {
                lemma_insert_listed(ks, kind, before, p as int, r);
            }
        }
        r += 1;
    }
    index
}

/// The instances that a table speaks of.
pub open spec fn instance_names(keys: Seq<Key>) -> Set<InstanceId> {
    Set::new(|name: InstanceId| exists|k: int| 0 <= k < keys.len()
        && #[trigger] keys[k].instance == name)
}

/// The algorithms that a table speaks of.
pub open spec fn algorithm_ids(keys: Seq<Key>) -> Set<AlgorithmId> {
    Set::new(|id: AlgorithmId| exists|k: int| 0 <= k < keys.len()
        && #[trigger] keys[k].algorithm == id)
}

/// `names` lists the instances of the table, each once, in ascending order.
pub open spec fn lists_instances(names: Seq<InstanceId>, keys: Seq<Key>) -> bool {
    &&& forall|i: int, j: int| 0 <= i < j < names.len() ==> instance_lt(#[trigger] names[i],
        #[trigger] names[j])
    &&& names.to_set() == instance_names(keys)
}

/// `ids` lists the algorithms of the table, each once, in ascending order.
pub open spec fn lists_algorithms(ids: Seq<AlgorithmId>, keys: Seq<Key>) -> bool {
    &&& forall|i: int, j: int| 0 <= i < j < ids.len() ==> algorithm_lt(#[trigger] ids[i],
        #[trigger] ids[j])
    &&& ids.to_set() == algorithm_ids(keys)
}

/// The instances of the rows that an index by instance lists are the
/// instances of the table in ascending order.
pub proof fn lemma_index_lists_instances(keys: Seq<Key>, index: Seq<usize>, names: Seq<InstanceId>)
    requires
        is_index(keys, KeyKind::Instance, index),
        names.len() == index.len(),
        forall|i: int| 0 <= i < index.len() ==> #[trigger] names[i]
            == keys[index[i] as int].instance,
    ensures
        lists_instances(names, keys),
        names.no_duplicates(),
{
    assert forall|i: int, j: int| 0 <= i < j < names.len() implies instance_lt(
        #[trigger] names[i],
        #[trigger] names[j],
    ) by {
        assert(key_lt(KeyKind::Instance, keys[index[i] as int], keys[index[j] as int]));
    }
    assert forall|name: InstanceId| names.to_set().contains(name)
        <==> instance_names(keys).contains(
        name,
    ) by {
        if names.to_set().contains(name) {
            let i = choose|i: int| 0 <= i < names.len() && names[i] == name;
            assert(keys[index[i] as int].instance == name);
        }
        if instance_names(keys).contains(name) {
            let k = choose|k: int| 0 <= k < keys.len() && #[trigger] keys[k].instance == name;
            assert(lists(keys, KeyKind::Instance, index, keys[k]));
            let i = choose|i: int|
                0 <= i < index.len() && key_eq(
                    KeyKind::Instance,
                    keys[#[trigger] index[i] as int],
                    keys[k],
                );
            assert(names[i] == name);
        }
    }
    assert(names.to_set() =~= instance_names(keys));
    assert forall|i: int, j: int| 0 <= i < names.len() && 0 <= j < names.len() && i != j
        implies names[i]
        != names[j] by {
        lemma_instance_asymmetric(names[i], names[j]);
        if i < j {
            assert(instance_lt(names[i], names[j]));
        } else {
            assert(instance_lt(names[j], names[i]));
        }
    }
}

/// The algorithms of the rows that an index by algorithm lists are the
/// algorithms of the table in ascending order.
pub proof fn lemma_index_lists_algorithms(keys: Seq<Key>, index: Seq<usize>, ids: Seq<AlgorithmId>)
    requires
        is_index(keys, KeyKind::Algorithm, index),
        ids.len() == index.len(),
        forall|i: int| 0 <= i < index.len() ==> #[trigger] ids[i]
            == keys[index[i] as int].algorithm,
    ensures
        lists_algorithms(ids, keys),
        ids.no_duplicates(),
{
    assert forall|i: int, j: int| 0 <= i < j < ids.len() implies algorithm_lt(
        #[trigger] ids[i],
        #[trigger] ids[j],
    ) by {
        assert(key_lt(KeyKind::Algorithm, keys[index[i] as int], keys[index[j] as int]));
    }
    assert forall|id: AlgorithmId| ids.to_set().contains(id)
        <==> algorithm_ids(keys).contains(id) by {
        if ids.to_set().contains(id) {
            let i = choose|i: int| 0 <= i < ids.len() && ids[i] == id;
            assert(keys[index[i] as int].algorithm == id);
        }
        if algorithm_ids(keys).contains(id) {
            let k = choose|k: int| 0 <= k < keys.len() && #[trigger] keys[k].algorithm == id;
            assert(lists(keys, KeyKind::Algorithm, index, keys[k]));
            let i = choose|i: int|
                0 <= i < index.len() && key_eq(
                    KeyKind::Algorithm,
                    keys[#[trigger] index[i] as int],
                    keys[k],
                );
            assert(ids[i] == id);
        }
    }
    assert(ids.to_set() =~= algorithm_ids(keys));
    assert forall|i: int, j: int| 0 <= i < ids.len() && 0 <= j < ids.len() && i != j implies ids[i]
        != ids[j] by {
        lemma_algorithm_asymmetric(ids[i], ids[j]);
        if i < j {
            assert(algorithm_lt(ids[i], ids[j]));
        } else {
            assert(algorithm_lt(ids[j], ids[i]));
        }
    }
}

/// `groups` lists the pairs of instance and algorithm of the table, each
/// once, in ascending order.
pub open spec fn lists_groups(groups: Seq<Key>, keys: Seq<Key>) -> bool {
    &&& forall|i: int, j: int|
        0 <= i < j < groups.len() ==> key_lt(KeyKind::Group, #[trigger] groups[i],
            #[trigger] groups[j])
    &&& groups.to_set() == keys.to_set()
}

/// The keys of the rows that an index by instance and algorithm lists are
/// the pairs of the table in ascending order.
pub proof fn lemma_index_lists_groups(keys: Seq<Key>, index: Seq<usize>, groups: Seq<Key>)
    requires
        is_index(keys, KeyKind::Group, index),
        groups.len() == index.len(),
        forall|i: int| 0 <= i < index.len() ==> #[trigger] groups[i] == keys[index[i] as int],
    ensures
        lists_groups(groups, keys),
{
    assert forall|i: int, j: int| 0 <= i < j < groups.len() implies key_lt(
        KeyKind::Group,
        #[trigger] groups[i],
        #[trigger] groups[j],
    ) by {
        assert(key_lt(KeyKind::Group, keys[index[i] as int], keys[index[j] as int]));
    }
    assert forall|key: Key| groups.to_set().contains(key) <==> keys.to_set().contains(key) by {
        if groups.to_set().contains(key) {
            let i = choose|i: int| 0 <= i < groups.len() && groups[i] == key;
            assert(keys[index[i] as int] == key);
        }
        if keys.to_set().contains(key) {
            let k = choose|k: int| 0 <= k < keys.len() && keys[k] == key;
            assert(lists(keys, KeyKind::Group, index, keys[k]));
            let i = choose|i: int|
                0 <= i < index.len() && key_eq(KeyKind::Group, keys[#[trigger] index[i] as int],
                    keys[k]);
            assert(groups[i].instance == key.instance);
            assert(groups[i].algorithm == key.algorithm);
            assert(groups[i] == key);
        }
    }
    assert(groups.to_set() =~= keys.to_set());
}

/// `order` is irreflexive and transitive.
pub open spec fn is_strict_order<A>(order: spec_fn(A, A) -> bool) -> bool {
    &&& forall|x: A| !#[trigger] order(x, x)
    &&& forall|x: A, y: A, z: A| #[trigger] order(x, y) && #[trigger] order(y, z) ==> order(x, z)
}

/// Every element of `a` comes before the ones after it.
pub open spec fn is_strictly_ascending<A>(a: Seq<A>, order: spec_fn(A, A) -> bool) -> bool {
    forall|i: int, j: int| 0 <= i < j < a.len() ==> order(#[trigger] a[i], #[trigger] a[j])
}

/// A set has at most one strictly ascending listing.
pub proof fn lemma_ascending_unique<A>(a: Seq<A>, b: Seq<A>, order: spec_fn(A, A) -> bool)
    requires
        is_strict_order(order),
        is_strictly_ascending(a, order),
        is_strictly_ascending(b, order),
        a.to_set() == b.to_set(),
    ensures
        a == b,
    decreases a.len(),
{
    if a.len() == 0 {
        if b.len() > 0 {
            assert(b.to_set().contains(b[0]));
            assert(a.contains(b[0]));
        }
        assert(a =~= b);
    } else {
        assert(a.to_set().contains(a[0]));
        assert(b.contains(a[0]));
        let u = choose|u: int| 0 <= u < b.len() && b[u] == a[0];
        assert(b.to_set().contains(b[0]));
        assert(a.contains(b[0]));
        let v = choose|v: int| 0 <= v < a.len() && a[v] == b[0];
        if u > 0 {
            assert(order(b[0], b[u]));
            if v > 0 {
                assert(order(a[0], a[v]));
            }
        }
        assert(a[0] == b[0]);
        let at = a.drop_first();
        let bt = b.drop_first();
        assert forall|x: A| at.to_set().contains(x) <==> bt.to_set().contains(x) by {
            if at.contains(x) {
                let i = choose|i: int| 0 <= i < at.len() && at[i] == x;
                assert(a[i + 1] == x);
                assert(order(a[0], a[i + 1]));
                assert(a.to_set().contains(x));
                assert(b.contains(x));
                let w = choose|w: int| 0 <= w < b.len() && b[w] == x;
                assert(bt[w - 1] == x);
            }
            if bt.contains(x) {
                let i = choose|i: int| 0 <= i < bt.len() && bt[i] == x;
                assert(b[i + 1] == x);
                assert(order(b[0], b[i + 1]));
                assert(b.to_set().contains(x));
                assert(a.contains(x));
                let w = choose|w: int| 0 <= w < a.len() && a[w] == x;
                assert(at[w - 1] == x);
            }
        }
        assert(at.to_set() =~= bt.to_set());
        assert forall|i: int, j: int| 0 <= i < j < at.len() implies order(
            #[trigger] at[i],
            #[trigger] at[j],
        ) by {
            assert(order(a[i + 1], a[j + 1]));
        }
        assert forall|i: int, j: int| 0 <= i < j < bt.len() implies order(
            #[trigger] bt[i],
            #[trigger] bt[j],
        ) by {
            assert(order(b[i + 1], b[j + 1]));
        }
        lemma_ascending_unique(at, bt, order);
        assert(a =~= seq![a[0]] + at);
        assert(b =~= seq![b[0]] + bt);
    }
}

/// Tables that speak of the same instances have the same list of
/// instances.
pub proof fn lemma_instances_unique(
    a: Seq<InstanceId>,
    a_keys: Seq<Key>,
    b: Seq<InstanceId>,
    b_keys: Seq<Key>,
)
    requires
        lists_instances(a, a_keys),
        lists_instances(b, b_keys),
        instance_names(a_keys) == instance_names(b_keys),
    ensures
        a == b,
{
    let order = |x: InstanceId, y: InstanceId| instance_lt(x, y);
    assert forall|x: InstanceId| !#[trigger] order(x, x) by {
        lemma_instance_asymmetric(x, x);
    }
    assert forall|x: InstanceId, y: InstanceId, z: InstanceId| #[trigger] order(x, y)
        && #[trigger] order(
        y,
        z,
    ) implies order(x, z) by {
        lemma_instance_transitive(x, y, z);
    }
    assert(is_strictly_ascending(a, order)) by {
        assert forall|i: int, j: int| 0 <= i < j < a.len() implies order(
            #[trigger] a[i],
            #[trigger] a[j],
        ) by {
            assert(instance_lt(a[i], a[j]));
        }
    }
    assert(is_strictly_ascending(b, order)) by {
        assert forall|i: int, j: int| 0 <= i < j < b.len() implies order(
            #[trigger] b[i],
            #[trigger] b[j],
        ) by {
            assert(instance_lt(b[i], b[j]));
        }
    }
    lemma_ascending_unique(a, b, order);
}

/// Tables that speak of the same algorithms have the same list of
/// algorithms.
pub proof fn lemma_algorithms_unique(
    a: Seq<AlgorithmId>,
    a_keys: Seq<Key>,
    b: Seq<AlgorithmId>,
    b_keys: Seq<Key>,
)
    requires
        lists_algorithms(a, a_keys),
        lists_algorithms(b, b_keys),
        algorithm_ids(a_keys) == algorithm_ids(b_keys),
    ensures
        a == b,
{
    let order = |x: AlgorithmId, y: AlgorithmId| algorithm_lt(x, y);
    assert forall|x: AlgorithmId| !#[trigger] order(x, x) by {
        lemma_algorithm_asymmetric(x, x);
    }
    assert forall|x: AlgorithmId, y: AlgorithmId, z: AlgorithmId| #[trigger] order(x, y)
        && #[trigger] order(y, z) implies order(x, z) by {
        lemma_algorithm_transitive(x, y, z);
    }
    assert(is_strictly_ascending(a, order)) by {
        assert forall|i: int, j: int| 0 <= i < j < a.len() implies order(
            #[trigger] a[i],
            #[trigger] a[j],
        ) by {
            assert(algorithm_lt(a[i], a[j]));
        }
    }
    assert(is_strictly_ascending(b, order)) by {
        assert forall|i: int, j: int| 0 <= i < j < b.len() implies order(
            #[trigger] b[i],
            #[trigger] b[j],
        ) by {
            assert(algorithm_lt(b[i], b[j]));
        }
    }
    lemma_ascending_unique(a, b, order);
}

/// The instances of a table in ascending order.
pub open spec fn instance_list(keys: Seq<Key>) -> Seq<InstanceId> {
    choose|names: Seq<InstanceId>| lists_instances(names, keys)
}

/// The algorithms of a table in ascending order.
pub open spec fn algorithm_list(keys: Seq<Key>) -> Seq<AlgorithmId> {
    choose|ids: Seq<AlgorithmId>| lists_algorithms(ids, keys)
}

/// An ascending list of the instances of a table is the list of its
/// instances.
pub proof fn lemma_instance_list(names: Seq<InstanceId>, keys: Seq<Key>)
    requires
        lists_instances(names, keys),
    ensures
        instance_list(keys) == names,
        names.len() == instance_names(keys).len(),
        names.no_duplicates(),
{
    lemma_instances_unique(instance_list(keys), keys, names, keys);
    assert forall|i: int, j: int| 0 <= i < names.len() && 0 <= j < names.len() && i != j
        implies names[i]
        != names[j] by {
        lemma_instance_asymmetric(names[i], names[j]);
        if i < j {
            assert(instance_lt(names[i], names[j]));
        } else {
            assert(instance_lt(names[j], names[i]));
        }
    }
    names.unique_seq_to_set();
}

/// An ascending list of the algorithms of a table is the list of its
/// algorithms.
pub proof fn lemma_algorithm_list(ids: Seq<AlgorithmId>, keys: Seq<Key>)
    requires
        lists_algorithms(ids, keys),
    ensures
        algorithm_list(keys) == ids,
        ids.len() == algorithm_ids(keys).len(),
        ids.no_duplicates(),
{
    lemma_algorithms_unique(algorithm_list(keys), keys, ids, keys);
    assert forall|i: int, j: int| 0 <= i < ids.len() && 0 <= j < ids.len() && i != j implies ids[i]
        != ids[j] by {
        lemma_algorithm_asymmetric(ids[i], ids[j]);
        if i < j {
            assert(algorithm_lt(ids[i], ids[j]));
        } else {
            assert(algorithm_lt(ids[j], ids[i]));
        }
    }
    ids.unique_seq_to_set();
}

/// Filtering a sequence that ends in `last` filters what comes before, and
/// keeps `last` if it passes.
pub proof fn lemma_filter_push<A>(front: Seq<A>, last: A, pred: spec_fn(A) -> bool)
    ensures
        front.push(last).filter(pred) == if pred(last) {
            front.filter(pred).push(last)
        } else {
            front.filter(pred)
        },
{
    reveal(Seq::filter);
    assert(front.push(last).drop_last() =~= front);
}

} // verus!
