//! The configuration tree: a tagged union of scalar leaves and nested
//! namespaces, and the insertion of one dotted key at a time.
//!
//! A [`ConfigValue`] is abstracted by the ghost [`ValModel`], with entry
//! sequences in insertion order. Insertion splits the dotted key on `.`,
//! materializes the missing intermediate namespaces, and binds a value at the
//! final segment, overwriting whatever was bound there before. A key whose
//! *intermediate* segment is already bound to a scalar cannot be descended
//! into: that insertion fails with a [`ConflictError`] naming the dotted key,
//! and leaves the tree unchanged.

use vstd::prelude::*;

use crate::parser::parse_line;
use crate::parser::spec_parse_line;
use crate::strutil::chars_of;
use crate::strutil::string_of_range;

verus! {

/// One value in a configuration tree: either a raw string exactly as it
/// appeared after the `=`, or a namespace of named sub-values kept in
/// insertion order.
#[derive(Debug, PartialEq, Eq)]
pub enum ConfigValue {
    Leaf(String),
    Node(Vec<(String, ConfigValue)>),
}

/// The mathematical shape of a [`ConfigValue`]: strings become character
/// sequences, namespaces become sequences of (key, value) pairs in insertion
/// order.
pub enum ValModel {
    Leaf(Seq<char>),
    Node(Seq<(Seq<char>, ValModel)>),
}

/// The model of a sequence of namespace entries, entry by entry.
pub open spec fn entries_model(es: Seq<(String, ConfigValue)>) -> Seq<(Seq<char>, ValModel)>
    decreases es,
{
    if es.len() == 0 {
        Seq::empty()
    } else {
        entries_model(es.drop_last()).push((es.last().0@, val_model(es.last().1)))
    }
}

/// The model of one configuration value.
pub open spec fn val_model(v: ConfigValue) -> ValModel
    decreases v,
{
    match v {
        ConfigValue::Leaf(s) => ValModel::Leaf(s@),
        ConfigValue::Node(es) => ValModel::Node(entries_model(es@)),
    }
}

impl View for ConfigValue {
    type V = ValModel;

    open spec fn view(&self) -> ValModel {
        val_model(*self)
    }
}

/// The model of a vector of strings, string by string.
pub open spec fn strs_model(ss: Seq<String>) -> Seq<Seq<char>> {
    Seq::new(ss.len(), |i: int| ss[i]@)
}

/// Well-formedness of the values bound in a namespace, value by value.
pub open spec fn entries_vals_wf(es: Seq<(Seq<char>, ValModel)>) -> bool
    decreases es, 0int,
{
    if es.len() == 0 {
        true
    } else {
        entries_vals_wf(es.drop_last()) && val_wf(es.last().1)
    }
}

/// Well-formedness of a namespace: keys are distinct and every bound value is
/// itself well-formed.
pub open spec fn entries_wf(es: Seq<(Seq<char>, ValModel)>) -> bool
    decreases es, 1int,
{
    &&& entries_vals_wf(es)
    &&& forall|i: int, j: int| 0 <= i < j < es.len() ==> es[i].0 != es[j].0
}

/// Well-formedness of a configuration value.
pub open spec fn val_wf(v: ValModel) -> bool
    decreases v, 0int,
{
    match v {
        ValModel::Leaf(_) => true,
        ValModel::Node(es) => entries_wf(es),
    }
}

/// The value bound under key `k`, scanning entries front to back.
pub open spec fn obj_get(es: Seq<(Seq<char>, ValModel)>, k: Seq<char>) -> Option<ValModel>
    decreases es.len(),
{
    if es.len() == 0 {
        None
    } else if es[0].0 == k {
        Some(es[0].1)
    } else {
        obj_get(es.drop_first(), k)
    }
}

/// Bind `v` under key `k`: replace the first entry whose key is `k`, keeping
/// its position, or append a new entry at the end.
pub open spec fn obj_set(es: Seq<(Seq<char>, ValModel)>, k: Seq<char>, v: ValModel) -> Seq<
    (Seq<char>, ValModel),
>
    decreases es.len(),
{
    if es.len() == 0 {
        seq![(k, v)]
    } else if es[0].0 == k {
        seq![(k, v)] + es.drop_first()
    } else {
        seq![es[0]] + obj_set(es.drop_first(), k, v)
    }
}

/// A fresh chain of single-entry namespaces along `path`, ending in `v`.
pub open spec fn build_path(path: Seq<Seq<char>>, v: ValModel) -> ValModel
    decreases path.len(),
{
    if path.len() == 0 {
        v
    } else {
        ValModel::Node(seq![(path[0], build_path(path.drop_first(), v))])
    }
}

/// Insert `v` at `path`: walk the namespaces named by all segments but the
/// last, creating missing ones, and bind `v` at the final segment, replacing
/// whatever was bound there. `None` when an intermediate segment is already
/// bound to a leaf (a conflict); the result is then discarded.
pub open spec fn obj_insert(
    es: Seq<(Seq<char>, ValModel)>,
    path: Seq<Seq<char>>,
    v: ValModel,
) -> Option<Seq<(Seq<char>, ValModel)>>
    decreases path.len(),
{
    if path.len() == 0 {
        Some(es)
    } else if path.len() == 1 {
        Some(obj_set(es, path[0], v))
    } else {
        match obj_get(es, path[0]) {
            None => Some(es.push((path[0], build_path(path.drop_first(), v)))),
            Some(ValModel::Node(sub)) => match obj_insert(sub, path.drop_first(), v) {
                Some(sub2) => Some(obj_set(es, path[0], ValModel::Node(sub2))),
                None => None,
            },
            Some(ValModel::Leaf(_)) => None,
        }
    }
}

/// Split a character sequence on `.`: one segment more than there are dots,
/// segments may be empty.
pub open spec fn split_on_dots(s: Seq<char>) -> Seq<Seq<char>>
    decreases s.len(),
{
    if s.len() == 0 {
        seq![Seq::<char>::empty()]
    } else if s[0] == '.' {
        seq![Seq::<char>::empty()] + split_on_dots(s.drop_first())
    } else {
        let r = split_on_dots(s.drop_first());
        seq![seq![s[0]] + r[0]] + r.drop_first()
    }
}

pub proof fn lemma_split_len(s: Seq<char>)
    ensures
        split_on_dots(s).len() >= 1,
    decreases s.len(),
{
    if s.len() > 0 {
        lemma_split_len(s.drop_first());
    }
}

/// A sequence without dots splits into itself alone.
pub proof fn lemma_split_no_dot(s: Seq<char>)
    requires
        forall|x: int| 0 <= x < s.len() ==> s[x] != '.',
    ensures
        split_on_dots(s) == seq![s],
    decreases s.len(),
{
    if s.len() > 0 {
        lemma_split_no_dot(s.drop_first());
        let r = split_on_dots(s.drop_first());
        assert(r == seq![s.drop_first()]);
        assert(r.drop_first() =~= Seq::<Seq<char>>::empty());
        assert(seq![s[0]] + r[0] =~= s);
        assert(split_on_dots(s) =~= seq![s]);
    } else {
        assert(s =~= Seq::<char>::empty());
    }
}

/// Splitting at the first dot: everything before it is the first segment, the
/// rest splits on its own.
pub proof fn lemma_split_dot_at(s: Seq<char>, j: int)
    requires
        0 <= j < s.len(),
        s[j] == '.',
        forall|x: int| 0 <= x < j ==> s[x] != '.',
    ensures
        split_on_dots(s) == seq![s.take(j)] + split_on_dots(s.skip(j + 1)),
    decreases j,
{
    lemma_split_len(s);
    if j == 0 {
        assert(split_on_dots(s) == seq![Seq::<char>::empty()] + split_on_dots(s.drop_first()));
        assert(s.take(0) =~= Seq::<char>::empty());
        assert(s.drop_first() =~= s.skip(1));
    } else {
        let t = s.drop_first();
        lemma_split_dot_at(t, j - 1);
        lemma_split_len(t.skip(j));
        let r = split_on_dots(t);
        assert(r == seq![t.take(j - 1)] + split_on_dots(t.skip(j)));
        assert(r[0] == t.take(j - 1));
        assert(r.drop_first() =~= split_on_dots(t.skip(j)));
        assert(seq![s[0]] + t.take(j - 1) =~= s.take(j));
        assert(t.skip(j) =~= s.skip(j + 1));
        assert(split_on_dots(s) == seq![seq![s[0]] + r[0]] + r.drop_first());
    }
}

pub broadcast proof fn lemma_entries_model_len(es: Seq<(String, ConfigValue)>)
    ensures
        #[trigger] entries_model(es).len() == es.len(),
    decreases es,
{
    if es.len() > 0 {
        lemma_entries_model_len(es.drop_last());
    }
}

pub broadcast proof fn lemma_entries_model_index(es: Seq<(String, ConfigValue)>, i: int)
    requires
        0 <= i < es.len(),
    ensures
        #[trigger] entries_model(es)[i] == (es[i].0@, val_model(es[i].1)),
    decreases es,
{
    lemma_entries_model_len(es);
    if i < es.len() - 1 {
        lemma_entries_model_index(es.drop_last(), i);
    }
}

pub proof fn lemma_obj_get_absent(es: Seq<(Seq<char>, ValModel)>, k: Seq<char>)
    requires
        forall|x: int| 0 <= x < es.len() ==> es[x].0 != k,
    ensures
        obj_get(es, k) is None,
    decreases es.len(),
{
    if es.len() > 0 {
        lemma_obj_get_absent(es.drop_first(), k);
    }
}

pub proof fn lemma_obj_get_found(es: Seq<(Seq<char>, ValModel)>, k: Seq<char>, j: int)
    requires
        0 <= j < es.len(),
        es[j].0 == k,
        forall|x: int| 0 <= x < j ==> es[x].0 != k,
    ensures
        obj_get(es, k) == Some(es[j].1),
    decreases j,
{
    if j > 0 {
        lemma_obj_get_found(es.drop_first(), k, j - 1);
    }
}

pub proof fn lemma_obj_set_absent(es: Seq<(Seq<char>, ValModel)>, k: Seq<char>, v: ValModel)
    requires
        forall|x: int| 0 <= x < es.len() ==> es[x].0 != k,
    ensures
        obj_set(es, k, v) == es.push((k, v)),
    decreases es.len(),
{
    if es.len() == 0 {
        assert(seq![(k, v)] =~= es.push((k, v)));
    } else {
        lemma_obj_set_absent(es.drop_first(), k, v);
        assert(seq![es[0]] + es.drop_first().push((k, v)) =~= es.push((k, v)));
    }
}

pub proof fn lemma_obj_set_found(es: Seq<(Seq<char>, ValModel)>, k: Seq<char>, v: ValModel, j: int)
    requires
        0 <= j < es.len(),
        es[j].0 == k,
        forall|x: int| 0 <= x < j ==> es[x].0 != k,
    ensures
        obj_set(es, k, v) == es.update(j, (k, v)),
    decreases j,
{
    if j == 0 {
        assert(seq![(k, v)] + es.drop_first() =~= es.update(0, (k, v)));
    } else {
        lemma_obj_set_found(es.drop_first(), k, v, j - 1);
        assert(seq![es[0]] + es.drop_first().update(j - 1, (k, v)) =~= es.update(j, (k, v)));
    }
}

/// The position of the first entry whose key is `k`; the length when none is.
pub open spec fn key_index(es: Seq<(Seq<char>, ValModel)>, k: Seq<char>) -> int
    decreases es.len(),
{
    if es.len() == 0 {
        0
    } else if es[0].0 == k {
        0
    } else {
        1 + key_index(es.drop_first(), k)
    }
}

pub proof fn lemma_key_index(es: Seq<(Seq<char>, ValModel)>, k: Seq<char>)
    ensures
        0 <= key_index(es, k) <= es.len(),
        key_index(es, k) < es.len() ==> es[key_index(es, k)].0 == k,
        forall|x: int| 0 <= x < key_index(es, k) ==> es[x].0 != k,
    decreases es.len(),
{
    if es.len() > 0 && es[0].0 != k {
        lemma_key_index(es.drop_first(), k);
        assert forall|x: int| 0 <= x < key_index(es, k) implies es[x].0 != k by {
            if x > 0 {
                assert(es.drop_first()[x - 1] == es[x]);
            }
        }
    }
}

pub proof fn lemma_obj_get_at_key_index(es: Seq<(Seq<char>, ValModel)>, k: Seq<char>)
    ensures
        obj_get(es, k) == (if key_index(es, k) < es.len() {
            Some(es[key_index(es, k)].1)
        } else {
            None::<ValModel>
        }),
{
    lemma_key_index(es, k);
    if key_index(es, k) < es.len() {
        lemma_obj_get_found(es, k, key_index(es, k));
    } else {
        lemma_obj_get_absent(es, k);
    }
}

pub proof fn lemma_obj_get_none(es: Seq<(Seq<char>, ValModel)>, k: Seq<char>)
    requires
        obj_get(es, k) is None,
    ensures
        forall|x: int| 0 <= x < es.len() ==> es[x].0 != k,
    decreases es.len(),
{
    if es.len() > 0 {
        lemma_obj_get_none(es.drop_first(), k);
        assert forall|x: int| 0 <= x < es.len() implies es[x].0 != k by {
            if x > 0 {
                assert(es.drop_first()[x - 1] == es[x]);
            }
        }
    }
}

pub proof fn lemma_entries_vals_wf(es: Seq<(Seq<char>, ValModel)>)
    ensures
        entries_vals_wf(es) <==> (forall|x: int|
            0 <= x < es.len() ==> val_wf(#[trigger] es[x].1)),
    decreases es.len(),
{
    if es.len() > 0 {
        lemma_entries_vals_wf(es.drop_last());
        assert(forall|x: int| 0 <= x < es.len() - 1 ==> es.drop_last()[x] == #[trigger] es[x]);
    }
}

pub proof fn lemma_obj_set_wf(es: Seq<(Seq<char>, ValModel)>, k: Seq<char>, v: ValModel)
    requires
        entries_wf(es),
        val_wf(v),
    ensures
        entries_wf(obj_set(es, k, v)),
{
    lemma_key_index(es, k);
    lemma_entries_vals_wf(es);
    let j = key_index(es, k);
    if j < es.len() {
        lemma_obj_set_found(es, k, v, j);
        let es2 = es.update(j, (k, v));
        assert(forall|x: int| 0 <= x < es2.len() ==> #[trigger] es2[x].0 == es[x].0);
        lemma_entries_vals_wf(es2);
    } else {
        lemma_obj_set_absent(es, k, v);
        let es2 = es.push((k, v));
        lemma_entries_vals_wf(es2);
    }
}

pub proof fn lemma_build_path_wf(path: Seq<Seq<char>>, v: ValModel)
    requires
        val_wf(v),
    ensures
        val_wf(build_path(path, v)),
    decreases path.len(),
{
    if path.len() > 0 {
        lemma_build_path_wf(path.drop_first(), v);
        let inner = seq![(path[0], build_path(path.drop_first(), v))];
        lemma_entries_vals_wf(inner);
    }
}

/// Law: a well-formed tree stays well-formed under every successful
/// insertion. In particular, at any path each key still names either a leaf
/// or a namespace, never both, and the keys of every namespace stay distinct.
pub proof fn lemma_insert_preserves_wf(es: Seq<(Seq<char>, ValModel)>, path: Seq<Seq<char>>, v: ValModel)
    requires
        entries_wf(es),
        val_wf(v),
    ensures
        obj_insert(es, path, v) matches Some(es2) ==> entries_wf(es2),
    decreases path.len(),
{
    if path.len() == 0 {
    } else if path.len() == 1 {
        lemma_obj_set_wf(es, path[0], v);
    } else {
        lemma_obj_get_at_key_index(es, path[0]);
        lemma_key_index(es, path[0]);
        lemma_entries_vals_wf(es);
        match obj_get(es, path[0]) {
            None => {
                lemma_build_path_wf(path.drop_first(), v);
                let es2 = es.push((path[0], build_path(path.drop_first(), v)));
                lemma_entries_vals_wf(es2);
            },
            Some(sub_val) => match sub_val {
                ValModel::Node(sub) => {
                    lemma_insert_preserves_wf(sub, path.drop_first(), v);
                    match obj_insert(sub, path.drop_first(), v) {
                        Some(sub2) => {
                            lemma_obj_set_wf(es, path[0], ValModel::Node(sub2));
                        },
                        None => {},
                    }
                },
                ValModel::Leaf(_) => {},
            },
        }
    }
}

pub proof fn lemma_obj_set_set(es: Seq<(Seq<char>, ValModel)>, k: Seq<char>, v1: ValModel, v2: ValModel)
    ensures
        obj_set(obj_set(es, k, v1), k, v2) == obj_set(es, k, v2),
    decreases es.len(),
{
    if es.len() == 0 {
        assert(seq![(k, v1)].drop_first() =~= Seq::<(Seq<char>, ValModel)>::empty());
        assert(obj_set(seq![(k, v1)], k, v2) =~= seq![(k, v2)]);
        assert(obj_set(es, k, v2) =~= seq![(k, v2)]);
    } else if es[0].0 == k {
        let t1 = seq![(k, v1)] + es.drop_first();
        assert(t1[0] == (k, v1));
        assert(t1.drop_first() =~= es.drop_first());
        assert(obj_set(t1, k, v2) == seq![(k, v2)] + t1.drop_first());
    } else {
        lemma_obj_set_set(es.drop_first(), k, v1, v2);
        let t1 = seq![es[0]] + obj_set(es.drop_first(), k, v1);
        assert(t1[0] == es[0]);
        assert(t1.drop_first() =~= obj_set(es.drop_first(), k, v1));
        assert(obj_set(t1, k, v2) == seq![t1[0]] + obj_set(t1.drop_first(), k, v2));
    }
}

pub proof fn lemma_obj_get_after_set(es: Seq<(Seq<char>, ValModel)>, k: Seq<char>, v: ValModel)
    ensures
        obj_get(obj_set(es, k, v), k) == Some(v),
    decreases es.len(),
{
    if es.len() == 0 {
        assert(obj_set(es, k, v)[0] == (k, v));
    } else if es[0].0 == k {
        assert(obj_set(es, k, v)[0] == (k, v));
    } else {
        lemma_obj_get_after_set(es.drop_first(), k, v);
        let t = seq![es[0]] + obj_set(es.drop_first(), k, v);
        assert(t[0] == es[0]);
        assert(t.drop_first() =~= obj_set(es.drop_first(), k, v));
    }
}

pub proof fn lemma_obj_get_push(es: Seq<(Seq<char>, ValModel)>, k: Seq<char>, p: (Seq<char>, ValModel))
    requires
        forall|x: int| 0 <= x < es.len() ==> es[x].0 != k,
        p.0 == k,
    ensures
        obj_get(es.push(p), k) == Some(p.1),
    decreases es.len(),
{
    if es.len() == 0 {
        assert(es.push(p)[0] == p);
    } else {
        assert(es.push(p)[0] == es[0]);
        assert(es.push(p).drop_first() =~= es.drop_first().push(p));
        assert(forall|x: int| 0 <= x < es.drop_first().len()
            ==> #[trigger] es.drop_first()[x].0 == es[x + 1].0);
        lemma_obj_get_push(es.drop_first(), k, p);
    }
}

pub proof fn lemma_insert_into_built(path: Seq<Seq<char>>, v1: ValModel, v2: ValModel)
    requires
        path.len() >= 1,
    ensures
        obj_insert(seq![(path[0], build_path(path.drop_first(), v1))], path, v2) == Some(
            seq![(path[0], build_path(path.drop_first(), v2))],
        ),
    decreases path.len(),
{
    let k = path[0];
    let single1 = seq![(k, build_path(path.drop_first(), v1))];
    if path.len() == 1 {
        assert(path.drop_first().len() == 0);
        assert(obj_set(single1, k, v2) == seq![(k, v2)] + single1.drop_first());
        assert(seq![(k, v2)] + single1.drop_first() =~= seq![(k, v2)]);
    } else {
        let rest = path.drop_first();
        assert(obj_get(single1, k) == Some(single1[0].1));
        assert(rest.len() >= 1);
        lemma_insert_into_built(rest, v1, v2);
        let inner2 = seq![(rest[0], build_path(rest.drop_first(), v2))];
        assert(obj_set(single1, k, ValModel::Node(inner2)) == seq![(k, ValModel::Node(inner2))]
            + single1.drop_first());
        assert(seq![(k, ValModel::Node(inner2))] + single1.drop_first() =~= seq![
            (k, ValModel::Node(inner2)),
        ]);
        assert(build_path(rest, v2) == ValModel::Node(inner2));
    }
}

/// Law: the last write to a dotted key wins. Inserting at a key and then
/// inserting again at the same key leaves exactly the tree that the second
/// insertion alone would have left.
pub proof fn lemma_last_write_wins(es: Seq<(Seq<char>, ValModel)>, path: Seq<Seq<char>>, v1: ValModel, v2: ValModel)
    ensures
        obj_insert(es, path, v1) matches Some(es1) ==> obj_insert(es1, path, v2) == obj_insert(
            es,
            path,
            v2,
        ),
    decreases path.len(),
{
    if path.len() == 0 {
    } else if path.len() == 1 {
        lemma_obj_set_set(es, path[0], v1, v2);
    } else {
        let k = path[0];
        let rest = path.drop_first();
        match obj_get(es, k) {
            None => {
                let b1 = build_path(rest, v1);
                let es1 = es.push((k, b1));
                lemma_obj_get_none(es, k);
                lemma_obj_get_push(es, k, (k, b1));
                assert(rest.len() >= 1);
                assert(b1 == ValModel::Node(seq![(rest[0], build_path(rest.drop_first(), v1))]));
                lemma_insert_into_built(rest, v1, v2);
                let inner2 = seq![(rest[0], build_path(rest.drop_first(), v2))];
                lemma_obj_set_found(es1, k, ValModel::Node(inner2), es.len() as int);
                assert(es1.update(es.len() as int, (k, ValModel::Node(inner2))) =~= es.push(
                    (k, build_path(rest, v2)),
                ));
            },
            Some(sub_val) => match sub_val {
                ValModel::Node(sub) => {
                    match obj_insert(sub, rest, v1) {
                        Some(sub2) => {
                            let es1 = obj_set(es, k, ValModel::Node(sub2));
                            lemma_obj_get_after_set(es, k, ValModel::Node(sub2));
                            lemma_last_write_wins(sub, rest, v1, v2);
                            match obj_insert(sub, rest, v2) {
                                Some(sub3) => {
                                    lemma_obj_set_set(es, k, ValModel::Node(sub2), ValModel::Node(sub3));
                                },
                                None => {},
                            }
                        },
                        None => {},
                    }
                },
                ValModel::Leaf(_) => {},
            },
        }
    }
}

pub proof fn lemma_entries_model_push(es: Seq<(String, ConfigValue)>, p: (String, ConfigValue))
    ensures
        entries_model(es.push(p)) == entries_model(es).push((p.0@, val_model(p.1))),
{
    assert(es.push(p).drop_last() =~= es);
}

pub proof fn lemma_entries_model_update(es: Seq<(String, ConfigValue)>, j: int, p: (String, ConfigValue))
    requires
        0 <= j < es.len(),
    ensures
        entries_model(es.update(j, p)) == entries_model(es).update(j, (p.0@, val_model(p.1))),
{
    broadcast use lemma_entries_model_len, lemma_entries_model_index;

    assert(entries_model(es.update(j, p)) =~= entries_model(es).update(j, (p.0@, val_model(p.1))));
}

/// The error of an insertion whose dotted key has an intermediate segment
/// already bound to a scalar value. Carries the offending dotted key.
#[derive(Debug, PartialEq, Eq)]
pub struct ConflictError {
    pub key: String,
}

impl ConfigValue {
    /// Borrow the entries of this value when it is a namespace; `None` when it
    /// is a scalar leaf.
    pub fn as_map_mut(&mut self) -> (r: Option<&mut Vec<(String, ConfigValue)>>)
        ensures
            match r {
                Some(m) => {
                    &&& *old(self) == ConfigValue::Node(*m)
                    &&& *final(self) == ConfigValue::Node(*final(m))
                },
                None => {
                    &&& *old(self) is Leaf
                    &&& *final(self) == *old(self)
                },
            },
    {
        match self {
            ConfigValue::Node(es) => Some(es),
            ConfigValue::Leaf(_) => None,
        }
    }
}

/// Split a dotted key on `.` into its segments, in order.
pub fn split_key(key: &str) -> (segs: Vec<String>)
    ensures
        strs_model(segs@) == split_on_dots(key@),
        segs@.len() >= 1,
{
    let cs = chars_of(key);
    proof {
        assert(cs@.skip(0) =~= key@);
        lemma_split_len(key@);
    }
    split_chars(&cs, 0)
}

/// A fresh chain of single-entry namespaces named by `segs[from..]`, ending in
/// `value`.
fn build_subtree(segs: &Vec<String>, from: usize, value: ConfigValue) -> (r: ConfigValue)
    requires
        from <= segs@.len(),
    ensures
        val_model(r) == build_path(strs_model(segs@).skip(from as int), val_model(value)),
    decreases segs@.len() - from,
{
    if from == segs.len() {
        proof {
            assert(strs_model(segs@).skip(from as int) =~= Seq::<Seq<char>>::empty());
        }
        value
    } else {
        let inner = build_subtree(segs, from + 1, value);
        let k = segs[from].clone();
        let mut es: Vec<(String, ConfigValue)> = Vec::new();
        es.push((k, inner));
        proof {
            let p = strs_model(segs@).skip(from as int);
            assert(p.drop_first() =~= strs_model(segs@).skip(from as int + 1));
            assert(es@.drop_last() =~= Seq::<(String, ConfigValue)>::empty());
            assert(entries_model(Seq::<(String, ConfigValue)>::empty())
                == Seq::<(Seq<char>, ValModel)>::empty());
            assert(entries_model(es@) =~= seq![(k@, val_model(inner))]);
        }
        ConfigValue::Node(es)
    }
}

/// Insert `value` at the key path `segs[i..]`, walking `entries` as the
/// current namespace. On conflict the tree is left unchanged.
fn insert_at(
    entries: &mut Vec<(String, ConfigValue)>,
    segs: &Vec<String>,
    i: usize,
    value: ConfigValue,
) -> (r: Result<(), ()>)
    requires
        i < segs@.len(),
    ensures
        match r {
            Ok(()) => obj_insert(
                entries_model(old(entries)@),
                strs_model(segs@).skip(i as int),
                val_model(value),
            ) == Some(entries_model(final(entries)@)),
            Err(()) => {
                &&& obj_insert(
                    entries_model(old(entries)@),
                    strs_model(segs@).skip(i as int),
                    val_model(value),
                ) is None
                &&& entries_model(final(entries)@) == entries_model(old(entries)@)
            },
        },
    decreases segs@.len() - i,
{
    let ghost es0 = entries@;
    let ghost m0 = entries_model(es0);
    let ghost path = strs_model(segs@).skip(i as int);
    proof {
        broadcast use lemma_entries_model_len, lemma_entries_model_index;
    }
    let n = entries.len();
    let mut j: usize = 0;
    while j < n && entries[j].0 != segs[i]
        invariant
            i < segs@.len(),
            j <= n,
            n == entries@.len(),
            entries@ == es0,
            forall|x: int| 0 <= x < j ==> entries@[x].0@ != segs@[i as int]@,
        decreases n - j,
    {
        j = j + 1;
    }
    proof {
        broadcast use lemma_entries_model_len, lemma_entries_model_index;

        assert(path[0] == segs@[i as int]@);
        assert(forall|x: int| 0 <= x < j ==> m0[x].0 != path[0]);
    }
    if i == segs.len() - 1 {
        proof {
            assert(path.len() == 1);
        }
        if j < n {
            let (k0, _) = entries.remove(j);
            entries.insert(j, (k0, value));
            proof {
                broadcast use lemma_entries_model_len, lemma_entries_model_index;

                assert(m0[j as int].0 == path[0]);
                lemma_obj_set_found(m0, path[0], val_model(value), j as int);
                assert(entries@ =~= es0.update(j as int, (es0[j as int].0, value)));
                lemma_entries_model_update(es0, j as int, (es0[j as int].0, value));
                assert(entries_model(entries@) == m0.update(j as int, (path[0], val_model(value))));
            }
            Ok(())
        } else {
            let k = segs[i].clone();
            entries.push((k, value));
            proof {
                broadcast use lemma_entries_model_len, lemma_entries_model_index;

                lemma_obj_set_absent(m0, path[0], val_model(value));
                lemma_entries_model_push(es0, (k, value));
            }
            Ok(())
        }
    } else {
        proof {
            assert(path.len() >= 2);
            assert(path.drop_first() =~= strs_model(segs@).skip(i as int + 1));
        }
        if j < n {
            proof {
                assert(m0[j as int].0 == path[0]);
                lemma_obj_get_found(m0, path[0], j as int);
            }
            let (k0, child) = entries.remove(j);
            match child {
                ConfigValue::Node(mut sub) => {
                    let ghost sub0 = sub@;
                    let r = insert_at(&mut sub, segs, i + 1, value);
                    let ghost sub1 = sub@;
                    let e = (k0, ConfigValue::Node(sub));
                    entries.insert(j, e);
                    proof {
                        broadcast use lemma_entries_model_len, lemma_entries_model_index;

                        assert(m0[j as int] == (es0[j as int].0@, ValModel::Node(entries_model(sub0))));
                        assert(val_model(e.1) == ValModel::Node(entries_model(sub1)));
                        assert(entries@ == es0.remove(j as int).insert(j as int, e));
                        assert(entries@ =~= es0.update(j as int, e));
                        lemma_entries_model_update(es0, j as int, e);
                        if r is Ok {
                            lemma_obj_set_found(
                                m0,
                                path[0],
                                ValModel::Node(entries_model(sub1)),
                                j as int,
                            );
                        } else {
                            assert(entries_model(sub1) == entries_model(sub0));
                            assert(entries_model(entries@) =~= m0);
                        }
                    }
                    match r {
                        Ok(()) => Ok(()),
                        Err(()) => Err(()),
                    }
                },
                ConfigValue::Leaf(s) => {
                    let e = (k0, ConfigValue::Leaf(s));
                    proof {
                        assert(e == es0[j as int]);
                    }
                    entries.insert(j, e);
                    proof {
                        assert(m0[j as int].1 is Leaf);
                        assert(entries@ == es0.remove(j as int).insert(j as int, es0[j as int]));
                        assert(es0.remove(j as int).insert(j as int, es0[j as int]) =~= es0);
                    }
                    Err(())
                },
            }
        } else {
            let sub = build_subtree(segs, i + 1, value);
            let k = segs[i].clone();
            entries.push((k, sub));
            proof {
                broadcast use lemma_entries_model_len, lemma_entries_model_index;

                lemma_obj_get_absent(m0, path[0]);
                lemma_entries_model_push(es0, (k, sub));
            }
            Ok(())
        }
    }
}

/// Insert one `dotted key = value` pair into the root namespace `config`,
/// creating intermediate namespaces as needed; the last write to a key wins.
/// When an intermediate segment of `key` is already bound to a scalar leaf,
/// the insertion fails with a [`ConflictError`] naming `key`, and the tree is
/// unchanged.
pub fn insert_config_value(
    config: &mut Vec<(String, ConfigValue)>,
    key: &str,
    value: ConfigValue,
) -> (r: Result<(), ConflictError>)
    ensures
        match r {
            Ok(()) => obj_insert(entries_model(old(config)@), split_on_dots(key@), val_model(value))
                == Some(entries_model(final(config)@)),
            Err(e) => {
                &&& obj_insert(entries_model(old(config)@), split_on_dots(key@), val_model(value)) is None
                &&& entries_model(final(config)@) == entries_model(old(config)@)
                &&& e.key@ == key@
            },
        },
{
    let segs = split_key(key);
    proof {
        assert(strs_model(segs@).skip(0) =~= split_on_dots(key@));
    }
    let r = insert_at(config, &segs, 0, value);
    match r {
        Ok(()) => Ok(()),
        Err(()) => Err(ConflictError { key: key.to_owned() }),
    }
}

/// What parsing a whole file yields: the root namespace grown one assignment
/// line at a time, in file order, or the dotted key of the first conflicting
/// insertion.
pub open spec fn spec_parse_lines(lines: Seq<Seq<char>>) -> Result<
    Seq<(Seq<char>, ValModel)>,
    Seq<char>,
>
    decreases lines.len(),
{
    if lines.len() == 0 {
        Ok(Seq::empty())
    } else {
        match spec_parse_lines(lines.drop_last()) {
            Err(k) => Err(k),
            Ok(es) => match spec_parse_line(lines.last()) {
                None => Ok(es),
                Some(kv) => match obj_insert(es, split_on_dots(kv.0), ValModel::Leaf(kv.1)) {
                    Some(es2) => Ok(es2),
                    None => Err(kv.0),
                },
            },
        }
    }
}

/// A file that has failed on some prefix of its lines stays failed, with the
/// same offending key, whatever follows.
pub proof fn lemma_parse_lines_err_prefix(lines: Seq<Seq<char>>, t: int, k: Seq<char>)
    requires
        0 <= t <= lines.len(),
        spec_parse_lines(lines.subrange(0, t)) == Err::<Seq<(Seq<char>, ValModel)>, Seq<char>>(k),
    ensures
        spec_parse_lines(lines) == Err::<Seq<(Seq<char>, ValModel)>, Seq<char>>(k),
    decreases lines.len() - t,
{
    if t < lines.len() {
        assert(lines.subrange(0, t + 1).drop_last() =~= lines.subrange(0, t));
        lemma_parse_lines_err_prefix(lines, t + 1, k);
    } else {
        assert(lines.subrange(0, t) =~= lines);
    }
}

/// Law: every namespace a parsed file yields is well-formed, at the root and
/// at every nested level: distinct keys, each naming either a leaf or a
/// namespace, never both.
pub proof fn lemma_parse_lines_wf(lines: Seq<Seq<char>>)
    ensures
        spec_parse_lines(lines) matches Ok(es) ==> entries_wf(es),
    decreases lines.len(),
{
    if lines.len() == 0 {
        lemma_entries_vals_wf(Seq::<(Seq<char>, ValModel)>::empty());
    } else {
        lemma_parse_lines_wf(lines.drop_last());
        match spec_parse_lines(lines.drop_last()) {
            Ok(es) => match spec_parse_line(lines.last()) {
                Some(kv) => {
                    lemma_insert_preserves_wf(es, split_on_dots(kv.0), ValModel::Leaf(kv.1));
                },
                None => {},
            },
            Err(_) => {},
        }
    }
}

/// Parse the lines of one configuration file into its root namespace.
/// Comment, blank and malformed lines are skipped; every assignment line
/// inserts one leaf, in file order. The first insertion whose dotted key
/// conflicts with an existing leaf fails the whole file, naming that key.
pub fn parse_config_file(lines: &Vec<String>) -> (r: Result<
    Vec<(String, ConfigValue)>,
    ConflictError,
>)
    ensures
        match r {
            Ok(config) => spec_parse_lines(strs_model(lines@)) == Ok::<
                Seq<(Seq<char>, ValModel)>,
                Seq<char>,
            >(entries_model(config@)),
            Err(e) => spec_parse_lines(strs_model(lines@)) == Err::<
                Seq<(Seq<char>, ValModel)>,
                Seq<char>,
            >(e.key@),
        },
{
    let ghost lm = strs_model(lines@);
    let mut config: Vec<(String, ConfigValue)> = Vec::new();
    proof {
        assert(lm.subrange(0, 0) =~= Seq::<Seq<char>>::empty());
        assert(config@ =~= Seq::<(String, ConfigValue)>::empty());
        assert(entries_model(config@) =~= Seq::<(Seq<char>, ValModel)>::empty());
    }
    let mut i: usize = 0;
    while i < lines.len()
        invariant
            i <= lines@.len(),
            lm == strs_model(lines@),
            spec_parse_lines(lm.subrange(0, i as int)) == Ok::<
                Seq<(Seq<char>, ValModel)>,
                Seq<char>,
            >(entries_model(config@)),
        decreases lines@.len() - i,
    {
        let ghost pre = lm.subrange(0, i as int);
        let ghost cur = lm.subrange(0, i as int + 1);
        proof {
            assert(cur.drop_last() =~= pre);
            assert(cur.last() == lines@[i as int]@);
        }
        match parse_line(lines[i].as_str()) {
            None => {
                proof {
                    assert(spec_parse_lines(cur) == spec_parse_lines(pre));
                }
            },
            Some((k, v)) => {
                let r = insert_config_value(&mut config, k.as_str(), ConfigValue::Leaf(v));
                match r {
                    Ok(()) => {},
                    Err(e) => {
                        proof {
                            assert(spec_parse_lines(cur) == Err::<
                                Seq<(Seq<char>, ValModel)>,
                                Seq<char>,
                            >(k@));
                            lemma_parse_lines_err_prefix(lm, i as int + 1, k@);
                        }
                        return Err(e);
                    },
                }
            },
        }
        i = i + 1;
    }
    proof {
        assert(lm.subrange(0, lines@.len() as int) =~= lm);
    }
    Ok(config)
}

fn split_chars(cs: &Vec<char>, from: usize) -> (segs: Vec<String>)
    requires
        from <= cs@.len(),
    ensures
        strs_model(segs@) == split_on_dots(cs@.skip(from as int)),
        segs@.len() >= 1,
    decreases cs@.len() - from,
{
    let n = cs.len();
    let mut j = from;
    while j < n && cs[j] != '.'
        invariant
            from <= j <= n,
            n == cs@.len(),
            forall|x: int| from <= x < j ==> cs@[x] != '.',
        decreases n - j,
    {
        j = j + 1;
    }
    let seg = string_of_range(cs, from, j);
    if j == n {
        let mut segs: Vec<String> = Vec::new();
        segs.push(seg);
        proof {
            lemma_split_no_dot(cs@.skip(from as int));
            assert(cs@.skip(from as int) =~= cs@.subrange(from as int, n as int));
            assert(strs_model(segs@) =~= seq![cs@.subrange(from as int, n as int)]);
        }
        segs
    } else {
        let mut segs = split_chars(cs, j + 1);
        segs.insert(0, seg);
        proof {
            let s = cs@.skip(from as int);
            lemma_split_dot_at(s, j - from);
            assert(s.take(j - from) =~= cs@.subrange(from as int, j as int));
            assert(s.skip(j - from + 1) =~= cs@.skip(j + 1));
            assert(strs_model(segs@) =~= seq![cs@.subrange(from as int, j as int)]
                + split_on_dots(cs@.skip(j + 1)));
        }
        segs
    }
}

} // verus!
