//! The config-tree merge engine: a format-agnostic recursive merge of two
//! tree-shaped documents.

use vstd::prelude::*;

use crate::errors::Error;

verus! {

/// The mathematical content of a configuration tree.
pub ghost enum NodeV {
    Null,
    Bool(bool),
    Int(i64),
    Str(Seq<char>),
    List(Seq<NodeV>),
    Mapping(Seq<(Seq<char>, NodeV)>),
}

/// A configuration tree: mapping nodes over scalar and sequence leaves.
/// Every structured document format handled here reduces to this shape.
#[derive(Debug)]
pub enum Node {
    Null,
    Bool(bool),
    Int(i64),
    Str(String),
    List(Vec<Node>),
    Mapping(Vec<(String, Node)>),
}

/// The view of a configuration tree.
pub open spec fn node_view(n: Node) -> NodeV
    decreases n,
{
    match n {
        Node::Null => NodeV::Null,
        Node::Bool(b) => NodeV::Bool(b),
        Node::Int(v) => NodeV::Int(v),
        Node::Str(s) => NodeV::Str(s@),
        Node::List(items) => NodeV::List(nodes_view(items@)),
        Node::Mapping(entries) => NodeV::Mapping(entries_view(entries@)),
    }
}

/// The views of a sequence of trees, in order.
pub open spec fn nodes_view(s: Seq<Node>) -> Seq<NodeV>
    decreases s,
{
    if s.len() == 0 {
        Seq::empty()
    } else {
        nodes_view(s.drop_last()).push(node_view(s.last()))
    }
}

/// The views of a sequence of mapping entries, in order.
pub open spec fn entries_view(s: Seq<(String, Node)>) -> Seq<(Seq<char>, NodeV)>
    decreases s,
{
    if s.len() == 0 {
        Seq::empty()
    } else {
        entries_view(s.drop_last()).push((s.last().0@, node_view(s.last().1)))
    }
}

/// `nodes_view` maps each element to its view.
pub proof fn lemma_nodes_view(s: Seq<Node>)
    ensures
        nodes_view(s).len() == s.len(),
        forall|i: int| 0 <= i < s.len() ==> nodes_view(s)[i] == node_view(s[i]),
    decreases s.len(),
{
    if s.len() > 0 {
        lemma_nodes_view(s.drop_last());
    }
}

/// `entries_view` maps each entry to its key view and value view.
pub proof fn lemma_entries_view(s: Seq<(String, Node)>)
    ensures
        entries_view(s).len() == s.len(),
        forall|i: int|
            0 <= i < s.len() ==> entries_view(s)[i] == (s[i].0@, node_view(s[i].1)),
    decreases s.len(),
{
    if s.len() > 0 {
        lemma_entries_view(s.drop_last());
    }
}

impl View for Node {
    type V = NodeV;

    open spec fn view(&self) -> NodeV {
        node_view(*self)
    }
}

impl Clone for Node {
    fn clone(&self) -> (res: Self)
        ensures
            res@ == self@,
    {
        clone_node(self)
    }
}

/// Copy a tree; the view carries over.
pub fn clone_node(n: &Node) -> (res: Node)
    ensures
        res@ == n@,
    decreases *n,
{
    match n {
        Node::Null => Node::Null,
        Node::Bool(b) => Node::Bool(*b),
        Node::Int(v) => Node::Int(*v),
        Node::Str(s) => Node::Str(s.clone()),
        Node::List(items) => Node::List(clone_nodes(items)),
        Node::Mapping(entries) => Node::Mapping(clone_entries(entries)),
    }
}

/// Copy a sequence of trees; the views carry over.
fn clone_nodes(items: &Vec<Node>) -> (res: Vec<Node>)
    ensures
        nodes_view(res@) == nodes_view(items@),
    decreases items@,
{
    let n2 = items.len();
    let mut out: Vec<Node> = Vec::new();
    let mut i: usize = 0;
    while i < n2
        invariant
            n2 == items@.len(),
            i <= n2,
            out@.len() == i,
            forall|j: int| 0 <= j < i ==> node_view(out@[j]) == node_view(items@[j]),
        decreases n2 - i,
    {
        out.push(clone_node(&items[i]));
        i = i + 1;
    }
    proof {
        lemma_nodes_view(out@);
        lemma_nodes_view(items@);
        assert(nodes_view(out@) =~= nodes_view(items@));
    }
    out
}

/// The first value stored at key `k`, if any.
pub open spec fn lookup(de: Seq<(Seq<char>, NodeV)>, k: Seq<char>) -> Option<NodeV>
    decreases de.len(),
{
    if de.len() == 0 {
        None
    } else if de[0].0 == k {
        Some(de[0].1)
    } else {
        lookup(de.subrange(1, de.len() as int), k)
    }
}

/// Whether some entry carries key `k`.
pub open spec fn has_entry(de: Seq<(Seq<char>, NodeV)>, k: Seq<char>) -> bool {
    lookup(de, k) is Some
}

/// Store `v` at `k`: the first entry carrying `k` is replaced in place; an
/// absent key goes to the end.
pub open spec fn store(de: Seq<(Seq<char>, NodeV)>, k: Seq<char>, v: NodeV) -> Seq<
    (Seq<char>, NodeV),
>
    decreases de.len(),
{
    if de.len() == 0 {
        seq![(k, v)]
    } else if de[0].0 == k {
        seq![(k, v)] + de.subrange(1, de.len() as int)
    } else {
        seq![de[0]] + store(de.subrange(1, de.len() as int), k, v)
    }
}

/// The index of the first entry carrying `k`, or the length if none does.
pub open spec fn index_of_key(de: Seq<(Seq<char>, NodeV)>, k: Seq<char>) -> int
    decreases de.len(),
{
    if de.len() == 0 {
        0
    } else if de[0].0 == k {
        0
    } else {
        1 + index_of_key(de.subrange(1, de.len() as int), k)
    }
}

/// What `index_of_key`, `lookup` and `store` say about each other.
pub proof fn lemma_key_facts(de: Seq<(Seq<char>, NodeV)>, k: Seq<char>, v: NodeV)
    ensures
        0 <= index_of_key(de, k) <= de.len(),
        index_of_key(de, k) < de.len() ==> de[index_of_key(de, k)].0 == k && lookup(de, k)
            == Some(de[index_of_key(de, k)].1) && store(de, k, v) == de.update(
            index_of_key(de, k),
            (k, v),
        ),
        forall|l: int| 0 <= l < index_of_key(de, k) ==> de[l].0 != k,
        index_of_key(de, k) == de.len() ==> lookup(de, k) is None && store(de, k, v) == de.push(
            (k, v),
        ),
    decreases de.len(),
{
    if de.len() == 0 {
        assert(store(de, k, v) =~= de.push((k, v)));
    } else if de[0].0 == k {
        assert(store(de, k, v) =~= de.update(0, (k, v)));
    } else {
        let rest = de.subrange(1, de.len() as int);
        lemma_key_facts(rest, k, v);
        let i = index_of_key(de, k);
        assert(i == 1 + index_of_key(rest, k));
        if i < de.len() {
            assert(de[i] == rest[i - 1]);
            assert(store(de, k, v) =~= de.update(i, (k, v))) by {
                assert(store(rest, k, v) == rest.update(i - 1, (k, v)));
            }
        } else {
            assert(store(de, k, v) =~= de.push((k, v))) by {
                assert(store(rest, k, v) == rest.push((k, v)));
            }
        }
        assert forall|l: int| 0 <= l < i implies de[l].0 != k by {
            if l > 0 {
                assert(rest[l - 1].0 != k);
            }
        }
    }
}

/// Looking up another key is unaffected by a store.
pub proof fn lemma_store_other(de: Seq<(Seq<char>, NodeV)>, k: Seq<char>, v: NodeV, k2: Seq<char>)
    requires
        k2 != k,
    ensures
        lookup(store(de, k, v), k2) == lookup(de, k2),
    decreases de.len(),
{
    let rest = de.subrange(1, de.len() as int);
    if de.len() == 0 {
        let st = store(de, k, v);
        assert(st == seq![(k, v)]);
        assert(st.len() == 1);
        assert(st[0] == (k, v));
        assert(st[0].0 != k2);
        assert(st.subrange(1, st.len() as int) =~= Seq::<(Seq<char>, NodeV)>::empty());
        assert(lookup(st, k2) == lookup(st.subrange(1, st.len() as int), k2));
        assert(lookup(st, k2) is None);
        assert(lookup(de, k2) is None);
    } else if de[0].0 == k {
        let st = store(de, k, v);
        assert(st == seq![(k, v)] + rest);
        assert(st[0] == (k, v));
        assert(st.subrange(1, st.len() as int) =~= rest);
    } else {
        lemma_store_other(rest, k, v, k2);
        let st = store(de, k, v);
        assert(st == seq![de[0]] + store(rest, k, v));
        assert(st[0] == de[0]);
        assert(st.subrange(1, st.len() as int) =~= store(rest, k, v));
    }
}

/// Looking up the stored key finds the stored value.
pub proof fn lemma_store_same(de: Seq<(Seq<char>, NodeV)>, k: Seq<char>, v: NodeV)
    ensures
        lookup(store(de, k, v), k) == Some(v),
    decreases de.len(),
{
    let rest = de.subrange(1, de.len() as int);
    if de.len() == 0 {
        assert(store(de, k, v) == seq![(k, v)]);
    } else if de[0].0 == k {
        let st = store(de, k, v);
        assert(st == seq![(k, v)] + rest);
        assert(st[0] == (k, v));
    } else {
        lemma_store_same(rest, k, v);
        let st = store(de, k, v);
        assert(st == seq![de[0]] + store(rest, k, v));
        assert(st[0] == de[0]);
        assert(st.subrange(1, st.len() as int) =~= store(rest, k, v));
    }
}

/// The recursive merge of two trees, as a mathematical function: `None` is
/// the structural mismatch. Both roots must be mappings; a source mapping
/// under a key recurses into the destination's node under that key (an
/// empty mapping if absent); any other source value replaces the
/// destination's, or is dropped when the key is present and
/// `overwrite_existing` is off. Destination-only keys are untouched.
pub open spec fn spec_merge(src: NodeV, dst: NodeV, ow: bool) -> Option<NodeV>
    decreases src,
{
    match src {
        NodeV::Mapping(se) => match dst {
            NodeV::Mapping(de) => match spec_merge_entries(se, de, ow) {
                Some(out) => Some(NodeV::Mapping(out)),
                None => None,
            },
            _ => None,
        },
        _ => None,
    }
}

/// Fold the source entries into the destination entries, left to right.
pub open spec fn spec_merge_entries(
    se: Seq<(Seq<char>, NodeV)>,
    de: Seq<(Seq<char>, NodeV)>,
    ow: bool,
) -> Option<Seq<(Seq<char>, NodeV)>>
    decreases se,
{
    if se.len() == 0 {
        Some(de)
    } else {
        let k = se[0].0;
        let v = se[0].1;
        let rest = se.subrange(1, se.len() as int);
        if v is Mapping {
            let d0 = if has_entry(de, k) {
                lookup(de, k)->0
            } else {
                NodeV::Mapping(Seq::empty())
            };
            match spec_merge(v, d0, ow) {
                Some(m) => spec_merge_entries(rest, store(de, k, m), ow),
                None => None,
            }
        } else {
            if ow || !has_entry(de, k) {
                spec_merge_entries(rest, store(de, k, v), ow)
            } else {
                spec_merge_entries(rest, de, ow)
            }
        }
    }
}

/// No two entries share a key.
pub open spec fn wf_keys(se: Seq<(Seq<char>, NodeV)>) -> bool {
    forall|i: int, j: int| 0 <= i < j < se.len() ==> se[i].0 != se[j].0
}

/// Every mapping in the tree has unique keys.
pub open spec fn wf_node(n: NodeV) -> bool
    decreases n,
{
    match n {
        NodeV::Mapping(se) => wf_keys(se) && wf_entries(se),
        _ => true,
    }
}

/// Every value of an entry sequence is well formed.
pub open spec fn wf_entries(se: Seq<(Seq<char>, NodeV)>) -> bool
    decreases se,
{
    if se.len() == 0 {
        true
    } else {
        wf_entries(se.drop_last()) && wf_node(se.last().1)
    }
}

/// `wf_entries` holds of each value.
pub proof fn lemma_wf_entries_index(se: Seq<(Seq<char>, NodeV)>)
    requires
        wf_entries(se),
    ensures
        forall|i: int| 0 <= i < se.len() ==> wf_node(#[trigger] se[i].1),
    decreases se.len(),
{
    if se.len() > 0 {
        lemma_wf_entries_index(se.drop_last());
        assert forall|i: int| 0 <= i < se.len() implies wf_node(#[trigger] se[i].1) by {
            if i < se.len() - 1 {
                assert(se.drop_last()[i].1 == se[i].1);
                assert(wf_node(se.drop_last()[i].1));
            }
        }
    }
}

/// A key absent from the source keeps its destination value.
pub proof fn lemma_merge_entries_frame(
    se: Seq<(Seq<char>, NodeV)>,
    de: Seq<(Seq<char>, NodeV)>,
    ow: bool,
    k: Seq<char>,
)
    requires
        spec_merge_entries(se, de, ow) is Some,
        !has_entry(se, k),
    ensures
        lookup(spec_merge_entries(se, de, ow)->0, k) == lookup(de, k),
    decreases se,
{
    if se.len() == 0 {
    } else {
        let k0 = se[0].0;
        let v0 = se[0].1;
        let rest = se.subrange(1, se.len() as int);
        assert(k0 != k);
        assert(!has_entry(rest, k));
        if v0 is Mapping {
            let d0 = if has_entry(de, k0) {
                lookup(de, k0)->0
            } else {
                NodeV::Mapping(Seq::empty())
            };
            let m = spec_merge(v0, d0, ow)->0;
            lemma_store_other(de, k0, m, k);
            lemma_merge_entries_frame(rest, store(de, k0, m), ow, k);
        } else {
            if ow || !has_entry(de, k0) {
                lemma_store_other(de, k0, v0, k);
                lemma_merge_entries_frame(rest, store(de, k0, v0), ow, k);
            } else {
                lemma_merge_entries_frame(rest, de, ow, k);
            }
        }
    }
}

/// The merged keys are exactly the source keys and the destination keys.
pub proof fn lemma_merge_entries_keys(
    se: Seq<(Seq<char>, NodeV)>,
    de: Seq<(Seq<char>, NodeV)>,
    ow: bool,
    k: Seq<char>,
)
    requires
        spec_merge_entries(se, de, ow) is Some,
    ensures
        has_entry(spec_merge_entries(se, de, ow)->0, k) <==> (has_entry(se, k) || has_entry(
            de,
            k,
        )),
    decreases se,
{
    if se.len() == 0 {
    } else {
        let k0 = se[0].0;
        let v0 = se[0].1;
        let rest = se.subrange(1, se.len() as int);
        if v0 is Mapping {
            let d0 = if has_entry(de, k0) {
                lookup(de, k0)->0
            } else {
                NodeV::Mapping(Seq::empty())
            };
            let m = spec_merge(v0, d0, ow)->0;
            lemma_merge_entries_keys(rest, store(de, k0, m), ow, k);
            if k == k0 {
                lemma_store_same(de, k0, m);
            } else {
                lemma_store_other(de, k0, m, k);
            }
        } else {
            if ow || !has_entry(de, k0) {
                lemma_merge_entries_keys(rest, store(de, k0, v0), ow, k);
                if k == k0 {
                    lemma_store_same(de, k0, v0);
                } else {
                    lemma_store_other(de, k0, v0, k);
                }
            } else {
                lemma_merge_entries_keys(rest, de, ow, k);
            }
        }
    }
}

/// With unique source keys, a non-mapping source value under `k` wins when
/// overwriting is on; with it off an existing destination value stays.
pub proof fn lemma_merge_entries_precedence(
    se: Seq<(Seq<char>, NodeV)>,
    de: Seq<(Seq<char>, NodeV)>,
    ow: bool,
    k: Seq<char>,
)
    requires
        wf_keys(se),
        has_entry(se, k),
        !(lookup(se, k)->0 is Mapping),
        spec_merge_entries(se, de, ow) is Some,
    ensures
        lookup(spec_merge_entries(se, de, ow)->0, k) == (if ow || !has_entry(de, k) {
            lookup(se, k)
        } else {
            lookup(de, k)
        }),
    decreases se,
{
    let k0 = se[0].0;
    let v0 = se[0].1;
    let rest = se.subrange(1, se.len() as int);
    assert(wf_keys(rest)) by {
        assert forall|i: int, j: int|
            0 <= i < j < rest.len() implies rest[i].0 != rest[j].0 by {
            assert(se[i + 1].0 != se[j + 1].0);
        }
    }
    if k0 == k {
        assert(lookup(se, k) == Some(v0));
        assert(!has_entry(rest, k)) by {
            lemma_key_facts(rest, k, NodeV::Null);
            if has_entry(rest, k) {
                let iok = index_of_key(rest, k);
                assert(rest[iok].0 == k);
                assert(se[iok + 1].0 == se[0].0);
            }
        }
        if ow || !has_entry(de, k) {
            lemma_store_same(de, k, v0);
            lemma_merge_entries_frame(rest, store(de, k, v0), ow, k);
        } else {
            lemma_merge_entries_frame(rest, de, ow, k);
        }
    } else {
        assert(lookup(se, k) == lookup(rest, k));
        if v0 is Mapping {
            let d0 = if has_entry(de, k0) {
                lookup(de, k0)->0
            } else {
                NodeV::Mapping(Seq::empty())
            };
            let m = spec_merge(v0, d0, ow)->0;
            lemma_store_other(de, k0, m, k);
            lemma_merge_entries_precedence(rest, store(de, k0, m), ow, k);
        } else {
            if ow || !has_entry(de, k0) {
                lemma_store_other(de, k0, v0, k);
                lemma_merge_entries_precedence(rest, store(de, k0, v0), ow, k);
            } else {
                lemma_merge_entries_precedence(rest, de, ow, k);
            }
        }
    }
}

/// Merge overwrite precedence: for a key present in both trees whose
/// source value is not itself a mapping, merging with overwriting takes
/// the source's value, and merging without it keeps the destination's.
pub proof fn lemma_merge_precedence(src: NodeV, dst: NodeV, k: Seq<char>, ow: bool)
    requires
        src is Mapping,
        dst is Mapping,
        wf_keys(src->Mapping_0),
        has_entry(src->Mapping_0, k),
        has_entry(dst->Mapping_0, k),
        !(lookup(src->Mapping_0, k)->0 is Mapping),
        spec_merge(src, dst, ow) is Some,
    ensures
        lookup(spec_merge(src, dst, ow)->0->Mapping_0, k) == (if ow {
            lookup(src->Mapping_0, k)
        } else {
            lookup(dst->Mapping_0, k)
        }),
{
    lemma_merge_entries_precedence(src->Mapping_0, dst->Mapping_0, ow, k);
}

/// Folding the same source entries a second time changes nothing.
pub proof fn lemma_merge_entries_idem(se: Seq<(Seq<char>, NodeV)>, de: Seq<(Seq<char>, NodeV)>)
    requires
        wf_keys(se),
        forall|i: int| 0 <= i < se.len() ==> wf_node(#[trigger] se[i].1),
        spec_merge_entries(se, de, false) is Some,
    ensures
        spec_merge_entries(se, spec_merge_entries(se, de, false)->0, false)
            == spec_merge_entries(se, de, false),
    decreases se,
{
    if se.len() == 0 {
    } else {
        let k = se[0].0;
        let v = se[0].1;
        let rest = se.subrange(1, se.len() as int);
        let result = spec_merge_entries(se, de, false)->0;
        assert(wf_keys(rest)) by {
            assert forall|i: int, j: int|
                0 <= i < j < rest.len() implies rest[i].0 != rest[j].0 by {
                assert(se[i + 1].0 != se[j + 1].0);
            }
        }
        assert(forall|i: int| 0 <= i < rest.len() ==> wf_node(#[trigger] rest[i].1)) by {
            assert forall|i: int| 0 <= i < rest.len() implies wf_node(#[trigger] rest[i].1) by {
                assert(rest[i].1 == se[i + 1].1);
                assert(wf_node(se[i + 1].1));
            }
        }
        assert(!has_entry(rest, k)) by {
            lemma_key_facts(rest, k, NodeV::Null);
            if has_entry(rest, k) {
                let iok = index_of_key(rest, k);
                assert(rest[iok].0 == k);
                assert(se[iok + 1].0 == se[0].0);
            }
        }
        if v is Mapping {
            let d0 = if has_entry(de, k) {
                lookup(de, k)->0
            } else {
                NodeV::Mapping(Seq::empty())
            };
            let m = spec_merge(v, d0, false)->0;
            assert(result == spec_merge_entries(rest, store(de, k, m), false)->0);
            lemma_store_same(de, k, m);
            lemma_merge_entries_frame(rest, store(de, k, m), false, k);
            assert(lookup(result, k) == Some(m));
            assert(has_entry(result, k));
            assert(wf_node(v));
            lemma_merge_idempotent(v, d0);
            assert(spec_merge(v, m, false) == Some(m));
            assert(store(result, k, m) =~= result) by {
                lemma_key_facts(result, k, m);
                let iok = index_of_key(result, k);
                assert(iok < result.len());
                assert(result[iok].1 == m);
                assert(result[iok] == (k, m));
                assert(store(result, k, m) == result.update(iok, (k, m)));
                assert(result.update(iok, (k, m)) =~= result);
            }
            lemma_merge_entries_idem(rest, store(de, k, m));
            assert(spec_merge_entries(se, result, false) == spec_merge_entries(
                rest,
                store(result, k, m),
                false,
            ));
            assert(spec_merge_entries(rest, result, false) == Some(result));
        } else {
            if !has_entry(de, k) {
                assert(result == spec_merge_entries(rest, store(de, k, v), false)->0);
                lemma_store_same(de, k, v);
                lemma_merge_entries_keys(rest, store(de, k, v), false, k);
                assert(has_entry(result, k));
                lemma_merge_entries_idem(rest, store(de, k, v));
                assert(spec_merge_entries(se, result, false) == spec_merge_entries(
                    rest,
                    result,
                    false,
                ));
            } else {
                assert(result == spec_merge_entries(rest, de, false)->0);
                lemma_merge_entries_keys(rest, de, false, k);
                assert(has_entry(result, k));
                lemma_merge_entries_idem(rest, de);
                assert(spec_merge_entries(se, result, false) == spec_merge_entries(
                    rest,
                    result,
                    false,
                ));
            }
        }
    }
}

/// Merge idempotence: with overwriting off, merging a well-formed tree a
/// second time over its own merge result changes nothing.
pub proof fn lemma_merge_idempotent(src: NodeV, dst: NodeV)
    requires
        wf_node(src),
        spec_merge(src, dst, false) is Some,
    ensures
        spec_merge(src, spec_merge(src, dst, false)->0, false) == spec_merge(src, dst, false),
    decreases src,
{
    let se = src->Mapping_0;
    let de = dst->Mapping_0;
    lemma_wf_entries_index(se);
    lemma_merge_entries_idem(se, de);
}

/// The index of the first entry of `v` whose key reads `k`, if any.
fn entry_index(v: &Vec<(String, Node)>, k: &str) -> (r: Option<usize>)
    ensures
        match r {
            Some(j) => j < v@.len() && v@[j as int].0@ == k@ && (forall|l: int|
                0 <= l < j ==> v@[l].0@ != k@),
            None => forall|l: int| 0 <= l < v@.len() ==> v@[l].0@ != k@,
        },
{
    let n = v.len();
    let mut i: usize = 0;
    while i < n
        invariant
            n == v@.len(),
            i <= n,
            forall|l: int| 0 <= l < i ==> v@[l].0@ != k@,
        decreases n - i,
    {
        if crate::text::str_eq(v[i].0.as_str(), k) {
            return Some(i);
        }
        i = i + 1;
    }
    None
}

impl Node {
    /// Whether this is a mapping node.
    pub fn is_mapping(&self) -> (r: bool)
        ensures
            r == (self@ is Mapping),
    {
        matches!(self, Node::Mapping(_))
    }

    /// The first value under `k`, for a mapping node.
    pub fn get<'a>(&'a self, k: &str) -> (r: Option<&'a Node>)
        ensures
            match r {
                Some(v) => (self@ is Mapping) && lookup(self@->Mapping_0, k@) == Some(v@),
                None => !(self@ is Mapping) || !has_entry(self@->Mapping_0, k@),
            },
    {
        match self {
            Node::Mapping(entries) => {
                proof {
                    lemma_entries_view(entries@);
                }
                let ghost ev = entries_view(entries@);
                match entry_index(entries, k) {
                    Some(j) => {
                        proof {
                            lemma_key_facts(ev, k@, NodeV::Null);
                            assert(ev[j as int].0 == k@);
                            assert(index_of_key(ev, k@) == j as int) by {
                                let iok = index_of_key(ev, k@);
                                if iok < j as int {
                                    assert(ev[iok].0 == k@);
                                    assert(entries@[iok].0@ == k@);
                                } else if iok > j as int {
                                    assert(ev[j as int].0 != k@);
                                }
                            }
                            assert(lookup(ev, k@) == Some(ev[j as int].1));
                        }
                        Some(&entries[j].1)
                    },
                    None => {
                        proof {
                            lemma_key_facts(ev, k@, NodeV::Null);
                            let iok = index_of_key(ev, k@);
                            if iok < ev.len() {
                                assert(ev[iok].0 == k@);
                                assert(entries@[iok].0@ == k@);
                            }
                        }
                        None
                    },
                }
            },
            _ => None,
        }
    }
}

/// Merge `src` into a copy of `dst`. Both must be mapping nodes; the
/// result is exactly `spec_merge` of the two views.
pub fn merge(src: &Node, dst: &Node, overwrite_existing: bool) -> (r: Result<Node, Error>)
    ensures
        (match r {
            Ok(out) => spec_merge(src@, dst@, overwrite_existing) == Some(out@),
            Err(e) => spec_merge(src@, dst@, overwrite_existing) is None && (e
                matches Error::StructuralMismatch),
        }),
    decreases *src,
{
    match src {
        Node::Mapping(se) => match dst {
            Node::Mapping(de) => match merge_entries(se, de, overwrite_existing) {
                Ok(out) => Ok(Node::Mapping(out)),
                Err(e) => Err(e),
            },
            _ => Err(Error::StructuralMismatch),
        },
        _ => Err(Error::StructuralMismatch),
    }
}

/// Fold the source entries into a copy of the destination entries.
fn merge_entries(se: &Vec<(String, Node)>, de: &Vec<(String, Node)>, ow: bool) -> (r: Result<
    Vec<(String, Node)>,
    Error,
>)
    ensures
        (match r {
            Ok(out) => spec_merge_entries(entries_view(se@), entries_view(de@), ow) == Some(
                entries_view(out@),
            ),
            Err(e) => spec_merge_entries(entries_view(se@), entries_view(de@), ow) is None && (e
                matches Error::StructuralMismatch),
        }),
    decreases se@,
{
    let ghost sev = entries_view(se@);
    let ghost dev = entries_view(de@);
    let mut out = clone_entries(de);
    let n = se.len();
    let mut i: usize = 0;
    proof {
        lemma_entries_view(se@);
        assert(sev.subrange(0, sev.len() as int) =~= sev);
    }
    while i < n
        invariant
            n == se@.len(),
            i <= n,
            sev == entries_view(se@),
            dev == entries_view(de@),
            sev.len() == n,
            spec_merge_entries(sev.subrange(i as int, sev.len() as int), entries_view(out@), ow)
                == spec_merge_entries(sev, dev, ow),
        decreases n - i,
    {
        let ghost outv = entries_view(out@);
        let ghost tail = sev.subrange(i as int, sev.len() as int);
        proof {
            lemma_entries_view(se@);
            lemma_entries_view(out@);
            assert(tail.len() > 0);
            assert(tail[0] == sev[i as int]);
            assert(tail[0] == (se@[i as int].0@, node_view(se@[i as int].1)));
            assert(tail.subrange(1, tail.len() as int) =~= sev.subrange(
                i + 1,
                sev.len() as int,
            ));
            lemma_key_facts(outv, se@[i as int].0@, NodeV::Null);
        }
        let ghost k = se@[i as int].0@;
        let found = entry_index(&out, se[i].0.as_str());
        proof {
            lemma_entries_view(out@);
            match found {
                Some(j) => {
                    assert(outv[j as int].0 == k);
                    assert(forall|l: int| 0 <= l < j ==> outv[l].0 != k);
                    assert(index_of_key(outv, k) == j as int) by {
                        let iok = index_of_key(outv, k);
                        if iok < j as int {
                            assert(outv[iok].0 == k);
                        } else if iok > j as int {
                            assert(outv[j as int].0 != k);
                        }
                    }
                    assert(has_entry(outv, k));
                    assert(lookup(outv, k) == Some(outv[j as int].1));
                },
                None => {
                    assert forall|l: int| 0 <= l < outv.len() implies outv[l].0 != k by {
                        assert(out@[l].0@ != k);
                    }
                    assert(index_of_key(outv, k) == outv.len()) by {
                        let iok = index_of_key(outv, k);
                        if iok < outv.len() {
                            assert(outv[iok].0 == k);
                        }
                    }
                    assert(!has_entry(outv, k));
                },
            }
        }
        let is_map = matches!(&se[i].1, Node::Mapping(_));
        if is_map {
            let d0: Node = match found {
                Some(j) => clone_node(&out[j].1),
                None => Node::Mapping(Vec::new()),
            };
            proof {
                if found is Some {
                    assert(d0@ == lookup(outv, k)->0);
                } else {
                    assert(entries_view(Seq::<(String, Node)>::empty())
                        =~= Seq::<(Seq<char>, NodeV)>::empty());
                    assert(d0@ == NodeV::Mapping(Seq::empty()));
                }
            }
            match merge(&se[i].1, &d0, ow) {
                Ok(m) => {
                    let key = se[i].0.clone();
                    let ghost mv = m@;
                    match found {
                        Some(j) => {
                            let ghost before = out@;
                            out[j] = (key, m);
                            proof {
                                lemma_entries_view(out@);
                                lemma_entries_view(before);
                                lemma_key_facts(outv, k, mv);
                                assert(entries_view(out@) =~= outv.update(j as int, (k, mv)));
                                assert(entries_view(out@) =~= store(outv, k, mv));
                            }
                        },
                        None => {
                            out.push((key, m));
                            proof {
                                lemma_entries_view(out@);
                                lemma_key_facts(outv, k, mv);
                                assert(entries_view(out@) =~= outv.push((k, mv)));
                                assert(entries_view(out@) =~= store(outv, k, mv));
                            }
                        },
                    }
                },
                Err(e) => {
                    proof {
                        assert(spec_merge_entries(tail, outv, ow) is None);
                    }
                    return Err(e);
                },
            }
        } else {
            let overwrite_here = ow || matches!(found, None);
            if overwrite_here {
                let key = se[i].0.clone();
                let v = clone_node(&se[i].1);
                let ghost vv = node_view(se@[i as int].1);
                match found {
                    Some(j) => {
                        let ghost before = out@;
                        out[j] = (key, v);
                        proof {
                            lemma_entries_view(out@);
                            lemma_entries_view(before);
                            lemma_key_facts(outv, k, vv);
                            assert(entries_view(out@) =~= outv.update(j as int, (k, vv)));
                            assert(entries_view(out@) =~= store(outv, k, vv));
                        }
                    },
                    None => {
                        out.push((key, v));
                        proof {
                            lemma_entries_view(out@);
                            lemma_key_facts(outv, k, vv);
                            assert(entries_view(out@) =~= outv.push((k, vv)));
                            assert(entries_view(out@) =~= store(outv, k, vv));
                        }
                    },
                }
            }
        }
        i = i + 1;
    }
    proof {
        assert(sev.subrange(n as int, sev.len() as int) =~= Seq::<(Seq<char>, NodeV)>::empty());
    }
    Ok(out)
}

/// Whether `n` occurs inside `h` as a contiguous run of characters.
pub open spec fn contains_substr(h: Seq<char>, n: Seq<char>) -> bool {
    exists|i: int|
        0 <= i && i + n.len() <= h.len() && #[trigger] h.subrange(i, i + n.len() as int) == n
}

/// Whether `n@` starts at position `i` of `h@`.
fn match_at(h: &str, n: &str, i: usize) -> (r: bool)
    requires
        i + n@.len() <= h@.len(),
        h@.len() <= usize::MAX,
    ensures
        r == (h@.subrange(i as int, i + n@.len() as int) == n@),
{
    let nl = n.unicode_len();
    let mut j: usize = 0;
    while j < nl
        invariant
            nl == n@.len(),
            i + nl <= h@.len(),
            h@.len() <= usize::MAX,
            j <= nl,
            forall|t: int| 0 <= t < j ==> h@[i + t] == n@[t],
        decreases nl - j,
    {
        if h.get_char(i + j) != n.get_char(j) {
            proof {
                assert(h@.subrange(i as int, i + n@.len() as int)[j as int] == h@[i + j]);
            }
            return false;
        }
        j = j + 1;
    }
    proof {
        assert(h@.subrange(i as int, i + n@.len() as int) =~= n@);
    }
    true
}

/// Whether `n` occurs inside `h`, matching `contains_substr`.
pub fn contains_str(h: &str, n: &str) -> (r: bool)
    ensures
        r == contains_substr(h@, n@),
{
    let hl = h.unicode_len();
    let nl = n.unicode_len();
    if nl > hl {
        proof {
            if contains_substr(h@, n@) {
                let i = choose|i: int|
                    0 <= i && i + n@.len() <= h@.len() && #[trigger] h@.subrange(
                        i,
                        i + n@.len() as int,
                    ) == n@;
                assert(false);
            }
        }
        return false;
    }
    if nl == 0 {
        proof {
            assert(h@.subrange(0, 0 + n@.len() as int) =~= n@);
            assert(contains_substr(h@, n@));
        }
        return true;
    }
    let last = hl - nl;
    let mut i: usize = 0;
    while i <= last
        invariant
            hl == h@.len(),
            nl == n@.len(),
            nl <= hl,
            1 <= nl,
            last == hl - nl,
            i <= last + 1,
            forall|s: int| 0 <= s < i ==> #[trigger] h@.subrange(s, s + n@.len() as int) != n@,
        decreases last + 1 - i,
    {
        if match_at(h, n, i) {
            proof {
                assert(contains_substr(h@, n@));
            }
            return true;
        }
        i = i + 1;
    }
    proof {
        if contains_substr(h@, n@) {
            let s = choose|s: int|
                0 <= s && s + n@.len() <= h@.len() && #[trigger] h@.subrange(
                    s,
                    s + n@.len() as int,
                ) == n@;
            assert(s < i);
            assert(false);
        }
    }
    false
}

/// The structured document formats that the merge engine can read.
#[derive(Debug, Clone, Copy, PartialEq, Eq, Structural)]
pub enum FileType {
    Json,
    Yaml,
    Toml,
}

impl FileType {
    /// Classify a file type from a name fragment: anything mentioning
    /// "json" is JSON, then "toml", then "yaml" or "yml"; the rest cannot
    /// be merged.
    pub fn parse(s: &str) -> (r: Result<FileType, Error>)
        ensures
            r is Ok <==> (contains_substr(s@, "json"@) || contains_substr(s@, "toml"@)
                || contains_substr(s@, "yaml"@) || contains_substr(s@, "yml"@)),
            r is Ok ==> r->Ok_0 == (if contains_substr(s@, "json"@) {
                FileType::Json
            } else if contains_substr(s@, "toml"@) {
                FileType::Toml
            } else {
                FileType::Yaml
            }),
            r is Err ==> (r->Err_0 matches Error::UnmergeableFileType { text } && text@ == s@),
    {
        if contains_str(s, "json") {
            Ok(FileType::Json)
        } else if contains_str(s, "toml") {
            Ok(FileType::Toml)
        } else if contains_str(s, "yaml") || contains_str(s, "yml") {
            Ok(FileType::Yaml)
        } else {
            Err(Error::UnmergeableFileType { text: s.to_owned() })
        }
    }
}

/// Copy a sequence of mapping entries; the views carry over.
fn clone_entries(entries: &Vec<(String, Node)>) -> (res: Vec<(String, Node)>)
    ensures
        entries_view(res@) == entries_view(entries@),
    decreases entries@,
{
    let n2 = entries.len();
    let mut out: Vec<(String, Node)> = Vec::new();
    let mut i: usize = 0;
    while i < n2
        invariant
            n2 == entries@.len(),
            i <= n2,
            out@.len() == i,
            forall|j: int|
                0 <= j < i ==> out@[j].0@ == entries@[j].0@ && node_view(out@[j].1) == node_view(
                    entries@[j].1,
                ),
        decreases n2 - i,
    {
        let k = entries[i].0.clone();
        let v = clone_node(&entries[i].1);
        out.push((k, v));
        i = i + 1;
    }
    proof {
        lemma_entries_view(out@);
        lemma_entries_view(entries@);
        assert(entries_view(out@) =~= entries_view(entries@));
    }
    out
}

} // verus!
