//! The routing key of a record: its labels, joined in key order.

use std::collections::BTreeMap;
use vstd::prelude::*;
use vstd::std_specs::btree::{axiom_btree_map_view_finite_dom, lemma_btree_map_deepview_dom};
use vstd::string::StringExecFns;

verus! {

/// A label: a key and its value.
pub type Pair = (Seq<char>, Seq<char>);

/// The order of strings: character by character, by code point, a proper
/// prefix before its extensions.
pub open spec fn key_lt(a: Seq<char>, b: Seq<char>) -> bool
    decreases a.len(),
{
    if b.len() == 0 {
        false
    } else if a.len() == 0 {
        true
    } else if a[0] != b[0] {
        (a[0] as u32) < (b[0] as u32)
    } else {
        key_lt(a.drop_first(), b.drop_first())
    }
}

/// `entries` lists `dict` in key order: ascending keys, every entry of the
/// map, and nothing else.
pub open spec fn lists_in_key_order(entries: Seq<Pair>, dict: Map<Seq<char>, Seq<char>>) -> bool {
    &&& forall|i: int, j: int|
        0 <= i < j < entries.len() ==> key_lt(#[trigger] entries[i].0, #[trigger] entries[j].0)
    &&& forall|i: int|
        0 <= i < entries.len() ==> dict.contains_key(#[trigger] entries[i].0) && dict[entries[i].0]
            == entries[i].1
    &&& forall|k: Seq<char>| #[trigger]
        dict.contains_key(k) ==> exists|i: int| 0 <= i < entries.len() && #[trigger] entries[i].0 == k
}

/// The entries of `dict` in key order.
pub open spec fn in_key_order(dict: Map<Seq<char>, Seq<char>>) -> Seq<Pair> {
    choose|entries: Seq<Pair>| lists_in_key_order(entries, dict)
}

/// `k1=v1k2=v2...`: each entry as key, `=` and value, with nothing between
/// the entries.
pub open spec fn join_pairs(entries: Seq<Pair>) -> Seq<char>
    decreases entries.len(),
{
    if entries.len() == 0 {
        Seq::empty()
    } else {
        join_pairs(entries.drop_last()) + entries.last().0 + seq!['='] + entries.last().1
    }
}

/// No string comes before itself.
pub proof fn lemma_key_lt_irreflexive(a: Seq<char>)
    ensures
        !key_lt(a, a),
    decreases a.len(),
{
    if a.len() > 0 {
        lemma_key_lt_irreflexive(a.drop_first());
    }
}

/// Of two strings, at most one comes before the other.
pub proof fn lemma_key_lt_asymmetric(a: Seq<char>, b: Seq<char>)
    ensures
        !(key_lt(a, b) && key_lt(b, a)),
    decreases a.len(),
{
    if a.len() > 0 && b.len() > 0 && a[0] == b[0] {
        lemma_key_lt_asymmetric(a.drop_first(), b.drop_first());
    }
}

/// A map has at most one listing in key order.
pub proof fn lemma_key_order_unique(a: Seq<Pair>, b: Seq<Pair>, dict: Map<Seq<char>, Seq<char>>)
    requires
        lists_in_key_order(a, dict),
        lists_in_key_order(b, dict),
    ensures
        a == b,
    decreases a.len(),
{
    if a.len() == 0 {
        if b.len() > 0 {
            assert(dict.contains_key(b[0].0));
        }
        assert(a =~= b);
    } else if b.len() == 0 {
        assert(dict.contains_key(a[0].0));
    } else {
        let ka = a[0].0;
        let kb = b[0].0;
        assert(dict.contains_key(ka));
        assert(dict.contains_key(kb));
        let i = choose|i: int| 0 <= i < b.len() && b[i].0 == ka;
        let j = choose|j: int| 0 <= j < a.len() && a[j].0 == kb;
        lemma_key_lt_asymmetric(ka, kb);
        assert(ka == kb) by {
            if i > 0 && j > 0 {
                assert(key_lt(b[0].0, b[i].0));
                assert(key_lt(a[0].0, a[j].0));
            }
        }
        let rest = dict.remove(ka);
        let ta = a.drop_first();
        let tb = b.drop_first();
        lemma_drop_first_lists(a, dict);
        lemma_drop_first_lists(b, dict);
        lemma_key_order_unique(ta, tb, rest);
        assert(a[0] == b[0]);
        assert(a =~= seq![a[0]] + ta);
        assert(b =~= seq![b[0]] + tb);
    }
}

/// Without its first entry, a listing lists the map without that key.
proof fn lemma_drop_first_lists(a: Seq<Pair>, dict: Map<Seq<char>, Seq<char>>)
    requires
        a.len() > 0,
        lists_in_key_order(a, dict),
    ensures
        lists_in_key_order(a.drop_first(), dict.remove(a[0].0)),
{
    let t = a.drop_first();
    let rest = dict.remove(a[0].0);
    assert forall|i: int, j: int| 0 <= i < j < t.len() implies key_lt(
        #[trigger] t[i].0,
        #[trigger] t[j].0,
    ) by {
        assert(t[i] == a[i + 1] && t[j] == a[j + 1]);
    }
    assert forall|i: int| 0 <= i < t.len() implies rest.contains_key(#[trigger] t[i].0)
        && rest[t[i].0] == t[i].1 by {
        assert(t[i] == a[i + 1]);
        assert(key_lt(a[0].0, a[i + 1].0));
        lemma_key_lt_irreflexive(a[0].0);
    }
    assert forall|k: Seq<char>| #[trigger] rest.contains_key(k) implies exists|i: int|
        0 <= i < t.len() && #[trigger] t[i].0 == k by {
        assert(dict.contains_key(k));
        let i = choose|i: int| 0 <= i < a.len() && a[i].0 == k;
        assert(t[i - 1] == a[i]);
    }
}

/// `BTreeMap::pop_first`: takes the entry with the least key out of the map
/// and returns it, strings being ordered by code point; `None` on an empty
/// map, which it leaves as it is.
#[verifier::external_body]
fn pop_first(dict: &mut BTreeMap<String, String>) -> (first: Option<(String, String)>)
    ensures
        match first {
            None => {
                &&& forall|k: Seq<char>| !old(dict).deep_view().contains_key(k)
                &&& final(dict).deep_view() == old(dict).deep_view()
            },
            Some((k, v)) => {
                &&& old(dict).deep_view().contains_key(k@)
                &&& old(dict).deep_view()[k@] == v@
                &&& final(dict).deep_view() == old(dict).deep_view().remove(k@)
                &&& forall|other: Seq<char>|
                    old(dict).deep_view().contains_key(other) && other != k@ ==> key_lt(k@, other)
            },
        },
{
    dict.pop_first()
}

/// Joins the entries of `dict` in key order as `k1=v1k2=v2...`.
pub fn join_btree_map(dict: BTreeMap<String, String>) -> (kv: String)
    ensures
        lists_in_key_order(in_key_order(dict.deep_view()), dict.deep_view()),
        kv@ == join_pairs(in_key_order(dict.deep_view())),
{
    let ghost all = dict.deep_view();
    let mut rest = dict;
    let mut kv = String::new();
    let ghost mut done: Seq<Pair> = Seq::empty();
    proof {
        reveal_strlit("=");
        lemma_btree_map_deepview_dom(rest);
        axiom_btree_map_view_finite_dom(rest);
        rest@.dom().lemma_map_finite(|k: String| k.deep_view());
    }
    loop
        invariant
            "="@ == seq!['='],
            kv@ == join_pairs(done),
            rest.deep_view().dom().finite(),
            forall|i: int, j: int|
                0 <= i < j < done.len() ==> key_lt(#[trigger] done[i].0, #[trigger] done[j].0),
            forall|i: int|
                0 <= i < done.len() ==> all.contains_key(#[trigger] done[i].0) && all[done[i].0]
                    == done[i].1,
            forall|i: int, k: Seq<char>|
                0 <= i < done.len() && #[trigger] rest.deep_view().contains_key(k) ==> key_lt(
                    #[trigger] done[i].0,
                    k,
                ),
            forall|k: Seq<char>| #[trigger]
                rest.deep_view().contains_key(k) ==> all.contains_key(k) && all[k]
                    == rest.deep_view()[k],
            forall|k: Seq<char>| #[trigger]
                all.contains_key(k) ==> rest.deep_view().contains_key(k) || exists|i: int|
                    0 <= i < done.len() && #[trigger] done[i].0 == k,
        ensures
            kv@ == join_pairs(done),
            lists_in_key_order(done, all),
        decreases rest.deep_view().dom().len(),
    {
        let ghost left = rest.deep_view();
        match pop_first(&mut rest) {
            None => {
                break ;
            },
            Some((k, v)) => {
                kv.append(k.as_str());
                kv.append("=");
                kv.append(v.as_str());
                proof {
                    let entry = (k@, v@);
                    let listed = done;
                    done = listed.push(entry);
                    assert(done.drop_last() =~= listed);
                    left.lemma_remove_key_len(k@);
                    assert forall|other: Seq<char>| #[trigger]
                        all.contains_key(other) implies rest.deep_view().contains_key(other)
                        || exists|i: int| 0 <= i < done.len() && #[trigger] done[i].0 == other by {
                        if other == k@ {
                            assert(done[done.len() - 1].0 == other);
                        } else if left.contains_key(other) {
                        } else {
                            let i = choose|i: int| 0 <= i < listed.len() && listed[i].0 == other;
                            assert(done[i].0 == other);
                        }
                    }
                }
            },
        }
    }
    proof {
        lemma_key_order_unique(done, in_key_order(all), all);
    }
    kv
}

} // verus!
