//! Pruning at start-up: the breeder names clusters to prune, and every
//! stored memory that refers to one of them is removed.

use crate::text::{contains_seq, str_contains, str_ends_with, str_starts_with};
use vstd::prelude::*;
use vstd::string::*;

verus! {

/// `"actor:" + id`, the key of the cluster's own record.
pub open spec fn actor_key(id: Seq<char>) -> Seq<char> {
    seq!['a', 'c', 't', 'o', 'r', ':'] + id
}

/// `"link:" + id + "->"`, the start of a link leaving the cluster.
pub open spec fn link_from(id: Seq<char>) -> Seq<char> {
    seq!['l', 'i', 'n', 'k', ':'] + id + seq!['-', '>']
}

/// `"->" + id`, a link entering the cluster.
pub open spec fn arrow_to(id: Seq<char>) -> Seq<char> {
    seq!['-', '>'] + id
}

/// `":" + id + "->"`, a link leaving the cluster after a kind tag.
pub open spec fn tagged_from(id: Seq<char>) -> Seq<char> {
    seq![':'] + id + seq!['-', '>']
}

/// Key `k` refers to cluster `id`.
pub open spec fn prune_matches(k: Seq<char>, id: Seq<char>) -> bool {
    ||| k == actor_key(id)
    ||| link_from(id).is_prefix_of(k)
    ||| arrow_to(id).is_suffix_of(k)
    ||| contains_seq(k, tagged_from(id))
    ||| contains_seq(k, arrow_to(id))
    ||| k == id
}

/// One removal of `k` for each listed cluster it refers to.
pub open spec fn removals_for_key(k: Seq<char>, ids: Seq<Seq<char>>) -> Seq<Seq<char>>
    decreases ids.len(),
{
    if ids.len() == 0 {
        Seq::empty()
    } else {
        let rest = removals_for_key(k, ids.drop_last());
        if prune_matches(k, ids.last()) { rest.push(k) } else { rest }
    }
}

/// The removals for all keys, key by key in order.
pub open spec fn prune_plan(keys: Seq<Seq<char>>, ids: Seq<Seq<char>>) -> Seq<Seq<char>>
    decreases keys.len(),
{
    if keys.len() == 0 {
        Seq::empty()
    } else {
        prune_plan(keys.drop_last(), ids) + removals_for_key(keys.last(), ids)
    }
}

/// The character contents of a list of strings.
pub open spec fn texts(v: Seq<String>) -> Seq<Seq<char>> {
    v.map_values(|s: String| s@)
}

fn text_concat(a: &str, b: &str) -> (res: String)
    ensures
        res@ == a@ + b@,
{
    let mut out = String::from_str(a);
    out.append(b);
    out
}

/// Whether stored key `key` refers to cluster `id`.
pub fn matches_cluster(key: &str, id: &str) -> (res: bool)
    ensures
        res == prune_matches(key@, id@),
{
    proof {
        reveal_strlit("actor:");
        reveal_strlit("link:");
        reveal_strlit("->");
        reveal_strlit(":");
    }
    let actor = text_concat("actor:", id);
    let link_start = text_concat("link:", id);
    let link = text_concat(link_start.as_str(), "->");
    let arrow = text_concat("->", id);
    let tag_start = text_concat(":", id);
    let tagged = text_concat(tag_start.as_str(), "->");
    proof {
        assert(actor@ =~= actor_key(id@));
        assert(link@ =~= link_from(id@));
        assert(arrow@ =~= arrow_to(id@));
        assert(tagged@ =~= tagged_from(id@));
    }
    let is_actor = actor == String::from_str(key);
    let is_id = String::from_str(key) == String::from_str(id);
    is_actor || str_starts_with(key, link.as_str()) || str_ends_with(key, arrow.as_str()) || str_contains(key, tagged.as_str())
        || str_contains(key, arrow.as_str()) || is_id
}

/// The keys to remove, one removal for each (key, pruned cluster) pair where
/// the key refers to the cluster, keys in the given order and clusters in
/// theirs. The number of removals is the length of the plan.
pub fn plan_pruning(keys: &Vec<String>, ids: &Vec<String>) -> (plan: Vec<String>)
    requires
        keys@.len() <= 100_000,
        ids@.len() <= 1000,
    ensures
        texts(plan@) == prune_plan(texts(keys@), texts(ids@)),
{
    let mut plan: Vec<String> = Vec::new();
    let ghost ks = texts(keys@);
    let ghost is = texts(ids@);
    let mut a: usize = 0;
    while a < keys.len()
        invariant
            a <= keys@.len(),
            ks == texts(keys@),
            is == texts(ids@),
            texts(plan@) == prune_plan(ks.take(a as int), is),
        decreases keys@.len() - a,
    {
        let ghost before = texts(plan@);
        let key = &keys[a];
        let mut b: usize = 0;
        while b < ids.len()
            invariant
                a < keys@.len(),
                b <= ids@.len(),
                *key == keys@[a as int],
                ks == texts(keys@),
                is == texts(ids@),
                texts(plan@) == before + removals_for_key(key@, is.take(b as int)),
            decreases ids@.len() - b,
        {
            let m = matches_cluster(key.as_str(), ids[b].as_str());
            let ghost mid = texts(plan@);
            if m {
                plan.push(key.clone());
            }
            proof {
                assert(is.take(b + 1).drop_last() =~= is.take(b as int));
                assert(is.take(b + 1).last() == ids@[b as int]@);
                if m {
                    assert(texts(plan@) =~= mid.push(key@));
                }
                assert(texts(plan@) =~= before + removals_for_key(key@, is.take(b + 1)));
            }
            b = b + 1;
        }
        proof {
            assert(is.take(b as int) =~= is);
            assert(ks.take(a + 1).drop_last() =~= ks.take(a as int));
            assert(ks.take(a + 1).last() == key@);
        }
        a = a + 1;
    }
    assert(ks.take(a as int) =~= ks);
    plan
}

} // verus!
