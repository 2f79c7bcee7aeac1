//! A key/value store kept as JSON objects spread over a fixed number of
//! shard files. A key lives in the shard that its hash selects. The caller
//! reads and writes the files; this module decides what they hold.

use crate::text::{decimal, digits_value, join_path, lemma_decimal_injective, lemma_decimal_reads_back, path_join, push_decimal};
use std::collections::hash_map::DefaultHasher;
use std::collections::HashMap;
use std::hash::Hasher;
use vstd::prelude::*;
use vstd::std_specs::hash::DefaultHasherAdditionalSpecFns;
use vstd::string::*;
use vstd::utf8::encode_utf8;

verus! {

/// Key/value pairs by their character contents.
pub type TextPairs = Seq<(Seq<char>, Seq<char>)>;

/// The character contents of a list of string pairs.
pub open spec fn pairs_view(v: Seq<(String, String)>) -> TextPairs {
    v.map_values(|p: (String, String)| (p.0@, p.1@))
}

/// No key occurs twice.
pub open spec fn keys_distinct(s: TextPairs) -> bool {
    forall|i: int, j: int| 0 <= i < s.len() && 0 <= j < s.len() && i != j ==> #[trigger] s[i].0 != #[trigger] s[j].0
}

/// The map that a list of pairs describes (a later pair wins over an earlier one).
pub open spec fn entries_map(s: TextPairs) -> Map<Seq<char>, Seq<char>>
    decreases s.len(),
{
    if s.len() == 0 {
        Map::empty()
    } else {
        entries_map(s.drop_last()).insert(s.last().0, s.last().1)
    }
}

/// The JSON object of string values that `text` holds, as `serde_json` reads
/// it into a map of strings; `None` when `text` is not such an object.
pub uninterp spec fn json_object_of_strings(text: Seq<char>) -> Option<Map<Seq<char>, Seq<char>>>;

/// Reads `text` as a JSON object whose values are all strings.
/// Calls `serde_json::from_str` into a `HashMap<String, String>` and hands the
/// pairs out in the map's (arbitrary) order. Claims: the pairs have distinct
/// keys and describe exactly the map that the text holds.
#[verifier::external_body]
fn parse_string_map(text: &str) -> (res: Option<Vec<(String, String)>>)
    ensures
        match res {
            Some(v) => keys_distinct(pairs_view(v@)) && json_object_of_strings(text@) == Some(entries_map(pairs_view(v@))),
            None => json_object_of_strings(text@) is None,
        },
{
    serde_json::from_str::<HashMap<String, String>>(text).ok().map(|m| m.into_iter().collect())
}

/// Writes the pairs as a JSON object. Calls `serde_json::to_string` on a
/// `HashMap<&str, &str>` built from the pairs; the order of the members in
/// the text follows the map's iteration and is not stated. Claims: the call
/// succeeds (serde_json fails only where a `Serialize` impl decides to fail
/// or a map key is not a string, and it writes into a `Vec`, which takes
/// every write; a map of strings meets none of these), and for pairs with
/// distinct keys the text reads back as the same map.
#[verifier::external_body]
fn render_string_map(entries: &Vec<(String, String)>) -> (res: Result<String, String>)
    ensures
        res is Ok,
        res matches Ok(t) ==> (keys_distinct(pairs_view(entries@)) ==> json_object_of_strings(t@) == Some(
            entries_map(pairs_view(entries@)),
        )),
{
    let map: HashMap<&str, &str> = entries.iter().map(|(k, v)| (k.as_str(), v.as_str())).collect();
    serde_json::to_string(&map).map_err(|e| e.to_string())
}


/// What a list of pairs with distinct keys describes: its keys, each with
/// its own value.
pub proof fn lemma_entries_map_of_distinct(s: TextPairs)
    requires
        keys_distinct(s),
    ensures
        entries_map(s).dom().finite(),
        entries_map(s).len() == s.len(),
        forall|i: int| 0 <= i < s.len() ==> #[trigger] entries_map(s).contains_key(s[i].0) && entries_map(s)[s[i].0] == s[i].1,
        forall|k: Seq<char>| #[trigger] entries_map(s).contains_key(k) ==> exists|i: int| 0 <= i < s.len() && s[i].0 == k,
    decreases s.len(),
{
    if s.len() > 0 {
        let p = s.drop_last();
        assert(keys_distinct(p)) by {
            assert forall|i: int, j: int| 0 <= i < p.len() && 0 <= j < p.len() && i != j implies #[trigger] p[i].0 != #[trigger] p[j].0 by {
                assert(p[i] == s[i] && p[j] == s[j]);
            }
        }
        lemma_entries_map_of_distinct(p);
        let last = s.last();
        assert(!entries_map(p).contains_key(last.0)) by {
            if entries_map(p).contains_key(last.0) {
                let i = choose|i: int| 0 <= i < p.len() && p[i].0 == last.0;
                assert(s[i].0 == s[s.len() - 1].0);
            }
        }
        assert forall|i: int| 0 <= i < s.len() implies #[trigger] entries_map(s).contains_key(s[i].0) && entries_map(s)[s[i].0] == s[i].1 by {
            if i < s.len() - 1 {
                assert(p[i] == s[i]);
                assert(s[i].0 != last.0);
            }
        }
        assert forall|k: Seq<char>| #[trigger] entries_map(s).contains_key(k) implies exists|i: int| 0 <= i < s.len() && s[i].0 == k by {
            if k != last.0 {
                let i = choose|i: int| 0 <= i < p.len() && p[i].0 == k;
                assert(s[i] == p[i]);
            } else {
                assert(s[s.len() - 1].0 == k);
            }
        }
    }
}

/// Finds the position of `key` among the pairs.
fn find_key(v: &Vec<(String, String)>, key: &String) -> (res: Option<usize>)
    ensures
        match res {
            Some(i) => i < v@.len() && v@[i as int].0@ == key@,
            None => forall|i: int| 0 <= i < v@.len() ==> v@[i].0@ != key@,
        },
{
    let mut i: usize = 0;
    while i < v.len()
        invariant
            i <= v@.len(),
            forall|j: int| 0 <= j < i ==> v@[j].0@ != key@,
        decreases v@.len() - i,
    {
        if v[i].0 == *key {
            return Some(i);
        }
        i = i + 1;
    }
    None
}

/// Sets `key` to `value` among pairs with distinct keys.
fn set_pair(map: &mut Vec<(String, String)>, key: String, value: String)
    requires
        keys_distinct(pairs_view(old(map)@)),
    ensures
        keys_distinct(pairs_view(final(map)@)),
        entries_map(pairs_view(final(map)@)) == entries_map(pairs_view(old(map)@)).insert(key@, value@),
{
    let ghost before = pairs_view(map@);
    match find_key(&*map, &key) {
        Some(i) => {
            map.set(i, (key, value));
            proof {
                let after = pairs_view(map@);
                assert(after =~= before.update(i as int, (before[i as int].0, value@)));
                assert(keys_distinct(after)) by {
                    assert forall|a: int, b: int| 0 <= a < after.len() && 0 <= b < after.len() && a != b implies #[trigger] after[a].0 != #[trigger] after[b].0 by {
                        assert(after[a].0 == before[a].0 && after[b].0 == before[b].0);
                    }
                }
                lemma_entries_map_of_distinct(before);
                lemma_entries_map_of_distinct(after);
                assert(entries_map(after) =~= entries_map(before).insert(key@, value@)) by {
                    assert forall|k: Seq<char>| #[trigger] entries_map(after).contains_key(k) == entries_map(before).insert(key@, value@).contains_key(k) by {
                        if entries_map(after).contains_key(k) {
                            let j = choose|j: int| 0 <= j < after.len() && after[j].0 == k;
                            assert(before[j].0 == k);
                        }
                        if entries_map(before).contains_key(k) {
                            let j = choose|j: int| 0 <= j < before.len() && before[j].0 == k;
                            assert(after[j].0 == k);
                        }
                        if k == key@ {
                            assert(after[i as int].0 == k);
                        }
                    }
                    assert forall|k: Seq<char>| #[trigger] entries_map(after).contains_key(k) implies entries_map(after)[k] == entries_map(before).insert(key@, value@)[k] by {
                        let j = choose|j: int| 0 <= j < after.len() && after[j].0 == k;
                        assert(entries_map(after).contains_key(after[j].0));
                        if j != i {
                            assert(entries_map(before).contains_key(before[j].0));
                        }
                    }
                }
            }
        },
        None => {
            map.push((key, value));
            proof {
                let after = pairs_view(map@);
                assert(after =~= before.push((after.last().0, after.last().1)));
                assert(after.drop_last() =~= before);
                assert(keys_distinct(after)) by {
                    assert forall|a: int, b: int| 0 <= a < after.len() && 0 <= b < after.len() && a != b implies #[trigger] after[a].0 != #[trigger] after[b].0 by {
                        if a < before.len() && b < before.len() {
                            assert(after[a] == before[a] && after[b] == before[b]);
                        }
                    }
                }
            }
        },
    }
}

/// The map a shard file holds: what its text reads as, or nothing when the
/// file is absent or does not hold a JSON object of strings.
pub open spec fn shard_view(content: Option<Seq<char>>) -> Map<Seq<char>, Seq<char>> {
    match content {
        Some(t) => match json_object_of_strings(t) {
            Some(m) => m,
            None => Map::empty(),
        },
        None => Map::empty(),
    }
}

/// The character contents of an optional string.
pub open spec fn opt_view(s: Option<String>) -> Option<Seq<char>> {
    match s {
        Some(t) => Some(t@),
        None => None,
    }
}

/// The value `m` holds for `k`, if any.
pub open spec fn lookup(m: Map<Seq<char>, Seq<char>>, k: Seq<char>) -> Option<Seq<char>> {
    if m.contains_key(k) { Some(m[k]) } else { None }
}

/// The pairs of a shard file with distinct keys, and their map is `shard_view`.
fn read_shard(content: &Option<String>) -> (res: Vec<(String, String)>)
    ensures
        keys_distinct(pairs_view(res@)),
        entries_map(pairs_view(res@)) == shard_view(opt_view(*content)),
{
    match content {
        Some(text) => match parse_string_map(text.as_str()) {
            Some(v) => v,
            None => {
                let v: Vec<(String, String)> = Vec::new();
                assert(entries_map(pairs_view(v@)) =~= Map::empty());
                v
            },
        },
        None => {
            let v: Vec<(String, String)> = Vec::new();
            assert(entries_map(pairs_view(v@)) =~= Map::empty());
            v
        },
    }
}

/// The text of shard file `i`: `shard_<i>.json`.
pub open spec fn shard_file_name(i: nat) -> Seq<char> {
    seq!['s', 'h', 'a', 'r', 'd', '_'] + decimal(i) + seq!['.', 'j', 's', 'o', 'n']
}

/// Shard files are named as `format!("shard_{}.json", i)` names them, so
/// distinct shards never share a file: the name of shard `i` is `shard_`,
/// the decimal digits of `i`, and `.json`.
pub proof fn lemma_shard_files_distinct(i: nat, j: nat)
    ensures
        shard_file_name(i) == shard_file_name(j) ==> i == j,
        shard_file_name(i).subrange(0, 6) == seq!['s', 'h', 'a', 'r', 'd', '_'],
        digits_value(shard_file_name(i).subrange(6, shard_file_name(i).len() - 5)) == i,
{
    let a = shard_file_name(i);
    let di = decimal(i);
    assert(a.subrange(0, 6) =~= seq!['s', 'h', 'a', 'r', 'd', '_']);
    assert(a.subrange(6, a.len() - 5) =~= di);
    lemma_decimal_reads_back(i);
    if a == shard_file_name(j) {
        let dj = decimal(j);
        assert(shard_file_name(j).subrange(6, shard_file_name(j).len() - 5) =~= dj);
        lemma_decimal_injective(i, j);
    }
}

/// The shard that the key with characters `k` belongs to among `n`: the
/// standard library's default hash of the key's UTF-8 bytes, modulo `n`.
pub open spec fn key_shard(k: Seq<char>, n: nat) -> nat {
    (DefaultHasher::spec_finish(seq![encode_utf8(k)]) % (n as u64)) as nat
}

/// The shard that `key` belongs to among `n`.
pub open spec fn shard_of(key: &str, n: usize) -> nat {
    key_shard(key@, n as nat)
}

/// Sum of the sizes of the shard maps.
pub open spec fn total_entries(shards: Seq<Option<Seq<char>>>) -> nat
    decreases shards.len(),
{
    if shards.len() == 0 {
        0
    } else {
        total_entries(shards.drop_last()) + shard_view(shards.last()).len()
    }
}

/// All entries of the shards, a later shard winning over an earlier one for
/// the same key.
pub open spec fn all_entries(shards: Seq<Option<Seq<char>>>) -> Map<Seq<char>, Seq<char>>
    decreases shards.len(),
{
    if shards.len() == 0 {
        Map::empty()
    } else {
        all_entries(shards.drop_last()).union_prefer_right(shard_view(shards.last()))
    }
}

/// The contents of the shard files, in shard order.
pub open spec fn shards_view(shards: Seq<Option<String>>) -> Seq<Option<Seq<char>>> {
    shards.map_values(|s: Option<String>| opt_view(s))
}

/// Reading back a write: once `put` has turned a shard's text `before` into
/// `after`, looking the key up in `after` gives the value written.
pub proof fn lemma_get_after_put(before: Option<Seq<char>>, after: Seq<char>, key: Seq<char>, value: Seq<char>)
    requires
        shard_view(Some(after)) == shard_view(before).insert(key, value),
    ensures
        lookup(shard_view(Some(after)), key) == Some(value),
{
}

/// A write touches only its key: every other key reads the same before and after.
pub proof fn lemma_put_keeps_other_keys(
    before: Option<Seq<char>>,
    after: Seq<char>,
    key: Seq<char>,
    value: Seq<char>,
    other: Seq<char>,
)
    requires
        shard_view(Some(after)) == shard_view(before).insert(key, value),
        other != key,
    ensures
        lookup(shard_view(Some(after)), other) == lookup(shard_view(before), other),
{
}

/// Reading back a removal: once `remove` has turned `before` into `after`,
/// the key is gone and every other key reads the same.
pub proof fn lemma_get_after_remove(before: Option<Seq<char>>, after: Seq<char>, key: Seq<char>, other: Seq<char>)
    requires
        shard_view(Some(after)) == shard_view(before).remove(key),
    ensures
        lookup(shard_view(Some(after)), key) is None,
        other != key ==> lookup(shard_view(Some(after)), other) == lookup(shard_view(before), other),
{
}

/// A shard file that cannot be read, or does not hold a JSON object of
/// strings, counts as empty: writing to it starts a fresh shard.
pub proof fn lemma_unreadable_shard_is_empty(text: Option<Seq<char>>)
    requires
        text is None || json_object_of_strings(text.unwrap()) is None,
    ensures
        shard_view(text) == Map::<Seq<char>, Seq<char>>::empty(),
{
}

/// Every entry of every shard sits in the shard that its key's hash selects
/// among `n`.
pub open spec fn well_placed(shards: Seq<Option<Seq<char>>>, n: nat) -> bool {
    forall|i: int, k: Seq<char>|
        0 <= i < shards.len() && #[trigger] shard_view(shards[i]).contains_key(k) ==> key_shard(k, n) == i
}

/// Every shard holds finitely many entries, as every JSON text does.
pub open spec fn shards_finite(shards: Seq<Option<Seq<char>>>) -> bool {
    forall|i: int| 0 <= i < shards.len() ==> #[trigger] shard_view(shards[i]).dom().finite()
}

/// What the store holds for `k`: the value in the shard its hash selects,
/// which is where `get` looks.
pub open spec fn store_lookup(shards: Seq<Option<Seq<char>>>, k: Seq<char>) -> Option<Seq<char>> {
    lookup(shard_view(shards[key_shard(k, shards.len()) as int]), k)
}

proof fn lemma_maps_equal_by_lookup(a: Map<Seq<char>, Seq<char>>, b: Map<Seq<char>, Seq<char>>)
    requires
        forall|k: Seq<char>| #[trigger] lookup(a, k) == lookup(b, k),
    ensures
        a == b,
{
    assert forall|k: Seq<char>| #[trigger] a.contains_key(k) == b.contains_key(k) by {
        assert(lookup(a, k) == lookup(b, k));
    }
    assert forall|k: Seq<char>| #[trigger] a.contains_key(k) implies a[k] == b[k] by {
        assert(lookup(a, k) == lookup(b, k));
    }
    assert(a =~= b);
}

/// The merged entries of well-placed shards: each key read from the shard
/// its hash selects, if that shard is among them; and the merge loses no
/// entry to an overlap.
proof fn lemma_placed_entries(shards: Seq<Option<Seq<char>>>, n: nat)
    requires
        well_placed(shards, n),
        shards_finite(shards),
    ensures
        forall|k: Seq<char>|
            #[trigger] lookup(all_entries(shards), k) == (if key_shard(k, n) < shards.len() {
                lookup(shard_view(shards[key_shard(k, n) as int]), k)
            } else {
                None
            }),
        all_entries(shards).dom().finite(),
        total_entries(shards) == all_entries(shards).len(),
    decreases shards.len(),
{
    if shards.len() == 0 {
        assert(all_entries(shards) =~= Map::empty());
    } else {
        let p = shards.drop_last();
        let last = (shards.len() - 1) as int;
        let m = shard_view(shards[last]);
        assert forall|i: int, k: Seq<char>| 0 <= i < p.len() && #[trigger] shard_view(p[i]).contains_key(k) implies key_shard(k, n) == i by {
            assert(p[i] == shards[i]);
        }
        assert forall|i: int| 0 <= i < p.len() implies #[trigger] shard_view(p[i]).dom().finite() by {
            assert(p[i] == shards[i]);
        }
        lemma_placed_entries(p, n);
        let a = all_entries(p);
        assert(shards.last() == shards[last]);
        assert(all_entries(shards) == a.union_prefer_right(m));
        assert forall|k: Seq<char>|
            #[trigger] lookup(all_entries(shards), k) == (if key_shard(k, n) < shards.len() {
                lookup(shard_view(shards[key_shard(k, n) as int]), k)
            } else {
                None
            }) by {
            assert(lookup(a, k) == (if key_shard(k, n) < p.len() {
                lookup(shard_view(p[key_shard(k, n) as int]), k)
            } else {
                None
            }));
            if m.contains_key(k) {
                assert(key_shard(k, n) == last);
            } else if key_shard(k, n) < p.len() {
                assert(p[key_shard(k, n) as int] == shards[key_shard(k, n) as int]);
            }
        }
        assert(a.dom().disjoint(m.dom())) by {
            assert forall|k: Seq<char>| a.dom().contains(k) implies !m.dom().contains(k) by {
                assert(lookup(a, k) is Some);
                assert(key_shard(k, n) < p.len());
                if m.contains_key(k) {
                    assert(key_shard(k, n) == last);
                }
            }
        }
        assert(shard_view(shards[last]).dom().finite());
        assert(all_entries(shards).dom() =~= a.dom().union(m.dom()));
        vstd::set_lib::lemma_set_disjoint_lens(a.dom(), m.dom());
    }
}

/// The store as a whole: when every entry sits in the shard its key's hash
/// selects, the merged entries that `get_all_entries` returns agree with
/// what `get` reads from each key's shard, and the count that `len` returns
/// is the number of keys.
pub proof fn lemma_store_entries(shards: Seq<Option<Seq<char>>>)
    requires
        0 < shards.len() <= 1000,
        well_placed(shards, shards.len()),
        shards_finite(shards),
    ensures
        forall|k: Seq<char>| #[trigger] lookup(all_entries(shards), k) == store_lookup(shards, k),
        all_entries(shards).dom().finite(),
        total_entries(shards) == all_entries(shards).len(),
{
    lemma_placed_entries(shards, shards.len());
    assert forall|k: Seq<char>| #[trigger] lookup(all_entries(shards), k) == store_lookup(shards, k) by {
        assert(key_shard(k, shards.len()) < shards.len());
    }
}

/// A write on the whole store: putting the text that `put` returned back
/// into the key's shard keeps every entry in its place, sets the key, leaves
/// every other key as it was, and adds one entry exactly when the key was new.
pub proof fn lemma_store_put(shards: Seq<Option<Seq<char>>>, key: Seq<char>, value: Seq<char>, after: Seq<char>)
    requires
        0 < shards.len() <= 1000,
        well_placed(shards, shards.len()),
        shards_finite(shards),
        shard_view(Some(after)) == shard_view(shards[key_shard(key, shards.len()) as int]).insert(key, value),
    ensures
        ({
            let next = shards.update(key_shard(key, shards.len()) as int, Some(after));
            &&& well_placed(next, shards.len())
            &&& shards_finite(next)
            &&& store_lookup(next, key) == Some(value)
            &&& forall|k: Seq<char>| k != key ==> #[trigger] store_lookup(next, k) == store_lookup(shards, k)
            &&& all_entries(next) == all_entries(shards).insert(key, value)
            &&& total_entries(next) == total_entries(shards) + (if all_entries(shards).contains_key(key) { 0nat } else { 1nat })
            &&& total_entries(next) > 0
        }),
{
    let n = shards.len();
    let i = key_shard(key, n) as int;
    let next = shards.update(i, Some(after));
    assert(next.len() == n);
    assert forall|j: int, k: Seq<char>| 0 <= j < next.len() && #[trigger] shard_view(next[j]).contains_key(k) implies key_shard(k, n) == j by {
        if j != i {
            assert(next[j] == shards[j]);
        }
    }
    assert forall|j: int| 0 <= j < next.len() implies #[trigger] shard_view(next[j]).dom().finite() by {
        if j != i {
            assert(next[j] == shards[j]);
        } else {
            assert(shard_view(shards[i]).dom().finite());
            assert(shard_view(next[j]).dom() == shard_view(shards[i]).dom().insert(key));
        }
    }
    lemma_store_entries(shards);
    lemma_store_entries(next);
    assert forall|k: Seq<char>| k != key implies #[trigger] store_lookup(next, k) == store_lookup(shards, k) by {
        if key_shard(k, n) as int != i {
            assert(next[key_shard(k, n) as int] == shards[key_shard(k, n) as int]);
        }
    }
    assert forall|k: Seq<char>| #[trigger] lookup(all_entries(next), k) == lookup(all_entries(shards).insert(key, value), k) by {
        assert(lookup(all_entries(next), k) == store_lookup(next, k));
        assert(lookup(all_entries(shards), k) == store_lookup(shards, k));
        if k != key {
            assert(store_lookup(next, k) == store_lookup(shards, k));
        }
    }
    lemma_maps_equal_by_lookup(all_entries(next), all_entries(shards).insert(key, value));
    assert(all_entries(next).dom() == all_entries(shards).dom().insert(key));
    assert(all_entries(next).dom().contains(key));
}

/// A removal on the whole store: putting the text that `remove` returned
/// back into the key's shard keeps every entry in its place, drops the key,
/// leaves every other key as it was, and takes one entry away exactly when
/// the key was there.
pub proof fn lemma_store_remove(shards: Seq<Option<Seq<char>>>, key: Seq<char>, after: Seq<char>)
    requires
        0 < shards.len() <= 1000,
        well_placed(shards, shards.len()),
        shards_finite(shards),
        shard_view(Some(after)) == shard_view(shards[key_shard(key, shards.len()) as int]).remove(key),
    ensures
        ({
            let next = shards.update(key_shard(key, shards.len()) as int, Some(after));
            &&& well_placed(next, shards.len())
            &&& shards_finite(next)
            &&& store_lookup(next, key) is None
            &&& forall|k: Seq<char>| k != key ==> #[trigger] store_lookup(next, k) == store_lookup(shards, k)
            &&& all_entries(next) == all_entries(shards).remove(key)
            &&& total_entries(next) + (if all_entries(shards).contains_key(key) { 1nat } else { 0nat }) == total_entries(shards)
        }),
{
    let n = shards.len();
    let i = key_shard(key, n) as int;
    let next = shards.update(i, Some(after));
    assert(next.len() == n);
    assert forall|j: int, k: Seq<char>| 0 <= j < next.len() && #[trigger] shard_view(next[j]).contains_key(k) implies key_shard(k, n) == j by {
        if j != i {
            assert(next[j] == shards[j]);
        } else {
            assert(shard_view(shards[i]).contains_key(k));
        }
    }
    assert forall|j: int| 0 <= j < next.len() implies #[trigger] shard_view(next[j]).dom().finite() by {
        if j != i {
            assert(next[j] == shards[j]);
        } else {
            assert(shard_view(shards[i]).dom().finite());
            assert(shard_view(next[j]).dom() == shard_view(shards[i]).dom().remove(key));
        }
    }
    lemma_store_entries(shards);
    lemma_store_entries(next);
    assert forall|k: Seq<char>| k != key implies #[trigger] store_lookup(next, k) == store_lookup(shards, k) by {
        if key_shard(k, n) as int != i {
            assert(next[key_shard(k, n) as int] == shards[key_shard(k, n) as int]);
        }
    }
    assert forall|k: Seq<char>| #[trigger] lookup(all_entries(next), k) == lookup(all_entries(shards).remove(key), k) by {
        assert(lookup(all_entries(next), k) == store_lookup(next, k));
        assert(lookup(all_entries(shards), k) == store_lookup(shards, k));
        if k != key {
            assert(store_lookup(next, k) == store_lookup(shards, k));
        }
    }
    lemma_maps_equal_by_lookup(all_entries(next), all_entries(shards).remove(key));
    assert(all_entries(next).dom() == all_entries(shards).dom().remove(key));
}

/// The store: a base directory and the number of shard files in it.
pub struct ShardedJson {
    base_dir: String,
    num_shards: usize,
}

impl ShardedJson {
    /// The base directory.
    pub closed spec fn base_dir_spec(&self) -> Seq<char> {
        self.base_dir@
    }

    /// The number of shards.
    pub closed spec fn num_shards_spec(&self) -> nat {
        self.num_shards as nat
    }

    /// A store over `num_shards` shard files in `base_dir` (which the caller
    /// creates).
    pub fn new(base_dir: String, num_shards: usize) -> (s: Self)
        requires
            num_shards > 0,
        ensures
            s.base_dir_spec() == base_dir@,
            s.num_shards_spec() == num_shards,
    {
        ShardedJson { base_dir, num_shards }
    }

    /// The number of shards.
    pub fn num_shards(&self) -> (n: usize)
        ensures
            n == self.num_shards_spec(),
    {
        self.num_shards
    }

    /// The path of shard file `i`.
    pub fn shard_file(&self, i: usize) -> (path: String)
        ensures
            path@ == path_join(self.base_dir_spec(), shard_file_name(i as nat)),
    {
        let prefix = "shard_";
        let suffix = ".json";
        proof {
            reveal_strlit("shard_");
            reveal_strlit(".json");
        }
        let mut name = String::from_str(prefix);
        push_decimal(&mut name, i);
        name.append(suffix);
        assert(name@ =~= shard_file_name(i as nat));
        join_path(self.base_dir.as_str(), name.as_str())
    }

    /// The shard that `key` belongs to.
    pub fn shard_index(&self, key: &str) -> (i: usize)
        requires
            self.num_shards_spec() > 0,
        ensures
            i == shard_of(key, self.num_shards_spec() as usize),
            i < self.num_shards_spec(),
    {
        let mut hasher = DefaultHasher::new();
        hasher.write(key.as_bytes());
        let h = hasher.finish();
        assert(hasher@ =~= seq![key.spec_bytes()]);
        (h % (self.num_shards as u64)) as usize
    }

    /// The path of the shard file that holds `key`.
    pub fn shard_path(&self, key: &str) -> (path: String)
        requires
            self.num_shards_spec() > 0,
            key@.len() > 0,
        ensures
            path@ == path_join(self.base_dir_spec(), shard_file_name(shard_of(key, self.num_shards_spec() as usize))),
    {
        let i = self.shard_index(key);
        self.shard_file(i)
    }

    /// Stores `value` under `key`, given the current text of the key's shard
    /// file (`None` when it cannot be read). Returns the text to write back:
    /// the shard's map with `key` set to `value`.
    pub fn put(&self, key: String, value: String, shard: Option<String>) -> (res: Result<String, String>)
        requires
            key@.len() > 0,
            value@.len() > 0,
        ensures
            res matches Ok(t) && shard_view(Some(t@)) == shard_view(opt_view(shard)).insert(key@, value@),
    {
        let mut map = read_shard(&shard);
        set_pair(&mut map, key, value);
        let text = render_string_map(&map);
        text
    }

    /// Counts the entries of all shards, given the text of each shard file in
    /// shard order (`None` for one that cannot be read). The count stops at
    /// `usize::MAX`.
    pub fn len(&self, shards: &Vec<Option<String>>) -> (n: usize)
        requires
            shards@.len() == self.num_shards_spec(),
            self.num_shards_spec() <= 1000,
        ensures
            n == (if total_entries(shards_view(shards@)) <= usize::MAX {
                total_entries(shards_view(shards@))
            } else {
                usize::MAX as nat
            }),
    {
        let mut total: usize = 0;
        let mut i: usize = 0;
        while i < self.num_shards
            invariant
                shards@.len() == self.num_shards_spec(),
                i <= self.num_shards,
                total == (if total_entries(shards_view(shards@).take(i as int)) <= usize::MAX {
                    total_entries(shards_view(shards@).take(i as int))
                } else {
                    usize::MAX as nat
                }),
            decreases self.num_shards - i,
        {
            let map = read_shard(&shards[i]);
            proof {
                lemma_entries_map_of_distinct(pairs_view(map@));
                let sv = shards_view(shards@);
                assert(sv.take(i + 1).drop_last() =~= sv.take(i as int));
                assert(sv.take(i + 1).last() == opt_view(shards@[i as int]));
            }
            let count = map.len();
            total = if total > usize::MAX - count { usize::MAX } else { total + count };
            i = i + 1;
        }
        assert(shards_view(shards@).take(i as int) =~= shards_view(shards@));
        total
    }

    /// Whether no shard holds an entry.
    pub fn is_empty(&self, shards: &Vec<Option<String>>) -> (res: bool)
        requires
            shards@.len() == self.num_shards_spec(),
            self.num_shards_spec() <= 1000,
        ensures
            res == (total_entries(shards_view(shards@)) == 0),
    {
        self.len(shards) == 0
    }

    /// All entries of the store, given the text of each shard file in shard
    /// order; a later shard wins over an earlier one for the same key. The
    /// pairs have distinct keys.
    pub fn get_all_entries(&self, shards: &Vec<Option<String>>) -> (res: Vec<(String, String)>)
        requires
            shards@.len() == self.num_shards_spec(),
            self.num_shards_spec() <= 1000,
        ensures
            keys_distinct(pairs_view(res@)),
            entries_map(pairs_view(res@)) == all_entries(shards_view(shards@)),
    {
        let mut all: Vec<(String, String)> = Vec::new();
        assert(entries_map(pairs_view(all@)) =~= Map::empty());
        let mut i: usize = 0;
        while i < self.num_shards
            invariant
                shards@.len() == self.num_shards_spec(),
                i <= self.num_shards,
                keys_distinct(pairs_view(all@)),
                entries_map(pairs_view(all@)) == all_entries(shards_view(shards@).take(i as int)),
            decreases self.num_shards - i,
        {
            let map = read_shard(&shards[i]);
            let ghost acc = entries_map(pairs_view(all@));
            let mut j: usize = 0;
            while j < map.len()
                invariant
                    j <= map@.len(),
                    keys_distinct(pairs_view(map@)),
                    keys_distinct(pairs_view(all@)),
                    entries_map(pairs_view(all@)) == acc.union_prefer_right(entries_map(pairs_view(map@).take(j as int))),
                decreases map@.len() - j,
            {
                let k = map[j].0.clone();
                let v = map[j].1.clone();
                let ghost before_all = entries_map(pairs_view(all@));
                set_pair(&mut all, k, v);
                proof {
                    let pm = pairs_view(map@);
                    assert(pm.take(j + 1).drop_last() =~= pm.take(j as int));
                    assert(pm.take(j + 1).last() == pm[j as int]);
                    assert(entries_map(pairs_view(all@)) =~= acc.union_prefer_right(entries_map(pm.take(j + 1))));
                }
                j = j + 1;
            }
            proof {
                let sv = shards_view(shards@);
                assert(pairs_view(map@).take(j as int) =~= pairs_view(map@));
                assert(sv.take(i + 1).drop_last() =~= sv.take(i as int));
                assert(sv.take(i + 1).last() == opt_view(shards@[i as int]));
            }
            i = i + 1;
        }
        assert(shards_view(shards@).take(i as int) =~= shards_view(shards@));
        all
    }

    /// Looks `key` up, given the current text of its shard file.
    pub fn get(&self, key: &str, shard: Option<String>) -> (res: Result<Option<String>, String>)
        requires
            key@.len() > 0,
        ensures
            res matches Ok(v) && opt_view(v) == lookup(shard_view(opt_view(shard)), key@),
    {
        let map = read_shard(&shard);
        let k = String::from_str(key);
        proof {
            lemma_entries_map_of_distinct(pairs_view(map@));
        }
        match find_key(&map, &k) {
            Some(i) => {
                let v = map[i].1.clone();
                proof {
                    assert(pairs_view(map@)[i as int].0 == key@);
                }
                Ok(Some(v))
            },
            None => {
                proof {
                    if entries_map(pairs_view(map@)).contains_key(key@) {
                        let j = choose|j: int| 0 <= j < pairs_view(map@).len() && pairs_view(map@)[j].0 == key@;
                        assert(map@[j].0@ == key@);
                    }
                }
                Ok(None)
            },
        }
    }

    /// Removes `key`, given the current text of its shard file. Returns
    /// whether the key was there and, when it was, the text to write back.
    pub fn remove(&self, key: &str, shard: Option<String>) -> (res: Result<(bool, Option<String>), String>)
        requires
            key@.len() > 0,
        ensures
            res matches Ok((removed, text)) && {
                &&& removed == shard_view(opt_view(shard)).contains_key(key@)
                &&& removed ==> (text matches Some(t) && shard_view(Some(t@)) == shard_view(opt_view(shard)).remove(key@))
                &&& !removed ==> text is None
            },
    {
        let mut map = read_shard(&shard);
        let ghost before = pairs_view(map@);
        let k = String::from_str(key);
        proof {
            lemma_entries_map_of_distinct(before);
        }
        match find_key(&map, &k) {
            Some(i) => {
                map.remove(i);
                proof {
                    let after = pairs_view(map@);
                    assert(after =~= before.remove(i as int));
                    assert(keys_distinct(after)) by {
                        assert forall|a: int, b: int| 0 <= a < after.len() && 0 <= b < after.len() && a != b implies #[trigger] after[a].0 != #[trigger] after[b].0 by {
                            let a2 = if a < i { a } else { a + 1 };
                            let b2 = if b < i { b } else { b + 1 };
                            assert(after[a] == before[a2] && after[b] == before[b2]);
                        }
                    }
                    lemma_entries_map_of_distinct(after);
                    assert(entries_map(after) =~= entries_map(before).remove(key@)) by {
                        assert forall|kk: Seq<char>| #[trigger] entries_map(after).contains_key(kk) == entries_map(before).remove(key@).contains_key(kk) by {
                            if entries_map(after).contains_key(kk) {
                                let j = choose|j: int| 0 <= j < after.len() && after[j].0 == kk;
                                let j2 = if j < i { j } else { j + 1 };
                                assert(before[j2].0 == kk);
                                assert(j2 != i);
                                assert(before[i as int].0 == key@);
                                assert(kk != key@);
                            }
                            if entries_map(before).contains_key(kk) && kk != key@ {
                                let j = choose|j: int| 0 <= j < before.len() && before[j].0 == kk;
                                assert(j != i);
                                let j2 = if j < i { j } else { j - 1 };
                                assert(after[j2].0 == kk);
                            }
                        }
                        assert forall|kk: Seq<char>| #[trigger] entries_map(after).contains_key(kk) implies entries_map(after)[kk] == entries_map(before).remove(key@)[kk] by {
                            let j = choose|j: int| 0 <= j < after.len() && after[j].0 == kk;
                            let j2 = if j < i { j } else { j + 1 };
                            assert(entries_map(after).contains_key(after[j].0));
                            assert(entries_map(before).contains_key(before[j2].0));
                        }
                    }
                }
                match render_string_map(&map) {
                    Ok(text) => Ok((true, Some(text))),
                    Err(e) => Err(e),
                }
            },
            None => {
                proof {
                    if entries_map(before).contains_key(key@) {
                        let j = choose|j: int| 0 <= j < before.len() && before[j].0 == key@;
                        assert(map@[j].0@ == key@);
                    }
                }
                Ok((false, None))
            },
        }
    }
}

} // verus!
