//! Placement of cluster files in the sharded directory tree: a cluster lives
//! in the directory named by the first two bytes of its identifier.

use crate::text::{contains_seq, join_path, path_join, path_starts_with};
use vstd::prelude::*;
use vstd::string::*;
use vstd::utf8::*;

verus! {

/// The characters that the first two bytes of `id`'s UTF-8 encoding spell.
pub open spec fn shard_prefix(id: Seq<char>) -> Seq<char> {
    decode_utf8(encode_utf8(id).subrange(0, 2))
}

/// The directory of cluster `node_id` under `base_path`.
pub open spec fn shard_dir_of(base_path: Seq<char>, node_id: Seq<char>) -> Seq<char> {
    path_join(base_path, shard_prefix(node_id))
}

/// The file of cluster `node_id` in its directory: `<node_id>.json`.
pub open spec fn cluster_file_of(base_path: Seq<char>, node_id: Seq<char>) -> Seq<char> {
    path_join(shard_dir_of(base_path, node_id), node_id + seq!['.', 'j', 's', 'o', 'n'])
}

/// The directory of cluster `node_id` under `base_path`, and its file
/// `<node_id>.json` in that directory. The identifier must be at least two
/// bytes long with a character boundary after the second byte and must not
/// contain `..`; the directory must lie under the base and the file in the
/// directory (which fails only for an identifier that is an absolute path
/// leading elsewhere).
pub fn resolve_paths(base_path: &str, node_id: &str) -> (res: (String, String))
    requires
        encode_utf8(node_id@).len() >= 2,
        is_char_boundary(encode_utf8(node_id@), 2),
        !contains_seq(node_id@, seq!['.', '.']),
        path_starts_with(shard_dir_of(base_path@, node_id@), base_path@),
        path_starts_with(cluster_file_of(base_path@, node_id@), shard_dir_of(base_path@, node_id@)),
    ensures
        res.0@ == path_join(base_path@, shard_prefix(node_id@)),
        res.1@ == path_join(res.0@, node_id@ + seq!['.', 'j', 's', 'o', 'n']),
{
    broadcast use vstd::utf8::encode_utf8_decode_utf8;
    let (shard_id, _) = node_id.split_at(2);
    assert(shard_id@ == decode_utf8(shard_id.spec_bytes()));
    let shard_dir = join_path(base_path, shard_id);
    let suffix = ".json";
    proof {
        reveal_strlit(".json");
    }
    let mut file_name = String::from_str(node_id);
    file_name.append(suffix);
    let file_path = join_path(shard_dir.as_str(), file_name.as_str());
    (shard_dir, file_path)
}

} // verus!
