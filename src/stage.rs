//! Staging a file's content under its normalized path.
use vstd::prelude::*;
use crate::digest::{is_object_hash, object_hash, sha256_hex};
use crate::index::{Index, lemma_deterministic_text, tree_text};
use crate::utils::{normalize_path, normalized};

verus! {

/// The index mapping after staging `bytes` for `path`: the normalized path
/// maps to the content's object name, whatever it mapped to before.
pub open spec fn staged(m: Map<Seq<char>, Seq<char>>, path: Seq<char>, bytes: Seq<u8>) -> Map<Seq<char>, Seq<char>> {
    m.insert(normalized(path), object_hash(bytes))
}

/// Stages the content `bytes` of the file at `path` and returns its object
/// name, under which the content is to be stored.
pub fn stage_file(index: &mut Index, path: &str, bytes: &[u8]) -> (r: String)
    requires
        old(index).wf(),
    ensures
        final(index).wf(),
        final(index)@ == staged(old(index)@, path@, bytes@),
        r@ == object_hash(bytes@),
        is_object_hash(r@),
{
    let hash = sha256_hex(bytes);
    let key = normalize_path(path);
    index.add(key, hash.clone());
    hash
}

/// Staging the same unchanged file twice leaves the index as staging it once
/// does: one entry for its path, naming its content.
pub proof fn lemma_stage_idempotent(m: Map<Seq<char>, Seq<char>>, path: Seq<char>, bytes: Seq<u8>)
    ensures
        staged(staged(m, path, bytes), path, bytes) == staged(m, path, bytes),
        staged(m, path, bytes).dom() == m.dom().insert(normalized(path)),
        staged(m, path, bytes)[normalized(path)] == object_hash(bytes),
{
    assert(staged(staged(m, path, bytes), path, bytes) =~= staged(m, path, bytes));
    assert(staged(m, path, bytes).dom() =~= m.dom().insert(normalized(path)));
}

/// Files at distinct paths may be staged in either order.
pub proof fn lemma_stage_order(
    m: Map<Seq<char>, Seq<char>>,
    p1: Seq<char>,
    b1: Seq<u8>,
    p2: Seq<char>,
    b2: Seq<u8>,
)
    requires
        normalized(p1) != normalized(p2),
    ensures
        staged(staged(m, p1, b1), p2, b2) == staged(staged(m, p2, b2), p1, b1),
{
    assert(staged(staged(m, p1, b1), p2, b2) =~= staged(staged(m, p2, b2), p1, b1));
}

/// Two indexes that hold the same final (path, hash) pairs, however they
/// were built, give the same tree text and so the same tree object name.
pub proof fn lemma_deterministic_tree(a: Index, b: Index)
    requires
        a.wf(),
        b.wf(),
        a@ == b@,
    ensures
        tree_text(a.pairs()) == tree_text(b.pairs()),
        crate::digest::text_hash(tree_text(a.pairs())) == crate::digest::text_hash(tree_text(b.pairs())),
{
    lemma_deterministic_text(a, b);
}

} // verus!
