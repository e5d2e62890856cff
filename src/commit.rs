//! Building commits: resolving HEAD to the parent commit, composing the tree
//! and commit objects, and naming the ref that the new commit goes to.
use vstd::prelude::*;
use crate::digest::{is_hash_text, is_object_hash, text_hash, text_sha256_hex};
use crate::error::RvcsError;
use crate::index::{Index, tree_text};
use crate::text::{decimal, has_prefix, push_decimal, starts_with, trim, trimmed};

verus! {

/// The marker that opens a symbolic HEAD: `ref: `.
pub open spec fn ref_marker() -> Seq<char> {
    seq!['r', 'e', 'f', ':', ' ']
}

/// `s` with every leading copy of the marker removed.
pub open spec fn strip_markers(s: Seq<char>) -> Seq<char>
    decreases s.len(),
{
    if has_prefix(s, ref_marker()) {
        strip_markers(s.subrange(5, s.len() as int))
    } else {
        s
    }
}

/// Where HEAD points.
pub enum Head {
    /// A symbolic HEAD: the ref file, relative to the repository root.
    Attached(String),
    /// A detached HEAD: the commit hash it holds, possibly empty.
    Detached(String),
}

/// Whether `h` is what the HEAD text `content` says.
pub open spec fn head_matches(h: Head, content: Seq<char>) -> bool {
    match h {
        Head::Attached(p) => has_prefix(content, ref_marker()) && p@ == strip_markers(trimmed(content)),
        Head::Detached(c) => !has_prefix(content, ref_marker()) && c@ == trimmed(content),
    }
}

/// Reads the HEAD text: one that begins with `ref: ` names a ref file,
/// any other holds a commit hash directly.
pub fn parse_head(content: &str) -> (r: Head)
    ensures
        head_matches(r, content@),
{
    let marker = "ref: ";
    proof {
        reveal_strlit("ref: ");
    }
    assert(marker@ =~= ref_marker());
    if starts_with(content, marker) {
        let mut rest = trim(content);
        while starts_with(rest, marker)
            invariant
                marker@ == ref_marker(),
                strip_markers(trimmed(content@)) == strip_markers(rest@),
            decreases rest@.len(),
        {
            let n = rest.unicode_len();
            rest = rest.substring_char(5, n);
        }
        Head::Attached(String::from_str(rest))
    } else {
        Head::Detached(String::from_str(trim(content)))
    }
}

/// The characters of an optional text.
pub open spec fn opt_view(o: Option<&str>) -> Option<Seq<char>> {
    match o {
        Some(s) => Some(s@),
        None => None,
    }
}

/// The characters of an optional owned text.
pub open spec fn opt_string_view(o: Option<String>) -> Option<Seq<char>> {
    match o {
        Some(s) => Some(s@),
        None => None,
    }
}

/// The commit that HEAD designates, given the content of the ref file that an
/// attached HEAD names (`None` where that file does not exist yet).
pub open spec fn parent_of(head: Head, branch: Option<Seq<char>>) -> Option<Seq<char>> {
    match head {
        Head::Attached(_) => match branch {
            Some(b) => if is_object_hash(b) {
                Some(b)
            } else {
                Some(trimmed(b))
            },
            None => None,
        },
        Head::Detached(c) => if c@.len() == 0 {
            None
        } else {
            Some(c@)
        },
    }
}

/// The commit that HEAD designates: for an attached HEAD the content of its
/// ref file without surrounding whitespace (a bare hash is taken whole), or
/// none before the first commit; for a detached HEAD the hash it holds, or
/// none if it holds nothing.
pub fn current_commit(head: &Head, branch: Option<&str>) -> (r: Option<String>)
    ensures
        opt_string_view(r) == parent_of(*head, opt_view(branch)),
{
    match head {
        Head::Attached(_) => match branch {
            Some(b) => if is_hash_text(b) {
                Some(String::from_str(b))
            } else {
                Some(String::from_str(trim(b)))
            },
            None => None,
        },
        Head::Detached(c) => {
            if c.as_str().unicode_len() == 0 {
                None
            } else {
                Some(c.clone())
            }
        },
    }
}

/// `tree <hash>` and a newline.
pub open spec fn tree_header(tree: Seq<char>) -> Seq<char> {
    seq!['t', 'r', 'e', 'e', ' '] + tree + seq!['\n']
}

/// `parent <hash>` and a newline, or nothing for a root commit.
pub open spec fn parent_header(parent: Option<Seq<char>>) -> Seq<char> {
    match parent {
        Some(p) => seq!['p', 'a', 'r', 'e', 'n', 't', ' '] + p + seq!['\n'],
        None => Seq::empty(),
    }
}

/// `author rvcs` and a newline.
pub open spec fn author_header() -> Seq<char> {
    seq!['a', 'u', 't', 'h', 'o', 'r', ' ', 'r', 'v', 'c', 's', '\n']
}

/// `timestamp <seconds>` and a newline.
pub open spec fn timestamp_header(ts: nat) -> Seq<char> {
    seq!['t', 'i', 'm', 'e', 's', 't', 'a', 'm', 'p', ' '] + decimal(ts) + seq!['\n']
}

/// The commit object's text: headers, a blank line, the message and a newline.
pub open spec fn commit_text(tree: Seq<char>, parent: Option<Seq<char>>, ts: nat, message: Seq<char>) -> Seq<char> {
    tree_header(tree) + parent_header(parent) + author_header() + timestamp_header(ts) + seq!['\n'] + message
        + seq!['\n']
}

/// Renders a commit object for the tree, the optional parent, the time in
/// seconds since the epoch and the message.
pub fn build_commit_text(tree_hash: &str, parent: Option<&str>, timestamp: u64, message: &str) -> (r: String)
    ensures
        r@ == commit_text(tree_hash@, opt_view(parent), timestamp as nat, message@),
{
    let tree_kw = "tree ";
    let parent_kw = "parent ";
    let author = "author rvcs\n";
    let ts_kw = "timestamp ";
    let nl = "\n";
    proof {
        reveal_strlit("tree ");
        reveal_strlit("parent ");
        reveal_strlit("author rvcs\n");
        reveal_strlit("timestamp ");
        reveal_strlit("\n");
    }
    let mut out = String::new();
    out.append(tree_kw);
    out.append(tree_hash);
    out.append(nl);
    assert(out@ =~= tree_header(tree_hash@));
    let ghost before_parent = out@;
    match parent {
        Some(p) => {
            out.append(parent_kw);
            out.append(p);
            out.append(nl);
        },
        None => {},
    }
    assert(out@ =~= before_parent + parent_header(opt_view(parent)));
    let ghost before_author = out@;
    out.append(author);
    out.append(ts_kw);
    let ghost before_ts = out@;
    push_decimal(&mut out, timestamp);
    out.append(nl);
    out.append(nl);
    out.append(message);
    out.append(nl);
    assert(out@ =~= commit_text(tree_hash@, opt_view(parent), timestamp as nat, message@));
    out
}

/// What a commit writes: the tree and commit objects under their hashes,
/// then the commit hash into the ref that HEAD designates.
pub struct CommitPlan {
    pub tree_text: String,
    pub tree_hash: String,
    pub parent: Option<String>,
    pub commit_text: String,
    pub commit_hash: String,
}

/// Whether `plan` is the commit of `index` on top of `parent` at `ts` with `message`.
pub open spec fn plan_matches(
    plan: CommitPlan,
    index: Index,
    parent: Option<Seq<char>>,
    ts: nat,
    message: Seq<char>,
) -> bool {
    &&& plan.tree_text@ == tree_text(index.pairs())
    &&& plan.tree_hash@ == text_hash(plan.tree_text@)
    &&& opt_string_view(plan.parent) == parent
    &&& plan.commit_text@ == commit_text(plan.tree_hash@, parent, ts, message)
    &&& plan.commit_hash@ == text_hash(plan.commit_text@)
    &&& is_object_hash(plan.tree_hash@)
    &&& is_object_hash(plan.commit_hash@)
}

/// Composes the commit of the staged entries on top of what HEAD designates.
/// Nothing staged is `EmptyCommit`, checked first; a clock that could not be
/// read (`None`) is `ClockFailure`. `branch` is the content of the ref file
/// that an attached HEAD names, `None` where that file does not exist.
pub fn plan_commit(
    index: &Index,
    head: &Head,
    branch: Option<&str>,
    timestamp: Option<u64>,
    message: &str,
) -> (r: Result<CommitPlan, RvcsError>)
    requires
        index.wf(),
    ensures
        index@ == Map::<Seq<char>, Seq<char>>::empty() ==> r == Err::<CommitPlan, RvcsError>(
            RvcsError::EmptyCommit,
        ),
        index@ != Map::<Seq<char>, Seq<char>>::empty() && timestamp is None ==> r == Err::<CommitPlan, RvcsError>(
            RvcsError::ClockFailure,
        ),
        index@ != Map::<Seq<char>, Seq<char>>::empty() && timestamp is Some ==> (r matches Ok(plan) && plan_matches(
            plan,
            *index,
            parent_of(*head, opt_view(branch)),
            timestamp.unwrap() as nat,
            message@,
        )),
{
    if index.is_empty() {
        return Err(RvcsError::EmptyCommit);
    }
    let ts = match timestamp {
        Some(t) => t,
        None => {
            return Err(RvcsError::ClockFailure);
        },
    };
    let tree = index.tree_text();
    let tree_hash = text_sha256_hex(tree.as_str());
    let parent = current_commit(head, branch);
    let commit = match &parent {
        Some(p) => build_commit_text(tree_hash.as_str(), Some(p.as_str()), ts, message),
        None => build_commit_text(tree_hash.as_str(), None, ts, message),
    };
    let commit_hash = text_sha256_hex(commit.as_str());
    Ok(CommitPlan { tree_text: tree, tree_hash, parent, commit_text: commit, commit_hash })
}

/// Commits on an attached HEAD link up: the first, made while its ref file
/// does not exist, has no parent line, its tree line being followed by the
/// author line; the next, made once the ref file holds the first's hash, has
/// a parent line right after its tree line that names the first commit.
pub proof fn lemma_chain_linkage(
    ref_path: String,
    first: CommitPlan,
    index1: Index,
    ts1: nat,
    message1: Seq<char>,
    second: CommitPlan,
    index2: Index,
    ts2: nat,
    message2: Seq<char>,
)
    requires
        plan_matches(first, index1, parent_of(Head::Attached(ref_path), None), ts1, message1),
        plan_matches(
            second,
            index2,
            parent_of(Head::Attached(ref_path), Some(first.commit_hash@)),
            ts2,
            message2,
        ),
    ensures
        opt_string_view(first.parent) is None,
        first.commit_text@.subrange(0, 70) == tree_header(first.tree_hash@),
        first.commit_text@.subrange(70, 82) == author_header(),
        opt_string_view(second.parent) == Some(first.commit_hash@),
        second.commit_text@.subrange(70, 142) == parent_header(Some(first.commit_hash@)),
{
    let c1 = first.commit_text@;
    let c2 = second.commit_text@;
    assert(c1 == tree_header(first.tree_hash@) + author_header() + (timestamp_header(ts1) + seq!['\n'] + message1 + seq!['\n']));
    assert(c1.subrange(0, 70) =~= tree_header(first.tree_hash@));
    assert(c1.subrange(70, 82) =~= author_header());
    let ph = parent_header(Some(first.commit_hash@));
    assert(c2 == tree_header(second.tree_hash@) + ph + (author_header() + timestamp_header(ts2) + seq!['\n'] + message2 + seq!['\n']));
    assert(c2.subrange(70, 142) =~= ph);
}

} // verus!
