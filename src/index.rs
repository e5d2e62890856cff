//! The staging index: tracked paths and the hashes of their staged content,
//! kept sorted by path so that its text and its tree are deterministic.
use vstd::prelude::*;
use crate::text::{seq_lt, str_lt, lemma_seq_lt_irreflexive, lemma_seq_lt_transitive, lemma_seq_lt_total, lemma_seq_lt_asymmetric};

verus! {

/// A (path, hash) pair as the contracts see it.
pub type Pair = (Seq<char>, Seq<char>);

/// Keys strictly increasing in the path order, hence each key at most once.
pub open spec fn sorted_keys(s: Seq<Pair>) -> bool {
    forall|i: int, j: int| 0 <= i < j < s.len() ==> seq_lt(#[trigger] s[i].0, #[trigger] s[j].0)
}

/// The value of the first pair whose key is `p`.
pub open spec fn lookup(s: Seq<Pair>, p: Seq<char>) -> Option<Seq<char>>
    decreases s.len(),
{
    if s.len() == 0 {
        None
    } else if s[0].0 == p {
        Some(s[0].1)
    } else {
        lookup(s.drop_first(), p)
    }
}

/// The mapping from path to hash that a pair sequence holds.
pub open spec fn map_of(s: Seq<Pair>) -> Map<Seq<char>, Seq<char>> {
    Map::new(|p: Seq<char>| lookup(s, p).is_some(), |p: Seq<char>| lookup(s, p).unwrap())
}

pub proof fn lemma_lookup_index(s: Seq<Pair>, p: Seq<char>) -> (j: int)
    requires
        lookup(s, p).is_some(),
    ensures
        0 <= j < s.len(),
        s[j].0 == p,
        lookup(s, p) == Some(s[j].1),
    decreases s.len(),
{
    if s[0].0 == p {
        0
    } else {
        let k = lemma_lookup_index(s.drop_first(), p);
        k + 1
    }
}

pub proof fn lemma_lookup_found(s: Seq<Pair>, i: int)
    requires
        sorted_keys(s),
        0 <= i < s.len(),
    ensures
        lookup(s, s[i].0) == Some(s[i].1),
    decreases s.len(),
{
    if i > 0 {
        assert(seq_lt(s[0].0, s[i].0));
        lemma_seq_lt_irreflexive(s[i].0);
        let t = s.drop_first();
        assert(sorted_keys(t)) by {
            assert forall|a: int, b: int| 0 <= a < b < t.len() implies seq_lt(#[trigger] t[a].0, #[trigger] t[b].0) by {
                assert(t[a] == s[a + 1] && t[b] == s[b + 1]);
            }
        }
        lemma_lookup_found(t, i - 1);
    }
}

pub proof fn lemma_lookup_absent(s: Seq<Pair>, p: Seq<char>)
    requires
        forall|i: int| 0 <= i < s.len() ==> (#[trigger] s[i]).0 != p,
    ensures
        lookup(s, p).is_none(),
    decreases s.len(),
{
    if s.len() > 0 {
        let t = s.drop_first();
        assert forall|i: int| 0 <= i < t.len() implies (#[trigger] t[i]).0 != p by {
            assert(t[i] == s[i + 1]);
        }
        lemma_lookup_absent(t, p);
    }
}

proof fn lemma_sorted_tail(s: Seq<Pair>)
    requires
        sorted_keys(s),
        s.len() > 0,
    ensures
        sorted_keys(s.drop_first()),
        lookup(s.drop_first(), s[0].0).is_none(),
{
    let t = s.drop_first();
    assert forall|a: int, b: int| 0 <= a < b < t.len() implies seq_lt(#[trigger] t[a].0, #[trigger] t[b].0) by {
        assert(t[a] == s[a + 1] && t[b] == s[b + 1]);
    }
    assert forall|i: int| 0 <= i < t.len() implies (#[trigger] t[i]).0 != s[0].0 by {
        assert(t[i] == s[i + 1]);
        assert(seq_lt(s[0].0, s[i + 1].0));
        lemma_seq_lt_irreflexive(s[0].0);
    }
    lemma_lookup_absent(t, s[0].0);
}

/// Sorted pair sequences are determined by the mapping they hold: two that
/// hold the same mapping are the same sequence.
pub proof fn lemma_sorted_canonical(s: Seq<Pair>, t: Seq<Pair>)
    requires
        sorted_keys(s),
        sorted_keys(t),
        map_of(s) == map_of(t),
    ensures
        s == t,
    decreases s.len(),
{
    if s.len() == 0 || t.len() == 0 {
        if t.len() > 0 {
            lemma_lookup_found(t, 0);
            assert(map_of(t).contains_key(t[0].0));
        }
        if s.len() > 0 {
            lemma_lookup_found(s, 0);
            assert(map_of(s).contains_key(s[0].0));
        }
        assert(s =~= t);
    } else {
        lemma_lookup_found(s, 0);
        lemma_lookup_found(t, 0);
        assert(map_of(s).contains_key(s[0].0));
        assert(map_of(t).contains_key(t[0].0));
        let j = lemma_lookup_index(t, s[0].0);
        let k = lemma_lookup_index(s, t[0].0);
        if j > 0 {
            assert(seq_lt(t[0].0, t[j].0));
            if k > 0 {
                assert(seq_lt(s[0].0, s[k].0));
                lemma_seq_lt_asymmetric(s[0].0, t[0].0);
            } else {
                lemma_seq_lt_irreflexive(s[0].0);
            }
        }
        assert(s[0].0 == t[0].0);
        assert(map_of(s)[s[0].0] == s[0].1);
        assert(s[0] == t[0]);
        let st = s.drop_first();
        let tt = t.drop_first();
        lemma_sorted_tail(s);
        lemma_sorted_tail(t);
        assert forall|p: Seq<char>| lookup(st, p) == lookup(tt, p) by {
            if p != s[0].0 {
                assert(lookup(s, p) == lookup(st, p));
                assert(lookup(t, p) == lookup(tt, p));
                assert(map_of(s).contains_key(p) == lookup(s, p).is_some());
                assert(map_of(t).contains_key(p) == lookup(t, p).is_some());
                if lookup(s, p).is_some() {
                    assert(map_of(s)[p] == map_of(t)[p]);
                }
            }
        }
        assert(map_of(st) =~= map_of(tt));
        lemma_sorted_canonical(st, tt);
        assert(s =~= seq![s[0]] + st);
        assert(t =~= seq![t[0]] + tt);
    }
}

/// One staged file: its normalized path and the hash of its content.
pub struct IndexEntry {
    pub path: String,
    pub hash: String,
}

/// The pairs that a sequence of entries holds.
pub open spec fn pairs_of(v: Seq<IndexEntry>) -> Seq<Pair> {
    v.map_values(|e: IndexEntry| (e.path@, e.hash@))
}

/// The staging index: at most one entry per path, ordered by path.
pub struct Index {
    pub entries: Vec<IndexEntry>,
}

impl View for Index {
    type V = Map<Seq<char>, Seq<char>>;

    open spec fn view(&self) -> Map<Seq<char>, Seq<char>> {
        map_of(self.pairs())
    }
}

impl Index {
    /// The entries, in order, as pairs.
    pub open spec fn pairs(&self) -> Seq<Pair> {
        pairs_of(self.entries@)
    }

    /// Entries strictly ordered by path.
    pub open spec fn wf(&self) -> bool {
        sorted_keys(self.pairs())
    }

    /// An index with no entries.
    pub fn new() -> (r: Index)
        ensures
            r.wf(),
            r@ == Map::<Seq<char>, Seq<char>>::empty(),
            r.pairs().len() == 0,
    {
        let r = Index { entries: Vec::new() };
        assert(r@ =~= Map::<Seq<char>, Seq<char>>::empty());
        r
    }

    /// Stages `hash` for `path`, replacing what was staged for it before.
    pub fn add(&mut self, path: String, hash: String)
        requires
            old(self).wf(),
        ensures
            final(self).wf(),
            final(self)@ == old(self)@.insert(path@, hash@),
    {
        let ghost s = self.pairs();
        let ghost k = path@;
        let ghost v = hash@;
        let n = self.entries.len();
        let mut i: usize = 0;
        while i < n && str_lt(self.entries[i].path.as_str(), path.as_str())
            invariant
                n == self.entries@.len(),
                s == self.pairs(),
                k == path@,
                i <= n,
                forall|j: int| 0 <= j < i ==> seq_lt(#[trigger] s[j].0, k),
            decreases n - i,
        {
            i = i + 1;
        }
        let same = i < n && self.entries[i].path == path;
        let ghost t: Seq<Pair>;
        if same {
            self.entries.set(i, IndexEntry { path, hash });
            proof {
                t = s.update(i as int, (k, v));
                assert(self.pairs() =~= t);
            }
        } else {
            proof {
                if i < n {
                    lemma_seq_lt_total(s[i as int].0, k);
                }
            }
            self.entries.insert(i, IndexEntry { path, hash });
            proof {
                t = s.insert(i as int, (k, v));
                assert(self.pairs() =~= t);
            }
        }
        proof {
            let ii = i as int;
            assert(t[ii] == (k, v));
            assert forall|a: int, b: int| 0 <= a < b < t.len() implies seq_lt(#[trigger] t[a].0, #[trigger] t[b].0) by {
                if same {
                } else {
                    if b < ii {
                    } else if b == ii {
                    } else if a < ii {
                        assert(t[b] == s[b - 1]);
                        if b - 1 > ii {
                            lemma_seq_lt_transitive(k, s[ii].0, s[b - 1].0);
                        }
                        lemma_seq_lt_transitive(t[a].0, k, t[b].0);
                    } else if a == ii {
                        assert(t[b] == s[b - 1]);
                        if b - 1 > ii {
                            lemma_seq_lt_transitive(k, s[ii].0, s[b - 1].0);
                        }
                    } else {
                        assert(t[a] == s[a - 1]);
                        assert(t[b] == s[b - 1]);
                    }
                }
            }
            assert(sorted_keys(t));
            lemma_lookup_found(t, ii);
            assert forall|p: Seq<char>| lookup(t, p) == (if p == k { Some(v) } else { lookup(s, p) }) by {
                if p != k {
                    if lookup(s, p).is_some() {
                        let j = lemma_lookup_index(s, p);
                        lemma_lookup_found(s, j);
                        let jj = if same || j < ii { j } else { j + 1 };
                        assert(t[jj] == s[j]);
                        lemma_lookup_found(t, jj);
                    } else {
                        assert forall|j: int| 0 <= j < s.len() implies (#[trigger] s[j]).0 != p by {
                            if s[j].0 == p {
                                lemma_lookup_found(s, j);
                            }
                        }
                        assert forall|jj: int| 0 <= jj < t.len() implies (#[trigger] t[jj]).0 != p by {
                            if same || jj < ii {
                                if jj != ii {
                                    assert(t[jj] == s[jj]);
                                }
                            } else if jj > ii {
                                assert(t[jj] == s[jj - 1]);
                            }
                        }
                        lemma_lookup_absent(t, p);
                    }
                }
            }
            assert(map_of(t) =~= map_of(s).insert(k, v));
        }
    }
}


/// The text line that stores one pair in the index file: `<hash> <path>`.
pub open spec fn index_line(e: Pair) -> Seq<char> {
    e.1 + seq![' '] + e.0 + seq!['\n']
}

/// The index file's text for the pairs, in their order.
pub open spec fn index_text(s: Seq<Pair>) -> Seq<char>
    decreases s.len(),
{
    if s.len() == 0 {
        Seq::empty()
    } else {
        index_text(s.drop_last()) + index_line(s.last())
    }
}

/// The manifest line for one pair: `blob <hash> <path>`.
pub open spec fn tree_line(e: Pair) -> Seq<char> {
    seq!['b', 'l', 'o', 'b', ' '] + e.1 + seq![' '] + e.0 + seq!['\n']
}

/// The tree object's text for the pairs, in their order.
pub open spec fn tree_text(s: Seq<Pair>) -> Seq<char>
    decreases s.len(),
{
    if s.len() == 0 {
        Seq::empty()
    } else {
        tree_text(s.drop_last()) + tree_line(s.last())
    }
}

/// The position of the first space in `l`, or its length if it has none.
pub open spec fn first_space(l: Seq<char>) -> nat
    decreases l.len(),
{
    if l.len() == 0 || l[0] == ' ' {
        0
    } else {
        1 + first_space(l.drop_first())
    }
}

/// The mapping after reading one line: a line `<hash> <path>`, split at its
/// first space into two non-empty parts, stages the pair; any other line is
/// skipped.
pub open spec fn apply_line(m: Map<Seq<char>, Seq<char>>, l: Seq<char>) -> Map<Seq<char>, Seq<char>> {
    let k = first_space(l) as int;
    if 0 < k && k + 1 < l.len() {
        m.insert(l.subrange(k + 1, l.len() as int), l.subrange(0, k))
    } else {
        m
    }
}

/// A line as read before its newline: a final carriage return is dropped.
pub open spec fn strip_cr(l: Seq<char>) -> Seq<char> {
    if l.len() > 0 && l.last() == '\r' {
        l.drop_last()
    } else {
        l
    }
}

/// Reads the rest `s` of an index text, with `line` read so far of the
/// current line and `m` staged by the lines before it.
pub open spec fn parse_rest(m: Map<Seq<char>, Seq<char>>, line: Seq<char>, s: Seq<char>) -> Map<Seq<char>, Seq<char>>
    decreases s.len(),
{
    if s.len() == 0 {
        apply_line(m, line)
    } else if s[0] == '\n' {
        parse_rest(apply_line(m, strip_cr(line)), Seq::empty(), s.drop_first())
    } else {
        parse_rest(m, line.push(s[0]), s.drop_first())
    }
}

/// The mapping that an index text holds; later lines override earlier ones.
pub open spec fn parse_index(s: Seq<char>) -> Map<Seq<char>, Seq<char>> {
    parse_rest(Map::empty(), Seq::empty(), s)
}

proof fn lemma_first_space(l: Seq<char>, j: int)
    requires
        0 <= j <= l.len(),
        forall|q: int| 0 <= q < j ==> l[q] != ' ',
        j == l.len() || l[j] == ' ',
    ensures
        first_space(l) == j,
    decreases l.len(),
{
    if j > 0 {
        lemma_first_space(l.drop_first(), j - 1);
    }
}

/// Appends `a`, a space, `b` and a newline to `out`.
fn append_fields(out: &mut String, a: &str, b: &str)
    ensures
        final(out)@ == old(out)@ + a@ + seq![' '] + b@ + seq!['\n'],
{
    let sp = " ";
    let nl = "\n";
    proof {
        reveal_strlit(" ");
        reveal_strlit("\n");
    }
    out.append(a);
    out.append(sp);
    out.append(b);
    out.append(nl);
    assert(sp@ =~= seq![' ']);
    assert(nl@ =~= seq!['\n']);
}

impl Index {
    /// Whether nothing is staged.
    pub fn is_empty(&self) -> (r: bool)
        requires
            self.wf(),
        ensures
            r == (self@ == Map::<Seq<char>, Seq<char>>::empty()),
            r == (self.pairs().len() == 0),
    {
        let r = self.entries.len() == 0;
        proof {
            if r {
                assert(self@ =~= Map::<Seq<char>, Seq<char>>::empty());
            } else {
                lemma_lookup_found(self.pairs(), 0);
                assert(self@.contains_key(self.pairs()[0].0));
            }
        }
        r
    }

    /// The index file's text: one `<hash> <path>` line per entry, by path.
    pub fn save(&self) -> (r: String)
        ensures
            r@ == index_text(self.pairs()),
    {
        let mut out = String::new();
        let n = self.entries.len();
        let mut i: usize = 0;
        while i < n
            invariant
                n == self.entries@.len(),
                i <= n,
                out@ == index_text(self.pairs().subrange(0, i as int)),
            decreases n - i,
        {
            let e = &self.entries[i];
            append_fields(&mut out, e.hash.as_str(), e.path.as_str());
            assert(self.pairs().subrange(0, i + 1).drop_last() =~= self.pairs().subrange(0, i as int));
            i = i + 1;
        }
        assert(self.pairs().subrange(0, n as int) =~= self.pairs());
        out
    }

    /// The tree object's text: one `blob <hash> <path>` line per entry, by path.
    pub fn tree_text(&self) -> (r: String)
        ensures
            r@ == tree_text(self.pairs()),
    {
        let mut out = String::new();
        let n = self.entries.len();
        let mut i: usize = 0;
        let blob = "blob ";
        proof {
            reveal_strlit("blob ");
        }
        assert(blob@ =~= seq!['b', 'l', 'o', 'b', ' ']);
        while i < n
            invariant
                n == self.entries@.len(),
                i <= n,
                blob@ == seq!['b', 'l', 'o', 'b', ' '],
                out@ == tree_text(self.pairs().subrange(0, i as int)),
            decreases n - i,
        {
            let e = &self.entries[i];
            out.append(blob);
            append_fields(&mut out, e.hash.as_str(), e.path.as_str());
            assert(self.pairs().subrange(0, i + 1).drop_last() =~= self.pairs().subrange(0, i as int));
            i = i + 1;
        }
        assert(self.pairs().subrange(0, n as int) =~= self.pairs());
        out
    }

    /// Stages the pair that the line `l` holds, if it holds one.
    fn load_line(&mut self, l: &str)
        requires
            old(self).wf(),
        ensures
            final(self).wf(),
            final(self)@ == apply_line(old(self)@, l@),
    {
        let n = l.unicode_len();
        let mut k: usize = 0;
        while k < n && l.get_char(k) != ' '
            invariant
                n == l@.len(),
                k <= n,
                forall|q: int| 0 <= q < k ==> l@[q] != ' ',
            decreases n - k,
        {
            k = k + 1;
        }
        proof {
            lemma_first_space(l@, k as int);
        }
        if 0 < k && k < n && k + 1 < n {
            let hash = String::from_str(l.substring_char(0, k));
            let path = String::from_str(l.substring_char(k + 1, n));
            self.add(path, hash);
        }
    }

    /// The index that an index file's text holds. Each line `<hash> <path>`,
    /// split at its first space into two non-empty parts, stages that pair;
    /// other lines are skipped. An empty text is an empty index.
    pub fn load(content: &str) -> (r: Index)
        ensures
            r.wf(),
            r@ == parse_index(content@),
    {
        let mut idx = Index::new();
        let n = content.unicode_len();
        let mut start: usize = 0;
        let mut i: usize = 0;
        assert(content@.subrange(0, 0) =~= Seq::<char>::empty());
        assert(content@.subrange(0, n as int) =~= content@);
        while i < n
            invariant
                n == content@.len(),
                start <= i <= n,
                idx.wf(),
                parse_index(content@) == parse_rest(
                    idx@,
                    content@.subrange(start as int, i as int),
                    content@.subrange(i as int, n as int),
                ),
            decreases n - i,
        {
            let c = content.get_char(i);
            let ghost rest = content@.subrange(i as int, n as int);
            assert(rest[0] == c);
            assert(rest.drop_first() =~= content@.subrange(i + 1, n as int));
            if c == '\n' {
                let mut end = i;
                if end > start && content.get_char(end - 1) == '\r' {
                    end = end - 1;
                }
                let line = content.substring_char(start, end);
                assert(line@ =~= strip_cr(content@.subrange(start as int, i as int)));
                idx.load_line(line);
                start = i + 1;
                i = i + 1;
                assert(content@.subrange(start as int, i as int) =~= Seq::<char>::empty());
            } else {
                assert(content@.subrange(start as int, i + 1) =~= content@.subrange(start as int, i as int).push(c));
                i = i + 1;
            }
        }
        let line = content.substring_char(start, n);
        idx.load_line(line);
        idx
    }
}

/// Adding pairs in any order yields the same index text and the same tree
/// text once the staged mappings agree.
pub proof fn lemma_deterministic_text(a: Index, b: Index)
    requires
        a.wf(),
        b.wf(),
        a@ == b@,
    ensures
        a.pairs() == b.pairs(),
        index_text(a.pairs()) == index_text(b.pairs()),
        tree_text(a.pairs()) == tree_text(b.pairs()),
{
    lemma_sorted_canonical(a.pairs(), b.pairs());
}

/// A pair that one line of the index text can hold: a non-empty hash with
/// no space or newline, and a non-empty path with no newline that does not
/// end in a carriage return.
pub open spec fn storable(e: Pair) -> bool {
    &&& e.1.len() > 0
    &&& e.0.len() > 0
    &&& forall|i: int| 0 <= i < e.1.len() ==> #[trigger] e.1[i] != ' ' && e.1[i] != '\n'
    &&& forall|i: int| 0 <= i < e.0.len() ==> #[trigger] e.0[i] != '\n'
    &&& e.0.last() != '\r'
}

proof fn lemma_parse_split(m: Map<Seq<char>, Seq<char>>, acc: Seq<char>, a: Seq<char>, b: Seq<char>)
    requires
        a.len() > 0,
        a.last() == '\n',
    ensures
        parse_rest(m, acc, a + b) == parse_rest(parse_rest(m, acc, a), Seq::empty(), b),
    decreases a.len(),
{
    let ab = a + b;
    assert(ab[0] == a[0]);
    assert(ab.drop_first() =~= a.drop_first() + b);
    if a[0] == '\n' {
        let m2 = apply_line(m, strip_cr(acc));
        assert(parse_rest(m, acc, ab) == parse_rest(m2, Seq::empty(), ab.drop_first()));
        assert(parse_rest(m, acc, a) == parse_rest(m2, Seq::empty(), a.drop_first()));
        if a.len() == 1 {
            assert(a.drop_first() + b =~= b);
            assert(a.drop_first() =~= Seq::<char>::empty());
            assert(parse_rest(m2, Seq::empty(), Seq::empty()) == apply_line(m2, Seq::empty()));
            assert(apply_line(m2, Seq::empty()) == m2);
        } else {
            lemma_parse_split(m2, Seq::empty(), a.drop_first(), b);
        }
    } else {
        assert(parse_rest(m, acc, ab) == parse_rest(m, acc.push(a[0]), ab.drop_first()));
        assert(parse_rest(m, acc, a) == parse_rest(m, acc.push(a[0]), a.drop_first()));
        lemma_parse_split(m, acc.push(a[0]), a.drop_first(), b);
    }
}

proof fn lemma_parse_line(m: Map<Seq<char>, Seq<char>>, acc: Seq<char>, x: Seq<char>)
    requires
        forall|i: int| 0 <= i < x.len() ==> #[trigger] x[i] != '\n',
    ensures
        parse_rest(m, acc, x.push('\n')) == apply_line(m, strip_cr(acc + x)),
    decreases x.len(),
{
    let xn = x.push('\n');
    if x.len() == 0 {
        assert(acc + x =~= acc);
        assert(xn.drop_first() =~= Seq::<char>::empty());
        assert(xn[0] == '\n');
        let m2 = apply_line(m, strip_cr(acc));
        assert(parse_rest(m, acc, xn) == parse_rest(m2, Seq::empty(), xn.drop_first()));
        assert(parse_rest(m2, Seq::empty(), Seq::empty()) == apply_line(m2, Seq::empty()));
        assert(apply_line(m2, Seq::empty()) == m2);
    } else {
        assert(xn[0] == x[0]);
        assert(xn.drop_first() =~= x.drop_first().push('\n'));
        assert(parse_rest(m, acc, xn) == parse_rest(m, acc.push(x[0]), xn.drop_first()));
        assert(acc.push(x[0]) + x.drop_first() =~= acc + x);
        assert forall|i: int| 0 <= i < x.drop_first().len() implies #[trigger] x.drop_first()[i] != '\n' by {
            assert(x.drop_first()[i] == x[i + 1]);
        }
        lemma_parse_line(m, acc.push(x[0]), x.drop_first());
    }
}

proof fn lemma_parse_index_line(m: Map<Seq<char>, Seq<char>>, e: Pair)
    requires
        storable(e),
    ensures
        parse_rest(m, Seq::empty(), index_line(e)) == m.insert(e.0, e.1),
{
    let x = e.1 + seq![' '] + e.0;
    assert(index_line(e) =~= x.push('\n'));
    assert forall|i: int| 0 <= i < x.len() implies #[trigger] x[i] != '\n' by {
        if i < e.1.len() {
            assert(x[i] == e.1[i]);
        } else if i > e.1.len() {
            assert(x[i] == e.0[i - e.1.len() - 1]);
        }
    }
    lemma_parse_line(m, Seq::empty(), x);
    assert(Seq::<char>::empty() + x =~= x);
    assert(x.last() == e.0.last());
    let k = e.1.len() as int;
    assert forall|q: int| 0 <= q < k implies x[q] != ' ' by {
        assert(x[q] == e.1[q]);
    }
    lemma_first_space(x, k);
    assert(x.subrange(k + 1, x.len() as int) =~= e.0);
    assert(x.subrange(0, k) =~= e.1);
}

proof fn lemma_map_of_push(s: Seq<Pair>)
    requires
        sorted_keys(s),
        s.len() > 0,
    ensures
        sorted_keys(s.drop_last()),
        map_of(s) == map_of(s.drop_last()).insert(s.last().0, s.last().1),
{
    let t = s.drop_last();
    let n = s.len() - 1;
    assert forall|a: int, b: int| 0 <= a < b < t.len() implies seq_lt(#[trigger] t[a].0, #[trigger] t[b].0) by {
        assert(t[a] == s[a] && t[b] == s[b]);
    }
    assert forall|p: Seq<char>| lookup(s, p) == (if p == s.last().0 { Some(s.last().1) } else { lookup(t, p) }) by {
        if p == s.last().0 {
            lemma_lookup_found(s, n);
        } else if lookup(t, p).is_some() {
            let j = lemma_lookup_index(t, p);
            lemma_lookup_found(t, j);
            assert(s[j] == t[j]);
            lemma_lookup_found(s, j);
        } else {
            assert forall|j: int| 0 <= j < t.len() implies (#[trigger] t[j]).0 != p by {
                if t[j].0 == p {
                    lemma_lookup_found(t, j);
                }
            }
            assert forall|j: int| 0 <= j < s.len() implies (#[trigger] s[j]).0 != p by {
                if j < n {
                    assert(s[j] == t[j]);
                }
            }
            lemma_lookup_absent(s, p);
        }
    }
    assert(map_of(s) =~= map_of(t).insert(s.last().0, s.last().1));
}

proof fn lemma_text_round_trip(s: Seq<Pair>)
    requires
        sorted_keys(s),
        forall|i: int| 0 <= i < s.len() ==> storable(#[trigger] s[i]),
    ensures
        parse_index(index_text(s)) == map_of(s),
    decreases s.len(),
{
    if s.len() == 0 {
        assert(map_of(s) =~= Map::<Seq<char>, Seq<char>>::empty());
        assert(apply_line(Map::<Seq<char>, Seq<char>>::empty(), Seq::empty()) == Map::<Seq<char>, Seq<char>>::empty());
    } else {
        let t = s.drop_last();
        let e = s.last();
        lemma_map_of_push(s);
        assert forall|i: int| 0 <= i < t.len() implies storable(#[trigger] t[i]) by {
            assert(t[i] == s[i]);
        }
        lemma_text_round_trip(t);
        if t.len() == 0 {
            assert(index_text(t) + index_line(e) =~= index_line(e));
            assert(map_of(t) =~= Map::<Seq<char>, Seq<char>>::empty());
        } else {
            let a = index_text(t);
            assert(a == index_text(t.drop_last()) + index_line(t.last()));
            assert(a.last() == '\n');
            lemma_parse_split(Map::empty(), Seq::empty(), a, index_line(e));
        }
        lemma_parse_index_line(map_of(t), e);
    }
}

/// Loading the text that `save` renders gives back the same index, for
/// entries that one line each can hold.
pub proof fn lemma_save_load(idx: Index)
    requires
        idx.wf(),
        forall|i: int| 0 <= i < idx.pairs().len() ==> storable(#[trigger] idx.pairs()[i]),
    ensures
        parse_index(index_text(idx.pairs())) == idx@,
{
    lemma_text_round_trip(idx.pairs());
}

} // verus!
