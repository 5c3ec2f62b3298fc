//! The in-memory tree model and the deterministic traversal that assembles
//! the output document.
//!
//! A run walks the root entries depth-first in stored (sorted) order,
//! consults the rule set before descending into or emitting each entry, and
//! appends one output block per accepted file: an ignored directory is
//! pruned whole, a file is kept only when it is not ignored, has a
//! non-empty extension and holds valid UTF-8.
use vstd::prelude::*;
use vstd::multiset::Multiset;
use vstd::seq_lib::group_to_multiset_ensures;
use crate::glob::views_of;
use crate::order::lex_le;
use crate::order::lex_le_bytes;
use crate::order::lemma_lex_le_antisymmetric;
use crate::order::lemma_lex_le_total;
use crate::order::lemma_lex_le_transitive;
use crate::rules::RuleModel;
use crate::rules::RuleSet;
use crate::rules::is_ignored_spec;
use crate::rules::subvec;
use crate::utf8::is_utf8;
use crate::utf8::is_utf8_bytes;

verus! {

/// One filesystem node: a file with its raw content, or a directory with
/// its entries.
pub enum Node {
    File { name: Vec<u8>, content: Vec<u8> },
    Dir { name: Vec<u8>, children: Vec<Node> },
}

/// The name of a node.
pub open spec fn spec_name(n: Node) -> Seq<u8> {
    match n {
        Node::File { name, content } => name@,
        Node::Dir { name, children } => name@,
    }
}

/// No byte of `name` after position `i` is a dot.
pub open spec fn no_dot_after(name: Seq<u8>, i: int) -> bool {
    forall|j: int| i < j < name.len() ==> name[j] != 46
}

/// A file name has a non-empty extension: its last dot is neither the
/// leading byte (a bare dotfile has no extension) nor the final byte.
pub open spec fn has_extension(name: Seq<u8>) -> bool {
    exists|i: int|
        0 < i && i + 1 < name.len() && name[i] == 46 && #[trigger] no_dot_after(name, i)
}

/// Decides `has_extension`.
pub fn has_extension_bytes(name: &Vec<u8>) -> (r: bool)
    ensures
        r == has_extension(name@),
{
    let len = name.len();
    let mut j = len;
    loop
        invariant
            j <= len,
            len == name@.len(),
            forall|t: int| j <= t < len ==> name@[t] != 46,
        decreases j,
    {
        if j == 0 {
            proof {
                assert(!has_extension(name@)) by {
                    if has_extension(name@) {
                        let w = choose|w: int|
                            0 < w && w + 1 < name@.len() && name@[w] == 46
                                && #[trigger] no_dot_after(name@, w);
                        assert(name@[w] != 46);
                    }
                }
            }
            return false;
        }
        let i = j - 1;
        if name[i] == 46 {
            if i > 0 && len - i >= 2 {
                proof {
                    assert(no_dot_after(name@, i as int));
                    assert(0 < i as int && i as int + 1 < name@.len() && name@[i as int] == 46
                        && no_dot_after(name@, i as int));
                }
                return true;
            } else {
                proof {
                    assert(!has_extension(name@)) by {
                        if has_extension(name@) {
                            let w = choose|w: int|
                                0 < w && w + 1 < name@.len() && name@[w] == 46
                                    && #[trigger] no_dot_after(name@, w);
                            if w < i as int {
                                assert(name@[i as int] != 46);
                            }
                            if w > i as int {
                                assert(name@[w] != 46);
                            }
                            assert(w == i as int);
                        }
                    }
                }
                return false;
            }
        }
        j = i;
    }
}

/// One output block: the relative path of an accepted file and its content.
#[verifier::ext_equal]
pub ghost struct Block {
    pub path: Seq<Seq<u8>>,
    pub content: Seq<u8>,
}

/// The blocks a node contributes, visited with `pre` as the path of its
/// parent.  An ignored directory contributes nothing at all; a file
/// contributes one block when it is kept.
pub open spec fn accepted_node(n: Node, rules: Seq<RuleModel>, pre: Seq<Seq<u8>>) -> Seq<Block>
    decreases n, 0int,
{
    match n {
        Node::File { name, content } => {
            let p = pre.push(name@);
            if !is_ignored_spec(rules, p, false) && has_extension(name@) && is_utf8(content@) {
                seq![Block { path: p, content: content@ }]
            } else {
                seq![]
            }
        },
        Node::Dir { name, children } => {
            let p = pre.push(name@);
            if is_ignored_spec(rules, p, true) {
                seq![]
            } else {
                accepted_list(children@, rules, p, 0)
            }
        },
    }
}

/// The blocks contributed by the nodes of `children` from index `i` on, in
/// order.
pub open spec fn accepted_list(
    children: Seq<Node>,
    rules: Seq<RuleModel>,
    pre: Seq<Seq<u8>>,
    i: int,
) -> Seq<Block>
    decreases children, children.len() - i,
{
    if i < 0 || i >= children.len() {
        seq![]
    } else {
        accepted_node(children[i], rules, pre) + accepted_list(children, rules, pre, i + 1)
    }
}

/// A path joined with `/` separators.
pub open spec fn join_path(path: Seq<Seq<u8>>) -> Seq<u8>
    decreases path.len(),
{
    if path.len() == 0 {
        seq![]
    } else if path.len() == 1 {
        path[0]
    } else {
        path[0] + seq![47u8] + join_path(path.skip(1))
    }
}

/// Appending one more segment appends a separator and the segment.
pub proof fn lemma_join_path_push(path: Seq<Seq<u8>>, s: Seq<u8>)
    requires
        path.len() >= 1,
    ensures
        join_path(path.push(s)) == join_path(path) + seq![47u8] + s,
    decreases path.len(),
{
    if path.len() == 1 {
        assert(path.push(s).skip(1) =~= seq![s]);
        assert(join_path(seq![s]) == s);
        assert(join_path(path.push(s)) =~= path[0] + seq![47u8] + s);
        assert(join_path(path) + seq![47u8] + s =~= path[0] + seq![47u8] + s);
    } else {
        assert(path.push(s).skip(1) =~= path.skip(1).push(s));
        lemma_join_path_push(path.skip(1), s);
        assert(join_path(path.push(s)) =~= join_path(path) + seq![47u8] + s);
    }
}

/// The six bytes `----- ` that open a block header.
pub open spec fn header_prefix() -> Seq<u8> {
    seq![45u8, 45u8, 45u8, 45u8, 45u8, 32u8]
}

/// The seven bytes ` -----` and a line feed that close a block header.
pub open spec fn header_suffix() -> Seq<u8> {
    seq![32u8, 45u8, 45u8, 45u8, 45u8, 45u8, 10u8]
}

/// The bytes of one output block: the header line around the joined
/// relative path, the verbatim content, and a blank-line separator.
pub open spec fn block_bytes(b: Block) -> Seq<u8> {
    header_prefix() + join_path(b.path) + header_suffix() + b.content + seq![10u8, 10u8]
}

/// The output document: the blocks' bytes, concatenated in order.
pub open spec fn doc_bytes(blocks: Seq<Block>) -> Seq<u8>
    decreases blocks.len(),
{
    if blocks.len() == 0 {
        seq![]
    } else {
        block_bytes(blocks[0]) + doc_bytes(blocks.skip(1))
    }
}

/// The document of one block is that block's bytes.
pub proof fn lemma_doc_bytes_single(b: Block)
    ensures
        doc_bytes(seq![b]) == block_bytes(b),
{
    assert(seq![b].len() == 1);
    assert(seq![b][0] == b);
    assert(seq![b].skip(1) =~= Seq::<Block>::empty());
    assert(doc_bytes(Seq::<Block>::empty()) == Seq::<u8>::empty());
    assert(doc_bytes(seq![b]) == block_bytes(b) + doc_bytes(seq![b].skip(1)));
    assert(block_bytes(b) + Seq::<u8>::empty() =~= block_bytes(b));
}

/// The document of a concatenation is the concatenation of the documents.
pub proof fn lemma_doc_bytes_append(a: Seq<Block>, b: Seq<Block>)
    ensures
        doc_bytes(a + b) == doc_bytes(a) + doc_bytes(b),
    decreases a.len(),
{
    if a.len() == 0 {
        assert(a + b =~= b);
        assert(doc_bytes(a) + doc_bytes(b) =~= doc_bytes(b));
    } else {
        assert((a + b)[0] == a[0]);
        assert((a + b).skip(1) =~= a.skip(1) + b);
        lemma_doc_bytes_append(a.skip(1), b);
        assert(doc_bytes(a + b) =~= doc_bytes(a) + doc_bytes(b));
    }
}

/// Owns the output document while a run assembles it.
pub struct Aggregator {
    pub out: Vec<u8>,
}

impl Aggregator {
    /// An empty output document.
    pub fn new() -> (a: Aggregator)
        ensures
            a.out@ == Seq::<u8>::empty(),
    {
        Aggregator { out: Vec::new() }
    }

    /// Appends the block of one accepted file.
    pub fn accept(&mut self, path: &Vec<Vec<u8>>, content: &Vec<u8>)
        ensures
            final(self).out@ == old(self).out@ + block_bytes(
                Block { path: views_of(path@), content: content@ },
            ),
    {
        let ghost pv = views_of(path@);
        let mut buf: Vec<u8> = Vec::new();
        buf.push(45);
        buf.push(45);
        buf.push(45);
        buf.push(45);
        buf.push(45);
        buf.push(32);
        proof {
            assert(buf@ =~= header_prefix());
        }
        let ghost base = buf@;
        let mut k: usize = 0;
        while k < path.len()
            invariant
                k <= path@.len(),
                pv == views_of(path@),
                base == header_prefix(),
                buf@ == base + join_path(pv.take(k as int)),
            decreases path@.len() - k,
        {
            if k > 0 {
                buf.push(47);
            }
            let seg = &path[k];
            buf.extend_from_slice(seg.as_slice());
            proof {
                assert(pv[k as int] == path@[k as int]@);
                if k == 0 {
                    assert(pv.take(0) =~= Seq::<Seq<u8>>::empty());
                    assert(pv.take(1) =~= seq![pv[0]]);
                    assert(join_path(pv.take(1)) == pv[0]);
                    assert(buf@ =~= base + join_path(pv.take(1)));
                } else {
                    assert(pv.take(k + 1) =~= pv.take(k as int).push(pv[k as int]));
                    lemma_join_path_push(pv.take(k as int), pv[k as int]);
                    assert(buf@ =~= base + join_path(pv.take(k + 1)));
                }
            }
            k = k + 1;
        }
        proof {
            assert(pv.take(pv.len() as int) =~= pv);
        }
        buf.push(32);
        buf.push(45);
        buf.push(45);
        buf.push(45);
        buf.push(45);
        buf.push(45);
        buf.push(10);
        buf.extend_from_slice(content.as_slice());
        buf.push(10);
        buf.push(10);
        proof {
            assert(buf@ =~= block_bytes(Block { path: pv, content: content@ }));
        }
        self.out.append(&mut buf);
    }
}

/// Copies a byte vector.
fn clone_bytes(v: &Vec<u8>) -> (r: Vec<u8>)
    ensures
        r@ == v@,
{
    let r = subvec(v, 0, v.len());
    proof {
        assert(v@.subrange(0, v@.len() as int) =~= v@);
    }
    r
}

/// Visits one node: appends the blocks of every file kept under it, in
/// depth-first order, leaving the path stack as it was.
pub fn walk_node(n: &Node, rs: &RuleSet, path: &mut Vec<Vec<u8>>, agg: &mut Aggregator)
    ensures
        final(path)@ == old(path)@,
        final(agg).out@ == old(agg).out@ + doc_bytes(
            accepted_node(*n, rs.models(), views_of(old(path)@)),
        ),
    decreases *n,
{
    let ghost pre = views_of(path@);
    let ghost rsm = rs.models();
    match n {
        Node::File { name, content } => {
            let ghost blocks = accepted_node(*n, rsm, pre);
            path.push(clone_bytes(name));
            proof {
                assert(views_of(path@) =~= pre.push(name@));
            }
            if !rs.is_ignored(path, false) {
                if has_extension_bytes(name) {
                    if is_utf8_bytes(content) {
                        agg.accept(path, content);
                        proof {
                            let blk = Block { path: pre.push(name@), content: content@ };
                            assert(blocks =~= seq![blk]);
                            lemma_doc_bytes_single(blk);
                        }
                    }
                }
            }
            path.pop();
            proof {
                assert(path@ =~= old(path)@);
                if agg.out@ != old(agg).out@ + doc_bytes(blocks) {
                    assert(blocks =~= Seq::<Block>::empty());
                    assert(agg.out@ =~= old(agg).out@ + doc_bytes(blocks));
                }
            }
        },
        Node::Dir { name, children } => {
            path.push(clone_bytes(name));
            proof {
                assert(views_of(path@) =~= pre.push(name@));
            }
            let ghost p = pre.push(name@);
            let ghost blocks = accepted_node(*n, rsm, pre);
            if !rs.is_ignored(path, true) {
                let ghost pathsnap = path@;
                let ghost base = agg.out@;
                let mut i: usize = 0;
                while i < children.len()
                    invariant
                        i <= children@.len(),
                        *n is Dir,
                        (*n)->Dir_children@ == children@,
                        path@ == pathsnap,
                        views_of(pathsnap) == p,
                        rsm == rs.models(),
                        base + doc_bytes(accepted_list(children@, rsm, p, 0)) == agg.out@
                            + doc_bytes(accepted_list(children@, rsm, p, i as int)),
                    decreases children@.len() - i,
                {
                    proof {
                        assert(decreases_to!(*n => (*n)->Dir_children));
                        assert(decreases_to!((*n)->Dir_children => (*n)->Dir_children@));
                        assert(decreases_to!((*n)->Dir_children@ => (*n)->Dir_children@[i as int]));
                        assert(decreases_to!(*n => children@[i as int]));
                    }
                    walk_node(&children[i], rs, path, agg);
                    proof {
                        assert(accepted_list(children@, rsm, p, i as int) == accepted_node(
                            children@[i as int],
                            rsm,
                            p,
                        ) + accepted_list(children@, rsm, p, i + 1));
                        lemma_doc_bytes_append(
                            accepted_node(children@[i as int], rsm, p),
                            accepted_list(children@, rsm, p, i + 1),
                        );
                    }
                    i = i + 1;
                }
                proof {
                    assert(accepted_list(children@, rsm, p, children@.len() as int)
                        =~= Seq::<Block>::empty());
                    assert(agg.out@ =~= base + doc_bytes(accepted_list(children@, rsm, p, 0)));
                    assert(blocks == accepted_list(children@, rsm, p, 0));
                }
            } else {
                proof {
                    assert(blocks =~= Seq::<Block>::empty());
                    assert(agg.out@ =~= old(agg).out@ + doc_bytes(blocks));
                }
            }
            path.pop();
            proof {
                assert(path@ =~= old(path)@);
            }
        },
    }
}

/// Walks the root entries in order and returns the whole output document.
pub fn run(roots: &Vec<Node>, rs: &RuleSet) -> (out: Vec<u8>)
    ensures
        out@ == doc_bytes(accepted_list(roots@, rs.models(), Seq::<Seq<u8>>::empty(), 0)),
{
    let ghost rsm = rs.models();
    let ghost empty_path = Seq::<Seq<u8>>::empty();
    let mut agg = Aggregator::new();
    let mut path: Vec<Vec<u8>> = Vec::new();
    proof {
        assert(views_of(path@) =~= empty_path);
    }
    let mut i: usize = 0;
    while i < roots.len()
        invariant
            i <= roots@.len(),
            rsm == rs.models(),
            empty_path == Seq::<Seq<u8>>::empty(),
            path@ == Seq::<Vec<u8>>::empty(),
            views_of(path@) == empty_path,
            doc_bytes(accepted_list(roots@, rsm, empty_path, 0)) == agg.out@ + doc_bytes(
                accepted_list(roots@, rsm, empty_path, i as int),
            ),
        decreases roots@.len() - i,
    {
        walk_node(&roots[i], rs, &mut path, &mut agg);
        proof {
            assert(accepted_list(roots@, rsm, empty_path, i as int) == accepted_node(
                roots@[i as int],
                rsm,
                empty_path,
            ) + accepted_list(roots@, rsm, empty_path, i + 1));
            lemma_doc_bytes_append(
                accepted_node(roots@[i as int], rsm, empty_path),
                accepted_list(roots@, rsm, empty_path, i + 1),
            );
        }
        i = i + 1;
    }
    proof {
        assert(accepted_list(roots@, rsm, empty_path, roots@.len() as int)
            =~= Seq::<Block>::empty());
    }
    agg.out
}

/// The entries are in lexicographic name order.
pub open spec fn sorted_nodes(s: Seq<Node>) -> bool {
    forall|i: int, j: int|
        0 <= i < j < s.len() ==> lex_le(spec_name(#[trigger] s[i]), spec_name(#[trigger] s[j]))
}

/// No two entries share a name.
pub open spec fn distinct_names(s: Seq<Node>) -> bool {
    forall|i: int, j: int|
        0 <= i < j < s.len() ==> spec_name(#[trigger] s[i]) != spec_name(#[trigger] s[j])
}

/// The name of a node.
pub fn node_name(n: &Node) -> (r: &Vec<u8>)
    ensures
        r@ == spec_name(*n),
{
    match n {
        Node::File { name, content } => name,
        Node::Dir { name, children } => name,
    }
}

/// Inserts a node into a sorted list, keeping it sorted.
pub fn insert_sorted(v: &mut Vec<Node>, x: Node)
    requires
        sorted_nodes(old(v)@),
    ensures
        sorted_nodes(final(v)@),
        final(v)@.to_multiset() == old(v)@.to_multiset().insert(x),
{
    broadcast use group_to_multiset_ensures;

    let xn = clone_bytes(node_name(&x));
    let mut pos: usize = 0;
    loop
        invariant
            pos <= v@.len(),
            v@ == old(v)@,
            xn@ == spec_name(x),
            sorted_nodes(v@),
            forall|j: int| 0 <= j < pos ==> !lex_le(spec_name(x), spec_name(#[trigger] v@[j])),
        ensures
            pos <= v@.len(),
            forall|j: int| 0 <= j < pos ==> !lex_le(spec_name(x), spec_name(#[trigger] v@[j])),
            (pos as int) < v@.len() ==> lex_le(spec_name(x), spec_name(v@[pos as int])),
        decreases v@.len() - pos,
    {
        if pos == v.len() {
            break ;
        }
        if lex_le_bytes(&xn, node_name(&v[pos])) {
            break ;
        }
        pos = pos + 1;
    }
    let ghost oldv = v@;
    v.insert(pos, x);
    proof {
        assert(v@ =~= oldv.take(pos as int) + seq![x] + oldv.skip(pos as int));
        assert forall|i: int, j: int| 0 <= i < j < v@.len() implies lex_le(
            spec_name(#[trigger] v@[i]),
            spec_name(#[trigger] v@[j]),
        ) by {
            let p = pos as int;
            if i < p && j < p {
                assert(v@[i] == oldv[i] && v@[j] == oldv[j]);
            } else if i < p && j == p {
                assert(v@[i] == oldv[i] && v@[j] == x);
                assert(!lex_le(spec_name(x), spec_name(oldv[i])));
                lemma_lex_le_total(spec_name(x), spec_name(oldv[i]));
            } else if i < p && j > p {
                assert(v@[i] == oldv[i] && v@[j] == oldv[j - 1]);
            } else if i == p {
                assert(v@[i] == x && v@[j] == oldv[j - 1]);
                assert(lex_le(spec_name(x), spec_name(oldv[p])));
                if j - 1 > p {
                    assert(lex_le(spec_name(oldv[p]), spec_name(oldv[j - 1])));
                    lemma_lex_le_transitive(
                        spec_name(x),
                        spec_name(oldv[p]),
                        spec_name(oldv[j - 1]),
                    );
                }
            } else {
                assert(v@[i] == oldv[i - 1] && v@[j] == oldv[j - 1]);
            }
        }
        assert(oldv =~= oldv.take(pos as int) + oldv.skip(pos as int));
        vstd::seq_lib::lemma_multiset_commutative(oldv.take(pos as int), oldv.skip(pos as int));
        vstd::seq_lib::lemma_multiset_commutative(
            oldv.take(pos as int) + seq![x],
            oldv.skip(pos as int),
        );
        vstd::seq_lib::lemma_multiset_commutative(oldv.take(pos as int), seq![x]);
        assert(seq![x] =~= Seq::<Node>::empty().push(x));
        assert(seq![x].to_multiset() =~= Multiset::<Node>::empty().insert(x));
        assert((oldv.take(pos as int) + seq![x]) + oldv.skip(pos as int) =~= v@);
        assert(v@.to_multiset() =~= oldv.to_multiset().insert(x));
    }
}

/// Sorts entries into lexicographic name order; what comes out is a
/// rearrangement of what went in.
pub fn sort_nodes(list: Vec<Node>) -> (r: Vec<Node>)
    ensures
        sorted_nodes(r@),
        r@.to_multiset() == list@.to_multiset(),
{
    broadcast use group_to_multiset_ensures;

    let ghost total = list@.to_multiset();
    let mut rest = list;
    let mut out: Vec<Node> = Vec::new();
    proof {
        assert(out@.to_multiset().add(rest@.to_multiset()) =~= total);
    }
    while rest.len() > 0
        invariant
            sorted_nodes(out@),
            out@.to_multiset().add(rest@.to_multiset()) == total,
        decreases rest@.len(),
    {
        broadcast use group_to_multiset_ensures;

        let ghost oldrest = rest@;
        let ghost oldout = out@;
        let x = match rest.pop() {
            Some(x) => x,
            None => {
                proof {
                    assert(false);
                }
                return Vec::new();
            },
        };
        proof {
            assert(rest@ =~= oldrest.remove(oldrest.len() - 1));
            assert(rest@.to_multiset() =~= oldrest.to_multiset().remove(x));
            assert(oldrest.contains(x));
            assert(oldrest.to_multiset().count(x) > 0);
        }
        insert_sorted(&mut out, x);
        proof {
            assert(out@.to_multiset().add(rest@.to_multiset()) =~= total);
        }
    }
    proof {
        assert(rest@.to_multiset().len() == 0);
        assert(out@.to_multiset().add(rest@.to_multiset()) =~= out@.to_multiset());
    }
    out
}

/// Deterministic traversal order: two sorted arrangements of the same
/// entries, none of which share a name, are the same sequence.  However a
/// directory's entries were enumerated, sorting them yields one and the
/// same order, and so one and the same output document.
pub proof fn lemma_sorted_unique_nodes(x: Seq<Node>, y: Seq<Node>)
    requires
        sorted_nodes(x),
        sorted_nodes(y),
        distinct_names(x),
        x.to_multiset() == y.to_multiset(),
    ensures
        x =~= y,
    decreases x.len(),
{
    broadcast use group_to_multiset_ensures;

    if x.len() == 0 || y.len() == 0 {
        assert(x.to_multiset().len() == x.len());
        assert(y.to_multiset().len() == y.len());
    } else {
        assert(y.contains(y[0]));
        assert(x.to_multiset().count(y[0]) > 0);
        assert(x.contains(y[0]));
        let i = choose|i: int| 0 <= i < x.len() && x[i] == y[0];
        assert(x.contains(x[0]));
        assert(y.to_multiset().count(x[0]) > 0);
        assert(y.contains(x[0]));
        let k = choose|k: int| 0 <= k < y.len() && y[k] == x[0];
        if i > 0 {
            assert(lex_le(spec_name(x[0]), spec_name(x[i])));
        } else {
            lemma_lex_le_total(spec_name(x[0]), spec_name(x[0]));
        }
        if k > 0 {
            assert(lex_le(spec_name(y[0]), spec_name(y[k])));
        } else {
            lemma_lex_le_total(spec_name(y[0]), spec_name(y[0]));
        }
        lemma_lex_le_antisymmetric(spec_name(x[0]), spec_name(y[0]));
        assert(spec_name(x[0]) == spec_name(y[0]));
        if i > 0 {
            assert(spec_name(x[0]) != spec_name(x[i]));
            assert(spec_name(x[i]) == spec_name(y[0]));
            assert(false);
        }
        assert(x[0] == y[0]);
        let xr = x.drop_first();
        let yr = y.drop_first();
        assert(x.remove(0) =~= xr);
        assert(y.remove(0) =~= yr);
        assert(xr.to_multiset() =~= x.to_multiset().remove(x[0]));
        assert(yr.to_multiset() =~= y.to_multiset().remove(y[0]));
        assert(xr.to_multiset() == yr.to_multiset());
        assert forall|a: int, b: int| 0 <= a < b < xr.len() implies lex_le(
            spec_name(#[trigger] xr[a]),
            spec_name(#[trigger] xr[b]),
        ) && spec_name(xr[a]) != spec_name(xr[b]) by {
            assert(xr[a] == x[a + 1] && xr[b] == x[b + 1]);
        }
        assert forall|a: int, b: int| 0 <= a < b < yr.len() implies lex_le(
            spec_name(#[trigger] yr[a]),
            spec_name(#[trigger] yr[b]),
        ) by {
            assert(yr[a] == y[a + 1] && yr[b] == y[b + 1]);
        }
        lemma_sorted_unique_nodes(xr, yr);
        assert forall|t: int| 0 <= t < x.len() implies x[t] == y[t] by {
            if t > 0 {
                assert(x[t] == xr[t - 1] && y[t] == yr[t - 1]);
            }
        }
    }
}

/// What every output block satisfies when the walk starts below `pre`: the
/// block lies strictly below `pre`, no directory on its path below `pre` is
/// ignored, the file itself is not ignored, its name has an extension and
/// its content is valid UTF-8.
pub open spec fn block_ok(rules: Seq<RuleModel>, pre: Seq<Seq<u8>>, b: Block) -> bool {
    &&& b.path.len() > pre.len()
    &&& b.path.take(pre.len() as int) == pre
    &&& !is_ignored_spec(rules, b.path, false)
    &&& has_extension(b.path.last())
    &&& is_utf8(b.content)
    &&& forall|k: int|
        pre.len() < k < b.path.len() ==> !is_ignored_spec(rules, #[trigger] b.path.take(k), true)
}

/// Pruning and filtering are sound: every block a node contributes
/// satisfies `block_ok`.  In particular a file below an ignored directory
/// contributes no block, a file whose own path is ignored contributes no
/// block, and no block carries an extension-less name or non-UTF-8 content.
pub proof fn lemma_accepted_node_ok(n: Node, rules: Seq<RuleModel>, pre: Seq<Seq<u8>>)
    ensures
        forall|t: int|
            0 <= t < accepted_node(n, rules, pre).len() ==> block_ok(
                rules,
                pre,
                #[trigger] accepted_node(n, rules, pre)[t],
            ),
    decreases n, 0int,
{
    match n {
        Node::File { name, content } => {
            let p = pre.push(name@);
            assert(p.take(pre.len() as int) =~= pre);
            assert(p.last() == name@);
        },
        Node::Dir { name, children } => {
            let p = pre.push(name@);
            if !is_ignored_spec(rules, p, true) {
                lemma_accepted_list_ok(children@, rules, p, 0);
                let bs = accepted_list(children@, rules, p, 0);
                assert forall|t: int| 0 <= t < bs.len() implies block_ok(
                    rules,
                    pre,
                    #[trigger] bs[t],
                ) by {
                    let b = bs[t];
                    assert(block_ok(rules, p, b));
                    assert(p.take(pre.len() as int) =~= pre);
                    assert(b.path.take(pre.len() as int) =~= b.path.take(p.len() as int).take(
                        pre.len() as int,
                    ));
                    assert(b.path.take(pre.len() as int) == pre);
                    assert forall|k: int| pre.len() < k < b.path.len() implies !is_ignored_spec(
                        rules,
                        #[trigger] b.path.take(k),
                        true,
                    ) by {
                        if k == p.len() {
                            assert(b.path.take(k) == p);
                        }
                    }
                }
            }
        },
    }
}

/// Sibling names are pairwise distinct throughout the tree, as filesystem
/// enumeration guarantees.
pub open spec fn distinct_tree(n: Node) -> bool
    decreases n, 0int,
{
    match n {
        Node::File { name, content } => true,
        Node::Dir { name, children } => distinct_names(children@) && distinct_tree_list(
            children@,
            0,
        ),
    }
}

/// `distinct_tree` of every node of `children` from index `i` on.
pub open spec fn distinct_tree_list(children: Seq<Node>, i: int) -> bool
    decreases children, children.len() - i,
{
    if i < 0 || i >= children.len() {
        true
    } else {
        distinct_tree(children[i]) && distinct_tree_list(children, i + 1)
    }
}

/// No two blocks share a relative path.
pub open spec fn pairwise_distinct_paths(bs: Seq<Block>) -> bool {
    forall|t1: int, t2: int|
        0 <= t1 < t2 < bs.len() ==> (#[trigger] bs[t1]).path != (#[trigger] bs[t2]).path
}

/// The block lies below `pre` and its first segment under `pre` is the name
/// of one of the nodes of `children` from index `i` on.
pub open spec fn block_head_of(children: Seq<Node>, i: int, pre: Seq<Seq<u8>>, b: Block) -> bool {
    b.path.len() > pre.len() && exists|j: int|
        i <= j < children.len() && b.path[pre.len() as int] == spec_name(#[trigger] children[j])
}

/// Every block a node contributes lies below `pre`, and its first segment
/// under `pre` is the node's own name.
pub proof fn lemma_accepted_node_head(n: Node, rules: Seq<RuleModel>, pre: Seq<Seq<u8>>)
    ensures
        forall|t: int|
            0 <= t < accepted_node(n, rules, pre).len() ==> (#[trigger] accepted_node(
                n,
                rules,
                pre,
            )[t]).path.len() > pre.len() && accepted_node(n, rules, pre)[t].path[pre.len() as int]
                == spec_name(n),
{
    match n {
        Node::File { name, content } => {
            let p = pre.push(name@);
            assert(p[pre.len() as int] == name@);
        },
        Node::Dir { name, children } => {
            let p = pre.push(name@);
            if !is_ignored_spec(rules, p, true) {
                lemma_accepted_list_ok(children@, rules, p, 0);
                let bs = accepted_list(children@, rules, p, 0);
                assert forall|t: int| 0 <= t < bs.len() implies (#[trigger] bs[t]).path.len()
                    > pre.len() && bs[t].path[pre.len() as int] == spec_name(n) by {
                    let b = bs[t];
                    assert(block_ok(rules, p, b));
                    assert(b.path[pre.len() as int] == b.path.take(p.len() as int)[pre.len() as int]);
                    assert(b.path.take(p.len() as int) == p);
                }
            }
        },
    }
}

/// The output holds at most one block per relative path: under distinct
/// sibling names, no two blocks a node contributes share a path.
pub proof fn lemma_node_paths_distinct(n: Node, rules: Seq<RuleModel>, pre: Seq<Seq<u8>>)
    requires
        distinct_tree(n),
    ensures
        pairwise_distinct_paths(accepted_node(n, rules, pre)),
    decreases n, 0int,
{
    match n {
        Node::File { name, content } => {},
        Node::Dir { name, children } => {
            let p = pre.push(name@);
            if !is_ignored_spec(rules, p, true) {
                lemma_list_paths_distinct(children@, rules, p, 0);
            }
        },
    }
}

/// The list form of `lemma_node_paths_distinct`, with the head-segment
/// bookkeeping the induction needs.
pub proof fn lemma_list_paths_distinct(
    children: Seq<Node>,
    rules: Seq<RuleModel>,
    pre: Seq<Seq<u8>>,
    i: int,
)
    requires
        distinct_names(children),
        distinct_tree_list(children, i),
        0 <= i,
    ensures
        pairwise_distinct_paths(accepted_list(children, rules, pre, i)),
        forall|t: int|
            0 <= t < accepted_list(children, rules, pre, i).len() ==> block_head_of(
                children,
                i,
                pre,
                #[trigger] accepted_list(children, rules, pre, i)[t],
            ),
    decreases children, children.len() - i,
{
    if 0 <= i < children.len() {
        lemma_node_paths_distinct(children[i], rules, pre);
        lemma_list_paths_distinct(children, rules, pre, i + 1);
        lemma_accepted_node_head(children[i], rules, pre);
        let a = accepted_node(children[i], rules, pre);
        let rest = accepted_list(children, rules, pre, i + 1);
        let whole = accepted_list(children, rules, pre, i);
        assert(whole == a + rest);
        assert forall|t: int| 0 <= t < whole.len() implies block_head_of(
            children,
            i,
            pre,
            #[trigger] whole[t],
        ) by {
            if t < a.len() {
                assert(whole[t] == a[t]);
                assert(whole[t].path[pre.len() as int] == spec_name(children[i]));
            } else {
                assert(whole[t] == rest[t - a.len()]);
                assert(block_head_of(children, i + 1, pre, rest[t - a.len()]));
                let j = choose|j: int|
                    i + 1 <= j < children.len() && rest[t - a.len()].path[pre.len() as int]
                        == spec_name(#[trigger] children[j]);
                assert(i <= j < children.len() && whole[t].path[pre.len() as int] == spec_name(
                    children[j],
                ));
            }
        }
        assert forall|t1: int, t2: int| 0 <= t1 < t2 < whole.len() implies (#[trigger] whole[t1]).path
            != (#[trigger] whole[t2]).path by {
            if t2 < a.len() {
                assert(whole[t1] == a[t1] && whole[t2] == a[t2]);
            } else if t1 >= a.len() {
                assert(whole[t1] == rest[t1 - a.len()] && whole[t2] == rest[t2 - a.len()]);
            } else {
                assert(whole[t1] == a[t1] && whole[t2] == rest[t2 - a.len()]);
                assert(whole[t1].path[pre.len() as int] == spec_name(children[i]));
                assert(block_head_of(children, i + 1, pre, rest[t2 - a.len()]));
                let j = choose|j: int|
                    i + 1 <= j < children.len() && rest[t2 - a.len()].path[pre.len() as int]
                        == spec_name(#[trigger] children[j]);
                assert(spec_name(children[i]) != spec_name(children[j]));
            }
        }
    }
}

/// The list form of `lemma_accepted_node_ok`.
pub proof fn lemma_accepted_list_ok(
    children: Seq<Node>,
    rules: Seq<RuleModel>,
    pre: Seq<Seq<u8>>,
    i: int,
)
    ensures
        forall|t: int|
            0 <= t < accepted_list(children, rules, pre, i).len() ==> block_ok(
                rules,
                pre,
                #[trigger] accepted_list(children, rules, pre, i)[t],
            ),
    decreases children, children.len() - i,
{
    if 0 <= i < children.len() {
        lemma_accepted_node_ok(children[i], rules, pre);
        lemma_accepted_list_ok(children, rules, pre, i + 1);
        let a = accepted_node(children[i], rules, pre);
        let rest = accepted_list(children, rules, pre, i + 1);
        assert forall|t: int| 0 <= t < (a + rest).len() implies block_ok(
            rules,
            pre,
            #[trigger] (a + rest)[t],
        ) by {
            if t < a.len() {
                assert((a + rest)[t] == a[t]);
            } else {
                assert((a + rest)[t] == rest[t - a.len()]);
            }
        }
    }
}

} // verus!
