//! The tree renderer. It draws a deterministic listing of a directory
//! snapshot: hidden (dot-prefixed) entries and entries whose paths the
//! exclude rules reject are left out, directories sort before files and each
//! group sorts by name, connectors distinguish the last entry of a
//! directory, and recursion stops at a fixed depth ceiling. The caller
//! builds the `TreeNode` snapshot from the filesystem and breaks symlink
//! cycles while doing so; rendering itself is a pure function of the
//! snapshot.
use crate::select::excluded_by;
use crate::text::{append_bytes, bytes_lt, lex_lt, views_of};
use vstd::prelude::*;

verus! {

/// How deep the listing may recurse.
pub const TREE_DEPTH_LIMIT: usize = 20;

/// A directory entry as the renderer sees it: its name, whether it is a
/// directory, and its children (empty for files). The root node's name is
/// the root directory's own path, from which the entries' paths are built.
pub struct TreeNode {
    pub name: Vec<u8>,
    pub is_dir: bool,
    pub children: Vec<TreeNode>,
}

/// The path of an entry called `name` inside the directory at `dirpath`.
pub open spec fn child_path(dirpath: Seq<u8>, name: Seq<u8>) -> Seq<u8> {
    dirpath + seq![47u8] + name
}

/// An entry appears in the listing unless its name starts with a dot or an
/// exclude pattern rejects its path, by the file selector's own rules.
pub open spec fn visible_spec(path: Seq<u8>, name: Seq<u8>, excludes: Seq<Seq<u8>>) -> bool {
    !(name.len() > 0 && name[0] == 46) && !exists|k: int|
        0 <= k < excludes.len() && excluded_by(path, #[trigger] excludes[k])
}

/// Listing order: directories before files, then lexicographically by name.
pub open spec fn node_lt(a: TreeNode, b: TreeNode) -> bool {
    (a.is_dir && !b.is_dir) || (a.is_dir == b.is_dir && lex_lt(a.name@, b.name@))
}

/// Stable insertion: `x` goes before the first entry strictly above it.
pub open spec fn insert_sorted(x: TreeNode, s: Seq<TreeNode>) -> Seq<TreeNode>
    decreases s.len(),
{
    if s.len() == 0 {
        seq![x]
    } else if node_lt(x, s[0]) {
        seq![x] + s
    } else {
        seq![s[0]] + insert_sorted(x, s.drop_first())
    }
}

/// The entries in listing order; entries with equal keys keep their
/// arrival order.
pub open spec fn sort_nodes(s: Seq<TreeNode>) -> Seq<TreeNode>
    decreases s.len(),
{
    if s.len() == 0 {
        s
    } else {
        insert_sorted(s.last(), sort_nodes(s.drop_last()))
    }
}

/// No entry is strictly below its predecessor: directories stand before
/// files, and each group is in name order.
pub open spec fn nodes_sorted(s: Seq<TreeNode>) -> bool {
    forall|i: int| 0 <= i < s.len() - 1 ==> !node_lt(#[trigger] s[i + 1], s[i])
}

proof fn lemma_node_lt_asym(a: TreeNode, b: TreeNode)
    requires
        node_lt(a, b),
    ensures
        !node_lt(b, a),
{
    if a.is_dir == b.is_dir {
        crate::text::lemma_lex_trichotomy(a.name@, b.name@);
    }
}

proof fn lemma_insert_sorted_sorted(x: TreeNode, s: Seq<TreeNode>)
    requires
        nodes_sorted(s),
    ensures
        nodes_sorted(insert_sorted(x, s)),
    decreases s.len(),
{
    if s.len() == 0 {
    } else if node_lt(x, s[0]) {
        lemma_node_lt_asym(x, s[0]);
        let out = seq![x] + s;
        assert forall|i: int| 0 <= i < out.len() - 1 implies !node_lt(#[trigger] out[i + 1], out[i]) by {
            if i > 0 {
                assert(out[i] == s[i - 1] && out[i + 1] == s[i]);
                assert(!node_lt(s[(i - 1) + 1], s[i - 1]));
            } else {
                assert(out[0] == x && out[1] == s[0]);
            }
        }
    } else {
        let t = s.drop_first();
        assert forall|i: int| 0 <= i < t.len() - 1 implies !node_lt(#[trigger] t[i + 1], t[i]) by {
            assert(t[i + 1] == s[i + 2] && t[i] == s[i + 1]);
        }
        lemma_insert_sorted_sorted(x, t);
        let ins = insert_sorted(x, t);
        let out = seq![s[0]] + ins;
        // The head of the inserted tail is either x itself or the old second
        // entry; neither is strictly below the head.
        assert(ins.len() > 0);
        if t.len() == 0 || node_lt(x, t[0]) {
            assert(ins[0] == x);
        } else {
            assert(ins[0] == t[0]);
            assert(t[0] == s[1]);
        }
        assert forall|i: int| 0 <= i < out.len() - 1 implies !node_lt(#[trigger] out[i + 1], out[i]) by {
            if i > 0 {
                assert(out[i] == ins[i - 1] && out[i + 1] == ins[i]);
                assert(!node_lt(ins[(i - 1) + 1], ins[i - 1]));
            } else {
                assert(out[0] == s[0] && out[1] == ins[0]);
                if t.len() > 0 && !node_lt(x, t[0]) {
                    assert(ins[0] == t[0] && t[0] == s[0int + 1]);
                    assert(!node_lt(s[0int + 1], s[0int]));
                } else {
                    assert(ins[0] == x);
                }
            }
        }
        assert(insert_sorted(x, s) == out);
    }
}

proof fn lemma_sort_nodes_sorted(s: Seq<TreeNode>)
    ensures
        nodes_sorted(sort_nodes(s)),
    decreases s.len(),
{
    if s.len() > 0 {
        lemma_sort_nodes_sorted(s.drop_last());
        lemma_insert_sorted_sorted(s.last(), sort_nodes(s.drop_last()));
    }
}

/// The listing-order law: the visible entries of any directory are drawn
/// with directories before files and each group in name order.
pub proof fn lemma_listing_sorted(children: Seq<TreeNode>, excludes: Seq<Seq<u8>>, dirpath: Seq<u8>)
    ensures
        nodes_sorted(visible_sorted(children, excludes, dirpath)),
{
    lemma_sort_nodes_sorted(
        children.filter(|n: TreeNode| visible_spec(child_path(dirpath, n.name@), n.name@, excludes)),
    );
}

/// The connector drawn before an entry's name.
pub open spec fn connector(last: bool) -> Seq<u8> {
    if last {
        seq![226u8, 148u8, 148u8, 226u8, 148u8, 128u8, 226u8, 148u8, 128u8, 32u8]
    } else {
        seq![226u8, 148u8, 156u8, 226u8, 148u8, 128u8, 226u8, 148u8, 128u8, 32u8]
    }
}

/// What a directory entry adds to the prefix of its children: blank padding
/// under a last entry, a continuing vertical bar otherwise.
pub open spec fn child_pad(last: bool) -> Seq<u8> {
    if last {
        seq![32u8, 32u8, 32u8, 32u8]
    } else {
        seq![226u8, 148u8, 130u8, 32u8, 32u8, 32u8]
    }
}

/// The visible entries of the directory at `dirpath`, in listing order.
pub open spec fn visible_sorted(
    children: Seq<TreeNode>,
    excludes: Seq<Seq<u8>>,
    dirpath: Seq<u8>,
) -> Seq<TreeNode> {
    sort_nodes(
        children.filter(
            |n: TreeNode| visible_spec(child_path(dirpath, n.name@), n.name@, excludes),
        ),
    )
}

/// Renders the already-ordered entries `vis[i..]` of one directory.
pub open spec fn render_entries(
    vis: Seq<TreeNode>,
    excludes: Seq<Seq<u8>>,
    prefix: Seq<u8>,
    dirpath: Seq<u8>,
    depth: int,
    i: int,
) -> Seq<u8>
    decreases 21 - depth, 0int, vis.len() - i,
{
    if depth < 0 || depth > TREE_DEPTH_LIMIT || i < 0 || i >= vis.len() {
        Seq::empty()
    } else {
        let n = vis[i];
        let last = i == vis.len() - 1;
        prefix + connector(last) + n.name@ + seq![10u8] + (if n.is_dir {
            render_dir(
                n.children@,
                excludes,
                prefix + child_pad(last),
                child_path(dirpath, n.name@),
                depth + 1,
            )
        } else {
            Seq::empty()
        }) + render_entries(vis, excludes, prefix, dirpath, depth, i + 1)
    }
}

/// Renders the children of the directory at `dirpath`: nothing at all past
/// the depth ceiling.
pub open spec fn render_dir(
    children: Seq<TreeNode>,
    excludes: Seq<Seq<u8>>,
    prefix: Seq<u8>,
    dirpath: Seq<u8>,
    depth: int,
) -> Seq<u8>
    decreases 21 - depth, 1int, 0int,
{
    if depth < 0 || depth > TREE_DEPTH_LIMIT {
        Seq::empty()
    } else {
        render_entries(
            visible_sorted(children, excludes, dirpath),
            excludes,
            prefix,
            dirpath,
            depth,
            0,
        )
    }
}

/// The listing of the whole tree under `root`, whose name holds the root
/// directory's path.
pub open spec fn tree_render_spec(root: TreeNode, excludes: Seq<Seq<u8>>) -> Seq<u8> {
    render_dir(root.children@, excludes, Seq::empty(), root.name@, 0)
}

fn visible_exec(path: &Vec<u8>, name: &Vec<u8>, excludes: &Vec<Vec<u8>>) -> (r: bool)
    ensures
        r == visible_spec(path@, name@, views_of(excludes@)),
{
    if name.len() > 0 && name[0] == 46 {
        return false;
    }
    let ghost exs = views_of(excludes@);
    let mut k: usize = 0;
    while k < excludes.len()
        invariant
            k <= excludes.len(),
            exs == views_of(excludes@),
            forall|j: int| 0 <= j < k ==> !excluded_by(path@, #[trigger] exs[j]),
        decreases excludes.len() - k,
    {
        if crate::select::matches_exclusion(path, &excludes[k]) {
            proof {
                assert(excluded_by(path@, exs[k as int]));
            }
            return false;
        }
        proof {
            assert(exs[k as int] == excludes@[k as int]@);
        }
        k += 1;
    }
    true
}

fn node_before(a: &TreeNode, b: &TreeNode) -> (r: bool)
    ensures
        r == node_lt(*a, *b),
{
    (a.is_dir && !b.is_dir) || (a.is_dir == b.is_dir && bytes_lt(&a.name, &b.name))
}

/// The nodes selected by a list of indices.
spec fn map_idx(children: Seq<TreeNode>, idx: Seq<usize>) -> Seq<TreeNode> {
    Seq::new(idx.len(), |t: int| children[idx[t] as int])
}

proof fn lemma_insert_sorted_at(x: TreeNode, s: Seq<TreeNode>, j: int)
    requires
        0 <= j <= s.len(),
        forall|u: int| 0 <= u < j ==> !node_lt(x, #[trigger] s[u]),
        j < s.len() ==> node_lt(x, s[j]),
    ensures
        insert_sorted(x, s) == s.subrange(0, j) + seq![x] + s.skip(j),
    decreases j,
{
    if s.len() == 0 {
        assert(s.subrange(0, j) + seq![x] + s.skip(j) =~= seq![x]);
    } else if j == 0 {
        assert(s.subrange(0, 0) + seq![x] + s.skip(0) =~= seq![x] + s);
    } else {
        assert(!node_lt(x, s[0]));
        lemma_insert_sorted_at(x, s.drop_first(), j - 1);
        assert(s.drop_first().subrange(0, j - 1) =~= s.subrange(1, j));
        assert(s.drop_first().skip(j - 1) =~= s.skip(j));
        assert(seq![s[0]] + (s.subrange(1, j) + seq![x] + s.skip(j)) =~= s.subrange(0, j) + seq![x]
            + s.skip(j));
    }
}

/// Renders the children of the directory at `dirpath`. `depth` counts up
/// from 0 at the root's children; past the ceiling nothing is drawn.
pub fn render_dir_exec(
    children: &Vec<TreeNode>,
    excludes: &Vec<Vec<u8>>,
    prefix: &Vec<u8>,
    dirpath: &Vec<u8>,
    depth: usize,
) -> (r: Vec<u8>)
    ensures
        r@ == render_dir(children@, views_of(excludes@), prefix@, dirpath@, depth as int),
    decreases 21 - depth as int,
{
    let ghost exs = views_of(excludes@);
    let ghost pred = |n: TreeNode| visible_spec(child_path(dirpath@, n.name@), n.name@, exs);
    if depth > TREE_DEPTH_LIMIT {
        return Vec::new();
    }
    // Collect the visible entries' indices in listing order.
    let mut order: Vec<usize> = Vec::new();
    let mut i: usize = 0;
    proof {
        assert(children@.subrange(0, 0) =~= Seq::<TreeNode>::empty());
        assert(Seq::<TreeNode>::empty().filter(pred) =~= Seq::<TreeNode>::empty());
        assert(map_idx(children@, order@) =~= sort_nodes(children@.subrange(0, 0).filter(pred)));
    }
    while i < children.len()
        invariant
            i <= children.len(),
            exs == views_of(excludes@),
            pred == (|n: TreeNode| visible_spec(child_path(dirpath@, n.name@), n.name@, exs)),
            forall|t: int| 0 <= t < order@.len() ==> (#[trigger] order@[t]) < i,
            map_idx(children@, order@) == sort_nodes(children@.subrange(0, i as int).filter(pred)),
        decreases children.len() - i,
    {
        let ghost prefix_nodes = children@.subrange(0, i as int);
        let ghost sorted0 = map_idx(children@, order@);
        let c = &children[i];
        let mut cp = crate::text::copy_bytes(dirpath);
        cp.push(47);
        append_bytes(&mut cp, &c.name);
        proof {
            assert(cp@ =~= child_path(dirpath@, children@[i as int].name@));
        }
        if visible_exec(&cp, &c.name, excludes) {
            // Find the stable insertion point.
            let mut j: usize = 0;
            while j < order.len() && !node_before(&children[i], &children[order[j]])
                invariant
                    j <= order@.len(),
                    i < children@.len(),
                    forall|t: int| 0 <= t < order@.len() ==> (#[trigger] order@[t]) < i,
                    sorted0 == map_idx(children@, order@),
                    forall|u: int|
                        0 <= u < j ==> !node_lt(children@[i as int], #[trigger] sorted0[u]),
                decreases order.len() - j,
            {
                proof {
                    assert(sorted0[j as int] == children@[order@[j as int] as int]);
                }
                j += 1;
            }
            proof {
                if j < order@.len() {
                    assert(sorted0[j as int] == children@[order@[j as int] as int]);
                }
            }
            order.insert(j, i);
            proof {
                lemma_insert_sorted_at(children@[i as int], sorted0, j as int);
                assert(map_idx(children@, order@) =~= sorted0.subrange(0, j as int) + seq![
                    children@[i as int]] + sorted0.skip(j as int));
                assert(map_idx(children@, order@) == insert_sorted(children@[i as int], sorted0));
            }
        }
        proof {
            let next = children@.subrange(0, i + 1);
            assert(next.drop_last() =~= prefix_nodes);
            assert(next.last() == children@[i as int]);
            assert(next.filter(pred) == if pred(children@[i as int]) {
                prefix_nodes.filter(pred).push(children@[i as int])
            } else {
                prefix_nodes.filter(pred)
            }) by {
                reveal(Seq::filter);
                assert(next.len() > 0);
                assert(next.drop_last() == prefix_nodes);
            }
            if pred(children@[i as int]) {
                let f = prefix_nodes.filter(pred);
                assert(f.push(children@[i as int]).drop_last() =~= f);
                assert(f.push(children@[i as int]).last() == children@[i as int]);
                assert(sort_nodes(next.filter(pred)) == insert_sorted(
                    children@[i as int],
                    sort_nodes(f),
                ));
            }
        }
        i += 1;
    }
    proof {
        assert(children@.subrange(0, children@.len() as int) =~= children@);
    }
    // Draw the ordered entries.
    let ghost vis = visible_sorted(children@, exs, dirpath@);
    let mut out: Vec<u8> = Vec::new();
    let mut t: usize = 0;
    proof {
        assert(out@ + render_entries(vis, exs, prefix@, dirpath@, depth as int, 0) =~= render_dir(
            children@,
            exs,
            prefix@,
            dirpath@,
            depth as int,
        ));
    }
    while t < order.len()
        invariant
            t <= order@.len(),
            depth <= TREE_DEPTH_LIMIT,
            exs == views_of(excludes@),
            vis == visible_sorted(children@, exs, dirpath@),
            vis == map_idx(children@, order@),
            forall|u: int| 0 <= u < order@.len() ==> (#[trigger] order@[u]) < children@.len(),
            out@ + render_entries(vis, exs, prefix@, dirpath@, depth as int, t as int)
                == render_dir(children@, exs, prefix@, dirpath@, depth as int),
        decreases order.len() - t,
    {
        let ghost out0 = out@;
        let node = &children[order[t]];
        proof {
            assert(vis[t as int] == children@[order@[t as int] as int]);
        }
        let last = t == order.len() - 1;
        append_bytes(&mut out, prefix);
        let conn = if last {
            vec![226u8, 148u8, 148u8, 226u8, 148u8, 128u8, 226u8, 148u8, 128u8, 32u8]
        } else {
            vec![226u8, 148u8, 156u8, 226u8, 148u8, 128u8, 226u8, 148u8, 128u8, 32u8]
        };
        proof {
            assert(conn@ =~= connector(last));
        }
        append_bytes(&mut out, &conn);
        append_bytes(&mut out, &node.name);
        out.push(10);
        if node.is_dir {
            let mut cpre = crate::text::copy_bytes(prefix);
            let pad = if last {
                vec![32u8, 32u8, 32u8, 32u8]
            } else {
                vec![226u8, 148u8, 130u8, 32u8, 32u8, 32u8]
            };
            proof {
                assert(pad@ =~= child_pad(last));
            }
            append_bytes(&mut cpre, &pad);
            let mut cpath = crate::text::copy_bytes(dirpath);
            cpath.push(47);
            append_bytes(&mut cpath, &node.name);
            proof {
                assert(cpath@ =~= child_path(dirpath@, vis[t as int].name@));
            }
            let sub = render_dir_exec(&node.children, excludes, &cpre, &cpath, depth + 1);
            append_bytes(&mut out, &sub);
            proof {
                assert(out@ =~= out0 + (prefix@ + connector(last) + vis[t as int].name@ + seq![
                    10u8] + render_dir(
                    vis[t as int].children@,
                    exs,
                    prefix@ + child_pad(last),
                    child_path(dirpath@, vis[t as int].name@),
                    depth + 1,
                )));
            }
        } else {
            proof {
                assert(out@ =~= out0 + (prefix@ + connector(last) + vis[t as int].name@ + seq![
                    10u8] + Seq::<u8>::empty()));
            }
        }
        proof {
            assert(out@ + render_entries(vis, exs, prefix@, dirpath@, depth as int, t + 1) =~= out0
                + render_entries(vis, exs, prefix@, dirpath@, depth as int, t as int));
        }
        t += 1;
    }
    proof {
        assert(render_entries(vis, exs, prefix@, dirpath@, depth as int, order@.len() as int)
            == Seq::<u8>::empty());
        assert(out@ + Seq::<u8>::empty() =~= out@);
    }
    out
}

/// Two entries with the same kind and the same name.
pub open spec fn node_key_eq(a: TreeNode, b: TreeNode) -> bool {
    a.is_dir == b.is_dir && a.name@ == b.name@
}

/// No two entries share both kind and name, as holds of the entries of any
/// real directory.
pub open spec fn distinct_keys(s: Seq<TreeNode>) -> bool {
    forall|i: int, j: int| 0 <= i < j < s.len() ==> !node_key_eq(#[trigger] s[i], #[trigger] s[j])
}

proof fn lemma_node_lt_total(a: TreeNode, b: TreeNode)
    ensures
        node_lt(a, b) || node_lt(b, a) || node_key_eq(a, b),
{
    if a.is_dir == b.is_dir {
        crate::text::lemma_lex_trichotomy(a.name@, b.name@);
    }
}

proof fn lemma_node_lt_trans(a: TreeNode, b: TreeNode, c: TreeNode)
    requires
        node_lt(a, b),
        node_lt(b, c),
    ensures
        node_lt(a, c),
{
    if a.is_dir == b.is_dir && b.is_dir == c.is_dir {
        crate::text::lemma_lex_transitive(a.name@, b.name@, c.name@);
    }
}

proof fn lemma_node_le_trans(a: TreeNode, b: TreeNode, c: TreeNode)
    requires
        !node_lt(b, a),
        !node_lt(c, b),
    ensures
        !node_lt(c, a),
{
    if node_lt(c, a) {
        lemma_node_lt_total(a, b);
        if node_lt(a, b) {
            lemma_node_lt_trans(c, a, b);
        }
    }
}

proof fn lemma_sorted_pairwise(s: Seq<TreeNode>, i: int, j: int)
    requires
        nodes_sorted(s),
        0 <= i < j < s.len(),
    ensures
        !node_lt(s[j], s[i]),
    decreases j - i,
{
    assert(!node_lt(s[(j - 1) + 1], s[j - 1]));
    if j == i + 1 {
    } else {
        lemma_sorted_pairwise(s, i, j - 1);
        lemma_node_le_trans(s[i], s[j - 1], s[j]);
    }
}

proof fn lemma_insert_sorted_contains(x: TreeNode, s: Seq<TreeNode>, y: TreeNode)
    ensures
        insert_sorted(x, s).contains(y) <==> s.contains(y) || y == x,
    decreases s.len(),
{
    let out = insert_sorted(x, s);
    if s.len() == 0 {
        assert(out =~= seq![x]);
        if out.contains(y) {
            let i = choose|i: int| 0 <= i < out.len() && out[i] == y;
            assert(y == x);
        }
        if y == x {
            assert(out[0] == y);
        }
    } else if node_lt(x, s[0]) {
        assert(out =~= seq![x] + s);
        if out.contains(y) {
            let i = choose|i: int| 0 <= i < out.len() && out[i] == y;
            if i > 0 {
                assert(s[i - 1] == y);
            }
        }
        if y == x {
            assert(out[0] == y);
        }
        if s.contains(y) {
            let i = choose|i: int| 0 <= i < s.len() && s[i] == y;
            assert(out[i + 1] == y);
        }
    } else {
        lemma_insert_sorted_contains(x, s.drop_first(), y);
        let ins = insert_sorted(x, s.drop_first());
        assert(out =~= seq![s[0]] + ins);
        if out.contains(y) {
            let i = choose|i: int| 0 <= i < out.len() && out[i] == y;
            if i == 0 {
                assert(s[0] == y);
            } else {
                assert(ins[i - 1] == y);
                assert(ins.contains(y));
                if s.drop_first().contains(y) {
                    let t = choose|t: int|
                        0 <= t < s.drop_first().len() && s.drop_first()[t] == y;
                    assert(s[t + 1] == y);
                }
            }
        }
        if y == x {
            assert(ins.contains(y));
            let i = choose|i: int| 0 <= i < ins.len() && ins[i] == y;
            assert(out[i + 1] == y);
        }
        if s.contains(y) {
            let i = choose|i: int| 0 <= i < s.len() && s[i] == y;
            if i == 0 {
                assert(out[0] == y);
            } else {
                assert(s.drop_first()[i - 1] == y);
                assert(ins.contains(y));
                let t = choose|t: int| 0 <= t < ins.len() && ins[t] == y;
                assert(out[t + 1] == y);
            }
        }
    }
}

proof fn lemma_sort_nodes_contains(s: Seq<TreeNode>, y: TreeNode)
    ensures
        sort_nodes(s).contains(y) <==> s.contains(y),
    decreases s.len(),
{
    if s.len() > 0 {
        lemma_sort_nodes_contains(s.drop_last(), y);
        lemma_insert_sorted_contains(s.last(), sort_nodes(s.drop_last()), y);
        if s.contains(y) {
            let i = choose|i: int| 0 <= i < s.len() && s[i] == y;
            if i < s.len() - 1 {
                assert(s.drop_last()[i] == y);
            }
        }
        if s.drop_last().contains(y) {
            let i = choose|i: int| 0 <= i < s.drop_last().len() && s.drop_last()[i] == y;
            assert(s[i] == y);
        }
        if y == s.last() {
            assert(s[s.len() - 1] == y);
        }
    }
}

proof fn lemma_insert_sorted_distinct(x: TreeNode, s: Seq<TreeNode>)
    requires
        distinct_keys(s),
        forall|i: int| 0 <= i < s.len() ==> !node_key_eq(x, #[trigger] s[i]),
    ensures
        distinct_keys(insert_sorted(x, s)),
    decreases s.len(),
{
    let out = insert_sorted(x, s);
    if s.len() == 0 {
        assert(out =~= seq![x]);
    } else if node_lt(x, s[0]) {
        assert(out =~= seq![x] + s);
        assert forall|i: int, j: int| 0 <= i < j < out.len() implies !node_key_eq(
            #[trigger] out[i],
            #[trigger] out[j],
        ) by {
            if i == 0 {
                assert(out[j] == s[j - 1]);
            } else {
                assert(out[i] == s[i - 1] && out[j] == s[j - 1]);
            }
        }
    } else {
        let t = s.drop_first();
        assert forall|i: int, j: int| 0 <= i < j < t.len() implies !node_key_eq(
            #[trigger] t[i],
            #[trigger] t[j],
        ) by {
            assert(t[i] == s[i + 1] && t[j] == s[j + 1]);
        }
        assert forall|i: int| 0 <= i < t.len() implies !node_key_eq(x, #[trigger] t[i]) by {
            assert(t[i] == s[i + 1]);
        }
        lemma_insert_sorted_distinct(x, t);
        let ins = insert_sorted(x, t);
        assert(out =~= seq![s[0]] + ins);
        assert forall|i: int, j: int| 0 <= i < j < out.len() implies !node_key_eq(
            #[trigger] out[i],
            #[trigger] out[j],
        ) by {
            if i == 0 {
                assert(out[j] == ins[j - 1]);
                lemma_insert_sorted_contains(x, t, ins[j - 1]);
                assert(ins.contains(ins[j - 1]));
                if t.contains(ins[j - 1]) {
                    let u = choose|u: int| 0 <= u < t.len() && t[u] == ins[j - 1];
                    assert(s[u + 1] == ins[j - 1]);
                    assert(!node_key_eq(s[0], s[u + 1]));
                } else {
                    assert(ins[j - 1] == x);
                    assert(!node_key_eq(x, s[0int]));
                    if node_key_eq(s[0], x) {
                        assert(node_key_eq(x, s[0]));
                    }
                }
            } else {
                assert(out[i] == ins[i - 1] && out[j] == ins[j - 1]);
            }
        }
    }
}

proof fn lemma_sort_nodes_distinct(s: Seq<TreeNode>)
    requires
        distinct_keys(s),
    ensures
        distinct_keys(sort_nodes(s)),
    decreases s.len(),
{
    if s.len() > 0 {
        let dl = s.drop_last();
        assert forall|i: int, j: int| 0 <= i < j < dl.len() implies !node_key_eq(
            #[trigger] dl[i],
            #[trigger] dl[j],
        ) by {
            assert(dl[i] == s[i] && dl[j] == s[j]);
        }
        lemma_sort_nodes_distinct(dl);
        let sorted = sort_nodes(dl);
        assert forall|i: int| 0 <= i < sorted.len() implies !node_key_eq(
            s.last(),
            #[trigger] sorted[i],
        ) by {
            lemma_sort_nodes_contains(dl, sorted[i]);
            assert(sorted.contains(sorted[i]));
            let u = choose|u: int| 0 <= u < dl.len() && dl[u] == sorted[i];
            assert(s[u] == sorted[i]);
            assert(!node_key_eq(s[u], s[s.len() - 1]));
            if node_key_eq(s.last(), sorted[i]) {
                assert(node_key_eq(s[u], s[s.len() - 1]));
            }
        }
        lemma_insert_sorted_distinct(s.last(), sorted);
    }
}

proof fn lemma_sorted_nodes_unique(a: Seq<TreeNode>, b: Seq<TreeNode>)
    requires
        nodes_sorted(a),
        nodes_sorted(b),
        distinct_keys(a),
        distinct_keys(b),
        forall|x: TreeNode| #[trigger] a.contains(x) <==> b.contains(x),
    ensures
        a == b,
    decreases a.len(),
{
    if a.len() == 0 {
        if b.len() > 0 {
            assert(b.contains(b[0]));
            assert(a.contains(b[0]));
        }
        assert(a =~= b);
    } else if b.len() == 0 {
        assert(a.contains(a[0]));
        assert(b.contains(a[0]));
    } else {
        assert(a.contains(a[0]));
        assert(b.contains(a[0]));
        assert(b.contains(b[0]));
        assert(a.contains(b[0]));
        let j = choose|j: int| 0 <= j < b.len() && b[j] == a[0];
        let i = choose|i: int| 0 <= i < a.len() && a[i] == b[0];
        if j > 0 {
            lemma_sorted_pairwise(b, 0, j);
        } else {
            if node_lt(a[0], b[0]) {
                lemma_node_lt_asym(a[0], b[0]);
            }
        }
        if i > 0 {
            lemma_sorted_pairwise(a, 0, i);
        } else {
            if node_lt(b[0], a[0]) {
                lemma_node_lt_asym(b[0], a[0]);
            }
        }
        // The heads are mutually not-below each other, hence share a key.
        assert(!node_lt(a[0], b[0]));
        assert(!node_lt(b[0], a[0]));
        lemma_node_lt_total(a[0], b[0]);
        assert(node_key_eq(a[0], b[0]));
        // With distinct keys the matching entry can only be the head itself.
        if i > 0 {
            assert(node_key_eq(a[0], a[i]));
            assert(!node_key_eq(a[0], a[i]));
        }
        assert(a[0] == b[0]);
        let ta = a.drop_first();
        let tb = b.drop_first();
        assert forall|u: int| 0 <= u < ta.len() - 1 implies !node_lt(
            #[trigger] ta[u + 1],
            ta[u],
        ) by {
            assert(ta[u + 1] == a[u + 2] && ta[u] == a[u + 1]);
            assert(!node_lt(a[(u + 1) + 1], a[u + 1]));
        }
        assert forall|u: int| 0 <= u < tb.len() - 1 implies !node_lt(
            #[trigger] tb[u + 1],
            tb[u],
        ) by {
            assert(tb[u + 1] == b[u + 2] && tb[u] == b[u + 1]);
            assert(!node_lt(b[(u + 1) + 1], b[u + 1]));
        }
        assert forall|u: int, v: int| 0 <= u < v < ta.len() implies !node_key_eq(
            #[trigger] ta[u],
            #[trigger] ta[v],
        ) by {
            assert(ta[u] == a[u + 1] && ta[v] == a[v + 1]);
        }
        assert forall|u: int, v: int| 0 <= u < v < tb.len() implies !node_key_eq(
            #[trigger] tb[u],
            #[trigger] tb[v],
        ) by {
            assert(tb[u] == b[u + 1] && tb[v] == b[v + 1]);
        }
        assert forall|x: TreeNode| #[trigger] ta.contains(x) implies tb.contains(x) by {
            lemma_head_tail_node(a, b, x);
        }
        assert forall|x: TreeNode| #[trigger] tb.contains(x) implies ta.contains(x) by {
            lemma_head_tail_node(b, a, x);
        }
        lemma_sorted_nodes_unique(ta, tb);
        assert(a.len() == b.len());
        assert forall|k: int| 0 <= k < a.len() implies a[k] == b[k] by {
            if k > 0 {
                assert(a[k] == ta[k - 1]);
                assert(b[k] == tb[k - 1]);
            }
        }
        assert(a =~= b);
    }
}

proof fn lemma_head_tail_node(a: Seq<TreeNode>, b: Seq<TreeNode>, x: TreeNode)
    requires
        a.len() > 0,
        b.len() > 0,
        a[0] == b[0],
        distinct_keys(a),
        forall|y: TreeNode| #[trigger] a.contains(y) <==> b.contains(y),
        a.drop_first().contains(x),
    ensures
        b.drop_first().contains(x),
{
    let i = choose|i: int| 0 <= i < a.drop_first().len() && a.drop_first()[i] == x;
    assert(a[i + 1] == x);
    assert(a.contains(x));
    assert(b.contains(x));
    assert(!node_key_eq(a[0], a[i + 1]));
    let j = choose|j: int| 0 <= j < b.len() && b[j] == x;
    if j == 0 {
        assert(x == a[0]);
        assert(node_key_eq(a[0], a[i + 1]));
    }
    assert(b.drop_first()[j - 1] == x);
}

/// Enumeration-order independence: two snapshots that hold the same entries
/// of a directory — in whatever order the filesystem handed them out — are
/// given the same listing order, provided no two entries share both kind
/// and name. With the renderer's contract this makes the drawn listing
/// byte-identical across renders of an unchanged directory.
pub proof fn lemma_sort_order_independent(s1: Seq<TreeNode>, s2: Seq<TreeNode>)
    requires
        distinct_keys(s1),
        distinct_keys(s2),
        forall|x: TreeNode| #[trigger] s1.contains(x) <==> s2.contains(x),
    ensures
        sort_nodes(s1) == sort_nodes(s2),
{
    lemma_sort_nodes_sorted(s1);
    lemma_sort_nodes_sorted(s2);
    lemma_sort_nodes_distinct(s1);
    lemma_sort_nodes_distinct(s2);
    assert forall|x: TreeNode| #[trigger]
        sort_nodes(s1).contains(x) <==> sort_nodes(s2).contains(x) by {
        lemma_sort_nodes_contains(s1, x);
        lemma_sort_nodes_contains(s2, x);
    }
    lemma_sorted_nodes_unique(sort_nodes(s1), sort_nodes(s2));
}

proof fn lemma_filter_distinct(s: Seq<TreeNode>, pred: spec_fn(TreeNode) -> bool)
    requires
        distinct_keys(s),
    ensures
        distinct_keys(s.filter(pred)),
    decreases s.len(),
{
    reveal(Seq::filter);
    if s.len() > 0 {
        let dl = s.drop_last();
        assert forall|u: int, v: int| 0 <= u < v < dl.len() implies !node_key_eq(
            #[trigger] dl[u],
            #[trigger] dl[v],
        ) by {
            assert(dl[u] == s[u] && dl[v] == s[v]);
        }
        lemma_filter_distinct(dl, pred);
        if pred(s.last()) {
            let f = dl.filter(pred);
            assert(s.filter(pred) == f.push(s.last()));
            assert forall|u: int| 0 <= u < f.len() implies !node_key_eq(
                #[trigger] f[u],
                s.last(),
            ) by {
                assert(f.contains(f[u]));
                dl.lemma_filter_contains_rev(pred, f[u]);
                let w = choose|w: int| 0 <= w < dl.len() && dl[w] == f[u];
                assert(s[w] == f[u]);
                assert(!node_key_eq(s[w], s[s.len() - 1]));
            }
            let out = f.push(s.last());
            assert forall|u: int, v: int| 0 <= u < v < out.len() implies !node_key_eq(
                #[trigger] out[u],
                #[trigger] out[v],
            ) by {
                if v < out.len() - 1 {
                    assert(out[u] == f[u] && out[v] == f[v]);
                } else {
                    assert(out[u] == f[u] && out[v] == s.last());
                }
            }
        }
    }
}

proof fn lemma_filter_contains_iff(s: Seq<TreeNode>, pred: spec_fn(TreeNode) -> bool, x: TreeNode)
    ensures
        s.filter(pred).contains(x) <==> s.contains(x) && pred(x),
{
    if s.filter(pred).contains(x) {
        s.lemma_filter_contains_rev(pred, x);
        let i = choose|i: int| 0 <= i < s.filter(pred).len() && s.filter(pred)[i] == x;
        s.lemma_filter_pred(pred, i);
    }
    if s.contains(x) && pred(x) {
        let i = choose|i: int| 0 <= i < s.len() && s[i] == x;
        s.lemma_filter_contains(pred, i);
    }
}

/// Tree determinism against the filesystem's enumeration order: two
/// snapshots of one directory level that hold the same entries, in whatever
/// order they were read, draw byte-identical listings — provided no two
/// entries share both kind and name, as holds of any real directory.
pub proof fn lemma_render_order_independent(
    c1: Seq<TreeNode>,
    c2: Seq<TreeNode>,
    excludes: Seq<Seq<u8>>,
    prefix: Seq<u8>,
    dirpath: Seq<u8>,
    depth: int,
)
    requires
        distinct_keys(c1),
        distinct_keys(c2),
        forall|x: TreeNode| #[trigger] c1.contains(x) <==> c2.contains(x),
    ensures
        render_dir(c1, excludes, prefix, dirpath, depth) == render_dir(
            c2,
            excludes,
            prefix,
            dirpath,
            depth,
        ),
{
    let pred = |n: TreeNode| visible_spec(child_path(dirpath, n.name@), n.name@, excludes);
    lemma_filter_distinct(c1, pred);
    lemma_filter_distinct(c2, pred);
    assert forall|x: TreeNode| #[trigger]
        c1.filter(pred).contains(x) <==> c2.filter(pred).contains(x) by {
        lemma_filter_contains_iff(c1, pred, x);
        lemma_filter_contains_iff(c2, pred, x);
    }
    lemma_sort_order_independent(c1.filter(pred), c2.filter(pred));
    assert(visible_sorted(c1, excludes, dirpath) == visible_sorted(c2, excludes, dirpath));
}

/// Renders the listing of the whole tree under `root`, whose name holds the
/// root directory's path.
pub fn render_tree(root: &TreeNode, excludes: &Vec<Vec<u8>>) -> (r: Vec<u8>)
    ensures
        r@ == tree_render_spec(*root, views_of(excludes@)),
{
    let empty_prefix: Vec<u8> = Vec::new();
    let r = render_dir_exec(&root.children, excludes, &empty_prefix, &root.name, 0);
    proof {
        assert(empty_prefix@ =~= Seq::<u8>::empty());
    }
    r
}

} // verus!
