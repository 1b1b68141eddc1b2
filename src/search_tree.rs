//! An unbalanced binary search tree of integers: smaller values go left,
//! equal and greater values go right.
use vstd::prelude::*;

verus! {

struct Node {
    val: i32,
    left: Option<Box<Node>>,
    right: Option<Box<Node>>,
}

pub struct Tree {
    root: Option<Box<Node>>,
}

/// The values of a subtree, left to right.
spec fn inorder(link: Option<Box<Node>>) -> Seq<i32>
    decreases link,
{
    match link {
        None => seq![],
        Some(n) => inorder(n.left) + seq![n.val] + inorder(n.right),
    }
}

/// Whether the values never decrease from left to right.
pub open spec fn sorted(s: Seq<i32>) -> bool {
    forall|i: int, j: int| 0 <= i < j < s.len() ==> s[i] <= s[j]
}

/// `s` with `v` put before its first value greater than `v`.
pub open spec fn sorted_insert(s: Seq<i32>, v: i32) -> Seq<i32>
    decreases s.len(),
{
    if s.len() == 0 {
        seq![v]
    } else if v < s[0] {
        seq![v] + s
    } else {
        seq![s[0]] + sorted_insert(s.drop_first(), v)
    }
}

proof fn lemma_sorted_insert_left(l: Seq<i32>, x: i32, r: Seq<i32>, v: i32)
    requires
        v < x,
        forall|i: int| 0 <= i < l.len() ==> l[i] <= x,
    ensures
        sorted_insert(l + seq![x] + r, v) == sorted_insert(l, v) + seq![x] + r,
    decreases l.len(),
{
    if l.len() == 0 {
        assert(l + seq![x] + r =~= seq![x] + r);
        assert((l + seq![x] + r)[0] == x);
        assert(sorted_insert(l, v) + seq![x] + r =~= seq![v] + (seq![x] + r));
    } else {
        let t = l + seq![x] + r;
        assert(t[0] == l[0]);
        if v < l[0] {
            assert(sorted_insert(l, v) =~= seq![v] + l);
            assert(sorted_insert(l, v) + seq![x] + r =~= seq![v] + t);
        } else {
            assert(t.drop_first() =~= l.drop_first() + seq![x] + r);
            lemma_sorted_insert_left(l.drop_first(), x, r, v);
            assert(sorted_insert(l, v) + seq![x] + r =~= seq![l[0]] + (sorted_insert(l.drop_first(), v)
                + seq![x] + r));
        }
    }
}

proof fn lemma_sorted_insert_right(l: Seq<i32>, x: i32, r: Seq<i32>, v: i32)
    requires
        x <= v,
        forall|i: int| 0 <= i < l.len() ==> l[i] <= x,
    ensures
        sorted_insert(l + seq![x] + r, v) == l + seq![x] + sorted_insert(r, v),
    decreases l.len(),
{
    let t = l + seq![x] + r;
    if l.len() == 0 {
        assert(t =~= seq![x] + r);
        assert(t[0] == x);
        assert(t.drop_first() =~= r);
        assert(l + seq![x] + sorted_insert(r, v) =~= seq![x] + sorted_insert(r, v));
    } else {
        assert(t[0] == l[0]);
        assert(t.drop_first() =~= l.drop_first() + seq![x] + r);
        lemma_sorted_insert_right(l.drop_first(), x, r, v);
        assert(l + seq![x] + sorted_insert(r, v) =~= seq![l[0]] + (l.drop_first() + seq![x]
            + sorted_insert(r, v)));
    }
}

proof fn lemma_sorted_insert_keeps_sorted(s: Seq<i32>, v: i32)
    requires
        sorted(s),
    ensures
        sorted(sorted_insert(s, v)),
        sorted_insert(s, v).len() == s.len() + 1,
        forall|k: int|
            0 <= k < sorted_insert(s, v).len() ==> #[trigger] sorted_insert(s, v)[k] == v || s.contains(
                sorted_insert(s, v)[k],
            ),
    decreases s.len(),
{
    if s.len() > 0 && v >= s[0] {
        let t = s.drop_first();
        lemma_sorted_insert_keeps_sorted(t, v);
        let u = sorted_insert(t, v);
        assert(sorted_insert(s, v) =~= seq![s[0]] + u);
        assert forall|k: int| 0 <= k < u.len() implies s[0] <= #[trigger] u[k] by {
            if u[k] != v {
                let m = choose|m: int| 0 <= m < t.len() && t[m] == u[k];
                assert(s[0] <= s[m + 1]);
            }
        }
        assert forall|k: int| 0 <= k < u.len() && u[k] != v implies s.contains(#[trigger] u[k]) by {
            let m = choose|m: int| 0 <= m < t.len() && t[m] == u[k];
            assert(s[m + 1] == u[k]);
        }
    } else if s.len() > 0 {
        assert(sorted_insert(s, v) =~= seq![v] + s);
        assert forall|k: int| 0 <= k < s.len() implies v <= #[trigger] s[k] by {
            if k > 0 {
                assert(s[0] <= s[k]);
            }
        }
        assert forall|k: int| 0 <= k < s.len() implies s.contains(#[trigger] s[k]) by {}
    } else {
        assert(sorted_insert(s, v) =~= seq![v]);
    }
}

/// Inserts `v` below `link`, as a leaf.
fn insert_below(link: &mut Option<Box<Node>>, v: i32)
    requires
        sorted(inorder(*old(link))),
    ensures
        inorder(*final(link)) == sorted_insert(inorder(*old(link)), v),
        sorted(inorder(*final(link))),
    decreases inorder(*old(link)).len(),
{
    proof {
        lemma_sorted_insert_keeps_sorted(inorder(*link), v);
    }
    match link {
        None => {
            *link = Some(Box::new(Node { val: v, left: None, right: None }));
            assert(inorder(*link) =~= seq![v]);
        },
        Some(node) => {
            let ghost l = inorder(node.left);
            let ghost r = inorder(node.right);
            let ghost x = node.val;
            let ghost whole = l + seq![x] + r;
            assert forall|i: int| 0 <= i < l.len() implies l[i] <= x by {
                assert(whole[i] == l[i] && whole[l.len() as int] == x);
            }
            assert forall|i: int, j: int| 0 <= i < j < l.len() implies l[i] <= l[j] by {
                assert(whole[i] == l[i] && whole[j] == l[j]);
            }
            assert forall|i: int, j: int| 0 <= i < j < r.len() implies r[i] <= r[j] by {
                assert(whole[l.len() + 1 + i] == r[i] && whole[l.len() + 1 + j] == r[j]);
            }
            if v < node.val {
                insert_below(&mut node.left, v);
                proof {
                    lemma_sorted_insert_left(l, x, r, v);
                }
            } else {
                insert_below(&mut node.right, v);
                proof {
                    lemma_sorted_insert_right(l, x, r, v);
                }
            }
        },
    }
}

/// Appends the values of a subtree, left to right.
fn dfs(link: &Option<Box<Node>>, out: &mut Vec<i32>)
    ensures
        final(out)@ == old(out)@ + inorder(*link),
    decreases *link,
{
    match link {
        None => {
            assert(old(out)@ + inorder(*link) =~= old(out)@);
        },
        Some(d) => {
            dfs(&d.left, out);
            out.push(d.val);
            dfs(&d.right, out);
            assert(out@ =~= old(out)@ + inorder(*link));
        },
    }
}

impl Tree {
    /// The values in the tree, in order.
    pub closed spec fn view(&self) -> Seq<i32> {
        inorder(self.root)
    }

    /// Every tree keeps its values in order.
    pub closed spec fn wf(&self) -> bool {
        sorted(inorder(self.root))
    }

    pub fn new() -> (r: Tree)
        ensures
            r.wf(),
            r.view() == Seq::<i32>::empty(),
    {
        Tree { root: None }
    }

    /// Adds `v`: after the values not greater than it, before the greater
    /// ones.
    pub fn add(&mut self, v: i32)
        requires
            old(self).wf(),
        ensures
            final(self).wf(),
            final(self).view() == sorted_insert(old(self).view(), v),
    {
        insert_below(&mut self.root, v);
    }

    /// The values in ascending order.
    pub fn collect(&self) -> (r: Vec<i32>)
        requires
            self.wf(),
        ensures
            r@ == self.view(),
            sorted(r@),
    {
        let mut out: Vec<i32> = Vec::new();
        dfs(&self.root, &mut out);
        assert(out@ =~= inorder(self.root));
        out
    }
}

} // verus!
