//! A singly linked list of integers that appends at its end.
use vstd::prelude::*;

verus! {

struct Node {
    val: i32,
    next: Option<Box<Node>>,
}

pub struct List {
    head: Option<Box<Node>>,
}

/// The values from this link to the end of the list.
spec fn values(link: Option<Box<Node>>) -> Seq<i32>
    decreases link,
{
    match link {
        None => seq![],
        Some(n) => seq![n.val] + values(n.next),
    }
}

/// Adds `v` after the last node reachable from `link`.
fn append(link: &mut Option<Box<Node>>, v: i32)
    ensures
        values(*final(link)) == values(*old(link)).push(v),
    decreases values(*old(link)).len(),
{
    match link {
        None => {
            *link = Some(Box::new(Node { val: v, next: None }));
            assert(values(*link) =~= seq![v]);
        },
        Some(node) => {
            let ghost rest = values(node.next);
            append(&mut node.next, v);
            assert(values(*link) =~= seq![node.val] + rest.push(v));
        },
    }
}

impl List {
    /// The values in the list, first to last.
    pub closed spec fn view(&self) -> Seq<i32> {
        values(self.head)
    }

    pub fn new() -> (r: List)
        ensures
            r.view() == Seq::<i32>::empty(),
    {
        List { head: None }
    }

    /// Appends `v` at the end.
    pub fn add(&mut self, v: i32)
        ensures
            final(self).view() == old(self).view().push(v),
    {
        append(&mut self.head, v);
    }

    /// The values, first to last.
    pub fn collect(&self) -> (r: Vec<i32>)
        ensures
            r@ == self.view(),
    {
        let mut out: Vec<i32> = Vec::new();
        let mut ptr: &Option<Box<Node>> = &self.head;
        while ptr.is_some()
            invariant
                out@ + values(*ptr) == values(self.head),
            decreases values(*ptr).len(),
        {
            match ptr {
                Some(node) => {
                    out.push(node.val);
                    assert(out@ + values(node.next) =~= values(self.head));
                    ptr = &node.next;
                },
                None => {},
            }
        }
        assert(out@ =~= values(self.head));
        out
    }
}

} // verus!
