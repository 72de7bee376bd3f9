//! A singly linked list that owns its elements.

use vstd::prelude::*;

verus! {

#[derive(Debug)]
struct ListNode<T> {
    data: T,
    next: Option<Box<ListNode<T>>>,
}

/// A singly linked list. It stands for the sequence of its elements, the
/// head first.
#[derive(Debug)]
pub struct LinkedList<T> {
    head: Option<Box<ListNode<T>>>,
    length: usize,
}

/// The elements of a chain of nodes, the first node first.
spec fn chain<T>(node: Option<Box<ListNode<T>>>) -> Seq<T>
    decreases node,
{
    match node {
        None => Seq::empty(),
        Some(n) => seq![n.data] + chain(n.next),
    }
}

/// Hangs a new node with `t` behind the last node of a chain.
fn append<T>(head: &mut Option<Box<ListNode<T>>>, t: T)
    ensures
        chain(*final(head)) == chain(*old(head)).push(t),
{
    let ghost whole = chain(*head);
    let ghost mut walked: Seq<T> = Seq::empty();
    let mut cur = head;
    loop
        invariant
            whole == chain(*old(head)),
            whole == walked + chain(*cur),
            chain(*final(head)) == walked + chain(*final(cur)),
        decreases *cur,
    {
        if cur.is_none() {
            *cur = Some(Box::new(ListNode { data: t, next: None }));
            proof {
                assert(chain(*cur) =~= seq![t]) by {
                    reveal_with_fuel(chain, 2);
                }
                assert(walked + seq![t] =~= whole.push(t));
            }
            return ;
        }
        match cur {
            None => {},
            Some(node) => {
                proof {
                    assert(walked.push(node.data) + chain(node.next) =~= whole);
                    walked = walked.push(node.data);
                }
                cur = &mut node.next;
            },
        }
    }
}

/// Takes the last node off a chain and returns what it held.
fn detach_last<T>(head: &mut Option<Box<ListNode<T>>>) -> (back: Option<T>)
    ensures
        match back {
            Some(t) => chain(*old(head)).len() > 0 && t == chain(*old(head)).last() && chain(
                *final(head),
            ) == chain(*old(head)).drop_last(),
            None => chain(*old(head)).len() == 0 && *final(head) == *old(head),
        },
{
    let ghost whole = chain(*head);
    let ghost mut walked: Seq<T> = Seq::empty();
    let mut cur = head;
    loop
        invariant
            whole == chain(*old(head)),
            whole == walked + chain(*cur),
            chain(*final(head)) == walked + chain(*final(cur)),
            walked.len() == 0 ==> *final(head) == *final(cur),
            walked.len() == 0 ==> *old(head) == *cur,
            walked.len() > 0 ==> *cur is Some,
        decreases *cur,
    {
        let at_last = match &*cur {
            None => true,
            Some(node) => node.next.is_none(),
        };
        if at_last {
            let taken = cur.take();
            return match taken {
                None => None,
                Some(node) => {
                    proof {
                        assert(chain(node.next) =~= Seq::<T>::empty());
                        assert(whole =~= walked.push(node.data));
                        assert(whole.drop_last() =~= walked);
                        assert(walked + Seq::<T>::empty() =~= walked);
                    }
                    Some(node.data)
                },
            };
        }
        match cur {
            None => {},
            Some(node) => {
                proof {
                    assert(walked.push(node.data) + chain(node.next) =~= whole);
                    walked = walked.push(node.data);
                }
                cur = &mut node.next;
            },
        }
    }
}

impl<T> View for LinkedList<T> {
    type V = Seq<T>;

    closed spec fn view(&self) -> Seq<T> {
        chain(self.head)
    }
}

impl<T> LinkedList<T> {
    /// The stored length is the number of elements.
    pub closed spec fn wf(&self) -> bool {
        self.length == chain(self.head).len()
    }

    /// An empty list.
    pub fn new() -> (list: Self)
        ensures
            list.wf(),
            list@ == Seq::<T>::empty(),
    {
        Self { head: None, length: 0 }
    }

    /// The number of elements.
    #[inline]
    pub fn length(&self) -> (n: usize)
        requires
            self.wf(),
        ensures
            n == self@.len(),
    {
        self.length
    }

    /// Whether the list holds no element.
    #[inline]
    pub fn is_empty(&self) -> (r: bool)
        requires
            self.wf(),
        ensures
            r == (self@.len() == 0),
    {
        self.length == 0
    }

    /// Puts `t` before the first element.
    pub fn push_front(&mut self, t: T)
        requires
            old(self).wf(),
            old(self)@.len() < usize::MAX,
        ensures
            final(self).wf(),
            final(self)@ == seq![t] + old(self)@,
    {
        let y = self.head.take();
        self.head = Some(Box::new(ListNode { data: t, next: y }));
        self.length += 1;
    }

    /// Puts `t` behind the last element.
    pub fn push_back(&mut self, t: T)
        requires
            old(self).wf(),
            old(self)@.len() < usize::MAX,
        ensures
            final(self).wf(),
            final(self)@ == old(self)@.push(t),
    {
        append(&mut self.head, t);
        self.length += 1;
    }

    /// Takes the first element out, if there is one.
    pub fn pop_front(&mut self) -> (front: Option<T>)
        requires
            old(self).wf(),
        ensures
            final(self).wf(),
            match front {
                Some(t) => old(self)@.len() > 0 && t == old(self)@[0] && final(self)@ == old(
                    self,
                )@.drop_first(),
                None => old(self)@.len() == 0 && final(self)@ == old(self)@,
            },
    {
        match self.head.take() {
            None => None,
            Some(node) => {
                let ListNode { data, next } = *node;
                proof {
                    assert((seq![data] + chain(next)).drop_first() =~= chain(next));
                }
                self.head = next;
                self.length -= 1;
                Some(data)
            },
        }
    }

    /// Takes the last element out, if there is one.
    pub fn pop_back(&mut self) -> (back: Option<T>)
        requires
            old(self).wf(),
        ensures
            final(self).wf(),
            match back {
                Some(t) => old(self)@.len() > 0 && t == old(self)@.last() && final(self)@ == old(
                    self,
                )@.drop_last(),
                None => old(self)@.len() == 0 && final(self)@ == old(self)@,
            },
    {
        let back = detach_last(&mut self.head);
        if back.is_some() {
            self.length -= 1;
        }
        back
    }

    /// The element at place `index`, counted from the head and from zero.
    pub fn get(&self, index: usize) -> (element: Option<&T>)
        requires
            self.wf(),
        ensures
            match element {
                Some(t) => index < self@.len() && *t == self@[index as int],
                None => index >= self@.len(),
            },
    {
        if index >= self.length {
            return None;
        }
        let mut idx = index;
        let mut cur: &Option<Box<ListNode<T>>> = &self.head;
        loop
            invariant
                idx <= index < self@.len(),
                idx < chain(*cur).len(),
                chain(*cur) == self@.skip(index - idx),
            decreases idx,
        {
            match cur {
                None => {
                    return None;
                },
                Some(x) => {
                    proof {
                        assert(chain(*cur)[0] == x.data);
                        assert(chain(*cur).len() == self@.len() - (index - idx));
                    }
                    if idx == 0 {
                        return Some(&x.data);
                    }
                    proof {
                        assert(chain(x.next) =~= chain(*cur).skip(1));
                        assert(self@.skip(index - idx).skip(1) =~= self@.skip(index - idx + 1));
                    }
                    cur = &x.next;
                    idx -= 1;
                },
            }
        }
    }
}

} // verus!
