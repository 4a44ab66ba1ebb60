use vstd::prelude::*;

verus! {

/// A singly linked list, seen from its first node.
pub struct LinkedList<T> {
    value: T,
    next: Option<Box<LinkedList<T>>>,
}

impl<T> LinkedList<T> {
    /// The values from this node to the last one.
    pub closed spec fn view(&self) -> Seq<T>
        decreases self,
    {
        match &self.next {
            None => seq![self.value],
            Some(n) => seq![self.value] + n.view(),
        }
    }

    proof fn lemma_view_nonempty(&self)
        ensures
            self.view().len() >= 1,
            self.view()[0] == self.value,
    {
        match &self.next {
            None => {},
            Some(n) => {},
        }
    }

    /// A list of one node.
    pub fn new(start: T) -> (r: LinkedList<T>)
        ensures
            r.view() == seq![start],
    {
        LinkedList { value: start, next: None }
    }

    /// Appends `value` after the last node.
    pub fn push(&mut self, value: T)
        ensures
            final(self).view() == old(self).view().push(value),
        decreases old(self).view().len(),
    {
        match &mut self.next {
            Some(n) => {
                proof {
                    n.lemma_view_nonempty();
                }
                n.push(value);
            },
            None => {
                self.next = Some(Box::new(LinkedList::new(value)));
            },
        }
        proof {
            assert(final(self).view() =~= old(self).view().push(value));
        }
    }

    /// Replaces the value of this node.
    pub fn replace(&mut self, value: T)
        ensures
            final(self).view() == old(self).view().update(0, value),
    {
        self.value = value;
        proof {
            self.lemma_view_nonempty();
            assert(self.view() =~= old(self).view().update(0, value));
        }
    }

    /// The value of this node.
    pub fn value(&self) -> (r: &T)
        ensures
            *r == self.view()[0],
    {
        proof {
            self.lemma_view_nonempty();
        }
        &self.value
    }

    /// Whether another node follows this one.
    pub fn is_head(&self) -> (r: bool)
        ensures
            r == (self.view().len() > 1),
    {
        proof {
            match &self.next {
                None => {},
                Some(n) => {
                    n.lemma_view_nonempty();
                },
            }
        }
        self.next.is_some()
    }

    /// Unlinks the node at position `index`, counting this node as 0, and joins the
    /// nodes on either side of it.
    pub fn remove(&mut self, index: usize)
        requires
            1 <= index < old(self).view().len(),
        ensures
            final(self).view() == old(self).view().remove(index as int),
        decreases index,
    {
        let rest = self.next.take();
        match rest {
            Some(n) => {
                let mut node = *n;
                proof {
                    node.lemma_view_nonempty();
                }
                if index == 1 {
                    self.next = node.next;
                } else {
                    node.remove(index - 1);
                    self.next = Some(Box::new(node));
                }
                proof {
                    assert(self.view() =~= old(self).view().remove(index as int));
                }
            },
            None => {
                proof {
                    assert(old(self).view() =~= seq![old(self).value]);
                }
                vstd::pervasive::unreached()
            },
        }
    }

    /// Moves this handle on to the following node and hands out its value; at the last
    /// node nothing changes and the result is `None`.
    pub fn next(&mut self) -> (r: Option<&T>)
        ensures
            old(self).view().len() == 1 ==> r is None && final(self).view() == old(self).view(),
            old(self).view().len() > 1 ==> final(self).view() == old(self).view().drop_first()
                && r is Some && *r->Some_0 == old(self).view()[1],
    {
        let rest = self.next.take();
        match rest {
            Some(n) => {
                proof {
                    n.lemma_view_nonempty();
                    assert(old(self).view().drop_first() =~= n.view());
                }
                *self = *n;
                Some(&self.value)
            },
            None => {
                proof {
                    assert(self.view() =~= old(self).view());
                }
                None
            },
        }
    }
}

} // verus!
