use vstd::prelude::*;
use crate::model::{
    filtered, is_image, is_verdict, lemma_retained_none, lemma_retained_push, retained,
};

verus! {

/// One cell of a chain. The head cell owns the rest of the chain, so a chain
/// always holds at least one element.
#[derive(Debug)]
pub struct Node<T: Clone> {
    next: Option<Box<Node<T>>>,
    data: T,
}

impl<T: Clone> View for Node<T> {
    type V = Seq<T>;

    /// The elements of the chain, head first.
    closed spec fn view(&self) -> Seq<T> {
        self.elements()
    }
}

impl<T: Clone> Node<T> {
    /// The head's element, followed by the elements of the cells behind it.
    closed spec fn elements(&self) -> Seq<T>
        decreases self,
    {
        match self.next {
            None => seq![self.data],
            Some(rest) => seq![self.data] + rest.elements(),
        }
    }

    /// A chain is never empty.
    pub proof fn lemma_nonempty(&self)
        ensures
            self@.len() >= 1,
    {
    }

    /// How the view of a cell is made of its element and its successor's view.
    proof fn lemma_unfold(&self)
        ensures
            self@.len() >= 1,
            self@[0] == self.data,
            self.next is None ==> self@ == seq![self.data],
            self.next is Some ==> self@.drop_first() == self.next.unwrap()@,
            self.next is Some ==> self@ == seq![self.data] + self.next.unwrap()@,
    {
    }

    /// A chain of the one element `data`.
    pub fn new(data: T) -> (chain: Self)
        ensures
            chain@ == seq![data],
    {
        Node { next: None, data }
    }

    /// Puts `ndata` in front of the chain. The cells that were there move
    /// behind the new head; none is copied.
    pub fn insert(&mut self, ndata: T)
        ensures
            final(self)@ == seq![ndata] + old(self)@,
    {
        let mut head = Node { next: None, data: ndata };
        std::mem::swap(self, &mut head);
        self.next = Some(Box::new(head));
    }

    /// Removes the head, unless it is the only cell: then nothing changes.
    pub fn pop(&mut self)
        ensures
            old(self)@.len() > 1 ==> final(self)@ == old(self)@.drop_first(),
            old(self)@.len() <= 1 ==> final(self)@ == old(self)@,
    {
        if let Some(rest) = self.next.take() {
            *self = *rest;
        }
    }

    /// The number of cells, the head included.
    pub fn length(&self) -> (n: usize)
        requires
            self@.len() <= usize::MAX,
        ensures
            n == self@.len(),
            n >= 1,
    {
        let mut temp = self;
        let mut i: usize = 1;
        loop
            invariant
                i + temp@.len() == self@.len() + 1,
                temp@.len() >= 1,
                self@.len() <= usize::MAX,
            decreases temp@.len(),
        {
            match &temp.next {
                None => {
                    return i;
                },
                Some(rest) => {
                    proof {
                        rest.lemma_nonempty();
                    }
                    temp = rest;
                    i += 1;
                },
            }
        }
    }

    /// A reference to the element at `index`, counted from the head, or
    /// `None` where the chain has no such cell.
    pub fn get_ref(&self, index: usize) -> (found: Option<&T>)
        ensures
            index < self@.len() ==> found == Some(&self@[index as int]),
            index >= self@.len() ==> found is None,
    {
        let mut temp = self;
        let mut i: usize = 0;
        loop
            invariant
                i <= index,
                temp@.len() >= 1,
                temp@ == self@.skip(i as int),
                i < self@.len(),
            decreases temp@.len(),
        {
            proof {
                temp.lemma_unfold();
            }
            if i == index {
                return Some(&temp.data);
            }
            match &temp.next {
                None => {
                    return None;
                },
                Some(rest) => {
                    temp = rest;
                    i += 1;
                },
            }
        }
    }

    /// Exclusive access to the element at `index`, counted from the head, or
    /// `None` where the chain has no such cell. What the caller writes
    /// through the reference replaces that element and no other.
    pub fn get_mut(&mut self, index: usize) -> (found: Option<&mut T>)
        ensures
            index < old(self)@.len() ==> found is Some && *found.unwrap() == old(self)@[index as int]
                && final(self)@ == old(self)@.update(index as int, *final(found.unwrap())),
            index >= old(self)@.len() ==> found is None && final(self)@ == old(self)@,
    {
        let mut temp = self;
        let mut i: usize = 0;
        loop
            invariant
                i <= index,
                temp@.len() >= 1,
                temp@ == old(self)@.skip(i as int),
                i < old(self)@.len(),
                final(self)@ == old(self)@.take(i as int) + final(temp)@,
            decreases temp@.len(),
        {
            proof {
                temp.lemma_unfold();
            }
            if i == index {
                return Some(&mut temp.data);
            }
            match &mut temp.next {
                None => {
                    return None;
                },
                Some(rest) => {
                    temp = rest;
                    i += 1;
                },
            }
        }
    }

    /// A copy of the element at `index`, counted from the head, or `None`
    /// where the chain has no such cell.
    pub fn get(&self, index: usize) -> (found: Option<T>)
        ensures
            index < self@.len() ==> found is Some && cloned(self@[index as int], found.unwrap()),
            index >= self@.len() ==> found is None,
    {
        match self.get_ref(index) {
            Some(data) => Some(data.clone()),
            None => None,
        }
    }

    /// Replaces every element by what `f` makes of it, head first, and hands
    /// the chain back so that calls can follow one another.
    pub fn map(&mut self, f: impl Fn(&T) -> T) -> (chain: &mut Self)
        requires
            forall|i: int| 0 <= i < old(self)@.len() ==> call_requires(f, (&old(self)@[i],)),
        ensures
            is_image(f, old(self)@, chain@),
            *final(self) == *final(chain),
    {
        let mut temp = &mut *self;
        let ghost mut done: Seq<T> = Seq::empty();
        loop
            invariant_except_break
                done.len() < old(self)@.len(),
                temp@ == old(self)@.skip(done.len() as int),
                forall|i: int|
                    0 <= i < done.len() ==> call_ensures(f, (&old(self)@[i],), #[trigger] done[i]),
                after_borrow(*self)@ == done + final(temp)@,
            invariant
                forall|i: int| 0 <= i < old(self)@.len() ==> call_requires(f, (&old(self)@[i],)),
            ensures
                is_image(f, old(self)@, done),
                after_borrow(*self)@ == done,
            decreases temp@.len(),
        {
            proof {
                temp.lemma_unfold();
            }
            temp.data = f(&temp.data);
            proof {
                done = done.push(temp.data);
            }
            match &mut temp.next {
                None => {
                    break;
                },
                Some(rest) => {
                    temp = rest;
                },
            }
        }
        self
    }

    /// Removes every cell whose element `p` rejects and keeps the others in
    /// their order; `p` is asked once for each element, head first. A chain
    /// cannot be empty: where `p` rejects every element, the chain is left
    /// as it was.
    pub fn filter(&mut self, p: impl Fn(&T) -> bool) -> (chain: &mut Self)
        requires
            old(self)@.len() <= usize::MAX,
            forall|i: int| 0 <= i < old(self)@.len() ==> call_requires(p, (&old(self)@[i],)),
        ensures
            exists|keep: Seq<bool>| #[trigger]
                is_verdict(p, old(self)@, keep) && chain@ == filtered(old(self)@, keep),
            *final(self) == *final(chain),
    {
        let ghost whole = self@;
        let ghost mut keep: Seq<bool> = Seq::empty();
        // The cells in front of the first element that `p` accepts.
        let mut lead: usize = 0;
        let mut temp = &*self;
        loop
            invariant_except_break
                keep.len() == lead,
                forall|i: int| 0 <= i < keep.len() ==> !keep[i],
            invariant
                whole == self@,
                whole == old(self)@,
                whole.len() <= usize::MAX,
                forall|i: int| 0 <= i < whole.len() ==> call_requires(p, (&whole[i],)),
                lead < whole.len(),
                temp@ == whole.skip(lead as int),
                forall|i: int| 0 <= i < keep.len() ==> call_ensures(p, (&whole[i],), #[trigger] keep[i]),
            ensures
                keep.len() == lead + 1,
                lead < whole.len(),
                keep[lead as int],
                forall|i: int| 0 <= i < lead ==> !keep[i],
            decreases temp@.len(),
        {
            proof {
                temp.lemma_unfold();
            }
            let accepted = p(&temp.data);
            proof {
                keep = keep.push(accepted);
            }
            if accepted {
                break;
            }
            match &temp.next {
                None => {
                    proof {
                        lemma_retained_none(whole, keep);
                        assert(is_verdict(p, whole, keep));
                    }
                    return self;
                },
                Some(rest) => {
                    temp = rest;
                    lead += 1;
                },
            }
        }
        let mut gone: usize = 0;
        while gone < lead
            invariant
                gone <= lead < whole.len(),
                self@ == whole.skip(gone as int),
            decreases lead - gone,
        {
            self.pop();
            gone += 1;
        }
        // `prev` is the last cell that stays; `front` holds the elements
        // that stay in front of it, and `keep` the answers given so far.
        let ghost mut front: Seq<T> = Seq::empty();
        proof {
            self.lemma_unfold();
            lemma_retained_none(whole.take(lead as int), keep.drop_last());
            lemma_retained_push(whole.take(lead as int), keep.drop_last(), whole[lead as int], true);
            assert(whole.take(lead as int).push(whole[lead as int]) =~= whole.take(lead + 1));
            assert(keep.drop_last().push(true) =~= keep);
        }
        let mut prev = &mut *self;
        loop
            invariant_except_break
                keep.len() <= whole.len(),
                prev@.drop_first() == whole.skip(keep.len() as int),
                front.push(prev.data) == retained(whole.take(keep.len() as int), keep),
                after_borrow(*self)@ == front + final(prev)@,
            invariant
                whole == old(self)@,
                forall|i: int| 0 <= i < whole.len() ==> call_requires(p, (&whole[i],)),
                forall|i: int| 0 <= i < keep.len() ==> call_ensures(p, (&whole[i],), #[trigger] keep[i]),
            ensures
                keep.len() == whole.len(),
                retained(whole, keep).len() > 0,
                after_borrow(*self)@ == retained(whole, keep),
            decreases whole.len() - keep.len(),
        {
            let ghost here = *prev;
            let ghost seen = keep;
            proof {
                here.lemma_unfold();
            }
            let answer: Option<bool> = match &prev.next {
                None => None,
                Some(cell) => {
                    proof {
                        cell.lemma_unfold();
                    }
                    Some(p(&cell.data))
                },
            };
            match answer {
                None => {
                    proof {
                        assert(whole.skip(keep.len() as int).len() == 0);
                        assert(whole.take(keep.len() as int) =~= whole);
                    }
                    break;
                },
                Some(true) => {
                    proof {
                        keep = keep.push(true);
                    }
                    match &mut prev.next {
                        None => {
                            break;
                        },
                        Some(rest) => {
                            proof {
                                lemma_retained_push(whole.take(seen.len() as int), seen, rest.data, true);
                                assert(whole.take(seen.len() as int).push(rest.data) =~= whole.take(
                                    keep.len() as int,
                                ));
                                front = front.push(here.data);
                            }
                            prev = rest;
                        },
                    }
                },
                Some(false) => {
                    proof {
                        keep = keep.push(false);
                    }
                    match prev.next.take() {
                        None => {},
                        Some(mut cell) => {
                            proof {
                                lemma_retained_push(whole.take(seen.len() as int), seen, cell.data, false);
                                assert(whole.take(seen.len() as int).push(cell.data) =~= whole.take(
                                    keep.len() as int,
                                ));
                            }
                            prev.next = cell.next.take();
                        },
                    }
                },
            }
        }
        proof {
            assert(is_verdict(p, whole, keep));
        }
        self
    }
}

impl<T: Clone> Clone for Node<T> {
    /// A chain of its own that holds a copy of each element, in the same
    /// order.
    fn clone(&self) -> (copy: Self)
        ensures
            copy@.len() == self@.len(),
            forall|i: int| 0 <= i < self@.len() ==> cloned(self@[i], #[trigger] copy@[i]),
    {
        let mut copy = Node { next: None, data: self.data.clone() };
        let mut temp = self;
        let mut tail = &mut copy;
        let ghost mut done: Seq<T> = Seq::empty();
        loop
            invariant_except_break
                tail.next is None,
                done.len() < self@.len(),
                temp@ == self@.skip(done.len() as int),
                cloned(self@[done.len() as int], tail.data),
                forall|i: int| 0 <= i < done.len() ==> cloned(self@[i], #[trigger] done[i]),
                after_borrow(copy)@ == done + final(tail)@,
            ensures
                after_borrow(copy)@.len() == self@.len(),
                forall|i: int|
                    0 <= i < self@.len() ==> cloned(self@[i], #[trigger] after_borrow(copy)@[i]),
            decreases temp@.len(),
        {
            let ghost here = *tail;
            match &temp.next {
                None => {
                    break;
                },
                Some(rest) => {
                    proof {
                        rest.lemma_unfold();
                        assert(temp@.drop_first() =~= self@.skip(done.len() as int + 1));
                    }
                    tail.next = Some(Box::new(Node { next: None, data: rest.data.clone() }));
                    let ghost there = *final(tail);
                    match &mut tail.next {
                        None => {
                            break;
                        },
                        Some(cell) => {
                            proof {
                                assert(done + there@ =~= done.push(here.data) + final(cell)@);
                                done = done.push(here.data);
                            }
                            tail = cell;
                        },
                    }
                    temp = rest;
                },
            }
        }
        copy
    }
}

} // verus!
