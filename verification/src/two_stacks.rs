use vstd::prelude::*;

verus! {

/// How `last` combines two partial results: the newer one wins where it
/// holds a value.
pub open spec fn newer_of(older: Option<bool>, newer: Option<bool>) -> Option<bool> {
    if newer is Some {
        newer
    } else {
        older
    }
}

/// The aggregate of a window, computed anew from its parts, oldest first.
pub open spec fn aggregate_of(parts: Seq<Option<bool>>) -> Option<bool>
    decreases parts.len(),
{
    if parts.len() == 0 {
        None
    } else {
        newer_of(aggregate_of(parts.drop_last()), parts.last())
    }
}

/// The aggregate of two windows in a row is the combination of their
/// aggregates.
pub proof fn lemma_aggregate_concat(older: Seq<Option<bool>>, newer: Seq<Option<bool>>)
    ensures
        aggregate_of(older + newer) == newer_of(aggregate_of(older), aggregate_of(newer)),
    decreases newer.len(),
{
    if newer.len() == 0 {
        assert(older + newer =~= older);
    } else {
        lemma_aggregate_concat(older, newer.drop_last());
        assert((older + newer).drop_last() =~= older + newer.drop_last());
    }
}

/// The aggregate of a single part is that part.
pub proof fn lemma_aggregate_one(part: Option<bool>)
    ensures
        aggregate_of(seq![part]) == part,
{
    assert(seq![part].drop_last() =~= Seq::<Option<bool>>::empty());
    assert(aggregate_of(seq![part].drop_last()) == None::<bool>);
}

/// One entry of a stack: a part, and the aggregate of the parts from it to
/// the bottom of its stack.
pub type Entry = (Option<bool>, Option<bool>);

/// The parts of the front stack, oldest first: the top of the stack is the
/// oldest.
pub open spec fn front_parts(front: Seq<Entry>) -> Seq<Option<bool>> {
    Seq::new(front.len(), |j: int| front[front.len() - 1 - j].0)
}

/// The parts of the back stack, oldest first: the top of the stack is the
/// newest.
pub open spec fn back_parts(back: Seq<Entry>) -> Seq<Option<bool>> {
    Seq::new(back.len(), |j: int| back[j].0)
}

/// Every entry of the front stack holds the aggregate of its part and the
/// newer parts below it.
pub open spec fn front_sums(front: Seq<Entry>) -> bool {
    forall|i: int|
        0 <= i < front.len() ==> (#[trigger] front[i]).1 == aggregate_of(
            front_parts(front).subrange(front.len() - 1 - i, front.len() as int),
        )
}

/// Every entry of the back stack holds the aggregate of its part and the
/// older parts below it.
pub open spec fn back_sums(back: Seq<Entry>) -> bool {
    forall|i: int|
        0 <= i < back.len() ==> (#[trigger] back[i]).1 == aggregate_of(
            back_parts(back).subrange(0, i + 1),
        )
}

/// A queue of partial results that answers for the aggregate of all of them
/// without visiting them: parts enter at the back and leave at the front.
pub struct TwoStacks {
    front: Vec<Entry>,
    back: Vec<Entry>,
}

impl View for TwoStacks {
    type V = Seq<Option<bool>>;

    closed spec fn view(&self) -> Seq<Option<bool>> {
        front_parts(self.front@) + back_parts(self.back@)
    }
}

pub(crate) fn combine(older: Option<bool>, newer: Option<bool>) -> (combined: Option<bool>)
    ensures
        combined == newer_of(older, newer),
{
    if newer.is_some() {
        newer
    } else {
        older
    }
}

fn top_sum(stack: &Vec<Entry>) -> (sum: Option<bool>)
    ensures
        sum == (if stack@.len() == 0 {
            None
        } else {
            stack@.last().1
        }),
{
    if stack.len() == 0 {
        None
    } else {
        stack[stack.len() - 1].1
    }
}

impl TwoStacks {
    /// Every entry holds the aggregate that it stands for.
    pub closed spec fn wf(&self) -> bool {
        &&& front_sums(self.front@)
        &&& back_sums(self.back@)
        &&& self.front@.len() + self.back@.len() <= usize::MAX
    }

    /// An empty queue.
    pub fn new() -> (queue: TwoStacks)
        ensures
            queue.wf(),
            queue@ == Seq::<Option<bool>>::empty(),
    {
        let queue = TwoStacks { front: Vec::new(), back: Vec::new() };
        assert(queue@ =~= Seq::<Option<bool>>::empty());
        queue
    }

    /// The number of parts.
    pub fn len(&self) -> (n: usize)
        requires
            self.wf(),
        ensures
            n == self@.len(),
    {
        self.front.len() + self.back.len()
    }

    /// Adds `part` as the newest.
    pub fn push(&mut self, part: Option<bool>)
        requires
            old(self).wf(),
            old(self)@.len() < usize::MAX,
        ensures
            final(self).wf(),
            final(self)@ == old(self)@.push(part),
    {
        let ghost before = self.back@;
        let sum = combine(top_sum(&self.back), part);
        self.back.push((part, sum));
        proof {
            let after = self.back@;
            assert(back_parts(after) =~= back_parts(before).push(part));
            assert forall|i: int| 0 <= i < after.len() implies (#[trigger] after[i]).1
                == aggregate_of(back_parts(after).subrange(0, i + 1)) by {
                if i < before.len() {
                    assert(back_parts(after).subrange(0, i + 1) =~= back_parts(before).subrange(
                        0,
                        i + 1,
                    ));
                    assert(after[i] == before[i]);
                } else {
                    let all = back_parts(after).subrange(0, i + 1);
                    assert(all =~= back_parts(after));
                    assert(all.drop_last() =~= back_parts(before));
                    assert(all.last() == part);
                    assert(aggregate_of(all) == newer_of(
                        aggregate_of(all.drop_last()),
                        all.last(),
                    ));
                    if before.len() == 0 {
                        assert(aggregate_of(back_parts(before)) == None::<bool>);
                    }
                    if before.len() > 0 {
                        assert(back_parts(before).subrange(0, before.len() as int)
                            =~= back_parts(before));
                        assert(before.last() == before[before.len() - 1]);
                    }
                }
            }
            assert(self@ =~= old(self)@.push(part));
        }
    }

    /// Moves the parts of the back stack to the empty front stack, so that
    /// the oldest comes to lie on top.
    fn flip(&mut self)
        requires
            old(self).wf(),
            old(self).front@.len() == 0,
        ensures
            final(self).wf(),
            final(self)@ == old(self)@,
            final(self).back@.len() == 0,
            final(self).front@.len() == old(self).back@.len(),
    {
        let ghost whole = self@;
        assert(whole =~= back_parts(self.back@));
        while self.back.len() > 0
            invariant
                front_sums(self.front@),
                back_sums(self.back@),
                self.front@.len() + self.back@.len() == whole.len(),
                self.front@.len() + self.back@.len() == old(self).back@.len(),
                whole.len() <= usize::MAX,
                back_parts(self.back@) + front_parts(self.front@) == whole,
            decreases self.back@.len(),
        {
            let ghost front_before = self.front@;
            let ghost back_before = self.back@;
            let (part, _) = self.back.pop().unwrap();
            let sum = combine(part, top_sum(&self.front));
            self.front.push((part, sum));
            proof {
                let front_after = self.front@;
                let back_after = self.back@;
                assert(front_parts(front_after) =~= seq![part] + front_parts(front_before));
                assert(back_parts(back_before) =~= back_parts(back_after).push(part));
                assert(back_parts(back_after) + front_parts(front_after) =~= whole);
                assert forall|i: int| 0 <= i < back_after.len() implies (#[trigger] back_after[i]).1
                    == aggregate_of(back_parts(back_after).subrange(0, i + 1)) by {
                    assert(back_after[i] == back_before[i]);
                    assert(back_parts(back_after).subrange(0, i + 1) =~= back_parts(
                        back_before,
                    ).subrange(0, i + 1));
                }
                assert forall|i: int| 0 <= i < front_after.len() implies (
                #[trigger] front_after[i]).1 == aggregate_of(
                    front_parts(front_after).subrange(
                        front_after.len() - 1 - i,
                        front_after.len() as int,
                    ),
                ) by {
                    if i < front_before.len() {
                        assert(front_after[i] == front_before[i]);
                        assert(front_parts(front_after).subrange(
                            front_after.len() - 1 - i,
                            front_after.len() as int,
                        ) =~= front_parts(front_before).subrange(
                            front_before.len() - 1 - i,
                            front_before.len() as int,
                        ));
                    } else {
                        assert(front_parts(front_after).subrange(0, front_after.len() as int)
                            =~= seq![part] + front_parts(front_before));
                        lemma_aggregate_concat(seq![part], front_parts(front_before));
                        lemma_aggregate_one(part);
                        if front_before.len() > 0 {
                            assert(front_parts(front_before).subrange(
                                0,
                                front_before.len() as int,
                            ) =~= front_parts(front_before));
                            assert(front_before.last() == front_before[front_before.len() - 1]);
                        }
                    }
                }
            }
        }
        assert(self@ =~= whole);
    }

    /// Takes the oldest part out and returns it.
    pub fn pop(&mut self) -> (part: Option<bool>)
        requires
            old(self).wf(),
            old(self)@.len() > 0,
        ensures
            final(self).wf(),
            part == old(self)@[0],
            final(self)@ == old(self)@.subrange(1, old(self)@.len() as int),
    {
        if self.front.len() == 0 {
            self.flip();
        }
        let ghost front_before = self.front@;
        let ghost whole = self@;
        let (part, _) = self.front.pop().unwrap();
        proof {
            let front_after = self.front@;
            assert(front_parts(front_after) =~= front_parts(front_before).subrange(
                1,
                front_before.len() as int,
            ));
            assert forall|i: int| 0 <= i < front_after.len() implies (#[trigger] front_after[i]).1
                == aggregate_of(
                front_parts(front_after).subrange(
                    front_after.len() - 1 - i,
                    front_after.len() as int,
                ),
            ) by {
                assert(front_after[i] == front_before[i]);
                assert(front_parts(front_after).subrange(
                    front_after.len() - 1 - i,
                    front_after.len() as int,
                ) =~= front_parts(front_before).subrange(
                    front_before.len() - 1 - i,
                    front_before.len() as int,
                ));
            }
            assert(self@ =~= whole.subrange(1, whole.len() as int));
        }
        part
    }

    /// The parts, oldest first.
    pub fn parts(&self) -> (parts: Vec<Option<bool>>)
        ensures
            parts@ == self@,
    {
        let mut parts: Vec<Option<bool>> = Vec::new();
        let mut j: usize = 0;
        while j < self.front.len()
            invariant
                j <= self.front@.len(),
                parts@ == front_parts(self.front@).subrange(0, j as int),
            decreases self.front@.len() - j,
        {
            parts.push(self.front[self.front.len() - 1 - j].0);
            assert(parts@ =~= front_parts(self.front@).subrange(0, j + 1));
            j += 1;
        }
        assert(parts@ =~= front_parts(self.front@));
        let mut k: usize = 0;
        while k < self.back.len()
            invariant
                k <= self.back@.len(),
                parts@ == front_parts(self.front@) + back_parts(self.back@).subrange(0, k as int),
            decreases self.back@.len() - k,
        {
            parts.push(self.back[k].0);
            assert(parts@ =~= front_parts(self.front@) + back_parts(self.back@).subrange(
                0,
                k + 1,
            ));
            k += 1;
        }
        assert(parts@ =~= self@);
        parts
    }

    /// The aggregate of all parts: the sums on top of the two stacks,
    /// combined.
    pub fn query(&self) -> (aggregate: Option<bool>)
        requires
            self.wf(),
        ensures
            aggregate == aggregate_of(self@),
    {
        proof {
            lemma_aggregate_concat(front_parts(self.front@), back_parts(self.back@));
            if self.front@.len() > 0 {
                assert(front_parts(self.front@).subrange(0, self.front@.len() as int)
                    =~= front_parts(self.front@));
                assert(self.front@.last() == self.front@[self.front@.len() - 1]);
            }
            if self.back@.len() > 0 {
                assert(back_parts(self.back@).subrange(0, self.back@.len() as int) =~= back_parts(
                    self.back@,
                ));
                assert(self.back@.last() == self.back@[self.back@.len() - 1]);
            }
        }
        combine(top_sum(&self.front), top_sum(&self.back))
    }
}

} // verus!
