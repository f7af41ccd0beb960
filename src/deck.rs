use vstd::prelude::*;

verus! {

/// Relies on `<[T]>::swap`: exchanges the elements at `a` and `b`, leaving the
/// rest in place; it panics when either index is out of bounds.
pub assume_specification<T>[ <[T]>::swap ](s: &mut [T], a: usize, b: usize)
    requires
        a < old(s)@.len(),
        b < old(s)@.len(),
    ensures
        final(s)@ == old(s)@.update(a as int, old(s)@[b as int]).update(b as int, old(s)@[a as int]),
;

/// Relies on rand's `Rng::shuffle`, which permutes the slice in place by
/// swapping its elements: the same items remain, in an order that the
/// generator chooses.
#[verifier::external_body]
fn permute<C, R: rand::Rng>(rng: &mut R, items: &mut Vec<C>)
    ensures
        final(items)@.len() == old(items)@.len(),
        final(items)@.to_multiset() == old(items)@.to_multiset(),
{
    rng.shuffle(items.as_mut_slice());
}

/// Swapping two positions of a sequence keeps its multiset of items.
proof fn lemma_swap_multiset<C>(s: Seq<C>, a: int, b: int)
    requires
        0 <= a < s.len(),
        0 <= b < s.len(),
    ensures
        s.update(a, s[b]).update(b, s[a]).to_multiset() == s.to_multiset(),
{
    broadcast use vstd::seq_lib::group_to_multiset_ensures;

    let t = s.update(a, s[b]);
    assert(t.to_multiset() == s.to_multiset().insert(s[b]).remove(s[a]));
    assert(t.update(b, s[a]).to_multiset() == t.to_multiset().insert(s[a]).remove(t[b]));
    if a == b {
        assert(s.update(a, s[b]) =~= s);
    } else {
        assert(t[b] == s[b]);
    }
}

/// An ordered collection of items split by a cursor: the items before the
/// cursor have been drawn or discarded, the items from the cursor on are
/// still drawable, in the order in which they will be drawn.
pub struct Deck<C> {
    deck: Vec<C>,
    cur: usize,
}

impl<C> Deck<C> {
    /// Every item the deck holds, drawn ones first.
    pub closed spec fn items(&self) -> Seq<C> {
        self.deck@
    }

    /// The number of items that have been drawn or discarded.
    pub closed spec fn cursor(&self) -> nat {
        self.cur as nat
    }

    /// The cursor never passes the end of the items.
    pub closed spec fn wf(&self) -> bool {
        self.cur <= self.deck@.len()
    }

    /// The items that are still drawable, in drawing order.
    pub open spec fn rest(&self) -> Seq<C> {
        self.items().subrange(self.cursor() as int, self.items().len() as int)
    }

    /// The items that have been drawn or discarded.
    pub open spec fn spent(&self) -> Seq<C> {
        self.items().subrange(0, self.cursor() as int)
    }

    /// A well-formed deck's cursor lies between zero and the number of items.
    pub proof fn lemma_cursor_bounded(&self)
        requires
            self.wf(),
        ensures
            self.cursor() <= self.items().len(),
    {
    }

    /// An empty deck.
    pub fn new() -> (d: Deck<C>)
        ensures
            d.wf(),
            d.items() == Seq::<C>::empty(),
            d.cursor() == 0,
    {
        Deck { deck: Vec::new(), cur: 0 }
    }

    /// A deck holding `cards` in their given order, nothing drawn yet.
    pub fn from_cards(cards: Vec<C>) -> (d: Deck<C>)
        ensures
            d.wf(),
            d.items() == cards@,
            d.cursor() == 0,
    {
        Deck { deck: cards, cur: 0 }
    }

    /// The number of drawn or discarded items.
    pub fn discarded(&self) -> (r: usize)
        requires
            self.wf(),
        ensures
            r == self.cursor(),
    {
        self.cur
    }

    /// The number of items that are still drawable.
    pub fn left(&self) -> (r: usize)
        requires
            self.wf(),
        ensures
            r == self.items().len() - self.cursor(),
    {
        self.deck.len() - self.cur
    }
}


impl<C> Deck<C> {
    /// Moves every drawable item on which `fun` holds into the drawn part,
    /// just after the items drawn before, and returns how many it moved.
    /// `fun` is called once on each drawable item; drawn items are left
    /// alone. The order of the moved items, and of those left drawable, is
    /// not kept.
    pub fn discard<F: Fn(&C) -> bool>(&mut self, fun: F) -> (count: usize)
        requires
            old(self).wf(),
            forall|i: int|
                old(self).cursor() <= i < old(self).items().len() ==> call_requires(
                    fun,
                    (&old(self).items()[i],),
                ),
        ensures
            final(self).wf(),
            final(self).items().len() == old(self).items().len(),
            final(self).spent().subrange(0, old(self).cursor() as int) == old(self).spent(),
            final(self).cursor() == old(self).cursor() + count,
            final(self).items().subrange(old(self).cursor() as int, final(self).items().len() as int).to_multiset()
                == old(self).rest().to_multiset(),
            forall|i: int|
                old(self).cursor() <= i < final(self).cursor() ==> call_ensures(
                    fun,
                    (&#[trigger] final(self).items()[i],),
                    true,
                ),
            forall|i: int|
                final(self).cursor() <= i < final(self).items().len() ==> call_ensures(
                    fun,
                    (&#[trigger] final(self).items()[i],),
                    false,
                ),
    {
        let ghost start = self.cur as int;
        let ghost orig = self.deck@;
        let mut count: usize = 0;
        let mut i: usize = self.cur;
        assert forall|j: int| start <= j < orig.len() implies call_requires(fun, (&#[trigger] orig[j],)) by {
            assert(old(self).items()[j] == orig[j]);
        }
        while i < self.deck.len()
            invariant
                0 <= start <= self.cur <= i <= self.deck@.len(),
                self.deck@.len() == orig.len(),
                self.cur == start + count,
                self.deck@.subrange(0, start) == orig.subrange(0, start),
                self.deck@.subrange(start, self.deck@.len() as int).to_multiset()
                    == orig.subrange(start, orig.len() as int).to_multiset(),
                self.deck@.subrange(i as int, self.deck@.len() as int)
                    == orig.subrange(i as int, orig.len() as int),
                forall|j: int| start <= j < orig.len() ==> call_requires(fun, (&orig[j],)),
                forall|j: int| start <= j < self.cur ==> call_ensures(fun, (&#[trigger] self.deck@[j],), true),
                forall|j: int| self.cur <= j < i ==> call_ensures(fun, (&#[trigger] self.deck@[j],), false),
            decreases self.deck@.len() - i,
        {
            assert(self.deck@[i as int] == orig[i as int]) by {
                assert(self.deck@.subrange(i as int, self.deck@.len() as int)[0] == self.deck@[i as int]);
            }
            if fun(&self.deck[i]) {
                let ghost before = self.deck@;
                let c = self.cur;
                self.deck.as_mut_slice().swap(i, c);
                proof {
                    lemma_swap_multiset(before.subrange(start, before.len() as int), i - start, c - start);
                    assert(before.update(i as int, before[c as int]).update(c as int, before[i as int]).subrange(start, before.len() as int)
                        =~= before.subrange(start, before.len() as int).update(i - start, before[c as int]).update(c - start, before[i as int]));
                    assert(self.deck@.subrange(0, start) =~= before.subrange(0, start));
                    assert(self.deck@.subrange(i + 1, self.deck@.len() as int) =~= before.subrange(i + 1, before.len() as int));
                    assert(orig.subrange(i + 1, orig.len() as int) =~= orig.subrange(i as int, orig.len() as int).subrange(1, orig.len() - i));
                    assert(before.subrange(i + 1, before.len() as int) =~= before.subrange(i as int, before.len() as int).subrange(1, before.len() - i));
                }
                self.cur = c + 1;
                count = count + 1;
            } else {
                proof {
                    assert(orig.subrange(i + 1, orig.len() as int) =~= orig.subrange(i as int, orig.len() as int).subrange(1, orig.len() - i));
                    assert(self.deck@.subrange(i + 1, self.deck@.len() as int) =~= self.deck@.subrange(i as int, self.deck@.len() as int).subrange(1, self.deck@.len() - i));
                }
            }
            i = i + 1;
        }
        proof {
            assert(self.deck@.subrange(0, self.cur as int).subrange(0, start) =~= self.deck@.subrange(0, start));
        }
        count
    }
}

impl<C> Deck<C> {
    /// Puts `card` at the cursor, as the next item to draw, and moves the item
    /// that stood there to the end. The cursor does not move.
    pub fn push(&mut self, card: C)
        requires
            old(self).wf(),
        ensures
            final(self).wf(),
            final(self).cursor() == old(self).cursor(),
            final(self).items() == if old(self).cursor() == old(self).items().len() {
                old(self).items().push(card)
            } else {
                old(self).items().update(old(self).cursor() as int, card).push(
                    old(self).items()[old(self).cursor() as int],
                )
            },
    {
        let last = self.deck.len();
        self.deck.push(card);
        let c = self.cur;
        self.deck.as_mut_slice().swap(c, last);
        proof {
            if c < last {
                assert(self.deck@ =~= old(self).deck@.update(c as int, card).push(old(self).deck@[c as int]));
            } else {
                assert(self.deck@ =~= old(self).deck@.push(card));
            }
        }
    }

    /// Takes an item out of the deck: the next drawable one, whose place the
    /// last item takes; or, when nothing is drawable, the last drawn one.
    /// Returns `None` on an empty deck, which it leaves as it was.
    pub fn pop(&mut self) -> (r: Option<C>)
        requires
            old(self).wf(),
        ensures
            final(self).wf(),
            old(self).items().len() == 0 ==> r is None && *final(self) == *old(self),
            old(self).cursor() < old(self).items().len() ==> {
                &&& r == Some(old(self).items()[old(self).cursor() as int])
                &&& final(self).cursor() == old(self).cursor()
                &&& final(self).items() == old(self).items().update(
                    old(self).cursor() as int,
                    old(self).items().last(),
                ).drop_last()
            },
            0 < old(self).items().len() == old(self).cursor() ==> {
                &&& r == Some(old(self).items().last())
                &&& final(self).cursor() == old(self).cursor() - 1
                &&& final(self).items() == old(self).items().drop_last()
            },
    {
        if self.deck.is_empty() {
            None
        } else {
            let last = self.deck.len() - 1;
            let c = self.cur;
            if c <= last {
                self.deck.as_mut_slice().swap(c, last);
            } else {
                self.cur = last;
            }
            proof {
                if c <= last {
                    assert(self.deck@.drop_last() =~= old(self).deck@.update(c as int, old(self).deck@.last()).drop_last());
                }
            }
            self.deck.pop()
        }
    }

    /// Draws the next item: moves the cursor past it and returns it. Returns
    /// `None`, changing nothing, when no item is drawable.
    pub fn draw(&mut self) -> (r: Option<&C>)
        requires
            old(self).wf(),
        ensures
            final(self).wf(),
            final(self).items() == old(self).items(),
            old(self).cursor() < old(self).items().len() ==> {
                &&& r == Some(&old(self).items()[old(self).cursor() as int])
                &&& final(self).cursor() == old(self).cursor() + 1
            },
            old(self).cursor() == old(self).items().len() ==> {
                &&& r is None
                &&& final(self).cursor() == old(self).cursor()
            },
    {
        let cur = self.cur;
        if cur < self.deck.len() {
            self.cur = cur + 1;
            Some(&self.deck[cur])
        } else {
            None
        }
    }

    /// The next item to draw, if any; the deck is not changed.
    pub fn peek(&self) -> (r: Option<&C>)
        requires
            self.wf(),
        ensures
            self.cursor() < self.items().len() ==> r == Some(&self.items()[self.cursor() as int]),
            self.cursor() == self.items().len() ==> r is None,
    {
        if self.cur < self.deck.len() {
            Some(&self.deck[self.cur])
        } else {
            None
        }
    }

    /// Puts every item, drawn or not, back into play in an order that `rng`
    /// chooses, and resets the cursor.
    pub fn shuffle<R: rand::Rng>(&mut self, rng: &mut R)
        requires
            old(self).wf(),
        ensures
            final(self).wf(),
            final(self).cursor() == 0,
            final(self).items().len() == old(self).items().len(),
            final(self).items().to_multiset() == old(self).items().to_multiset(),
    {
        permute(rng, &mut self.deck);
        self.cur = 0;
    }

    /// Draws the next item as `draw` does; when nothing is drawable but the
    /// deck holds items, shuffles every item back into play first and draws
    /// the first of them. Returns `None`, changing nothing, on an empty deck.
    pub fn draw_and_suffle<R: rand::Rng>(&mut self, rng: &mut R) -> (r: Option<&C>)
        requires
            old(self).wf(),
        ensures
            final(self).wf(),
            old(self).items().len() == 0 ==> r is None && *final(self) == *old(self),
            old(self).cursor() < old(self).items().len() ==> {
                &&& r == Some(&old(self).items()[old(self).cursor() as int])
                &&& final(self).items() == old(self).items()
                &&& final(self).cursor() == old(self).cursor() + 1
            },
            0 < old(self).items().len() == old(self).cursor() ==> {
                &&& final(self).items().len() == old(self).items().len()
                &&& final(self).items().to_multiset() == old(self).items().to_multiset()
                &&& final(self).cursor() == 1
                &&& r == Some(&final(self).items()[0])
            },
    {
        let cur = self.cur;
        if self.deck.is_empty() {
            None
        } else if cur < self.deck.len() {
            self.cur = cur + 1;
            Some(&self.deck[cur])
        } else {
            permute(rng, &mut self.deck);
            self.cur = 1;
            Some(&self.deck[0])
        }
    }

    /// Splits the deck at the cursor: the first deck holds the drawn items, all
    /// still drawn; the second holds the drawable ones, in the same order,
    /// none drawn.
    pub fn split(self) -> (r: (Deck<C>, Deck<C>))
        requires
            self.wf(),
        ensures
            r.0.wf(),
            r.1.wf(),
            r.0.items() == self.spent(),
            r.0.cursor() == self.cursor(),
            r.1.items() == self.rest(),
            r.1.cursor() == 0,
            r.0.items() + r.1.items() == self.items(),
    {
        let Deck { deck: mut cards, cur } = self;
        let other_deck = cards.split_off(cur);
        proof {
            assert(cards@ + other_deck@ =~= self.deck@);
        }
        (Deck { deck: cards, cur }, Deck::from_cards(other_deck))
    }
}

} // verus!
