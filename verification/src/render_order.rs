//! The order in which the entities are to be drawn.

use crate::components::Entity;
use crate::world::{World, WorldView};
use vstd::prelude::*;

verus! {

impl WorldView {
    /// The entity `i` is to be drawn: it is alive, has a place, and has a look.
    pub open spec fn drawable(self, i: int) -> bool {
        &&& 0 <= i < self.entities.len()
        &&& self.entities[i].alive
        &&& self.entities[i].position is Some
        &&& self.entities[i].renderable is Some
    }

    /// The render order of the entity `e`.
    pub open spec fn render_order_of(self, e: Entity) -> int {
        self.entities[e.id as int].renderable->0.render_order as int
    }

    /// `a` is drawn before `b`: it has the higher render order or, with the
    /// same one, the lower identifier. What is drawn later ends up on top.
    pub open spec fn drawn_before(self, a: Entity, b: Entity) -> bool {
        self.render_order_of(a) > self.render_order_of(b) || (self.render_order_of(a) == self.render_order_of(b)
            && a.id < b.id)
    }

    /// `list` holds the entities that are to be drawn, each once, in the
    /// order in which they are to be drawn.
    pub open spec fn is_draw_order(self, list: Seq<Entity>) -> bool {
        &&& forall|k: int| 0 <= k < list.len() ==> self.drawable((#[trigger] list[k]).id as int)
        &&& forall|i: int| #[trigger] self.drawable(i) ==> list.contains(Entity { id: i as usize })
        &&& forall|j: int, k: int| 0 <= j < k < list.len() ==> self.drawn_before(#[trigger] list[j], #[trigger] list[k])
    }
}

impl World {
    /// The entities that are to be drawn, in the order in which they are to
    /// be drawn: by descending render order, so that the lowest is drawn last
    /// and ends up on top; among equals, by ascending identifier.
    pub fn draw_order(&self) -> (list: Vec<Entity>)
        ensures
            self@.is_draw_order(list@),
    {
        let mut list: Vec<Entity> = Vec::new();
        let n = self.entities.len();
        let mut i: usize = 0;
        while i < n
            invariant
                0 <= i <= n,
                n == self.entities@.len(),
                forall|k: int|
                    0 <= k < list@.len() ==> self@.drawable((#[trigger] list@[k]).id as int) && list@[k].id < i,
                forall|m: int| 0 <= m < i && #[trigger] self@.drawable(m) ==> list@.contains(Entity { id: m as usize }),
                forall|j: int, k: int|
                    0 <= j < k < list@.len() ==> self@.drawn_before(#[trigger] list@[j], #[trigger] list@[k]),
            decreases n - i,
        {
            assert(self@.entities[i as int] == self.entities@[i as int]@);
            let order = match self.entities[i].renderable {
                Some(look) => {
                    if self.entities[i].alive && self.entities[i].position.is_some() {
                        Some(look.render_order)
                    } else {
                        None
                    }
                },
                None => None,
            };
            match order {
                Some(order) => {
                    let e = Entity { id: i };
                    let mut p: usize = 0;
                    while p < list.len() && self.order_at(&list, p) >= order
                        invariant
                            0 <= p <= list@.len(),
                            forall|k: int| 0 <= k < list@.len() ==> self@.drawable((#[trigger] list@[k]).id as int),
                            forall|k: int| 0 <= k < p ==> self@.render_order_of(#[trigger] list@[k]) >= order,
                        decreases list@.len() - p,
                    {
                        p = p + 1;
                    }
                    let ghost before = list@;
                    list.insert(p, e);
                    proof {
                        assert(list@ == before.insert(p as int, e));
                        assert forall|k: int| 0 <= k < list@.len() implies self@.drawable(
                            (#[trigger] list@[k]).id as int,
                        ) && list@[k].id < i + 1 by {
                            if k < p {
                                assert(list@[k] == before[k]);
                            } else if k > p {
                                assert(list@[k] == before[k - 1]);
                            }
                        }
                        assert forall|m: int| 0 <= m < i + 1 && #[trigger] self@.drawable(m) implies list@.contains(
                            Entity { id: m as usize },
                        ) by {
                            if m < i {
                                let at = choose|at: int| 0 <= at < before.len() && before[at] == (Entity { id: m as usize });
                                if at < p {
                                    assert(list@[at] == before[at]);
                                } else {
                                    assert(list@[at + 1] == before[at]);
                                }
                            } else {
                                assert(list@[p as int] == e);
                            }
                        }
                        assert forall|j: int, k: int| 0 <= j < k < list@.len() implies self@.drawn_before(
                            #[trigger] list@[j],
                            #[trigger] list@[k],
                        ) by {
                            let a = if j < p {
                                before[j]
                            } else if j == p {
                                e
                            } else {
                                before[j - 1]
                            };
                            let b = if k < p {
                                before[k]
                            } else if k == p {
                                e
                            } else {
                                before[k - 1]
                            };
                            assert(list@[j] == a && list@[k] == b);
                            if k == p {
                                assert(self@.render_order_of(before[j]) >= order);
                            } else if j == p {
                                if k - 1 > p {
                                    assert(self@.drawn_before(before[p as int], before[k - 1]));
                                }
                            } else if j < p {
                                if k < p {
                                    assert(self@.drawn_before(before[j], before[k]));
                                } else {
                                    assert(self@.drawn_before(before[j], before[k - 1]));
                                }
                            } else {
                                assert(self@.drawn_before(before[j - 1], before[k - 1]));
                            }
                        }
                    }
                },
                None => {},
            }
            i = i + 1;
        }
        list
    }

    /// The render order of the `p`-th entity of `list`.
    fn order_at(&self, list: &Vec<Entity>, p: usize) -> (order: i32)
        requires
            p < list@.len(),
            self@.drawable(list@[p as int].id as int),
        ensures
            order == self@.render_order_of(list@[p as int]),
    {
        let id = list[p].id;
        assert(self@.entities[id as int] == self.entities@[id as int]@);
        match self.entities[id].renderable {
            Some(look) => look.render_order,
            None => 0,
        }
    }
}

} // verus!
