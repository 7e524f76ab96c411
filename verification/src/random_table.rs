//! A table of named choices, each drawn with a probability in proportion to
//! its weight.

use crate::rng::roll_dice;
use vstd::prelude::*;

verus! {

broadcast use vstd::string::to_string_from_display_ensures_for_str;

/// One choice of a table.
pub struct RandomEntry {
    pub name: String,
    pub weight: i32,
}

/// The choices of a table in their order, and the sum of their weights.
pub struct RandomTable {
    pub entries: Vec<RandomEntry>,
    pub total_weight: i32,
}

/// The table `t` with one more entry at its end. An entry without a
/// positive weight is not added.
pub open spec fn with_entry(t: Seq<(Seq<char>, int)>, name: Seq<char>, weight: int) -> Seq<(Seq<char>, int)> {
    if weight > 0 {
        t.push((name, weight))
    } else {
        t
    }
}

/// The sum of the weights of the first `k` entries.
pub open spec fn weight_before(t: Seq<(Seq<char>, int)>, k: int) -> int
    decreases k,
{
    if k <= 0 {
        0
    } else {
        weight_before(t, k - 1) + t[k - 1].1
    }
}

/// The sum of all weights.
pub open spec fn total_weight_of(t: Seq<(Seq<char>, int)>) -> int {
    weight_before(t, t.len() as int)
}

/// The entry, from the `k`-th on, that the number `roll` falls on when the
/// entries are laid end to end, each as long as its weight.
pub open spec fn falls_on(t: Seq<(Seq<char>, int)>, roll: int, k: int) -> Option<int>
    decreases t.len() - k,
{
    if k < 0 || k >= t.len() {
        None
    } else if roll < t[k].1 {
        Some(k)
    } else {
        falls_on(t, roll - t[k].1, k + 1)
    }
}

/// The name drawn from `t` for the number `roll`: that of the entry that
/// `roll` falls on, and `None` where it falls on none.
pub open spec fn drawn_from(t: Seq<(Seq<char>, int)>, roll: int) -> Seq<char> {
    match falls_on(t, roll, 0) {
        Some(k) => t[k].0,
        None => "None"@,
    }
}

/// Every weight is positive.
pub open spec fn weights_positive(t: Seq<(Seq<char>, int)>) -> bool {
    forall|k: int| 0 <= k < t.len() ==> (#[trigger] t[k]).1 > 0
}

impl View for RandomTable {
    type V = Seq<(Seq<char>, int)>;

    /// The entries as pairs of name and weight.
    open spec fn view(&self) -> Seq<(Seq<char>, int)> {
        Seq::new(self.entries@.len(), |k: int| (self.entries@[k].name@, self.entries@[k].weight as int))
    }
}

impl RandomTable {
    /// Every weight is positive, and `total_weight` is their sum.
    pub open spec fn wf(&self) -> bool {
        &&& weights_positive(self@)
        &&& self.total_weight == total_weight_of(self@)
    }

    /// The empty table.
    pub fn new() -> (table: RandomTable)
        ensures
            table@ == Seq::<(Seq<char>, int)>::empty(),
            table.total_weight == 0,
            table.wf(),
    {
        let table = RandomTable { entries: Vec::new(), total_weight: 0 };
        assert(table@ =~= Seq::<(Seq<char>, int)>::empty());
        table
    }

    /// The table with one more entry at its end. An entry without a
    /// positive weight is not added.
    pub fn add(self, name: &str, weight: i32) -> (table: RandomTable)
        requires
            self.wf(),
            self.total_weight + weight <= i32::MAX,
        ensures
            table.wf(),
            table@ == with_entry(self@, name@, weight as int),
            table.total_weight == if weight > 0 {
                self.total_weight + weight
            } else {
                self.total_weight as int
            },
    {
        if weight <= 0 {
            return self;
        }
        let mut table = self;
        let ghost before = table@;
        proof {
            lemma_weight_nonnegative(before, before.len() as int);
        }
        table.total_weight = table.total_weight + weight;
        table.entries.push(RandomEntry { name: name.to_string(), weight });
        proof {
            assert(table@ =~= before.push((name@, weight as int)));
            lemma_weight_prefix(before, table@, before.len() as int);
        }
        table
    }

    /// The name drawn for the number `roll`.
    pub fn pick(&self, roll: i32) -> (name: String)
        requires
            self.wf(),
        ensures
            name@ == drawn_from(self@, roll as int),
    {
        let mut left: i32 = roll;
        let mut k: usize = 0;
        while k < self.entries.len()
            invariant
                self.wf(),
                0 <= k <= self.entries@.len(),
                falls_on(self@, roll as int, 0) == falls_on(self@, left as int, k as int),
            decreases self.entries@.len() - k,
        {
            assert(self@[k as int].1 > 0);
            if left < self.entries[k].weight {
                return self.entries[k].name.clone();
            }
            left = left - self.entries[k].weight;
            k = k + 1;
        }
        "None".to_string()
    }

    /// Draws a name: `None` from a table without weight, and else the name
    /// for a number rolled between 0 and the total weight, the latter not
    /// included.
    pub fn roll(&self, rng: &mut rltk::RandomNumberGenerator) -> (name: String)
        requires
            self.wf(),
        ensures
            self.total_weight <= 0 ==> name@ == "None"@,
            self.total_weight > 0 ==> exists|roll: int|
                0 <= roll < self.total_weight && name@ == #[trigger] drawn_from(self@, roll),
    {
        if self.total_weight <= 0 {
            return "None".to_string();
        }
        let rolled = if self.total_weight == i32::MAX {
            roll_dice(rng, 1, self.total_weight - 1)
        } else {
            roll_dice(rng, 1, self.total_weight) - 1
        };
        let name = self.pick(rolled);
        assert(name@ == drawn_from(self@, rolled as int));
        name
    }
}

/// Weights that are all positive add up to no less than zero.
pub proof fn lemma_weight_nonnegative(t: Seq<(Seq<char>, int)>, k: int)
    requires
        weights_positive(t),
        0 <= k <= t.len(),
    ensures
        weight_before(t, k) >= 0,
    decreases k,
{
    if k > 0 {
        lemma_weight_nonnegative(t, k - 1);
    }
}

/// The weight of a prefix does not depend on what follows it.
pub proof fn lemma_weight_prefix(short: Seq<(Seq<char>, int)>, long: Seq<(Seq<char>, int)>, k: int)
    requires
        0 <= k <= short.len() <= long.len(),
        forall|j: int| 0 <= j < short.len() ==> short[j] == long[j],
    ensures
        weight_before(short, k) == weight_before(long, k),
    decreases k,
{
    if k > 0 {
        lemma_weight_prefix(short, long, k - 1);
    }
}

/// A number below what is left of the total weight falls on an entry, and
/// on the one whose stretch holds it.
pub proof fn lemma_falls_within(t: Seq<(Seq<char>, int)>, roll: int, k: int)
    requires
        weights_positive(t),
        0 <= k <= t.len(),
        0 <= roll < total_weight_of(t) - weight_before(t, k),
    ensures
        falls_on(t, roll, k) matches Some(j) && k <= j < t.len() && weight_before(t, j) <= roll + weight_before(t, k)
            < weight_before(t, j + 1),
    decreases t.len() - k,
{
    if k >= t.len() {
        assert(total_weight_of(t) == weight_before(t, k));
    } else if roll < t[k].1 {
        assert(weight_before(t, k + 1) == weight_before(t, k) + t[k].1);
    } else {
        assert(weight_before(t, k + 1) == weight_before(t, k) + t[k].1);
        lemma_falls_within(t, roll - t[k].1, k + 1);
    }
}

/// Every number from 0 up to the total weight draws the name of an entry:
/// the entry whose stretch, when the entries are laid end to end, holds the
/// number. So each name is drawn for as many numbers as its weight.
pub proof fn lemma_draw_is_by_weight(t: Seq<(Seq<char>, int)>, roll: int)
    requires
        weights_positive(t),
        0 <= roll < total_weight_of(t),
    ensures
        exists|j: int|
            0 <= j < t.len() && weight_before(t, j) <= roll < weight_before(t, j + 1) && drawn_from(t, roll)
                == (#[trigger] t[j]).0,
{
    lemma_falls_within(t, roll, 0);
    let j = falls_on(t, roll, 0)->0;
    assert(drawn_from(t, roll) == t[j].0);
}

} // verus!
