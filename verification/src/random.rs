//! Random choices: a kind of rock for a wall tile, raffling items by their
//! counts, and shuffling a list. The numbers are drawn by the game engine's
//! generator, `godot::classes::RandomNumberGenerator`, handed in by
//! reference rather than through the engine's handle `godot::obj::Gd`. The
//! range each number is drawn for comes from a function of its own, and what
//! is done with a drawn number is decided by a function that takes the
//! number itself, for every value it may have.
use vstd::prelude::*;

use godot::classes::RandomNumberGenerator;

verus! {

/// Godot's `RandomNumberGenerator`, an engine object that the library only
/// hands on to `randi_range`; nothing inside it is visible here.
#[verifier::external_type_specification]
#[verifier::external_body]
pub struct ExRandomNumberGenerator(RandomNumberGenerator);

/// Godot's `RandomNumberGenerator::randi_range`: a number the engine's
/// generator draws for the range `from..=to`. The bindings do not document
/// the range of the result, so nothing is stated of it.
#[verifier::external_body]
pub(crate) fn randi_range(rng: &mut RandomNumberGenerator, from: i32, to: i32) -> (roll: i32) {
    rng.randi_range(from, to)
}

/// std's `<[T]>::swap`: exchanges the elements at `a` and `b`.
#[verifier::external_body]
fn swap_elements<T>(v: &mut Vec<T>, a: usize, b: usize)
    requires
        a < old(v)@.len(),
        b < old(v)@.len(),
    ensures
        final(v)@ == old(v)@.update(a as int, old(v)@[b as int]).update(b as int, old(v)@[a as int]),
{
    v.swap(a, b);
}

/// The sizes of rock that stand on wall tiles.
#[derive(Clone, Copy, Debug, PartialEq, Eq, Structural)]
pub enum RockType {
    Small,
    Medium,
    Large,
}

/// The number of kinds of rock.
pub const ROCK_TYPE_COUNT: usize = 3;

/// The kinds of rock in order: small, medium, large.
pub open spec fn rock_type_at(i: int) -> RockType {
    if i == 0 {
        RockType::Small
    } else if i == 1 {
        RockType::Medium
    } else {
        RockType::Large
    }
}

impl RockType {
    /// The kind of rock a roll of the generator in `0..=2` picks, in the
    /// order small, medium, large.
    pub fn from_roll(roll: i32) -> (r: RockType)
        requires
            0 <= roll < ROCK_TYPE_COUNT,
        ensures
            r == rock_type_at(roll as int),
    {
        if roll == 0 {
            RockType::Small
        } else if roll == 1 {
            RockType::Medium
        } else {
            RockType::Large
        }
    }

    /// The kind of rock a roll picks: a roll in `0..=2` picks small, medium
    /// or large in that order; any other roll picks none.
    pub fn try_from_roll(roll: i32) -> (r: Option<RockType>)
        ensures
            r == rock_for_roll(roll as int),
    {
        if 0 <= roll && roll <= HIGHEST_ROCK_ROLL {
            Some(RockType::from_roll(roll))
        } else {
            None
        }
    }

    /// The range a roll for a kind of rock is drawn for: `0..=2`, one roll
    /// for each kind.
    pub fn rock_roll_range() -> (r: (i32, i32))
        ensures
            r == (0i32, 2i32),
            r.1 == HIGHEST_ROCK_ROLL,
    {
        (0, HIGHEST_ROCK_ROLL)
    }

    /// A kind of rock drawn with the engine's generator: a roll drawn for
    /// `rock_roll_range` picks it as `try_from_roll` says; a roll outside
    /// that range, on which the draw would fail, gives nothing.
    pub fn get_random(rng: &mut RandomNumberGenerator) -> (r: Option<RockType>)
        ensures
            exists|roll: i32| r == rock_for_roll(roll as int),
    {
        let (low, high) = RockType::rock_roll_range();
        let roll = randi_range(rng, low, high);
        RockType::try_from_roll(roll)
    }
}

/// The highest roll that picks a kind of rock.
pub const HIGHEST_ROCK_ROLL: i32 = 2;

/// The kind of rock a roll picks, if any.
pub open spec fn rock_for_roll(roll: int) -> Option<RockType> {
    if 0 <= roll < ROCK_TYPE_COUNT {
        Some(rock_type_at(roll))
    } else {
        None
    }
}

} // verus!

verus! {

/// The sum of the counts.
pub open spec fn total_count<T>(items: Seq<(T, usize)>) -> nat
    decreases items.len(),
{
    if items.len() == 0 {
        0
    } else {
        total_count(items.drop_last()) + (items.last().1 as nat)
    }
}

proof fn lemma_total_count_update<T>(items: Seq<(T, usize)>, i: int, v: (T, usize))
    requires
        0 <= i < items.len(),
    ensures
        total_count(items.update(i, v)) + items[i].1 == total_count(items) + v.1,
    decreases items.len(),
{
    let u = items.update(i, v);
    if i == items.len() - 1 {
        assert(u.drop_last() =~= items.drop_last());
    } else {
        assert(u.drop_last() =~= items.drop_last().update(i, v));
        lemma_total_count_update(items.drop_last(), i, v);
    }
}

/// Items raffled by their counts.
pub struct Raffler<T> {
    items_and_counts: Vec<(T, usize)>,
    n_items: usize,
}

impl<T: Clone> Raffler<T> {
    /// The items with their counts.
    pub closed spec fn items(&self) -> Seq<(T, usize)> {
        self.items_and_counts@
    }

    /// The number of items left, counted with their counts.
    pub closed spec fn n_items(&self) -> nat {
        self.n_items as nat
    }

    /// The number of items left is the sum of the counts.
    pub closed spec fn wf(&self) -> bool {
        self.n_items == total_count(self.items_and_counts@)
    }

    /// The number of items left, counted with their counts.
    pub fn get_n_items(&self) -> (n: usize)
        ensures
            n == self.n_items(),
    {
        self.n_items
    }

    /// The count of the first item, if there is one.
    pub fn first_count(&self) -> (c: Option<usize>)
        ensures
            self.items().len() == 0 ==> c is None,
            self.items().len() > 0 ==> c == Some(self.items()[0].1),
    {
        if self.items_and_counts.len() == 0 {
            None
        } else {
            Some(self.items_and_counts[0].1)
        }
    }

    /// A raffle of `items_and_counts`.
    pub fn new(items_and_counts: Vec<(T, usize)>) -> (r: Self)
        requires
            total_count(items_and_counts@) <= usize::MAX,
        ensures
            r.wf(),
            r.items() == items_and_counts@,
            r.n_items() == total_count(items_and_counts@),
    {
        let mut n_items: usize = 0;
        let mut i: usize = 0;
        while i < items_and_counts.len()
            invariant
                i <= items_and_counts@.len(),
                total_count(items_and_counts@) <= usize::MAX,
                n_items == total_count(items_and_counts@.take(i as int)),
            decreases items_and_counts@.len() - i,
        {
            proof {
                assert(items_and_counts@.take(i + 1).drop_last() =~= items_and_counts@.take(
                    i as int,
                ));
                lemma_total_count_prefix(items_and_counts@, i + 1);
            }
            n_items = n_items + items_and_counts[i].1;
            i = i + 1;
        }
        assert(items_and_counts@.take(items_and_counts@.len() as int) =~= items_and_counts@);
        Raffler { items_and_counts, n_items }
    }

    /// The draw for `budget`, a roll of the generator in `0..=n_items`:
    /// with no items left, nothing; otherwise the walk over the items takes
    /// the first one whose count is at most the budget. Since a count above
    /// the budget makes the walk fail, the budget must be at least the first
    /// item's count, which must be positive: then the first item is given
    /// and its count goes down by one.
    pub fn pick_with_budget(&mut self, budget: usize) -> (r: Option<T>)
        requires
            old(self).wf(),
            old(self).n_items() > 0 ==> old(self).items()[0].1 > 0 && budget >= old(
                self,
            ).items()[0].1,
        ensures
            final(self).wf(),
            old(self).n_items() == 0 ==> r is None && final(self).items() == old(self).items()
                && final(self).n_items() == 0,
            old(self).n_items() > 0 ==> ({
                let (t0, c0) = old(self).items()[0];
                &&& r matches Some(t) && cloned(t0, t)
                &&& final(self).n_items() == old(self).n_items() - 1
                &&& final(self).items() == old(self).items().update(0, (t0, (c0 - 1) as usize))
            }),
    {
        if self.n_items == 0 {
            return None;
        }
        proof {
            if self.items_and_counts@.len() == 0 {
                assert(total_count(self.items_and_counts@) == 0);
            }
        }
        let ghost old_items = self.items_and_counts@;
        let (t, count) = self.items_and_counts.remove(0);
        let picked = t.clone();
        self.items_and_counts.insert(0, (t, count - 1));
        proof {
            assert(self.items_and_counts@ =~= old_items.update(0, (old_items[0].0, (count - 1) as usize)));
            lemma_total_count_update(old_items, 0, (old_items[0].0, (count - 1) as usize));
        }
        self.n_items = self.n_items - 1;
        Some(picked)
    }

    /// The draw for `roll`: with no items left, a negative roll, a first
    /// item whose count is zero, or a roll below the first item's count,
    /// nothing, and nothing changes (the walk over the items would fail
    /// there); otherwise the first item is given and its count goes down
    /// by one.
    pub fn pick_with_roll(&mut self, roll: i32) -> (r: Option<T>)
        requires
            old(self).wf(),
        ensures
            final(self).wf(),
            r is Some <==> roll_picks(old(self).items(), old(self).n_items(), roll as int),
            r is None ==> final(self).items() == old(self).items() && final(self).n_items() == old(
                self,
            ).n_items(),
            r matches Some(t) ==> ({
                let (t0, c0) = old(self).items()[0];
                &&& old(self).items().len() > 0 && c0 > 0
                &&& cloned(t0, t)
                &&& final(self).n_items() == old(self).n_items() - 1
                &&& final(self).items() == old(self).items().update(0, (t0, (c0 - 1) as usize))
            }),
    {
        if self.n_items == 0 {
            return None;
        }
        proof {
            if self.items_and_counts@.len() == 0 {
                assert(total_count(self.items_and_counts@) == 0);
            }
        }
        if roll < 0 {
            return None;
        }
        let budget = roll as usize;
        let first_count = self.items_and_counts[0].1;
        if first_count == 0 || budget < first_count {
            return None;
        }
        self.pick_with_budget(budget)
    }

    /// The range a roll is drawn for: `0..=n_items`, the upper end as the
    /// engine's 32-bit integer.
    pub fn roll_range(&self) -> (range: (i32, i32))
        ensures
            range.0 == 0,
            range.1 == self.n_items() as i32,
    {
        (0, self.n_items as i32)
    }

    /// Draws an item with the engine's generator: a roll drawn for
    /// `roll_range` decides it as `pick_with_roll` says. With no items left,
    /// nothing; where the rule fails on the roll, nothing is given and
    /// nothing changes.
    pub fn pick_random(&mut self, rng: &mut RandomNumberGenerator) -> (r: Option<T>)
        requires
            old(self).wf(),
        ensures
            final(self).wf(),
            old(self).n_items() == 0 ==> r is None,
            r is Some ==> exists|roll: i32| roll_picks(old(self).items(), old(self).n_items(), roll as int),
            r is None ==> final(self).items() == old(self).items() && final(self).n_items() == old(
                self,
            ).n_items(),
            r matches Some(t) ==> ({
                let (t0, c0) = old(self).items()[0];
                &&& old(self).items().len() > 0 && c0 > 0
                &&& cloned(t0, t)
                &&& final(self).n_items() == old(self).n_items() - 1
                &&& final(self).items() == old(self).items().update(0, (t0, (c0 - 1) as usize))
            }),
    {
        let (low, high) = self.roll_range();
        let roll = randi_range(rng, low, high);
        self.pick_with_roll(roll)
    }
}

/// A roll picks the first item: there are items left, the roll is not
/// negative, and the first item's count is positive and at most the roll.
pub open spec fn roll_picks<T>(items: Seq<(T, usize)>, n_items: nat, roll: int) -> bool {
    &&& n_items > 0
    &&& items.len() > 0
    &&& roll >= 0
    &&& items[0].1 > 0
    &&& items[0].1 <= roll
}

proof fn lemma_total_count_prefix<T>(items: Seq<(T, usize)>, k: int)
    requires
        0 <= k <= items.len(),
    ensures
        total_count(items.take(k)) <= total_count(items),
    decreases items.len() - k,
{
    if k < items.len() {
        lemma_total_count_prefix(items, k + 1);
        assert(items.take(k + 1).drop_last() =~= items.take(k));
    } else {
        assert(items.take(k) =~= items);
    }
}


/// The list after swapping the elements at `a` and `b`.
pub open spec fn swapped<T>(s: Seq<T>, a: int, b: int) -> Seq<T> {
    s.update(a, s[b]).update(b, s[a])
}

/// The list shuffled with `rolls`: for each length from the full length
/// down to one, the last element within that length is swapped with the
/// one at the next roll.
pub open spec fn shuffled<T>(s: Seq<T>, rolls: Seq<usize>, len: nat) -> Seq<T>
    decreases len,
{
    if len == 0 {
        s
    } else {
        let k = s.len() - len;
        shuffled(swapped(s, len - 1, rolls[k] as int), rolls, (len - 1) as nat)
    }
}

/// Rolls fit a list of `n` elements: one for each length from `n` down to
/// one, each below its length.
pub open spec fn rolls_fit(rolls: Seq<usize>, n: nat) -> bool {
    rolls.len() == n && forall|k: int| 0 <= k < n ==> #[trigger] rolls[k] < n - k
}

/// Swapping two elements keeps the multiset of elements.
pub proof fn lemma_swapped_multiset<T>(s: Seq<T>, a: int, b: int)
    requires
        0 <= a < s.len(),
        0 <= b < s.len(),
    ensures
        swapped(s, a, b).to_multiset() == s.to_multiset(),
        swapped(s, a, b).len() == s.len(),
{
    broadcast use vstd::seq_lib::group_to_multiset_ensures;
    broadcast use vstd::multiset::group_multiset_axioms;

    let t = s.update(a, s[b]);
    assert(t.to_multiset() == s.to_multiset().insert(s[b]).remove(s[a]));
    assert(t.update(b, s[a]).to_multiset() == t.to_multiset().insert(s[a]).remove(t[b]));
    if a == b {
        assert(t =~= s);
        assert(t.update(b, s[a]) =~= s);
    } else {
        assert(t[b] == s[b]);
        assert(t.update(b, s[a]).to_multiset() =~= s.to_multiset());
    }
}

/// Shuffling keeps the multiset of elements.
pub proof fn lemma_shuffled_multiset<T>(s: Seq<T>, rolls: Seq<usize>, len: nat)
    requires
        len <= s.len(),
        rolls.len() == s.len(),
        forall|k: int| s.len() - len <= k < s.len() ==> #[trigger] rolls[k] < s.len() - k,
    ensures
        shuffled(s, rolls, len).to_multiset() == s.to_multiset(),
        shuffled(s, rolls, len).len() == s.len(),
    decreases len,
{
    if len > 0 {
        let k = s.len() - len;
        assert(rolls[k] < s.len() - k);
        lemma_swapped_multiset(s, len - 1, rolls[k] as int);
        lemma_shuffled_multiset(swapped(s, len - 1, rolls[k] as int), rolls, (len - 1) as nat);
    }
}

/// Shuffles `vector` with `rolls`, one roll of the generator for each
/// length from the full length down to one, each in `0..length`: the last
/// element within each length is swapped with the one at its roll.
pub fn shuffle_with_rolls<T>(vector: &mut Vec<T>, rolls: &Vec<usize>)
    requires
        rolls_fit(rolls@, old(vector)@.len()),
    ensures
        final(vector)@ == shuffled(old(vector)@, rolls@, old(vector)@.len()),
        final(vector)@.to_multiset() == old(vector)@.to_multiset(),
        final(vector)@.len() == old(vector)@.len(),
{
    let ghost original = vector@;
    let n = vector.len();
    let mut length = n;
    while length != 0
        invariant
            n == original.len(),
            length <= n,
            vector@.len() == n,
            rolls_fit(rolls@, n as nat),
            shuffled(vector@, rolls@, length as nat) == shuffled(original, rolls@, n as nat),
        decreases length,
    {
        let last_index = length - 1;
        let k = n - length;
        let random_index = rolls[k];
        assert(rolls@[k as int] < n - k);
        let ghost before = vector@;
        swap_elements(vector, last_index, random_index);
        proof {
            assert(vector@ == swapped(before, last_index as int, random_index as int));
            lemma_swapped_multiset(before, last_index as int, random_index as int);
        }
        length = last_index;
    }
    proof {
        lemma_shuffled_multiset(original, rolls@, n as nat);
    }
}

/// The rolls, one for each length from `raw.len()` down to one, as
/// positions, when each lies in `0..length`; none otherwise.
pub fn checked_rolls(raw: &Vec<i32>) -> (r: Option<Vec<usize>>)
    ensures
        r is Some <==> forall|k: int| 0 <= k < raw@.len() ==> 0 <= #[trigger] raw@[k] < raw@.len() - k,
        r matches Some(rolls) ==> rolls@.len() == raw@.len() && forall|k: int|
            0 <= k < raw@.len() ==> #[trigger] rolls@[k] == raw@[k],
{
    let n = raw.len();
    let mut rolls: Vec<usize> = Vec::new();
    let mut k: usize = 0;
    while k < n
        invariant
            n == raw@.len(),
            k <= n,
            rolls@.len() == k,
            forall|j: int| 0 <= j < k ==> 0 <= #[trigger] raw@[j] < n - j,
            forall|j: int| 0 <= j < k ==> #[trigger] rolls@[j] == raw@[j],
        decreases n - k,
    {
        let roll = raw[k];
        if roll < 0 || (roll as usize) >= n - k {
            assert(!(0 <= raw@[k as int] < raw@.len() - k));
            return None;
        }
        rolls.push(roll as usize);
        k = k + 1;
    }
    Some(rolls)
}

/// The range the roll for a shuffle step over the first `length` elements
/// is drawn for: `0..=length - 1`, the upper end as the engine's 32-bit
/// integer.
pub fn shuffle_roll_range(length: usize) -> (r: (i32, i32))
    requires
        length > 0,
    ensures
        r.0 == 0,
        r.1 == (length - 1) as i32,
{
    (0, (length - 1) as i32)
}

/// Shuffles `vector` with the engine's generator: for each length from the
/// full length down to one, a roll is drawn for `shuffle_roll_range(length)`,
/// that is `0..=length - 1`. When every
/// roll lies in its range, the vector is shuffled with them (see
/// `shuffle_with_rolls`) and the result is `true`; a roll outside, on which
/// a swap would fail, leaves the vector as it was and makes the result
/// `false`. An empty vector is always shuffled.
pub fn shuffle_with_rng<T>(vector: &mut Vec<T>, rng: &mut RandomNumberGenerator) -> (done: bool)
    ensures
        old(vector)@.len() == 0 ==> done,
        done ==> exists|rolls: Seq<usize>|
            #[trigger] rolls_fit(rolls, old(vector)@.len()) && final(vector)@ == shuffled(
                old(vector)@,
                rolls,
                old(vector)@.len(),
            ),
        !done ==> final(vector)@ == old(vector)@,
        final(vector)@.to_multiset() == old(vector)@.to_multiset(),
        final(vector)@.len() == old(vector)@.len(),
{
    let n = vector.len();
    let mut raw: Vec<i32> = Vec::new();
    let mut length = n;
    while length != 0
        invariant
            length <= n,
            raw@.len() == n - length,
        decreases length,
    {
        let last_index = length - 1;
        let (low, high) = shuffle_roll_range(length);
        let roll = randi_range(rng, low, high);
        raw.push(roll);
        length = last_index;
    }
    match checked_rolls(&raw) {
        Some(rolls) => {
            assert(rolls_fit(rolls@, n as nat));
            shuffle_with_rolls(vector, &rolls);
            true
        },
        None => false,
    }
}

} // verus!
