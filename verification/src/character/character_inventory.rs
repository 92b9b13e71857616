//! One inventory of a character and how items are packed into it.

use vstd::prelude::*;
use super::character_item::{CharacterItem, CharacterItemView};
use crate::model::{InventoryId, ItemId, Physical};

verus! {

/// An inventory of a character: stacks of items in the order in which they
/// were created.
pub struct CharacterInventory {
    id: InventoryId,
    content: Vec<(ItemId, CharacterItem)>,
    fill: u32,
}

/// A stack: the item and the number of units.
pub type Stack = (ItemId, u16);

/// What an inventory holds.
pub struct CharacterInventoryView {
    /// The inventory type.
    pub id: InventoryId,
    /// The stacks, oldest first.
    pub content: Seq<Stack>,
    /// The capacity that has been taken up so far.
    pub fill: u32,
}

/// The smaller of two numbers.
pub open spec fn least(a: int, b: int) -> int {
    if a <= b {
        a
    } else {
        b
    }
}

/// The number of units, out of `amount`, for which there is room: with a
/// capacity, as many as fit into what `fill` leaves of it. Units of size 0
/// take up no room.
pub open spec fn placeable(amount: u16, size: u16, capacity: Option<u32>, fill: u32) -> int {
    match capacity {
        Some(capacity) => if size == 0 {
            amount as int
        } else if capacity <= fill {
            0
        } else {
            least(amount as int, (capacity - fill) / (size as int))
        },
        None => amount as int,
    }
}

/// Tops up the stacks of `id`, oldest first, to at most `limit` units each
/// with `amount` units. The result is the stacks and the units that are left.
pub open spec fn fill_stacks(content: Seq<Stack>, id: ItemId, amount: int, limit: int) -> (
    Seq<Stack>,
    int,
)
    decreases content.len(),
{
    if content.len() == 0 {
        (content, amount)
    } else {
        let (stacks, left) = fill_stacks(content.drop_last(), id, amount, limit);
        let (item, count) = content.last();
        if item == id && count <= limit {
            let usage = least(limit - count, left);
            (stacks.push((item, (count + usage) as u16)), left - usage)
        } else {
            (stacks.push(content.last()), left)
        }
    }
}

/// Adds stacks of at most `limit` units of `id` while units are left and the
/// number of stacks is below `slots`. The result is the stacks and the units
/// that are left.
pub open spec fn create_stacks(
    content: Seq<Stack>,
    id: ItemId,
    amount: int,
    limit: int,
    slots: Option<usize>,
) -> (Seq<Stack>, int)
    decreases amount,
{
    if amount <= 0 || limit <= 0 || (slots matches Some(slots) && content.len() >= slots) {
        (content, amount)
    } else {
        let usage = least(limit, amount);
        create_stacks(content.push((id, usage as u16)), id, amount - usage, limit, slots)
    }
}

impl CharacterInventoryView {
    /// The stacks after `amount` units of `id` were put in, and the number of
    /// units that did not fit.
    pub open spec fn packed(
        self,
        id: ItemId,
        physical: Physical,
        amount: u16,
        capacity: Option<u32>,
        slots: Option<usize>,
    ) -> (Seq<Stack>, int) {
        let to_put = placeable(amount, physical.size, capacity, self.fill);
        let (topped, left) = fill_stacks(self.content, id, to_put, physical.stack_size as int);
        let (stacks, rest) = create_stacks(topped, id, left, physical.stack_size as int, slots);
        (stacks, amount - to_put + rest)
    }

    /// The capacity that is taken up after `amount` units of `id` were put in.
    pub open spec fn packed_fill(
        self,
        id: ItemId,
        physical: Physical,
        amount: u16,
        capacity: Option<u32>,
        slots: Option<usize>,
    ) -> int {
        self.fill + (amount - self.packed(id, physical, amount, capacity, slots).1) * physical.size
    }
}

/// Topping up moves no stack, and the units left are between 0 and `amount`.
pub proof fn lemma_fill_stacks(content: Seq<Stack>, id: ItemId, amount: int, limit: int)
    requires
        0 <= amount,
    ensures
        fill_stacks(content, id, amount, limit).0.len() == content.len(),
        0 <= fill_stacks(content, id, amount, limit).1 <= amount,
    decreases content.len(),
{
    if content.len() > 0 {
        lemma_fill_stacks(content.drop_last(), id, amount, limit);
    }
}

/// New stacks go behind the old ones, and the units left are between 0 and
/// `amount`.
pub proof fn lemma_create_stacks(
    content: Seq<Stack>,
    id: ItemId,
    amount: int,
    limit: int,
    slots: Option<usize>,
)
    requires
        0 <= amount,
    ensures
        create_stacks(content, id, amount, limit, slots).0.len() >= content.len(),
        create_stacks(content, id, amount, limit, slots).0.take(content.len() as int) == content,
        0 <= create_stacks(content, id, amount, limit, slots).1 <= amount,
    decreases amount,
{
    if amount <= 0 || limit <= 0 || (slots matches Some(slots) && content.len() >= slots) {
        assert(content.take(content.len() as int) =~= content);
    } else {
        let usage = least(limit, amount);
        let next = content.push((id, usage as u16));
        lemma_create_stacks(next, id, amount - usage, limit, slots);
        let all = create_stacks(next, id, amount - usage, limit, slots).0;
        assert(all.take(content.len() as int) =~= all.take(next.len() as int).take(
            content.len() as int,
        ));
        assert(next.take(content.len() as int) =~= content);
    }
}

impl View for CharacterInventory {
    type V = CharacterInventoryView;

    closed spec fn view(&self) -> CharacterInventoryView {
        CharacterInventoryView {
            id: self.id,
            content: self.content@.map_values(
                |stack: (ItemId, CharacterItem)| (stack.0, stack.1@.count),
            ),
            fill: self.fill,
        }
    }
}

impl CharacterInventory {
    /// No stack holds inventories of its own.
    pub closed spec fn wf(&self) -> bool {
        forall|k: int|
            0 <= k < self.content@.len() ==> (#[trigger] self.content@[k]).1@.inventories is None
    }

    /// An empty inventory of type `id`.
    pub fn new(id: InventoryId) -> (r: Self)
        ensures
            r.wf(),
            r@ == (CharacterInventoryView { id, content: Seq::empty(), fill: 0 }),
    {
        let r = CharacterInventory { id, content: Vec::new(), fill: 0 };
        assert(r@.content =~= Seq::empty());
        r
    }

    /// The inventory type.
    pub fn id(&self) -> (r: InventoryId)
        ensures
            r == self@.id,
    {
        self.id
    }

    /// The capacity that has been taken up so far.
    pub fn fill(&self) -> (r: u32)
        ensures
            r == self@.fill,
    {
        self.fill
    }

    /// The stacks, oldest first: for each the item and the number of units.
    pub fn content(&self) -> (r: Vec<Stack>)
        ensures
            r@ == self@.content,
    {
        let mut r: Vec<Stack> = Vec::new();
        let mut k: usize = 0;
        while k < self.content.len()
            invariant
                k <= self.content@.len(),
                r@ == self@.content.take(k as int),
            decreases self.content@.len() - k,
        {
            r.push((self.content[k].0, self.content[k].1.count()));
            proof {
                assert(self@.content.take(k + 1) =~= self@.content.take(k as int).push(
                    self@.content[k as int],
                ));
            }
            k += 1;
        }
        assert(self@.content.take(k as int) =~= self@.content);
        r
    }

    /// Clamp `amount` to the maximum amount of `item` that will still fit.
    pub fn limit_fill(&self, physical: &Physical, amount: u16, capacity: Option<u32>) -> (r: u16)
        ensures
            r == placeable(amount, physical.size, capacity, self@.fill),
    {
        match capacity {
            Some(capacity) => {
                if physical.size == 0 {
                    amount
                } else if capacity <= self.fill {
                    0
                } else {
                    let room: u32 = (capacity - self.fill) / (physical.size as u32);
                    if room < amount as u32 {
                        room as u16
                    } else {
                        amount
                    }
                }
            },
            None => amount,
        }
    }

    /// Attempt to fill non-full stacks with `amount` of `item`. Returns number of items left.
    pub fn fill_stacks(&mut self, id: ItemId, amount: u16, limit: u16) -> (left: u16)
        requires
            old(self).wf(),
        ensures
            final(self).wf(),
            final(self)@.id == old(self)@.id,
            final(self)@.fill == old(self)@.fill,
            final(self)@.content == fill_stacks(old(self)@.content, id, amount as int, limit as int).0,
            left == fill_stacks(old(self)@.content, id, amount as int, limit as int).1,
    {
        let ghost before = self@.content;
        let mut left = amount;
        let n = self.content.len();
        let mut i: usize = 0;
        assert(before.take(0) =~= Seq::empty());
        while i < n
            invariant
                i <= n,
                n == before.len(),
                self.wf(),
                self@.id == old(self)@.id,
                self@.fill == old(self)@.fill,
                self@.content.len() == n,
                forall|k: int| i <= k < n ==> self@.content[k] == before[k],
                self@.content.take(i as int) == fill_stacks(
                    before.take(i as int),
                    id,
                    amount as int,
                    limit as int,
                ).0,
                left == fill_stacks(before.take(i as int), id, amount as int, limit as int).1,
            decreases n - i,
        {
            let ghost stacks = self@.content;
            let ghost whole = self.content@;
            proof {
                assert(before.take(i + 1).drop_last() =~= before.take(i as int));
                assert(before.take(i + 1).last() == before[i as int]);
                assert(stacks[i as int] == before[i as int]);
                lemma_fill_stacks(before.take(i as int), id, amount as int, limit as int);
            }
            if self.content[i].0 == id {
                let count = self.content[i].1.count();
                if count <= limit {
                    let space = limit - count;
                    let usage = if space <= left {
                        space
                    } else {
                        left
                    };
                    assert(whole[i as int].1@.inventories is None);
                    let slot = self.content[i].1.count_mut();
                    *slot = count + usage;
                    left = left - usage;
                    proof {
                        assert forall|k: int| 0 <= k < n && k != i implies self.content@[k]
                            == whole[k] by {}
                        assert(self@.content =~= stacks.update(
                            i as int,
                            (id, (count + usage) as u16),
                        ));
                    }
                }
            }
            proof {
                assert(self@.content.take(i + 1) =~= self@.content.take(i as int).push(
                    self@.content[i as int],
                ));
                assert(self@.content.take(i as int) =~= stacks.take(i as int));
            }
            i += 1;
        }
        proof {
            assert(before.take(n as int) =~= before);
            assert(self@.content.take(n as int) =~= self@.content);
        }
        left
    }

    /// Attempt to create new stacks with `amount` of `item`. Returns number of items left.
    pub fn create_stacks(
        &mut self,
        id: ItemId,
        amount: u16,
        limit: u16,
        slot_count: Option<usize>,
    ) -> (left: u16)
        requires
            old(self).wf(),
        ensures
            final(self).wf(),
            final(self)@.id == old(self)@.id,
            final(self)@.fill == old(self)@.fill,
            final(self)@.content == create_stacks(
                old(self)@.content,
                id,
                amount as int,
                limit as int,
                slot_count,
            ).0,
            left == create_stacks(old(self)@.content, id, amount as int, limit as int, slot_count).1,
    {
        let mut left = amount;
        if limit == 0 {
            return left;
        }
        loop
            invariant
                limit > 0,
                self.wf(),
                self@.id == old(self)@.id,
                self@.fill == old(self)@.fill,
                create_stacks(self@.content, id, left as int, limit as int, slot_count)
                    == create_stacks(
                    old(self)@.content,
                    id,
                    amount as int,
                    limit as int,
                    slot_count,
                ),
            ensures
                self.wf(),
                self@.id == old(self)@.id,
                self@.fill == old(self)@.fill,
                self@.content == create_stacks(
                    old(self)@.content,
                    id,
                    amount as int,
                    limit as int,
                    slot_count,
                ).0,
                left == create_stacks(
                    old(self)@.content,
                    id,
                    amount as int,
                    limit as int,
                    slot_count,
                ).1,
            decreases left,
        {
            if left == 0 {
                break ;
            }
            let full = match slot_count {
                Some(slots) => self.content.len() >= slots,
                None => false,
            };
            if full {
                break ;
            }
            let usage = if limit <= left {
                limit
            } else {
                left
            };
            let ghost stacks = self@.content;
            let ghost whole = self.content@;
            self.content.push((id, CharacterItem::with_count(usage)));
            left = left - usage;
            proof {
                assert(self@.content =~= stacks.push((id, usage)));
                assert forall|k: int| 0 <= k < self.content@.len() implies (
                #[trigger] self.content@[k]).1@.inventories is None by {
                    if k < whole.len() {
                        assert(self.content@[k] == whole[k]);
                    }
                }
            }
        }
        left
    }

    /// Whether `put` can record what it places: whether the fill after
    /// `amount` units of `item` were put in stays in its range. `put` asks for
    /// this; it always holds where a capacity limits units that have a size.
    pub fn put_fits(
        &self,
        id: ItemId,
        physical: &Physical,
        amount: u16,
        capacity: Option<u32>,
        slot_count: Option<usize>,
    ) -> (r: bool)
        requires
            self.wf(),
        ensures
            r == (self@.packed_fill(id, *physical, amount, capacity, slot_count) <= u32::MAX),
    {
        // The stacks are packed on a copy, which tells how many units are placed.
        let mut content: Vec<(ItemId, CharacterItem)> = Vec::new();
        let mut k: usize = 0;
        while k < self.content.len()
            invariant
                k <= self.content@.len(),
                content@.len() == k,
                forall|j: int|
                    0 <= j < k ==> (#[trigger] content@[j]).0 == self.content@[j].0 && content@[j].1@
                        == CharacterItemView::counting(self.content@[j].1@.count),
            decreases self.content@.len() - k,
        {
            content.push((self.content[k].0, CharacterItem::with_count(self.content[k].1.count())));
            k += 1;
        }
        let mut copy = CharacterInventory { id: self.id, content, fill: self.fill };
        assert(copy@.content =~= self@.content);
        let to_put = self.limit_fill(physical, amount, capacity);
        let stack_size = physical.stack_size;
        proof {
            lemma_fill_stacks(self@.content, id, to_put as int, stack_size as int);
        }
        let ghost topped = fill_stacks(self@.content, id, to_put as int, stack_size as int).0;
        let left = copy.fill_stacks(id, to_put, stack_size);
        proof {
            lemma_create_stacks(topped, id, left as int, stack_size as int, slot_count);
        }
        let left = copy.create_stacks(id, left, stack_size, slot_count);
        let placed: u64 = (to_put - left) as u64;
        assert(placed * physical.size <= 0xffff * 0xffff) by (nonlinear_arith)
            requires
                placed <= 0xffff,
                physical.size <= 0xffff,
        ;
        self.fill as u64 + placed * (physical.size as u64) <= 0xffff_ffff
    }

    /// Attempt to put `amount` of `item` into this inventory. Returns number of items that
    /// could not fit.
    pub fn put(
        &mut self,
        id: ItemId,
        physical: &Physical,
        amount: u16,
        capacity: Option<u32>,
        slot_count: Option<usize>,
    ) -> (remainder: u16)
        requires
            old(self).wf(),
            old(self)@.packed_fill(id, *physical, amount, capacity, slot_count) <= u32::MAX,
        ensures
            final(self).wf(),
            final(self)@ == (CharacterInventoryView {
                id: old(self)@.id,
                content: old(self)@.packed(id, *physical, amount, capacity, slot_count).0,
                fill: old(self)@.packed_fill(id, *physical, amount, capacity, slot_count) as u32,
            }),
            remainder == old(self)@.packed(id, *physical, amount, capacity, slot_count).1,
    {
        let to_put = self.limit_fill(physical, amount, capacity);
        let remainder = amount - to_put;
        let stack_size = physical.stack_size;
        proof {
            lemma_fill_stacks(self@.content, id, to_put as int, stack_size as int);
        }
        let ghost topped = fill_stacks(self@.content, id, to_put as int, stack_size as int).0;
        let to_put = self.fill_stacks(id, to_put, stack_size);
        proof {
            lemma_create_stacks(topped, id, to_put as int, stack_size as int, slot_count);
        }
        let to_put = self.create_stacks(id, to_put, stack_size, slot_count);
        let remainder = remainder + to_put;
        let placed: u32 = (amount - remainder) as u32;
        assert(placed * physical.size <= 0xffff * 0xffff) by (nonlinear_arith)
            requires
                placed <= 0xffff,
                physical.size <= 0xffff,
        ;
        self.fill = self.fill + placed * (physical.size as u32);
        remainder
    }
}

} // verus!
