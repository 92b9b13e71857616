//! Calculations over the values of a character, built step by step and stored
//! as nodes of an arena.

use vstd::prelude::*;
use super::expression::{Env, Expr};
use super::operation::{BinaryOp, Rounding, UnaryOp};
use super::ValueId;
use crate::error::ErrorKind;

verus! {

/// One node of the arena. Operands are indices of earlier nodes; a value is
/// the index of its id in the list of inputs.
#[derive(Clone, Copy, Debug, Hash)]
enum Element {
    Const(i32),
    Value(usize),
    Unary(UnaryOp, usize),
    Binary(BinaryOp, usize, usize),
    Placeholder,
}

/// Represents a calculation based on values of a character.
#[derive(Debug, Hash)]
pub struct Calculation {
    storage: Vec<Element>,
    values: Vec<ValueId>,
    output: usize,
}

/// The inputs `inputs`, and `id` behind them unless it is one of them.
pub open spec fn with_input(inputs: Seq<ValueId>, id: ValueId) -> Seq<ValueId> {
    if inputs.contains(id) {
        inputs
    } else {
        inputs.push(id)
    }
}

/// The inputs `first`, followed by those of `second` that are not among them,
/// in the order of their first occurrence.
pub open spec fn merge_inputs(first: Seq<ValueId>, second: Seq<ValueId>) -> Seq<ValueId>
    decreases second.len(),
{
    if second.len() == 0 {
        first
    } else {
        with_input(merge_inputs(first, second.drop_last()), second.last())
    }
}

/// Adding an input keeps the earlier ones in place and leaves no duplicates.
pub proof fn lemma_with_input(inputs: Seq<ValueId>, id: ValueId)
    requires
        inputs.no_duplicates(),
    ensures
        with_input(inputs, id).no_duplicates(),
        with_input(inputs, id).contains(id),
        inputs.len() <= with_input(inputs, id).len(),
        forall|k: int| 0 <= k < inputs.len() ==> with_input(inputs, id)[k] == inputs[k],
        forall|other: ValueId|
            with_input(inputs, id).contains(other) <==> inputs.contains(other) || other == id,
{
    let r = with_input(inputs, id);
    if !inputs.contains(id) {
        assert(r[inputs.len() as int] == id);
        assert forall|other: ValueId| r.contains(other) implies inputs.contains(other) || other
            == id by {
            let k = choose|k: int| 0 <= k < r.len() && r[k] == other;
            if k < inputs.len() {
                assert(inputs[k] == other);
            }
        }
        assert forall|other: ValueId| inputs.contains(other) implies r.contains(other) by {
            let k = choose|k: int| 0 <= k < inputs.len() && inputs[k] == other;
            assert(r[k] == other);
        }
    }
}

/// Merging keeps the first list in place, leaves no duplicates and holds
/// exactly the inputs of both lists.
pub proof fn lemma_merge_inputs(first: Seq<ValueId>, second: Seq<ValueId>)
    requires
        first.no_duplicates(),
    ensures
        merge_inputs(first, second).no_duplicates(),
        first.len() <= merge_inputs(first, second).len(),
        forall|k: int| 0 <= k < first.len() ==> merge_inputs(first, second)[k] == first[k],
        forall|id: ValueId|
            merge_inputs(first, second).contains(id) <==> first.contains(id) || second.contains(
                id,
            ),
    decreases second.len(),
{
    if second.len() > 0 {
        let before = merge_inputs(first, second.drop_last());
        lemma_merge_inputs(first, second.drop_last());
        lemma_with_input(before, second.last());
        assert forall|id: ValueId| second.contains(id) implies second.drop_last().contains(id)
            || id == second.last() by {
            let k = choose|k: int| 0 <= k < second.len() && second[k] == id;
            if k < second.len() - 1 {
                assert(second.drop_last()[k] == id);
            }
        }
        assert forall|id: ValueId| second.drop_last().contains(id) implies second.contains(
            id,
        ) by {
            let k = choose|k: int| 0 <= k < second.len() - 1 && second.drop_last()[k] == id;
            assert(second[k] == id);
        }
        assert(second.contains(second.last())) by {
            assert(second[second.len() - 1] == second.last());
        }
    }
}

/// The node `e` at position `idx` points only to earlier nodes and to one of
/// `slots` inputs.
spec fn node_ok(e: Element, idx: int, slots: int) -> bool {
    match e {
        Element::Value(s) => s < slots,
        Element::Unary(_, a) => a < idx,
        Element::Binary(_, a, b) => a < idx && b < idx,
        _ => true,
    }
}

/// Every node of the arena is as `node_ok` says.
spec fn arena_ok(storage: Seq<Element>, slots: int) -> bool {
    forall|i: int| 0 <= i < storage.len() ==> node_ok(#[trigger] storage[i], i, slots)
}

/// The expression that the node at `idx` stands for.
spec fn expr_at(storage: Seq<Element>, values: Seq<ValueId>, idx: int) -> Expr
    decreases idx,
{
    if 0 <= idx < storage.len() && node_ok(storage[idx], idx, values.len() as int) {
        match storage[idx] {
            Element::Const(c) => Expr::Const(c),
            Element::Value(s) => Expr::Value(values[s as int]),
            Element::Unary(op, a) => Expr::Unary(op, Box::new(expr_at(storage, values, a as int))),
            Element::Binary(op, a, b) => Expr::Binary(
                op,
                Box::new(expr_at(storage, values, a as int)),
                Box::new(expr_at(storage, values, b as int)),
            ),
            Element::Placeholder => Expr::Placeholder,
        }
    } else {
        Expr::Placeholder
    }
}

/// `longer` starts with `shorter`.
spec fn extends<T>(longer: Seq<T>, shorter: Seq<T>) -> bool {
    &&& shorter.len() <= longer.len()
    &&& forall|i: int| 0 <= i < shorter.len() ==> longer[i] == shorter[i]
}

/// Nodes and inputs that are added behind do not change what a node stands for.
proof fn lemma_expr_at_extended(
    storage: Seq<Element>,
    values: Seq<ValueId>,
    storage2: Seq<Element>,
    values2: Seq<ValueId>,
    idx: int,
)
    requires
        arena_ok(storage, values.len() as int),
        extends(storage2, storage),
        extends(values2, values),
        0 <= idx < storage.len(),
    ensures
        expr_at(storage2, values2, idx) == expr_at(storage, values, idx),
    decreases idx,
{
    assert(node_ok(storage[idx], idx, values.len() as int));
    match storage[idx] {
        Element::Unary(_, a) => {
            lemma_expr_at_extended(storage, values, storage2, values2, a as int);
        },
        Element::Binary(_, a, b) => {
            lemma_expr_at_extended(storage, values, storage2, values2, a as int);
            lemma_expr_at_extended(storage, values, storage2, values2, b as int);
        },
        _ => {},
    }
}

/// `to` is the node `from`, moved `offset` positions up, with its input
/// renumbered by `slots`.
spec fn moved(from: Element, to: Element, offset: int, slots: Seq<usize>) -> bool {
    match from {
        Element::Const(c) => to == Element::Const(c),
        Element::Value(s) => s < slots.len() && to == Element::Value(slots[s as int]),
        Element::Unary(op, a) => to matches Element::Unary(op2, a2) && op2 == op && a2 == a
            + offset,
        Element::Binary(op, a, b) => to matches Element::Binary(op2, a2, b2) && op2 == op && a2
            == a + offset && b2 == b + offset,
        Element::Placeholder => to == Element::Placeholder,
    }
}

/// `slots[k]` is the position in `to` of the `k`-th input of `from`.
spec fn renumbers(slots: Seq<usize>, from: Seq<ValueId>, to: Seq<ValueId>) -> bool {
    &&& slots.len() == from.len()
    &&& forall|k: int|
        0 <= k < slots.len() ==> (#[trigger] slots[k]) < to.len() && to[slots[k] as int] == from[k]
}

/// A moved copy of an arena stands for the same expressions.
proof fn lemma_expr_at_moved(
    src: Seq<Element>,
    src_values: Seq<ValueId>,
    dst: Seq<Element>,
    dst_values: Seq<ValueId>,
    offset: int,
    slots: Seq<usize>,
    idx: int,
)
    requires
        arena_ok(src, src_values.len() as int),
        0 <= offset,
        offset + src.len() <= dst.len(),
        forall|j: int| 0 <= j < src.len() ==> moved(src[j], #[trigger] dst[offset + j], offset, slots),
        renumbers(slots, src_values, dst_values),
        0 <= idx < src.len(),
    ensures
        expr_at(dst, dst_values, offset + idx) == expr_at(src, src_values, idx),
        node_ok(dst[offset + idx], offset + idx, dst_values.len() as int),
    decreases idx,
{
    assert(node_ok(src[idx], idx, src_values.len() as int));
    assert(moved(src[idx], dst[offset + idx], offset, slots));
    match src[idx] {
        Element::Unary(_, a) => {
            lemma_expr_at_moved(src, src_values, dst, dst_values, offset, slots, a as int);
        },
        Element::Binary(_, a, b) => {
            lemma_expr_at_moved(src, src_values, dst, dst_values, offset, slots, a as int);
            lemma_expr_at_moved(src, src_values, dst, dst_values, offset, slots, b as int);
        },
        _ => {},
    }
}

/// The expression of a node that takes the place of a placeholder.
spec fn leaf_expr(e: Element, values: Seq<ValueId>) -> Expr {
    match e {
        Element::Const(c) => Expr::Const(c),
        Element::Value(s) => Expr::Value(values[s as int]),
        _ => Expr::Placeholder,
    }
}

/// Replacing every placeholder node by the leaf `with` binds the expressions.
proof fn lemma_expr_at_bound(
    before: Seq<Element>,
    values: Seq<ValueId>,
    after: Seq<Element>,
    values2: Seq<ValueId>,
    with: Element,
    idx: int,
)
    requires
        arena_ok(before, values.len() as int),
        extends(values2, values),
        with is Const || (with matches Element::Value(s) && s < values2.len()),
        after.len() == before.len(),
        forall|i: int|
            0 <= i < before.len() ==> #[trigger] after[i] == if before[i] is Placeholder {
                with
            } else {
                before[i]
            },
        0 <= idx < before.len(),
    ensures
        expr_at(after, values2, idx) == expr_at(before, values, idx).bind(
            leaf_expr(with, values2),
        ),
        node_ok(after[idx], idx, values2.len() as int),
    decreases idx,
{
    assert(node_ok(before[idx], idx, values.len() as int));
    match before[idx] {
        Element::Unary(_, a) => {
            lemma_expr_at_bound(before, values, after, values2, with, a as int);
        },
        Element::Binary(_, a, b) => {
            lemma_expr_at_bound(before, values, after, values2, with, a as int);
            lemma_expr_at_bound(before, values, after, values2, with, b as int);
        },
        _ => {},
    }
}

/// Every value that a node reads is one of the inputs.
proof fn lemma_expr_at_reads(storage: Seq<Element>, values: Seq<ValueId>, idx: int, id: ValueId)
    requires
        arena_ok(storage, values.len() as int),
        0 <= idx < storage.len(),
        expr_at(storage, values, idx).reads(id),
    ensures
        values.contains(id),
    decreases idx,
{
    assert(node_ok(storage[idx], idx, values.len() as int));
    match storage[idx] {
        Element::Value(s) => {
            assert(values[s as int] == id);
        },
        Element::Unary(_, a) => {
            lemma_expr_at_reads(storage, values, a as int, id);
        },
        Element::Binary(_, a, b) => {
            if expr_at(storage, values, a as int).reads(id) {
                lemma_expr_at_reads(storage, values, a as int, id);
            } else {
                lemma_expr_at_reads(storage, values, b as int, id);
            }
        },
        _ => {},
    }
}

/// Conversion into a Calculation.
pub trait IntoCalculation: Sized {
    /// What the conversion asks of the value.
    spec fn convertible(&self) -> bool;

    /// The expression that the value stands for.
    spec fn expr(&self) -> Expr;

    /// The inputs of the calculation that the value becomes.
    spec fn expr_inputs(&self) -> Seq<ValueId>;

    /// Performs the conversion.
    fn into_calc(self) -> (r: Calculation)
        requires
            self.convertible(),
        ensures
            r.wf(),
            r@ == self.expr(),
            r.inputs() == self.expr_inputs(),
    ;
}

impl IntoCalculation for Calculation {
    open spec fn convertible(&self) -> bool {
        self.wf()
    }

    open spec fn expr(&self) -> Expr {
        self@
    }

    open spec fn expr_inputs(&self) -> Seq<ValueId> {
        self.inputs()
    }

    fn into_calc(self) -> (r: Calculation) {
        self
    }
}

impl IntoCalculation for i32 {
    open spec fn convertible(&self) -> bool {
        true
    }

    open spec fn expr(&self) -> Expr {
        Expr::Const(*self)
    }

    open spec fn expr_inputs(&self) -> Seq<ValueId> {
        Seq::empty()
    }

    fn into_calc(self) -> (r: Calculation) {
        Calculation::constant(self)
    }
}

impl IntoCalculation for ValueId {
    open spec fn convertible(&self) -> bool {
        true
    }

    open spec fn expr(&self) -> Expr {
        Expr::Value(*self)
    }

    open spec fn expr_inputs(&self) -> Seq<ValueId> {
        seq![*self]
    }

    fn into_calc(self) -> (r: Calculation) {
        Calculation::value(self)
    }
}

impl View for Calculation {
    type V = Expr;

    /// The expression that the calculation computes.
    closed spec fn view(&self) -> Expr {
        expr_at(self.storage@, self.values@, self.output as int)
    }
}

impl Calculation {
    /// The ids of the values that the calculation takes, in the order in which
    /// `get` expects their values.
    pub closed spec fn inputs(&self) -> Seq<ValueId> {
        self.values@
    }

    /// Nodes point to earlier nodes and to inputs that exist, and no input
    /// is listed twice.
    spec fn arena_wf(&self) -> bool {
        &&& self.output < self.storage@.len()
        &&& arena_ok(self.storage@, self.values@.len() as int)
        &&& self.values@.no_duplicates()
    }

    /// The calculation is consistent: its arena is, and its inputs are the
    /// values that it reads.
    pub closed spec fn wf(&self) -> bool {
        &&& self.arena_wf()
        &&& forall|k: int| 0 <= k < self.values@.len() ==> self@.reads(#[trigger] self.values@[k])
    }

    /// The environment that a slice of input values stands for: each input
    /// has the value at its position.
    pub open spec fn env(&self, values: Seq<i32>) -> Env {
        |id: ValueId| values[self.inputs().index_of(id)]
    }

    /// No input is listed twice and the inputs are the values that the
    /// calculation reads.
    pub proof fn lemma_inputs(&self)
        requires
            self.wf(),
        ensures
            self.inputs().no_duplicates(),
            forall|id: ValueId| self@.reads(id) <==> self.inputs().contains(id),
    {
        assert forall|id: ValueId| self@.reads(id) implies self.inputs().contains(id) by {
            lemma_expr_at_reads(self.storage@, self.values@, self.output as int, id);
        }
        assert forall|id: ValueId| self.inputs().contains(id) implies self@.reads(id) by {
            let k = choose|k: int| 0 <= k < self.values@.len() && self.values@[k] == id;
            assert(self@.reads(self.values@[k]));
        }
    }

    /// Create a placeholder.
    ///
    /// Placeholders can later be replaced with a constant or value. Every placeholder in a
    /// calculation will be replaced at once.
    ///
    /// Trying to evaluate a Calculation with active placeholders is an error.
    pub fn placeholder() -> (r: Self)
        ensures
            r.wf(),
            r@ == Expr::Placeholder,
            r.inputs() == Seq::<ValueId>::empty(),
    {
        let mut storage = Vec::new();
        storage.push(Element::Placeholder);
        Calculation { storage, values: Vec::new(), output: 0 }
    }

    /// A calculation that is the constant `c`.
    pub fn constant(c: i32) -> (r: Self)
        ensures
            r.wf(),
            r@ == Expr::Const(c),
            r.inputs() == Seq::<ValueId>::empty(),
    {
        let mut storage = Vec::new();
        storage.push(Element::Const(c));
        Calculation { storage, values: Vec::new(), output: 0 }
    }

    /// A calculation that is the current value behind `id`.
    pub fn value(id: ValueId) -> (r: Self)
        ensures
            r.wf(),
            r@ == Expr::Value(id),
            r.inputs() == seq![id],
    {
        let mut storage = Vec::new();
        storage.push(Element::Value(0));
        let mut values = Vec::new();
        values.push(id);
        Calculation { storage, values, output: 0 }
    }

    /// Replace every placeholder node by the leaf `with`.
    fn replace_with(&mut self, with: Element, Ghost(before_values): Ghost<Seq<ValueId>>)
        requires
            old(self).arena_wf(),
            with is Const || (with matches Element::Value(s) && s < old(self).values@.len()),
            arena_ok(old(self).storage@, before_values.len() as int),
            extends(old(self).values@, before_values),
        ensures
            final(self).arena_wf(),
            final(self).values@ == old(self).values@,
            final(self)@ == expr_at(old(self).storage@, before_values, old(self).output as int).bind(
                leaf_expr(with, old(self).values@),
            ),
    {
        let ghost before = self.storage@;
        let n = self.storage.len();
        let mut i: usize = 0;
        while i < n
            invariant
                i <= n,
                n == before.len(),
                self.storage@.len() == n,
                self.values@ == old(self).values@,
                self.output == old(self).output,
                forall|j: int|
                    0 <= j < i ==> #[trigger] self.storage@[j] == if before[j] is Placeholder {
                        with
                    } else {
                        before[j]
                    },
                forall|j: int| i <= j < n ==> self.storage@[j] == before[j],
            decreases n - i,
        {
            let e = self.storage[i];
            match e {
                Element::Placeholder => {
                    self.storage[i] = with;
                },
                _ => {},
            }
            i += 1;
        }
        proof {
            assert forall|j: int| 0 <= j < n implies node_ok(
                #[trigger] self.storage@[j],
                j,
                self.values@.len() as int,
            ) by {
                lemma_expr_at_bound(before, before_values, self.storage@, self.values@, with, j);
            }
            lemma_expr_at_bound(
                before,
                before_values,
                self.storage@,
                self.values@,
                with,
                self.output as int,
            );
        }
    }

    /// Replace all placeholders with a constant.
    pub fn replace_with_const(self, c: i32) -> (r: Self)
        requires
            self.wf(),
        ensures
            r.wf(),
            r@ == self@.bind(Expr::Const(c)),
            r.inputs() == self.inputs(),
    {
        let mut r = self;
        r.replace_with(Element::Const(c), Ghost(self.values@));
        proof {
            self@.lemma_bind(Expr::Const(c));
        }
        r
    }

    /// Replace all placeholders with a value. The value becomes an input if
    /// there is a placeholder.
    pub fn replace_with_value(self, id: ValueId) -> (r: Self)
        requires
            self.wf(),
        ensures
            r.wf(),
            r@ == self@.bind(Expr::Value(id)),
            r.inputs() == if self@.is_bound() {
                self.inputs()
            } else {
                with_input(self.inputs(), id)
            },
    {
        if self.is_bound() {
            proof {
                self@.lemma_bind(Expr::Value(id));
            }
            return self;
        }
        let mut r = self;
        let slot = r.insert_value(id);
        proof {
            lemma_with_input(self.values@, id);
        }
        r.replace_with(Element::Value(slot), Ghost(self.values@));
        proof {
            self@.lemma_bind(Expr::Value(id));
            assert forall|k: int| 0 <= k < r.values@.len() implies r@.reads(
                #[trigger] r.values@[k],
            ) by {
                if k < self.values@.len() {
                    assert(self@.reads(self.values@[k]));
                } else {
                    assert(r.values@[k] == id);
                }
            }
        }
        r
    }

    /// Whether no placeholder is left in the calculation.
    pub fn is_bound(&self) -> (r: bool)
        requires
            self.wf(),
        ensures
            r == self@.is_bound(),
    {
        self.bound_at(self.output)
    }

    /// Whether no placeholder is left below the node at `idx`.
    fn bound_at(&self, idx: usize) -> (r: bool)
        requires
            self.arena_wf(),
            idx < self.storage@.len(),
        ensures
            r == expr_at(self.storage@, self.values@, idx as int).is_bound(),
        decreases idx,
    {
        assert(node_ok(self.storage@[idx as int], idx as int, self.values@.len() as int));
        match self.storage[idx] {
            Element::Const(_) => true,
            Element::Value(_) => true,
            Element::Unary(_, val) => self.bound_at(val),
            Element::Binary(_, a, b) => self.bound_at(a) && self.bound_at(b),
            Element::Placeholder => false,
        }
    }

    /// Put `element` behind the other nodes and make it the output.
    fn insert(self, element: Element) -> (r: Self)
        requires
            self.arena_wf(),
            node_ok(element, self.storage@.len() as int, self.values@.len() as int),
        ensures
            r.arena_wf(),
            r.values@ == self.values@,
            r.storage@ == self.storage@.push(element),
            r.output == self.storage@.len(),
    {
        let mut r = self;
        let idx = r.storage.len();
        r.storage.push(element);
        r.output = idx;
        r
    }

    /// The position of `id` among the inputs; it is added behind them if it is
    /// not one of them yet.
    fn insert_value(&mut self, id: ValueId) -> (slot: usize)
        requires
            old(self).values@.no_duplicates(),
        ensures
            final(self).values@ == with_input(old(self).values@, id),
            final(self).storage == old(self).storage,
            final(self).output == old(self).output,
            slot < final(self).values@.len(),
            final(self).values@[slot as int] == id,
    {
        let mut i: usize = 0;
        while i < self.values.len()
            invariant
                i <= self.values@.len(),
                self.values@ == old(self).values@,
                self.storage == old(self).storage,
                self.output == old(self).output,
                forall|j: int| 0 <= j < i ==> self.values@[j] != id,
            decreases self.values@.len() - i,
        {
            if self.values[i] == id {
                assert(self.values@.contains(id));
                return i;
            }
            i += 1;
        }
        let idx = self.values.len();
        self.values.push(id);
        idx
    }

    /// Copy the nodes of `other` behind the nodes of `self`. The result is the
    /// position of the copy of `other`'s output.
    fn append(&mut self, other: Calculation) -> (out: usize)
        requires
            old(self).arena_wf(),
            other.arena_wf(),
        ensures
            final(self).arena_wf(),
            final(self).output == old(self).output,
            final(self).values@ == merge_inputs(old(self).values@, other.values@),
            extends(final(self).storage@, old(self).storage@),
            out < final(self).storage@.len(),
            expr_at(final(self).storage@, final(self).values@, out as int) == other@,
            final(self)@ == old(self)@,
    {
        let offset = self.storage.len();
        let mut slots: Vec<usize> = Vec::new();
        let mut k: usize = 0;
        while k < other.values.len()
            invariant
                k <= other.values@.len(),
                slots@.len() == k,
                self.storage == old(self).storage,
                self.output == old(self).output,
                old(self).values@.no_duplicates(),
                self.values@ == merge_inputs(old(self).values@, other.values@.take(k as int)),
                self.values@.no_duplicates(),
                extends(self.values@, old(self).values@),
                renumbers(slots@, other.values@.take(k as int), self.values@),
            decreases other.values@.len() - k,
        {
            let ghost before = self.values@;
            let slot = self.insert_value(other.values[k]);
            let ghost slots_before = slots@;
            slots.push(slot);
            proof {
                lemma_with_input(before, other.values@[k as int]);
                assert(other.values@.take(k + 1).drop_last() =~= other.values@.take(k as int));
                assert forall|i: int| 0 <= i < slots@.len() implies (#[trigger] slots@[i])
                    < self.values@.len() && self.values@[slots@[i] as int] == other.values@.take(
                    k + 1,
                )[i] by {
                    if i < k {
                        assert(slots@[i] == slots_before[i]);
                    }
                }
            }
            k += 1;
        }
        assert(other.values@.take(k as int) =~= other.values@);
        let mut j: usize = 0;
        while j < other.storage.len()
            invariant
                j <= other.storage@.len(),
                other.arena_wf(),
                offset == old(self).storage@.len(),
                self.storage@.len() == offset + j,
                self.output == old(self).output,
                self.values@ == merge_inputs(old(self).values@, other.values@),
                extends(self.storage@, old(self).storage@),
                renumbers(slots@, other.values@, self.values@),
                forall|i: int|
                    0 <= i < j ==> moved(
                        other.storage@[i],
                        #[trigger] self.storage@[offset + i],
                        offset as int,
                        slots@,
                    ),
            decreases other.storage@.len() - j,
        {
            let len = self.storage.len();
            assert(node_ok(other.storage@[j as int], j as int, other.values@.len() as int));
            let element = match other.storage[j] {
                Element::Const(c) => Element::Const(c),
                Element::Value(idx) => Element::Value(slots[idx]),
                Element::Unary(op, val) => Element::Unary(op, val + offset),
                Element::Binary(op, a, b) => Element::Binary(op, a + offset, b + offset),
                Element::Placeholder => Element::Placeholder,
            };
            self.storage.push(element);
            j += 1;
        }
        proof {
            let src = other.storage@;
            let dst = self.storage@;
            lemma_merge_inputs(old(self).values@, other.values@);
            assert forall|i: int| 0 <= i < dst.len() implies node_ok(
                #[trigger] dst[i],
                i,
                self.values@.len() as int,
            ) by {
                if i < offset {
                    assert(node_ok(old(self).storage@[i], i, old(self).values@.len() as int));
                } else {
                    lemma_expr_at_moved(
                        src,
                        other.values@,
                        dst,
                        self.values@,
                        offset as int,
                        slots@,
                        i - offset,
                    );
                }
            }
            lemma_expr_at_moved(
                src,
                other.values@,
                dst,
                self.values@,
                offset as int,
                slots@,
                other.output as int,
            );
            lemma_expr_at_extended(
                old(self).storage@,
                old(self).values@,
                dst,
                self.values@,
                self.output as int,
            );
        }
        let total = self.storage.len();
        assert(other.output + offset < total);
        other.output + offset
    }

    /// Apply `op` to the result.
    fn unary(self, op: UnaryOp) -> (r: Self)
        requires
            self.wf(),
        ensures
            r.wf(),
            r@ == Expr::unary(op, self@),
            r.inputs() == self.inputs(),
    {
        let val = self.output;
        let r = self.insert(Element::Unary(op, val));
        proof {
            lemma_expr_at_extended(self.storage@, self.values@, r.storage@, r.values@, val as int);
            assert forall|k: int| 0 <= k < r.values@.len() implies r@.reads(
                #[trigger] r.values@[k],
            ) by {
                assert(self@.reads(self.values@[k]));
            }
        }
        r
    }

    /// Evaluate to the absolute value.
    pub fn abs(self) -> (r: Self)
        requires
            self.wf(),
        ensures
            r.wf(),
            r@ == Expr::unary(UnaryOp::Abs, self@),
            r.inputs() == self.inputs(),
    {
        self.unary(UnaryOp::Abs)
    }

    /// Evaluate to the negated value.
    pub fn negate(self) -> (r: Self)
        requires
            self.wf(),
        ensures
            r.wf(),
            r@ == Expr::unary(UnaryOp::Neg, self@),
            r.inputs() == self.inputs(),
    {
        self.unary(UnaryOp::Neg)
    }

    /// Evaluate to 1 if the value is 0, else to 0.
    pub fn invert(self) -> (r: Self)
        requires
            self.wf(),
        ensures
            r.wf(),
            r@ == Expr::unary(UnaryOp::Not, self@),
            r.inputs() == self.inputs(),
    {
        self.unary(UnaryOp::Not)
    }

    /// Apply `op` to the result and to the result of `other`.
    pub fn binary(self, other: Calculation, op: BinaryOp) -> (r: Self)
        requires
            self.wf(),
            other.wf(),
        ensures
            r.wf(),
            r@ == Expr::binary(op, self@, other@),
            r.inputs() == merge_inputs(self.inputs(), other.inputs()),
    {
        let mut base = self;
        let a = base.output;
        let b = base.append(other);
        let r = base.insert(Element::Binary(op, a, b));
        proof {
            lemma_expr_at_extended(base.storage@, base.values@, r.storage@, r.values@, a as int);
            lemma_expr_at_extended(base.storage@, base.values@, r.storage@, r.values@, b as int);
            lemma_merge_inputs(self.values@, other.values@);
            assert forall|k: int| 0 <= k < r.values@.len() implies r@.reads(
                #[trigger] r.values@[k],
            ) by {
                let id = r.values@[k];
                assert(r.values@.contains(id));
                if self.values@.contains(id) {
                    let at = choose|at: int| 0 <= at < self.values@.len() && self.values@[at] == id;
                    assert(self@.reads(self.values@[at]));
                } else {
                    let at = choose|at: int| 0 <= at < other.values@.len() && other.values@[at] == id;
                    assert(other@.reads(other.values@[at]));
                }
            }
        }
        r
    }

    /// Divide by the result of another calculation. Allows setting rounding behavior.
    pub fn div<C: IntoCalculation>(self, r: Rounding, other: C) -> (res: Self)
        requires
            self.wf(),
            other.convertible(),
        ensures
            res.wf(),
            res@ == Expr::binary(BinaryOp::Div(r), self@, other.expr()),
            res.inputs() == merge_inputs(self.inputs(), other.expr_inputs()),
    {
        self.binary(other.into_calc(), BinaryOp::Div(r))
    }

    /// Evaluate to the smaller value between a and b.
    pub fn min<C: IntoCalculation>(self, other: C) -> (res: Self)
        requires
            self.wf(),
            other.convertible(),
        ensures
            res.wf(),
            res@ == Expr::binary(BinaryOp::Min, self@, other.expr()),
            res.inputs() == merge_inputs(self.inputs(), other.expr_inputs()),
    {
        self.binary(other.into_calc(), BinaryOp::Min)
    }

    /// Evaluate to the bigger value between a and b.
    pub fn max<C: IntoCalculation>(self, other: C) -> (res: Self)
        requires
            self.wf(),
            other.convertible(),
        ensures
            res.wf(),
            res@ == Expr::binary(BinaryOp::Max, self@, other.expr()),
            res.inputs() == merge_inputs(self.inputs(), other.expr_inputs()),
    {
        self.binary(other.into_calc(), BinaryOp::Max)
    }

    /// Evaluate to 1 if `a == b` else 0.
    pub fn eq<C: IntoCalculation>(self, other: C) -> (res: Self)
        requires
            self.wf(),
            other.convertible(),
        ensures
            res.wf(),
            res@ == Expr::binary(BinaryOp::Eq, self@, other.expr()),
            res.inputs() == merge_inputs(self.inputs(), other.expr_inputs()),
    {
        self.binary(other.into_calc(), BinaryOp::Eq)
    }

    /// Evaluate to 1 if `a != b` else 0.
    pub fn ne<C: IntoCalculation>(self, other: C) -> (res: Self)
        requires
            self.wf(),
            other.convertible(),
        ensures
            res.wf(),
            res@ == Expr::binary(BinaryOp::Ne, self@, other.expr()),
            res.inputs() == merge_inputs(self.inputs(), other.expr_inputs()),
    {
        self.binary(other.into_calc(), BinaryOp::Ne)
    }

    /// Evaluate to 1 if `a > b` else 0.
    pub fn gt<C: IntoCalculation>(self, other: C) -> (res: Self)
        requires
            self.wf(),
            other.convertible(),
        ensures
            res.wf(),
            res@ == Expr::binary(BinaryOp::Gt, self@, other.expr()),
            res.inputs() == merge_inputs(self.inputs(), other.expr_inputs()),
    {
        self.binary(other.into_calc(), BinaryOp::Gt)
    }

    /// Evaluate to 1 if `a >= b` else 0.
    pub fn ge<C: IntoCalculation>(self, other: C) -> (res: Self)
        requires
            self.wf(),
            other.convertible(),
        ensures
            res.wf(),
            res@ == Expr::binary(BinaryOp::Ge, self@, other.expr()),
            res.inputs() == merge_inputs(self.inputs(), other.expr_inputs()),
    {
        self.binary(other.into_calc(), BinaryOp::Ge)
    }

    /// Evaluate to 1 if `a < b` else 0.
    pub fn lt<C: IntoCalculation>(self, other: C) -> (res: Self)
        requires
            self.wf(),
            other.convertible(),
        ensures
            res.wf(),
            res@ == Expr::binary(BinaryOp::Lt, self@, other.expr()),
            res.inputs() == merge_inputs(self.inputs(), other.expr_inputs()),
    {
        self.binary(other.into_calc(), BinaryOp::Lt)
    }

    /// Evaluate to 1 if `a <= b` else 0.
    pub fn le<C: IntoCalculation>(self, other: C) -> (res: Self)
        requires
            self.wf(),
            other.convertible(),
        ensures
            res.wf(),
            res@ == Expr::binary(BinaryOp::Le, self@, other.expr()),
            res.inputs() == merge_inputs(self.inputs(), other.expr_inputs()),
    {
        self.binary(other.into_calc(), BinaryOp::Le)
    }

    /// Evaluate to 1 if `a != 0 && b != 0` else 0.
    pub fn and<C: IntoCalculation>(self, other: C) -> (res: Self)
        requires
            self.wf(),
            other.convertible(),
        ensures
            res.wf(),
            res@ == Expr::binary(BinaryOp::And, self@, other.expr()),
            res.inputs() == merge_inputs(self.inputs(), other.expr_inputs()),
    {
        self.binary(other.into_calc(), BinaryOp::And)
    }

    /// Evaluate to 1 if `a != 0 || b != 0` else 0.
    pub fn or<C: IntoCalculation>(self, other: C) -> (res: Self)
        requires
            self.wf(),
            other.convertible(),
        ensures
            res.wf(),
            res@ == Expr::binary(BinaryOp::Or, self@, other.expr()),
            res.inputs() == merge_inputs(self.inputs(), other.expr_inputs()),
    {
        self.binary(other.into_calc(), BinaryOp::Or)
    }

    /// The ids of the values that the calculation takes.
    pub fn values(&self) -> (r: &Vec<ValueId>)
        ensures
            r@ == self.inputs(),
    {
        &self.values
    }

    /// Evaluate the calculation. `values` holds the current value of each
    /// input, in the order of `values()`.
    pub fn get(&self, values: &[i32]) -> (r: Result<i32, ErrorKind>)
        requires
            self.wf(),
            values@.len() >= self.inputs().len(),
        ensures
            match r {
                Ok(v) => self@.is_bound() && v == self@.eval(self.env(values@)),
                Err(e) => e == ErrorKind::UnboundPlaceholder && !self@.is_bound(),
            },
    {
        self.eval(values, self.output)
    }

    /// Evaluate the node at `idx`.
    fn eval(&self, values: &[i32], idx: usize) -> (r: Result<i32, ErrorKind>)
        requires
            self.arena_wf(),
            values@.len() >= self.values@.len(),
            idx < self.storage@.len(),
        ensures
            match r {
                Ok(v) => expr_at(self.storage@, self.values@, idx as int).is_bound() && v
                    == expr_at(self.storage@, self.values@, idx as int).eval(self.env(values@)),
                Err(e) => e == ErrorKind::UnboundPlaceholder && !expr_at(
                    self.storage@,
                    self.values@,
                    idx as int,
                ).is_bound(),
            },
        decreases idx,
    {
        assert(node_ok(self.storage@[idx as int], idx as int, self.values@.len() as int));
        match self.storage[idx] {
            Element::Const(v) => Ok(v),
            Element::Value(slot) => {
                proof {
                    let id = self.values@[slot as int];
                    let found = self.values@.index_of(id);
                    assert(self.values@.contains(id));
                    assert(self.values@[found] == id);
                }
                Ok(values[slot])
            },
            Element::Unary(op, val) => match self.eval(values, val) {
                Ok(v) => Ok(op.exec(v)),
                Err(e) => Err(e),
            },
            Element::Binary(op, a, b) => {
                let left = self.eval(values, a);
                let right = self.eval(values, b);
                match left {
                    Ok(x) => match right {
                        Ok(y) => Ok(op.exec(x, y)),
                        Err(e) => Err(e),
                    },
                    Err(e) => Err(e),
                }
            },
            Element::Placeholder => Err(ErrorKind::UnboundPlaceholder),
        }
    }
}

} // verus!
