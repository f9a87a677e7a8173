//! Symbolic operand stacks: what is known of the stack and of memory while a procedure body is
//! followed instruction by instruction.
use std::collections::VecDeque;
use vstd::prelude::*;
use crate::text::same_text;

verus! {

/// What is known of one field element.
#[derive(Debug)]
pub enum Value {
    /// The element that stood this deep on the stack when the body was entered.
    Input(usize),
    /// Nothing is known.
    Unknown,
    /// A constant, in canonical form.
    Felt(u64),
    /// The address of a local.
    Address(u32),
    /// One element of the hash of a procedure.
    ProcRef { path: String, index: u8 },
}

/// The model of a value.
pub enum Val {
    Input(usize),
    Unknown,
    Felt(u64),
    Address(u32),
    ProcRef { path: Seq<char>, index: u8 },
}

impl View for Value {
    type V = Val;

    open spec fn view(&self) -> Val {
        match *self {
            Value::Input(index) => Val::Input(index),
            Value::Unknown => Val::Unknown,
            Value::Felt(felt) => Val::Felt(felt),
            Value::Address(address) => Val::Address(address),
            Value::ProcRef { path, index } => Val::ProcRef { path: path@, index },
        }
    }
}

impl Value {
    /// The same value once more.
    pub fn copy(&self) -> (copy: Value)
        ensures
            copy@ == self@,
    {
        match self {
            Value::Input(index) => Value::Input(*index),
            Value::Unknown => Value::Unknown,
            Value::Felt(felt) => Value::Felt(*felt),
            Value::Address(address) => Value::Address(*address),
            Value::ProcRef { path, index } => Value::ProcRef { path: path.clone(), index: *index },
        }
    }

    /// Whether two values are the same.
    pub fn same(&self, other: &Value) -> (same: bool)
        ensures
            same == (self@ == other@),
    {
        match (self, other) {
            (Value::Input(a), Value::Input(b)) => *a == *b,
            (Value::Unknown, Value::Unknown) => true,
            (Value::Felt(a), Value::Felt(b)) => *a == *b,
            (Value::Address(a), Value::Address(b)) => *a == *b,
            (Value::ProcRef { path: p, index: i }, Value::ProcRef { path: q, index: j }) => *i == *j
                && same_text(p, q),
            _ => false,
        }
    }
}

/// The models of a list of values.
pub open spec fn vals(values: Seq<Value>) -> Seq<Val> {
    Seq::new(values.len(), |i: int| values[i]@)
}

/// `count` values of which nothing is known.
pub open spec fn unknowns(count: nat) -> Seq<Val> {
    Seq::new(count, |i: int| Val::Unknown)
}

/// A vector of `count` values of which nothing is known.
pub fn unknown_values(count: usize) -> (values: Vec<Value>)
    ensures
        vals(values@) == unknowns(count as nat),
{
    let mut values: Vec<Value> = Vec::new();
    let mut i: usize = 0;
    while i < count
        invariant
            i <= count,
            vals(values@) == unknowns(i as nat),
        decreases count - i,
    {
        let ghost before = vals(values@);
        values.push(Value::Unknown);
        i = i + 1;
        assert(vals(values@) =~= before.push(Val::Unknown));
        assert(vals(values@) =~= unknowns(i as nat));
    }
    values
}

/// A copy of a list of values.
pub fn copy_values(values: &Vec<Value>) -> (copies: Vec<Value>)
    ensures
        vals(copies@) == vals(values@),
{
    let mut copies: Vec<Value> = Vec::new();
    let mut i: usize = 0;
    while i < values.len()
        invariant
            i <= values.len(),
            vals(copies@) == vals(values@).take(i as int),
        decreases values.len() - i,
    {
        let copy = values[i].copy();
        let ghost before = vals(copies@);
        copies.push(copy);
        i = i + 1;
        assert(vals(copies@) =~= before.push(copy@));
        assert(vals(copies@) =~= vals(values@).take(i as int));
    }
    assert(vals(values@).take(i as int) =~= vals(values@));
    copies
}

/// The number behind `n`; behind the largest one comes zero.
pub open spec fn successor(n: usize) -> usize {
    if n == usize::MAX {
        0
    } else {
        (n + 1) as usize
    }
}

fn next_number(n: usize) -> (next: usize)
    ensures
        next == successor(n),
{
    if n == usize::MAX {
        0
    } else {
        n + 1
    }
}

/// The model of a symbolic machine state. The top of the stack comes first.
pub struct StackState {
    /// The stack, as far down as the body has looked.
    pub stack: Seq<Val>,
    /// The number of the first input below the stack.
    pub next_input: usize,
    /// One more than the highest number of an input that the body has used.
    pub highest_input_touched: usize,
    /// What is known of memory.
    pub memory: Map<u32, Val>,
}

impl StackState {
    /// Nothing has happened yet.
    pub open spec fn start() -> StackState {
        StackState {
            stack: Seq::empty(),
            next_input: 0,
            highest_input_touched: 0,
            memory: Map::empty(),
        }
    }

    /// Looks at least `depth` elements down.
    pub open spec fn deepened(self, depth: nat) -> StackState
        decreases depth - self.stack.len(),
    {
        if self.stack.len() >= depth {
            self
        } else {
            (StackState {
                stack: self.stack.push(Val::Input(self.next_input)),
                next_input: successor(self.next_input),
                ..self
            }).deepened(depth)
        }
    }

    /// Notes that a value was used.
    pub open spec fn touched(self, value: Val) -> StackState {
        match value {
            Val::Input(index) => StackState {
                highest_input_touched: if self.highest_input_touched >= successor(index) {
                    self.highest_input_touched
                } else {
                    successor(index)
                },
                ..self
            },
            _ => self,
        }
    }

    /// Notes that several values were used.
    pub open spec fn touched_all(self, values: Seq<Val>) -> StackState
        decreases values.len(),
    {
        if values.len() == 0 {
            self
        } else {
            self.touched_all(values.drop_last()).touched(values.last())
        }
    }

    /// The top of the stack.
    pub open spec fn top(self) -> Val {
        self.deepened(1).stack[0]
    }

    /// What is left when the top is taken off.
    pub open spec fn popped(self) -> StackState {
        let deep = self.deepened(1);
        (StackState { stack: deep.stack.skip(1), ..deep }).touched(deep.stack[0])
    }

    /// What is left when `count` elements are taken off one after another.
    pub open spec fn popped_many(self, count: nat) -> StackState
        decreases count,
    {
        if count == 0 {
            self
        } else {
            self.popped_many((count - 1) as nat).popped()
        }
    }

    /// The topmost `count` elements, the top first.
    pub open spec fn top_many(self, count: nat) -> Seq<Val>
        decreases count,
    {
        if count == 0 {
            Seq::empty()
        } else {
            self.top_many((count - 1) as nat).push(self.popped_many((count - 1) as nat).top())
        }
    }

    /// Notes that the topmost `count` elements were read where they stand.
    pub open spec fn peeked(self, count: nat) -> StackState {
        let deep = self.deepened(count);
        deep.touched_all(deep.stack.take(count as int))
    }

    /// Puts one value on top.
    pub open spec fn pushed(self, value: Val) -> StackState {
        StackState { stack: seq![value] + self.stack, ..self }
    }

    /// Puts values on top, the first of them topmost.
    pub open spec fn pushed_many(self, values: Seq<Val>) -> StackState {
        StackState { stack: values + self.stack, ..self }
    }

    /// Takes `count` elements off and puts `values` on top.
    pub open spec fn set_top(self, count: nat, values: Seq<Val>) -> StackState {
        self.popped_many(count).pushed_many(values)
    }

    /// Replaces up to `count` elements that have been looked at, without using them.
    pub open spec fn replaced_top(self, count: nat, values: Seq<Val>) -> StackState {
        let kept = if self.stack.len() < count {
            Seq::empty()
        } else {
            self.stack.skip(count as int)
        };
        StackState { stack: values + kept, ..self }
    }

    /// What is known of the element at `address`.
    pub open spec fn loaded(self, address: u32) -> Val {
        if self.memory.contains_key(address) {
            self.memory[address]
        } else {
            Val::Unknown
        }
    }

    /// Writes `value` to `address`.
    pub open spec fn stored(self, address: u32, value: Val) -> StackState {
        StackState { memory: self.memory.insert(address, value), ..self }
    }

    /// Forgets what is known of memory.
    pub open spec fn forgotten(self) -> StackState {
        StackState { memory: Map::empty(), ..self }
    }
}

/// What a list of writes leaves in memory; a later write to an address replaces an earlier one.
pub open spec fn memory_map(entries: Seq<(u32, Value)>) -> Map<u32, Val>
    decreases entries.len(),
{
    if entries.len() == 0 {
        Map::empty()
    } else {
        memory_map(entries.drop_last()).insert(entries.last().0, entries.last().1@)
    }
}

/// A symbolic machine state.
#[derive(Debug)]
pub struct State {
    stack: VecDeque<Value>,
    next_input: usize,
    highest_input_touched: usize,
    memory: Vec<(u32, Value)>,
}

impl View for State {
    type V = StackState;

    closed spec fn view(&self) -> StackState {
        StackState {
            stack: vals(self.stack@),
            next_input: self.next_input,
            highest_input_touched: self.highest_input_touched,
            memory: memory_map(self.memory@),
        }
    }
}

proof fn lemma_memory_remove(entries: Seq<(u32, Value)>, at: int, value: Val)
    requires
        0 <= at < entries.len(),
    ensures
        memory_map(entries.remove(at)).insert(entries[at].0, value) == memory_map(entries).insert(
            entries[at].0,
            value,
        ),
    decreases entries.len(),
{
    let address = entries[at].0;
    if at == entries.len() - 1 {
        assert(entries.remove(at) =~= entries.drop_last());
        assert(memory_map(entries.drop_last()).insert(address, value) =~= memory_map(
            entries,
        ).insert(address, value));
    } else {
        lemma_memory_remove(entries.drop_last(), at, value);
        let shorter = entries.remove(at);
        assert(shorter.drop_last() =~= entries.drop_last().remove(at));
        assert(shorter.last() == entries.last());
        let left = memory_map(shorter).insert(address, value);
        let right = memory_map(entries).insert(address, value);
        let inner_left = memory_map(entries.drop_last().remove(at)).insert(address, value);
        let inner_right = memory_map(entries.drop_last()).insert(address, value);
        assert(inner_left == inner_right);
        assert forall|key: u32| left.contains_key(key) == right.contains_key(key) by {
            assert(inner_left.contains_key(key) == inner_right.contains_key(key));
        }
        assert forall|key: u32| left.contains_key(key) implies left[key] == right[key] by {
            assert(inner_left[key] == inner_right[key]);
        }
        assert(left =~= right);
    }
}

proof fn lemma_memory_keys(entries: Seq<(u32, Value)>, key: u32)
    ensures
        memory_map(entries).contains_key(key) <==> exists|i: int|
            0 <= i < entries.len() && (#[trigger] entries[i]).0 == key,
    decreases entries.len(),
{
    if entries.len() > 0 {
        let rest = entries.drop_last();
        lemma_memory_keys(rest, key);
        if memory_map(rest).contains_key(key) {
            let i = choose|i: int| 0 <= i < rest.len() && (#[trigger] rest[i]).0 == key;
            assert(entries[i].0 == key);
        }
        if entries.last().0 == key {
            assert(entries[entries.len() - 1].0 == key);
        }
        if exists|i: int| 0 <= i < entries.len() && (#[trigger] entries[i]).0 == key {
            let i = choose|i: int| 0 <= i < entries.len() && (#[trigger] entries[i]).0 == key;
            if i < rest.len() {
                assert(rest[i].0 == key);
            }
        }
    }
}

/// Looks `address` up in a list of writes.
fn find_entry(entries: &Vec<(u32, Value)>, address: u32) -> (found: Option<usize>)
    ensures
        match found {
            Some(at) => at < entries.len() && entries@[at as int].0 == address && memory_map(
                entries@,
            ).contains_key(address) && memory_map(entries@)[address] == entries@[at as int].1@,
            None => !memory_map(entries@).contains_key(address),
        },
{
    let mut i: usize = entries.len();
    assert(entries@.take(i as int) =~= entries@);
    while i > 0
        invariant
            i <= entries.len(),
            memory_map(entries@).contains_key(address) == memory_map(
                entries@.take(i as int),
            ).contains_key(address),
            memory_map(entries@.take(i as int)).contains_key(address) ==> memory_map(
                entries@,
            )[address] == memory_map(entries@.take(i as int))[address],
        decreases i,
    {
        assert(entries@.take(i as int).drop_last() =~= entries@.take(i - 1));
        i = i - 1;
        if entries[i].0 == address {
            return Some(i);
        }
    }
    None
}

/// Whether every address of `left` is known in `right`, with the same value, and was the same in
/// `left`.
fn entries_agree(left: &Vec<(u32, Value)>, right: &Vec<(u32, Value)>) -> (agree: bool)
    ensures
        agree == (forall|key: u32| #[trigger]
            memory_map(left@).contains_key(key) ==> memory_map(right@).contains_key(key)
                && memory_map(left@)[key] == memory_map(right@)[key]),
{
    let mut i: usize = 0;
    while i < left.len()
        invariant
            i <= left.len(),
            forall|k: int|
                0 <= k < i ==> memory_map(right@).contains_key((#[trigger] left@[k]).0)
                    && memory_map(left@)[left@[k].0] == memory_map(right@)[left@[k].0],
        decreases left.len() - i,
    {
        let key = left[i].0;
        proof {
            assert(left@[i as int].0 == key);
            lemma_memory_keys(left@, key);
        }
        match (find_entry(left, key), find_entry(right, key)) {
            (Some(a), Some(b)) => {
                if !left[a].1.same(&right[b].1) {
                    return false;
                }
            },
            _ => return false,
        }
        i = i + 1;
    }
    proof {
        assert forall|key: u32| #[trigger] memory_map(left@).contains_key(key) implies memory_map(
            right@,
        ).contains_key(key) && memory_map(left@)[key] == memory_map(right@)[key] by {
            lemma_memory_keys(left@, key);
            let k = choose|k: int| 0 <= k < left@.len() && (#[trigger] left@[k]).0 == key;
            assert(left@[k].0 == key);
        }
    }
    true
}

impl State {
    /// The state in which a body is entered.
    pub fn new() -> (state: State)
        ensures
            state@ == StackState::start(),
    {
        let state = State {
            stack: VecDeque::new(),
            next_input: 0,
            highest_input_touched: 0,
            memory: Vec::new(),
        };
        assert(vals(state.stack@) =~= Seq::<Val>::empty());
        state
    }

    /// The same state once more.
    pub fn copy(&self) -> (copy: State)
        ensures
            copy@ == self@,
    {
        let mut stack: VecDeque<Value> = VecDeque::new();
        let mut i: usize = 0;
        while i < self.stack.len()
            invariant
                i <= self.stack.len(),
                vals(stack@) == vals(self.stack@).take(i as int),
            decreases self.stack.len() - i,
        {
            let value = self.stack[i].copy();
            let ghost before = vals(stack@);
            stack.push_back(value);
            i = i + 1;
            assert(vals(stack@) =~= before.push(value@));
            assert(vals(stack@) =~= vals(self.stack@).take(i as int));
        }
        assert(vals(self.stack@).take(i as int) =~= vals(self.stack@));
        let mut memory: Vec<(u32, Value)> = Vec::new();
        let mut j: usize = 0;
        assert(self.memory@.take(0) =~= Seq::<(u32, Value)>::empty());
        while j < self.memory.len()
            invariant
                j <= self.memory.len(),
                memory_map(memory@) == memory_map(self.memory@.take(j as int)),
            decreases self.memory.len() - j,
        {
            let entry = (self.memory[j].0, self.memory[j].1.copy());
            let ghost before = memory@;
            memory.push(entry);
            assert(memory@.drop_last() =~= before);
            assert(self.memory@.take(j + 1).drop_last() =~= self.memory@.take(j as int));
            j = j + 1;
        }
        assert(self.memory@.take(j as int) =~= self.memory@);
        State {
            stack,
            next_input: self.next_input,
            highest_input_touched: self.highest_input_touched,
            memory,
        }
    }

    /// Whether two states are the same.
    pub fn same(&self, other: &State) -> (same: bool)
        ensures
            same == (self@ == other@),
    {
        if self.next_input != other.next_input || self.highest_input_touched
            != other.highest_input_touched || self.stack.len() != other.stack.len() {
            assert(self@.stack.len() == self.stack@.len());
            assert(other@.stack.len() == other.stack@.len());
            return false;
        }
        let mut i: usize = 0;
        while i < self.stack.len()
            invariant
                i <= self.stack.len(),
                self.stack.len() == other.stack.len(),
                forall|k: int| 0 <= k < i ==> vals(self.stack@)[k] == vals(other.stack@)[k],
            decreases self.stack.len() - i,
        {
            if !self.stack[i].same(&other.stack[i]) {
                assert(self@.stack[i as int] != other@.stack[i as int]);
                return false;
            }
            i = i + 1;
        }
        assert(self@.stack =~= other@.stack);
        let agree = entries_agree(&self.memory, &other.memory) && entries_agree(
            &other.memory,
            &self.memory,
        );
        proof {
            let left = memory_map(self.memory@);
            let right = memory_map(other.memory@);
            if agree {
                assert forall|key: u32| left.contains_key(key) == right.contains_key(key) by {}
                assert(left =~= right);
            }
        }
        agree
    }

    /// The stack as far as it has been looked at, the top first.
    pub fn values(&self) -> (values: Vec<Value>)
        ensures
            vals(values@) == self@.stack,
    {
        let mut values: Vec<Value> = Vec::new();
        let mut i: usize = 0;
        while i < self.stack.len()
            invariant
                i <= self.stack.len(),
                vals(values@) == vals(self.stack@).take(i as int),
            decreases self.stack.len() - i,
        {
            let value = self.stack[i].copy();
            let ghost before = vals(values@);
            values.push(value);
            i = i + 1;
            assert(vals(values@) =~= before.push(value@));
            assert(vals(values@) =~= vals(self.stack@).take(i as int));
        }
        assert(vals(self.stack@).take(i as int) =~= vals(self.stack@));
        values
    }

    /// One more than the highest number of an input that the body has used.
    pub fn inputs_used(&self) -> (count: usize)
        ensures
            count == self@.highest_input_touched,
    {
        self.highest_input_touched
    }

    /// Looks at least `depth` elements down.
    pub fn ensure_depth(&mut self, depth: usize)
        ensures
            final(self)@ == old(self)@.deepened(depth as nat),
            final(self)@.stack.len() >= depth,
    {
        while self.stack.len() < depth
            invariant
                self@.deepened(depth as nat) == old(self)@.deepened(depth as nat),
            decreases depth - self.stack@.len(),
        {
            let ghost before = self@;
            let input = self.next_input;
            self.stack.push_back(Value::Input(input));
            self.next_input = next_number(input);
            assert(self@.stack =~= before.stack.push(Val::Input(input)));
        }
        assert(self@.stack.len() == self.stack@.len());
    }

    /// Notes that a value was used.
    pub fn touch(&mut self, value: &Value)
        ensures
            final(self)@ == old(self)@.touched(value@),
    {
        if let Value::Input(index) = value {
            let used = next_number(*index);
            if self.highest_input_touched < used {
                self.highest_input_touched = used;
            }
        }
    }

    /// Takes the top off.
    pub fn pop(&mut self) -> (value: Value)
        ensures
            final(self)@ == old(self)@.popped(),
            value@ == old(self)@.top(),
    {
        self.ensure_depth(1);
        let ghost deep = self@;
        assert(self.stack@.len() == self@.stack.len());
        match self.stack.pop_front() {
            Some(value) => {
                assert(self@.stack =~= deep.stack.skip(1));
                self.touch(&value);
                value
            },
            None => Value::Unknown,
        }
    }

    /// Takes `count` elements off, one after another.
    pub fn pop_many(&mut self, count: usize) -> (values: Vec<Value>)
        ensures
            final(self)@ == old(self)@.popped_many(count as nat),
            vals(values@) == old(self)@.top_many(count as nat),
            values@.len() == count,
    {
        let mut values: Vec<Value> = Vec::new();
        let mut i: usize = 0;
        assert(vals(values@) =~= Seq::<Val>::empty());
        while i < count
            invariant
                i <= count,
                values@.len() == i,
                self@ == old(self)@.popped_many(i as nat),
                vals(values@) == old(self)@.top_many(i as nat),
            decreases count - i,
        {
            let ghost before = vals(values@);
            let value = self.pop();
            values.push(value);
            i = i + 1;
            assert(vals(values@) =~= before.push(value@));
        }
        values
    }

    /// Reads the topmost `count` elements where they stand.
    pub fn peek_many(&mut self, count: usize) -> (values: Vec<Value>)
        ensures
            final(self)@ == old(self)@.peeked(count as nat),
            vals(values@) == old(self)@.deepened(count as nat).stack.take(count as int),
            values@.len() == count,
    {
        self.ensure_depth(count);
        let ghost deep = self@;
        let ghost read = deep.stack.take(count as int);
        let mut values: Vec<Value> = Vec::new();
        let mut i: usize = 0;
        assert(read.take(0) =~= Seq::<Val>::empty());
        assert(vals(values@) =~= read.take(0));
        while i < count
            invariant
                i <= count,
                values@.len() == i,
                deep.stack.len() >= count,
                read == deep.stack.take(count as int),
                vals(values@) == read.take(i as int),
                self@ == deep.touched_all(read.take(i as int)),
                self@.stack == deep.stack,
            decreases count - i,
        {
            assert(self.stack@.len() == self@.stack.len());
            let value = self.stack[i as usize].copy();
            assert(value@ == self@.stack[i as int]);
            let ghost before = vals(values@);
            self.touch(&value);
            values.push(value);
            assert(read.take(i + 1).drop_last() =~= read.take(i as int));
            assert(vals(values@) =~= before.push(value@));
            assert(vals(values@) =~= read.take(i + 1));
            i = i + 1;
        }
        assert(read.take(i as int) =~= read);
        values
    }

    /// Puts `value` on top.
    pub fn push(&mut self, value: Value)
        ensures
            final(self)@ == old(self)@.pushed(value@),
    {
        let ghost before = self@;
        self.stack.push_front(value);
        assert(self@.stack =~= seq![value@] + before.stack);
    }

    /// Puts `values` on top, the first of them topmost.
    pub fn push_many(&mut self, values: Vec<Value>)
        ensures
            final(self)@ == old(self)@.pushed_many(vals(values@)),
    {
        let mut values = values;
        let ghost all = vals(values@);
        let ghost start = self@;
        let ghost mut left: int = values@.len() as int;
        assert(all.skip(left) + start.stack =~= start.stack);
        while values.len() > 0
            invariant
                start == old(self)@,
                0 <= left <= all.len(),
                vals(values@) == all.take(left),
                left == values@.len(),
                self@ == start.pushed_many(all.skip(left)),
            decreases values.len(),
        {
            let ghost before = self@;
            let ghost shown = values@;
            if let Some(value) = values.pop() {
                assert(value@ == vals(shown)[left - 1]);
                assert(vals(values@) =~= all.take(left - 1));
                self.push(value);
                assert(seq![value@] + (all.skip(left) + start.stack) =~= all.skip(left - 1)
                    + start.stack);
            }
            proof {
                left = left - 1;
            }
        }
        assert(all.skip(left) =~= all);
    }

    /// Takes `count` elements off and puts `values` on top.
    pub fn set_top_many(&mut self, count: usize, values: Vec<Value>)
        ensures
            final(self)@ == old(self)@.set_top(count as nat, vals(values@)),
    {
        self.pop_many(count);
        self.push_many(values);
    }

    /// Replaces up to `count` elements that have been looked at, without using them.
    pub fn replace_top_many(&mut self, count: usize, values: Vec<Value>)
        ensures
            final(self)@ == old(self)@.replaced_top(count as nat, vals(values@)),
    {
        let ghost start = self@;
        let removed = if self.stack.len() < count {
            self.stack.len()
        } else {
            count
        };
        assert(start.stack.len() == self.stack@.len());
        let mut i: usize = 0;
        assert(start.stack.skip(0) =~= start.stack);
        while i < removed
            invariant
                i <= removed <= start.stack.len(),
                self@.stack == start.stack.skip(i as int),
                self@ == (StackState { stack: start.stack.skip(i as int), ..start }),
            decreases removed - i,
        {
            let ghost shown = self@.stack;
            assert(shown.len() == self.stack@.len());
            let _ = self.stack.pop_front();
            i = i + 1;
            assert(self@.stack =~= shown.skip(1));
            assert(self@.stack =~= start.stack.skip(i as int));
        }
        if removed < count {
            assert(start.stack.skip(removed as int) =~= Seq::<Val>::empty());
        }
        self.push_many(values);
    }

    /// What is known of the element at `address`.
    pub fn load(&self, address: u32) -> (value: Value)
        ensures
            value@ == self@.loaded(address),
    {
        match find_entry(&self.memory, address) {
            Some(at) => self.memory[at].1.copy(),
            None => Value::Unknown,
        }
    }

    /// What was written to `address`, if it is known.
    pub fn known(&self, address: u32) -> (value: Option<Value>)
        ensures
            match value {
                Some(value) => self@.memory.contains_key(address) && value@ == self@.memory[address],
                None => !self@.memory.contains_key(address),
            },
    {
        match find_entry(&self.memory, address) {
            Some(at) => Some(self.memory[at].1.copy()),
            None => None,
        }
    }

    /// Writes `value` to `address`.
    pub fn store(&mut self, address: u32, value: Value)
        ensures
            final(self)@ == old(self)@.stored(address, value@),
    {
        let ghost before = self@.memory;
        if let Some(at) = find_entry(&self.memory, address) {
            proof {
                lemma_memory_remove(self.memory@, at as int, value@);
            }
            self.memory.remove(at);
        }
        let ghost entries = self.memory@;
        self.memory.push((address, value));
        assert(self.memory@.drop_last() =~= entries);
        assert(memory_map(self.memory@) == before.insert(address, value@));
    }

    /// Forgets what is known of memory.
    pub fn clear_known_memory(&mut self)
        ensures
            final(self)@ == old(self)@.forgotten(),
    {
        self.memory = Vec::new();
    }
}

} // verus!
