use crate::key::StorageKey;
use vstd::prelude::*;

verus! {

/// One write that the reversible queue can replay on the store.
#[derive(Clone, Copy, Debug)]
pub enum Action<V> {
    /// Store the value under the key, without propagation.
    Write(StorageKey, V),
    /// Remove the value under the key.
    Remove(StorageKey),
    /// Run the key's own initialiser again.
    Init(StorageKey),
}

impl<V> Action<V> {
    /// The key that the action writes.
    pub open spec fn key(self) -> StorageKey {
        match self {
            Action::Write(k, _) => k,
            Action::Remove(k) => k,
            Action::Init(k) => k,
        }
    }

    pub fn target(&self) -> (r: StorageKey)
        ensures
            r == self.key(),
    {
        match self {
            Action::Write(k, _) => *k,
            Action::Remove(k) => *k,
            Action::Init(k) => *k,
        }
    }
}

/// A reversible mutation: the action that performs it and the one that undoes it.
#[derive(Clone, Copy, Debug)]
pub struct Command<V> {
    pub do_cmd: Action<V>,
    pub reverse_cmd: Action<V>,
}

impl<V> Command<V> {
    pub fn new(do_cmd: Action<V>, undo_cmd: Action<V>) -> (r: Self)
        ensures
            r.do_cmd == do_cmd,
            r.reverse_cmd == undo_cmd,
    {
        Command { do_cmd, reverse_cmd: undo_cmd }
    }
}

/// What a history of reversible mutations holds: its commands, and the cursor
/// that splits the applied ones (before it) from the undone ones.
pub struct History<V> {
    pub commands: Seq<Command<V>>,
    pub cursor: int,
}

impl<V> History<V> {
    pub open spec fn wf(self) -> bool {
        0 <= self.cursor <= self.commands.len()
    }
}

/// What a map holds under `k`.
pub open spec fn entry<V>(m: Map<StorageKey, V>, k: StorageKey) -> Option<V> {
    if m.contains_key(k) {
        Some(m[k])
    } else {
        None
    }
}

/// The action that puts back what `k` held: its value, or its absence.
pub open spec fn restore<V>(k: StorageKey, prev: Option<V>) -> Action<V> {
    match prev {
        Some(v) => Action::Write(k, v),
        None => Action::Remove(k),
    }
}

/// What an action does to the stored values (an initialiser's result is not
/// known here, so `Init` leaves them as they are).
pub open spec fn apply<V>(m: Map<StorageKey, V>, a: Action<V>) -> Map<StorageKey, V> {
    match a {
        Action::Write(k, v) => m.insert(k, v),
        Action::Remove(k) => m.remove(k),
        Action::Init(_) => m,
    }
}

/// The key that an action runs the initialiser of, if it does.
pub open spec fn init_target<V>(a: Action<V>) -> Option<StorageKey> {
    match a {
        Action::Init(k) => Some(k),
        _ => None,
    }
}

/// Applying an action leaves every other key as it was.
pub proof fn lemma_apply_other<V>(m: Map<StorageKey, V>, a: Action<V>, x: StorageKey)
    requires
        x != a.key(),
    ensures
        entry(apply(m, a), x) == entry(m, x),
{
}

/// Applying one action to two maps that agree on `x` keeps them agreeing on
/// `x`, unless the action runs the initialiser of `x`.
pub proof fn lemma_apply_agrees<V>(m1: Map<StorageKey, V>, m2: Map<StorageKey, V>, a: Action<V>, x: StorageKey)
    requires
        entry(m1, x) == entry(m2, x),
        init_target(a) != Some(x),
    ensures
        entry(apply(m1, a), x) == entry(apply(m2, a), x),
{
}

/// No command in `[lo, hi)` runs an initialiser, either way.
pub open spec fn no_init_between<V>(h: History<V>, lo: int, hi: int) -> bool {
    forall|i: int|
        lo <= i < hi ==> !(#[trigger] h.commands[i].do_cmd is Init) && !(
        h.commands[i].reverse_cmd is Init)
}

/// Recording a command: the undone commands are dropped, the new one is
/// appended and counts as applied.
pub open spec fn record<V>(h: History<V>, c: Command<V>) -> History<V> {
    History { commands: h.commands.subrange(0, h.cursor).push(c), cursor: h.cursor + 1 }
}

/// A reversible write of `v` under `k`, on the history and on the values.
pub open spec fn reversible_write<V>(h: History<V>, m: Map<StorageKey, V>, k: StorageKey, v: V) -> (
    History<V>,
    Map<StorageKey, V>,
) {
    (
        record(h, Command { do_cmd: Action::Write(k, v), reverse_cmd: restore(k, entry(m, k)) }),
        m.insert(k, v),
    )
}

/// A reversible removal of what `k` holds: recorded only when `k` holds a value.
pub open spec fn reversible_remove<V>(h: History<V>, m: Map<StorageKey, V>, k: StorageKey) -> (
    History<V>,
    Map<StorageKey, V>,
) {
    if m.contains_key(k) {
        (
            record(h, Command { do_cmd: Action::Remove(k), reverse_cmd: Action::Write(k, m[k]) }),
            m.remove(k),
        )
    } else {
        (h, m)
    }
}

/// One step back in time: the last applied command is undone.
pub open spec fn step_back<V>(h: History<V>, m: Map<StorageKey, V>) -> (
    History<V>,
    Map<StorageKey, V>,
) {
    if h.cursor > 0 {
        (
            History { commands: h.commands, cursor: h.cursor - 1 },
            apply(m, h.commands[h.cursor - 1].reverse_cmd),
        )
    } else {
        (h, m)
    }
}

/// One step forward in time: the first undone command is applied again.
pub open spec fn step_forward<V>(h: History<V>, m: Map<StorageKey, V>) -> (
    History<V>,
    Map<StorageKey, V>,
) {
    if h.cursor < h.commands.len() {
        (
            History { commands: h.commands, cursor: h.cursor + 1 },
            apply(m, h.commands[h.cursor].do_cmd),
        )
    } else {
        (h, m)
    }
}

pub open spec fn back_n<V>(h: History<V>, m: Map<StorageKey, V>, n: nat) -> (
    History<V>,
    Map<StorageKey, V>,
)
    decreases n,
{
    if n == 0 {
        (h, m)
    } else {
        let p = back_n(h, m, (n - 1) as nat);
        step_back(p.0, p.1)
    }
}

pub open spec fn forward_n<V>(h: History<V>, m: Map<StorageKey, V>, n: nat) -> (
    History<V>,
    Map<StorageKey, V>,
)
    decreases n,
{
    if n == 0 {
        (h, m)
    } else {
        let p = forward_n(h, m, (n - 1) as nat);
        step_forward(p.0, p.1)
    }
}

/// Stepping back or forward until the cursor is `target`.
pub open spec fn travel<V>(h: History<V>, m: Map<StorageKey, V>, target: int) -> (
    History<V>,
    Map<StorageKey, V>,
) {
    if target <= h.cursor {
        back_n(h, m, (h.cursor - target) as nat)
    } else {
        forward_n(h, m, (target - h.cursor) as nat)
    }
}

/// Stepping back `n` times, from a cursor at least `n`, moves the cursor back `n`.
pub proof fn lemma_back_n_history<V>(h: History<V>, m: Map<StorageKey, V>, n: nat)
    requires
        h.wf(),
        n <= h.cursor,
    ensures
        back_n(h, m, n).0 == (History { commands: h.commands, cursor: h.cursor - n }),
    decreases n,
{
    if n > 0 {
        lemma_back_n_history(h, m, (n - 1) as nat);
    }
}

/// Stepping forward `n` times, with `n` undone commands, moves the cursor forward `n`.
pub proof fn lemma_forward_n_history<V>(h: History<V>, m: Map<StorageKey, V>, n: nat)
    requires
        h.wf(),
        h.cursor + n <= h.commands.len(),
    ensures
        forward_n(h, m, n).0 == (History { commands: h.commands, cursor: h.cursor + n }),
    decreases n,
{
    if n > 0 {
        lemma_forward_n_history(h, m, (n - 1) as nat);
    }
}

/// Reversible writes of each of `vs` under `k`, in order.
pub open spec fn write_all<V>(h: History<V>, m: Map<StorageKey, V>, k: StorageKey, vs: Seq<V>) -> (
    History<V>,
    Map<StorageKey, V>,
)
    decreases vs.len(),
{
    if vs.len() == 0 {
        (h, m)
    } else {
        let p = write_all(h, m, k, vs.drop_last());
        reversible_write(p.0, p.1, k, vs.last())
    }
}

/// A list of values, as an undo history may keep them.
#[derive(Clone, Debug)]
pub struct UndoVec<T>(pub Vec<T>);

/// The reversible queue: commands in the order they were recorded, and a
/// cursor in `[0, len]`.
pub struct UndoStore<V> {
    pub commands: Vec<Command<V>>,
    pub cursor: usize,
}

impl<V: Copy> UndoStore<V> {
    pub open spec fn view(&self) -> History<V> {
        History { commands: self.commands@, cursor: self.cursor as int }
    }

    pub open spec fn wf(&self) -> bool {
        self.cursor <= self.commands.len()
    }

    pub fn new() -> (r: Self)
        ensures
            r.wf(),
            r@.commands == Seq::<Command<V>>::empty(),
            r@.cursor == 0,
    {
        UndoStore { commands: Vec::new(), cursor: 0 }
    }

    pub fn len(&self) -> (r: usize)
        ensures
            r == self.commands.len(),
    {
        self.commands.len()
    }

    /// Drops the undone commands, appends `c` and moves the cursor past it.
    pub fn push_command(&mut self, c: Command<V>)
        requires
            old(self).wf(),
        ensures
            final(self).wf(),
            final(self)@ == record(old(self)@, c),
    {
        self.commands.truncate(self.cursor);
        self.commands.push(c);
        self.cursor = self.commands.len();
    }

    /// The command to undo next, if any is applied; the cursor moves before it.
    pub fn step_back(&mut self) -> (r: Option<Action<V>>)
        requires
            old(self).wf(),
        ensures
            final(self).wf(),
            final(self).commands == old(self).commands,
            old(self).cursor > 0 ==> final(self).cursor == old(self).cursor - 1 && r == Some(
                old(self).commands@[old(self).cursor - 1].reverse_cmd,
            ),
            old(self).cursor == 0 ==> final(self).cursor == 0 && r is None,
    {
        if self.cursor > 0 {
            let a = self.commands[self.cursor - 1].reverse_cmd;
            self.cursor = self.cursor - 1;
            Some(a)
        } else {
            None
        }
    }

    /// The command to redo next, if any is undone; the cursor moves past it.
    pub fn step_forward(&mut self) -> (r: Option<Action<V>>)
        requires
            old(self).wf(),
        ensures
            final(self).wf(),
            final(self).commands == old(self).commands,
            old(self).cursor < old(self).commands.len() ==> final(self).cursor == old(self).cursor
                + 1 && r == Some(old(self).commands@[old(self).cursor as int].do_cmd),
            old(self).cursor == old(self).commands.len() ==> final(self).cursor == old(self).cursor
                && r is None,
    {
        if self.cursor < self.commands.len() {
            let a = self.commands[self.cursor].do_cmd;
            self.cursor = self.cursor + 1;
            Some(a)
        } else {
            None
        }
    }
}

} // verus!
