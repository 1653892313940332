//! The task store: an ordered collection of tasks with unique sequential
//! identifiers. Removals renumber the survivors to the contiguous range
//! `1..=N`; an addition assigns `max(existing ids) + 1` (or `1` when empty)
//! without renumbering. Identifiers arrive from callers as text and are
//! rejected with an invalid-id outcome when they do not name a `u32`.

use vstd::prelude::*;

verus! {

/// Mathematical model of one task: its identifier, the characters of its
/// description, and its completion flag.
pub ghost struct TaskView {
    pub id: u32,
    pub description: Seq<char>,
    pub done: bool,
}

/// One unit of work held by the store.
#[derive(Debug)]
pub struct Task {
    pub id: u32,
    pub description: String,
    pub done: bool,
}

impl View for Task {
    type V = TaskView;

    open spec fn view(&self) -> TaskView {
        TaskView { id: self.id, description: self.description@, done: self.done }
    }
}

/// The task store. Its model is the sequence of task models, in insertion
/// (and display) order.
#[derive(Debug)]
pub struct TaskManager {
    pub tasks: Vec<Task>,
}

impl View for TaskManager {
    type V = Seq<TaskView>;

    open spec fn view(&self) -> Seq<TaskView> {
        Seq::new(self.tasks@.len(), |i: int| self.tasks@[i]@)
    }
}

/// Outcome of completing a task named by text.
#[derive(Clone, Copy, Debug, PartialEq, Eq, Structural)]
pub enum CompleteResult {
    Completed,
    NotFound,
    InvalidId,
}

/// Outcome of marking a task as not done. A task that was already not done
/// is a distinct outcome from a missing task, and changes nothing.
#[derive(Clone, Copy, Debug, PartialEq, Eq, Structural)]
pub enum UncompleteResult {
    MarkedUndone,
    AlreadyUndone,
    NotFound,
    InvalidId,
}

/// Outcome of removing a task named by text.
#[derive(Clone, Copy, Debug, PartialEq, Eq, Structural)]
pub enum RemoveResult {
    Removed,
    NotFound,
    InvalidId,
}

/// The largest identifier present, or `0` for an empty store.
pub open spec fn spec_max_id(s: Seq<TaskView>) -> u32
    decreases s.len(),
{
    if s.len() == 0 {
        0
    } else if s.last().id >= spec_max_id(s.drop_last()) {
        s.last().id
    } else {
        spec_max_id(s.drop_last())
    }
}

/// The task an add constructs: the next free identifier, the given
/// description, not done.
pub open spec fn spec_new_task(s: Seq<TaskView>, description: Seq<char>) -> TaskView {
    TaskView { id: (spec_max_id(s) + 1) as u32, description, done: false }
}

/// The first position holding `id`, if any.
pub open spec fn spec_find(s: Seq<TaskView>, id: u32) -> Option<int>
    decreases s.len(),
{
    if s.len() == 0 {
        None
    } else if s[0].id == id {
        Some(0 as int)
    } else {
        match spec_find(s.drop_first(), id) {
            None => None,
            Some(i) => Some(i + 1),
        }
    }
}

/// The subsequence of tasks satisfying `p`, in order.
pub open spec fn spec_keep(s: Seq<TaskView>, p: spec_fn(TaskView) -> bool) -> Seq<TaskView>
    decreases s.len(),
{
    if s.len() == 0 {
        Seq::empty()
    } else if p(s.last()) {
        spec_keep(s.drop_last(), p).push(s.last())
    } else {
        spec_keep(s.drop_last(), p)
    }
}

/// The tasks a removal of `id` keeps.
pub open spec fn not_id(id: u32) -> spec_fn(TaskView) -> bool {
    |t: TaskView| t.id != id
}

/// The tasks a clear of completed tasks keeps.
pub open spec fn not_done() -> spec_fn(TaskView) -> bool {
    |t: TaskView| !t.done
}

/// The renumbering pass: position `i` receives identifier `i + 1`;
/// descriptions, flags and order are untouched.
pub open spec fn spec_renumber(s: Seq<TaskView>) -> Seq<TaskView> {
    Seq::new(
        s.len(),
        |i: int| TaskView { id: (i + 1) as u32, description: s[i].description, done: s[i].done },
    )
}

/// The identifiers are exactly `1..=N` in order.
pub open spec fn ids_contiguous(s: Seq<TaskView>) -> bool {
    forall|i: int| 0 <= i < s.len() ==> (#[trigger] s[i]).id as int == i + 1
}

/// An ASCII decimal digit.
pub open spec fn is_dec_digit(c: char) -> bool {
    48 <= c as int && c as int <= 57
}

/// The value of a digit sequence read in base ten.
pub open spec fn dec_value(s: Seq<char>) -> int
    decreases s.len(),
{
    if s.len() == 0 {
        0
    } else {
        dec_value(s.drop_last()) * 10 + (s.last() as int - 48)
    }
}

/// The digits of an identifier text: an optional leading `+` is allowed,
/// as the standard unsigned parse allows it.
pub open spec fn spec_digits(s: Seq<char>) -> Seq<char> {
    if s.len() > 0 && s[0] == '+' {
        s.drop_first()
    } else {
        s
    }
}

/// What textual identifiers mean: at least one digit after the optional
/// sign, digits only, and a value that fits in `u32`.
pub open spec fn spec_parse_u32(s: Seq<char>) -> Option<u32> {
    let d = spec_digits(s);
    if d.len() > 0 && (forall|i: int| 0 <= i < d.len() ==> is_dec_digit(#[trigger] d[i]))
        && dec_value(d) <= u32::MAX {
        Some(dec_value(d) as u32)
    } else {
        None
    }
}

proof fn lemma_dec_value_nonneg(s: Seq<char>)
    requires
        forall|i: int| 0 <= i < s.len() ==> is_dec_digit(#[trigger] s[i]),
    ensures
        dec_value(s) >= 0,
    decreases s.len(),
{
    if s.len() > 0 {
        lemma_dec_value_nonneg(s.drop_last());
    }
}

/// Reading further digits never shrinks the value already read.
proof fn lemma_dec_value_grows(s: Seq<char>, k: int)
    requires
        0 <= k <= s.len(),
        forall|i: int| 0 <= i < s.len() ==> is_dec_digit(#[trigger] s[i]),
    ensures
        dec_value(s.take(k)) <= dec_value(s),
    decreases s.len() - k,
{
    if k < s.len() {
        assert(s.take(k + 1).drop_last() =~= s.take(k));
        lemma_dec_value_nonneg(s.take(k));
        assert(dec_value(s.take(k + 1)) == dec_value(s.take(k)) * 10 + (s[k] as int - 48));
        lemma_dec_value_grows(s, k + 1);
    } else {
        assert(s.take(k) =~= s);
    }
}

/// Reads a `u32` from text exactly as the store's identifier policy defines
/// it: `Some` if and only if the text is a valid unsigned identifier.
pub fn parse_id(s: &str) -> (r: Option<u32>)
    ensures
        r == spec_parse_u32(s@),
{
    let n = s.unicode_len();
    let mut i: usize = 0;
    if n > 0 && s.get_char(0) == '+' {
        i = 1;
    }
    let ghost d = spec_digits(s@);
    let ghost off = i as int;
    proof {
        assert(d =~= s@.skip(off));
    }
    if i == n {
        return None;
    }
    let mut acc: u32 = 0;
    while i < n
        invariant
            0 <= off <= i <= n,
            n == s@.len(),
            d == spec_digits(s@),
            d == s@.skip(off),
            d.len() == n - off,
            forall|j: int| 0 <= j < i - off ==> is_dec_digit(#[trigger] d[j]),
            acc == dec_value(d.take(i - off)),
        decreases n - i,
    {
        let c = s.get_char(i);
        let v = c as u32;
        proof {
            assert(d[i - off] == s@.skip(off)[i - off]);
            assert(s@.skip(off)[i - off] == s@[(i - off) + off]);
            assert(d[i - off] == s@[i as int]);
        }
        if v < 48 || v > 57 {
            assert(!is_dec_digit(d[i - off]));
            return None;
        }
        let dig = v - 48;
        proof {
            assert(d.take(i + 1 - off).drop_last() =~= d.take(i - off));
            assert(dec_value(d.take(i + 1 - off)) == acc * 10 + dig);
        }
        if acc > (u32::MAX - dig) / 10 {
            proof {
                if forall|j: int| 0 <= j < d.len() ==> is_dec_digit(#[trigger] d[j]) {
                    lemma_dec_value_grows(d, i + 1 - off);
                    assert(dec_value(d) > u32::MAX);
                }
            }
            return None;
        }
        acc = acc * 10 + dig;
        i += 1;
    }
    proof {
        assert(d.take(n - off) =~= d);
    }
    Some(acc)
}

/// When a prefix of `s` avoids `id` and position `k` holds it, `k` is the
/// first position holding it.
proof fn lemma_find_at(s: Seq<TaskView>, id: u32, k: int)
    requires
        0 <= k < s.len(),
        s[k].id == id,
        forall|j: int| 0 <= j < k ==> (#[trigger] s[j]).id != id,
    ensures
        spec_find(s, id) == Some(k),
    decreases k,
{
    if k > 0 {
        lemma_find_at(s.drop_first(), id, k - 1);
    }
}

/// When no position holds `id`, the search fails.
proof fn lemma_find_none(s: Seq<TaskView>, id: u32)
    requires
        forall|j: int| 0 <= j < s.len() ==> (#[trigger] s[j]).id != id,
    ensures
        spec_find(s, id) == None::<int>,
    decreases s.len(),
{
    if s.len() > 0 {
        lemma_find_none(s.drop_first(), id);
    }
}

/// The kept subsequence is never longer than the sequence it came from.
proof fn lemma_keep_len(s: Seq<TaskView>, p: spec_fn(TaskView) -> bool)
    ensures
        spec_keep(s, p).len() <= s.len(),
    decreases s.len(),
{
    if s.len() > 0 {
        lemma_keep_len(s.drop_last(), p);
    }
}

/// Keeping everything that satisfies `p` is the identity when all tasks do.
proof fn lemma_keep_all(s: Seq<TaskView>, p: spec_fn(TaskView) -> bool)
    requires
        forall|i: int| 0 <= i < s.len() ==> p(#[trigger] s[i]),
    ensures
        spec_keep(s, p) == s,
    decreases s.len(),
{
    if s.len() > 0 {
        lemma_keep_all(s.drop_last(), p);
        assert(spec_keep(s, p) =~= s);
    } else {
        assert(spec_keep(s, p) =~= s);
    }
}

/// A keep of the whole length dropped nothing.
proof fn lemma_keep_full(s: Seq<TaskView>, p: spec_fn(TaskView) -> bool)
    requires
        spec_keep(s, p).len() == s.len(),
    ensures
        spec_keep(s, p) == s,
    decreases s.len(),
{
    if s.len() > 0 {
        lemma_keep_len(s.drop_last(), p);
        assert(p(s.last()));
        lemma_keep_full(s.drop_last(), p);
        assert(spec_keep(s, p) =~= s);
    } else {
        assert(spec_keep(s, p) =~= s);
    }
}

/// Every task of the kept subsequence satisfies `p`.
proof fn lemma_keep_elems(s: Seq<TaskView>, p: spec_fn(TaskView) -> bool)
    ensures
        forall|i: int| 0 <= i < spec_keep(s, p).len() ==> p(#[trigger] spec_keep(s, p)[i]),
    decreases s.len(),
{
    if s.len() > 0 {
        let d = s.drop_last();
        lemma_keep_elems(d, p);
        let k = spec_keep(s, p);
        let kd = spec_keep(d, p);
        assert forall|i: int| 0 <= i < k.len() implies p(#[trigger] k[i]) by {
            if p(s.last()) {
                assert(k == kd.push(s.last()));
                if i < kd.len() {
                    assert(k[i] == kd[i]);
                } else {
                    assert(k[i] == s.last());
                }
            } else {
                assert(k == kd);
            }
        }
    }
}

impl Default for TaskManager {
    /// An empty store.
    fn default() -> (r: Self)
        ensures
            r@ == Seq::<TaskView>::empty(),
    {
        let r = TaskManager { tasks: Vec::new() };
        proof {
            assert(r@ =~= Seq::<TaskView>::empty());
        }
        r
    }
}

impl TaskManager {
    /// The largest identifier in the store, `0` when it is empty.
    fn max_id(&self) -> (r: u32)
        ensures
            r == spec_max_id(self@),
    {
        let n = self.tasks.len();
        let mut m: u32 = 0;
        let mut i: usize = 0;
        proof {
            assert(self@.take(0) =~= Seq::<TaskView>::empty());
        }
        while i < n
            invariant
                i <= n,
                n == self.tasks.len(),
                n == self@.len(),
                m == spec_max_id(self@.take(i as int)),
            decreases n - i,
        {
            proof {
                assert(self@.take(i + 1).drop_last() =~= self@.take(i as int));
                assert(self@.take(i + 1).last() == self@[i as int]);
            }
            if self.tasks[i].id > m {
                m = self.tasks[i].id;
            }
            i += 1;
        }
        proof {
            assert(self@.take(n as int) =~= self@);
        }
        m
    }

    /// The position of the task holding `id`, if any.
    fn find_index(&self, id: u32) -> (r: Option<usize>)
        ensures
            (match r {
                None => spec_find(self@, id) == None::<int>,
                Some(k) => spec_find(self@, id) == Some(k as int) && k < self@.len()
                    && self@[k as int].id == id,
            }),
    {
        let n = self.tasks.len();
        let mut i: usize = 0;
        while i < n
            invariant
                i <= n,
                n == self.tasks.len(),
                n == self@.len(),
                forall|j: int| 0 <= j < i ==> (#[trigger] self@[j]).id != id,
            decreases n - i,
        {
            if self.tasks[i].id == id {
                proof {
                    lemma_find_at(self@, id, i as int);
                }
                return Some(i);
            }
            i += 1;
        }
        proof {
            lemma_find_none(self@, id);
        }
        None
    }

    /// Replaces the completion flag of the task at position `k`.
    fn set_done(&mut self, k: usize, done: bool)
        requires
            k < old(self)@.len(),
        ensures
            final(self)@ == old(self)@.update(
                k as int,
                TaskView {
                    id: old(self)@[k as int].id,
                    description: old(self)@[k as int].description,
                    done: done,
                },
            ),
    {
        let t = self.tasks.remove(k);
        self.tasks.insert(k, Task { id: t.id, description: t.description, done });
        proof {
            assert(self@ =~= old(self)@.update(
                k as int,
                TaskView {
                    id: old(self)@[k as int].id,
                    description: old(self)@[k as int].description,
                    done: done,
                },
            ));
        }
    }

    /// Appends a fresh task holding `description`, not done, under the
    /// identifier `max(existing ids) + 1` (`1` when the store is empty),
    /// and returns that identifier. Nothing is renumbered.
    pub fn add_task(&mut self, description: String) -> (r: u32)
        requires
            spec_max_id(old(self)@) < u32::MAX,
        ensures
            final(self)@ == old(self)@.push(spec_new_task(old(self)@, description@)),
            r == spec_new_task(old(self)@, description@).id,
    {
        let ghost dv = description@;
        let m = self.max_id();
        let id = m + 1;
        self.tasks.push(Task { id, description, done: false });
        proof {
            assert(self@ =~= old(self)@.push(spec_new_task(old(self)@, dv)));
        }
        id
    }

    /// The current collection, in insertion order, read-only.
    pub fn list_tasks(&self) -> (r: &Vec<Task>)
        ensures
            r@ == self.tasks@,
            r@.len() == self@.len(),
            forall|i: int| 0 <= i < r@.len() ==> (#[trigger] r@[i])@ == self@[i],
    {
        &self.tasks
    }

    /// Marks the task named by `id_str` as done. Succeeds even when the task
    /// was already done; a missing task or an invalid identifier changes
    /// nothing and is reported.
    pub fn complete_task(&mut self, id_str: &str) -> (r: CompleteResult)
        ensures
            (match spec_parse_u32(id_str@) {
                None => r == CompleteResult::InvalidId && final(self)@ == old(self)@,
                Some(id) => match spec_find(old(self)@, id) {
                    None => r == CompleteResult::NotFound && final(self)@ == old(self)@,
                    Some(k) => r == CompleteResult::Completed && final(self)@ == old(self)@.update(
                        k,
                        TaskView {
                            id: old(self)@[k].id,
                            description: old(self)@[k].description,
                            done: true,
                        },
                    ),
                },
            }),
    {
        let id = match parse_id(id_str) {
            None => {
                return CompleteResult::InvalidId;
            },
            Some(id) => id,
        };
        match self.find_index(id) {
            None => CompleteResult::NotFound,
            Some(k) => {
                self.set_done(k, true);
                CompleteResult::Completed
            },
        }
    }

    /// Marks the task named by `id_str` as not done. A task that is already
    /// not done is reported as such and the store is left unchanged; so are
    /// a missing task and an invalid identifier.
    pub fn mark_undone(&mut self, id_str: &str) -> (r: UncompleteResult)
        ensures
            (match spec_parse_u32(id_str@) {
                None => r == UncompleteResult::InvalidId && final(self)@ == old(self)@,
                Some(id) => match spec_find(old(self)@, id) {
                    None => r == UncompleteResult::NotFound && final(self)@ == old(self)@,
                    Some(k) => if old(self)@[k].done {
                        r == UncompleteResult::MarkedUndone && final(self)@ == old(self)@.update(
                            k,
                            TaskView {
                                id: old(self)@[k].id,
                                description: old(self)@[k].description,
                                done: false,
                            },
                        )
                    } else {
                        r == UncompleteResult::AlreadyUndone && final(self)@ == old(self)@
                    },
                },
            }),
    {
        let id = match parse_id(id_str) {
            None => {
                return UncompleteResult::InvalidId;
            },
            Some(id) => id,
        };
        match self.find_index(id) {
            None => UncompleteResult::NotFound,
            Some(k) => {
                if !self.tasks[k].done {
                    UncompleteResult::AlreadyUndone
                } else {
                    self.set_done(k, false);
                    UncompleteResult::MarkedUndone
                }
            },
        }
    }

    /// Removes, in place and in order, every task that fails to satisfy the
    /// keep condition of a removal of `id`.
    fn retain_not_id(&mut self, id: u32)
        ensures
            final(self)@ == spec_keep(old(self)@, not_id(id)),
    {
        let ghost orig = self@;
        let ghost p = not_id(id);
        let mut i: usize = 0;
        let ghost j: int = 0;
        proof {
            assert(orig.take(0) =~= Seq::<TaskView>::empty());
            assert(self@ =~= spec_keep(orig.take(0), p) + orig.skip(0));
        }
        while i < self.tasks.len()
            invariant
                0 <= j <= orig.len(),
                p == not_id(id),
                i == spec_keep(orig.take(j), p).len(),
                self@.len() == self.tasks@.len(),
                self@ == spec_keep(orig.take(j), p) + orig.skip(j),
            decreases orig.len() - j,
        {
            proof {
                assert(orig.take(j + 1).drop_last() =~= orig.take(j));
                assert(orig.take(j + 1).last() == orig[j]);
                assert(self@[i as int] == orig[j]);
                assert(p(orig[j]) == (orig[j].id != id));
            }
            if self.tasks[i].id == id {
                let ghost prevt = self.tasks@;
                let ghost prevv = self@;
                proof {
                    assert(forall|k: int| 0 <= k < prevt.len() ==> #[trigger] prevt[k]@ == prevv[k]);
                }
                self.tasks.remove(i);
                proof {
                    assert(forall|k: int|
                        0 <= k < self.tasks@.len() ==> #[trigger] self.tasks@[k] == prevt.remove(
                            i as int,
                        )[k]);
                    assert(self@ =~= spec_keep(orig.take(j + 1), p) + orig.skip(j + 1));
                }
            } else {
                i += 1;
                proof {
                    assert(self@ =~= spec_keep(orig.take(j + 1), p) + orig.skip(j + 1));
                }
            }
            proof {
                j = j + 1;
            }
        }
        proof {
            assert(orig.skip(j).len() == 0);
            assert(orig.take(j) =~= orig);
            assert(self@ =~= spec_keep(orig, p));
        }
    }

    /// Removes, in place and in order, every completed task.
    fn retain_not_done(&mut self)
        ensures
            final(self)@ == spec_keep(old(self)@, not_done()),
    {
        let ghost orig = self@;
        let ghost p = not_done();
        let mut i: usize = 0;
        let ghost j: int = 0;
        proof {
            assert(orig.take(0) =~= Seq::<TaskView>::empty());
            assert(self@ =~= spec_keep(orig.take(0), p) + orig.skip(0));
        }
        while i < self.tasks.len()
            invariant
                0 <= j <= orig.len(),
                p == not_done(),
                i == spec_keep(orig.take(j), p).len(),
                self@.len() == self.tasks@.len(),
                self@ == spec_keep(orig.take(j), p) + orig.skip(j),
            decreases orig.len() - j,
        {
            proof {
                assert(orig.take(j + 1).drop_last() =~= orig.take(j));
                assert(orig.take(j + 1).last() == orig[j]);
                assert(self@[i as int] == orig[j]);
                assert(p(orig[j]) == !orig[j].done);
            }
            if self.tasks[i].done {
                let ghost prevt = self.tasks@;
                let ghost prevv = self@;
                proof {
                    assert(forall|k: int| 0 <= k < prevt.len() ==> #[trigger] prevt[k]@ == prevv[k]);
                }
                self.tasks.remove(i);
                proof {
                    assert(forall|k: int|
                        0 <= k < self.tasks@.len() ==> #[trigger] self.tasks@[k] == prevt.remove(
                            i as int,
                        )[k]);
                    assert(self@ =~= spec_keep(orig.take(j + 1), p) + orig.skip(j + 1));
                }
            } else {
                i += 1;
                proof {
                    assert(self@ =~= spec_keep(orig.take(j + 1), p) + orig.skip(j + 1));
                }
            }
            proof {
                j = j + 1;
            }
        }
        proof {
            assert(orig.skip(j).len() == 0);
            assert(orig.take(j) =~= orig);
            assert(self@ =~= spec_keep(orig, p));
        }
    }

    /// Deletes every task whose identifier matches `id_str`, preserving the
    /// order of the rest, then renumbers the survivors to `1..=N`. Reports
    /// whether a deletion occurred.
    pub fn remove_task(&mut self, id_str: &str) -> (r: RemoveResult)
        requires
            old(self)@.len() <= u32::MAX,
        ensures
            (match spec_parse_u32(id_str@) {
                None => r == RemoveResult::InvalidId && final(self)@ == old(self)@,
                Some(id) => if spec_keep(old(self)@, not_id(id)).len() == old(self)@.len() {
                    r == RemoveResult::NotFound && final(self)@ == old(self)@
                } else {
                    r == RemoveResult::Removed && final(self)@ == spec_renumber(
                        spec_keep(old(self)@, not_id(id)),
                    )
                },
            }),
    {
        let id = match parse_id(id_str) {
            None => {
                return RemoveResult::InvalidId;
            },
            Some(id) => id,
        };
        let n0 = self.tasks.len();
        self.retain_not_id(id);
        proof {
            lemma_keep_len(old(self)@, not_id(id));
        }
        if self.tasks.len() < n0 {
            self.reassign_ids();
            RemoveResult::Removed
        } else {
            proof {
                lemma_keep_full(old(self)@, not_id(id));
            }
            RemoveResult::NotFound
        }
    }

    /// Reassigns the identifiers `1..=N` to the tasks in their current
    /// order; descriptions and completion flags are untouched.
    pub fn reassign_ids(&mut self)
        requires
            old(self)@.len() <= u32::MAX,
        ensures
            final(self)@ == spec_renumber(old(self)@),
    {
        let n = self.tasks.len();
        let mut i: usize = 0;
        while i < n
            invariant
                i <= n,
                n == self.tasks.len(),
                n == self@.len(),
                n == old(self)@.len(),
                n <= u32::MAX,
                forall|k: int| 0 <= k < i ==> #[trigger] self@[k] == spec_renumber(old(self)@)[k],
                forall|k: int| i <= k < n ==> #[trigger] self@[k] == old(self)@[k],
            decreases n - i,
        {
            let ghost prev = self.tasks@;
            proof {
                assert forall|k: int| 0 <= k < i implies prev[k]@ == #[trigger] spec_renumber(
                    old(self)@,
                )[k] by {
                    assert(self@[k] == prev[k]@);
                }
                assert forall|k: int| i <= k < n implies prev[k]@ == #[trigger] old(self)@[k] by {
                    assert(self@[k] == prev[k]@);
                }
            }
            let t = self.tasks.remove(i);
            let new_id = (i as u32) + 1;
            self.tasks.insert(i, Task { id: new_id, description: t.description, done: t.done });
            proof {
                assert(self.tasks@.len() == prev.len());
                assert(forall|k: int|
                    0 <= k < prev.len() && k != i ==> #[trigger] self.tasks@[k] == prev[k]);
                assert(self@[i as int] == TaskView {
                    id: new_id,
                    description: prev[i as int]@.description,
                    done: prev[i as int]@.done,
                });
                assert(self@[i as int] == spec_renumber(old(self)@)[i as int]);
                assert forall|k: int| 0 <= k < i implies #[trigger] self@[k] == spec_renumber(
                    old(self)@,
                )[k] by {
                    assert(self.tasks@[k] == prev[k]);
                    assert(self@[k] == prev[k]@);
                }
                assert forall|k: int| i + 1 <= k < n implies #[trigger] self@[k] == old(self)@[k] by {
                    assert(self.tasks@[k] == prev[k]);
                    assert(self@[k] == prev[k]@);
                }
            }
            i += 1;
        }
        proof {
            assert(self@ =~= spec_renumber(old(self)@));
        }
    }

    /// Deletes every completed task, preserving the order of the rest, then
    /// renumbers the survivors to `1..=N`. Returns how many were deleted,
    /// possibly zero.
    pub fn clear_completed(&mut self) -> (removed: usize)
        requires
            old(self)@.len() <= u32::MAX,
        ensures
            final(self)@ == spec_renumber(spec_keep(old(self)@, not_done())),
            removed == old(self)@.len() - spec_keep(old(self)@, not_done()).len(),
    {
        let n0 = self.tasks.len();
        self.retain_not_done();
        proof {
            lemma_keep_len(old(self)@, not_done());
        }
        let removed = n0 - self.tasks.len();
        self.reassign_ids();
        removed
    }

    /// Empties the store entirely and returns how many tasks it held.
    pub fn clear_all(&mut self) -> (removed: usize)
        ensures
            final(self)@ == Seq::<TaskView>::empty(),
            removed == old(self)@.len(),
    {
        let removed = self.tasks.len();
        self.tasks.clear();
        proof {
            assert(self@ =~= Seq::<TaskView>::empty());
        }
        removed
    }
}

/// A store with contiguous identifiers `1..=N` has largest identifier `N`.
proof fn lemma_contiguous_max(s: Seq<TaskView>)
    requires
        ids_contiguous(s),
    ensures
        spec_max_id(s) == s.len(),
    decreases s.len(),
{
    if s.len() > 0 {
        assert(ids_contiguous(s.drop_last()));
        lemma_contiguous_max(s.drop_last());
    }
}

/// Law: adding to a store whose identifiers are exactly `1..=N` in order
/// assigns the identifier `N + 1`, so the result is contiguous again. The
/// empty store is contiguous, so any sequence of adds to an empty store
/// yields identifiers exactly `1..=N` in insertion order, with no gaps and
/// no duplicates.
pub proof fn lemma_add_keeps_ids_contiguous(s: Seq<TaskView>, description: Seq<char>)
    requires
        ids_contiguous(s),
        s.len() < u32::MAX,
    ensures
        spec_new_task(s, description).id == s.len() + 1,
        ids_contiguous(s.push(spec_new_task(s, description))),
{
    lemma_contiguous_max(s);
}

/// Law: the renumbering pass that follows any removal restores identifiers
/// exactly `1..=N` over the survivors, preserving their relative order,
/// descriptions and completion flags.
pub proof fn lemma_renumber_restores_contiguous(s: Seq<TaskView>)
    requires
        s.len() <= u32::MAX,
    ensures
        ids_contiguous(spec_renumber(s)),
        spec_renumber(s).len() == s.len(),
        forall|i: int| 0 <= i < s.len() ==> (#[trigger] spec_renumber(s)[i]).description
            == s[i].description && spec_renumber(s)[i].done == s[i].done,
{
}

/// Law: a removal — of one identifier, or of every completed task —
/// followed by the renumbering pass leaves the surviving tasks with
/// identifiers exactly `1..=N`, in their former order.
pub proof fn lemma_removal_restores_contiguous(s: Seq<TaskView>, id: u32)
    requires
        s.len() <= u32::MAX,
    ensures
        ids_contiguous(spec_renumber(spec_keep(s, not_id(id)))),
        ids_contiguous(spec_renumber(spec_keep(s, not_done()))),
{
    lemma_keep_len(s, not_id(id));
    lemma_keep_len(s, not_done());
    lemma_renumber_restores_contiguous(spec_keep(s, not_id(id)));
    lemma_renumber_restores_contiguous(spec_keep(s, not_done()));
}

/// Law: clearing completed tasks a second time removes nothing, since the
/// first pass leaves no completed task behind.
pub proof fn lemma_clear_completed_idempotent(s: Seq<TaskView>)
    ensures
        (spec_keep(spec_renumber(spec_keep(s, not_done())), not_done()) == spec_renumber(
            spec_keep(s, not_done()),
        )),
{
    let after = spec_renumber(spec_keep(s, not_done()));
    lemma_keep_elems(s, not_done());
    assert(forall|i: int| 0 <= i < after.len() ==> not_done()(#[trigger] after[i]));
    lemma_keep_all(after, not_done());
}

} // verus!
