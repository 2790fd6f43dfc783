use vstd::prelude::*;

use crate::events::Event;
use crate::events::InputIndex;
use crate::events::LogIndex;
use crate::events::event_delta;
use crate::events::lemma_depth_le_len;
use crate::events::lemma_depth_take_full;
use crate::events::lemma_well_nested_push;
use crate::events::nesting_depth;
use crate::events::start_info;
use crate::events::well_nested;

verus! {

/// One row of the memo table: the log index of the most recent `Start` for
/// a (rule name, input position) pair.
struct MemoEntry {
    name: String,
    position: InputIndex,
    index: LogIndex,
}

/// The abstract memo table: later rows of the listing overwrite earlier ones
/// with the same key.
pub open spec fn entries_map(s: Seq<((Seq<char>, int), int)>) -> Map<(Seq<char>, int), int>
    decreases s.len(),
{
    if s.len() == 0 {
        Map::empty()
    } else {
        entries_map(s.drop_last()).insert(s.last().0, s.last().1)
    }
}

/// No two rows share a key.
pub open spec fn distinct_keys(s: Seq<((Seq<char>, int), int)>) -> bool {
    forall|i: int, j: int| 0 <= i < j < s.len() ==> (#[trigger] s[i]).0 != (#[trigger] s[j]).0
}

/// Every row points at a `Start` event in the log that carries the row's key.
pub open spec fn memo_sound(log: Seq<Event>, s: Seq<((Seq<char>, int), int)>) -> bool {
    forall|i: int|
        0 <= i < s.len() ==> {
            &&& 0 <= (#[trigger] s[i]).1 < log.len()
            &&& start_info(log[s[i].1]) == Some(s[i].0)
        }
}

/// No later `Start` in the log carries a row's key: each row points at the
/// most recent attempt.
pub open spec fn memo_recent(log: Seq<Event>, s: Seq<((Seq<char>, int), int)>) -> bool {
    forall|i: int, j: int|
        0 <= i < s.len() && (#[trigger] s[i]).1 < j < log.len() ==> start_info(
            #[trigger] log[j],
        ) != Some(s[i].0)
}

/// Every `Start` in the log has a row for its key.
pub open spec fn memo_complete(log: Seq<Event>, s: Seq<((Seq<char>, int), int)>) -> bool {
    forall|j: int|
        0 <= j < log.len() && start_info(#[trigger] log[j]) is Some ==> exists|i: int|
            0 <= i < s.len() && (#[trigger] s[i]).0 == start_info(log[j]).unwrap()
}

proof fn lemma_entries_map_push(s: Seq<((Seq<char>, int), int)>, e: ((Seq<char>, int), int))
    ensures
        entries_map(s.push(e)) == entries_map(s).insert(e.0, e.1),
{
    assert(s.push(e).drop_last() =~= s);
    assert(s.push(e).last() == e);
}

proof fn lemma_entries_map_update(s: Seq<((Seq<char>, int), int)>, i: int, v: int)
    requires
        distinct_keys(s),
        0 <= i < s.len(),
    ensures
        entries_map(s.update(i, (s[i].0, v))) == entries_map(s).insert(s[i].0, v),
    decreases s.len(),
{
    let k = s[i].0;
    let s2 = s.update(i, (k, v));
    if i == s.len() - 1 {
        assert(s2.drop_last() =~= s.drop_last());
        assert(s2.last() == (k, v));
        assert(s.last().0 == k);
        assert(entries_map(s.drop_last()).insert(k, s.last().1).insert(k, v) =~= entries_map(
            s.drop_last(),
        ).insert(k, v));
    } else {
        let d = s.drop_last();
        assert forall|a: int, b: int| 0 <= a < b < d.len() implies (#[trigger] d[a]).0 != (
        #[trigger] d[b]).0 by {
            assert(d[a] == s[a]);
            assert(d[b] == s[b]);
        }
        assert(d[i] == s[i]);
        lemma_entries_map_update(d, i, v);
        assert(s2.drop_last() =~= d.update(i, (k, v)));
        assert(s2.last() == s.last());
        assert(k != s.last().0);
        assert(entries_map(d).insert(k, v).insert(s.last().0, s.last().1) =~= entries_map(
            d,
        ).insert(s.last().0, s.last().1).insert(k, v));
    }
}

/// After appending a `Start` with key `k` and pointing row `fi` at it, the
/// memo table still records exactly the most recent `Start` of each key.
proof fn lemma_start_keeps_memo_wf(
    pre_log: Seq<Event>,
    rows: Seq<((Seq<char>, int), int)>,
    rows2: Seq<((Seq<char>, int), int)>,
    fi: int,
    k: (Seq<char>, int),
    ev: Event,
)
    requires
        distinct_keys(rows),
        memo_sound(pre_log, rows),
        memo_recent(pre_log, rows),
        memo_complete(pre_log, rows),
        start_info(ev) == Some(k),
        0 <= fi < rows2.len(),
        rows2.len() == rows.len() || rows2.len() == rows.len() + 1,
        fi < rows.len() ==> rows2.len() == rows.len(),
        fi < rows.len() ==> rows[fi].0 == k,
        rows2[fi] == (k, pre_log.len() as int),
        forall|t: int| 0 <= t < rows2.len() && t != fi ==> #[trigger] rows2[t] == rows[t],
        forall|t: int| 0 <= t < rows2.len() && t != fi ==> (#[trigger] rows2[t]).0 != k,
    ensures
        distinct_keys(rows2),
        memo_sound(pre_log.push(ev), rows2),
        memo_recent(pre_log.push(ev), rows2),
        memo_complete(pre_log.push(ev), rows2),
{
    let log2 = pre_log.push(ev);
    assert(log2[pre_log.len() as int] == ev);
    assert forall|a: int, b: int| 0 <= a < b < rows2.len() implies (#[trigger] rows2[a]).0 != (
    #[trigger] rows2[b]).0 by {
        if a != fi && b != fi {
            assert(rows2[a] == rows[a]);
            assert(rows2[b] == rows[b]);
        }
    }
    assert forall|i: int| 0 <= i < rows2.len() implies {
        &&& 0 <= (#[trigger] rows2[i]).1 < log2.len()
        &&& start_info(log2[rows2[i].1]) == Some(rows2[i].0)
    } by {
        if i != fi {
            assert(rows2[i] == rows[i]);
            assert(log2[rows[i].1] == pre_log[rows[i].1]);
        }
    }
    assert forall|i: int, j: int|
        0 <= i < rows2.len() && (#[trigger] rows2[i]).1 < j < log2.len() implies start_info(
        #[trigger] log2[j],
    ) != Some(rows2[i].0) by {
        if i != fi {
            assert(rows2[i] == rows[i]);
            if j < pre_log.len() {
                assert(log2[j] == pre_log[j]);
            } else {
                assert(log2[j] == ev);
            }
        }
    }
    assert forall|j: int|
        0 <= j < log2.len() && start_info(#[trigger] log2[j]) is Some implies exists|i: int|
        0 <= i < rows2.len() && (#[trigger] rows2[i]).0 == start_info(log2[j]).unwrap() by {
        if j < pre_log.len() {
            assert(log2[j] == pre_log[j]);
            let w = choose|i: int|
                0 <= i < rows.len() && (#[trigger] rows[i]).0 == start_info(pre_log[j]).unwrap();
            if w == fi {
                assert(rows2[fi].0 == k);
                assert(rows2[fi].0 == start_info(log2[j]).unwrap());
            } else {
                assert(rows2[w].0 == start_info(log2[j]).unwrap());
            }
        } else {
            assert(log2[j] == ev);
            assert(rows2[fi].0 == start_info(log2[j]).unwrap());
        }
    }
}

/// One decimal digit as text; callers keep `d` between 0 and 9.
pub open spec fn digit_seq(d: int) -> Seq<char> {
    if d <= 0 {
        "0"@
    } else if d == 1 {
        "1"@
    } else if d == 2 {
        "2"@
    } else if d == 3 {
        "3"@
    } else if d == 4 {
        "4"@
    } else if d == 5 {
        "5"@
    } else if d == 6 {
        "6"@
    } else if d == 7 {
        "7"@
    } else if d == 8 {
        "8"@
    } else {
        "9"@
    }
}

/// The decimal digits of `n`, most significant first.
pub open spec fn dec_digits(n: int) -> Seq<char>
    decreases n,
{
    if n < 10 {
        digit_seq(n)
    } else {
        dec_digits(n / 10) + digit_seq(n % 10)
    }
}

/// Two spaces per nesting level.
pub open spec fn indent_of(level: int) -> Seq<char>
    decreases level,
{
    if level <= 0 {
        Seq::empty()
    } else {
        indent_of(level - 1) + "  "@
    }
}

/// One trace line, newline included.
pub open spec fn event_line(e: Event) -> Seq<char> {
    match e {
        Event::Start { name, position } => "START["@ + name@ + ", "@ + dec_digits(position@)
            + "]\n"@,
        Event::Commit => "COMMIT\n"@,
        Event::Abort => "ABORT\n"@,
        Event::Consume { token } => "CONSUME["@ + token@ + "]\n"@,
        Event::Reference { reference } => "REFERENCE["@ + dec_digits(reference@) + "]\n"@,
    }
}

/// The trace from event `i` on, entered at nesting `level`: a closing event
/// de-indents before printing its own line, an opening one indents after.
pub open spec fn trace_lines(log: Seq<Event>, i: int, level: int) -> Seq<char>
    decreases log.len() - i,
{
    if i < 0 || i >= log.len() {
        Seq::empty()
    } else {
        let shown = if event_delta(log[i]) == -1 {
            level - 1
        } else {
            level
        };
        indent_of(shown) + event_line(log[i]) + trace_lines(log, i + 1, level + event_delta(log[i]))
    }
}

/// One memo row as text, newline included.
pub open spec fn memo_line(row: ((Seq<char>, int), int)) -> Seq<char> {
    "["@ + row.0.0 + ", "@ + dec_digits(row.0.1) + "] -> "@ + dec_digits(row.1) + "\n"@
}

/// The memo rows from `i` on, one line each.
pub open spec fn memo_lines(rows: Seq<((Seq<char>, int), int)>, i: int) -> Seq<char>
    decreases rows.len() - i,
{
    if i < 0 || i >= rows.len() {
        Seq::empty()
    } else {
        memo_line(rows[i]) + memo_lines(rows, i + 1)
    }
}

/// The whole rendering: the indented trace, a blank line, then the memo
/// table dump.
pub open spec fn rendered(log: Seq<Event>, rows: Seq<((Seq<char>, int), int)>) -> Seq<char> {
    trace_lines(log, 0, 0) + "\n"@ + memo_lines(rows, 0)
}

/// One decimal digit as text; `d` stays below ten.
fn digit_str(d: usize) -> (r: &'static str)
    requires
        d < 10,
    ensures
        r@ == digit_seq(d as int),
{
    if d == 0 {
        "0"
    } else if d == 1 {
        "1"
    } else if d == 2 {
        "2"
    } else if d == 3 {
        "3"
    } else if d == 4 {
        "4"
    } else if d == 5 {
        "5"
    } else if d == 6 {
        "6"
    } else if d == 7 {
        "7"
    } else if d == 8 {
        "8"
    } else {
        "9"
    }
}

/// Appends `n` in decimal.
fn push_dec(out: &mut String, n: usize)
    ensures
        final(out)@ == old(out)@ + dec_digits(n as int),
    decreases n,
{
    if n < 10 {
        out.append(digit_str(n));
    } else {
        push_dec(out, n / 10);
        out.append(digit_str(n % 10));
        proof {
            assert(out@ =~= old(out)@ + dec_digits(n as int));
        }
    }
}

/// Appends `level` indent units.
fn push_indent(out: &mut String, level: usize)
    ensures
        final(out)@ == old(out)@ + indent_of(level as int),
{
    let mut t: usize = 0;
    proof {
        assert(old(out)@ + indent_of(0int) =~= old(out)@);
    }
    while t < level
        invariant
            t <= level,
            out@ == old(out)@ + indent_of(t as int),
        decreases level - t,
    {
        out.append("  ");
        proof {
            assert(out@ =~= old(out)@ + indent_of(t as int + 1));
        }
        t += 1;
    }
}

/// Appends one trace line for `e`.
fn push_event_line(out: &mut String, e: &Event)
    ensures
        final(out)@ == old(out)@ + event_line(*e),
{
    match e {
        Event::Start { name, position } => {
            out.append("START[");
            out.append(name.as_str());
            out.append(", ");
            push_dec(out, position.value());
            out.append("]\n");
            proof {
                assert(out@ =~= old(out)@ + event_line(*e));
            }
        },
        Event::Commit => {
            out.append("COMMIT\n");
        },
        Event::Abort => {
            out.append("ABORT\n");
        },
        Event::Consume { token } => {
            out.append("CONSUME[");
            out.append(token.as_str());
            out.append("]\n");
            proof {
                assert(out@ =~= old(out)@ + event_line(*e));
            }
        },
        Event::Reference { reference } => {
            out.append("REFERENCE[");
            push_dec(out, reference.value());
            out.append("]\n");
            proof {
                assert(out@ =~= old(out)@ + event_line(*e));
            }
        },
    }
}

/// Appends one memo row line.
fn push_memo_line(out: &mut String, e: &MemoEntry)
    ensures
        final(out)@ == old(out)@ + memo_line(((e.name@, e.position@), e.index@)),
{
    out.append("[");
    out.append(e.name.as_str());
    out.append(", ");
    push_dec(out, e.position.value());
    out.append("] -> ");
    push_dec(out, e.index.value());
    out.append("\n");
    proof {
        assert(out@ =~= old(out)@ + memo_line(((e.name@, e.position@), e.index@)));
    }
}

/// Owns the append-only event log and the memo table from (rule name,
/// position) to the log index of that pair's most recent `Start`.
pub struct Sink {
    log: Vec<Event>,
    entries: Vec<MemoEntry>,
}

impl Sink {
    /// The event log, in chronological order.
    pub closed spec fn log(&self) -> Seq<Event> {
        self.log@
    }

    /// The memo table as a listing of (key, log index) rows, in the order
    /// the rendering walks them.
    pub closed spec fn memo_entries(&self) -> Seq<((Seq<char>, int), int)> {
        self.entries@.map_values(|e: MemoEntry| ((e.name@, e.position@), e.index@))
    }

    /// The memo table as a mapping.
    pub open spec fn memo(&self) -> Map<(Seq<char>, int), int> {
        entries_map(self.memo_entries())
    }

    /// The sink's invariant: the log is well nested, and the memo rows have
    /// distinct keys and record exactly the most recent `Start` of each
    /// attempted (rule name, position) pair.
    pub open spec fn wf(&self) -> bool {
        &&& well_nested(self.log())
        &&& distinct_keys(self.memo_entries())
        &&& memo_sound(self.log(), self.memo_entries())
        &&& memo_recent(self.log(), self.memo_entries())
        &&& memo_complete(self.log(), self.memo_entries())
    }

    /// The log, for callers that inspect the trace.
    pub fn events(&self) -> (r: &Vec<Event>)
        ensures
            r@ == self.log(),
    {
        &self.log
    }

    /// Renders the trace - nesting depth as indentation, `Commit` and
    /// `Abort` de-indenting before their own line - then a blank line, then
    /// the memo table dump, one row per line.
    pub fn render(&self) -> (r: String)
        requires
            self.wf(),
        ensures
            r@ == rendered(self.log(), self.memo_entries()),
    {
        let ghost log = self.log@;
        let ghost rows = self.memo_entries();
        let mut out = String::new();
        let n = self.log.len();
        let mut level: usize = 0;
        let mut i: usize = 0;
        proof {
            assert(log.take(0int) =~= Seq::<Event>::empty());
            assert(out@ + trace_lines(log, 0int, 0int) =~= trace_lines(log, 0int, 0int));
        }
        while i < n
            invariant
                self.wf(),
                n == self.log@.len(),
                log == self.log@,
                i <= n,
                level as int == nesting_depth(log.take(i as int)),
                out@ + trace_lines(log, i as int, level as int) == trace_lines(log, 0int, 0int),
            decreases n - i,
        {
            let ghost out0 = out@;
            let ghost lvl0 = level as int;
            proof {
                assert(log.take(i as int + 1).drop_last() =~= log.take(i as int));
                assert(log.take(i as int + 1).last() == log[i as int]);
                lemma_depth_le_len(log.take(i as int));
                assert(nesting_depth(log.take(i as int + 1)) >= 0);
            }
            let e = &self.log[i];
            let closing: bool = matches!(e, Event::Commit | Event::Abort);
            let shown: usize = if closing {
                level - 1
            } else {
                level
            };
            push_indent(&mut out, shown);
            push_event_line(&mut out, e);
            if closing {
                level = shown;
            } else if matches!(e, Event::Start { .. }) {
                level = level + 1;
            }
            proof {
                assert(level as int == lvl0 + event_delta(log[i as int]));
                assert(out@ + trace_lines(log, i as int + 1, level as int) =~= out0 + trace_lines(
                    log,
                    i as int,
                    lvl0,
                ));
            }
            i += 1;
        }
        proof {
            assert(out@ =~= trace_lines(log, 0int, 0int));
        }
        out.append("\n");
        let m = self.entries.len();
        let mut j: usize = 0;
        proof {
            assert(rows.len() == m);
            assert(out@ + memo_lines(rows, 0int) =~= trace_lines(log, 0int, 0int) + "\n"@
                + memo_lines(rows, 0int));
        }
        while j < m
            invariant
                self.wf(),
                m == self.entries@.len(),
                rows == self.memo_entries(),
                log == self.log@,
                j <= m,
                out@ + memo_lines(rows, j as int) == trace_lines(log, 0int, 0int) + "\n"@
                    + memo_lines(rows, 0int),
            decreases m - j,
        {
            let ghost out0 = out@;
            proof {
                assert(rows[j as int] == (
                    (self.entries@[j as int].name@, self.entries@[j as int].position@),
                    self.entries@[j as int].index@,
                ));
            }
            push_memo_line(&mut out, &self.entries[j]);
            proof {
                assert(out@ + memo_lines(rows, j as int + 1) =~= out0 + memo_lines(
                    rows,
                    j as int,
                ));
            }
            j += 1;
        }
        proof {
            assert(out@ =~= rendered(log, rows));
        }
        out
    }

    /// The index of the row holding this key, or the row count if none does.
    fn find_row(&self, name: &String, position: InputIndex) -> (r: usize)
        ensures
            r <= self.memo_entries().len(),
            r < self.memo_entries().len() ==> self.memo_entries()[r as int].0 == (
                name@,
                position@,
            ),
            r == self.memo_entries().len() ==> forall|t: int|
                0 <= t < self.memo_entries().len() ==> (#[trigger] self.memo_entries()[t]).0 != (
                    name@,
                    position@,
                ),
    {
        let n = self.entries.len();
        let mut j: usize = 0;
        while j < n
            invariant
                n == self.entries@.len(),
                j <= n,
                forall|t: int|
                    0 <= t < j ==> (#[trigger] self.memo_entries()[t]).0 != (name@, position@),
            decreases n - j,
        {
            proof {
                assert(self.memo_entries()[j as int] == (
                    (self.entries@[j as int].name@, self.entries@[j as int].position@),
                    self.entries@[j as int].index@,
                ));
            }
            let same_name: bool = self.entries[j].name == *name;
            let same_pos: bool = self.entries[j].position.value() == position.value();
            if same_name && same_pos {
                return j;
            }
            j += 1;
        }
        n
    }

    /// Appends a `Start` event for a rule attempt and records its log index
    /// in the memo table, overwriting any earlier row for the same key.
    pub fn start(&mut self, name: String, position: InputIndex)
        requires
            old(self).wf(),
        ensures
            final(self).wf(),
            final(self).log().len() == old(self).log().len() + 1,
            old(self).log().is_prefix_of(final(self).log()),
            start_info(final(self).log().last()) == Some((name@, position@)),
            final(self).memo() == old(self).memo().insert(
                (name@, position@),
                old(self).log().len() as int,
            ),
            nesting_depth(final(self).log()) == nesting_depth(old(self).log()) + 1,
    {
        let ghost pre_log = self.log@;
        let ghost rows = self.memo_entries();
        let ghost k = (name@, position@);
        let idx = LogIndex::new(self.log.len());
        let found = self.find_row(&name, position);
        let n = self.entries.len();
        proof {
            assert(rows.len() == n);
        }
        let row = MemoEntry { name: name.clone(), position, index: idx };
        let ghost fi: int = found as int;
        if found < n {
            self.entries.set(found, row);
            proof {
                assert(self.memo_entries() =~= rows.update(fi, (k, pre_log.len() as int)));
                lemma_entries_map_update(rows, fi, pre_log.len() as int);
            }
        } else {
            self.entries.push(row);
            proof {
                assert(self.memo_entries() =~= rows.push((k, pre_log.len() as int)));
                lemma_entries_map_push(rows, (k, pre_log.len() as int));
            }
        }
        let ghost rows2 = self.memo_entries();
        let ev = Event::Start { name, position };
        proof {
            lemma_depth_take_full(pre_log);
            lemma_well_nested_push(pre_log, ev);
            assert(start_info(ev) == Some(k));
            assert(rows2[fi] == (k, pre_log.len() as int));
            assert forall|t: int| 0 <= t < rows2.len() && t != fi implies #[trigger] rows2[t]
                == rows[t] by {}
            assert forall|t: int| 0 <= t < rows2.len() && t != fi implies (#[trigger] rows2[t]).0
                != k by {
                if found < n {
                    assert(rows[fi].0 == k);
                    assert(rows[t].0 != rows[fi].0);
                }
            }
            lemma_start_keeps_memo_wf(pre_log, rows, rows2, fi, k, ev);
        }
        self.log.push(ev);
        proof {
            assert(self.log@ == pre_log.push(ev));
            assert(self.log@.last() == ev);
        }
    }

    /// Appends an event that is not a `Start`; the memo table is untouched.
    fn push_plain(&mut self, e: Event)
        requires
            old(self).wf(),
            nesting_depth(old(self).log()) + event_delta(e) >= 0,
            start_info(e) is None,
        ensures
            final(self).wf(),
            final(self).log() == old(self).log().push(e),
            final(self).memo_entries() == old(self).memo_entries(),
            nesting_depth(final(self).log()) == nesting_depth(old(self).log()) + event_delta(e),
    {
        proof {
            lemma_well_nested_push(self.log@, e);
        }
        let ghost pre = self.log@;
        let ghost rows = self.memo_entries();
        self.log.push(e);
        proof {
            assert forall|i: int| 0 <= i < rows.len() implies {
                &&& 0 <= (#[trigger] rows[i]).1 < self.log@.len()
                &&& start_info(self.log@[rows[i].1]) == Some(rows[i].0)
            } by {
                assert(self.log@[rows[i].1] == pre[rows[i].1]);
            }
            assert forall|i: int, j: int|
                0 <= i < rows.len() && (#[trigger] rows[i]).1 < j < self.log@.len() implies start_info(
                #[trigger] self.log@[j],
            ) != Some(rows[i].0) by {
                if j < pre.len() {
                    assert(self.log@[j] == pre[j]);
                } else {
                    assert(self.log@[j] == e);
                }
            }
            assert forall|j: int|
                0 <= j < self.log@.len() && start_info(#[trigger] self.log@[j]) is Some implies exists|i: int|
                0 <= i < rows.len() && (#[trigger] rows[i]).0 == start_info(
                    self.log@[j],
                ).unwrap() by {
                assert(j < pre.len() && self.log@[j] == pre[j]);
            }
        }
    }

    /// Appends a `Commit` event. A corresponding open `Start` must exist:
    /// the nesting depth is at least one.
    pub fn commit(&mut self)
        requires
            old(self).wf(),
            nesting_depth(old(self).log()) >= 1,
        ensures
            final(self).wf(),
            final(self).log() == old(self).log().push(Event::Commit),
            final(self).memo_entries() == old(self).memo_entries(),
            nesting_depth(final(self).log()) == nesting_depth(old(self).log()) - 1,
    {
        self.push_plain(Event::Commit);
    }

    /// Appends an `Abort` event, under the same pairing obligation as
    /// `commit`.
    pub fn abort(&mut self)
        requires
            old(self).wf(),
            nesting_depth(old(self).log()) >= 1,
        ensures
            final(self).wf(),
            final(self).log() == old(self).log().push(Event::Abort),
            final(self).memo_entries() == old(self).memo_entries(),
            nesting_depth(final(self).log()) == nesting_depth(old(self).log()) - 1,
    {
        self.push_plain(Event::Abort);
    }

    /// Appends a `Consume` event for a matched literal token.
    pub fn consume(&mut self, token: String)
        requires
            old(self).wf(),
        ensures
            final(self).wf(),
            final(self).log() == old(self).log().push(Event::Consume { token }),
            final(self).memo_entries() == old(self).memo_entries(),
            nesting_depth(final(self).log()) == nesting_depth(old(self).log()),
    {
        proof {
            lemma_depth_take_full(self.log@);
        }
        self.push_plain(Event::Consume { token });
    }
}

impl Default for Sink {
    /// An empty sink: no events, no memo rows.
    fn default() -> (r: Self)
        ensures
            r.wf(),
            r.log() == Seq::<Event>::empty(),
            r.memo_entries() == Seq::<((Seq<char>, int), int)>::empty(),
    {
        let r = Sink { log: Vec::new(), entries: Vec::new() };
        proof {
            assert(r.memo_entries() =~= Seq::<((Seq<char>, int), int)>::empty());
            assert forall|i: int| 0 <= i <= r.log@.len() implies nesting_depth(
                #[trigger] r.log@.take(i),
            ) >= 0 by {
                assert(r.log@.take(i) =~= Seq::<Event>::empty());
            }
        }
        r
    }
}

} // verus!
