use vstd::prelude::*;

verus! {

/// Offset into the input text, in codepoints. Opaque to callers; the engine
/// keeps every value at most the input length.
#[derive(Copy, Clone, PartialEq, Eq, Structural, PartialOrd, Ord, Hash, Debug)]
pub struct InputIndex(usize);

/// Position of an entry in the event log. Opaque to callers; the sink keeps
/// every stored value below the current log length.
#[derive(Copy, Clone, PartialEq, Eq, Structural, PartialOrd, Ord, Hash, Debug)]
pub struct LogIndex(usize);

impl View for InputIndex {
    type V = int;

    closed spec fn view(&self) -> int {
        self.0 as int
    }
}

impl View for LogIndex {
    type V = int;

    closed spec fn view(&self) -> int {
        self.0 as int
    }
}

impl InputIndex {
    pub fn new(value: usize) -> (r: Self)
        ensures
            r@ == value as int,
    {
        InputIndex(value)
    }

    pub fn value(&self) -> (r: usize)
        ensures
            r as int == self@,
    {
        self.0
    }
}

impl LogIndex {
    pub fn new(value: usize) -> (r: Self)
        ensures
            r@ == value as int,
    {
        LogIndex(value)
    }

    pub fn value(&self) -> (r: usize)
        ensures
            r as int == self@,
    {
        self.0
    }
}

/// One record of the parse trace.
#[derive(Debug)]
pub enum Event {
    /// A rule named `name` began an attempt at `position`.
    Start { name: String, position: InputIndex },
    /// The most recently opened, not yet closed rule succeeded.
    Commit,
    /// The most recently opened, not yet closed rule failed.
    Abort,
    /// A literal token was matched and the cursor advanced past it.
    Consume { token: String },
    /// A pointer to another log entry (reserved for cross references).
    Reference { reference: LogIndex },
}

/// How an event changes the number of open rules: `Start` opens one,
/// `Commit` and `Abort` close one, the rest leave it unchanged.
pub open spec fn event_delta(e: Event) -> int {
    match e {
        Event::Start { .. } => 1,
        Event::Commit => -1,
        Event::Abort => -1,
        Event::Consume { .. } => 0,
        Event::Reference { .. } => 0,
    }
}

/// The rule name and position of a `Start` event, and nothing of the others.
pub open spec fn start_info(e: Event) -> Option<(Seq<char>, int)> {
    match e {
        Event::Start { name, position } => Some((name@, position@)),
        _ => None,
    }
}

/// The token of a `Consume` event, and nothing of the others.
pub open spec fn consume_info(e: Event) -> Option<Seq<char>> {
    match e {
        Event::Consume { token } => Some(token@),
        _ => None,
    }
}

/// The number of rules still open after the whole log: `Start`s minus
/// `Commit`s and `Abort`s.
pub open spec fn nesting_depth(log: Seq<Event>) -> int
    decreases log.len(),
{
    if log.len() == 0 {
        0
    } else {
        nesting_depth(log.drop_last()) + event_delta(log.last())
    }
}

/// Scanned left to right, no `Commit` or `Abort` appears with zero open
/// `Start`s: every prefix of the log keeps a non-negative nesting depth.
pub open spec fn well_nested(log: Seq<Event>) -> bool {
    forall|i: int| 0 <= i <= log.len() ==> nesting_depth(#[trigger] log.take(i)) >= 0
}

/// A stretch of the log that opens exactly as many rules as it closes and
/// never closes one it did not open.
pub open spec fn balanced(log: Seq<Event>) -> bool {
    nesting_depth(log) == 0 && well_nested(log)
}

/// `post` extends `pre` and the added stretch is balanced.
pub open spec fn balanced_extension(pre: Seq<Event>, post: Seq<Event>) -> bool {
    pre.is_prefix_of(post) && balanced(post.skip(pre.len() as int))
}

pub proof fn lemma_depth_concat(a: Seq<Event>, b: Seq<Event>)
    ensures
        nesting_depth(a + b) == nesting_depth(a) + nesting_depth(b),
    decreases b.len(),
{
    if b.len() == 0 {
        assert(a + b =~= a);
    } else {
        assert((a + b).drop_last() =~= a + b.drop_last());
        lemma_depth_concat(a, b.drop_last());
        assert((a + b).last() == b.last());
    }
}

pub proof fn lemma_depth_take_full(a: Seq<Event>)
    ensures
        nesting_depth(a.take(a.len() as int)) == nesting_depth(a),
{
    assert(a.take(a.len() as int) =~= a);
}

pub proof fn lemma_prefix_split(a: Seq<Event>, b: Seq<Event>)
    requires
        a.is_prefix_of(b),
    ensures
        b == a + b.skip(a.len() as int),
{
    assert(b =~= a + b.skip(a.len() as int));
}

pub proof fn lemma_balanced_empty()
    ensures
        balanced(Seq::<Event>::empty()),
{
    assert forall|i: int| 0 <= i <= 0 implies nesting_depth(
        #[trigger] Seq::<Event>::empty().take(i),
    ) >= 0 by {
        assert(Seq::<Event>::empty().take(i) =~= Seq::<Event>::empty());
    }
}

pub proof fn lemma_balanced_singleton(e: Event)
    requires
        event_delta(e) == 0,
    ensures
        balanced(seq![e]),
{
    let s = seq![e];
    assert(nesting_depth(Seq::<Event>::empty()) == 0);
    assert(s.drop_last() =~= Seq::<Event>::empty());
    assert(s.last() == e);
    assert(nesting_depth(s) == 0);
    assert forall|i: int| 0 <= i <= s.len() implies nesting_depth(#[trigger] s.take(i)) >= 0 by {
        if i == 0 {
            assert(s.take(i) =~= Seq::<Event>::empty());
        } else {
            assert(s.take(i) =~= s);
        }
    }
}

pub proof fn lemma_balanced_concat(a: Seq<Event>, b: Seq<Event>)
    requires
        balanced(a),
        balanced(b),
    ensures
        balanced(a + b),
{
    lemma_depth_concat(a, b);
    assert forall|i: int| 0 <= i <= (a + b).len() implies nesting_depth(
        #[trigger] (a + b).take(i),
    ) >= 0 by {
        if i <= a.len() {
            assert((a + b).take(i) =~= a.take(i));
        } else {
            assert((a + b).take(i) =~= a + b.take(i - a.len()));
            lemma_depth_concat(a, b.take(i - a.len()));
        }
    }
}

pub proof fn lemma_extension_refl(a: Seq<Event>)
    ensures
        balanced_extension(a, a),
{
    assert(a.skip(a.len() as int) =~= Seq::<Event>::empty());
    lemma_balanced_empty();
}

pub proof fn lemma_extension_trans(a: Seq<Event>, b: Seq<Event>, c: Seq<Event>)
    requires
        balanced_extension(a, b),
        balanced_extension(b, c),
    ensures
        balanced_extension(a, c),
{
    assert(a.is_prefix_of(c));
    assert(c.skip(a.len() as int) =~= b.skip(a.len() as int) + c.skip(b.len() as int));
    lemma_balanced_concat(b.skip(a.len() as int), c.skip(b.len() as int));
}

/// Appending an event that neither opens nor closes a rule is a balanced
/// extension.
pub proof fn lemma_extension_push_neutral(pre: Seq<Event>, e: Event)
    requires
        event_delta(e) == 0,
    ensures
        balanced_extension(pre, pre.push(e)),
{
    assert(pre.is_prefix_of(pre.push(e)));
    assert(pre.push(e).skip(pre.len() as int) =~= seq![e]);
    lemma_balanced_singleton(e);
}

/// A balanced stretch wrapped in one opening and one closing event is
/// balanced again: this is the shape a transactional attempt appends.
pub proof fn lemma_wrapped_balanced(d: Seq<Event>, open_ev: Event, close_ev: Event)
    requires
        balanced(d),
        event_delta(open_ev) == 1,
        event_delta(close_ev) == -1,
    ensures
        balanced(seq![open_ev] + d + seq![close_ev]),
{
    let w = seq![open_ev] + d + seq![close_ev];
    assert(nesting_depth(Seq::<Event>::empty()) == 0);
    assert(seq![open_ev].drop_last() =~= Seq::<Event>::empty());
    assert(seq![open_ev].last() == open_ev);
    assert(nesting_depth(seq![open_ev]) == 1);
    assert(seq![close_ev].drop_last() =~= Seq::<Event>::empty());
    assert(seq![close_ev].last() == close_ev);
    assert(nesting_depth(seq![close_ev]) == -1);
    lemma_depth_concat(seq![open_ev], d);
    lemma_depth_concat(seq![open_ev] + d, seq![close_ev]);
    assert(nesting_depth(w) == 0);
    assert forall|i: int| 0 <= i <= w.len() implies nesting_depth(#[trigger] w.take(i)) >= 0 by {
        if i == 0 {
            assert(w.take(i) =~= Seq::<Event>::empty());
        } else if i <= d.len() + 1 {
            assert(w.take(i) =~= seq![open_ev] + d.take(i - 1));
            lemma_depth_concat(seq![open_ev], d.take(i - 1));
        } else {
            assert(w.take(i) =~= w);
        }
    }
}

/// Pushing an event keeps the log well nested as long as some rule is open
/// when a closing event comes; the depth moves by the event's delta.
pub proof fn lemma_well_nested_push(log: Seq<Event>, e: Event)
    requires
        well_nested(log),
        nesting_depth(log) + event_delta(e) >= 0,
    ensures
        well_nested(log.push(e)),
        nesting_depth(log.push(e)) == nesting_depth(log) + event_delta(e),
{
    assert(log.push(e).drop_last() =~= log);
    assert forall|i: int| 0 <= i <= log.push(e).len() implies nesting_depth(
        #[trigger] log.push(e).take(i),
    ) >= 0 by {
        if i <= log.len() {
            assert(log.push(e).take(i) =~= log.take(i));
        } else {
            assert(log.push(e).take(i) =~= log.push(e));
        }
    }
}

/// At most every event opens a rule, so the depth never exceeds the length.
pub proof fn lemma_depth_le_len(log: Seq<Event>)
    ensures
        nesting_depth(log) <= log.len(),
    decreases log.len(),
{
    if log.len() > 0 {
        lemma_depth_le_len(log.drop_last());
    }
}

/// `post` extends `pre`, and the first added event is `Start{name, pos}`:
/// the shape of a log across a rule whose first act opens that attempt.
/// Opaque so that callers that do not need it pay nothing; reveal it where
/// it is produced or used.
#[verifier::opaque]
pub open spec fn opens_with(pre: Seq<Event>, post: Seq<Event>, name: Seq<char>, pos: int) -> bool {
    pre.len() < post.len() && start_info(post[pre.len() as int]) == Some((name, pos))
}

/// The stretch a transactional attempt appends - its `Start`, the rule's own
/// balanced activity, and the closing event - is balanced as a whole.
pub proof fn wrap_extension(
    log0: Seq<Event>,
    log1: Seq<Event>,
    log2: Seq<Event>,
    log3: Seq<Event>,
    start_ev: Event,
    close_ev: Event,
    d: Seq<Event>,
)
    requires
        log1 == log0.push(start_ev),
        start_info(start_ev) is Some,
        event_delta(close_ev) == -1,
        log1.is_prefix_of(log2),
        d == log2.skip(log1.len() as int),
        balanced(d),
        log3 == log2.push(close_ev),
    ensures
        balanced_extension(log0, log3),
        log3[log0.len() as int] == start_ev,
        log3.last() == close_ev,
        log3.len() >= log0.len() + 2,
{
    assert(event_delta(start_ev) == 1);
    lemma_prefix_split(log1, log2);
    lemma_wrapped_balanced(d, start_ev, close_ev);
    assert(log3.skip(log0.len() as int) =~= seq![start_ev] + d + seq![close_ev]);
    assert(log0.is_prefix_of(log3));
    assert(log3[log0.len() as int] == start_ev);
}

/// The event log, scanned left to right, stays well nested: a well nested
/// log followed by a balanced stretch is well nested as a whole, so every
/// `Commit` or `Abort` in it closes exactly one still open `Start`.
pub proof fn lemma_well_nested_extension(pre: Seq<Event>, post: Seq<Event>)
    requires
        well_nested(pre),
        balanced_extension(pre, post),
    ensures
        well_nested(post),
{
    lemma_prefix_split(pre, post);
    let d = post.skip(pre.len() as int);
    lemma_depth_take_full(pre);
    assert forall|i: int| 0 <= i <= post.len() implies nesting_depth(#[trigger] post.take(i)) >= 0 by {
        if i <= pre.len() {
            assert(post.take(i) =~= pre.take(i));
        } else {
            assert(post.take(i) =~= pre + d.take(i - pre.len()));
            lemma_depth_concat(pre, d.take(i - pre.len()));
        }
    }
}

} // verus!
