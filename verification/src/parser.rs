use vstd::prelude::*;

use crate::events::Event;
use crate::events::InputIndex;
use crate::events::balanced_extension;
use crate::events::consume_info;
use crate::events::lemma_depth_take_full;
use crate::events::lemma_extension_push_neutral;
use crate::events::lemma_extension_refl;
use crate::events::lemma_prefix_split;
use crate::events::nesting_depth;
use crate::events::start_info;
use crate::events::wrap_extension;
use crate::sink::Sink;

verus! {

/// The token matches the text at `pos`: it fits in what remains and equals
/// the text there, codepoint for codepoint.
pub open spec fn can_eat(text: Seq<char>, pos: int, token: Seq<char>) -> bool {
    &&& 0 <= pos
    &&& pos + token.len() <= text.len()
    &&& text.subrange(pos, pos + token.len() as int) == token
}

/// Owns the input text and the current cursor position; snapshots and
/// restores the position around rule attempts.
pub struct Parser<'s> {
    input: &'s str,
    position: InputIndex,
}

/// A grammar rule: a stable name and a parse step. Rules compose by calling
/// back into the parser's transactional `parse`, never by moving the cursor
/// directly; the cursor moves only through `eat` and nested attempts.
pub trait ParseLet: Sized {
    /// Termination measure: a rule may invoke, at the same input position,
    /// only rules of strictly smaller rank.
    spec fn rank(&self) -> nat;

    /// The name used for tracing and memo keys.
    spec fn spec_name(&self) -> Seq<char>;

    /// What the rule denotes: the end position of its match starting at
    /// `pos`, or nothing when the rule does not match there.
    spec fn outcome(&self, text: Seq<char>, pos: int) -> Option<int>;

    fn name(&self) -> (r: String)
        ensures
            r@ == self.spec_name(),
    ;

    /// Attempts the rule. On success the cursor stands at the match's end;
    /// on failure it may stand anywhere at or after where it started, and the
    /// enclosing `parse` rewinds it. Either way the rule appends a balanced
    /// stretch of events and never shrinks the memo table.
    fn parse(&mut self, parser: &mut Parser, sink: &mut Sink) -> (r: bool)
        requires
            old(parser).wf(),
            old(sink).wf(),
        ensures
            final(parser).wf(),
            final(sink).wf(),
            *final(self) == *old(self),
            final(parser).text() == old(parser).text(),
            old(parser).pos() <= final(parser).pos(),
            balanced_extension(old(sink).log(), final(sink).log()),
            nesting_depth(final(sink).log()) == nesting_depth(old(sink).log()),
            old(sink).memo().dom().subset_of(final(sink).memo().dom()),
            r ==> old(self).outcome(old(parser).text(), old(parser).pos()) == Some(
                final(parser).pos(),
            ),
            !r ==> old(self).outcome(old(parser).text(), old(parser).pos()) is None,
        decreases old(parser).fuel(), self.rank(), 0nat,
    ;
}

impl<'s> Parser<'s> {
    /// The input text.
    pub closed spec fn text(&self) -> Seq<char> {
        self.input@
    }

    /// The cursor position, in codepoints from the start of the input.
    pub closed spec fn pos(&self) -> int {
        self.position@
    }

    /// The cursor never leaves the input: it stands between the start and
    /// one past the last codepoint.
    pub open spec fn wf(&self) -> bool {
        0 <= self.pos() <= self.text().len()
    }

    /// How much input is left; the termination measure of rule recursion.
    pub open spec fn fuel(&self) -> int {
        self.text().len() - self.pos()
    }

    /// A parser over `input` with the cursor at the start.
    pub fn new(input: &'s str) -> (r: Self)
        ensures
            r.wf(),
            r.text() == input@,
            r.pos() == 0,
    {
        Parser { input, position: InputIndex::new(0) }
    }

    /// Rewinds the cursor to a snapshot taken earlier on the same input.
    pub(crate) fn restore(&mut self, snapshot: InputIndex)
        requires
            0 <= snapshot@ <= old(self).text().len(),
        ensures
            final(self).wf(),
            final(self).text() == old(self).text(),
            final(self).pos() == snapshot@,
    {
        self.position = snapshot;
    }

    /// A copy of the current cursor position.
    pub fn position(&self) -> (r: InputIndex)
        ensures
            r@ == self.pos(),
    {
        self.position
    }

    /// The suffix of the input from the cursor on. Read only.
    pub fn remaining(&self) -> (r: &'s str)
        requires
            self.wf(),
        ensures
            r@ == self.text().subrange(self.pos(), self.text().len() as int),
    {
        let n = self.input.unicode_len();
        self.input.substring_char(self.position.value(), n)
    }

    /// If the input at the cursor starts with `token`, logs a `Consume`
    /// event and advances the cursor past it; otherwise changes nothing.
    /// This is the only primitive that advances the cursor.
    pub fn eat(&mut self, token: &str, sink: &mut Sink) -> (r: bool)
        requires
            old(self).wf(),
            old(sink).wf(),
        ensures
            final(self).wf(),
            final(sink).wf(),
            final(self).text() == old(self).text(),
            old(self).pos() <= final(self).pos(),
            r == can_eat(old(self).text(), old(self).pos(), token@),
            r ==> final(self).pos() == old(self).pos() + token@.len(),
            r ==> final(sink).log().len() == old(sink).log().len() + 1,
            r ==> consume_info(final(sink).log().last()) == Some(token@),
            !r ==> final(self).pos() == old(self).pos(),
            !r ==> final(sink).log() == old(sink).log(),
            old(sink).log().is_prefix_of(final(sink).log()),
            balanced_extension(old(sink).log(), final(sink).log()),
            nesting_depth(final(sink).log()) == nesting_depth(old(sink).log()),
            final(sink).memo_entries() == old(sink).memo_entries(),
    {
        let tlen = token.unicode_len();
        let ilen = self.input.unicode_len();
        let p = self.position.value();
        if tlen > ilen - p {
            proof {
                lemma_extension_refl(sink.log());
            }
            return false;
        }
        let mut i: usize = 0;
        while i < tlen
            invariant
                *self == *old(self),
                *sink == *old(sink),
                self.wf(),
                sink.wf(),
                i <= tlen,
                p + tlen <= ilen,
                p as int == self.pos(),
                tlen as int == token@.len(),
                ilen as int == self.text().len(),
                forall|t: int| 0 <= t < i ==> self.text()[p + t] == token@[t],
            decreases tlen - i,
        {
            let a = self.input.get_char(p + i);
            let b = token.get_char(i);
            if a != b {
                proof {
                    lemma_extension_refl(sink.log());
                    if can_eat(self.text(), self.pos(), token@) {
                        assert(self.text().subrange(p as int, p + tlen)[i as int] == self.text()[p
                            + i]);
                    }
                }
                return false;
            }
            i += 1;
        }
        proof {
            assert(self.text().subrange(p as int, p + tlen) =~= token@);
        }
        let ghost pre_log = sink.log();
        sink.consume(token.to_owned());
        self.position = InputIndex::new(p + tlen);
        proof {
            let e = sink.log().last();
            assert(sink.log() == pre_log.push(e));
            lemma_extension_push_neutral(pre_log, e);
        }
        true
    }

    /// The transactional attempt: logs a `Start`, runs the rule, and closes
    /// it with `Commit` or `Abort`; on failure the cursor rewinds to exactly
    /// where it stood before the call.
    pub fn parse<P: ParseLet>(&mut self, sink: &mut Sink, rule: &mut P) -> (r: bool)
        requires
            old(self).wf(),
            old(sink).wf(),
        ensures
            final(self).wf(),
            final(sink).wf(),
            *final(rule) == *old(rule),
            final(self).text() == old(self).text(),
            old(self).pos() <= final(self).pos(),
            r ==> old(rule).outcome(old(self).text(), old(self).pos()) == Some(final(self).pos()),
            !r ==> old(rule).outcome(old(self).text(), old(self).pos()) is None,
            !r ==> final(self).pos() == old(self).pos(),
            balanced_extension(old(sink).log(), final(sink).log()),
            nesting_depth(final(sink).log()) == nesting_depth(old(sink).log()),
            final(sink).log().len() >= old(sink).log().len() + 2,
            start_info(final(sink).log()[old(sink).log().len() as int]) == Some(
                (old(rule).spec_name(), old(self).pos()),
            ),
            r ==> final(sink).log().last() == Event::Commit,
            !r ==> final(sink).log().last() == Event::Abort,
            old(sink).memo().dom().subset_of(final(sink).memo().dom()),
            final(sink).memo().dom().contains((old(rule).spec_name(), old(self).pos())),
        decreases old(self).fuel(), rule.rank(), 1nat,
    {
        let backtrack = self.position;
        let ghost log0 = sink.log();
        proof {
            lemma_depth_take_full(log0);
        }
        let nm = rule.name();
        sink.start(nm, self.position);
        let ghost log1 = sink.log();
        let ghost start_ev = log1.last();
        proof {
            assert(log1 =~= log0.push(start_ev));
        }
        let r = rule.parse(self, sink);
        let ghost log2 = sink.log();
        let ghost d = log2.skip(log1.len() as int);
        proof {
            lemma_prefix_split(log1, log2);
        }
        if r {
            sink.commit();
            proof {
                wrap_extension(log0, log1, log2, sink.log(), start_ev, Event::Commit, d);
            }
            true
        } else {
            sink.abort();
            self.position = backtrack;
            proof {
                wrap_extension(log0, log1, log2, sink.log(), start_ev, Event::Abort, d);
            }
            false
        }
    }
}

} // verus!
