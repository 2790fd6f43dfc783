use vstd::prelude::*;

use crate::events::Event;
use crate::events::consume_info;
use crate::events::balanced_extension;
use crate::events::lemma_depth_take_full;
use crate::events::lemma_extension_refl;
use crate::events::lemma_extension_trans;
use crate::events::lemma_prefix_split;
use crate::events::nesting_depth;
use crate::events::opens_with;
use crate::events::wrap_extension;
use crate::parser::ParseLet;
use crate::parser::Parser;
use crate::parser::can_eat;
use crate::sink::Sink;

verus! {

/// An ASCII digit.
pub open spec fn is_digit_char(c: char) -> bool {
    48 <= c as u32 <= 57
}

/// Where a `Primitive` match starting at `pos` ends: one past a single
/// digit, or nothing.
pub open spec fn prim_end(text: Seq<char>, pos: int) -> Option<int> {
    if 0 <= pos < text.len() && is_digit_char(text[pos]) {
        Some(pos + 1)
    } else {
        None
    }
}

/// Where the sequence form digit `*` factor ends, or nothing.
pub open spec fn factor1_end(text: Seq<char>, pos: int) -> Option<int>
    decreases text.len() - pos, 1int,
{
    match prim_end(text, pos) {
        Some(p) => {
            if p < text.len() && text[p] == '*' {
                factor_end(text, p + 1)
            } else {
                None
            }
        },
        None => None,
    }
}

/// Where the digit-only factor form ends, or nothing.
pub open spec fn factor2_end(text: Seq<char>, pos: int) -> Option<int> {
    prim_end(text, pos)
}

/// Where a factor ends: the sequence form wins if it matches, else the
/// digit-only form - ordered choice.
pub open spec fn factor_end(text: Seq<char>, pos: int) -> Option<int>
    decreases text.len() - pos, 2int,
{
    match factor1_end(text, pos) {
        Some(p) => Some(p),
        None => factor2_end(text, pos),
    }
}

/// Where the sequence form factor `+` term ends, or nothing. The `pos < p`
/// conjunct holds of every factor match and only bounds the recursion.
pub open spec fn term1_end(text: Seq<char>, pos: int) -> Option<int>
    decreases text.len() - pos, 3int,
{
    match factor_end(text, pos) {
        Some(p) => {
            if pos < p && p < text.len() && text[p] == '+' {
                term_end(text, p + 1)
            } else {
                None
            }
        },
        None => None,
    }
}

/// Where the factor-only term form ends, or nothing.
pub open spec fn term2_end(text: Seq<char>, pos: int) -> Option<int> {
    factor_end(text, pos)
}

/// Where a term ends: the sequence form wins if it matches, else the
/// factor-only form - ordered choice.
pub open spec fn term_end(text: Seq<char>, pos: int) -> Option<int>
    decreases text.len() - pos, 4int,
{
    match term1_end(text, pos) {
        Some(p) => Some(p),
        None => term2_end(text, pos),
    }
}

/// Every factor match consumes at least one codepoint and ends inside the
/// input.
pub proof fn lemma_factor_end_bounds(text: Seq<char>, pos: int)
    ensures
        factor_end(text, pos) matches Some(p) ==> pos < p <= text.len(),
        factor1_end(text, pos) matches Some(p) ==> pos < p <= text.len(),
    decreases text.len() - pos, 2int,
{
    if prim_end(text, pos) is Some {
        let p1 = prim_end(text, pos).unwrap();
        if p1 < text.len() && text[p1] == '*' {
            lemma_factor_end_bounds(text, p1 + 1);
        }
    }
}

/// `eat` with a one-codepoint literal succeeds exactly when that codepoint
/// stands at `pos`.
proof fn lemma_one_char_eat(text: Seq<char>, pos: int, tok: Seq<char>, c: char)
    requires
        tok.len() == 1,
        tok[0] == c,
    ensures
        can_eat(text, pos, tok) <==> (0 <= pos && pos < text.len() && text[pos] == c),
{
    if 0 <= pos && pos < text.len() && text[pos] == c {
        assert(text.subrange(pos, pos + 1) =~= tok);
    }
    if can_eat(text, pos, tok) {
        assert(text.subrange(pos, pos + 1)[0] == text[pos]);
    }
}

/// The grammar's rules, as the engine's internal dispatch names them.
/// Verus refuses recursion that passes through trait implementations, so the
/// fixed grammar recurses through this dispatch rather than through
/// `Parser::parse`; `attempt` keeps the identical transactional discipline.
#[derive(Copy, Clone)]
enum RuleKind {
    Prim,
    Factor1,
    Factor2,
    Factor,
    Term1,
    Term2,
    Term,
}

impl RuleKind {
    /// Termination measure: a rule invokes, at the same input position, only
    /// rules of strictly smaller rank.
    spec fn rank(self) -> nat {
        match self {
            RuleKind::Prim => 0,
            RuleKind::Factor1 => 1,
            RuleKind::Factor2 => 1,
            RuleKind::Factor => 2,
            RuleKind::Term1 => 3,
            RuleKind::Term2 => 3,
            RuleKind::Term => 4,
        }
    }

    /// The name under which the rule is traced and memoized.
    spec fn spec_name(self) -> Seq<char> {
        match self {
            RuleKind::Prim => "prim"@,
            RuleKind::Factor1 => "factor(1)"@,
            RuleKind::Factor2 => "factor(2)"@,
            RuleKind::Factor => "factor"@,
            RuleKind::Term1 => "term(1)"@,
            RuleKind::Term2 => "term(2)"@,
            RuleKind::Term => "term"@,
        }
    }

    /// What the rule denotes: the end position of its match at `pos`, or
    /// nothing when it does not match there.
    spec fn outcome(self, text: Seq<char>, pos: int) -> Option<int> {
        match self {
            RuleKind::Prim => prim_end(text, pos),
            RuleKind::Factor1 => factor1_end(text, pos),
            RuleKind::Factor2 => factor2_end(text, pos),
            RuleKind::Factor => factor_end(text, pos),
            RuleKind::Term1 => term1_end(text, pos),
            RuleKind::Term2 => term2_end(text, pos),
            RuleKind::Term => term_end(text, pos),
        }
    }

    fn name_string(&self) -> (r: String)
        ensures
            r@ == self.spec_name(),
    {
        match self {
            RuleKind::Prim => "prim".to_owned(),
            RuleKind::Factor1 => "factor(1)".to_owned(),
            RuleKind::Factor2 => "factor(2)".to_owned(),
            RuleKind::Factor => "factor".to_owned(),
            RuleKind::Term1 => "term(1)".to_owned(),
            RuleKind::Term2 => "term(2)".to_owned(),
            RuleKind::Term => "term".to_owned(),
        }
    }
}

/// The engine's transactional attempt: the same snapshot, `Start`, close,
/// rewind discipline as `Parser::parse`, for the fixed grammar's own
/// recursion.
#[verifier::rlimit(60)]
fn attempt(parser: &mut Parser, sink: &mut Sink, rule: RuleKind) -> (r: bool)
    requires
        old(parser).wf(),
        old(sink).wf(),
    ensures
        final(parser).wf(),
        final(sink).wf(),
        final(parser).text() == old(parser).text(),
        old(parser).pos() <= final(parser).pos(),
        r ==> rule.outcome(old(parser).text(), old(parser).pos()) == Some(final(parser).pos()),
        !r ==> rule.outcome(old(parser).text(), old(parser).pos()) is None,
        !r ==> final(parser).pos() == old(parser).pos(),
        balanced_extension(old(sink).log(), final(sink).log()),
        nesting_depth(final(sink).log()) == nesting_depth(old(sink).log()),
        old(sink).memo().dom().subset_of(final(sink).memo().dom()),
        opens_with(old(sink).log(), final(sink).log(), rule.spec_name(), old(parser).pos()),
    decreases old(parser).fuel(), rule.rank(), 2nat,
{
    let backtrack = parser.position();
    let ghost log0 = sink.log();
    proof {
        lemma_depth_take_full(log0);
    }
    let nm = rule.name_string();
    sink.start(nm, backtrack);
    let ghost log1 = sink.log();
    let ghost start_ev = log1.last();
    proof {
        assert(log1 =~= log0.push(start_ev));
    }
    let r = step(parser, sink, rule);
    let ghost log2 = sink.log();
    let ghost d = log2.skip(log1.len() as int);
    proof {
        lemma_prefix_split(log1, log2);
    }
    if r {
        sink.commit();
        proof {
            wrap_extension(log0, log1, log2, sink.log(), start_ev, Event::Commit, d);
            reveal(opens_with);
        }
        true
    } else {
        sink.abort();
        parser.restore(backtrack);
        proof {
            wrap_extension(log0, log1, log2, sink.log(), start_ev, Event::Abort, d);
            reveal(opens_with);
        }
        false
    }
}

/// One rule's own body, without the transactional wrapper around it.
fn step(parser: &mut Parser, sink: &mut Sink, rule: RuleKind) -> (r: bool)
    requires
        old(parser).wf(),
        old(sink).wf(),
    ensures
        final(parser).wf(),
        final(sink).wf(),
        final(parser).text() == old(parser).text(),
        old(parser).pos() <= final(parser).pos(),
        balanced_extension(old(sink).log(), final(sink).log()),
        nesting_depth(final(sink).log()) == nesting_depth(old(sink).log()),
        old(sink).memo().dom().subset_of(final(sink).memo().dom()),
        r ==> rule.outcome(old(parser).text(), old(parser).pos()) == Some(final(parser).pos()),
        !r ==> rule.outcome(old(parser).text(), old(parser).pos()) is None,
    decreases old(parser).fuel(), rule.rank(), 1nat,
{
    match rule {
        RuleKind::Prim => step_prim(parser, sink),
        RuleKind::Factor1 => step_factor1(parser, sink),
        RuleKind::Factor2 => attempt(parser, sink, RuleKind::Prim),
        RuleKind::Factor => step_factor(parser, sink),
        RuleKind::Term1 => step_term1(parser, sink),
        RuleKind::Term2 => attempt(parser, sink, RuleKind::Factor),
        RuleKind::Term => step_term(parser, sink),
    }
}

/// `Primitive`: match one ASCII digit and consume it as a literal.
fn step_prim(parser: &mut Parser, sink: &mut Sink) -> (r: bool)
    requires
        old(parser).wf(),
        old(sink).wf(),
    ensures
        final(parser).wf(),
        final(sink).wf(),
        final(parser).text() == old(parser).text(),
        old(parser).pos() <= final(parser).pos(),
        balanced_extension(old(sink).log(), final(sink).log()),
        nesting_depth(final(sink).log()) == nesting_depth(old(sink).log()),
        old(sink).memo().dom().subset_of(final(sink).memo().dom()),
        r ==> prim_end(old(parser).text(), old(parser).pos()) == Some(final(parser).pos()),
        !r ==> prim_end(old(parser).text(), old(parser).pos()) is None,
        !r ==> final(parser).pos() == old(parser).pos(),
        !r ==> final(sink).log() == old(sink).log(),
        r ==> final(sink).log().len() == old(sink).log().len() + 1,
        r ==> consume_info(final(sink).log().last()) == Some(
            seq![old(parser).text()[old(parser).pos()]],
        ),
    decreases old(parser).fuel(), 0nat, 0nat,
{
    let ghost text = parser.text();
    let ghost pos0 = parser.pos();
    let rem = parser.remaining();
    if rem.unicode_len() == 0 {
        proof {
            lemma_extension_refl(sink.log());
        }
        return false;
    }
    let c = rem.get_char(0);
    let u = c as u32;
    proof {
        assert(rem@[0] == text[pos0]);
    }
    if !(48 <= u && u <= 57) {
        proof {
            lemma_extension_refl(sink.log());
        }
        return false;
    }
    let tok = rem.substring_char(0, 1);
    proof {
        assert(tok@ =~= text.subrange(pos0, pos0 + 1));
        assert(text.subrange(pos0, pos0 + 1) =~= seq![text[pos0]]);
    }
    let _matched = parser.eat(tok, sink);
    proof {
        assert(can_eat(text, pos0, tok@));
    }
    true
}

/// `Factor1`: digit `*` factor, in sequence.
#[verifier::rlimit(60)]
fn step_factor1(parser: &mut Parser, sink: &mut Sink) -> (r: bool)
    requires
        old(parser).wf(),
        old(sink).wf(),
    ensures
        final(parser).wf(),
        final(sink).wf(),
        final(parser).text() == old(parser).text(),
        old(parser).pos() <= final(parser).pos(),
        balanced_extension(old(sink).log(), final(sink).log()),
        nesting_depth(final(sink).log()) == nesting_depth(old(sink).log()),
        old(sink).memo().dom().subset_of(final(sink).memo().dom()),
        r ==> factor1_end(old(parser).text(), old(parser).pos()) == Some(final(parser).pos()),
        !r ==> factor1_end(old(parser).text(), old(parser).pos()) is None,
    decreases old(parser).fuel(), 1nat, 0nat,
{
    let ghost text = parser.text();
    let ghost pos0 = parser.pos();
    let ghost log0 = sink.log();
    if !attempt(parser, sink, RuleKind::Prim) {
        return false;
    }
    let ghost p1 = parser.pos();
    let ghost log1 = sink.log();
    let ok2 = parser.eat("*", sink);
    proof {
        lemma_extension_trans(log0, log1, sink.log());
        reveal_strlit("*");
        lemma_one_char_eat(text, p1, "*"@, '*');
    }
    if !ok2 {
        return false;
    }
    let ghost log2 = sink.log();
    let r = attempt(parser, sink, RuleKind::Factor);
    proof {
        lemma_extension_trans(log0, log2, sink.log());
    }
    r
}

/// `Factor`: the sequence form, else the digit-only form.
fn step_factor(parser: &mut Parser, sink: &mut Sink) -> (r: bool)
    requires
        old(parser).wf(),
        old(sink).wf(),
    ensures
        final(parser).wf(),
        final(sink).wf(),
        final(parser).text() == old(parser).text(),
        old(parser).pos() <= final(parser).pos(),
        balanced_extension(old(sink).log(), final(sink).log()),
        nesting_depth(final(sink).log()) == nesting_depth(old(sink).log()),
        old(sink).memo().dom().subset_of(final(sink).memo().dom()),
        r ==> factor_end(old(parser).text(), old(parser).pos()) == Some(final(parser).pos()),
        !r ==> factor_end(old(parser).text(), old(parser).pos()) is None,
        !r ==> final(parser).pos() == old(parser).pos(),
        opens_with(old(sink).log(), final(sink).log(), "factor(1)"@, old(parser).pos()),
    decreases old(parser).fuel(), 2nat, 0nat,
{
    let ghost log0 = sink.log();
    if attempt(parser, sink, RuleKind::Factor1) {
        return true;
    }
    let ghost log1 = sink.log();
    let r = attempt(parser, sink, RuleKind::Factor2);
    proof {
        lemma_extension_trans(log0, log1, sink.log());
        reveal(opens_with);
        assert(sink.log().subrange(0, log1.len() as int)[log0.len() as int] == sink.log()[log0.len() as int]);
    }
    r
}

/// `Term1`: factor `+` term, in sequence.
#[verifier::rlimit(60)]
fn step_term1(parser: &mut Parser, sink: &mut Sink) -> (r: bool)
    requires
        old(parser).wf(),
        old(sink).wf(),
    ensures
        final(parser).wf(),
        final(sink).wf(),
        final(parser).text() == old(parser).text(),
        old(parser).pos() <= final(parser).pos(),
        balanced_extension(old(sink).log(), final(sink).log()),
        nesting_depth(final(sink).log()) == nesting_depth(old(sink).log()),
        old(sink).memo().dom().subset_of(final(sink).memo().dom()),
        r ==> term1_end(old(parser).text(), old(parser).pos()) == Some(final(parser).pos()),
        !r ==> term1_end(old(parser).text(), old(parser).pos()) is None,
    decreases old(parser).fuel(), 3nat, 0nat,
{
    let ghost text = parser.text();
    let ghost pos0 = parser.pos();
    let ghost log0 = sink.log();
    if !attempt(parser, sink, RuleKind::Factor) {
        return false;
    }
    let ghost p = parser.pos();
    let ghost log1 = sink.log();
    proof {
        lemma_factor_end_bounds(text, pos0);
    }
    let ok2 = parser.eat("+", sink);
    proof {
        lemma_extension_trans(log0, log1, sink.log());
        reveal_strlit("+");
        lemma_one_char_eat(text, p, "+"@, '+');
    }
    if !ok2 {
        return false;
    }
    let ghost log2 = sink.log();
    let r = attempt(parser, sink, RuleKind::Term);
    proof {
        lemma_extension_trans(log0, log2, sink.log());
    }
    r
}

/// `Term`: the sequence form, else the factor-only form.
fn step_term(parser: &mut Parser, sink: &mut Sink) -> (r: bool)
    requires
        old(parser).wf(),
        old(sink).wf(),
    ensures
        final(parser).wf(),
        final(sink).wf(),
        final(parser).text() == old(parser).text(),
        old(parser).pos() <= final(parser).pos(),
        balanced_extension(old(sink).log(), final(sink).log()),
        nesting_depth(final(sink).log()) == nesting_depth(old(sink).log()),
        old(sink).memo().dom().subset_of(final(sink).memo().dom()),
        r ==> term_end(old(parser).text(), old(parser).pos()) == Some(final(parser).pos()),
        !r ==> term_end(old(parser).text(), old(parser).pos()) is None,
        !r ==> final(parser).pos() == old(parser).pos(),
        opens_with(old(sink).log(), final(sink).log(), "term(1)"@, old(parser).pos()),
    decreases old(parser).fuel(), 4nat, 0nat,
{
    let ghost log0 = sink.log();
    if attempt(parser, sink, RuleKind::Term1) {
        return true;
    }
    let ghost log1 = sink.log();
    let r = attempt(parser, sink, RuleKind::Term2);
    proof {
        lemma_extension_trans(log0, log1, sink.log());
        reveal(opens_with);
        assert(sink.log().subrange(0, log1.len() as int)[log0.len() as int] == sink.log()[log0.len() as int]);
    }
    r
}

/// Matches exactly one ASCII digit, consuming it as a literal.
pub struct Primitive;

/// The sequence factor form: digit `*` factor.
pub struct Factor1;

/// The digit-only factor form.
pub struct Factor2;

/// A factor: the sequence form, or the digit-only form.
pub struct Factor;

/// The sequence term form: factor `+` term.
pub struct Term1;

/// The factor-only term form.
pub struct Term2;

/// A term: the sequence form, or the factor-only form; the grammar's top
/// rule.
pub struct Term;

impl ParseLet for Primitive {
    open spec fn rank(&self) -> nat {
        0
    }

    open spec fn spec_name(&self) -> Seq<char> {
        "prim"@
    }

    open spec fn outcome(&self, text: Seq<char>, pos: int) -> Option<int> {
        prim_end(text, pos)
    }

    fn name(&self) -> (r: String) {
        "prim".to_owned()
    }

    fn parse(&mut self, parser: &mut Parser, sink: &mut Sink) -> (r: bool)
        ensures
            !r ==> final(parser).pos() == old(parser).pos(),
            !r ==> final(sink).log() == old(sink).log(),
            r ==> final(sink).log().len() == old(sink).log().len() + 1,
            r ==> consume_info(final(sink).log().last()) == Some(
                seq![old(parser).text()[old(parser).pos()]],
            ),
        decreases old(parser).fuel(), self.rank(), 0nat,
    {
        step_prim(parser, sink)
    }
}

impl ParseLet for Factor1 {
    open spec fn rank(&self) -> nat {
        1
    }

    open spec fn spec_name(&self) -> Seq<char> {
        "factor(1)"@
    }

    open spec fn outcome(&self, text: Seq<char>, pos: int) -> Option<int> {
        factor1_end(text, pos)
    }

    fn name(&self) -> (r: String) {
        "factor(1)".to_owned()
    }

    fn parse(&mut self, parser: &mut Parser, sink: &mut Sink) -> (r: bool)
        decreases old(parser).fuel(), self.rank(), 0nat,
    {
        step_factor1(parser, sink)
    }
}

impl ParseLet for Factor2 {
    open spec fn rank(&self) -> nat {
        1
    }

    open spec fn spec_name(&self) -> Seq<char> {
        "factor(2)"@
    }

    open spec fn outcome(&self, text: Seq<char>, pos: int) -> Option<int> {
        factor2_end(text, pos)
    }

    fn name(&self) -> (r: String) {
        "factor(2)".to_owned()
    }

    fn parse(&mut self, parser: &mut Parser, sink: &mut Sink) -> (r: bool)
        ensures
            !r ==> final(parser).pos() == old(parser).pos(),
        decreases old(parser).fuel(), self.rank(), 0nat,
    {
        attempt(parser, sink, RuleKind::Prim)
    }
}

impl ParseLet for Factor {
    open spec fn rank(&self) -> nat {
        2
    }

    open spec fn spec_name(&self) -> Seq<char> {
        "factor"@
    }

    open spec fn outcome(&self, text: Seq<char>, pos: int) -> Option<int> {
        factor_end(text, pos)
    }

    fn name(&self) -> (r: String) {
        "factor".to_owned()
    }

    fn parse(&mut self, parser: &mut Parser, sink: &mut Sink) -> (r: bool)
        ensures
            !r ==> final(parser).pos() == old(parser).pos(),
            opens_with(old(sink).log(), final(sink).log(), "factor(1)"@, old(parser).pos()),
        decreases old(parser).fuel(), self.rank(), 0nat,
    {
        step_factor(parser, sink)
    }
}

impl ParseLet for Term1 {
    open spec fn rank(&self) -> nat {
        3
    }

    open spec fn spec_name(&self) -> Seq<char> {
        "term(1)"@
    }

    open spec fn outcome(&self, text: Seq<char>, pos: int) -> Option<int> {
        term1_end(text, pos)
    }

    fn name(&self) -> (r: String) {
        "term(1)".to_owned()
    }

    fn parse(&mut self, parser: &mut Parser, sink: &mut Sink) -> (r: bool)
        decreases old(parser).fuel(), self.rank(), 0nat,
    {
        step_term1(parser, sink)
    }
}

impl ParseLet for Term2 {
    open spec fn rank(&self) -> nat {
        3
    }

    open spec fn spec_name(&self) -> Seq<char> {
        "term(2)"@
    }

    open spec fn outcome(&self, text: Seq<char>, pos: int) -> Option<int> {
        term2_end(text, pos)
    }

    fn name(&self) -> (r: String) {
        "term(2)".to_owned()
    }

    fn parse(&mut self, parser: &mut Parser, sink: &mut Sink) -> (r: bool)
        ensures
            !r ==> final(parser).pos() == old(parser).pos(),
        decreases old(parser).fuel(), self.rank(), 0nat,
    {
        attempt(parser, sink, RuleKind::Factor)
    }
}

impl ParseLet for Term {
    open spec fn rank(&self) -> nat {
        4
    }

    open spec fn spec_name(&self) -> Seq<char> {
        "term"@
    }

    open spec fn outcome(&self, text: Seq<char>, pos: int) -> Option<int> {
        term_end(text, pos)
    }

    fn name(&self) -> (r: String) {
        "term".to_owned()
    }

    fn parse(&mut self, parser: &mut Parser, sink: &mut Sink) -> (r: bool)
        ensures
            !r ==> final(parser).pos() == old(parser).pos(),
            opens_with(old(sink).log(), final(sink).log(), "term(1)"@, old(parser).pos()),
        decreases old(parser).fuel(), self.rank(), 0nat,
    {
        step_term(parser, sink)
    }
}

} // verus!
