use parsetrace::Event;
use parsetrace::InputIndex;
use parsetrace::LogIndex;
use parsetrace::Parser;
use parsetrace::Primitive;
use parsetrace::Sink;
use parsetrace::Term;

#[test]
fn math() {
    let mut parser = Parser::new("1*3");
    let mut sink = Sink::default();

    parser.parse(&mut sink, &mut Term);
    println!("{}", sink.render());
}

fn consumed_tokens(sink: &Sink) -> Vec<String> {
    sink.events()
        .iter()
        .filter_map(|e| match e {
            Event::Consume { token } => Some(token.clone()),
            _ => None,
        })
        .collect()
}

#[test]
fn one_times_three_full_match() {
    let mut parser = Parser::new("1*3");
    let mut sink = Sink::default();
    assert!(parser.parse(&mut sink, &mut Term));
    assert_eq!(parser.position().value(), 3);
    // Digits are consumed one at a time and operators via eat; the failed
    // first alternative (term(1)) replays the factor, so its consumptions
    // appear twice.
    let consumed = consumed_tokens(&sink);
    assert_eq!(consumed, vec!["1", "*", "3", "3", "1", "*", "3", "3"]);
}

#[test]
fn sum_of_products_full_match() {
    let mut parser = Parser::new("2+3*4");
    let mut sink = Sink::default();
    assert!(parser.parse(&mut sink, &mut Term));
    assert_eq!(parser.position().value(), 5);
    let ev = sink.events();
    match &ev[0] {
        Event::Start { name, position } => {
            assert_eq!(name.as_str(), "term");
            assert_eq!(position.value(), 0);
        }
        _ => panic!("expected a start event first"),
    }
    // The sequence form is attempted before the factor-only form.
    match &ev[1] {
        Event::Start { name, .. } => assert_eq!(name.as_str(), "term(1)"),
        _ => panic!("expected the sequence form to start second"),
    }
    assert!(matches!(ev.last().unwrap(), Event::Commit));
}

#[test]
fn leading_operator_rejected() {
    let mut parser = Parser::new("*3");
    let mut sink = Sink::default();
    assert!(!parser.parse(&mut sink, &mut Term));
    assert_eq!(parser.position().value(), 0);
}

#[test]
fn empty_input_rejected() {
    let mut parser = Parser::new("");
    let mut sink = Sink::default();
    assert!(!parser.parse(&mut sink, &mut Term));
    assert_eq!(parser.position().value(), 0);
}

#[test]
fn adjacent_digits_partial_match() {
    let mut parser = Parser::new("12");
    let mut sink = Sink::default();
    assert!(parser.parse(&mut sink, &mut Term));
    // Only the first digit is consumed: the grammar has no multi-digit rule,
    // and detecting the partial match is the caller's post-check.
    assert_eq!(parser.position().value(), 1);
}

#[test]
fn failed_attempt_still_logged_and_well_nested() {
    let mut parser = Parser::new("");
    let mut sink = Sink::default();
    assert!(!parser.parse(&mut sink, &mut Term));
    let ev = sink.events();
    assert!(ev.len() >= 2);
    assert!(matches!(ev.last().unwrap(), Event::Abort));
    // Scanned left to right, every Commit/Abort closes a still-open Start.
    let mut depth: i64 = 0;
    for e in ev.iter() {
        match e {
            Event::Start { .. } => depth += 1,
            Event::Commit | Event::Abort => {
                assert!(depth > 0);
                depth -= 1;
            }
            _ => {}
        }
    }
    assert_eq!(depth, 0);
}

#[test]
fn eat_advances_exactly_by_token() {
    let mut parser = Parser::new("abc");
    let mut sink = Sink::default();
    assert!(!parser.eat("b", &mut sink));
    assert_eq!(parser.position().value(), 0);
    assert_eq!(sink.events().len(), 0);
    assert!(parser.eat("ab", &mut sink));
    assert_eq!(parser.position().value(), 2);
    assert_eq!(sink.events().len(), 1);
    match sink.events().last().unwrap() {
        Event::Consume { token } => assert_eq!(token.as_str(), "ab"),
        _ => panic!("expected a consume event"),
    }
    assert!(!parser.eat("cd", &mut sink));
    assert_eq!(parser.position().value(), 2);
    assert!(parser.eat("c", &mut sink));
    assert_eq!(parser.position().value(), 3);
}

#[test]
fn remaining_is_suffix() {
    let mut parser = Parser::new("1+2");
    let mut sink = Sink::default();
    assert_eq!(parser.remaining(), "1+2");
    assert!(parser.eat("1", &mut sink));
    assert_eq!(parser.remaining(), "+2");
}

#[test]
fn render_exact_small_trace() {
    let mut sink = Sink::default();
    sink.start("rule".to_string(), InputIndex::new(0));
    sink.consume("x".to_string());
    sink.commit();
    let text = sink.render();
    assert_eq!(text, "START[rule, 0]\n  CONSUME[x]\nCOMMIT\n\n[rule, 0] -> 0\n");
}

#[test]
fn render_is_deterministic() {
    let mut parser = Parser::new("1*3");
    let mut sink = Sink::default();
    parser.parse(&mut sink, &mut Term);
    assert_eq!(sink.render(), sink.render());
}

#[test]
fn memo_records_most_recent_start() {
    let mut parser = Parser::new("1*3");
    let mut sink = Sink::default();
    assert!(parser.parse(&mut sink, &mut Term));
    let text = sink.render();
    let mut parts = text.splitn(2, "\n\n");
    let _trace = parts.next().unwrap();
    let dump = parts.next().unwrap();
    // The dump's line order is not part of the data model: canonicalize by
    // sorting before comparing. Repeated attempts at the same (rule,
    // position) pair keep only the latest start's log index.
    let mut lines: Vec<&str> = dump.lines().collect();
    lines.sort();
    assert_eq!(
        lines,
        vec![
            "[factor(1), 0] -> 25",
            "[factor(1), 2] -> 31",
            "[factor(2), 2] -> 36",
            "[factor, 0] -> 24",
            "[factor, 2] -> 30",
            "[prim, 0] -> 26",
            "[prim, 2] -> 37",
            "[term(1), 0] -> 1",
            "[term(2), 0] -> 23",
            "[term, 0] -> 0",
        ]
    );
}

#[test]
fn primitive_failure_adds_no_events_of_its_own() {
    let mut parser = Parser::new("x1");
    let mut sink = Sink::default();
    assert!(!parser.parse(&mut sink, &mut Primitive));
    assert_eq!(parser.position().value(), 0);
    // The transactional wrapper logged the attempt; the failing rule itself
    // touched neither the cursor nor the log.
    assert_eq!(sink.events().len(), 2);
    assert!(matches!(&sink.events()[0], Event::Start { .. }));
    assert!(matches!(&sink.events()[1], Event::Abort));
}

#[test]
fn primitive_success_consumes_exactly_one_digit() {
    let mut parser = Parser::new("7+1");
    let mut sink = Sink::default();
    assert!(parser.parse(&mut sink, &mut Primitive));
    assert_eq!(parser.position().value(), 1);
    assert_eq!(consumed_tokens(&sink), vec!["7"]);
}

#[test]
fn indices_are_ordered_and_copyable() {
    assert!(InputIndex::new(1) < InputIndex::new(2));
    let a = InputIndex::new(7);
    let b = a;
    assert_eq!(a, b);
    assert_eq!(LogIndex::new(3).value(), 3);
}
