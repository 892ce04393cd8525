use pgy_runtime::demo::{term_of_char, DemoContext, ParseError, Success};
use pgy_runtime::{Context, Desc, GData, InputPos, Stack, FromChar, LabelZero};

const S: u32 = 0;
const A: u32 = 1;
const B: u32 = 2;

#[test]
fn accepts_ab() {
    // S -> a b over "ab"
    let mut c = DemoContext::new(b"ab", S);
    let start = c.s();
    let dummy = c.g_dummy();
    assert!(c.i_in(&['a']));
    c.i_incr();
    assert!(c.i_in(&['b']));
    c.i_incr();
    assert!(!c.i_in(&['a', 'b']));
    c.pop();
    assert_eq!(c.r_pop(), Some(Desc(S, Stack(dummy), InputPos(2))));
    assert_eq!(c.r_pop(), None);
    assert!(c.popped_contains(start, InputPos(2)));
    assert_eq!(c.i(), InputPos(2));
    assert_eq!(c.i_len(), 0);
}

#[test]
fn create_reuses_node_for_same_label_and_position() {
    let mut c = DemoContext::new(b"xy", S);
    let start = c.s();
    c.create(A);
    let v1 = c.s();
    c.create(B);
    let w = c.s();
    c.set_s(start);
    c.create(B);
    assert_eq!(c.s(), w);
    c.set_s(v1);
    c.set_s(start);
    c.create(A);
    assert_eq!(c.s(), v1);
    // one node per (label, position): the two sentinels plus A^0 and B^0
    assert_eq!(c.g().nodes().len(), 4);
    assert_eq!(c.g().children(w.0), vec![v1.0, start.0]);
    assert_eq!(*c.g().data(w.0), GData::new(B, InputPos(0)));
}

#[test]
fn add_twice_runs_once() {
    let mut c = DemoContext::new(b"", S);
    let top = c.s();
    c.add(A, top, InputPos(0));
    c.add(A, top, InputPos(0));
    c.add_s(A);
    assert!(c.r_seen_contains(&Desc(A, top, InputPos(0))));
    assert_eq!(c.r_pop(), Some(Desc(A, top, InputPos(0))));
    assert_eq!(c.r_pop(), None);
    c.add(A, top, InputPos(0));
    assert_eq!(c.r_pop(), None);
}

#[test]
fn work_list_is_last_in_first_out() {
    let mut c = DemoContext::new(b"", S);
    let top = c.s();
    c.add(A, top, InputPos(0));
    c.add(B, top, InputPos(0));
    assert_eq!(c.r_pop(), Some(Desc(B, top, InputPos(0))));
    assert_eq!(c.r_pop(), Some(Desc(A, top, InputPos(0))));
    assert_eq!(c.r_pop(), None);
}

#[test]
fn create_replays_earlier_pop() {
    let mut c = DemoContext::new(b"q", S);
    let start = c.s();
    c.create(A);
    let v = c.s();
    c.i_incr();
    c.pop();
    assert!(c.popped_contains(v, InputPos(1)));
    assert_eq!(c.r_pop(), Some(Desc(A, start, InputPos(1))));
    assert_eq!(c.r_pop(), None);
    // a second caller reaches A^0 from another stack: the pop replays
    c.set_i(InputPos(0));
    c.set_s(Stack(c.g_dummy()));
    c.create(B);
    let u = c.s();
    c.create(A);
    assert_eq!(c.s(), v);
    assert_eq!(c.r_pop(), Some(Desc(A, u, InputPos(1))));
    assert_eq!(c.r_pop(), None);
    // the same edge again replays nothing
    c.set_s(u);
    c.create(A);
    assert_eq!(c.r_pop(), None);
}

#[test]
fn pop_of_sentinel_does_nothing() {
    let mut c = DemoContext::new(b"a", S);
    let d = c.g_dummy();
    c.set_s(Stack(d));
    c.pop();
    assert!(!c.popped_contains(Stack(d), InputPos(0)));
    assert_eq!(c.r_pop(), None);
}

#[test]
fn pop_twice_records_once_and_schedules_once() {
    let mut c = DemoContext::new(b"a", S);
    let start = c.s();
    c.pop();
    c.pop();
    assert!(c.popped_contains(start, InputPos(0)));
    assert_eq!(c.r_pop(), Some(Desc(S, Stack(c.g_dummy()), InputPos(0))));
    assert_eq!(c.r_pop(), None);
}

#[test]
fn end_of_input_predicates_differ() {
    let mut c = DemoContext::new(b"a", S);
    assert!(c.i_in(&['a']));
    assert!(c.i_in_end(&['a']));
    assert!(!c.i_in(&['b']));
    assert!(!c.i_in_end(&['b']));
    c.i_incr();
    assert!(!c.i_in(&['a']));
    assert!(!c.i_in(&['a', 'b', 'c']));
    assert!(c.i_in_end(&['b']));
    assert!(c.i_in_end(&[]));
    assert!(!c.i_in(&[]));
}

#[test]
fn new_context_starts_at_start_label() {
    let c = DemoContext::new(b"abc", 7);
    assert_eq!(c.i(), InputPos(0));
    assert_eq!(c.i_len(), 3);
    let mut c = c;
    c.i_incr();
    assert_eq!(c.i_len(), 2);
    c.set_i(InputPos(9));
    assert_eq!(c.i_len(), 0);
    let top = c.s();
    assert_eq!(*c.g().data(top.0), GData::new(7, InputPos(0)));
    assert_eq!(c.g().children(top.0), vec![c.g_dummy()]);
    assert_eq!(*c.g().data(c.g_dummy()), GData::dummy());
}

#[test]
fn payload_and_position_basics() {
    let mut p = InputPos(4);
    p.incr();
    assert_eq!(p, InputPos(5));
    let g = GData::new(3u32, InputPos(1));
    assert_eq!(g.label(), 3);
    assert_ne!(g, GData::dummy());
    assert_eq!(GData::<u32>::dummy(), GData(None));
    assert_eq!(char::from_char('z'), 'z');
    assert_eq!(u32::label_zero(), 0);
}

/// Recognises `a b` for label `S`, as a driver written against the trait.
fn recognise_ab<C: Context>(c: &mut C) -> bool {
    if !c.i_in(&['a']) {
        return false;
    }
    c.i_incr();
    if !c.i_in(&['b']) {
        return false;
    }
    c.i_incr();
    c.pop();
    let mut accepted = false;
    while let Some(d) = c.r_pop() {
        c.set_s(d.1);
        c.set_i(d.2);
        if d.1 == Stack(c.g_dummy()) && c.i_len() == 0 {
            accepted = true;
        }
    }
    accepted
}

#[test]
fn driver_through_context_accepts_ab_only() {
    let mut c = DemoContext::new(b"ab", S);
    assert!(recognise_ab(&mut c));
    let mut c = DemoContext::new(b"ba", S);
    assert!(!recognise_ab(&mut c));
    let mut c = DemoContext::new(b"abb", S);
    assert!(!recognise_ab(&mut c));
}

#[test]
fn outcomes_default() {
    assert_eq!(Success::default(), Success);
    assert_eq!(ParseError::default(), ParseError);
}

#[test]
fn terminals_within_a_byte() {
    assert_eq!(term_of_char('a'), 97);
    assert_eq!(term_of_char('\u{0}'), 0);
    assert_eq!(term_of_char('\u{ff}'), 255);
}

#[test]
fn replay_follows_pop_order() {
    // A^0 is popped at 1 and at 2; a new caller gets both, in that order
    let mut c = DemoContext::new(b"qq", S);
    c.create(A);
    let v = c.s();
    c.i_incr();
    c.pop();
    c.i_incr();
    c.pop();
    while c.r_pop().is_some() {}
    c.set_i(InputPos(0));
    c.set_s(Stack(c.g_dummy()));
    c.create(B);
    let u = c.s();
    c.create(A);
    assert_eq!(c.s(), v);
    assert_eq!(c.g().children(v.0).len(), 2);
    assert_eq!(c.r_pop(), Some(Desc(A, u, InputPos(2))));
    assert_eq!(c.r_pop(), Some(Desc(A, u, InputPos(1))));
    assert_eq!(c.r_pop(), None);
}
