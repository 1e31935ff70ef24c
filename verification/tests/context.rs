use press::context::Accessors;
use press::context::ComputationContext;
use press::context::Step;
use std::cell::Cell;

struct Wave {
    height: i64,
}

const BASE: usize = 0;
const DOUBLE: usize = 1;
const SUM: usize = 2;
const LONELY: usize = 3;

fn accessors() -> Accessors {
    let mut a = Accessors::new();
    assert_eq!(a.declare(vec![]), Some(BASE));
    assert_eq!(a.declare(vec![BASE]), Some(DOUBLE));
    assert_eq!(a.declare(vec![BASE, DOUBLE]), Some(SUM));
    assert_eq!(a.declare(vec![]), Some(LONELY));
    a
}

fn value(key: usize, ctx: &ComputationContext<Wave>) -> i64 {
    match key {
        BASE => ctx.x() + ctx.cfg().height,
        DOUBLE => 2 * ctx.cached(BASE).unwrap(),
        SUM => ctx.cached(BASE).unwrap() + ctx.cached(DOUBLE).unwrap() + ctx.z(),
        _ => ctx.y(),
    }
}

#[test]
fn an_accessor_runs_once() {
    let cfg = Wave { height: 10 };
    let acc = accessors();
    let mut ctx = ComputationContext::new(&cfg, &acc, 1, 2, 3);
    let runs = Cell::new(0u32);
    let eval = |key: usize, ctx: &ComputationContext<Wave>| {
        runs.set(runs.get() + 1);
        value(key, ctx)
    };
    let first = ctx.get(BASE, &eval);
    let second = ctx.get(BASE, &eval);
    assert_eq!(first, 11);
    assert_eq!(second, first);
    assert_eq!(runs.get(), 1);
}

#[test]
fn what_an_accessor_needs_is_evaluated_before_it_and_once() {
    let cfg = Wave { height: 10 };
    let acc = accessors();
    let mut ctx = ComputationContext::new(&cfg, &acc, 1, 2, 3);
    let order = std::cell::RefCell::new(Vec::new());
    let eval = |key: usize, ctx: &ComputationContext<Wave>| {
        order.borrow_mut().push(key);
        value(key, ctx)
    };
    assert_eq!(ctx.get(SUM, &eval), 11 + 22 + 3);
    assert_eq!(*order.borrow(), vec![BASE, DOUBLE, SUM]);
    assert_eq!(ctx.get(DOUBLE, &eval), 22);
    assert_eq!(ctx.get(SUM, &eval), 36);
    assert_eq!(*order.borrow(), vec![BASE, DOUBLE, SUM]);
    assert_eq!(ctx.cached(LONELY), None);
    assert_eq!(ctx.get(LONELY, &eval), 2);
    assert_eq!(*order.borrow(), vec![BASE, DOUBLE, SUM, LONELY]);
}

#[test]
fn a_fresh_context_holds_nothing() {
    let cfg = Wave { height: 0 };
    let acc = accessors();
    let ctx = ComputationContext::new(&cfg, &acc, 7, 8, 9);
    assert_eq!(ctx.len(), 4);
    assert_eq!((ctx.x(), ctx.y(), ctx.z()), (7, 8, 9));
    for key in 0..4 {
        assert_eq!(ctx.cached(key), None);
    }
    assert_eq!(ctx.cached(4), None);
}

#[test]
fn the_steps_lead_through_the_needs() {
    let cfg = Wave { height: 10 };
    let acc = accessors();
    let mut ctx = ComputationContext::new(&cfg, &acc, 1, 2, 3);
    assert!(ctx.is_ready(BASE));
    assert!(!ctx.is_ready(SUM));
    assert_eq!(ctx.next_step(SUM), Step::Compute(BASE));
    assert_eq!(ctx.store(BASE, 11), 11);
    assert_eq!(ctx.next_step(SUM), Step::Compute(DOUBLE));
    assert_eq!(ctx.next_step(BASE), Step::Ready(11));
    assert_eq!(ctx.store(DOUBLE, 22), 22);
    assert!(ctx.is_ready(SUM));
    assert_eq!(ctx.next_step(SUM), Step::Compute(SUM));
    assert_eq!(ctx.store(SUM, 36), 36);
    assert_eq!(ctx.next_step(SUM), Step::Ready(36));
}

#[test]
fn a_stored_value_is_never_replaced() {
    let cfg = Wave { height: 10 };
    let acc = accessors();
    let mut ctx = ComputationContext::new(&cfg, &acc, 1, 2, 3);
    assert_eq!(ctx.store(BASE, 5), 5);
    assert_eq!(ctx.store(BASE, 6), 5);
    assert_eq!(ctx.cached(BASE), Some(5));
    assert_eq!(ctx.cached(DOUBLE), None);
}

#[test]
fn an_accessor_cannot_need_a_later_one() {
    let mut a = Accessors::new();
    assert_eq!(a.declare(vec![0]), None);
    assert_eq!(a.len(), 0);
    assert_eq!(a.declare(vec![]), Some(0));
    assert_eq!(a.declare(vec![0, 1]), None);
    assert_eq!(a.declare(vec![0, 0]), Some(1));
    assert_eq!(a.len(), 2);
    assert_eq!(*a.needs_of(1), vec![0, 0]);
}

#[test]
fn two_contexts_share_nothing() {
    let cfg = Wave { height: 10 };
    let acc = accessors();
    let mut one = ComputationContext::new(&cfg, &acc, 1, 0, 0);
    let mut two = ComputationContext::new(&cfg, &acc, 2, 0, 0);
    assert_eq!(one.get(DOUBLE, &value), 22);
    assert_eq!(two.cached(BASE), None);
    assert_eq!(two.get(DOUBLE, &value), 24);
    assert_eq!(one.get(DOUBLE, &value), 22);
}
