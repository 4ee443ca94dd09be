use std::sync::Arc;

use inqui::query_stack::QueryStack;
use inqui::{Cycle, InputIndex, QueryCache, QueryContext, QueryType, Runtime};

const A: InputIndex = InputIndex(0);
const B: InputIndex = InputIndex(1);
const C: InputIndex = InputIndex(2);
const PARAMETRIZED: InputIndex = InputIndex(3);

const FOO: u64 = 0;
const BAR: u64 = 1;
const BAZ: u64 = 2;
const QUX: u64 = 3;

type Body = fn(&Runtime<i32>, &mut QueryContext, u64) -> i32;

struct LoggedSystem {
    runtime: Runtime<i32>,
    cache: QueryCache<i32>,
    stack: QueryStack,
    cache_hits: usize,
    query_starts: usize,
}

impl LoggedSystem {
    fn new() -> Self {
        let mut this = LoggedSystem {
            runtime: Runtime::new(),
            cache: QueryCache::new(),
            stack: QueryStack::new(),
            cache_hits: 0,
            query_starts: 0,
        };
        this.set(A, 0, 0);
        this.set(B, 0, 0);
        this.set(C, 0, 0);
        for p in [FOO, BAR, BAZ, QUX] {
            this.set(PARAMETRIZED, p, 0);
        }
        this
    }

    fn set(&mut self, input: InputIndex, key: u64, value: i32) {
        self.runtime.set_input(input, key, value);
    }

    fn query(&mut self, ty: QueryType, param: u64, body: Body) -> Arc<i32> {
        if let Some(v) = self.cache.cached(&ty, &param, &self.runtime) {
            self.cache_hits += 1;
            return v;
        }
        self.query_starts += 1;
        let run = move |p: &u64, rt: &Runtime<i32>, mut ctx: QueryContext| {
            let v = body(rt, &mut ctx, *p);
            (ctx, Ok::<i32, Cycle>(v))
        };
        self.cache.try_insert_with(&self.runtime, &mut self.stack, &ty, param, run).unwrap()
    }
}

fn sum_abc(rt: &Runtime<i32>, ctx: &mut QueryContext, _: u64) -> i32 {
    ctx.use_input(rt, A, &0).unwrap() + ctx.use_input(rt, B, &0).unwrap() + ctx.use_input(rt, C, &0).unwrap()
}

fn square_parametrized(rt: &Runtime<i32>, ctx: &mut QueryContext, param: u64) -> i32 {
    ctx.use_input(rt, PARAMETRIZED, &param).unwrap() * ctx.use_input(rt, PARAMETRIZED, &param).unwrap()
}

fn sum_type() -> QueryType {
    QueryType::of::<Body>("simple::sum_abc")
}

fn square_type() -> QueryType {
    QueryType::of::<fn(u64) -> i32>("simple::square_parametrized")
}

#[test]
fn simple() {
    let mut system = LoggedSystem::new();

    system.set(A, 0, 1);
    system.set(B, 0, 2);
    system.set(C, 0, 3);

    assert_eq!(*system.query(sum_type(), 0, sum_abc), 6);
}

#[test]
fn simple_parametrized() {
    let mut system = LoggedSystem::new();

    system.set(PARAMETRIZED, FOO, 3);

    assert_eq!(*system.query(square_type(), FOO, square_parametrized), 9);
}

#[test]
fn simple_caching() {
    let mut system = LoggedSystem::new();

    system.set(A, 0, 1);
    system.set(B, 0, 2);
    system.set(C, 0, 3);

    let first = system.query(sum_type(), 0, sum_abc);
    let second = system.query(sum_type(), 0, sum_abc);

    assert_eq!(*first, 6);
    assert_eq!(*second, 6);
    assert!(system.cache_hits == 1);
    assert!(system.query_starts == 1);
}

#[test]
fn simple_parametrized_caching() {
    let mut system = LoggedSystem::new();

    system.set(PARAMETRIZED, FOO, 3);
    system.set(PARAMETRIZED, BAR, 5);

    assert_eq!(*system.query(square_type(), FOO, square_parametrized), 9);
    assert_eq!(*system.query(square_type(), FOO, square_parametrized), 9);

    assert!(system.cache_hits == 1);
    assert!(system.query_starts == 1);

    assert_eq!(*system.query(square_type(), BAR, square_parametrized), 25);

    // Still just one.
    assert!(system.cache_hits == 1);
    assert!(system.query_starts == 2);
}

#[test]
fn simple_cache_invalidation() {
    let mut system = LoggedSystem::new();

    system.set(A, 0, 1);
    system.set(B, 0, 2);
    system.set(C, 0, 3);

    system.query(sum_type(), 0, sum_abc);
    system.set(B, 0, 6);
    let updated = *system.query(sum_type(), 0, sum_abc);

    assert_eq!(updated, 10);
    assert!(system.cache_hits == 0);
    assert!(system.query_starts == 2);
}

#[test]
fn simple_parametrized_cache_invalidation() {
    let mut system = LoggedSystem::new();

    system.set(PARAMETRIZED, FOO, 3);

    system.query(square_type(), FOO, square_parametrized);
    system.set(PARAMETRIZED, FOO, 5);
    let updated = *system.query(square_type(), FOO, square_parametrized);

    assert_eq!(updated, 25);
    assert!(system.cache_hits == 0);
    assert!(system.query_starts == 2);
}

#[test]
fn unrelated_mutation_keeps_entry() {
    let mut system = LoggedSystem::new();

    system.set(PARAMETRIZED, FOO, 3);
    system.query(square_type(), FOO, square_parametrized);
    system.set(PARAMETRIZED, BAR, 7);
    assert_eq!(*system.query(square_type(), FOO, square_parametrized), 9);
    assert!(system.cache_hits == 1);
}

#[test]
fn removal_invalidates_dependents() {
    let mut system = LoggedSystem::new();

    system.set(PARAMETRIZED, FOO, 3);
    let ty = square_type();
    system.query(ty, FOO, square_parametrized);
    system.runtime.remove_input(PARAMETRIZED, &FOO);
    assert!(system.cache.cached(&ty, &FOO, &system.runtime).is_none());
}
