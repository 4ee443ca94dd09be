use std::sync::Arc;

use inqui::query_stack::QueryStack;
use inqui::{Cycle, QueryCache, QueryContext, QueryType, Runtime};

struct CycleSystem {
    runtime: Runtime<i32>,
    cache: QueryCache<u64>,
    stack: QueryStack,
}

type Step = fn(&mut CycleSystem, u64) -> Result<u64, Cycle>;

fn query_type_of<F: 'static>(_: F, name: &'static str) -> QueryType {
    QueryType::of::<F>(name)
}

fn query_or_cycle(system: &mut CycleSystem, ty: QueryType, n: u64, body: Step) -> Result<Arc<u64>, Cycle> {
    if let Some(v) = system.cache.cached(&ty, &n, &system.runtime) {
        return Ok(v);
    }
    let active = system.cache.start(&system.runtime, &mut system.stack, &ty, n)?;
    match body(system, n) {
        Ok(v) => Ok(system.cache.finish(&system.runtime, &mut system.stack, active, QueryContext::new(), v)),
        Err(cycle) => {
            system.cache.abandon(&system.runtime, &mut system.stack, active);
            Err(cycle)
        },
    }
}

fn foo(system: &mut CycleSystem, n: u64) -> Result<u64, Cycle> {
    if n > 1 {
        Ok(*query_or_cycle(system, query_type_of(bar, "cycle::bar"), n / 2, bar)?)
    } else {
        Ok(n)
    }
}

fn bar(system: &mut CycleSystem, n: u64) -> Result<u64, Cycle> {
    if n % 2 == 0 {
        Ok(*query_or_cycle(system, query_type_of(foo, "cycle::foo"), n, foo)?)
    } else {
        Ok(*query_or_cycle(system, query_type_of(baz, "cycle::baz"), n, baz)?)
    }
}

fn baz(system: &mut CycleSystem, n: u64) -> Result<u64, Cycle> {
    Ok(*query_or_cycle(system, query_type_of(bar, "cycle::bar"), n + 1, bar)?)
}

#[test]
fn cycle1() {
    let mut system = CycleSystem { runtime: Runtime::new(), cache: QueryCache::new(), stack: QueryStack::new() };

    let result = query_or_cycle(&mut system, query_type_of(foo, "cycle::foo"), 12, foo);
    assert!(result.is_err());

    let cycle = system.cache.debug_cycle(result.unwrap_err()).to_strings();
    assert_eq!(
        cycle,
        &["cycle::bar(2)", "cycle::foo(2)", "cycle::bar(1)", "cycle::baz(1)", "cycle::bar(2)"]
    );
    assert!(system.stack.depth() == 0);
}

#[test]
fn no_cycle_completes() {
    let mut system = CycleSystem { runtime: Runtime::new(), cache: QueryCache::new(), stack: QueryStack::new() };

    let result = query_or_cycle(&mut system, query_type_of(foo, "cycle::foo"), 1, foo);
    assert_eq!(*result.unwrap(), 1);
}
