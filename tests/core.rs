use inqui::input::{InputIndex, InputStorage, KeyIndex};
use inqui::query::{QueryCache, QueryContext, QueryId, QueryType};
use inqui::query_stack::QueryStack;
use inqui::revision::Revision;
use inqui::runtime::Runtime;

#[test]
fn revision_starts_at_one_and_increments() {
    let mut rev = Revision::new();
    assert_eq!(rev.as_raw(), 1);
    rev.increment();
    rev.increment();
    assert_eq!(rev.as_raw(), 3);
    assert_eq!(Revision::default().as_raw(), 1);
    assert!(Revision::from(2) < Revision::from(5));
}

#[test]
fn storage_mints_indices_once_per_key() {
    let mut table: InputStorage<i32> = InputStorage::new();
    assert_eq!(table.set(10, 1), KeyIndex(0));
    assert_eq!(table.set(20, 2), KeyIndex(1));
    assert_eq!(table.set(10, 3), KeyIndex(0));
    assert_eq!(table.get(&10), Some((3, KeyIndex(0))));
    assert_eq!(table.get(&20), Some((2, KeyIndex(1))));
    assert_eq!(table.get(&30), None);
}

#[test]
fn storage_never_reuses_removed_indices() {
    let mut table: InputStorage<i32> = InputStorage::new();
    table.set(10, 1);
    assert_eq!(table.remove(&10), Some((1, KeyIndex(0))));
    assert_eq!(table.remove(&10), None);
    assert_eq!(table.get(&10), None);
    assert_eq!(table.set(10, 4), KeyIndex(1));
    assert_eq!(table.get(&10), Some((4, KeyIndex(1))));
}

#[test]
fn runtime_stamps_mutated_cells() {
    let mut runtime: Runtime<i32> = Runtime::new();
    assert_eq!(runtime.rev().as_raw(), 1);
    runtime.set_input(InputIndex(0), 7, 70);
    runtime.set_input(InputIndex(1), 7, 71);
    assert_eq!(runtime.rev().as_raw(), 3);
    assert_eq!(runtime.get_input(InputIndex(0), &7), Some(70));
    assert_eq!(runtime.get_input(InputIndex(1), &7), Some(71));
    assert_eq!(runtime.get_input(InputIndex(2), &7), None);

    let first = (InputIndex(0), KeyIndex(0));
    let second = (InputIndex(1), KeyIndex(0));
    assert_eq!(runtime.last_rev_of(&[first]).as_raw(), 2);
    assert_eq!(runtime.last_rev_of(&[second]).as_raw(), 3);
    assert_eq!(runtime.last_rev_of(&[first, second]).as_raw(), 3);
    assert_eq!(runtime.last_rev_of(&[]).as_raw(), 1);

    runtime.set_input(InputIndex(0), 7, 72);
    assert_eq!(runtime.rev().as_raw(), 4);
    assert_eq!(runtime.last_rev_of(&[first]).as_raw(), 4);
    assert_eq!(runtime.last_rev_of(&[second]).as_raw(), 3);
}

#[test]
fn removing_bumps_revision_only_when_present() {
    let mut runtime: Runtime<i32> = Runtime::new();
    runtime.set_input(InputIndex(0), 1, 10);
    runtime.remove_input(InputIndex(0), &2);
    runtime.remove_input(InputIndex(5), &1);
    assert_eq!(runtime.rev().as_raw(), 2);
    runtime.remove_input(InputIndex(0), &1);
    assert_eq!(runtime.rev().as_raw(), 3);
    assert_eq!(runtime.get_input(InputIndex(0), &1), None);
    assert_eq!(runtime.last_rev_of(&[(InputIndex(0), KeyIndex(0))]).as_raw(), 3);
}

#[test]
fn stack_reports_cycle_from_topmost_occurrence() {
    let mut stack = QueryStack::new();
    assert_eq!(stack.push(QueryId(1)).ok(), Some(1));
    assert_eq!(stack.push(QueryId(2)).ok(), Some(2));
    assert_eq!(stack.push(QueryId(3)).ok(), Some(3));
    let cycle = stack.push(QueryId(2)).err().unwrap();
    assert_eq!(cycle.cycle(), &[QueryId(2), QueryId(3), QueryId(2)]);
    assert_eq!(stack.depth(), 3);
    stack.pop(3);
    assert_eq!(stack.depth(), 2);
    let again = stack.push(QueryId(1)).err().unwrap();
    assert_eq!(again.cycle(), &[QueryId(1), QueryId(2), QueryId(1)]);
}

#[test]
fn ids_are_minted_once_per_pair() {
    let mut cache: QueryCache<i32> = QueryCache::new();
    let runtime: Runtime<i32> = Runtime::new();
    let mut stack = QueryStack::new();
    let first = QueryType::of::<u8>("first");
    let second = QueryType::of::<u16>("second");
    assert_eq!(first.name(), "first");
    assert!(first.same_as(&QueryType::of::<u8>("other name")));
    assert!(!first.same_as(&second));
    assert_eq!(cache.id(&first, &5), None);

    let a = cache.start(&runtime, &mut stack, &first, 5).ok().unwrap();
    assert_eq!(a.query_id(), QueryId(0));
    let b = cache.start(&runtime, &mut stack, &second, 5).ok().unwrap();
    assert_eq!(b.query_id(), QueryId(1));
    cache.finish(&runtime, &mut stack, b, QueryContext::new(), 50);
    cache.finish(&runtime, &mut stack, a, QueryContext::new(), 51);

    assert_eq!(cache.id(&first, &5), Some(QueryId(0)));
    assert_eq!(cache.id(&second, &5), Some(QueryId(1)));
    assert_eq!(cache.id(&first, &6), None);
    let c = cache.start(&runtime, &mut stack, &first, 5).ok().unwrap();
    assert_eq!(c.query_id(), QueryId(0));
    cache.abandon(&runtime, &mut stack, c);
    assert_eq!(stack.depth(), 0);
    assert_eq!(cache.cached(&first, &5, &runtime).map(|v| *v), Some(51));
    assert_eq!(cache.cached(&second, &5, &runtime).map(|v| *v), Some(50));
}

#[test]
fn in_progress_query_is_a_miss() {
    let mut cache: QueryCache<i32> = QueryCache::new();
    let runtime: Runtime<i32> = Runtime::new();
    let mut stack = QueryStack::new();
    let ty = QueryType::of::<u8>("q");
    let active = cache.start(&runtime, &mut stack, &ty, 1).ok().unwrap();
    assert!(cache.id(&ty, &1).is_some());
    assert!(cache.cached(&ty, &1, &runtime).is_none());
    cache.finish(&runtime, &mut stack, active, QueryContext::new(), 3);
    assert_eq!(cache.cached(&ty, &1, &runtime).map(|v| *v), Some(3));
}

#[test]
fn context_records_each_present_cell_once() {
    let mut runtime: Runtime<i32> = Runtime::new();
    runtime.set_input(InputIndex(2), 9, 90);
    let mut ctx = QueryContext::new();
    assert_eq!(ctx.use_input(&runtime, InputIndex(2), &9), Some(90));
    assert_eq!(ctx.use_input(&runtime, InputIndex(2), &9), Some(90));
    assert_eq!(ctx.use_input(&runtime, InputIndex(2), &8), None);
    assert_eq!(ctx.into_dependencies(), vec![(InputIndex(2), KeyIndex(0))]);
}

#[test]
fn cycle_error_converts_through_from() {
    let mut cache: QueryCache<i32> = QueryCache::new();
    let runtime: Runtime<i32> = Runtime::new();
    let mut stack = QueryStack::new();
    let ty = QueryType::of::<u8>("loop");
    let active = cache.start(&runtime, &mut stack, &ty, 4).ok().unwrap();
    let nested = cache.try_insert_with(&runtime, &mut stack, &ty, 4, |_: &u64, _: &Runtime<i32>, ctx: QueryContext| {
        (ctx, Ok::<i32, inqui::Cycle>(0))
    });
    let cycle = nested.err().unwrap();
    assert_eq!(cycle.cycle(), &[QueryId(0), QueryId(0)]);
    assert_eq!(cache.debug_cycle(cycle).to_strings(), vec!["loop(4)".to_string(), "loop(4)".to_string()]);
    cache.abandon(&runtime, &mut stack, active);
}

#[derive(Debug)]
enum BodyError {
    Cycle(inqui::Cycle),
    Missing,
}

impl From<inqui::Cycle> for BodyError {
    fn from(cycle: inqui::Cycle) -> Self {
        BodyError::Cycle(cycle)
    }
}

#[test]
fn body_error_stores_nothing() {
    let mut cache: QueryCache<i32> = QueryCache::new();
    let runtime: Runtime<i32> = Runtime::new();
    let mut stack = QueryStack::new();
    let ty = QueryType::of::<u8>("failing");
    let result = cache.try_insert_with(&runtime, &mut stack, &ty, 0, |_: &u64, _: &Runtime<i32>, ctx: QueryContext| {
        (ctx, Err::<i32, BodyError>(BodyError::Missing))
    });
    assert!(matches!(result, Err(BodyError::Missing)));
    assert_eq!(cache.id(&ty, &0), Some(QueryId(0)));
    assert!(cache.cached(&ty, &0, &runtime).is_none());
    assert_eq!(stack.depth(), 0);

    let active = cache.start(&runtime, &mut stack, &ty, 0).ok().unwrap();
    let nested = cache.try_insert_with(&runtime, &mut stack, &ty, 0, |_: &u64, _: &Runtime<i32>, ctx: QueryContext| {
        (ctx, Ok::<i32, BodyError>(1))
    });
    assert!(matches!(nested, Err(BodyError::Cycle(_))));
    cache.abandon(&runtime, &mut stack, active);
}

#[test]
fn insert_with_records_dependencies() {
    let mut cache: QueryCache<i32> = QueryCache::new();
    let mut runtime: Runtime<i32> = Runtime::new();
    let mut stack = QueryStack::new();
    runtime.set_input(InputIndex(0), 1, 20);
    let ty = QueryType::of::<u8>("double");
    let out = cache.insert_with(&runtime, &mut stack, &ty, 1, |p: &u64, rt: &Runtime<i32>, mut ctx: QueryContext| {
        let v = ctx.use_input(rt, InputIndex(0), p).unwrap();
        (ctx, v * 2)
    });
    assert_eq!(*out, 40);
    assert_eq!(cache.cached(&ty, &1, &runtime).map(|v| *v), Some(40));
    runtime.set_input(InputIndex(1), 1, 0);
    assert_eq!(cache.cached(&ty, &1, &runtime).map(|v| *v), Some(40));
    runtime.set_input(InputIndex(0), 1, 21);
    assert!(cache.cached(&ty, &1, &runtime).is_none());
}
