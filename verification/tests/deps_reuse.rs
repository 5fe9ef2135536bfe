use indexed_bucket::deps::{Deps, DepsMut, OwnedDeps};

// ensure we can call these many times, eg. as sub-calls
fn execute(mut deps: DepsMut<u32, u8, i64>) {
    execute2(deps.branch());
    query(deps.as_ref());
    execute2(deps.branch());
}

fn execute2(_deps: DepsMut<u32, u8, i64>) {}

fn query(deps: Deps<u32, u8, i64>) {
    query2(deps);
    query2(deps);
}

fn query2(_deps: Deps<u32, u8, i64>) {}

#[test]
fn ensure_easy_reuse() {
    let mut deps = OwnedDeps { storage: 1u32, api: 2u8, querier: 3i64 };
    execute(deps.as_mut());
    query(deps.as_ref())
}

#[test]
fn views_expose_the_owned_collaborators() {
    let mut deps = OwnedDeps { storage: 7u32, api: 8u8, querier: 9i64 };
    assert_eq!(*deps.as_ref().storage, 7);
    assert_eq!(*deps.as_ref().api, 8);
    let view = deps.as_mut();
    assert_eq!(*view.storage, 7);
    let wrapper = view.querier();
    assert_eq!(*wrapper.querier, 9);
}
