use slap::graph::Arena;
use slap::graph::ExprId;
use slap::graph::Graph;

#[test]
fn node_identities_are_sequential() {
    let mut arena = Arena::new();
    let a = arena.new_start(None);
    let b = arena.new_end();
    let c = arena.new_access(3, ExprId(0), None);
    assert_eq!(a, 0);
    assert_eq!(b, 1);
    assert_eq!(c, 2);
    assert_eq!(arena.len(), 3);
}

#[test]
fn allocation_never_moves_existing_nodes() {
    let mut arena = Arena::new();
    let a = arena.new_access(7, ExprId(1), None);
    let before = arena.node(a);
    for _ in 0..100 {
        arena.new_end();
    }
    assert_eq!(arena.node(a), before);
}

#[test]
fn set_next_patches_start_access_update() {
    let mut arena = Arena::new();
    let start = arena.new_start(None);
    let acc = arena.new_access(0, ExprId(0), None);
    let upd = arena.new_update(1, ExprId(2), None);
    let end = arena.new_end();
    arena.set_next(start, Some(acc));
    arena.set_next(acc, Some(upd));
    arena.set_next(upd, Some(end));
    assert_eq!(arena.node(start), Graph::Start(Some(acc)));
    assert_eq!(
        arena.node(acc),
        Graph::Access { memref: 0, offset: ExprId(0), next: Some(upd) }
    );
    assert_eq!(
        arena.node(upd),
        Graph::Update { ivar: 1, expr: ExprId(2), next: Some(end) }
    );
}

#[test]
fn set_next_on_wrong_variant_is_a_no_op() {
    let mut arena = Arena::new();
    let end = arena.new_end();
    let br = arena.new_branch(0, ExprId(0), None, None);
    arena.set_next(end, Some(br));
    arena.set_next(br, Some(end));
    assert_eq!(arena.node(end), Graph::End);
    assert_eq!(
        arena.node(br),
        Graph::Branch { ivar: 0, bound: ExprId(0), then_next: None, else_next: None }
    );
}

#[test]
fn branch_links_are_patched_in_place() {
    let mut arena = Arena::new();
    let acc = arena.new_access(0, ExprId(0), None);
    let end = arena.new_end();
    let br = arena.new_branch(2, ExprId(5), None, None);
    arena.set_then(br, Some(acc));
    arena.set_else(br, Some(end));
    assert_eq!(
        arena.node(br),
        Graph::Branch { ivar: 2, bound: ExprId(5), then_next: Some(acc), else_next: Some(end) }
    );
    arena.set_then(acc, Some(end));
    arena.set_else(end, Some(acc));
    assert_eq!(
        arena.node(acc),
        Graph::Access { memref: 0, offset: ExprId(0), next: None }
    );
    assert_eq!(arena.node(end), Graph::End);
}

#[test]
fn format_renders_a_simple_chain() {
    let mut arena = Arena::new();
    let end = arena.new_end();
    let acc = arena.new_access(1, ExprId(5), Some(end));
    let start = arena.new_start(Some(acc));
    assert_eq!(Graph::format(&arena, start), "Start(Access(1, 5, End))");
}

#[test]
fn format_renders_absent_links_as_nothing() {
    let mut arena = Arena::new();
    let acc = arena.new_access(0, ExprId(3), None);
    let start = arena.new_start(None);
    assert_eq!(Graph::format(&arena, acc), "Access(0, 3, )");
    assert_eq!(Graph::format(&arena, start), "Start()");
}

#[test]
fn format_renders_update_and_branch() {
    let mut arena = Arena::new();
    let end = arena.new_end();
    let upd = arena.new_update(4, ExprId(9), Some(end));
    assert_eq!(Graph::format(&arena, upd), "Update(4, 9, End)");
    let acc = arena.new_access(0, ExprId(1), None);
    let br = arena.new_branch(2, ExprId(8), Some(acc), Some(end));
    assert_eq!(Graph::format(&arena, br), "Branch(2, 8, Access(0, 1, ), End)");
    let one_sided = arena.new_branch(3, ExprId(6), Some(acc), None);
    assert_eq!(Graph::format(&arena, one_sided), "Branch(3, 6, Access(0, 1, ), )");
}

#[test]
fn format_renders_multi_digit_fields() {
    let mut arena = Arena::new();
    let acc = arena.new_access(42, ExprId(1230), None);
    assert_eq!(Graph::format(&arena, acc), "Access(42, 1230, )");
}

#[test]
fn format_terminates_on_a_cycle() {
    let mut arena = Arena::new();
    let end = arena.new_end();
    let acc = arena.new_access(1, ExprId(7), None);
    let upd = arena.new_update(0, ExprId(8), None);
    let br = arena.new_branch(0, ExprId(9), None, Some(end));
    let start = arena.new_start(Some(acc));
    arena.set_next(acc, Some(upd));
    arena.set_next(upd, Some(br));
    arena.set_then(br, Some(acc));
    assert_eq!(
        Graph::format(&arena, start),
        "Start(Access(1, 7, Update(0, 8, Branch(0, 9, ..., End))))"
    );
}

#[test]
fn format_renders_a_self_loop() {
    let mut arena = Arena::new();
    let br = arena.new_branch(0, ExprId(0), None, None);
    arena.set_then(br, Some(br));
    arena.set_else(br, Some(br));
    assert_eq!(Graph::format(&arena, br), "Branch(0, 0, ..., ...)");
}
