use async_backtrace::{Context, Forest, Frame, Kind, Location, TaskEvent, TreeLine};

fn loc(name: &'static str, line: u32) -> Location {
    Location { name, file: "src/lib.rs", line, column: 5 }
}

fn ids(frames: &[Frame]) -> Vec<usize> {
    frames.iter().map(|f| f.id).collect()
}

fn text(line: &TreeLine) -> String {
    line.text.iter().collect()
}

#[test]
fn new_frame_is_uninitialized() {
    let mut forest = Forest::new();
    let a = Frame::new(&mut forest, loc("a", 1));
    assert!(a.is_uninitialized(&forest));
    assert_eq!(a.location(&forest), loc("a", 1));
    assert_eq!(a.mutex(&forest), None);
    assert_eq!(a.parent(&forest), None);
    assert!(forest.events().is_empty());
    assert_eq!(ids(&a.backtrace(&forest)), vec![a.id]);
}

#[test]
fn nested_scopes_build_a_chain() {
    let mut forest = Forest::new();
    let mut cx = Context::new();
    let a = Frame::new(&mut forest, loc("a", 1));
    let sa = a.enter(&mut forest, &mut cx);
    assert_eq!(forest.events(), &vec![TaskEvent::Registered(a)]);
    assert_eq!(a.mutex(&forest), Some(true));
    let b = Frame::new(&mut forest, loc("b", 2));
    let sb = b.enter(&mut forest, &mut cx);
    assert_eq!(b.parent(&forest), Some(a));
    assert_eq!(ids(&a.subframes(&forest)), vec![b.id]);
    let c = Frame::new(&mut forest, loc("c", 3));
    let sc = c.enter(&mut forest, &mut cx);
    assert_eq!(c.parent(&forest), Some(b));
    assert_eq!(cx.current_active(), Some(c));
    assert_eq!(ids(&c.backtrace(&forest)), vec![c.id, b.id, a.id]);
    assert_eq!(
        c.backtrace_locations(&forest),
        vec![loc("c", 3), loc("b", 2), loc("a", 1)]
    );
    assert_eq!(c.root(&forest), a);
    sc.exit(&mut forest, &mut cx);
    assert_eq!(cx.current_active(), Some(b));
    c.destroy(&mut forest);
    assert!(b.subframes(&forest).is_empty());
    sb.exit(&mut forest, &mut cx);
    b.destroy(&mut forest);
    assert!(a.subframes(&forest).is_empty());
    sa.exit(&mut forest, &mut cx);
    assert_eq!(cx.current_active(), None);
    assert_eq!(a.mutex(&forest), Some(false));
    a.destroy(&mut forest);
    assert_eq!(
        forest.events(),
        &vec![TaskEvent::Registered(a), TaskEvent::Deregistered(a)]
    );
}

#[test]
fn ancestors_reverse_activation_order() {
    let mut forest = Forest::new();
    let mut cx = Context::new();
    let mut frames = Vec::new();
    let mut scopes = Vec::new();
    for k in 0..5u32 {
        let f = Frame::new(&mut forest, loc("f", k));
        scopes.push(f.enter(&mut forest, &mut cx));
        frames.push(f);
    }
    let inner = *frames.last().unwrap();
    let trace = inner.backtrace(&forest);
    assert_eq!(trace.len(), 5);
    let mut expected = ids(&frames);
    expected.reverse();
    assert_eq!(ids(&trace), expected);
    assert_eq!(inner.root(&forest), frames[0]);
    while let Some(s) = scopes.pop() {
        s.exit(&mut forest, &mut cx);
    }
    assert_eq!(cx.current_active(), None);
}

#[test]
fn backtrace_is_restartable() {
    let mut forest = Forest::new();
    let mut cx = Context::new();
    let a = Frame::new(&mut forest, loc("a", 1));
    let _sa = a.enter(&mut forest, &mut cx);
    let b = Frame::new(&mut forest, loc("b", 2));
    let _sb = b.enter(&mut forest, &mut cx);
    let first = b.backtrace(&forest);
    let second = b.backtrace(&forest);
    assert_eq!(first, second);
    assert_eq!(ids(&first), vec![b.id, a.id]);
}

fn three_children() -> (Forest, Context, Frame, Frame, Frame, Frame) {
    let mut forest = Forest::new();
    let mut cx = Context::new();
    let p = Frame::new(&mut forest, loc("p", 1));
    let _sp = p.enter(&mut forest, &mut cx);
    let mut kids = Vec::new();
    for k in 0..3u32 {
        let c = Frame::new(&mut forest, loc("c", 10 + k));
        let s = c.enter(&mut forest, &mut cx);
        s.exit(&mut forest, &mut cx);
        kids.push(c);
    }
    (forest, cx, p, kids[0], kids[1], kids[2])
}

#[test]
fn children_are_most_recent_first() {
    let (forest, _cx, p, c0, c1, c2) = three_children();
    assert_eq!(ids(&p.subframes(&forest)), vec![c2.id, c1.id, c0.id]);
    assert_eq!(c2.prev_frame(&forest), None);
    assert_eq!(c2.next_frame(&forest), Some(c1));
    assert_eq!(c1.prev_frame(&forest), Some(c2));
    assert_eq!(c1.next_frame(&forest), Some(c0));
    assert_eq!(c0.prev_frame(&forest), Some(c1));
    assert_eq!(c0.next_frame(&forest), None);
}

#[test]
fn destroying_middle_child_relinks_neighbours() {
    let (mut forest, _cx, p, c0, c1, c2) = three_children();
    c1.destroy(&mut forest);
    assert_eq!(ids(&p.subframes(&forest)), vec![c2.id, c0.id]);
    assert_eq!(c2.next_frame(&forest), Some(c0));
    assert_eq!(c0.prev_frame(&forest), Some(c2));
}

#[test]
fn destroying_head_child_moves_head() {
    let (mut forest, _cx, p, c0, c1, c2) = three_children();
    c2.destroy(&mut forest);
    assert_eq!(ids(&p.subframes(&forest)), vec![c1.id, c0.id]);
    assert_eq!(c1.prev_frame(&forest), None);
}

#[test]
fn destroying_tail_child_moves_tail() {
    let (mut forest, _cx, p, c0, c1, c2) = three_children();
    c0.destroy(&mut forest);
    assert_eq!(ids(&p.subframes(&forest)), vec![c2.id, c1.id]);
    assert_eq!(c1.next_frame(&forest), None);
}

#[test]
fn destroying_sole_child_empties_list() {
    let mut forest = Forest::new();
    let mut cx = Context::new();
    let p = Frame::new(&mut forest, loc("p", 1));
    let _sp = p.enter(&mut forest, &mut cx);
    let c = Frame::new(&mut forest, loc("c", 2));
    let s = c.enter(&mut forest, &mut cx);
    s.exit(&mut forest, &mut cx);
    assert_eq!(ids(&p.subframes(&forest)), vec![c.id]);
    c.destroy(&mut forest);
    assert!(p.subframes(&forest).is_empty());
}

#[test]
fn reactivation_keeps_parent_and_position() {
    let (mut forest, mut cx, p, c0, c1, c2) = three_children();
    let s = c1.enter(&mut forest, &mut cx);
    assert_eq!(c1.parent(&forest), Some(p));
    assert_eq!(ids(&p.subframes(&forest)), vec![c2.id, c1.id, c0.id]);
    s.exit(&mut forest, &mut cx);
    assert_eq!(cx.current_active(), Some(p));
    assert_eq!(c1.prev_frame(&forest), Some(c2));
    assert_eq!(c1.next_frame(&forest), Some(c0));
}

#[test]
fn separate_threads_make_separate_roots() {
    let mut forest = Forest::new();
    let mut cx1 = Context::new();
    let mut cx2 = Context::new();
    let d = Frame::new(&mut forest, loc("d", 1));
    let e = Frame::new(&mut forest, loc("e", 2));
    let _sd = d.enter(&mut forest, &mut cx1);
    let _se = e.enter(&mut forest, &mut cx2);
    assert_eq!(d.parent(&forest), None);
    assert_eq!(e.parent(&forest), None);
    assert_ne!(d.root(&forest), e.root(&forest));
    assert_eq!(
        forest.events(),
        &vec![TaskEvent::Registered(d), TaskEvent::Registered(e)]
    );
}

#[test]
fn with_active_sees_innermost_frame() {
    let mut forest = Forest::new();
    let mut cx = Context::new();
    assert_eq!(Frame::with_active(&cx, |f| f), None);
    let a = Frame::new(&mut forest, loc("a", 1));
    let _sa = a.enter(&mut forest, &mut cx);
    assert_eq!(Frame::with_active(&cx, |f| f.map(|x| x.id)), Some(a.id));
}

#[test]
fn render_while_locked_shows_placeholder() {
    let mut forest = Forest::new();
    let mut cx = Context::new();
    let a = Frame::new(&mut forest, loc("a", 1));
    let _sa = a.enter(&mut forest, &mut cx);
    let b = Frame::new(&mut forest, loc("b", 2));
    let _sb = b.enter(&mut forest, &mut cx);
    let lines = a.render_tree(&forest);
    assert_eq!(lines.len(), 2);
    assert_eq!(text(&lines[0]), "\u{257c} ");
    assert_eq!(lines[0].location, Some(loc("a", 1)));
    assert_eq!(text(&lines[1]), "  \u{2514}\u{2508} [POLLING]");
    assert_eq!(lines[1].location, None);
}

#[test]
fn render_unlocked_tree() {
    let mut forest = Forest::new();
    let mut cx = Context::new();
    let a = Frame::new(&mut forest, loc("a", 1));
    let sa = a.enter(&mut forest, &mut cx);
    let b = Frame::new(&mut forest, loc("b", 2));
    let sb = b.enter(&mut forest, &mut cx);
    sb.exit(&mut forest, &mut cx);
    let c = Frame::new(&mut forest, loc("c", 3));
    let sc = c.enter(&mut forest, &mut cx);
    let g = Frame::new(&mut forest, loc("g", 4));
    let sg = g.enter(&mut forest, &mut cx);
    sg.exit(&mut forest, &mut cx);
    sc.exit(&mut forest, &mut cx);
    sa.exit(&mut forest, &mut cx);
    let lines = a.render_tree(&forest);
    let got: Vec<(String, Option<Location>)> =
        lines.iter().map(|l| (text(l), l.location)).collect();
    assert_eq!(
        got,
        vec![
            ("\u{257c} ".to_string(), Some(loc("a", 1))),
            ("  \u{251c}\u{257c} ".to_string(), Some(loc("c", 3))),
            ("  \u{2502}  \u{2514}\u{257c} ".to_string(), Some(loc("g", 4))),
            ("  \u{2514}\u{257c} ".to_string(), Some(loc("b", 2))),
        ]
    );
}

#[test]
fn kind_constructors() {
    assert!(Kind::Uninitialized.is_uninitialized());
    assert!(!Kind::root().is_uninitialized());
    assert!(matches!(Kind::root(), Kind::Root { locked: false }));
    let k = Kind::node(Frame { id: 7 });
    assert!(matches!(k, Kind::Node { parent: 7, prev: None, next: None }));
}

#[test]
fn in_scope_nests_and_restores() {
    let mut forest = Forest::new();
    let mut cx = Context::new();
    let a = Frame::new(&mut forest, loc("a", 1));
    let b = Frame::new(&mut forest, loc("b", 2));
    let r = a.in_scope(&mut forest, &mut cx, |mut fo, mut c| {
        assert_eq!(c.current_active(), Some(a));
        assert_eq!(a.mutex(&fo), Some(true));
        let inner = b.in_scope(&mut fo, &mut c, |fo2, c2| {
            let trace = ids(&b.backtrace(&fo2));
            (fo2, c2, trace)
        });
        assert_eq!(c.current_active(), Some(a));
        (fo, c, inner)
    });
    assert_eq!(r, vec![b.id, a.id]);
    assert_eq!(cx.current_active(), None);
    assert_eq!(a.mutex(&forest), Some(false));
    assert_eq!(b.parent(&forest), Some(a));
    assert_eq!(forest.events(), &vec![TaskEvent::Registered(a)]);
}

#[test]
fn destroyed_frame_is_not_live() {
    let mut forest = Forest::new();
    let a = Frame::new(&mut forest, loc("a", 1));
    assert!(forest.is_live(a));
    assert!(!forest.is_live(Frame { id: 9 }));
    a.destroy(&mut forest);
    assert!(!forest.is_live(a));
    assert!(forest.events().is_empty());
}

#[test]
fn in_scope_reactivation_keeps_position() {
    let (mut forest, mut cx, p, c0, c1, c2) = three_children();
    let g = Frame::new(&mut forest, loc("g", 20));
    c1.in_scope(&mut forest, &mut cx, |mut fo, mut c| {
        assert_eq!(c.current_active(), Some(c1));
        g.in_scope(&mut fo, &mut c, |fo2, c2| (fo2, c2, ()));
        (fo, c, ())
    });
    assert_eq!(c1.parent(&forest), Some(p));
    assert_eq!(g.parent(&forest), Some(c1));
    assert_eq!(ids(&p.subframes(&forest)), vec![c2.id, c1.id, c0.id]);
    assert_eq!(c1.prev_frame(&forest), Some(c2));
    assert_eq!(c1.next_frame(&forest), Some(c0));
    assert_eq!(forest.events(), &vec![TaskEvent::Registered(p)]);
}

#[test]
fn in_scope_fresh_frame_becomes_registered_root() {
    let mut forest = Forest::new();
    let mut cx = Context::new();
    let a = Frame::new(&mut forest, loc("a", 1));
    let locked_inside = a.in_scope(&mut forest, &mut cx, |fo, c| {
        let held = a.mutex(&fo);
        (fo, c, held)
    });
    assert_eq!(locked_inside, Some(true));
    assert_eq!(a.parent(&forest), None);
    assert_eq!(a.mutex(&forest), Some(false));
    assert_eq!(forest.events(), &vec![TaskEvent::Registered(a)]);
    a.destroy(&mut forest);
    assert_eq!(
        forest.events(),
        &vec![TaskEvent::Registered(a), TaskEvent::Deregistered(a)]
    );
}
