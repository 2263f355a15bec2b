//! End-to-end checks of the reconciliation core against the recording
//! widget backend and the real layout solver.

use ori_native::color::Color;
use ori_native::driver::App;
use ori_native::element::Element;
use ori_native::layout::taffy_children_len;
use ori_native::message::{press_step, Press, PressState};
use ori_native::reconcile::{build, extend_children, root_node, root_widget, teardown, truncate_children, Context};
use ori_native::store::NodeKind;
use ori_native::views::ViewTree;

#[test]
fn hex_six_digits() {
    let c = Color::try_hex("#1e90ff").unwrap();
    assert_eq!(c, Color { r: 30, g: 144, b: 255, a: 255 });
}

#[test]
fn hex_three_digits_expand() {
    let c = Color::try_hex("abc").unwrap();
    assert_eq!(c, Color { r: 170, g: 187, b: 204, a: 255 });
}

#[test]
fn hex_grey_and_alpha() {
    assert_eq!(Color::try_hex("#20").unwrap(), Color { r: 32, g: 32, b: 32, a: 255 });
    assert_eq!(
        Color::try_hex("11223344").unwrap(),
        Color { r: 0x11, g: 0x22, b: 0x33, a: 0x44 }
    );
}

#[test]
fn hex_rejects_bad_input() {
    assert!(Color::try_hex("#12345").is_none());
    assert!(Color::try_hex("zzzzzz").is_none());
    assert!(Color::try_hex("").is_none());
    assert!(Color::try_hex("#ggg").is_none());
}

#[test]
fn press_fires_only_on_release() {
    let idle = PressState { pressed: false, hovered: false, focused: false };
    let (down, fired_down) = press_step(idle, Press::Pressed);
    assert!(down.pressed && !fired_down);
    let (up, fired_up) = press_step(down, Press::Released);
    assert!(!up.pressed && fired_up);
}

#[test]
fn cancelled_press_never_fires() {
    let idle = PressState { pressed: false, hovered: false, focused: false };
    let (down, f1) = press_step(idle, Press::Pressed);
    let (cancelled, f2) = press_step(down, Press::Canceled);
    let (_, f3) = press_step(cancelled, Press::Released);
    assert!(!f1 && !f2 && !f3);
}

#[test]
fn release_without_press_does_not_fire() {
    let idle = PressState { pressed: false, hovered: false, focused: false };
    let (_, fired) = press_step(idle, Press::Released);
    assert!(!fired);
}

/// Builds the counter tree: a window holding a column with one pressable
/// button and one text label, and checks the three child-index spaces agree.
#[test]
fn build_counter_tree_shape() {
    let mut cx = Context::new();
    let v = ori_native::views::window(ori_native::views::column(vec![
        ori_native::views::pressable(ori_native::views::row(vec![ori_native::views::text(String::from("Press me!"))])),
        ori_native::views::text(String::from("Pressed 0 times.")),
    ]));
    let e = build(&v, &mut cx);
    // one widget per view node: window, column, pressable, row, inner text, label
    assert_eq!(cx.store.widget_count(), 6);
    assert_eq!(cx.store.builds(), 6);
    assert_eq!(cx.store.teardowns(), 0);
    match &e {
        Element::Window(w) => {
            assert_eq!(cx.store.kind_of(w.widget), NodeKind::Window);
            match &w.content {
                Element::Flex(f) => {
                    // element list, widget children and layout children agree
                    assert_eq!(f.children.len(), 2);
                    assert_eq!(cx.store.children_of(f.widget).len(), 2);
                    assert_eq!(taffy_children_len(&cx.layout, f.node), 2);
                    for (i, c) in f.children.iter().enumerate() {
                        assert_eq!(cx.store.children_of(f.widget)[i], root_widget(c));
                    }
                },
                _ => panic!("expected a flex container"),
            }
        },
        _ => panic!("expected a window"),
    }
}

#[test]
fn teardown_releases_every_widget() {
    let mut cx = Context::new();
    let v = ori_native::views::window(ori_native::views::column(vec![ori_native::views::text(String::from("a")), ori_native::views::text(String::from("b"))]));
    let e = build(&v, &mut cx);
    let made = cx.store.widget_count();
    teardown(e, &mut cx);
    assert_eq!(cx.store.teardowns(), made);
    for w in 0..made {
        assert!(!cx.store.alive(w));
    }
}

/// Removing trailing rows detaches and tears down exactly those rows; the
/// remaining rows keep their widgets and the three lists shrink together.
#[test]
fn truncate_removes_trailing_rows() {
    let mut cx = Context::new();
    let v = ori_native::views::column(vec![
        ori_native::views::text(String::from("row 0")),
        ori_native::views::text(String::from("row 1")),
        ori_native::views::text(String::from("row 2")),
    ]);
    let e = build(&v, &mut cx);
    if let Element::Flex(mut f) = e {
        let kept0 = root_widget(&f.children[0]);
        let kept1 = root_widget(&f.children[1]);
        truncate_children(2, &mut f.children, &mut cx, f.widget, f.node);
        assert_eq!(f.children.len(), 2);
        assert_eq!(cx.store.children_of(f.widget).len(), 2);
        assert_eq!(taffy_children_len(&cx.layout, f.node), 2);
        assert_eq!(root_widget(&f.children[0]), kept0);
        assert_eq!(root_widget(&f.children[1]), kept1);
        assert_eq!(cx.store.teardowns(), 1);
        assert!(cx.store.alive(kept0) && cx.store.alive(kept1));
    } else {
        panic!("expected a flex container");
    }
}

/// Growing a list builds the missing rows and inserts them at their index in
/// all three child lists, leaving the existing rows untouched.
#[test]
fn extend_appends_new_rows() {
    let mut cx = Context::new();
    let v = ori_native::views::column(vec![ori_native::views::text(String::from("row 0"))]);
    let e = build(&v, &mut cx);
    if let Element::Flex(mut f) = e {
        let kept0 = root_widget(&f.children[0]);
        let ops_before = cx.store.op_count();
        let vs = vec![
            ori_native::views::text(String::from("row 0")),
            ori_native::views::text(String::from("row 1")),
            ori_native::views::text(String::from("row 2")),
        ];
        extend_children(&vs, &mut f.children, &mut cx, f.widget, f.node);
        assert_eq!(f.children.len(), 3);
        assert_eq!(cx.store.children_of(f.widget).len(), 3);
        assert_eq!(taffy_children_len(&cx.layout, f.node), 3);
        assert_eq!(root_widget(&f.children[0]), kept0);
        assert!(cx.store.op_count() > ops_before);
        match &f.children[2] {
            Element::Text(t) => assert_eq!(t.text, "row 2"),
            _ => panic!("expected a text row"),
        }
    } else {
        panic!("expected a flex container");
    }
}

#[test]
fn mount_and_unmount_through_driver() {
    let mut app = App::new();
    let v = ori_native::views::window(ori_native::views::text(String::from("hello")));
    app.mount(&v);
    assert!(app.root.is_some());
    let made = app.cx.store.widget_count();
    assert_eq!(made, 2);
    app.unmount();
    assert!(app.root.is_none());
    assert_eq!(app.cx.store.teardowns(), 2);
}

#[test]
fn build_allocates_distinct_identities() {
    let mut cx = Context::new();
    let v = ori_native::views::column(vec![ori_native::views::text(String::from("a")), ori_native::views::text(String::from("b"))]);
    let before = cx.next_id;
    let e = build(&v, &mut cx);
    assert_eq!(cx.next_id, before + 3);
    if let Element::Flex(f) = e {
        let mut seen = vec![f.view_id.0];
        for c in f.children.iter() {
            if let Element::Text(t) = c {
                assert!(!seen.contains(&t.view_id.0));
                seen.push(t.view_id.0);
            }
        }
    }
}

/// The counter label across three renders: the widget handle never changes,
/// the text is reshaped exactly when it differs, and a repeated identical
/// view causes no platform call at all.
#[test]
fn text_rebuild_keeps_widget_and_skips_noops() {
    let mut cx = Context::new();
    let v0 = ori_native::views::text(String::from("Pressed 0 times."));
    let e = build(&v0, &mut cx);
    if let Element::Text(mut te) = e {
        let widget0 = te.widget;
        let node0 = te.node;
        for count in 1..4u32 {
            let v = ori_native::views::text(format!("Pressed {} times.", count));
            if let ViewTree::Text(tv) = v {
                let before = cx.store.op_count();
                ori_native::reconcile::rebuild_text(&tv, &mut te, &mut cx);
                assert_eq!(cx.store.op_count(), before + 1);
                // rebuilding from the very same view again is a no-op
                let again = cx.store.op_count();
                ori_native::reconcile::rebuild_text(&tv, &mut te, &mut cx);
                assert_eq!(cx.store.op_count(), again);
            }
            assert_eq!(te.widget, widget0);
            assert_eq!(te.node, node0);
        }
        assert_eq!(cx.store.text_of(widget0), "Pressed 3 times.");
        assert_eq!(cx.store.builds(), 1);
        assert_eq!(cx.store.teardowns(), 0);
    } else {
        panic!("expected a text element");
    }
}

/// The window's two-pass layout: a user-sized window gets its minimum size
/// from the min-content pass and lays out at the platform size; the pass
/// announces fresh geometry.
#[test]
fn window_layout_two_pass() {
    let mut cx = Context::new();
    let v = ori_native::views::window(ori_native::views::text(String::from("hi")));
    let e = build(&v, &mut cx);
    if let Element::Window(mut we) = e {
        // the platform reports a current size
        cx.store.set_size(we.widget, 640, 480);
        let pending_before = cx.pending.len();
        ori_native::reconcile::window_layout(&mut we, &mut cx);
        assert_eq!(we.width, 640);
        assert_eq!(we.height, 480);
        // exactly one layout signal was queued
        assert_eq!(cx.pending.len(), pending_before + 1);
    } else {
        panic!("expected a window");
    }
}

/// Reordering two children moves the element list, the widget children and
/// the layout children together.
#[test]
fn swap_keeps_three_lists_paired() {
    let mut cx = Context::new();
    let v = ori_native::views::column(vec![
        ori_native::views::text(String::from("first")),
        ori_native::views::text(String::from("second")),
        ori_native::views::text(String::from("third")),
    ]);
    let e = build(&v, &mut cx);
    if let Element::Flex(mut f) = e {
        let w0 = root_widget(&f.children[0]);
        let w2 = root_widget(&f.children[2]);
        ori_native::reconcile::swap_children_at(&mut f.children, 0, 2, &mut cx, f.widget, f.node);
        assert_eq!(root_widget(&f.children[0]), w2);
        assert_eq!(root_widget(&f.children[2]), w0);
        let widget_children = cx.store.children_of(f.widget);
        assert_eq!(widget_children[0], w2);
        assert_eq!(widget_children[2], w0);
        assert_eq!(taffy_children_len(&cx.layout, f.node), 3);
        match &f.children[0] {
            Element::Text(t) => assert_eq!(t.text, "third"),
            _ => panic!("expected text"),
        }
    } else {
        panic!("expected a flex container");
    }
}

/// A targeted press message is consumed by the matching pressable exactly
/// once, is logged, and fires the press command only on the release.
#[test]
fn pressable_message_click() {
    let mut cx = Context::new();
    let v = match ori_native::views::pressable(ori_native::views::text(String::from("go"))) {
        ViewTree::Pressable(mut p) => {
            p.on_press = Some(7);
            ViewTree::Pressable(p)
        },
        other => other,
    };
    let e = build(&v, &mut cx);
    if let Element::Pressable(mut pe) = e {
        let id = pe.view_id;
        let mut down = ori_native::message::Message::new(
            ori_native::message::Payload::Press(Press::Pressed),
            id,
        );
        let a1 = ori_native::reconcile::pressable_message(&mut pe, &mut down, &mut cx);
        assert!(down.taken && pe.press.pressed && a1.commands.is_empty());
        // a second delivery of the same message is not consumed again
        let a_again = ori_native::reconcile::pressable_message(&mut pe, &mut down, &mut cx);
        assert!(a_again.commands.is_empty());
        let mut up = ori_native::message::Message::new(
            ori_native::message::Payload::Press(Press::Released),
            id,
        );
        let a2 = ori_native::reconcile::pressable_message(&mut pe, &mut up, &mut cx);
        assert!(up.taken && !pe.press.pressed);
        assert_eq!(a2.commands, vec![7]);
        assert!(a2.rebuild);
        // the delivery log saw this element exactly twice
        assert_eq!(cx.store.delivery_count(), 2);
        assert_eq!(cx.store.delivery(0), id.0);
        assert_eq!(cx.store.delivery(1), id.0);
    } else {
        panic!("expected a pressable");
    }
}

/// A message addressed to a different identity is not consumed and leaves
/// no trace in the delivery log.
#[test]
fn pressable_message_wrong_target_untouched() {
    let mut cx = Context::new();
    let v = ori_native::views::pressable(ori_native::views::text(String::from("go")));
    let e = build(&v, &mut cx);
    if let Element::Pressable(mut pe) = e {
        let other = ori_native::message::ViewId(pe.view_id.0 + 1000);
        let mut msg = ori_native::message::Message::new(
            ori_native::message::Payload::Press(Press::Pressed),
            other,
        );
        let a = ori_native::reconcile::pressable_message(&mut pe, &mut msg, &mut cx);
        assert!(!msg.taken && !pe.press.pressed && a.commands.is_empty());
        assert_eq!(cx.store.delivery_count(), 0);
    } else {
        panic!("expected a pressable");
    }
}

/// The window's animating count runs the frame clock exactly while it is
/// positive: started on the zero-to-one transition, stopped on one-to-zero.
#[test]
fn window_animating_refcount_drives_clock() {
    let mut cx = Context::new();
    let v = ori_native::views::window(ori_native::views::text(String::from("x")));
    let e = build(&v, &mut cx);
    if let Element::Window(mut we) = e {
        let id = we.view_id;
        let start = ori_native::message::Payload::Window(
            ori_native::message::WindowMessage::StartAnimating,
        );
        let stop = ori_native::message::Payload::Window(
            ori_native::message::WindowMessage::StopAnimating,
        );
        let mut m1 = ori_native::message::Message::new(start, id);
        ori_native::reconcile::window_message(&mut we, &mut m1, &mut cx);
        assert_eq!(we.animating, 1);
        let mut m2 = ori_native::message::Message::new(start, id);
        ori_native::reconcile::window_message(&mut we, &mut m2, &mut cx);
        assert_eq!(we.animating, 2);
        let mut m3 = ori_native::message::Message::new(stop, id);
        ori_native::reconcile::window_message(&mut we, &mut m3, &mut cx);
        // one descendant still wants animation: the clock keeps running
        assert_eq!(we.animating, 1);
        let mut m4 = ori_native::message::Message::new(stop, id);
        ori_native::reconcile::window_message(&mut we, &mut m4, &mut cx);
        assert_eq!(we.animating, 0);
        let mut quit_msg = ori_native::message::Message::new(
            ori_native::message::Payload::Window(
                ori_native::message::WindowMessage::CloseRequested,
            ),
            id,
        );
        let a = ori_native::reconcile::window_message(&mut we, &mut quit_msg, &mut cx);
        assert!(a.quit);
    } else {
        panic!("expected a window");
    }
}

/// The type-erasure boundary at one position, driven through a kind
/// sequence with one repeat: the concrete widget is replaced exactly at
/// each kind transition and left untouched on the repeat — three builds and
/// two teardowns at the position, not four and three.
#[test]
fn any_adapter_replaces_exactly_at_transitions() {
    let mut cx = Context::new();
    let col = ori_native::views::column(vec![ori_native::views::text(String::from("a"))]);
    let e = build(&col, &mut cx);
    if let Element::Flex(mut f) = e {
        assert_eq!(cx.store.builds(), 2);  // the column and the text
        let w_a1 = root_widget(&f.children[0]);

        // repeat of the same kind: rebuilt in place, no build, same widget
        if let ViewTree::Text(tv) = ori_native::views::text(String::from("a2")) {
            if let Element::Text(te) = &mut f.children[0] {
                ori_native::reconcile::rebuild_text(&tv, te, &mut cx);
            }
        }
        assert_eq!(root_widget(&f.children[0]), w_a1);
        assert_eq!(cx.store.builds(), 2);
        assert_eq!(cx.store.teardowns(), 0);

        // kind transition: the widget is replaced at the same index
        let b = ori_native::views::row(vec![]);
        ori_native::reconcile::replace_at(&b, &mut f.children, 0, &mut cx, f.widget, f.node);
        let w_b = root_widget(&f.children[0]);
        assert_ne!(w_b, w_a1);
        assert_eq!(cx.store.builds(), 3);
        assert_eq!(cx.store.teardowns(), 1);
        assert_eq!(cx.store.children_of(f.widget)[0], w_b);
        assert_eq!(taffy_children_len(&cx.layout, f.node), 1);

        // transition back: replaced again
        let a = ori_native::views::text(String::from("a3"));
        ori_native::reconcile::replace_at(&a, &mut f.children, 0, &mut cx, f.widget, f.node);
        let w_a2 = root_widget(&f.children[0]);
        assert_ne!(w_a2, w_b);
        assert_eq!(cx.store.builds(), 4);
        assert_eq!(cx.store.teardowns(), 2);
        // at this position: 3 builds (1 initial + 2 transitions), 2 teardowns
        assert!(!cx.store.alive(w_a1) && !cx.store.alive(w_b) && cx.store.alive(w_a2));
    } else {
        panic!("expected a flex container");
    }
}

/// Building an animating wrapper inside a window queues exactly one
/// start-animating request addressed to that window.
#[test]
fn animate_build_queues_one_start_request() {
    let mut cx = Context::new();
    let inner = ori_native::views::Animate::new(
        true,
        Some(9),
        ori_native::views::text(String::from("spin")),
    );
    let v = ori_native::views::window(inner);
    let pending_before = cx.pending.len();
    let e = build(&v, &mut cx);
    assert_eq!(cx.pending.len(), pending_before + 1);
    // a non-animating wrapper queues nothing
    let quiet = ori_native::views::window(ori_native::views::Animate::new(
        false,
        None,
        ori_native::views::text(String::from("still")),
    ));
    let before = cx.pending.len();
    let _e2 = build(&quiet, &mut cx);
    assert_eq!(cx.pending.len(), before);
    drop(e);
}

/// A broadcast signal reaches every live element of the subtree, in
/// preorder, and is consumed by none.
#[test]
fn broadcast_reaches_every_element() {
    let mut cx = Context::new();
    let v = ori_native::views::window(ori_native::views::column(vec![
        ori_native::views::pressable(ori_native::views::row(vec![ori_native::views::text(
            String::from("Press me!"),
        )])),
        ori_native::views::text(String::from("label")),
    ]));
    let e = build(&v, &mut cx);
    assert_eq!(cx.store.delivery_count(), 0);
    let ops_before = cx.store.op_count();
    let a = ori_native::reconcile::broadcast_route(
        &e,
        ori_native::message::Payload::Lifecycle(ori_native::message::Lifecycle::Layout),
        &mut cx,
    );
    // six elements: window, column, pressable, row, inner text, label
    assert_eq!(cx.store.delivery_count(), 6);
    assert!(a.commands.is_empty() && !a.rebuild && !a.quit);
    // the containers applied their computed geometry on the way down
    assert!(cx.store.op_count() > ops_before);
    // a second broadcast reaches all six again
    let _ = ori_native::reconcile::broadcast_route(
        &e,
        ori_native::message::Payload::Lifecycle(ori_native::message::Lifecycle::Layout),
        &mut cx,
    );
    assert_eq!(cx.store.delivery_count(), 12);
}

/// An animation tick fires the frame command of every animating wrapper,
/// and only of those.
#[test]
fn animation_tick_fires_frame_commands()  {
    let mut cx = Context::new();
    let v = ori_native::views::window(ori_native::views::column(vec![
        ori_native::views::Animate::new(true, Some(11), ori_native::views::text(String::from("spin"))),
        ori_native::views::Animate::new(false, Some(22), ori_native::views::text(String::from("still"))),
    ]));
    let e = build(&v, &mut cx);
    let a = ori_native::reconcile::broadcast_route(
        &e,
        ori_native::message::Payload::Lifecycle(ori_native::message::Lifecycle::Animate(16)),
        &mut cx,
    );
    assert_eq!(a.commands, vec![11]);
    assert!(a.rebuild);
}

/// The documented positional-diff behavior on a middle removal: a list of
/// three rows is reconciled against the two views that remain after the
/// middle row is dropped, so every row after the removed index is rebuilt
/// in place against the following row's content, and the removal fires at
/// the tail.  All three child lists end at the shorter length, surviving
/// rows keep their widgets, and exactly one widget is torn down.
#[test]
fn middle_removal_positional_diff() {
    let mut cx = Context::new();
    let v = ori_native::views::column(vec![
        ori_native::views::text(String::from("row 0")),
        ori_native::views::text(String::from("row 1")),
        ori_native::views::text(String::from("row 2")),
    ]);
    let e = build(&v, &mut cx);
    if let Element::Flex(mut f) = e {
        let w0 = root_widget(&f.children[0]);
        let w1 = root_widget(&f.children[1]);
        // the new view list drops the middle row: ["row 0", "row 2"]
        let new_texts = [String::from("row 0"), String::from("row 2")];
        // matched positions are rebuilt in place against the shifted
        // contents, then the extra trailing element is removed
        for (j, txt) in new_texts.iter().enumerate() {
            if let ViewTree::Text(tv) = ori_native::views::text(txt.clone()) {
                if let Element::Text(te) = &mut f.children[j] {
                    ori_native::reconcile::rebuild_text(&tv, te, &mut cx);
                }
            }
        }
        truncate_children(2, &mut f.children, &mut cx, f.widget, f.node);
        assert_eq!(f.children.len(), 2);
        assert_eq!(cx.store.children_of(f.widget).len(), 2);
        assert_eq!(taffy_children_len(&cx.layout, f.node), 2);
        // the rows after the removed index show the following old content,
        // in the same widgets
        assert_eq!(root_widget(&f.children[0]), w0);
        assert_eq!(root_widget(&f.children[1]), w1);
        assert_eq!(cx.store.text_of(w1), "row 2");
        assert_eq!(cx.store.teardowns(), 1);
    } else {
        panic!("expected a flex container");
    }
}

/// A targeted press reaches a pressable nested under a window and a
/// column: containers that are not the target forward the message into
/// their children, the payload is consumed exactly once, and siblings see
/// nothing.
#[test]
fn targeted_message_routes_through_containers() {
    let mut cx = Context::new();
    let button = match ori_native::views::pressable(ori_native::views::row(vec![
        ori_native::views::text(String::from("go")),
    ])) {
        ViewTree::Pressable(mut p) => {
            p.on_press = Some(5);
            ViewTree::Pressable(p)
        },
        other => other,
    };
    let v = ori_native::views::window(ori_native::views::column(vec![
        button,
        ori_native::views::text(String::from("label")),
    ]));
    let mut e = build(&v, &mut cx);
    let button_id = match &e {
        Element::Window(w) => match &w.content {
            Element::Flex(f) => match &f.children[0] {
                Element::Pressable(p) => p.view_id,
                _ => panic!("expected pressable"),
            },
            _ => panic!("expected flex"),
        },
        _ => panic!("expected window"),
    };
    let mut down = ori_native::message::Message::new(
        ori_native::message::Payload::Press(Press::Pressed),
        button_id,
    );
    let a1 = ori_native::reconcile::route(&mut e, &mut down, &mut cx);
    assert!(down.taken);
    assert!(a1.rebuild && a1.commands.is_empty());
    let mut up = ori_native::message::Message::new(
        ori_native::message::Payload::Press(Press::Released),
        button_id,
    );
    let a2 = ori_native::reconcile::route(&mut e, &mut up, &mut cx);
    assert!(up.taken);
    assert_eq!(a2.commands, vec![5]);
    // exactly the target was logged, once per consumed message
    assert_eq!(cx.store.delivery_count(), 2);
    assert_eq!(cx.store.delivery(0), button_id.0);
    assert_eq!(cx.store.delivery(1), button_id.0);
    // a message for nobody is consumed by nothing and logged nowhere
    let mut stray = ori_native::message::Message::new(
        ori_native::message::Payload::Press(Press::Pressed),
        ori_native::message::ViewId(99_999),
    );
    let a3 = ori_native::reconcile::route(&mut e, &mut stray, &mut cx);
    assert!(!stray.taken && a3.commands.is_empty() && !a3.rebuild);
    assert_eq!(cx.store.delivery_count(), 2);
}

/// A frame tick targeted at the window is dispatched through its contents:
/// the animating wrapper's command comes back in the action, and the whole
/// subtree is logged.
#[test]
fn window_tick_dispatches_through_contents() {
    let mut cx = Context::new();
    let v = ori_native::views::window(ori_native::views::Animate::new(
        true,
        Some(3),
        ori_native::views::text(String::from("spin")),
    ));
    let mut e = build(&v, &mut cx);
    let win_id = match &e {
        Element::Window(w) => w.view_id,
        _ => panic!("expected window"),
    };
    // the window must first learn that a descendant animates
    let mut start = ori_native::message::Message::new(
        ori_native::message::Payload::Window(ori_native::message::WindowMessage::StartAnimating),
        win_id,
    );
    let _ = ori_native::reconcile::route(&mut e, &mut start, &mut cx);
    let logged = cx.store.delivery_count();
    let mut tick = ori_native::message::Message::new(
        ori_native::message::Payload::Window(
            ori_native::message::WindowMessage::AnimationFrame(16),
        ),
        win_id,
    );
    let a = ori_native::reconcile::route(&mut e, &mut tick, &mut cx);
    assert_eq!(a.commands, vec![3]);
    assert!(a.rebuild);
    // the window, the wrapper and the text were all logged by the dispatch
    assert_eq!(cx.store.delivery_count(), logged + 3);
}

/// A size report with an unchanged size is a no-op beyond the delivery
/// log; a changed size runs the two-pass layout and queues the signal.
#[test]
fn resize_noop_when_size_unchanged() {
    let mut cx = Context::new();
    let v = ori_native::views::window(ori_native::views::text(String::from("x")));
    let mut e = build(&v, &mut cx);
    let win_id = match &e {
        Element::Window(w) => w.view_id,
        _ => panic!("expected window"),
    };
    // cached and platform size agree (both zero): nothing happens
    let ops_before = cx.store.op_count();
    let pending_before = cx.pending.len();
    let mut same = ori_native::message::Message::new(
        ori_native::message::Payload::Window(ori_native::message::WindowMessage::Resized),
        win_id,
    );
    let _ = ori_native::reconcile::route(&mut e, &mut same, &mut cx);
    assert_eq!(cx.store.op_count(), ops_before);
    assert_eq!(cx.pending.len(), pending_before);
    // the platform reports a new size: the layout pass runs
    if let Element::Window(w) = &e {
        cx.store.set_size(w.widget, 800, 600);
    }
    let mut changed = ori_native::message::Message::new(
        ori_native::message::Payload::Window(ori_native::message::WindowMessage::Resized),
        win_id,
    );
    let _ = ori_native::reconcile::route(&mut e, &mut changed, &mut cx);
    assert_eq!(cx.pending.len(), pending_before + 1);
    if let Element::Window(w) = &e {
        assert_eq!(w.width, 800);
        assert_eq!(w.height, 600);
    }
}
