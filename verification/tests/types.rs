use sesstype::mpst::{global, local, Message, Role};

use std::marker::PhantomData;

#[test]
fn local_add_message_replaces_a_present_message() {
    let a = Role::new("A");
    let t = local::Type::add_message(local::Type::select(&a), Message::<()>::new("x"), local::Type::end());
    let t = local::Type::add_message(t, Message::new("y"), local::Type::end());
    assert_eq!(t.len(), 2);
    let t = local::Type::add_message(t, Message::new("x"), local::Type::typevar("T"));
    assert_eq!(t.len(), 2);
    match *t {
        local::Type::Select { ref s, .. } => {
            assert_eq!(s[0].0.label(), "x");
            assert!(matches!(*s[0].1, local::Type::TypeVar { .. }));
            assert_eq!(s[1].0.label(), "y");
        }
        _ => assert!(false),
    }
}

#[test]
fn local_add_message_distinguishes_payload_kind() {
    let a = Role::new("A");
    let t = local::Type::add_message(local::Type::branch(&a), Message::<u8>::new("x"), local::Type::end());
    let t = local::Type::add_message(t, Message::with_payload_data("x", PhantomData), local::Type::end());
    assert_eq!(t.len(), 2);
}

#[test]
fn local_add_message_leaves_other_types_unchanged() {
    let t = local::Type::add_message(local::Type::<()>::end(), Message::new("x"), local::Type::end());
    assert!(matches!(*t, local::Type::End));
    let t = local::Type::add_message(local::Type::<()>::typevar("T"), Message::new("x"), local::Type::end());
    assert!(matches!(*t, local::Type::TypeVar { .. }));
    let t = local::Type::add_message(
        local::Type::<()>::recur("T", local::Type::end()),
        Message::new("x"),
        local::Type::end(),
    );
    assert_eq!(t.len(), 1);
}

#[test]
fn local_len_counts_choices() {
    let a = Role::new("A");
    assert_eq!(local::Type::<()>::branch(&a).len(), 0);
    assert_eq!(local::Type::<()>::select(&a).len(), 0);
    assert_eq!(local::Type::<()>::end().len(), 1);
    assert_eq!(local::Type::<()>::typevar("T").len(), 1);
    let t = local::Type::add_message(local::Type::branch(&a), Message::<()>::new("x"), local::Type::end());
    assert_eq!(t.len(), 1);
}

#[test]
fn local_clone_is_a_copy() {
    let a = Role::new("A");
    let t = local::Type::add_message(local::Type::branch(&a), Message::<()>::new("x"), local::Type::typevar("T"));
    let t = local::Type::recur("T", t);
    let c = (*t).clone();
    match c {
        local::Type::Recur { ref t, ref s } => {
            assert_eq!(t, "T");
            match **s {
                local::Type::Branch { ref p, ref s } => {
                    assert_eq!(p.name(), "A");
                    assert_eq!(s.len(), 1);
                    assert_eq!(s[0].0.label(), "x");
                    assert!(matches!(*s[0].1, local::Type::TypeVar { .. }));
                }
                _ => assert!(false),
            }
        }
        _ => assert!(false),
    }
}

#[test]
fn global_add_message_replaces_a_present_message() {
    let a = Role::new("A");
    let b = Role::new("B");
    let g = global::Type::add_message(global::Type::interaction(&a, &b), Message::<()>::new("x"), global::Type::end());
    let g = global::Type::add_message(g, Message::new("x"), global::Type::typevar("T"));
    match *g {
        global::Type::Interact { ref p, ref q, ref g } => {
            assert_eq!(p.name(), "A");
            assert_eq!(q.name(), "B");
            assert_eq!(g.len(), 1);
            assert!(matches!(*g[0].1, global::Type::TypeVar { .. }));
        }
        _ => assert!(false),
    }
}

#[test]
fn global_add_message_leaves_other_types_unchanged() {
    let g = global::Type::add_message(global::Type::<()>::end(), Message::new("x"), global::Type::end());
    assert!(matches!(*g, global::Type::End));
    let g = global::Type::add_message(global::Type::<()>::recur("T", global::Type::end()), Message::new("x"), global::Type::end());
    assert!(matches!(*g, global::Type::Recur { .. }));
}
