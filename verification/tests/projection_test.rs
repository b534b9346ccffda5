use sesstype::mpst::projection::{merge, project};
use sesstype::mpst::{global, local, projection, Message, Role};

use std::rc::Rc;

/// A text of a local type, for comparing results.
fn show(t: &local::Type<()>) -> String {
    match t {
        local::Type::Branch { p, s } => format!("{}&{{{}}}", p.name(), show_choices(s, '?')),
        local::Type::Select { p, s } => format!("{}⊕{{{}}}", p.name(), show_choices(s, '!')),
        local::Type::Recur { t, s } => format!("μ{}.{}", t, show(s)),
        local::Type::TypeVar { t } => t.clone(),
        local::Type::End => String::from("end"),
    }
}

fn show_choices(s: &Vec<(Message<()>, Box<local::Type<()>>)>, mark: char) -> String {
    let parts: Vec<String> = s
        .iter()
        .map(|(m, c)| format!("{}{}.{}", mark, m.to_string(), show(c)))
        .collect();
    parts.join(", ")
}

fn msg(l: &str) -> Message<()> {
    Message::new(l)
}

#[test]
fn test_projection() {
    let sndr = Role::new("alice");
    let rcvr = Role::new("bob");
    let msg1 = Message::<()>::new("label1");
    let msg2 = Message::<()>::new("label2");

    let p1 = global::Type::interaction(&sndr, &rcvr);
    let p1_1 = global::Type::add_message(p1, msg1, global::Type::typevar("T"));
    let p1_2 = global::Type::add_message(p1_1, msg2, global::Type::end());
    let p0 = global::Type::recur("T", p1_2);

    let local_alice = project(&p0, &sndr);
    let local_bob = project(&p0, &rcvr);

    match local_alice {
        Some(ref t) => match **t {
            local::Type::Recur { ref t, ref s } => {
                assert_eq!(t, "T");
                match **s {
                    local::Type::Select { ref p, ref s } => {
                        assert!(Rc::ptr_eq(p, &rcvr));
                        for (m_i, s_i) in s {
                            match m_i.label().as_str() {
                                "label1" => match **s_i {
                                    local::Type::TypeVar { ref t } => assert_eq!(t, "T"),
                                    _ => assert!(false),
                                },
                                "label2" => match **s_i {
                                    local::Type::End => assert!(true),
                                    _ => assert!(false),
                                },
                                _ => assert!(false),
                            }
                        }
                    }
                    _ => assert!(false),
                }
            }
            _ => assert!(false),
        },
        None => assert!(false),
    };

    match local_bob {
        Some(ref t) => match **t {
            local::Type::Recur { ref t, ref s } => {
                assert_eq!(t, "T");
                match **s {
                    local::Type::Branch { ref p, ref s } => {
                        assert!(Rc::ptr_eq(p, &sndr));
                        for (m_i, s_i) in s {
                            match m_i.label().as_str() {
                                "label1" => match **s_i {
                                    local::Type::TypeVar { ref t } => assert_eq!(t, "T"),
                                    _ => assert!(false),
                                },
                                "label2" => match **s_i {
                                    local::Type::End => assert!(true),
                                    _ => assert!(false),
                                },
                                _ => assert!(false),
                            }
                        }
                    }
                    _ => assert!(false),
                }
            }
            _ => assert!(false),
        },
        None => assert!(false),
    }
}

#[test]
fn test_project_mergefail() {
    let p = Role::new("P");
    let q = Role::new("Q");
    let r = Role::new("R");
    let a = Message::<()>::new("a");
    let b = Message::<()>::new("b");
    let a2_1 = Message::<()>::new("a2");
    let a2_2 = Message::<()>::new("a2");
    let a3 = Message::<()>::new("a3");

    let p3_1 = global::Type::add_message(global::Type::interaction(&r, &p), a3, global::Type::end());
    let p2_1 = global::Type::add_message(global::Type::interaction(&q, &r), a2_1, p3_1);
    let p2_2 = global::Type::add_message(global::Type::interaction(&q, &r), a2_2, global::Type::end());
    let p1 = global::Type::interaction(&p, &q);
    let p1_1 = global::Type::add_message(p1, a, p2_1);
    let p1_2 = global::Type::add_message(p1_1, b, p2_2);

    let local_r = projection::project(&p1_2, &r);
    // This should return None because merge is not possible.
    match local_r {
        Some(_) => assert!(false),
        None => (),
    }
}

#[test]
fn project_end_and_typevar_onto_any_role() {
    let a = Role::new("A");
    assert_eq!(show(&project(&global::Type::<()>::end(), &a).unwrap()), "end");
    assert_eq!(show(&project(&global::Type::<()>::typevar("T"), &a).unwrap()), "T");
}

#[test]
fn project_third_role_single_continuation() {
    let a = Role::new("A");
    let b = Role::new("B");
    let c = Role::new("C");
    // A → B : l. C → A : m. end
    let inner = global::Type::add_message(global::Type::interaction(&c, &a), msg("m"), global::Type::end());
    let g = global::Type::add_message(global::Type::interaction(&a, &b), msg("l"), inner);
    assert_eq!(show(&project(&g, &c).unwrap()), "A⊕{!m().end}");
    assert_eq!(show(&project(&g, &a).unwrap()), "B⊕{!l().C&{?m().end}}");
    assert_eq!(show(&project(&g, &b).unwrap()), "A&{?l().end}");
}

#[test]
fn project_third_role_merges_branchings() {
    let a = Role::new("A");
    let b = Role::new("B");
    let c = Role::new("C");
    // A → C : { x. A → B : { u. end }, y. A → B : { v. end } } onto B, which does not
    // see the first choice: the two branchings it may face are merged.
    let gx = global::Type::add_message(global::Type::interaction(&a, &b), msg("u"), global::Type::end());
    let gy = global::Type::add_message(global::Type::interaction(&a, &b), msg("v"), global::Type::end());
    let g = global::Type::add_message(
        global::Type::add_message(global::Type::interaction(&a, &c), msg("x"), gx),
        msg("y"),
        gy,
    );
    assert_eq!(show(&project(&g, &b).unwrap()), "A&{?u().end, ?v().end}");
}

#[test]
fn project_third_role_selections_of_different_messages_fail() {
    let a = Role::new("A");
    let b = Role::new("B");
    let c = Role::new("C");
    // onto B, which must select differently in each branch it does not see
    let gx = global::Type::add_message(global::Type::interaction(&b, &a), msg("u"), global::Type::end());
    let gy = global::Type::add_message(global::Type::interaction(&b, &a), msg("v"), global::Type::end());
    let g = global::Type::add_message(
        global::Type::add_message(global::Type::interaction(&a, &c), msg("x"), gx),
        msg("y"),
        gy,
    );
    assert!(project(&g, &b).is_none());
}

#[test]
fn project_empty_interaction_is_undefined() {
    let a = Role::new("A");
    let b = Role::new("B");
    let c = Role::new("C");
    let g = global::Type::<()>::interaction(&a, &b);
    assert!(project(&g, &a).is_none());
    assert!(project(&g, &b).is_none());
    assert!(project(&g, &c).is_none());
}

#[test]
fn project_recursion_wraps_the_body() {
    let a = Role::new("A");
    let b = Role::new("B");
    let body = global::Type::add_message(global::Type::interaction(&a, &b), msg("l"), global::Type::typevar("X"));
    let g = global::Type::recur("X", body);
    assert_eq!(show(&project(&g, &b).unwrap()), "μX.A&{?l().X}");
}

#[test]
fn merge_branchings_takes_all_messages() {
    let a = Role::new("A");
    let l = local::Type::add_message(local::Type::branch(&a), msg("x"), local::Type::end());
    let l = local::Type::add_message(l, msg("y"), local::Type::end());
    let r = local::Type::add_message(local::Type::branch(&a), msg("y"), local::Type::end());
    let r = local::Type::add_message(r, msg("z"), local::Type::end());
    let m = merge(&l, &r).unwrap();
    assert_eq!(show(&m), "A&{?x().end, ?y().end, ?z().end}");
}

#[test]
fn merge_branchings_with_conflicting_continuations_is_undefined() {
    let a = Role::new("A");
    let l = local::Type::add_message(local::Type::branch(&a), msg("x"), local::Type::end());
    let l = local::Type::add_message(l, msg("y"), local::Type::end());
    let r = local::Type::add_message(local::Type::branch(&a), msg("y"), local::Type::typevar("T"));
    assert!(merge(&l, &r).is_none());
    assert!(merge(&r, &l).is_none());
}

#[test]
fn merge_selections_only_when_the_same() {
    let a = Role::new("A");
    let l = local::Type::add_message(local::Type::select(&a), msg("x"), local::Type::end());
    let l = local::Type::add_message(l, msg("y"), local::Type::typevar("T"));
    let same = local::Type::add_message(local::Type::select(&a), msg("y"), local::Type::typevar("T"));
    let same = local::Type::add_message(same, msg("x"), local::Type::end());
    let m = merge(&l, &same).unwrap();
    assert_eq!(show(&m), "A⊕{!x().end, !y().T}");
    let other = local::Type::add_message(local::Type::select(&a), msg("y"), local::Type::typevar("T"));
    assert!(merge(&l, &other).is_none());
    let other_cont = local::Type::add_message(local::Type::select(&a), msg("x"), local::Type::typevar("T"));
    let other_cont = local::Type::add_message(other_cont, msg("y"), local::Type::typevar("T"));
    assert!(merge(&l, &other_cont).is_none());
}

#[test]
fn merge_undefined_cases() {
    let a = Role::new("A");
    let b = Role::new("B");
    let ba = local::Type::<()>::branch(&a);
    let bb = local::Type::<()>::branch(&b);
    let sa = local::Type::<()>::select(&a);
    assert!(merge(&ba, &bb).is_none());
    assert!(merge(&ba, &sa).is_none());
    assert!(merge(&local::Type::<()>::typevar("T"), &local::Type::typevar("U")).is_none());
    assert!(merge(&local::Type::<()>::end(), &local::Type::typevar("U")).is_none());
    let r1 = local::Type::<()>::recur("T", local::Type::end());
    let r2 = local::Type::<()>::recur("U", local::Type::end());
    assert!(merge(&r1, &r2).is_none());
    let r3 = local::Type::<()>::recur("T", local::Type::typevar("T"));
    assert!(merge(&r1, &r3).is_none());
    assert_eq!(show(&merge(&r1, &r1).unwrap()), "μT.end");
    assert_eq!(show(&merge(&local::Type::<()>::end(), &local::Type::end()).unwrap()), "end");
    assert_eq!(show(&merge(&local::Type::<()>::typevar("T"), &local::Type::typevar("T")).unwrap()), "T");
}

#[test]
fn merge_is_idempotent() {
    let a = Role::new("A");
    let b = Role::new("B");
    let inner = local::Type::add_message(local::Type::select(&b), msg("s"), local::Type::typevar("T"));
    let l = local::Type::add_message(local::Type::branch(&a), msg("x"), inner);
    let l = local::Type::add_message(l, msg("y"), local::Type::end());
    let l = local::Type::recur("T", l);
    let m = merge(&l, &l).unwrap();
    assert_eq!(show(&m), show(&l));
}

#[test]
fn merge_does_not_depend_on_order() {
    let a = Role::new("A");
    let b = Role::new("B");
    let sel_l = local::Type::add_message(local::Type::select(&a), msg("x"), local::Type::end());
    let sel_r = local::Type::add_message(local::Type::select(&a), msg("x"), local::Type::typevar("T"));
    assert!(merge(&sel_l, &sel_r).is_none());
    assert!(merge(&sel_r, &sel_l).is_none());
    let l = local::Type::add_message(local::Type::branch(&a), msg("x"), local::Type::end());
    let l = local::Type::add_message(l, msg("y"), local::Type::end());
    let r = local::Type::add_message(local::Type::branch(&a), msg("z"), local::Type::end());
    let r = local::Type::add_message(r, msg("y"), local::Type::end());
    let lr = merge(&l, &r).unwrap();
    let rl = merge(&r, &l).unwrap();
    assert!(lr.equals(&rl));
    assert_eq!(show(&lr), "A&{?x().end, ?y().end, ?z().end}");
    assert_eq!(show(&rl), "A&{?z().end, ?y().end, ?x().end}");
    let r1 = local::Type::<()>::recur("T", local::Type::end());
    let r2 = local::Type::<()>::recur("T", local::Type::typevar("T"));
    assert!(merge(&r1, &r2).is_none());
    assert!(merge(&r2, &r1).is_none());
    let ba = local::Type::<()>::branch(&a);
    let bb = local::Type::<()>::branch(&b);
    assert!(merge(&ba, &bb).is_none());
    assert!(merge(&bb, &ba).is_none());
}

#[test]
fn project_is_undefined_where_a_continuation_is() {
    let p = Role::new("P");
    let q = Role::new("Q");
    let r = Role::new("R");
    // R → P : { x. (an interaction with no message), y. end }
    let g = global::Type::add_message(global::Type::interaction(&r, &p), msg("x"), global::Type::interaction(&p, &q));
    let g = global::Type::add_message(g, msg("y"), global::Type::end());
    assert!(project(&g, &r).is_none());
    assert!(project(&g, &p).is_none());
    assert!(project(&g, &q).is_none());
    // the same messages added the other way round
    let g2 = global::Type::add_message(global::Type::interaction(&r, &p), msg("y"), global::Type::end());
    let g2 = global::Type::add_message(g2, msg("x"), global::Type::interaction(&p, &q));
    assert!(project(&g2, &r).is_none());
    assert!(project(&g2, &q).is_none());
}

#[test]
fn project_leaves_no_empty_branching() {
    let p = Role::new("P");
    let q = Role::new("Q");
    let r = Role::new("R");
    let s = Role::new("S");
    // P → Q : { a. Q → R : c. S → R : d. R → P : e. end, b. Q → R : c. S → R : d. end }
    let a_cont = global::Type::add_message(
        global::Type::interaction(&q, &r),
        msg("c"),
        global::Type::add_message(
            global::Type::interaction(&s, &r),
            msg("d"),
            global::Type::add_message(global::Type::interaction(&r, &p), msg("e"), global::Type::end()),
        ),
    );
    let b_cont = global::Type::add_message(
        global::Type::interaction(&q, &r),
        msg("c"),
        global::Type::add_message(global::Type::interaction(&s, &r), msg("d"), global::Type::end()),
    );
    let g = global::Type::add_message(global::Type::interaction(&p, &q), msg("a"), a_cont);
    let g = global::Type::add_message(g, msg("b"), b_cont);
    assert!(project(&g, &r).is_none());
}

#[test]
fn project_third_role_does_not_depend_on_message_order() {
    let a = Role::new("A");
    let b = Role::new("B");
    let c = Role::new("C");
    let gx = || global::Type::add_message(global::Type::interaction(&a, &b), msg("u"), global::Type::end());
    let gy = || global::Type::add_message(global::Type::interaction(&a, &b), msg("v"), global::Type::end());
    let g1 = global::Type::add_message(
        global::Type::add_message(global::Type::interaction(&a, &c), msg("x"), gx()),
        msg("y"),
        gy(),
    );
    let g2 = global::Type::add_message(
        global::Type::add_message(global::Type::interaction(&a, &c), msg("y"), gy()),
        msg("x"),
        gx(),
    );
    let l1 = project(&g1, &b).unwrap();
    let l2 = project(&g2, &b).unwrap();
    assert!(l1.equals(&l2));
    let s1 = project(&g1, &c).unwrap();
    let s2 = project(&g2, &c).unwrap();
    assert!(s1.equals(&s2));
}

#[test]
fn local_equals_ignores_message_order() {
    let a = Role::new("A");
    let b = Role::new("B");
    let l = local::Type::add_message(local::Type::branch(&a), msg("x"), local::Type::end());
    let l = local::Type::add_message(l, msg("y"), local::Type::typevar("T"));
    let r = local::Type::add_message(local::Type::branch(&a), msg("y"), local::Type::typevar("T"));
    let r = local::Type::add_message(r, msg("x"), local::Type::end());
    assert!(l.equals(&r));
    let other_role = local::Type::add_message(local::Type::branch(&b), msg("x"), local::Type::end());
    let other_role = local::Type::add_message(other_role, msg("y"), local::Type::typevar("T"));
    assert!(!l.equals(&other_role));
    let fewer = local::Type::add_message(local::Type::branch(&a), msg("x"), local::Type::end());
    assert!(!l.equals(&fewer));
    assert!(!fewer.equals(&l));
    let sel = local::Type::add_message(local::Type::select(&a), msg("x"), local::Type::end());
    assert!(!fewer.equals(&sel));
}
