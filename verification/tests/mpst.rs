use sesstype::mpst::{global, local, Message, PayloadType, Role};

use std::marker::PhantomData;
use std::rc::Rc;

#[test]
fn new_role() {
    let alice = Role::new("Alice");
    assert!(String::from("Alice").eq(alice.name()));
    // Test alice.name() can be reused.
    assert!(String::from("Alice").eq(alice.name()));
}

#[test]
fn example_global_type() {
    let sndr = Role::new("alice");
    let rcvr = Role::new("bob");
    let msg1 = Message::<()>::new("label1");
    let msg2 = Message::<()>::new("label2");

    let p1 = global::Type::interaction(&sndr, &rcvr);
    let p1_1 = global::Type::add_message(p1, msg1, global::Type::typevar("T"));
    let p1_2 = global::Type::add_message(p1_1, msg2, global::Type::end());
    let p = global::Type::recur("T", p1_2);

    match *p {
        global::Type::Recur { ref t, ref g } => {
            assert_eq!(t, "T");
            match **g {
                global::Type::Interact { ref p, ref q, ref g } => {
                    assert!(Rc::ptr_eq(p, &sndr));
                    assert!(Rc::ptr_eq(q, &rcvr));
                    for (m_i, g_i) in g {
                        match m_i.label().as_str() {
                            "label1" => match **g_i {
                                global::Type::TypeVar { ref t } => assert_eq!(t, "T"),
                                _ => assert!(false),
                            },
                            "label2" => match **g_i {
                                global::Type::End => assert!(true),
                                _ => assert!(false),
                            },
                            _ => assert!(false),
                        }
                    }
                }
                _ => assert!(false),
            }
        }
        _ => assert!(false),
    }
}

#[test]
fn new_message() {
    let msg = Message::<()>::new("l");
    assert!(String::from("l").eq(msg.label()));
    assert_eq!(msg.to_string(), String::from("l()"));

    let msg_with_payloads = Message::<()>::with_payload_data("l", PhantomData);
    assert!(String::from("l").eq(msg_with_payloads.label()));
}

#[test]
fn example_local_type() {
    let sndr = Role::new("alice");
    let rcvr = Role::new("bob");
    let msg1 = Message::<()>::with_payload_data("label", PhantomData);
    let msg2 = Message::<()>::with_payload_data("label2", PhantomData);
    let msg3 = Message::<()>::new("label3");

    let sel2 = local::Type::select(&sndr);
    let sel2_1 = local::Type::add_message(sel2, msg2, local::Type::typevar("T"));
    let sel2_2 = local::Type::add_message(sel2_1, msg3, local::Type::end());
    let br1 = local::Type::branch(&rcvr);
    let br1_1 = local::Type::add_message(br1, msg1, sel2_2); // Recv
    let p = local::Type::recur("T", br1_1);

    match *p {
        local::Type::Recur { ref t, ref s } => {
            assert_eq!(t, "T");
            match **s {
                local::Type::Branch { ref p, ref s } => {
                    assert!(Rc::ptr_eq(p, &rcvr));
                    for (m_i, s_i) in s {
                        match m_i.label().as_str() {
                            "label" => match **s_i {
                                local::Type::Select { ref p, ref s } => {
                                    assert!(Rc::ptr_eq(p, &sndr));
                                    for (m_i, s_i) in s {
                                        match m_i.label().as_str() {
                                            "label2" => match **s_i {
                                                local::Type::TypeVar { ref t } => assert_eq!(t.as_str(), "T"),
                                                _ => assert!(false),
                                            },
                                            "label3" => match **s_i {
                                                local::Type::End => assert!(true),
                                                _ => assert!(false),
                                            },
                                            _ => assert!(false),
                                        }
                                    }
                                }
                                _ => assert!(false),
                            },
                            _ => assert!(false),
                        }
                    }
                }
                _ => assert!(false),
            }
        }
        _ => assert!(false),
    }
}

#[test]
fn message_new_has_no_payload() {
    let msg = Message::<u32>::new("l");
    assert!(matches!(msg.payload, PayloadType::Empty));
}

#[test]
fn message_with_payload_data() {
    let msg = Message::<u32>::with_payload_data("l", PhantomData);
    assert_eq!(msg.label(), "l");
    assert!(matches!(msg.payload, PayloadType::Data(_)));
    assert_eq!(msg.to_string(), "l(PhantomData)");
}

#[test]
fn message_empty_label() {
    let msg = Message::<u32>::new("");
    assert_eq!(msg.label(), "");
    assert_eq!(msg.to_string(), "()");
}

#[test]
fn message_equality_is_label_and_payload_kind() {
    let a = Message::<u32>::new("a");
    let a2 = Message::<u32>::new("a");
    let a_data = Message::<u32>::with_payload_data("a", PhantomData);
    let a_data2 = Message::<u32>::with_payload_data("a", PhantomData);
    let b = Message::<u32>::new("b");
    assert!(a == a2);
    assert!(a_data == a_data2);
    assert!(a != a_data);
    assert!(a != b);
    assert!(PayloadType::<u32>::Empty == PayloadType::Empty);
    assert!(PayloadType::<u32>::Empty != PayloadType::Data(PhantomData));
}

#[test]
fn message_clone_is_equal() {
    let a = Message::<u32>::with_payload_data("a", PhantomData);
    let c = a.clone();
    assert!(a == c);
    assert_eq!(c.label(), "a");
    assert_eq!(c.to_string(), "a(PhantomData)");
    let e = Message::<u32>::new("e").clone();
    assert!(matches!(e.payload, PayloadType::Empty));
}

#[test]
fn role_to_string_is_its_name() {
    let bob = Role::new("bob");
    assert_eq!(bob.to_string(), "bob");
    assert_eq!(bob.name(), "bob");
}
