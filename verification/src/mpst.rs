//! Participants and messages of a multiparty session.
use std::marker::PhantomData;
use std::rc::Rc;
use vstd::prelude::*;

pub mod global;
pub mod local;
pub mod projection;

verus! {

/// The payload of a `Message`: either some data of type `A`, or nothing.
#[derive(Debug, Hash)]
pub enum PayloadType<A> {
    Data(PhantomData<A>),
    Empty,
}

impl<A> PayloadType<A> {
    /// Whether this payload carries data.
    pub open spec fn carries_data(&self) -> bool {
        self is Data
    }
}

impl<A> PartialEq for PayloadType<A> {
    fn eq(&self, other: &PayloadType<A>) -> (res: bool) {
        match (self, other) {
            (PayloadType::Empty, PayloadType::Empty) => true,
            (PayloadType::Data(_), PayloadType::Data(_)) => true,
            _ => false,
        }
    }
}

impl<A> vstd::std_specs::cmp::PartialEqSpecImpl for PayloadType<A> {
    open spec fn obeys_eq_spec() -> bool {
        true
    }

    open spec fn eq_spec(&self, other: &PayloadType<A>) -> bool {
        self.carries_data() == other.carries_data()
    }
}

/// What identifies a message: its label and whether it carries data.
pub struct MessageView {
    pub label: Seq<char>,
    pub carries_data: bool,
}

/// A message of a session: a label, and an (optional) payload.
#[derive(Debug, Hash)]
pub struct Message<A> {
    /// The label of the message; it may be empty.
    pub label: String,
    /// The (optional) payload of the message.
    pub payload: PayloadType<A>,
}

impl<A> View for Message<A> {
    type V = MessageView;

    open spec fn view(&self) -> MessageView {
        MessageView { label: self.label@, carries_data: self.payload.carries_data() }
    }
}

impl<A> Message<A> {
    /// A message with the given label and no payload.
    pub fn new(label: &str) -> (res: Message<A>)
        ensures
            res.label@ == label@,
            res.payload is Empty,
    {
        Message { label: label.to_owned(), payload: PayloadType::Empty }
    }

    /// The label of the message.
    pub fn label(&self) -> (res: &String)
        ensures
            res@ == self.label@,
    {
        &self.label
    }

    /// A message with the given label and a data payload.
    pub fn with_payload_data(label: &str, payload: PhantomData<A>) -> (res: Message<A>)
        ensures
            res.label@ == label@,
            res.payload is Data,
    {
        Message { label: label.to_owned(), payload: PayloadType::Data(payload) }
    }

    /// The text of the payload as `to_string` shows it.
    pub open spec fn payload_text(&self) -> Seq<char> {
        if self.payload is Data {
            "PhantomData"@
        } else {
            Seq::empty()
        }
    }

    /// A human friendly text of the message, in the form `label(payload)`;
    /// a message without payload is written `label()`.
    pub fn to_string(&self) -> (res: String)
        ensures
            res@ == self.label@ + "("@ + self.payload_text() + ")"@,
    {
        let mut text = self.label.clone();
        text.append("(");
        match self.payload {
            PayloadType::Data(_) => text.append("PhantomData"),
            PayloadType::Empty => {},
        }
        text.append(")");
        text
    }
}

impl<A> Clone for Message<A> {
    fn clone(&self) -> (res: Message<A>)
        ensures
            res@ == self@,
    {
        match self.payload {
            PayloadType::Data(_) => Message {
                label: self.label.clone(),
                payload: PayloadType::Data(PhantomData),
            },
            PayloadType::Empty => Message { label: self.label.clone(), payload: PayloadType::Empty },
        }
    }
}

impl<A> PartialEq for Message<A> {
    fn eq(&self, other: &Message<A>) -> (res: bool) {
        self.label == other.label && self.payload == other.payload
    }
}

impl<A> vstd::std_specs::cmp::PartialEqSpecImpl for Message<A> {
    open spec fn obeys_eq_spec() -> bool {
        true
    }

    open spec fn eq_spec(&self, other: &Message<A>) -> bool {
        self@ == other@
    }
}

impl<A> Eq for Message<A> {
}

/// A participant of a multiparty session.
///
/// The `Role` type represents an endpoint participant of a multiparty
/// session, and the `name` is used for uniquely identifying the
/// participant within the session.
///
/// Typical usage of a `Role` is to create once in a session, and reuse
/// the same `Role` variable in the session. Types, merge and projection
/// tell roles apart by their names.
#[derive(Debug)]
pub struct Role {
    name: String,
}

impl View for Role {
    type V = Seq<char>;

    /// A role is identified by its name.
    closed spec fn view(&self) -> Seq<char> {
        self.name@
    }
}

impl Role {
    /// A new, shared role with the given name.
    pub fn new(name: &str) -> (res: Rc<Role>)
        ensures
            res@ == name@,
    {
        Rc::new(Role { name: name.to_owned() })
    }

    /// The name of the role.
    pub fn name(&self) -> (res: &String)
        ensures
            res@ == self@,
    {
        &self.name
    }

    /// The text of the role: its name.
    pub fn to_string(&self) -> (res: String)
        ensures
            res@ == self@,
    {
        self.name.clone()
    }
}


/// Another handle on a shared role.
///
/// Calls `Rc::clone`, which makes a new pointer to the same allocation; the
/// contract claims only that the new handle holds the same role.
#[verifier::external_body]
pub(crate) fn share_role(r: &Rc<Role>) -> (res: Rc<Role>)
    ensures
        res == *r,
{
    Rc::clone(r)
}

// ---------------------------------------------------------------------------
// Choices: the (message, continuation) pairs of an interaction, a branching
// or a selection. A message occurs at most once; adding a message that is
// already there replaces its continuation, as with a map.
// ---------------------------------------------------------------------------

/// The position of the first choice whose message is `k`, or -1 if there is none.
pub open spec fn key_index<T>(s: Seq<(MessageView, T)>, k: MessageView) -> int
    decreases s.len(),
{
    if s.len() == 0 {
        -1
    } else if s[0].0 == k {
        0
    } else {
        let j = key_index(s.drop_first(), k);
        if j < 0 {
            -1
        } else {
            j + 1
        }
    }
}

/// Whether some choice has the message `k`.
pub open spec fn has_key<T>(s: Seq<(MessageView, T)>, k: MessageView) -> bool {
    key_index(s, k) >= 0
}

/// The choices after adding message `k` with continuation `v`: the
/// continuation of `k` is replaced where `k` is present, else the pair is
/// added at the end.
pub open spec fn insert_choice<T>(s: Seq<(MessageView, T)>, k: MessageView, v: T) -> Seq<(MessageView, T)> {
    let i = key_index(s, k);
    if i >= 0 {
        s.update(i, (k, v))
    } else {
        s.push((k, v))
    }
}

/// No message occurs twice among the choices.
pub open spec fn keys_distinct<T>(s: Seq<(MessageView, T)>) -> bool {
    forall|i: int, j: int| 0 <= i < j < s.len() ==> #[trigger] s[i].0 != #[trigger] s[j].0
}

/// The choices read as a map from message to continuation.
pub open spec fn choices_map<T>(s: Seq<(MessageView, T)>) -> Map<MessageView, T> {
    Map::new(|k: MessageView| has_key(s, k), |k: MessageView| s[key_index(s, k)].1)
}

/// `key_index` is the first position holding `k`.
pub proof fn lemma_key_index<T>(s: Seq<(MessageView, T)>, k: MessageView)
    ensures
        -1 <= key_index(s, k) < s.len(),
        key_index(s, k) >= 0 ==> s[key_index(s, k)].0 == k,
        forall|j: int| 0 <= j < s.len() && j < key_index(s, k) ==> s[j].0 != k,
        key_index(s, k) < 0 ==> forall|j: int| 0 <= j < s.len() ==> s[j].0 != k,
    decreases s.len(),
{
    if s.len() > 0 && s[0].0 != k {
        lemma_key_index(s.drop_first(), k);
        assert forall|j: int| 0 < j < s.len() implies s[j].0 == s.drop_first()[j - 1].0 by {}
    }
}

/// Adding a message keeps the messages distinct.
pub proof fn lemma_insert_choice_distinct<T>(s: Seq<(MessageView, T)>, k: MessageView, v: T)
    requires
        keys_distinct(s),
    ensures
        keys_distinct(insert_choice(s, k, v)),
{
    lemma_key_index(s, k);
    let r = insert_choice(s, k, v);
    assert forall|i: int, j: int| 0 <= i < j < r.len() implies #[trigger] r[i].0 != #[trigger] r[j].0 by {
        if key_index(s, k) < 0 && j == s.len() {
            assert(r[i].0 == s[i].0);
        }
    }
}

/// A message is among the choices exactly when some choice holds it.
pub proof fn lemma_has_key<T>(s: Seq<(MessageView, T)>, k: MessageView)
    ensures
        has_key(s, k) <==> exists|i: int| 0 <= i < s.len() && #[trigger] s[i].0 == k,
{
    lemma_key_index(s, k);
    if has_key(s, k) {
        let i = key_index(s, k);
        assert(s[i].0 == k);
    }
}

/// Adding message `k` with continuation `v` is inserting `k ↦ v` into the map
/// that the choices stand for.
pub proof fn lemma_insert_choice_map<T>(s: Seq<(MessageView, T)>, k: MessageView, v: T)
    ensures
        choices_map(insert_choice(s, k, v)) == choices_map(s).insert(k, v),
{
    let r = insert_choice(s, k, v);
    lemma_key_index(s, k);
    assert forall|x: MessageView| #[trigger] has_key(r, x) == (has_key(s, x) || x == k) by {
        lemma_key_index(s, x);
        lemma_key_index(r, x);
        if has_key(s, x) {
            let i = key_index(s, x);
            assert(r[i].0 == x);
        }
        if x == k && !has_key(s, k) {
            assert(r[s.len() as int].0 == k);
        }
    }
    assert forall|x: MessageView| has_key(r, x) implies #[trigger] r[key_index(r, x)].1 == choices_map(
        s,
    ).insert(k, v)[x] by {
        lemma_key_index(s, x);
        lemma_key_index(r, x);
        if x != k {
            let i = key_index(s, x);
            assert(r[i].0 == x);
            assert(key_index(r, x) == i);
        } else {
            let i = key_index(s, k);
            if i >= 0 {
                assert(r[i].0 == x);
                assert(key_index(r, x) == i);
            } else {
                assert(r[s.len() as int].0 == k);
                assert(key_index(r, x) == s.len());
            }
        }
    }
    assert(choices_map(r) =~= choices_map(s).insert(k, v));
}

/// The position of the first entry whose message is `m`.
pub(crate) fn find_key<A, T>(s: &Vec<(Message<A>, T)>, m: &Message<A>) -> (res: Option<usize>)
    ensures
        match res {
            Some(i) => i < s.len() && s@[i as int].0@ == m@ && forall|j: int|
                0 <= j < i ==> s@[j].0@ != m@,
            None => forall|j: int| 0 <= j < s.len() ==> s@[j].0@ != m@,
        },
{
    let mut i: usize = 0;
    while i < s.len()
        invariant
            i <= s.len(),
            forall|j: int| 0 <= j < i ==> s@[j].0@ != m@,
        decreases s.len() - i,
    {
        if s[i].0 == *m {
            return Some(i);
        }
        i = i + 1;
    }
    None
}

/// Adds message `m` with value `v`: replaces the value of the first entry
/// with message `m`, or pushes the pair where there is none.
pub(crate) fn insert_entry<A, T>(s: &mut Vec<(Message<A>, T)>, m: Message<A>, v: T) -> (res: Option<usize>)
    ensures
        match res {
            Some(i) => i < old(s).len() && old(s)@[i as int].0@ == m@ && (forall|j: int|
                0 <= j < i ==> old(s)@[j].0@ != m@) && final(s)@ == old(s)@.update(i as int, (m, v)),
            None => (forall|j: int| 0 <= j < old(s).len() ==> old(s)@[j].0@ != m@) && final(s)@
                == old(s)@.push((m, v)),
        },
{
    match find_key(s, &m) {
        Some(i) => {
            s.set(i, (m, v));
            Some(i)
        },
        None => {
            s.push((m, v));
            None
        },
    }
}

} // verus!
