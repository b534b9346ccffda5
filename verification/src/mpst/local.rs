//! Local session types: the behaviour of one participant.
//!
//! > S ::= p &ᵢ ? lᵢ(Uᵢ).Sᵢ where i ∈ I
//! >     | p ⊕ᵢ ! lᵢ(Uᵢ).Sᵢ where i ∈ I
//! >     | μt.S
//! >     | t
//! >     | end
use std::rc::Rc;
use vstd::prelude::*;
use crate::mpst::{
    Message, MessageView, Role, find_key, has_key, share_role, insert_choice, insert_entry, key_index, keys_distinct,
    lemma_insert_choice_distinct, lemma_key_index, choices_map, lemma_insert_choice_map,
};

verus! {

broadcast use vstd::std_specs::vec::group_vec_axioms;

/// The mathematical value of a local type: roles and type variables by
/// their names, messages by their label and payload kind.
pub enum LocalView {
    Branch { p: Seq<char>, s: Seq<(MessageView, LocalView)> },
    Select { p: Seq<char>, s: Seq<(MessageView, LocalView)> },
    Recur { t: Seq<char>, s: Box<LocalView> },
    TypeVar { t: Seq<char> },
    End,
}

/// Local session types.
#[derive(Debug)]
pub enum Type<A> {
    /// Branching Type receives a `Message` chosen by a `Role`.
    ///
    /// `p` is the `Role` that chooses, and `s` lists the messages that may
    /// be received, each with its continuation `Type`.
    Branch { p: Rc<Role>, s: Vec<(Message<A>, Box<Type<A>>)> },
    /// Selection Type sends a `Message` chosen by a `Role`.
    ///
    /// `p` is the `Role` the message goes to, and `s` lists the messages
    /// that may be sent, each with its continuation `Type`.
    Select { p: Rc<Role>, s: Vec<(Message<A>, Box<Type<A>>)> },
    /// Recursive Type for representing infinite behaviour: `μt.S`.
    Recur { t: String, s: Box<Type<A>> },
    /// Type Variable for use with `Recur`.
    TypeVar { t: String },
    /// Terminated Type with no continuation.
    End,
}

/// The value of a local type.
pub open spec fn local_view<A>(l: Type<A>) -> LocalView
    decreases l, 0int,
{
    match l {
        Type::Branch { p, s } => LocalView::Branch { p: p@, s: choices_view(s@, s@.len() as int) },
        Type::Select { p, s } => LocalView::Select { p: p@, s: choices_view(s@, s@.len() as int) },
        Type::Recur { t, s } => LocalView::Recur { t: t@, s: Box::new(local_view(*s)) },
        Type::TypeVar { t } => LocalView::TypeVar { t: t@ },
        Type::End => LocalView::End,
    }
}

/// The value of the first `n` choices.
pub open spec fn choices_view<A>(s: Seq<(Message<A>, Box<Type<A>>)>, n: int) -> Seq<(MessageView, LocalView)>
    decreases s, n,
{
    if n <= 0 || n > s.len() {
        Seq::empty()
    } else {
        choices_view(s, n - 1).push((s[n - 1].0@, local_view(*s[n - 1].1)))
    }
}

impl<A> View for Type<A> {
    type V = LocalView;

    open spec fn view(&self) -> LocalView {
        local_view(*self)
    }
}

/// The value of the choices, entry by entry.
pub proof fn lemma_choices_view<A>(s: Seq<(Message<A>, Box<Type<A>>)>, n: int)
    requires
        0 <= n <= s.len(),
    ensures
        choices_view(s, n).len() == n,
        forall|i: int| 0 <= i < n ==> #[trigger] choices_view(s, n)[i] == (s[i].0@, local_view(*s[i].1)),
    decreases n,
{
    if n > 0 {
        lemma_choices_view(s, n - 1);
    }
}

/// The value of choices after an entry is replaced or added.
proof fn lemma_choices_view_insert<A>(
    old_s: Seq<(Message<A>, Box<Type<A>>)>,
    new_s: Seq<(Message<A>, Box<Type<A>>)>,
    k: MessageView,
    v: LocalView,
)
    requires
        forall|i: int| 0 <= i < old_s.len() && old_s[i].0@ == k && (forall|j: int| 0 <= j < i ==> old_s[j].0@ != k)
            ==> new_s.len() == old_s.len() && new_s[i].0@ == k && local_view(*new_s[i].1) == v
                && forall|j: int| 0 <= j < old_s.len() && j != i ==> #[trigger] new_s[j] == old_s[j],
        (forall|j: int| 0 <= j < old_s.len() ==> old_s[j].0@ != k) ==> new_s.len() == old_s.len() + 1
            && new_s[old_s.len() as int].0@ == k && local_view(*new_s[old_s.len() as int].1) == v
            && forall|j: int| 0 <= j < old_s.len() ==> #[trigger] new_s[j] == old_s[j],
    ensures
        choices_view(new_s, new_s.len() as int) == insert_choice(choices_view(old_s, old_s.len() as int), k, v),
{
    let ov = choices_view(old_s, old_s.len() as int);
    lemma_choices_view(old_s, old_s.len() as int);
    lemma_key_index(ov, k);
    let i = key_index(ov, k);
    if i >= 0 {
        assert(old_s[i].0@ == k);
        assert forall|j: int| 0 <= j < i implies old_s[j].0@ != k by {
            assert(ov[j].0 != k);
        }
    } else {
        assert forall|j: int| 0 <= j < old_s.len() implies old_s[j].0@ != k by {
            assert(ov[j].0 != k);
        }
    }
    lemma_choices_view(new_s, new_s.len() as int);
    assert(choices_view(new_s, new_s.len() as int) =~= insert_choice(ov, k, v));
}

/// Whether every branching and selection in `l` lists each message once.
pub open spec fn well_formed(l: LocalView) -> bool
    decreases l,
{
    match l {
        LocalView::Branch { s, .. } => keys_distinct(s) && forall|i: int|
            0 <= i < s.len() ==> well_formed(#[trigger] s[i].1),
        LocalView::Select { s, .. } => keys_distinct(s) && forall|i: int|
            0 <= i < s.len() ==> well_formed(#[trigger] s[i].1),
        LocalView::Recur { s, .. } => well_formed(*s),
        _ => true,
    }
}

/// Whether two local types are the same up to the order of their choices:
/// the same kind, the same role or type variable, and, for a branching or
/// selection, the same messages with equivalent continuations (a message
/// listed twice counts with its first continuation).
pub open spec fn equiv(a: LocalView, b: LocalView) -> bool
    decreases a, 0int,
{
    match a {
        LocalView::Branch { p, s } => match b {
            LocalView::Branch { p: p_b, s: s_b } => p == p_b && choices_equiv(s, s_b),
            _ => false,
        },
        LocalView::Select { p, s } => match b {
            LocalView::Select { p: p_b, s: s_b } => p == p_b && choices_equiv(s, s_b),
            _ => false,
        },
        LocalView::Recur { t, s } => match b {
            LocalView::Recur { t: t_b, s: s_b } => t == t_b && equiv(*s, *s_b),
            _ => false,
        },
        LocalView::TypeVar { t } => match b {
            LocalView::TypeVar { t: t_b } => t == t_b,
            _ => false,
        },
        LocalView::End => b is End,
    }
}

/// The choice part of `equiv`: the messages of `s_b` are messages of `s`,
/// and each message of `s` is a message of `s_b` with an equivalent
/// continuation.
pub open spec fn choices_equiv(s: Seq<(MessageView, LocalView)>, s_b: Seq<(MessageView, LocalView)>) -> bool
    decreases s, 0int,
{
    (forall|j: int| 0 <= j < s_b.len() ==> has_key(s, #[trigger] s_b[j].0)) && (forall|i: int|
        #![trigger s[i]]
        0 <= i < s.len() && key_index(s, s[i].0) == i ==> has_key(s_b, s[i].0) && equiv(
            s[i].1,
            s_b[key_index(s_b, s[i].0)].1,
        ))
}

/// Every local type is equivalent to itself.
pub proof fn lemma_equiv_reflexive(a: LocalView)
    ensures
        equiv(a, a),
    decreases a,
{
    match a {
        LocalView::Branch { p, s } => {
            assert forall|j: int| 0 <= j < s.len() implies has_key(s, #[trigger] s[j].0) by {
                lemma_key_index(s, s[j].0);
            }
            assert forall|i: int| #![trigger s[i]] 0 <= i < s.len() && key_index(s, s[i].0) == i implies has_key(s, s[i].0)
                && equiv(s[i].1, s[key_index(s, s[i].0)].1) by {
                lemma_equiv_reflexive(s[i].1);
            }
            assert(choices_equiv(s, s));
        },
        LocalView::Select { p, s } => {
            assert forall|j: int| 0 <= j < s.len() implies has_key(s, #[trigger] s[j].0) by {
                lemma_key_index(s, s[j].0);
            }
            assert forall|i: int| #![trigger s[i]] 0 <= i < s.len() && key_index(s, s[i].0) == i implies has_key(s, s[i].0)
                && equiv(s[i].1, s[key_index(s, s[i].0)].1) by {
                lemma_equiv_reflexive(s[i].1);
            }
            assert(choices_equiv(s, s));
        },
        LocalView::Recur { t, s } => {
            lemma_equiv_reflexive(*s);
        },
        _ => {},
    }
}

/// Equivalence of local types is symmetric.
pub proof fn lemma_equiv_symmetric(a: LocalView, b: LocalView)
    requires
        equiv(a, b),
    ensures
        equiv(b, a),
    decreases a,
{
    match (a, b) {
        (LocalView::Branch { p, s }, LocalView::Branch { p: p_b, s: s_b }) => {
            lemma_choices_equiv_symmetric(s, s_b);
        },
        (LocalView::Select { p, s }, LocalView::Select { p: p_b, s: s_b }) => {
            lemma_choices_equiv_symmetric(s, s_b);
        },
        (LocalView::Recur { t, s }, LocalView::Recur { t: t_b, s: s_b }) => {
            lemma_equiv_symmetric(*s, *s_b);
        },
        _ => {},
    }
}

proof fn lemma_choices_equiv_symmetric(s: Seq<(MessageView, LocalView)>, s_b: Seq<(MessageView, LocalView)>)
    requires
        choices_equiv(s, s_b),
    ensures
        choices_equiv(s_b, s),
    decreases s,
{
    assert forall|j: int| 0 <= j < s.len() implies has_key(s_b, #[trigger] s[j].0) by {
        lemma_key_index(s, s[j].0);
        let i0 = key_index(s, s[j].0);
        assert(s[i0].0 == s[j].0);
    }
    assert forall|i: int| #![trigger s_b[i]] 0 <= i < s_b.len() && key_index(s_b, s_b[i].0) == i implies has_key(s, s_b[i].0)
        && equiv(s_b[i].1, s[key_index(s, s_b[i].0)].1) by {
        let k = s_b[i].0;
        lemma_key_index(s, k);
        let i0 = key_index(s, k);
        assert(s[i0].0 == k);
        lemma_equiv_symmetric(s[i0].1, s_b[key_index(s_b, k)].1);
    }
}

/// Equivalence of local types is transitive, so `equals` is an equivalence
/// relation.
pub proof fn lemma_equiv_transitive(a: LocalView, b: LocalView, c: LocalView)
    requires
        equiv(a, b),
        equiv(b, c),
    ensures
        equiv(a, c),
    decreases a,
{
    match (a, b, c) {
        (LocalView::Branch { s, .. }, LocalView::Branch { s: s_b, .. }, LocalView::Branch { s: s_c, .. }) => {
            lemma_choices_equiv_transitive(s, s_b, s_c);
        },
        (LocalView::Select { s, .. }, LocalView::Select { s: s_b, .. }, LocalView::Select { s: s_c, .. }) => {
            lemma_choices_equiv_transitive(s, s_b, s_c);
        },
        (LocalView::Recur { s, .. }, LocalView::Recur { s: s_b, .. }, LocalView::Recur { s: s_c, .. }) => {
            lemma_equiv_transitive(*s, *s_b, *s_c);
        },
        _ => {},
    }
}

proof fn lemma_choices_equiv_transitive(
    s: Seq<(MessageView, LocalView)>,
    s_b: Seq<(MessageView, LocalView)>,
    s_c: Seq<(MessageView, LocalView)>,
)
    requires
        choices_equiv(s, s_b),
        choices_equiv(s_b, s_c),
    ensures
        choices_equiv(s, s_c),
    decreases s,
{
    assert forall|j: int| 0 <= j < s_c.len() implies has_key(s, #[trigger] s_c[j].0) by {
        let k = s_c[j].0;
        lemma_key_index(s_b, k);
        let jb = key_index(s_b, k);
        assert(s_b[jb].0 == k);
    }
    assert forall|i: int| #![trigger s[i]] 0 <= i < s.len() && key_index(s, s[i].0) == i implies has_key(s_c, s[i].0)
        && equiv(s[i].1, s_c[key_index(s_c, s[i].0)].1) by {
        let k = s[i].0;
        lemma_key_index(s_b, k);
        let kb = key_index(s_b, k);
        assert(s_b[kb].0 == k);
        assert(key_index(s_b, s_b[kb].0) == kb);
        lemma_equiv_transitive(s[i].1, s_b[kb].1, s_c[key_index(s_c, k)].1);
    }
}

/// Whether every branching and selection in `l` has at least one choice.
pub open spec fn nonempty(l: LocalView) -> bool
    decreases l,
{
    match l {
        LocalView::Branch { s, .. } => s.len() > 0 && forall|i: int| 0 <= i < s.len() ==> nonempty(#[trigger] s[i].1),
        LocalView::Select { s, .. } => s.len() > 0 && forall|i: int| 0 <= i < s.len() ==> nonempty(#[trigger] s[i].1),
        LocalView::Recur { s, .. } => nonempty(*s),
        _ => true,
    }
}

/// The type after adding message `m` with continuation `c`: a branching or
/// selection gets (or replaces) the choice; any other type is unchanged.
pub open spec fn add_message_spec(l: LocalView, m: MessageView, c: LocalView) -> LocalView {
    match l {
        LocalView::Branch { p, s } => LocalView::Branch { p, s: insert_choice(s, m, c) },
        LocalView::Select { p, s } => LocalView::Select { p, s: insert_choice(s, m, c) },
        _ => l,
    }
}

/// Whether two local types are of the same kind with the same role (for a
/// branching or selection) or variable (for a recursion or type variable).
pub open spec fn same_head(a: LocalView, b: LocalView) -> bool {
    match (a, b) {
        (LocalView::Branch { p, .. }, LocalView::Branch { p: p_b, .. }) => p == p_b,
        (LocalView::Select { p, .. }, LocalView::Select { p: p_b, .. }) => p == p_b,
        (LocalView::Recur { t, .. }, LocalView::Recur { t: t_b, .. }) => t == t_b,
        (LocalView::TypeVar { t }, LocalView::TypeVar { t: t_b }) => t == t_b,
        (LocalView::End, LocalView::End) => true,
        _ => false,
    }
}

/// The choices of a branching or selection; none for any other type.
pub open spec fn choices_of(l: LocalView) -> Seq<(MessageView, LocalView)> {
    match l {
        LocalView::Branch { s, .. } => s,
        LocalView::Select { s, .. } => s,
        _ => Seq::empty(),
    }
}

/// Equivalent local types are of the same kind, towards or from the same
/// role, or on the same variable.
pub proof fn lemma_equiv_same_head(a: LocalView, b: LocalView)
    requires
        equiv(a, b),
    ensures
        same_head(a, b),
{
}

/// Adding a message changes only a branching or a selection: there the
/// role stays and the choices, read as a map, get `m ↦ c` (each message
/// still listed once where it was); any other local type is returned as it
/// is.
pub proof fn lemma_add_message_law(l: LocalView, m: MessageView, c: LocalView)
    ensures
        !(l is Branch || l is Select) ==> add_message_spec(l, m, c) == l,
        l is Branch || l is Select ==> {
            &&& same_head(add_message_spec(l, m, c), l)
            &&& choices_map(choices_of(add_message_spec(l, m, c))) == choices_map(choices_of(l)).insert(m, c)
            &&& keys_distinct(choices_of(l)) ==> keys_distinct(choices_of(add_message_spec(l, m, c)))
        },
{
    if l is Branch || l is Select {
        lemma_insert_choice_map(choices_of(l), m, c);
        if keys_distinct(choices_of(l)) {
            lemma_insert_choice_distinct(choices_of(l), m, c);
        }
    }
}

/// The number of continuations: the choices of a branching or selection, 1 otherwise.
pub open spec fn local_len(l: LocalView) -> int {
    match l {
        LocalView::Branch { s, .. } => s.len() as int,
        LocalView::Select { s, .. } => s.len() as int,
        _ => 1,
    }
}

/// Adding a message keeps a type well formed.
pub proof fn lemma_add_message_well_formed(l: LocalView, m: MessageView, c: LocalView)
    requires
        well_formed(l),
        well_formed(c),
    ensures
        well_formed(add_message_spec(l, m, c)),
{
    match l {
        LocalView::Branch { p, s } => {
            lemma_insert_choice_distinct(s, m, c);
            lemma_key_index(s, m);
            let r = insert_choice(s, m, c);
            assert forall|i: int| 0 <= i < r.len() implies well_formed(#[trigger] r[i].1) by {
                if i < s.len() && i != key_index(s, m) {
                    assert(r[i] == s[i]);
                }
            }
        },
        LocalView::Select { p, s } => {
            lemma_insert_choice_distinct(s, m, c);
            lemma_key_index(s, m);
            let r = insert_choice(s, m, c);
            assert forall|i: int| 0 <= i < r.len() implies well_formed(#[trigger] r[i].1) by {
                if i < s.len() && i != key_index(s, m) {
                    assert(r[i] == s[i]);
                }
            }
        },
        _ => {},
    }
}

impl<A> Type<A> {
    /// A branching with no choices yet; `p` is the role that chooses.
    pub fn branch(p: &Rc<Role>) -> (res: Box<Type<A>>)
        ensures
            res@ == (LocalView::Branch { p: p@, s: Seq::empty() }),
            well_formed(res@),
    {
        let res = Box::new(Type::Branch { p: share_role(p), s: Vec::new() });
        assert(choices_view(Seq::<(Message<A>, Box<Type<A>>)>::empty(), 0) =~= Seq::empty());
        res
    }

    /// A selection with no choices yet; `p` is the role the message goes to.
    pub fn select(p: &Rc<Role>) -> (res: Box<Type<A>>)
        ensures
            res@ == (LocalView::Select { p: p@, s: Seq::empty() }),
            well_formed(res@),
    {
        let res = Box::new(Type::Select { p: share_role(p), s: Vec::new() });
        assert(choices_view(Seq::<(Message<A>, Box<Type<A>>)>::empty(), 0) =~= Seq::empty());
        res
    }

    /// Adds a message `m_i` (and its continuation `s_i`) to a branching or
    /// a selection and returns the updated type; a message already there
    /// gets the new continuation. Any other type is returned unmodified.
    pub fn add_message(selbr_type: Box<Type<A>>, m_i: Message<A>, s_i: Box<Type<A>>) -> (res: Box<Type<A>>)
        ensures
            res@ == add_message_spec(selbr_type@, m_i@, s_i@),
            well_formed(selbr_type@) && well_formed(s_i@) ==> well_formed(res@),
    {
        proof {
            if well_formed(selbr_type@) && well_formed(s_i@) {
                lemma_add_message_well_formed(selbr_type@, m_i@, s_i@);
            }
        }
        let ghost cv = s_i@;
        let ghost mv = m_i@;
        match *selbr_type {
            Type::Branch { p, mut s } => {
                let ghost old_s = s@;
                insert_entry(&mut s, m_i, s_i);
                proof {
                    lemma_choices_view_insert(old_s, s@, mv, cv);
                }
                Box::new(Type::Branch { p, s })
            },
            Type::Select { p, mut s } => {
                let ghost old_s = s@;
                insert_entry(&mut s, m_i, s_i);
                proof {
                    lemma_choices_view_insert(old_s, s@, mv, cv);
                }
                Box::new(Type::Select { p, s })
            },
            other => Box::new(other),
        }
    }

    /// The number of choices of a branching or selection; 1 for any other
    /// type (one continuation).
    pub fn len(&self) -> (res: usize)
        ensures
            res == local_len(self@),
    {
        proof {
            match self {
                Type::Branch { s, .. } => lemma_choices_view(s@, s@.len() as int),
                Type::Select { s, .. } => lemma_choices_view(s@, s@.len() as int),
                _ => {},
            }
        }
        match self {
            Type::Branch { s, .. } => s.len(),
            Type::Select { s, .. } => s.len(),
            _ => 1,
        }
    }

    /// A recursive type `μname.body`.
    pub fn recur(name: &str, body: Box<Type<A>>) -> (res: Box<Type<A>>)
        ensures
            res@ == (LocalView::Recur { t: name@, s: Box::new(body@) }),
            well_formed(res@) == well_formed(body@),
    {
        Box::new(Type::Recur { t: name.to_owned(), s: body })
    }

    /// The type variable `name` of an enclosing recursion.
    pub fn typevar(name: &str) -> (res: Box<Type<A>>)
        ensures
            res@ == (LocalView::TypeVar { t: name@ }),
            well_formed(res@),
    {
        Box::new(Type::TypeVar { t: name.to_owned() })
    }

    /// The terminated type.
    pub fn end() -> (res: Box<Type<A>>)
        ensures
            res@ == LocalView::End,
            well_formed(res@),
    {
        Box::new(Type::End)
    }

    /// A copy of the type, sharing the roles.
    pub fn deep_clone(&self) -> (res: Type<A>)
        ensures
            res@ == self@,
        decreases self,
    {
        match self {
            Type::Branch { p, s } => Type::Branch { p: share_role(p), s: clone_choices(s) },
            Type::Select { p, s } => Type::Select { p: share_role(p), s: clone_choices(s) },
            Type::Recur { t, s } => Type::Recur { t: t.clone(), s: Box::new((**s).deep_clone()) },
            Type::TypeVar { t } => Type::TypeVar { t: t.clone() },
            Type::End => Type::End,
        }
    }
}

impl<A> Type<A> {
    /// Whether two local types are the same up to the order in which their
    /// messages were added: the same kind, the same role or type variable by
    /// name, and the same messages with equal continuations.
    pub fn equals(&self, other: &Type<A>) -> (res: bool)
        ensures
            res == equiv(self@, other@),
        decreases self,
    {
        match self {
            Type::Branch { p, s } => match other {
                Type::Branch { p: p_r, s: s_r } => {
                    proof {
                        assert(equiv(self@, other@) == (p@ == p_r@ && choices_equiv(
                            choices_view(s@, s@.len() as int),
                            choices_view(s_r@, s_r@.len() as int),
                        )));
                    }
                    *p.name() == *p_r.name() && same_choices(s, s_r)
                },
                _ => false,
            },
            Type::Select { p, s } => match other {
                Type::Select { p: p_r, s: s_r } => {
                    proof {
                        assert(equiv(self@, other@) == (p@ == p_r@ && choices_equiv(
                            choices_view(s@, s@.len() as int),
                            choices_view(s_r@, s_r@.len() as int),
                        )));
                    }
                    *p.name() == *p_r.name() && same_choices(s, s_r)
                },
                _ => false,
            },
            Type::Recur { t, s } => match other {
                Type::Recur { t: t_r, s: s_r } => *t == *t_r && (**s).equals(&**s_r),
                _ => false,
            },
            Type::TypeVar { t } => match other {
                Type::TypeVar { t: t_r } => *t == *t_r,
                _ => false,
            },
            Type::End => match other {
                Type::End => true,
                _ => false,
            },
        }
    }
}

#[verifier::loop_isolation(false)]
fn same_choices<A>(s: &Vec<(Message<A>, Box<Type<A>>)>, s_r: &Vec<(Message<A>, Box<Type<A>>)>) -> (res: bool)
    ensures
        res == choices_equiv(choices_view(s@, s@.len() as int), choices_view(s_r@, s_r@.len() as int)),
    decreases s@, 0int,
{
    let ghost sv = choices_view(s@, s@.len() as int);
    let ghost srv = choices_view(s_r@, s_r@.len() as int);
    proof {
        lemma_choices_view(s@, s@.len() as int);
        lemma_choices_view(s_r@, s_r@.len() as int);
    }
    let mut j: usize = 0;
    while j < s_r.len()
        invariant
            j <= s_r.len(),
            forall|x: int| 0 <= x < j ==> has_key(sv, #[trigger] srv[x].0),
        decreases s_r.len() - j,
    {
        let m = &s_r[j].0;
        assert(srv[j as int].0 == m@);
        proof {
            lemma_key_index(sv, m@);
        }
        match find_key(s, m) {
            None => {
                return false;
            },
            Some(f) => {
                assert(sv[f as int].0 == m@);
            },
        }
        j = j + 1;
    }
    let mut i: usize = 0;
    while i < s.len()
        invariant
            i <= s.len(),
            forall|x: int| 0 <= x < s_r@.len() ==> has_key(sv, #[trigger] srv[x].0),
            forall|x: int|
                #![trigger sv[x]]
                0 <= x < i && key_index(sv, sv[x].0) == x ==> has_key(srv, sv[x].0) && equiv(
                    sv[x].1,
                    srv[key_index(srv, sv[x].0)].1,
                ),
        decreases s.len() - i,
    {
        let m = &s[i].0;
        assert(sv[i as int] == (m@, s@[i as int].1@));
        proof {
            lemma_key_index(sv, m@);
            lemma_key_index(srv, m@);
        }
        let first = find_key(s, m);
        match first {
            Some(f) => {
                if f == i {
                    assert(key_index(sv, m@) == i);
                    match find_key(s_r, m) {
                        None => {
                            assert(!has_key(srv, m@));
                            return false;
                        },
                        Some(g) => {
                            assert(srv[g as int].0 == m@);
                            assert(key_index(srv, m@) == g);
                            if !s[i].1.equals(&s_r[g].1) {
                                return false;
                            }
                        },
                    }
                } else {
                    assert(sv[f as int].0 == m@);
                    assert(key_index(sv, m@) != i);
                }
            },
            None => {},
        }
        i = i + 1;
    }
    true
}

fn clone_choices<A>(s: &Vec<(Message<A>, Box<Type<A>>)>) -> (res: Vec<(Message<A>, Box<Type<A>>)>)
    ensures
        choices_view(res@, res@.len() as int) == choices_view(s@, s@.len() as int),
    decreases s@, 0int,
{
    let mut res: Vec<(Message<A>, Box<Type<A>>)> = Vec::new();
    let mut i: usize = 0;
    while i < s.len()
        invariant
            i <= s.len(),
            res@.len() == i,
            forall|j: int| 0 <= j < i ==> #[trigger] res@[j].0@ == s@[j].0@ && local_view(*res@[j].1) == local_view(*s@[j].1),
        decreases s.len() - i,
    {
        let c = s[i].1.deep_clone();
        res.push((s[i].0.clone(), Box::new(c)));
        i = i + 1;
    }
    proof {
        lemma_choices_view(s@, s@.len() as int);
        lemma_choices_view(res@, res@.len() as int);
        assert(choices_view(res@, res@.len() as int) =~= choices_view(s@, s@.len() as int));
    }
    res
}

impl<A> Clone for Type<A> {
    /// A copy of the type, sharing the roles.
    fn clone(&self) -> (res: Type<A>)
        ensures
            res@ == self@,
    {
        self.deep_clone()
    }
}

} // verus!
