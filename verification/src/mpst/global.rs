//! Global session types: the interactions of a whole session.
//!
//! > G ::= p → q : { lᵢ(Uᵢ).Gᵢ } where i ∈ I
//! >     | μt.G
//! >     | t
//! >     | end
use std::rc::Rc;
use vstd::prelude::*;
use crate::mpst::{
    Message, MessageView, Role, choices_map, lemma_insert_choice_map, share_role, insert_choice, insert_entry, key_index, keys_distinct,
    lemma_insert_choice_distinct, lemma_key_index,
};

verus! {

broadcast use vstd::std_specs::vec::group_vec_axioms;

/// The mathematical value of a global type: roles and type variables by
/// their names, messages by their label and payload kind.
pub enum GlobalView {
    Interact { p: Seq<char>, q: Seq<char>, g: Seq<(MessageView, GlobalView)> },
    Recur { t: Seq<char>, g: Box<GlobalView> },
    TypeVar { t: Seq<char> },
    End,
}

/// Global session types.
#[derive(Debug)]
pub enum Type<A> {
    /// Interaction Type between two `Role`s: `p → q : { lᵢ(Uᵢ).Gᵢ }`.
    ///
    /// `p` and `q` are sender and receiver `Role`s respectively, and `g`
    /// lists the messages `p` may send to `q`, each with the continuation
    /// `Type` of the interaction. A message occurs at most once.
    Interact { p: Rc<Role>, q: Rc<Role>, g: Vec<(Message<A>, Box<Type<A>>)> },
    /// Recursive Type for representing infinite behaviour: `μt.G`.
    Recur { t: String, g: Box<Type<A>> },
    /// Type Variable for use with `Recur`.
    TypeVar { t: String },
    /// Terminated Type with no continuation.
    End,
}

/// The value of a global type.
pub open spec fn global_view<A>(g: Type<A>) -> GlobalView
    decreases g, 0int,
{
    match g {
        Type::Interact { p, q, g } => GlobalView::Interact {
            p: p@,
            q: q@,
            g: choices_view(g@, g@.len() as int),
        },
        Type::Recur { t, g } => GlobalView::Recur { t: t@, g: Box::new(global_view(*g)) },
        Type::TypeVar { t } => GlobalView::TypeVar { t: t@ },
        Type::End => GlobalView::End,
    }
}

/// The value of the first `n` choices.
pub open spec fn choices_view<A>(s: Seq<(Message<A>, Box<Type<A>>)>, n: int) -> Seq<(MessageView, GlobalView)>
    decreases s, n,
{
    if n <= 0 || n > s.len() {
        Seq::empty()
    } else {
        choices_view(s, n - 1).push((s[n - 1].0@, global_view(*s[n - 1].1)))
    }
}

impl<A> View for Type<A> {
    type V = GlobalView;

    open spec fn view(&self) -> GlobalView {
        global_view(*self)
    }
}

/// The value of the choices, entry by entry.
pub proof fn lemma_choices_view<A>(s: Seq<(Message<A>, Box<Type<A>>)>, n: int)
    requires
        0 <= n <= s.len(),
    ensures
        choices_view(s, n).len() == n,
        forall|i: int| 0 <= i < n ==> #[trigger] choices_view(s, n)[i] == (s[i].0@, global_view(*s[i].1)),
    decreases n,
{
    if n > 0 {
        lemma_choices_view(s, n - 1);
    }
}

/// The type after adding message `m` with continuation `c`: an interaction
/// gets (or replaces) the choice; any other type is unchanged.
pub open spec fn add_message_spec(g: GlobalView, m: MessageView, c: GlobalView) -> GlobalView {
    match g {
        GlobalView::Interact { p, q, g } => GlobalView::Interact { p, q, g: insert_choice(g, m, c) },
        _ => g,
    }
}

/// Adding a message changes only an interaction: there the sender and the
/// receiver stay and the messages, read as a map, get `m ↦ c` (each message
/// still listed once where it was); any other global type is returned as it
/// is.
pub proof fn lemma_add_message_law(g: GlobalView, m: MessageView, c: GlobalView)
    ensures
        !(g is Interact) ==> add_message_spec(g, m, c) == g,
        g is Interact ==> {
            &&& add_message_spec(g, m, c) is Interact
            &&& add_message_spec(g, m, c)->Interact_p == g->Interact_p
            &&& add_message_spec(g, m, c)->Interact_q == g->Interact_q
            &&& choices_map(add_message_spec(g, m, c)->Interact_g) == choices_map(g->Interact_g).insert(m, c)
            &&& keys_distinct(g->Interact_g) ==> keys_distinct(add_message_spec(g, m, c)->Interact_g)
        },
{
    if let GlobalView::Interact { p, q, g: cs } = g {
        lemma_insert_choice_map(cs, m, c);
        if keys_distinct(cs) {
            lemma_insert_choice_distinct(cs, m, c);
        }
    }
}

/// Whether every interaction in `g` lists each message once.
pub open spec fn well_formed(g: GlobalView) -> bool
    decreases g,
{
    match g {
        GlobalView::Interact { g: cs, .. } => keys_distinct(cs) && forall|i: int|
            0 <= i < cs.len() ==> well_formed(#[trigger] cs[i].1),
        GlobalView::Recur { g, .. } => well_formed(*g),
        _ => true,
    }
}

/// Adding a message keeps a global type well formed.
pub proof fn lemma_add_message_well_formed(g: GlobalView, m: MessageView, c: GlobalView)
    requires
        well_formed(g),
        well_formed(c),
    ensures
        well_formed(add_message_spec(g, m, c)),
{
    if let GlobalView::Interact { p, q, g: cs } = g {
        lemma_insert_choice_distinct(cs, m, c);
        lemma_key_index(cs, m);
        let r = insert_choice(cs, m, c);
        assert forall|i: int| 0 <= i < r.len() implies well_formed(#[trigger] r[i].1) by {
            if i < cs.len() && i != key_index(cs, m) {
                assert(r[i] == cs[i]);
            }
        }
    }
}

/// The value of entries after `insert_entry` added message `m` with
/// continuation `c`: the choices with `m ↦ c` inserted.
proof fn lemma_insert_entry_view<A>(
    old_g: Seq<(Message<A>, Box<Type<A>>)>,
    new_g: Seq<(Message<A>, Box<Type<A>>)>,
    m: MessageView,
    c: GlobalView,
)
    requires
        (exists|i: int|
            0 <= i < old_g.len() && old_g[i].0@ == m && (forall|j: int| 0 <= j < i ==> old_g[j].0@ != m)
                && new_g.len() == old_g.len() && new_g[i].0@ == m && global_view(*new_g[i].1) == c && forall|j: int|
                0 <= j < old_g.len() && j != i ==> #[trigger] new_g[j] == old_g[j]) || ((forall|j: int|
            0 <= j < old_g.len() ==> old_g[j].0@ != m) && new_g.len() == old_g.len() + 1 && new_g[old_g.len() as int].0@
            == m && global_view(*new_g[old_g.len() as int].1) == c && forall|j: int|
            0 <= j < old_g.len() ==> #[trigger] new_g[j] == old_g[j]),
    ensures
        choices_view(new_g, new_g.len() as int) == insert_choice(choices_view(old_g, old_g.len() as int), m, c),
{
    let ov = choices_view(old_g, old_g.len() as int);
    lemma_choices_view(old_g, old_g.len() as int);
    lemma_choices_view(new_g, new_g.len() as int);
    lemma_key_index(ov, m);
    let i = key_index(ov, m);
    if i >= 0 {
        assert(old_g[i].0@ == m);
        assert forall|j: int| 0 <= j < i implies old_g[j].0@ != m by {
            assert(ov[j].0 != m);
        }
    } else {
        assert forall|j: int| 0 <= j < old_g.len() implies old_g[j].0@ != m by {
            assert(ov[j].0 != m);
        }
    }
    assert(choices_view(new_g, new_g.len() as int) =~= insert_choice(ov, m, c));
}

impl<A> Type<A> {
    /// An interaction with no messages yet; `p` sends to `q`.
    pub fn interaction(p: &Rc<Role>, q: &Rc<Role>) -> (res: Box<Type<A>>)
        ensures
            res@ == (GlobalView::Interact { p: p@, q: q@, g: Seq::empty() }),
            well_formed(res@),
    {
        let res = Box::new(Type::Interact { p: share_role(p), q: share_role(q), g: Vec::new() });
        assert(choices_view(Seq::<(Message<A>, Box<Type<A>>)>::empty(), 0) =~= Seq::empty());
        res
    }

    /// Adds a message `m_i` (and its continuation `g_i`) to an interaction
    /// and returns the updated type; a message already there gets the new
    /// continuation. Any other type is returned unmodified.
    pub fn add_message(interact_type: Box<Type<A>>, m_i: Message<A>, g_i: Box<Type<A>>) -> (res: Box<Type<A>>)
        ensures
            res@ == add_message_spec(interact_type@, m_i@, g_i@),
            well_formed(interact_type@) && well_formed(g_i@) ==> well_formed(res@),
    {
        proof {
            if well_formed(interact_type@) && well_formed(g_i@) {
                lemma_add_message_well_formed(interact_type@, m_i@, g_i@);
            }
        }
        let ghost cv = g_i@;
        let ghost mv = m_i@;
        match *interact_type {
            Type::Interact { p, q, mut g } => {
                let ghost old_g = g@;
                insert_entry(&mut g, m_i, g_i);
                proof {
                    lemma_insert_entry_view(old_g, g@, mv, cv);
                }
                Box::new(Type::Interact { p, q, g })
            },
            other => Box::new(other),
        }
    }

    /// A recursive type `μname.body`.
    pub fn recur(name: &str, body: Box<Type<A>>) -> (res: Box<Type<A>>)
        ensures
            res@ == (GlobalView::Recur { t: name@, g: Box::new(body@) }),
            well_formed(res@) == well_formed(body@),
    {
        Box::new(Type::Recur { t: name.to_owned(), g: body })
    }

    /// The type variable `name` of an enclosing recursion.
    pub fn typevar(name: &str) -> (res: Box<Type<A>>)
        ensures
            res@ == (GlobalView::TypeVar { t: name@ }),
            well_formed(res@),
    {
        Box::new(Type::TypeVar { t: name.to_owned() })
    }

    /// The terminated type. All types should end in an instance of this.
    pub fn end() -> (res: Box<Type<A>>)
        ensures
            res@ == GlobalView::End,
            well_formed(res@),
    {
        Box::new(Type::End)
    }
}

} // verus!
