//! Projection of a global type onto one role, and the merge of local types.
use std::rc::Rc;
use vstd::prelude::*;
use crate::mpst::{MessageView, Role, find_key, insert_choice, key_index, lemma_key_index};
use crate::mpst::global::{GlobalView, Type as G};
use crate::mpst::global;
use crate::mpst::local::{
    LocalView, Type as S, choices_equiv, choices_of, equiv, lemma_equiv_reflexive, lemma_equiv_same_head,
    lemma_equiv_symmetric, lemma_equiv_transitive, local_len, nonempty, same_head, well_formed,
};
use crate::mpst::{
    choices_map, has_key, keys_distinct, lemma_has_key, lemma_insert_choice_distinct,
    lemma_insert_choice_map,
};
use crate::mpst::local;

verus! {

broadcast use vstd::std_specs::vec::group_vec_axioms;

// ---------------------------------------------------------------------------
// The merge operator on local types
// ---------------------------------------------------------------------------

/// The merge `l ⊓ r` of two local types, `None` where it is undefined.
///
/// Two branchings from the same role merge into a branching with the
/// choices of both: a message that both have continues with the merge of
/// its two continuations, and the merge is undefined where one of those is
/// (`branches_agree`). Two selections merge only when they are the same up
/// to the order of their choices (`equiv`), into the left one. Recursions on
/// the same variable merge their bodies; equal type variables and two
/// `end`s merge into themselves. Anything else is undefined.
pub open spec fn merge_spec(l: LocalView, r: LocalView) -> Option<LocalView>
    decreases l, 0int,
{
    match l {
        LocalView::Branch { p, s } => match r {
            LocalView::Branch { p: p_r, s: s_r } => if p == p_r && branches_agree(s, s_r) {
                Some(
                    LocalView::Branch {
                        p,
                        s: branch_right_only(merge_branch_left(s, s_r, s.len() as int), s, s_r, s_r.len() as int),
                    },
                )
            } else {
                None
            },
            _ => None,
        },
        LocalView::Select { .. } => match r {
            LocalView::Select { .. } => if equiv(l, r) {
                Some(l)
            } else {
                None
            },
            _ => None,
        },
        LocalView::Recur { t, s } => match r {
            LocalView::Recur { t: t_r, s: s_r } => if t == t_r {
                match merge_spec(*s, *s_r) {
                    Some(m) => Some(LocalView::Recur { t, s: Box::new(m) }),
                    None => None,
                }
            } else {
                None
            },
            _ => None,
        },
        LocalView::TypeVar { t } => match r {
            LocalView::TypeVar { t: t_r } => if t == t_r {
                Some(LocalView::TypeVar { t })
            } else {
                None
            },
            _ => None,
        },
        LocalView::End => match r {
            LocalView::End => Some(LocalView::End),
            _ => None,
        },
    }
}

/// Every message that both branchings have continues in both in a way
/// that merges.
pub open spec fn branches_agree(s: Seq<(MessageView, LocalView)>, s_r: Seq<(MessageView, LocalView)>) -> bool
    decreases s, 0int,
{
    forall|i: int|
        #![trigger s[i]]
        0 <= i < s.len() && has_key(s_r, s[i].0) ==> merge_spec(s[i].1, s_r[key_index(s_r, s[i].0)].1) is Some
}

/// The first `n` choices of the left branching, a message that the right
/// one has too continuing with the merge of the two continuations.
pub open spec fn merge_branch_left(
    s: Seq<(MessageView, LocalView)>,
    s_r: Seq<(MessageView, LocalView)>,
    n: int,
) -> Seq<(MessageView, LocalView)>
    decreases s, n,
{
    if n <= 0 || n > s.len() {
        Seq::empty()
    } else {
        let acc = merge_branch_left(s, s_r, n - 1);
        let m = s[n - 1].0;
        if has_key(s_r, m) {
            insert_choice(acc, m, merge_spec(s[n - 1].1, s_r[key_index(s_r, m)].1).unwrap())
        } else {
            insert_choice(acc, m, s[n - 1].1)
        }
    }
}

/// `acc` with the first `n` choices of `s_r` whose message `s` lacks.
pub open spec fn branch_right_only(
    acc: Seq<(MessageView, LocalView)>,
    s: Seq<(MessageView, LocalView)>,
    s_r: Seq<(MessageView, LocalView)>,
    n: int,
) -> Seq<(MessageView, LocalView)>
    decreases n,
{
    if n <= 0 || n > s_r.len() {
        acc
    } else {
        let a = branch_right_only(acc, s, s_r, n - 1);
        if key_index(s, s_r[n - 1].0) < 0 {
            insert_choice(a, s_r[n - 1].0, s_r[n - 1].1)
        } else {
            a
        }
    }
}

/// The projection `G↾r` of a global type onto the role named `r`, `None`
/// where it is undefined.
///
/// - `p → q : {lᵢ.Gᵢ}` is undefined where some continuation's projection
///   `Gᵢ↾r` is. Otherwise it projects onto `p` as the selection towards `q`
///   of the messages with those projections, onto `q` as the branching from
///   `p` of the same (either undefined when there is no message), and onto
///   a third role as the only continuation's projection where there is
///   one, else as the merge `G₁↾r ⊓ … ⊓ Gₙ↾r`.
/// - `μt.G` projects to `μt.(G↾r)`; `t` and `end` project to themselves.
pub open spec fn project_spec(g: GlobalView, r: Seq<char>) -> Option<LocalView>
    decreases g, 0int,
{
    match g {
        GlobalView::Interact { p, q, g: cs } => {
            if r == p {
                match project_choices(cs, r, cs.len() as int) {
                    Some(s) => if s.len() > 0 {
                        Some(LocalView::Select { p: q, s })
                    } else {
                        None
                    },
                    None => None,
                }
            } else if r == q {
                match project_choices(cs, r, cs.len() as int) {
                    Some(s) => if s.len() > 0 {
                        Some(LocalView::Branch { p, s })
                    } else {
                        None
                    },
                    None => None,
                }
            } else if cs.len() == 1 {
                project_spec(cs[0].1, r)
            } else {
                match project_merged(cs, r, cs.len() as int) {
                    Some(l) => if local_len(l) > 0 {
                        Some(l)
                    } else {
                        None
                    },
                    None => None,
                }
            }
        },
        GlobalView::Recur { t, g: body } => match project_spec(*body, r) {
            Some(l) => Some(LocalView::Recur { t, s: Box::new(l) }),
            None => None,
        },
        GlobalView::TypeVar { t } => Some(LocalView::TypeVar { t }),
        GlobalView::End => Some(LocalView::End),
    }
}

/// The projections of the first `n` continuations, each with its message;
/// `None` where one of them is undefined.
pub open spec fn project_choices(cs: Seq<(MessageView, GlobalView)>, r: Seq<char>, n: int) -> Option<
    Seq<(MessageView, LocalView)>,
>
    decreases cs, n,
{
    if n <= 0 || n > cs.len() {
        Some(Seq::empty())
    } else {
        match (project_choices(cs, r, n - 1), project_spec(cs[n - 1].1, r)) {
            (Some(acc), Some(l)) => Some(insert_choice(acc, cs[n - 1].0, l)),
            _ => None,
        }
    }
}

/// The merge of the projections of the first `n` continuations, in order;
/// `None` where one of them or a merge is undefined.
pub open spec fn project_merged(cs: Seq<(MessageView, GlobalView)>, r: Seq<char>, n: int) -> Option<
    LocalView,
>
    decreases cs, n,
{
    if n <= 0 || n > cs.len() {
        None
    } else if n == 1 {
        project_spec(cs[0].1, r)
    } else {
        match (project_merged(cs, r, n - 1), project_spec(cs[n - 1].1, r)) {
            (Some(m), Some(l)) => merge_spec(m, l),
            _ => None,
        }
    }
}

// ---------------------------------------------------------------------------
// Laws of merge
// ---------------------------------------------------------------------------

/// In choices with distinct messages, each message is found at its own position.
proof fn lemma_key_index_distinct<T>(s: Seq<(MessageView, T)>, i: int)
    requires
        keys_distinct(s),
        0 <= i < s.len(),
    ensures
        key_index(s, s[i].0) == i,
{
    lemma_key_index(s, s[i].0);
    let j = key_index(s, s[i].0);
    if j >= 0 && j != i {
        if j < i {
            assert(s[j].0 != s[i].0);
        }
    }
}

/// Adding the next choice of `s` to its first `n` choices extends the prefix.
proof fn lemma_insert_next<T>(s: Seq<(MessageView, T)>, n: int)
    requires
        keys_distinct(s),
        0 <= n < s.len(),
    ensures
        insert_choice(s.take(n), s[n].0, s[n].1) == s.take(n + 1),
{
    let t = s.take(n);
    lemma_key_index(t, s[n].0);
    if key_index(t, s[n].0) >= 0 {
        assert(t[key_index(t, s[n].0)].0 == s[key_index(t, s[n].0)].0);
    }
    assert(insert_choice(t, s[n].0, s[n].1) =~= s.take(n + 1));
}

/// Merging a well-formed local type with itself gives it back: `l ⊓ l = l`.
pub proof fn lemma_merge_idempotent(l: LocalView)
    requires
        well_formed(l),
    ensures
        merge_spec(l, l) == Some(l),
    decreases l, 0int,
{
    match l {
        LocalView::Branch { p, s } => {
            assert forall|i: int| #![trigger s[i]] 0 <= i < s.len() && has_key(s, s[i].0) implies merge_spec(
                s[i].1,
                s[key_index(s, s[i].0)].1,
            ) is Some by {
                lemma_key_index_distinct(s, i);
                lemma_merge_idempotent(s[i].1);
            }
            assert(branches_agree(s, s));
            lemma_merge_branch_left_self(s, s.len() as int);
            assert(s.take(s.len() as int) =~= s);
            lemma_branch_right_only_self(s, s, s.len() as int);
        },
        LocalView::Select { .. } => {
            lemma_equiv_reflexive(l);
        },
        LocalView::Recur { t, s } => {
            lemma_merge_idempotent(*s);
        },
        _ => {},
    }
}

proof fn lemma_merge_branch_left_self(s: Seq<(MessageView, LocalView)>, n: int)
    requires
        keys_distinct(s),
        forall|i: int| 0 <= i < s.len() ==> well_formed(#[trigger] s[i].1),
        0 <= n <= s.len(),
    ensures
        merge_branch_left(s, s, n) == s.take(n),
    decreases s, n,
{
    if n == 0 {
        assert(s.take(0) =~= Seq::<(MessageView, LocalView)>::empty());
    } else {
        lemma_merge_branch_left_self(s, n - 1);
        lemma_key_index_distinct(s, n - 1);
        lemma_merge_idempotent(s[n - 1].1);
        lemma_insert_next(s, n - 1);
    }
}

proof fn lemma_branch_right_only_self(
    acc: Seq<(MessageView, LocalView)>,
    s: Seq<(MessageView, LocalView)>,
    n: int,
)
    requires
        0 <= n <= s.len(),
    ensures
        branch_right_only(acc, s, s, n) == acc,
    decreases n,
{
    if n > 0 {
        lemma_branch_right_only_self(acc, s, n - 1);
        lemma_key_index(s, s[n - 1].0);
    }
}

/// The choices that two branchings merge into, as a map: every message of
/// either side; a message of both continues with the merge of its two
/// continuations, any other with its own continuation.
pub open spec fn branch_union(
    s: Seq<(MessageView, LocalView)>,
    s_r: Seq<(MessageView, LocalView)>,
) -> Map<MessageView, LocalView> {
    Map::new(
        |k: MessageView| has_key(s, k) || has_key(s_r, k),
        |k: MessageView|
            if has_key(s, k) && has_key(s_r, k) {
                merge_spec(s[key_index(s, k)].1, s_r[key_index(s_r, k)].1).unwrap()
            } else if has_key(s, k) {
                s[key_index(s, k)].1
            } else {
                s_r[key_index(s_r, k)].1
            },
    )
}

/// Two branchings from the same role, each listing a message once, whose
/// common messages have continuations that merge, merge into the branching
/// from that role over the union of their choices (`branch_union`).
pub proof fn lemma_merge_branches_union(
    p: Seq<char>,
    s: Seq<(MessageView, LocalView)>,
    s_r: Seq<(MessageView, LocalView)>,
)
    requires
        keys_distinct(s),
        keys_distinct(s_r),
        forall|k: MessageView|
            has_key(s, k) && has_key(s_r, k) ==> #[trigger] merge_spec(
                s[key_index(s, k)].1,
                s_r[key_index(s_r, k)].1,
            ) is Some,
    ensures
        merge_spec(LocalView::Branch { p, s }, LocalView::Branch { p, s: s_r }) matches Some(m) && m
            matches LocalView::Branch { p: p_m, s: s_m } && p_m == p && choices_map(s_m) == branch_union(
            s,
            s_r,
        ),
{
    let n = s.len() as int;
    assert forall|i: int| #![trigger s[i]] 0 <= i < s.len() && has_key(s_r, s[i].0) implies merge_spec(
        s[i].1,
        s_r[key_index(s_r, s[i].0)].1,
    ) is Some by {
        lemma_key_index_distinct(s, i);
        let k = s[i].0;
        assert(merge_spec(s[key_index(s, k)].1, s_r[key_index(s_r, k)].1) is Some);
    }
    assert(branches_agree(s, s_r));
    let left = merge_branch_left(s, s_r, n);
    lemma_merge_branch_left_map(s, s_r, n);
    assert(s.take(n) =~= s);
    assert forall|k: MessageView| has_key(left, k) implies has_key(s, k) by {
        assert(choices_map(left).dom().contains(k));
    }
    lemma_branch_right_only_map(left, s, s_r, s_r.len() as int);
    assert(s_r.take(s_r.len() as int) =~= s_r);
    let res = branch_right_only(left, s, s_r, s_r.len() as int);
    assert forall|k: MessageView| #[trigger] has_key(left, k) == has_key(s, k) by {
        assert(choices_map(left).dom().contains(k) == has_key(left, k));
    }
    assert forall|k: MessageView| #[trigger] choices_map(res).dom().contains(k) == branch_union(s, s_r).dom().contains(k) by {
        assert(has_key(left, k) == has_key(s, k));
    }
    assert forall|k: MessageView| #[trigger] choices_map(res).dom().contains(k) implies choices_map(res)[k] == branch_union(s, s_r)[k] by {
        assert(has_key(left, k) == has_key(s, k));
        if has_key(left, k) {
            assert(choices_map(left)[k] == branch_union(s, s_r)[k]);
        }
    }
    assert(choices_map(res) =~= branch_union(s, s_r));
}

proof fn lemma_take_has_key<T>(s: Seq<(MessageView, T)>, n: int, k: MessageView)
    requires
        0 < n <= s.len(),
    ensures
        has_key(s.take(n), k) <==> (has_key(s.take(n - 1), k) || s[n - 1].0 == k),
{
    lemma_has_key(s.take(n), k);
    lemma_has_key(s.take(n - 1), k);
    if has_key(s.take(n - 1), k) {
        let i = choose|i: int| 0 <= i < n - 1 && #[trigger] s.take(n - 1)[i].0 == k;
        assert(s.take(n)[i].0 == k);
    }
    if s[n - 1].0 == k {
        assert(s.take(n)[n - 1].0 == k);
    }
    if has_key(s.take(n), k) && s[n - 1].0 != k {
        let i = choose|i: int| 0 <= i < n && #[trigger] s.take(n)[i].0 == k;
        assert(s.take(n - 1)[i].0 == k);
    }
}

proof fn lemma_merge_branch_left_map(
    s: Seq<(MessageView, LocalView)>,
    s_r: Seq<(MessageView, LocalView)>,
    n: int,
)
    requires
        keys_distinct(s),
        forall|k: MessageView|
            has_key(s, k) && has_key(s_r, k) ==> #[trigger] merge_spec(
                s[key_index(s, k)].1,
                s_r[key_index(s_r, k)].1,
            ) is Some,
        0 <= n <= s.len(),
    ensures
        choices_map(merge_branch_left(s, s_r, n)) == Map::new(
            |k: MessageView| has_key(s.take(n), k),
            |k: MessageView| branch_union(s, s_r)[k],
        ),
    decreases n,
{
    let target = Map::new(|k: MessageView| has_key(s.take(n), k), |k: MessageView| branch_union(s, s_r)[k]);
    if n == 0 {
        assert forall|k: MessageView| !has_key(s.take(0), k) by {
            lemma_has_key(s.take(0), k);
        }
        assert forall|k: MessageView| !has_key(merge_branch_left(s, s_r, 0), k) by {
            lemma_has_key(merge_branch_left(s, s_r, 0), k);
        }
        assert(choices_map(merge_branch_left(s, s_r, 0)) =~= target);
    } else {
        lemma_merge_branch_left_map(s, s_r, n - 1);
        let acc = merge_branch_left(s, s_r, n - 1);
        let key = s[n - 1].0;
        lemma_key_index_distinct(s, n - 1);
        lemma_has_key(s, key);
        assert(s[n - 1].0 == key);
        let j = key_index(s_r, key);
        let v = if j >= 0 {
            merge_spec(s[n - 1].1, s_r[j].1).unwrap()
        } else {
            s[n - 1].1
        };
        if j >= 0 {
            assert(merge_spec(s[key_index(s, key)].1, s_r[key_index(s_r, key)].1) is Some);
        }
        assert(merge_branch_left(s, s_r, n) == insert_choice(acc, key, v));
        lemma_insert_choice_map(acc, key, v);
        assert(v == branch_union(s, s_r)[key]);
        assert forall|k: MessageView| #[trigger] has_key(s.take(n), k) <==> (has_key(s.take(n - 1), k) || k == key) by {
            lemma_take_has_key(s, n, k);
        }
        assert(choices_map(merge_branch_left(s, s_r, n)) =~= target);
    }
}

proof fn lemma_branch_right_only_map(
    acc: Seq<(MessageView, LocalView)>,
    s: Seq<(MessageView, LocalView)>,
    s_r: Seq<(MessageView, LocalView)>,
    n: int,
)
    requires
        keys_distinct(s_r),
        forall|k: MessageView| has_key(acc, k) ==> has_key(s, k),
        0 <= n <= s_r.len(),
    ensures
        choices_map(branch_right_only(acc, s, s_r, n)) == Map::new(
            |k: MessageView| has_key(acc, k) || (has_key(s_r.take(n), k) && !has_key(s, k)),
            |k: MessageView|
                if has_key(acc, k) {
                    choices_map(acc)[k]
                } else {
                    s_r[key_index(s_r, k)].1
                },
        ),
    decreases n,
{
    let target = Map::new(
        |k: MessageView| has_key(acc, k) || (has_key(s_r.take(n), k) && !has_key(s, k)),
        |k: MessageView|
            if has_key(acc, k) {
                choices_map(acc)[k]
            } else {
                s_r[key_index(s_r, k)].1
            },
    );
    if n == 0 {
        assert forall|k: MessageView| !has_key(s_r.take(0), k) by {
            lemma_has_key(s_r.take(0), k);
        }
        assert(choices_map(branch_right_only(acc, s, s_r, 0)) =~= target);
    } else {
        lemma_branch_right_only_map(acc, s, s_r, n - 1);
        let a = branch_right_only(acc, s, s_r, n - 1);
        let key = s_r[n - 1].0;
        lemma_key_index_distinct(s_r, n - 1);
        assert forall|k: MessageView| #[trigger] has_key(s_r.take(n), k) <==> (has_key(s_r.take(n - 1), k) || k == key) by {
            lemma_take_has_key(s_r, n, k);
        }
        if !has_key(s, key) {
            lemma_insert_choice_map(a, key, s_r[n - 1].1);
            lemma_has_key(s_r.take(n - 1), key);
            if has_key(s_r.take(n - 1), key) {
                let i = choose|i: int| 0 <= i < n - 1 && #[trigger] s_r.take(n - 1)[i].0 == key;
                assert(s_r[i].0 == key);
            }
        }
        assert(choices_map(branch_right_only(acc, s, s_r, n)) =~= target);
    }
}

/// Choices with distinct messages and well-formed continuations.
pub open spec fn choices_well_formed(s: Seq<(MessageView, LocalView)>) -> bool {
    keys_distinct(s) && forall|i: int| 0 <= i < s.len() ==> well_formed(#[trigger] s[i].1)
}

proof fn lemma_insert_well_formed(s: Seq<(MessageView, LocalView)>, k: MessageView, v: LocalView)
    requires
        choices_well_formed(s),
        well_formed(v),
    ensures
        choices_well_formed(insert_choice(s, k, v)),
{
    lemma_insert_choice_distinct(s, k, v);
    lemma_key_index(s, k);
    let r = insert_choice(s, k, v);
    assert forall|i: int| 0 <= i < r.len() implies well_formed(#[trigger] r[i].1) by {
        if i < s.len() && i != key_index(s, k) {
            assert(r[i] == s[i]);
        }
    }
}

/// The merge of two well-formed local types is well formed.
pub proof fn lemma_merge_well_formed(l: LocalView, r: LocalView)
    requires
        well_formed(l),
        well_formed(r),
    ensures
        merge_spec(l, r) matches Some(m) ==> well_formed(m),
    decreases l, 0int,
{
    match l {
        LocalView::Branch { p, s } => {
            if let LocalView::Branch { p: p_r, s: s_r } = r {
                if p == p_r && branches_agree(s, s_r) {
                    lemma_merge_branch_left_well_formed(s, s_r, s.len() as int);
                    lemma_branch_right_only_well_formed(
                        merge_branch_left(s, s_r, s.len() as int),
                        s,
                        s_r,
                        s_r.len() as int,
                    );
                }
            }
        },
        LocalView::Recur { t, s } => {
            if let LocalView::Recur { t: t_r, s: s_r } = r {
                lemma_merge_well_formed(*s, *s_r);
            }
        },
        _ => {},
    }
}

proof fn lemma_merge_branch_left_well_formed(
    s: Seq<(MessageView, LocalView)>,
    s_r: Seq<(MessageView, LocalView)>,
    n: int,
)
    requires
        choices_well_formed(s),
        choices_well_formed(s_r),
        branches_agree(s, s_r),
    ensures
        choices_well_formed(merge_branch_left(s, s_r, n)),
    decreases s, n,
{
    if n <= 0 || n > s.len() {
    } else {
        lemma_merge_branch_left_well_formed(s, s_r, n - 1);
        let acc = merge_branch_left(s, s_r, n - 1);
        let m = s[n - 1].0;
        lemma_key_index(s_r, m);
        let j = key_index(s_r, m);
        if j >= 0 {
            assert(well_formed(s_r[j].1));
            assert(well_formed(s[n - 1].1));
            assert(s[n - 1] == s[n - 1]);
            lemma_merge_well_formed(s[n - 1].1, s_r[j].1);
            let x = merge_spec(s[n - 1].1, s_r[j].1).unwrap();
            lemma_insert_well_formed(acc, m, x);
        } else {
            assert(well_formed(s[n - 1].1));
            lemma_insert_well_formed(acc, m, s[n - 1].1);
        }
    }
}

proof fn lemma_branch_right_only_well_formed(
    acc: Seq<(MessageView, LocalView)>,
    s: Seq<(MessageView, LocalView)>,
    s_r: Seq<(MessageView, LocalView)>,
    n: int,
)
    requires
        choices_well_formed(acc),
        choices_well_formed(s_r),
    ensures
        choices_well_formed(branch_right_only(acc, s, s_r, n)),
    decreases n,
{
    if n > 0 && n <= s_r.len() {
        lemma_branch_right_only_well_formed(acc, s, s_r, n - 1);
        assert(well_formed(s_r[n - 1].1));
        if key_index(s, s_r[n - 1].0) < 0 {
            lemma_insert_well_formed(branch_right_only(acc, s, s_r, n - 1), s_r[n - 1].0, s_r[n - 1].1);
        }
    }
}

// ---------------------------------------------------------------------------
// Laws of projection
// ---------------------------------------------------------------------------

/// A projection, where defined, is well formed: no branching or selection
/// in it lists a message twice.
pub proof fn lemma_project_well_formed(g: GlobalView, r: Seq<char>)
    ensures
        project_spec(g, r) matches Some(l) ==> well_formed(l),
    decreases g, 0int,
{
    match g {
        GlobalView::Interact { p, q, g: cs } => {
            if r == p || r == q {
                lemma_project_choices_well_formed(cs, r, cs.len() as int);
            } else if cs.len() == 1 {
                lemma_project_well_formed(cs[0].1, r);
            } else {
                lemma_project_merged_well_formed(cs, r, cs.len() as int);
            }
        },
        GlobalView::Recur { t, g: body } => {
            lemma_project_well_formed(*body, r);
        },
        _ => {},
    }
}

proof fn lemma_project_choices_well_formed(cs: Seq<(MessageView, GlobalView)>, r: Seq<char>, n: int)
    ensures
        project_choices(cs, r, n) matches Some(s) ==> choices_well_formed(s),
    decreases cs, n,
{
    if n <= 0 || n > cs.len() {
    } else {
        lemma_project_choices_well_formed(cs, r, n - 1);
        lemma_project_well_formed(cs[n - 1].1, r);
        if let (Some(acc), Some(l)) = (project_choices(cs, r, n - 1), project_spec(cs[n - 1].1, r)) {
            lemma_insert_well_formed(acc, cs[n - 1].0, l);
        }
    }
}

/// Once a continuation's projection is undefined, so is the list of projections.
proof fn lemma_project_choices_none(cs: Seq<(MessageView, GlobalView)>, r: Seq<char>, n: int, m: int)
    requires
        0 < n <= m <= cs.len(),
        project_choices(cs, r, n) is None,
    ensures
        project_choices(cs, r, m) is None,
    decreases m - n,
{
    if m > n {
        lemma_project_choices_none(cs, r, n, m - 1);
    }
}

/// Once the merged projection is undefined, it stays undefined.
proof fn lemma_project_merged_none(cs: Seq<(MessageView, GlobalView)>, r: Seq<char>, n: int, m: int)
    requires
        0 < n <= m <= cs.len(),
        project_merged(cs, r, n) is None,
    ensures
        project_merged(cs, r, m) is None,
    decreases m - n,
{
    if m > n {
        lemma_project_merged_none(cs, r, n, m - 1);
    }
}

proof fn lemma_project_merged_well_formed(cs: Seq<(MessageView, GlobalView)>, r: Seq<char>, n: int)
    ensures
        project_merged(cs, r, n) matches Some(l) ==> well_formed(l),
    decreases cs, n,
{
    if n <= 0 || n > cs.len() {
    } else if n == 1 {
        lemma_project_well_formed(cs[0].1, r);
    } else {
        lemma_project_merged_well_formed(cs, r, n - 1);
        lemma_project_well_formed(cs[n - 1].1, r);
        if let (Some(m), Some(l)) = (project_merged(cs, r, n - 1), project_spec(cs[n - 1].1, r)) {
            lemma_merge_well_formed(m, l);
        }
    }
}

/// Choice lists with distinct messages that stand for maps with the same
/// messages and equivalent continuations are equivalent.
proof fn lemma_choices_equiv_from_maps(a: Seq<(MessageView, LocalView)>, b: Seq<(MessageView, LocalView)>)
    requires
        keys_distinct(a),
        keys_distinct(b),
        forall|k: MessageView| #[trigger] has_key(a, k) == has_key(b, k),
        forall|k: MessageView| has_key(a, k) ==> equiv(#[trigger] choices_map(a)[k], choices_map(b)[k]),
    ensures
        choices_equiv(a, b),
{
    assert forall|j: int| 0 <= j < b.len() implies has_key(a, #[trigger] b[j].0) by {
        lemma_key_index_distinct(b, j);
        assert(has_key(b, b[j].0));
    }
    assert forall|i: int| #![trigger a[i]] 0 <= i < a.len() && key_index(a, a[i].0) == i implies has_key(b, a[i].0)
        && equiv(a[i].1, b[key_index(b, a[i].0)].1) by {
        let k = a[i].0;
        assert(has_key(a, k));
        assert(choices_map(a)[k] == a[i].1);
        assert(choices_map(b)[k] == b[key_index(b, k)].1);
    }
}

/// Merge is commutative up to the order of choices: for well-formed `l`
/// and `r`, `l ⊓ r` is defined exactly when `r ⊓ l` is, and the two are
/// then equivalent.
pub proof fn lemma_merge_commutative(l: LocalView, r: LocalView)
    requires
        well_formed(l),
        well_formed(r),
    ensures
        merge_spec(l, r) is Some <==> merge_spec(r, l) is Some,
        merge_spec(l, r) is Some ==> equiv(merge_spec(l, r).unwrap(), merge_spec(r, l).unwrap()),
    decreases l, 0int,
{
    match (l, r) {
        (LocalView::Branch { p, s }, LocalView::Branch { p: p_r, s: s_r }) => {
            assert forall|k: MessageView| has_key(s, k) && has_key(s_r, k) implies (#[trigger] merge_spec(
                s[key_index(s, k)].1,
                s_r[key_index(s_r, k)].1,
            ) is Some <==> merge_spec(s_r[key_index(s_r, k)].1, s[key_index(s, k)].1) is Some) && (merge_spec(
                s[key_index(s, k)].1,
                s_r[key_index(s_r, k)].1,
            ) is Some ==> equiv(
                merge_spec(s[key_index(s, k)].1, s_r[key_index(s_r, k)].1).unwrap(),
                merge_spec(s_r[key_index(s_r, k)].1, s[key_index(s, k)].1).unwrap(),
            )) by {
                lemma_key_index(s, k);
                lemma_key_index(s_r, k);
                assert(well_formed(s[key_index(s, k)].1));
                assert(well_formed(s_r[key_index(s_r, k)].1));
                lemma_merge_commutative(s[key_index(s, k)].1, s_r[key_index(s_r, k)].1);
            }
            assert(branches_agree(s, s_r) == branches_agree(s_r, s)) by {
                if branches_agree(s, s_r) {
                    assert forall|j: int| #![trigger s_r[j]] 0 <= j < s_r.len() && has_key(s, s_r[j].0) implies merge_spec(
                        s_r[j].1,
                        s[key_index(s, s_r[j].0)].1,
                    ) is Some by {
                        let k = s_r[j].0;
                        lemma_key_index_distinct(s_r, j);
                        lemma_key_index(s, k);
                        let i = key_index(s, k);
                        assert(s[i].0 == k);
                        assert(has_key(s_r, s[i].0));
                        assert(merge_spec(s[key_index(s, k)].1, s_r[key_index(s_r, k)].1) is Some);
                    }
                }
                if branches_agree(s_r, s) {
                    assert forall|i: int| #![trigger s[i]] 0 <= i < s.len() && has_key(s_r, s[i].0) implies merge_spec(
                        s[i].1,
                        s_r[key_index(s_r, s[i].0)].1,
                    ) is Some by {
                        let k = s[i].0;
                        lemma_key_index_distinct(s, i);
                        lemma_key_index(s_r, k);
                        let j = key_index(s_r, k);
                        assert(s_r[j].0 == k);
                        assert(has_key(s, s_r[j].0));
                        assert(merge_spec(s_r[key_index(s_r, k)].1, s[key_index(s, k)].1) is Some);
                    }
                }
            }
            if p == p_r && branches_agree(s, s_r) {
                assert forall|k: MessageView| has_key(s, k) && has_key(s_r, k) implies #[trigger] merge_spec(
                    s[key_index(s, k)].1,
                    s_r[key_index(s_r, k)].1,
                ) is Some by {
                    lemma_key_index(s, k);
                    assert(s[key_index(s, k)].0 == k);
                }
                assert forall|k: MessageView| has_key(s_r, k) && has_key(s, k) implies #[trigger] merge_spec(
                    s_r[key_index(s_r, k)].1,
                    s[key_index(s, k)].1,
                ) is Some by {
                    lemma_key_index(s_r, k);
                    assert(s_r[key_index(s_r, k)].0 == k);
                }
                lemma_merge_branches_union(p, s, s_r);
                lemma_merge_branches_union(p, s_r, s);
                lemma_merge_well_formed(l, r);
                lemma_merge_well_formed(r, l);
                let u1 = merge_spec(l, r).unwrap()->Branch_s;
                let u2 = merge_spec(r, l).unwrap()->Branch_s;
                assert forall|k: MessageView| #[trigger] has_key(u1, k) == has_key(u2, k) by {
                    assert(choices_map(u1).dom().contains(k) == has_key(u1, k));
                    assert(choices_map(u2).dom().contains(k) == has_key(u2, k));
                }
                assert forall|k: MessageView| has_key(u1, k) implies equiv(#[trigger] choices_map(u1)[k], choices_map(u2)[k]) by {
                    assert(choices_map(u1).dom().contains(k));
                    if has_key(s, k) && has_key(s_r, k) {
                    } else if has_key(s, k) {
                        lemma_equiv_reflexive(s[key_index(s, k)].1);
                    } else {
                        lemma_equiv_reflexive(s_r[key_index(s_r, k)].1);
                    }
                }
                lemma_choices_equiv_from_maps(u1, u2);
            }
        },
        (LocalView::Select { .. }, LocalView::Select { .. }) => {
            if equiv(l, r) {
                lemma_equiv_symmetric(l, r);
            }
            if equiv(r, l) {
                lemma_equiv_symmetric(r, l);
            }
        },
        (LocalView::Recur { t, s }, LocalView::Recur { t: t_r, s: s_r }) => {
            lemma_merge_commutative(*s, *s_r);
        },
        (LocalView::TypeVar { .. }, LocalView::TypeVar { .. }) => {
            lemma_equiv_reflexive(l);
        },
        (LocalView::End, LocalView::End) => {},
        _ => {},
    }
}

/// Two branchings from the same role do not merge where a message of both
/// has continuations that do not merge.
pub proof fn lemma_merge_branch_conflict(
    p: Seq<char>,
    s: Seq<(MessageView, LocalView)>,
    s_r: Seq<(MessageView, LocalView)>,
    i: int,
)
    requires
        0 <= i < s.len(),
        has_key(s_r, s[i].0),
        merge_spec(s[i].1, s_r[key_index(s_r, s[i].0)].1) is None,
    ensures
        merge_spec(LocalView::Branch { p, s }, LocalView::Branch { p, s: s_r }) is None,
{
    assert(!branches_agree(s, s_r));
}

/// A projection is undefined where the projection of some continuation of
/// an interaction is.
pub proof fn lemma_project_undefined_continuation(
    p: Seq<char>,
    q: Seq<char>,
    cs: Seq<(MessageView, GlobalView)>,
    r: Seq<char>,
    i: int,
)
    requires
        0 <= i < cs.len(),
        project_spec(cs[i].1, r) is None,
    ensures
        project_spec(GlobalView::Interact { p, q, g: cs }, r) is None,
{
    assert(project_choices(cs, r, i + 1) is None);
    lemma_project_choices_none(cs, r, i + 1, cs.len() as int);
    if cs.len() > 1 {
        if i == 0 {
            assert(project_merged(cs, r, 1) is None);
        } else {
            assert(project_merged(cs, r, i + 1) is None);
        }
        lemma_project_merged_none(cs, r, i + 1, cs.len() as int);
    }
}

/// Every continuation among the choices has at least one choice at every
/// branching and selection.
pub open spec fn choices_nonempty(s: Seq<(MessageView, LocalView)>) -> bool {
    forall|i: int| 0 <= i < s.len() ==> nonempty(#[trigger] s[i].1)
}

proof fn lemma_insert_nonempty(s: Seq<(MessageView, LocalView)>, k: MessageView, v: LocalView)
    requires
        choices_nonempty(s),
        nonempty(v),
    ensures
        choices_nonempty(insert_choice(s, k, v)),
        insert_choice(s, k, v).len() >= s.len(),
        insert_choice(s, k, v).len() > 0,
{
    lemma_key_index(s, k);
    let r = insert_choice(s, k, v);
    assert forall|i: int| 0 <= i < r.len() implies nonempty(#[trigger] r[i].1) by {
        if i < s.len() && i != key_index(s, k) {
            assert(r[i] == s[i]);
        }
    }
}

/// The merge of two local types with no empty branching or selection has
/// none either.
pub proof fn lemma_merge_nonempty(l: LocalView, r: LocalView)
    requires
        nonempty(l),
        nonempty(r),
    ensures
        merge_spec(l, r) matches Some(m) ==> nonempty(m),
    decreases l, 0int,
{
    match l {
        LocalView::Branch { p, s } => {
            if let LocalView::Branch { p: p_r, s: s_r } = r {
                if p == p_r && branches_agree(s, s_r) {
                    lemma_merge_branch_left_nonempty(s, s_r, s.len() as int);
                    lemma_branch_right_only_nonempty(
                        merge_branch_left(s, s_r, s.len() as int),
                        s,
                        s_r,
                        s_r.len() as int,
                    );
                }
            }
        },
        LocalView::Recur { t, s } => {
            if let LocalView::Recur { t: t_r, s: s_r } = r {
                lemma_merge_nonempty(*s, *s_r);
            }
        },
        _ => {},
    }
}

proof fn lemma_merge_branch_left_nonempty(
    s: Seq<(MessageView, LocalView)>,
    s_r: Seq<(MessageView, LocalView)>,
    n: int,
)
    requires
        choices_nonempty(s),
        choices_nonempty(s_r),
        branches_agree(s, s_r),
        0 <= n <= s.len(),
    ensures
        choices_nonempty(merge_branch_left(s, s_r, n)),
        n > 0 ==> merge_branch_left(s, s_r, n).len() > 0,
    decreases s, n,
{
    if n > 0 {
        lemma_merge_branch_left_nonempty(s, s_r, n - 1);
        let acc = merge_branch_left(s, s_r, n - 1);
        let m = s[n - 1].0;
        assert(nonempty(s[n - 1].1));
        if has_key(s_r, m) {
            lemma_key_index(s_r, m);
            let j = key_index(s_r, m);
            assert(nonempty(s_r[j].1));
            lemma_merge_nonempty(s[n - 1].1, s_r[j].1);
            lemma_insert_nonempty(acc, m, merge_spec(s[n - 1].1, s_r[j].1).unwrap());
        } else {
            lemma_insert_nonempty(acc, m, s[n - 1].1);
        }
    }
}

proof fn lemma_branch_right_only_nonempty(
    acc: Seq<(MessageView, LocalView)>,
    s: Seq<(MessageView, LocalView)>,
    s_r: Seq<(MessageView, LocalView)>,
    n: int,
)
    requires
        choices_nonempty(acc),
        choices_nonempty(s_r),
    ensures
        choices_nonempty(branch_right_only(acc, s, s_r, n)),
        branch_right_only(acc, s, s_r, n).len() >= acc.len(),
    decreases n,
{
    if n > 0 && n <= s_r.len() {
        lemma_branch_right_only_nonempty(acc, s, s_r, n - 1);
        assert(nonempty(s_r[n - 1].1));
        if key_index(s, s_r[n - 1].0) < 0 {
            lemma_insert_nonempty(branch_right_only(acc, s, s_r, n - 1), s_r[n - 1].0, s_r[n - 1].1);
        }
    }
}

/// A projection, where defined, has at least one choice at every branching
/// and selection.
pub proof fn lemma_project_nonempty(g: GlobalView, r: Seq<char>)
    ensures
        project_spec(g, r) matches Some(l) ==> nonempty(l),
    decreases g, 0int,
{
    match g {
        GlobalView::Interact { p, q, g: cs } => {
            if r == p || r == q {
                lemma_project_choices_nonempty(cs, r, cs.len() as int);
            } else if cs.len() == 1 {
                lemma_project_nonempty(cs[0].1, r);
            } else {
                lemma_project_merged_nonempty(cs, r, cs.len() as int);
            }
        },
        GlobalView::Recur { t, g: body } => {
            lemma_project_nonempty(*body, r);
        },
        _ => {},
    }
}

proof fn lemma_project_choices_nonempty(cs: Seq<(MessageView, GlobalView)>, r: Seq<char>, n: int)
    ensures
        project_choices(cs, r, n) matches Some(s) ==> choices_nonempty(s),
    decreases cs, n,
{
    if n > 0 && n <= cs.len() {
        lemma_project_choices_nonempty(cs, r, n - 1);
        lemma_project_nonempty(cs[n - 1].1, r);
        if let (Some(acc), Some(l)) = (project_choices(cs, r, n - 1), project_spec(cs[n - 1].1, r)) {
            lemma_insert_nonempty(acc, cs[n - 1].0, l);
        }
    }
}

proof fn lemma_project_merged_nonempty(cs: Seq<(MessageView, GlobalView)>, r: Seq<char>, n: int)
    ensures
        project_merged(cs, r, n) matches Some(l) ==> nonempty(l),
    decreases cs, n,
{
    if n <= 0 || n > cs.len() {
    } else if n == 1 {
        lemma_project_nonempty(cs[0].1, r);
    } else {
        lemma_project_merged_nonempty(cs, r, n - 1);
        lemma_project_nonempty(cs[n - 1].1, r);
        if let (Some(m), Some(l)) = (project_merged(cs, r, n - 1), project_spec(cs[n - 1].1, r)) {
            lemma_merge_nonempty(m, l);
        }
    }
}

/// The projection onto a third role of an interaction with two messages
/// does not depend on the order the messages were added in: both orders
/// are defined or neither is, and the results are then equivalent.
pub proof fn lemma_project_two_choices_order(
    p: Seq<char>,
    q: Seq<char>,
    a: (MessageView, GlobalView),
    b: (MessageView, GlobalView),
    r: Seq<char>,
)
    requires
        r != p,
        r != q,
    ensures
        project_spec(GlobalView::Interact { p, q, g: seq![a, b] }, r) is Some <==> project_spec(
            GlobalView::Interact { p, q, g: seq![b, a] },
            r,
        ) is Some,
        project_spec(GlobalView::Interact { p, q, g: seq![a, b] }, r) is Some ==> equiv(
            project_spec(GlobalView::Interact { p, q, g: seq![a, b] }, r).unwrap(),
            project_spec(GlobalView::Interact { p, q, g: seq![b, a] }, r).unwrap(),
        ),
{
    let ab = seq![a, b];
    let ba = seq![b, a];
    assert(ab[0] == a && ab[1] == b && ba[0] == b && ba[1] == a);
    lemma_project_well_formed(a.1, r);
    lemma_project_well_formed(b.1, r);
    lemma_project_nonempty(a.1, r);
    lemma_project_nonempty(b.1, r);
    assert(project_merged(ab, r, 1) == project_spec(a.1, r));
    assert(project_merged(ba, r, 1) == project_spec(b.1, r));
    assert(ab.len() == 2 && ba.len() == 2);
    assert(project_merged(ab, r, 2) == match (project_spec(a.1, r), project_spec(b.1, r)) {
        (Some(m), Some(l)) => merge_spec(m, l),
        _ => None,
    });
    assert(project_merged(ba, r, 2) == match (project_spec(b.1, r), project_spec(a.1, r)) {
        (Some(m), Some(l)) => merge_spec(m, l),
        _ => None,
    });
    if let (Some(x), Some(y)) = (project_spec(a.1, r), project_spec(b.1, r)) {
        lemma_merge_commutative(x, y);
        lemma_merge_nonempty(x, y);
        lemma_merge_nonempty(y, x);
        if let Some(m) = merge_spec(x, y) {
            assert(local_len(m) > 0);
        }
        if let Some(m) = merge_spec(y, x) {
            assert(local_len(m) > 0);
        }
    }
}

/// The projections of the first `n` continuations of choices with
/// distinct messages: defined exactly when each continuation's projection
/// is, and then the map from each of those messages to the projection of
/// its continuation.
proof fn lemma_project_choices_map(cs: Seq<(MessageView, GlobalView)>, r: Seq<char>, n: int)
    requires
        keys_distinct(cs),
        0 <= n <= cs.len(),
    ensures
        project_choices(cs, r, n) is Some <==> forall|i: int| 0 <= i < n ==> #[trigger] project_spec(cs[i].1, r) is Some,
        project_choices(cs, r, n) matches Some(s) ==> {
            &&& keys_distinct(s)
            &&& forall|k: MessageView| #[trigger] has_key(s, k) == has_key(cs.take(n), k)
            &&& forall|k: MessageView| #[trigger] has_key(s, k) ==> choices_map(s)[k] == project_spec(choices_map(cs)[k], r).unwrap()
        },
    decreases n,
{
    if n == 0 {
        assert forall|k: MessageView| #[trigger] has_key(Seq::<(MessageView, LocalView)>::empty(), k) == has_key(cs.take(0), k) by {
            lemma_has_key(Seq::<(MessageView, LocalView)>::empty(), k);
            lemma_has_key(cs.take(0), k);
        }
    } else {
        lemma_project_choices_map(cs, r, n - 1);
        if let (Some(acc), Some(l)) = (project_choices(cs, r, n - 1), project_spec(cs[n - 1].1, r)) {
            let key = cs[n - 1].0;
            lemma_insert_choice_distinct(acc, key, l);
            lemma_insert_choice_map(acc, key, l);
            lemma_key_index_distinct(cs, n - 1);
            let res = insert_choice(acc, key, l);
            assert forall|k: MessageView| #[trigger] has_key(res, k) == has_key(cs.take(n), k) by {
                lemma_take_has_key(cs, n, k);
                assert(choices_map(res).dom().contains(k) == has_key(res, k));
                assert(choices_map(acc).dom().contains(k) == has_key(acc, k));
            }
            assert forall|k: MessageView| #[trigger] has_key(res, k) implies choices_map(res)[k] == project_spec(
                choices_map(cs)[k],
                r,
            ).unwrap() by {
                assert(choices_map(res).dom().contains(k));
                if k != key {
                    assert(choices_map(acc).dom().contains(k));
                }
            }
        }
    }
}

/// The projection onto either participant of an interaction does not
/// depend on the order its messages were added in: two interactions with
/// the same messages and continuations (each message listed once) project
/// both or neither, and then to equivalent local types.
pub proof fn lemma_project_participant_order(
    p: Seq<char>,
    q: Seq<char>,
    cs1: Seq<(MessageView, GlobalView)>,
    cs2: Seq<(MessageView, GlobalView)>,
    r: Seq<char>,
)
    requires
        keys_distinct(cs1),
        keys_distinct(cs2),
        choices_map(cs1) == choices_map(cs2),
        r == p || r == q,
    ensures
        project_spec(GlobalView::Interact { p, q, g: cs1 }, r) is Some <==> project_spec(
            GlobalView::Interact { p, q, g: cs2 },
            r,
        ) is Some,
        project_spec(GlobalView::Interact { p, q, g: cs1 }, r) is Some ==> equiv(
            project_spec(GlobalView::Interact { p, q, g: cs1 }, r).unwrap(),
            project_spec(GlobalView::Interact { p, q, g: cs2 }, r).unwrap(),
        ),
{
    let n1 = cs1.len() as int;
    let n2 = cs2.len() as int;
    lemma_project_choices_map(cs1, r, n1);
    lemma_project_choices_map(cs2, r, n2);
    assert(cs1.take(n1) =~= cs1);
    assert(cs2.take(n2) =~= cs2);
    assert forall|k: MessageView| #[trigger] has_key(cs1, k) == has_key(cs2, k) by {
        assert(choices_map(cs1).dom().contains(k) == has_key(cs1, k));
        assert(choices_map(cs2).dom().contains(k) == has_key(cs2, k));
    }
    // every projection defined, in both
    if forall|i: int| 0 <= i < n1 ==> #[trigger] project_spec(cs1[i].1, r) is Some {
        assert forall|i: int| 0 <= i < n2 implies #[trigger] project_spec(cs2[i].1, r) is Some by {
            let k = cs2[i].0;
            lemma_key_index_distinct(cs2, i);
            assert(has_key(cs2, k));
            assert(has_key(cs1, k));
            lemma_key_index(cs1, k);
            let j = key_index(cs1, k);
            assert(choices_map(cs1)[k] == cs1[j].1);
            assert(choices_map(cs2)[k] == cs2[i].1);
            assert(project_spec(cs1[j].1, r) is Some);
        }
    }
    if forall|i: int| 0 <= i < n2 ==> #[trigger] project_spec(cs2[i].1, r) is Some {
        assert forall|i: int| 0 <= i < n1 implies #[trigger] project_spec(cs1[i].1, r) is Some by {
            let k = cs1[i].0;
            lemma_key_index_distinct(cs1, i);
            assert(has_key(cs1, k));
            lemma_key_index(cs2, k);
            let j = key_index(cs2, k);
            assert(choices_map(cs2)[k] == cs2[j].1);
            assert(choices_map(cs1)[k] == cs1[i].1);
            assert(project_spec(cs2[j].1, r) is Some);
        }
    }
    if let (Some(s1), Some(s2)) = (project_choices(cs1, r, n1), project_choices(cs2, r, n2)) {
        assert forall|k: MessageView| #[trigger] has_key(s1, k) == has_key(s2, k) by {}
        assert forall|k: MessageView| has_key(s1, k) implies equiv(#[trigger] choices_map(s1)[k], choices_map(s2)[k]) by {
            lemma_equiv_reflexive(choices_map(s1)[k]);
        }
        lemma_choices_equiv_from_maps(s1, s2);
        if s1.len() > 0 {
            lemma_key_index(s1, s1[0].0);
            assert(has_key(s1, s1[0].0));
            assert(has_key(s2, s1[0].0));
            lemma_key_index(s2, s1[0].0);
        }
        if s2.len() > 0 {
            lemma_key_index(s2, s2[0].0);
            assert(has_key(s2, s2[0].0));
            assert(has_key(s1, s2[0].0));
            lemma_key_index(s1, s2[0].0);
        }
    }
}

/// The messages of the first `n` choices of the left branching, merged.
proof fn lemma_merge_branch_left_keys(s: Seq<(MessageView, LocalView)>, s_r: Seq<(MessageView, LocalView)>, n: int)
    requires
        0 <= n <= s.len(),
    ensures
        forall|k: MessageView| #[trigger] has_key(merge_branch_left(s, s_r, n), k) == has_key(s.take(n), k),
    decreases n,
{
    if n == 0 {
        assert forall|k: MessageView| #[trigger] has_key(merge_branch_left(s, s_r, 0), k) == has_key(s.take(0), k) by {
            lemma_has_key(s.take(0), k);
            lemma_has_key(merge_branch_left(s, s_r, 0), k);
        }
    } else {
        lemma_merge_branch_left_keys(s, s_r, n - 1);
        let acc = merge_branch_left(s, s_r, n - 1);
        let m = s[n - 1].0;
        let v = if has_key(s_r, m) {
            merge_spec(s[n - 1].1, s_r[key_index(s_r, m)].1).unwrap()
        } else {
            s[n - 1].1
        };
        assert(merge_branch_left(s, s_r, n) == insert_choice(acc, m, v));
        lemma_insert_choice_map(acc, m, v);
        assert forall|k: MessageView| #[trigger] has_key(merge_branch_left(s, s_r, n), k) == has_key(s.take(n), k) by {
            lemma_take_has_key(s, n, k);
            assert(choices_map(insert_choice(acc, m, v)).dom().contains(k) == has_key(insert_choice(acc, m, v), k));
            assert(choices_map(acc).dom().contains(k) == has_key(acc, k));
        }
    }
}

/// The messages after adding the right-only choices.
proof fn lemma_branch_right_only_keys(
    acc: Seq<(MessageView, LocalView)>,
    s: Seq<(MessageView, LocalView)>,
    s_r: Seq<(MessageView, LocalView)>,
    n: int,
)
    requires
        0 <= n <= s_r.len(),
    ensures
        forall|k: MessageView| #[trigger] has_key(branch_right_only(acc, s, s_r, n), k) == (has_key(acc, k) || (has_key(
            s_r.take(n),
            k,
        ) && !has_key(s, k))),
    decreases n,
{
    if n == 0 {
        assert forall|k: MessageView| !has_key(s_r.take(0), k) by {
            lemma_has_key(s_r.take(0), k);
        }
    } else {
        lemma_branch_right_only_keys(acc, s, s_r, n - 1);
        let a = branch_right_only(acc, s, s_r, n - 1);
        let m = s_r[n - 1].0;
        lemma_insert_choice_map(a, m, s_r[n - 1].1);
        assert forall|k: MessageView| #[trigger] has_key(branch_right_only(acc, s, s_r, n), k) == (has_key(acc, k) || (
        has_key(s_r.take(n), k) && !has_key(s, k))) by {
            lemma_take_has_key(s_r, n, k);
            assert(choices_map(insert_choice(a, m, s_r[n - 1].1)).dom().contains(k) == has_key(
                insert_choice(a, m, s_r[n - 1].1),
                k,
            ));
            assert(choices_map(a).dom().contains(k) == has_key(a, k));
        }
    }
}

/// What a merge gives, where defined: a local type of the same kind and
/// role or variable as both operands; for branchings, one with exactly the
/// messages of either; for selections, the left one, equivalent to the
/// right one. In particular types of different kinds, or towards or from
/// different roles, never merge.
pub proof fn lemma_merge_shape(l: LocalView, r: LocalView)
    ensures
        merge_spec(l, r) matches Some(m) ==> {
            &&& same_head(m, l)
            &&& same_head(m, r)
            &&& m is Branch ==> forall|k: MessageView| #[trigger] has_key(choices_of(m), k) == (has_key(choices_of(l), k)
                || has_key(choices_of(r), k))
            &&& m is Select ==> m == l && equiv(l, r)
        },
{
    match (l, r) {
        (LocalView::Branch { p, s }, LocalView::Branch { p: p_r, s: s_r }) => {
            if p == p_r && branches_agree(s, s_r) {
                lemma_merge_branch_left_keys(s, s_r, s.len() as int);
                lemma_branch_right_only_keys(merge_branch_left(s, s_r, s.len() as int), s, s_r, s_r.len() as int);
                assert(s.take(s.len() as int) =~= s);
                assert(s_r.take(s_r.len() as int) =~= s_r);
            }
        },
        (LocalView::Select { .. }, LocalView::Select { .. }) => {
            if equiv(l, r) {
                lemma_equiv_same_head(l, r);
            }
        },
        _ => {},
    }
}

/// The projection onto a role that takes no part in an interaction with at
/// least two messages is the merge of all the continuations' projections:
/// where it is defined, every continuation projects, each projection is of
/// the same kind and role or variable as the result, a branching result
/// holds every message of every projection and no other, and a selection
/// result is equivalent to every projection.
pub proof fn lemma_project_third_role(
    p: Seq<char>,
    q: Seq<char>,
    cs: Seq<(MessageView, GlobalView)>,
    r: Seq<char>,
)
    requires
        r != p,
        r != q,
        cs.len() >= 2,
    ensures
        project_spec(GlobalView::Interact { p, q, g: cs }, r) matches Some(l) ==> {
            &&& forall|i: int| 0 <= i < cs.len() ==> #[trigger] project_spec(cs[i].1, r) is Some
            &&& forall|i: int| 0 <= i < cs.len() ==> same_head(l, #[trigger] project_spec(cs[i].1, r).unwrap())
            &&& l is Branch ==> forall|i: int, k: MessageView|
                0 <= i < cs.len() && #[trigger] has_key(choices_of(project_spec(cs[i].1, r).unwrap()), k) ==> has_key(
                    choices_of(l),
                    k,
                )
            &&& l is Branch ==> forall|k: MessageView| #[trigger] has_key(choices_of(l), k) ==> exists|i: int|
                0 <= i < cs.len() && #[trigger] has_key(choices_of(project_spec(cs[i].1, r).unwrap()), k)
            &&& l is Select ==> forall|i: int| 0 <= i < cs.len() ==> equiv(l, #[trigger] project_spec(cs[i].1, r).unwrap())
        },
{
    lemma_project_merged_fold(cs, r, cs.len() as int);
}

proof fn lemma_project_merged_fold(cs: Seq<(MessageView, GlobalView)>, r: Seq<char>, n: int)
    requires
        1 <= n <= cs.len(),
    ensures
        project_merged(cs, r, n) matches Some(l) ==> {
            &&& forall|i: int| 0 <= i < n ==> #[trigger] project_spec(cs[i].1, r) is Some
            &&& forall|i: int| 0 <= i < n ==> same_head(l, #[trigger] project_spec(cs[i].1, r).unwrap())
            &&& l is Branch ==> forall|i: int, k: MessageView|
                0 <= i < n && #[trigger] has_key(choices_of(project_spec(cs[i].1, r).unwrap()), k) ==> has_key(
                    choices_of(l),
                    k,
                )
            &&& l is Branch ==> forall|k: MessageView| #[trigger] has_key(choices_of(l), k) ==> exists|i: int|
                0 <= i < n && #[trigger] has_key(choices_of(project_spec(cs[i].1, r).unwrap()), k)
            &&& l is Select ==> forall|i: int| 0 <= i < n ==> equiv(l, #[trigger] project_spec(cs[i].1, r).unwrap())
        },
    decreases n,
{
    if n == 1 {
        if let Some(l) = project_merged(cs, r, 1) {
            assert(l == project_spec(cs[0].1, r).unwrap());
            lemma_equiv_reflexive(l);
            assert forall|k: MessageView| #[trigger] has_key(choices_of(l), k) implies exists|i: int|
                0 <= i < n && #[trigger] has_key(choices_of(project_spec(cs[i].1, r).unwrap()), k) by {
                assert(has_key(choices_of(project_spec(cs[0].1, r).unwrap()), k));
            }
        }
    } else {
        lemma_project_merged_fold(cs, r, n - 1);
        if let (Some(m), Some(x)) = (project_merged(cs, r, n - 1), project_spec(cs[n - 1].1, r)) {
            lemma_merge_shape(m, x);
            if let Some(l) = merge_spec(m, x) {
                assert(project_merged(cs, r, n) == Some(l));
                assert forall|i: int| 0 <= i < n implies same_head(l, #[trigger] project_spec(cs[i].1, r).unwrap()) by {
                    if i < n - 1 {
                        assert(same_head(m, project_spec(cs[i].1, r).unwrap()));
                    }
                }
                if l is Branch {
                    assert forall|i: int, k: MessageView|
                        0 <= i < n && #[trigger] has_key(choices_of(project_spec(cs[i].1, r).unwrap()), k) implies has_key(
                        choices_of(l),
                        k,
                    ) by {
                        if i < n - 1 {
                            assert(has_key(choices_of(m), k));
                        }
                    }
                    assert forall|k: MessageView| #[trigger] has_key(choices_of(l), k) implies exists|i: int|
                        0 <= i < n && #[trigger] has_key(choices_of(project_spec(cs[i].1, r).unwrap()), k) by {
                        if has_key(choices_of(m), k) {
                            let i = choose|i: int|
                                0 <= i < n - 1 && #[trigger] has_key(choices_of(project_spec(cs[i].1, r).unwrap()), k);
                            assert(has_key(choices_of(project_spec(cs[i].1, r).unwrap()), k));
                        } else {
                            assert(has_key(choices_of(project_spec(cs[n - 1].1, r).unwrap()), k));
                        }
                    }
                }
                if l is Select {
                    assert forall|i: int| 0 <= i < n implies equiv(l, #[trigger] project_spec(cs[i].1, r).unwrap()) by {
                        if i < n - 1 {
                            assert(equiv(m, project_spec(cs[i].1, r).unwrap()));
                        }
                    }
                }
            }
        }
    }
}

// ---------------------------------------------------------------------------
// Merge up to equivalence, and the order of continuations
// ---------------------------------------------------------------------------

/// Equivalent choice lists have the same messages with equivalent
/// continuations.
proof fn lemma_choices_equiv_maps(a: Seq<(MessageView, LocalView)>, b: Seq<(MessageView, LocalView)>)
    requires
        choices_equiv(a, b),
    ensures
        forall|k: MessageView| #[trigger] has_key(a, k) == has_key(b, k),
        forall|k: MessageView| has_key(a, k) ==> equiv(#[trigger] a[key_index(a, k)].1, b[key_index(b, k)].1),
{
    assert forall|k: MessageView| #[trigger] has_key(a, k) == has_key(b, k) by {
        lemma_key_index(a, k);
        lemma_key_index(b, k);
        if has_key(b, k) {
            let j = key_index(b, k);
            assert(b[j].0 == k);
        }
        if has_key(a, k) {
            let i = key_index(a, k);
            assert(a[i].0 == k);
            assert(key_index(a, a[i].0) == i);
        }
    }
    assert forall|k: MessageView| has_key(a, k) implies equiv(#[trigger] a[key_index(a, k)].1, b[key_index(b, k)].1) by {
        lemma_key_index(a, k);
        let i = key_index(a, k);
        assert(a[i].0 == k);
        assert(key_index(a, a[i].0) == i);
    }
}

/// Two branchings, or two selections, each listing a message once, are
/// equivalent exactly when they are from or towards the same role, have the
/// same messages and, message by message, equivalent continuations.
pub proof fn lemma_equiv_choices(a: LocalView, b: LocalView)
    requires
        well_formed(a),
        well_formed(b),
        (a is Branch && b is Branch) || (a is Select && b is Select),
    ensures
        equiv(a, b) <==> {
            &&& same_head(a, b)
            &&& forall|k: MessageView| #[trigger] has_key(choices_of(a), k) == has_key(choices_of(b), k)
            &&& forall|k: MessageView| #[trigger] has_key(choices_of(a), k) ==> equiv(
                choices_map(choices_of(a))[k],
                choices_map(choices_of(b))[k],
            )
        },
{
    let s = choices_of(a);
    let t = choices_of(b);
    if equiv(a, b) {
        assert(choices_equiv(s, t));
        lemma_choices_equiv_maps(s, t);
        assert forall|k: MessageView| #[trigger] has_key(s, k) implies equiv(choices_map(s)[k], choices_map(t)[k]) by {
            assert(equiv(s[key_index(s, k)].1, t[key_index(t, k)].1));
        }
    }
    if same_head(a, b) && (forall|k: MessageView| #[trigger] has_key(s, k) == has_key(t, k)) && (forall|k: MessageView|
        #[trigger] has_key(s, k) ==> equiv(choices_map(s)[k], choices_map(t)[k])) {
        assert forall|k: MessageView| has_key(s, k) implies equiv(#[trigger] choices_map(s)[k], choices_map(t)[k]) by {
            assert(has_key(s, k));
        }
        lemma_choices_equiv_from_maps(s, t);
    }
}

/// Two well-formed branchings merge exactly when they come from the same
/// role and each message of both has continuations that merge; the merge is
/// then the branching over `branch_union`.
proof fn lemma_merge_branch_iff(
    p: Seq<char>,
    s: Seq<(MessageView, LocalView)>,
    p_r: Seq<char>,
    s_r: Seq<(MessageView, LocalView)>,
)
    requires
        well_formed(LocalView::Branch { p, s }),
        well_formed(LocalView::Branch { p: p_r, s: s_r }),
    ensures
        merge_spec(LocalView::Branch { p, s }, LocalView::Branch { p: p_r, s: s_r }) is Some <==> (p == p_r && forall|
            k: MessageView,
        |
            has_key(s, k) && has_key(s_r, k) ==> #[trigger] merge_spec(s[key_index(s, k)].1, s_r[key_index(s_r, k)].1) is Some),
        merge_spec(LocalView::Branch { p, s }, LocalView::Branch { p: p_r, s: s_r }) matches Some(m) ==> m matches LocalView::Branch { p: p_m, s: s_m } && p_m == p
            && choices_well_formed(s_m) && choices_map(s_m) == branch_union(s, s_r),
{
    let l = LocalView::Branch { p, s };
    let r = LocalView::Branch { p: p_r, s: s_r };
    lemma_merge_well_formed(l, r);
    if merge_spec(l, r) is Some {
        assert(branches_agree(s, s_r));
        assert forall|k: MessageView| has_key(s, k) && has_key(s_r, k) implies #[trigger] merge_spec(
            s[key_index(s, k)].1,
            s_r[key_index(s_r, k)].1,
        ) is Some by {
            lemma_key_index(s, k);
            let i = key_index(s, k);
            assert(s[i].0 == k);
        }
        lemma_merge_branches_union(p, s, s_r);
    }
    if p == p_r && forall|k: MessageView|
        has_key(s, k) && has_key(s_r, k) ==> #[trigger] merge_spec(s[key_index(s, k)].1, s_r[key_index(s_r, k)].1) is Some {
        lemma_merge_branches_union(p, s, s_r);
    }
}

/// Merge respects equivalence: for well-formed `a ≡ a2` and `b ≡ b2`,
/// `a ⊓ b` is defined exactly when `a2 ⊓ b2` is, and the two are then
/// equivalent.
pub proof fn lemma_merge_congruent(a: LocalView, a2: LocalView, b: LocalView, b2: LocalView)
    requires
        well_formed(a),
        well_formed(a2),
        well_formed(b),
        well_formed(b2),
        equiv(a, a2),
        equiv(b, b2),
    ensures
        merge_spec(a, b) is Some <==> merge_spec(a2, b2) is Some,
        merge_spec(a, b) is Some ==> equiv(merge_spec(a, b).unwrap(), merge_spec(a2, b2).unwrap()),
    decreases a,
{
    lemma_equiv_same_head(a, a2);
    lemma_equiv_same_head(b, b2);
    match (a, a2, b, b2) {
        (
            LocalView::Branch { p, s },
            LocalView::Branch { p: p2, s: s2 },
            LocalView::Branch { p: q, s: t },
            LocalView::Branch { p: q2, s: t2 },
        ) => {
            lemma_choices_equiv_maps(s, s2);
            lemma_choices_equiv_maps(t, t2);
            assert forall|k: MessageView| has_key(s, k) && has_key(t, k) implies (#[trigger] merge_spec(
                s[key_index(s, k)].1,
                t[key_index(t, k)].1,
            ) is Some <==> merge_spec(s2[key_index(s2, k)].1, t2[key_index(t2, k)].1) is Some) && (merge_spec(
                s[key_index(s, k)].1,
                t[key_index(t, k)].1,
            ) is Some ==> equiv(
                merge_spec(s[key_index(s, k)].1, t[key_index(t, k)].1).unwrap(),
                merge_spec(s2[key_index(s2, k)].1, t2[key_index(t2, k)].1).unwrap(),
            )) by {
                lemma_key_index(s, k);
                lemma_key_index(s2, k);
                lemma_key_index(t, k);
                lemma_key_index(t2, k);
                assert(well_formed(s[key_index(s, k)].1));
                assert(well_formed(s2[key_index(s2, k)].1));
                assert(well_formed(t[key_index(t, k)].1));
                assert(well_formed(t2[key_index(t2, k)].1));
                lemma_merge_congruent(
                    s[key_index(s, k)].1,
                    s2[key_index(s2, k)].1,
                    t[key_index(t, k)].1,
                    t2[key_index(t2, k)].1,
                );
            }
            lemma_merge_branch_iff(p, s, q, t);
            lemma_merge_branch_iff(p2, s2, q2, t2);
            if merge_spec(a, b) is Some {
                assert forall|k: MessageView| has_key(s2, k) && has_key(t2, k) implies #[trigger] merge_spec(
                    s2[key_index(s2, k)].1,
                    t2[key_index(t2, k)].1,
                ) is Some by {
                    assert(merge_spec(s[key_index(s, k)].1, t[key_index(t, k)].1) is Some);
                }
                let u1 = merge_spec(a, b).unwrap()->Branch_s;
                let u2 = merge_spec(a2, b2).unwrap()->Branch_s;
                assert forall|k: MessageView| #[trigger] has_key(u1, k) == has_key(u2, k) by {
                    assert(choices_map(u1).dom().contains(k) == has_key(u1, k));
                    assert(choices_map(u2).dom().contains(k) == has_key(u2, k));
                }
                assert forall|k: MessageView| has_key(u1, k) implies equiv(#[trigger] choices_map(u1)[k], choices_map(u2)[k]) by {
                    assert(choices_map(u1).dom().contains(k));
                    assert(choices_map(u2).dom().contains(k));
                }
                lemma_choices_equiv_from_maps(u1, u2);
            }
            if merge_spec(a2, b2) is Some {
                assert forall|k: MessageView| has_key(s, k) && has_key(t, k) implies #[trigger] merge_spec(
                    s[key_index(s, k)].1,
                    t[key_index(t, k)].1,
                ) is Some by {
                    assert(merge_spec(s2[key_index(s2, k)].1, t2[key_index(t2, k)].1) is Some);
                }
            }
        },
        (LocalView::Select { .. }, LocalView::Select { .. }, LocalView::Select { .. }, LocalView::Select { .. }) => {
            lemma_equiv_symmetric(a, a2);
            lemma_equiv_symmetric(b, b2);
            if equiv(a, b) {
                lemma_equiv_transitive(a2, a, b);
                lemma_equiv_transitive(a2, b, b2);
            }
            if equiv(a2, b2) {
                lemma_equiv_transitive(a, a2, b2);
                lemma_equiv_transitive(a, b2, b);
            }
        },
        (
            LocalView::Recur { t, s: x },
            LocalView::Recur { t: t2, s: x2 },
            LocalView::Recur { t: u, s: y },
            LocalView::Recur { t: u2, s: y2 },
        ) => {
            lemma_merge_congruent(*x, *x2, *y, *y2);
        },
        (LocalView::TypeVar { .. }, LocalView::TypeVar { .. }, LocalView::TypeVar { .. }, LocalView::TypeVar { .. }) => {
            lemma_equiv_reflexive(a);
        },
        _ => {},
    }
}

/// Equivalent well-formed local types always merge, into one equivalent to
/// both.
pub proof fn lemma_merge_equiv(l: LocalView, r: LocalView)
    requires
        well_formed(l),
        well_formed(r),
        equiv(l, r),
    ensures
        merge_spec(l, r) is Some,
        equiv(merge_spec(l, r).unwrap(), l),
        equiv(merge_spec(l, r).unwrap(), r),
{
    lemma_equiv_reflexive(l);
    lemma_equiv_symmetric(l, r);
    lemma_merge_congruent(l, l, r, l);
    lemma_merge_idempotent(l);
    lemma_equiv_transitive(merge_spec(l, r).unwrap(), l, r);
}

/// `(a ⊓ b) ⊓ c` is defined exactly when `a ⊓ (b ⊓ c)` is, and the two are
/// then equivalent.
spec fn merge_assoc_holds(a: LocalView, b: LocalView, c: LocalView) -> bool {
    &&& (merge_spec(a, b) is Some && merge_spec(merge_spec(a, b).unwrap(), c) is Some) <==> (merge_spec(b, c) is Some
        && merge_spec(a, merge_spec(b, c).unwrap()) is Some)
    &&& merge_spec(a, b) is Some && merge_spec(merge_spec(a, b).unwrap(), c) is Some ==> equiv(
        merge_spec(merge_spec(a, b).unwrap(), c).unwrap(),
        merge_spec(a, merge_spec(b, c).unwrap()).unwrap(),
    )
}

/// The choices of a branching merge, read by message.
proof fn lemma_branch_union_keys(
    u: Seq<(MessageView, LocalView)>,
    s: Seq<(MessageView, LocalView)>,
    s_r: Seq<(MessageView, LocalView)>,
)
    requires
        choices_map(u) == branch_union(s, s_r),
    ensures
        forall|k: MessageView| #[trigger] has_key(u, k) == (has_key(s, k) || has_key(s_r, k)),
        forall|k: MessageView| has_key(u, k) ==> #[trigger] u[key_index(u, k)].1 == branch_union(s, s_r)[k],
{
    assert forall|k: MessageView| #[trigger] has_key(u, k) == (has_key(s, k) || has_key(s_r, k)) by {
        assert(choices_map(u).dom().contains(k) == has_key(u, k));
        assert(branch_union(s, s_r).dom().contains(k) == (has_key(s, k) || has_key(s_r, k)));
    }
    assert forall|k: MessageView| has_key(u, k) implies #[trigger] u[key_index(u, k)].1 == branch_union(s, s_r)[k] by {
        assert(choices_map(u).dom().contains(k));
        assert(choices_map(u)[k] == u[key_index(u, k)].1);
    }
}

/// Merge is associative up to the order of choices: for well-formed `a`,
/// `b` and `c`, `(a ⊓ b) ⊓ c` is defined exactly when `a ⊓ (b ⊓ c)` is, and
/// the two are then equivalent.
#[verifier::rlimit(60)]
pub proof fn lemma_merge_associative(a: LocalView, b: LocalView, c: LocalView)
    requires
        well_formed(a),
        well_formed(b),
        well_formed(c),
    ensures
        (merge_spec(a, b) is Some && merge_spec(merge_spec(a, b).unwrap(), c) is Some) <==> (merge_spec(b, c) is Some
            && merge_spec(a, merge_spec(b, c).unwrap()) is Some),
        merge_spec(a, b) is Some && merge_spec(merge_spec(a, b).unwrap(), c) is Some ==> equiv(
            merge_spec(merge_spec(a, b).unwrap(), c).unwrap(),
            merge_spec(a, merge_spec(b, c).unwrap()).unwrap(),
        ),
    decreases a,
{
    lemma_merge_shape(a, b);
    lemma_merge_shape(b, c);
    if let Some(ab) = merge_spec(a, b) {
        lemma_merge_shape(ab, c);
    }
    if let Some(bc) = merge_spec(b, c) {
        lemma_merge_shape(a, bc);
    }
    match (a, b, c) {
        (
            LocalView::Branch { p: pa, s: sa },
            LocalView::Branch { p: pb, s: sb },
            LocalView::Branch { p: pc, s: sc },
        ) => {
            lemma_merge_associative_branch(pa, sa, pb, sb, pc, sc);
        },
        (LocalView::Select { .. }, LocalView::Select { .. }, LocalView::Select { .. }) => {
            if equiv(a, b) && equiv(a, c) {
                lemma_equiv_symmetric(a, b);
                lemma_equiv_transitive(b, a, c);
                assert(merge_spec(a, b) == Some(a));
                assert(merge_spec(b, c) == Some(b));
                lemma_equiv_reflexive(a);
            }
            if equiv(b, c) && equiv(a, b) {
                lemma_equiv_transitive(a, b, c);
                assert(merge_spec(a, b) == Some(a));
            }
        },
        (LocalView::Recur { t, s: x }, LocalView::Recur { t: tb, s: y }, LocalView::Recur { t: tc, s: z }) => {
            lemma_merge_associative(*x, *y, *z);
            if t == tb && tb == tc {
                if let Some(xy) = merge_spec(*x, *y) {
                    assert(merge_spec(a, b) == Some(LocalView::Recur { t, s: Box::new(xy) }));
                }
                if let Some(yz) = merge_spec(*y, *z) {
                    assert(merge_spec(b, c) == Some(LocalView::Recur { t: tb, s: Box::new(yz) }));
                }
            }
        },
        (LocalView::TypeVar { .. }, LocalView::TypeVar { .. }, LocalView::TypeVar { .. }) => {
            lemma_equiv_reflexive(a);
        },
        (LocalView::End, LocalView::End, LocalView::End) => {},
        _ => {},
    }
}

#[verifier::rlimit(100)]
proof fn lemma_merge_associative_branch(
    pa: Seq<char>,
    sa: Seq<(MessageView, LocalView)>,
    pb: Seq<char>,
    sb: Seq<(MessageView, LocalView)>,
    pc: Seq<char>,
    sc: Seq<(MessageView, LocalView)>,
)
    requires
        well_formed(LocalView::Branch { p: pa, s: sa }),
        well_formed(LocalView::Branch { p: pb, s: sb }),
        well_formed(LocalView::Branch { p: pc, s: sc }),
    ensures
        merge_assoc_holds(
            LocalView::Branch { p: pa, s: sa },
            LocalView::Branch { p: pb, s: sb },
            LocalView::Branch { p: pc, s: sc },
        ),
    decreases sa,
{
    let a = LocalView::Branch { p: pa, s: sa };
    let b = LocalView::Branch { p: pb, s: sb };
    let c = LocalView::Branch { p: pc, s: sc };
    assert forall|k: MessageView| has_key(sa, k) && has_key(sb, k) && has_key(sc, k) implies #[trigger] merge_assoc_holds(
        sa[key_index(sa, k)].1,
        sb[key_index(sb, k)].1,
        sc[key_index(sc, k)].1,
    ) by {
        lemma_key_index(sa, k);
        lemma_key_index(sb, k);
        lemma_key_index(sc, k);
        assert(well_formed(sa[key_index(sa, k)].1));
        assert(well_formed(sb[key_index(sb, k)].1));
        assert(well_formed(sc[key_index(sc, k)].1));
        lemma_merge_associative(sa[key_index(sa, k)].1, sb[key_index(sb, k)].1, sc[key_index(sc, k)].1);
    }
    lemma_merge_branch_iff(pa, sa, pb, sb);
    lemma_merge_branch_iff(pb, sb, pc, sc);
    if pa == pb && pb == pc {
        let left = merge_spec(a, b) is Some && merge_spec(merge_spec(a, b).unwrap(), c) is Some;
        let right = merge_spec(b, c) is Some && merge_spec(a, merge_spec(b, c).unwrap()) is Some;
        if left {
            let sab = merge_spec(a, b).unwrap()->Branch_s;
            lemma_branch_union_keys(sab, sa, sb);
            lemma_merge_branch_iff(pa, sab, pc, sc);
            assert forall|k: MessageView| has_key(sb, k) && has_key(sc, k) implies #[trigger] merge_spec(
                sb[key_index(sb, k)].1,
                sc[key_index(sc, k)].1,
            ) is Some by {
                assert(has_key(sab, k));
                if has_key(sa, k) {
                    assert(merge_spec(sa[key_index(sa, k)].1, sb[key_index(sb, k)].1) is Some);
                    assert(merge_assoc_holds(sa[key_index(sa, k)].1, sb[key_index(sb, k)].1, sc[key_index(sc, k)].1));
                    assert(merge_spec(sab[key_index(sab, k)].1, sc[key_index(sc, k)].1) is Some);
                } else {
                    assert(merge_spec(sab[key_index(sab, k)].1, sc[key_index(sc, k)].1) is Some);
                }
            }
            let sbc = merge_spec(b, c).unwrap()->Branch_s;
            lemma_branch_union_keys(sbc, sb, sc);
            lemma_merge_branch_iff(pa, sa, pb, sbc);
            assert forall|k: MessageView| has_key(sa, k) && has_key(sbc, k) implies #[trigger] merge_spec(
                sa[key_index(sa, k)].1,
                sbc[key_index(sbc, k)].1,
            ) is Some by {
                assert(has_key(sab, k));
                if has_key(sb, k) && has_key(sc, k) {
                    assert(merge_spec(sa[key_index(sa, k)].1, sb[key_index(sb, k)].1) is Some);
                    assert(merge_assoc_holds(sa[key_index(sa, k)].1, sb[key_index(sb, k)].1, sc[key_index(sc, k)].1));
                    assert(merge_spec(sab[key_index(sab, k)].1, sc[key_index(sc, k)].1) is Some);
                } else if has_key(sb, k) {
                    assert(merge_spec(sa[key_index(sa, k)].1, sb[key_index(sb, k)].1) is Some);
                } else {
                    assert(merge_spec(sab[key_index(sab, k)].1, sc[key_index(sc, k)].1) is Some);
                }
            }
            assert(right);
            let sl = merge_spec(merge_spec(a, b).unwrap(), c).unwrap()->Branch_s;
            let sr = merge_spec(a, merge_spec(b, c).unwrap()).unwrap()->Branch_s;
            lemma_branch_union_keys(sl, sab, sc);
            lemma_branch_union_keys(sr, sa, sbc);
            assert forall|k: MessageView| #[trigger] has_key(sl, k) == has_key(sr, k) by {}
            assert forall|k: MessageView| has_key(sl, k) implies equiv(#[trigger] choices_map(sl)[k], choices_map(sr)[k]) by {
                assert(choices_map(sl)[k] == sl[key_index(sl, k)].1);
                assert(choices_map(sr)[k] == sr[key_index(sr, k)].1);
                if has_key(sa, k) && has_key(sb, k) && has_key(sc, k) {
                    assert(merge_spec(sa[key_index(sa, k)].1, sb[key_index(sb, k)].1) is Some);
                    assert(merge_assoc_holds(sa[key_index(sa, k)].1, sb[key_index(sb, k)].1, sc[key_index(sc, k)].1));
                    assert(merge_spec(sab[key_index(sab, k)].1, sc[key_index(sc, k)].1) is Some);
                } else {
                    lemma_equiv_reflexive(choices_map(sl)[k]);
                }
            }
            lemma_choices_equiv_from_maps(sl, sr);
        }
        if right {
            let sbc = merge_spec(b, c).unwrap()->Branch_s;
            lemma_branch_union_keys(sbc, sb, sc);
            lemma_merge_branch_iff(pa, sa, pb, sbc);
            assert forall|k: MessageView| has_key(sa, k) && has_key(sb, k) implies #[trigger] merge_spec(
                sa[key_index(sa, k)].1,
                sb[key_index(sb, k)].1,
            ) is Some by {
                assert(has_key(sbc, k));
                if has_key(sc, k) {
                    assert(merge_spec(sb[key_index(sb, k)].1, sc[key_index(sc, k)].1) is Some);
                    assert(merge_assoc_holds(sa[key_index(sa, k)].1, sb[key_index(sb, k)].1, sc[key_index(sc, k)].1));
                    assert(merge_spec(sa[key_index(sa, k)].1, sbc[key_index(sbc, k)].1) is Some);
                } else {
                    assert(merge_spec(sa[key_index(sa, k)].1, sbc[key_index(sbc, k)].1) is Some);
                }
            }
            let sab = merge_spec(a, b).unwrap()->Branch_s;
            lemma_branch_union_keys(sab, sa, sb);
            lemma_merge_branch_iff(pa, sab, pc, sc);
            assert forall|k: MessageView| has_key(sab, k) && has_key(sc, k) implies #[trigger] merge_spec(
                sab[key_index(sab, k)].1,
                sc[key_index(sc, k)].1,
            ) is Some by {
                assert(has_key(sbc, k));
                if has_key(sa, k) && has_key(sb, k) {
                    assert(merge_spec(sb[key_index(sb, k)].1, sc[key_index(sc, k)].1) is Some);
                    assert(merge_assoc_holds(sa[key_index(sa, k)].1, sb[key_index(sb, k)].1, sc[key_index(sc, k)].1));
                    assert(merge_spec(sa[key_index(sa, k)].1, sbc[key_index(sbc, k)].1) is Some);
                } else if has_key(sa, k) {
                    assert(merge_spec(sa[key_index(sa, k)].1, sbc[key_index(sbc, k)].1) is Some);
                } else {
                    assert(merge_spec(sb[key_index(sb, k)].1, sc[key_index(sc, k)].1) is Some);
                }
            }
            assert(left);
        }
    }
}

/// The merged projection of the first `n` continuations depends on those
/// continuations only.
proof fn lemma_project_merged_prefix(
    cs: Seq<(MessageView, GlobalView)>,
    cs2: Seq<(MessageView, GlobalView)>,
    r: Seq<char>,
    n: int,
)
    requires
        0 <= n <= cs.len(),
        n <= cs2.len(),
        forall|j: int| 0 <= j < n ==> cs2[j] == cs[j],
    ensures
        project_merged(cs, r, n) == project_merged(cs2, r, n),
    decreases n,
{
    if n >= 2 {
        lemma_project_merged_prefix(cs, cs2, r, n - 1);
    }
}

/// Exchanging the continuations at `i` and `i + 1` leaves the merged
/// projection of the first `n` (`n > i + 1`) defined exactly when it was,
/// and equivalent.
proof fn lemma_project_merged_swap(cs: Seq<(MessageView, GlobalView)>, r: Seq<char>, i: int, n: int)
    requires
        0 <= i,
        i + 2 <= n <= cs.len(),
    ensures
        project_merged(cs, r, n) is Some <==> project_merged(cs.update(i, cs[i + 1]).update(i + 1, cs[i]), r, n) is Some,
        project_merged(cs, r, n) is Some ==> equiv(
            project_merged(cs, r, n).unwrap(),
            project_merged(cs.update(i, cs[i + 1]).update(i + 1, cs[i]), r, n).unwrap(),
        ),
    decreases n,
{
    let cs2 = cs.update(i, cs[i + 1]).update(i + 1, cs[i]);
    assert(cs2[i] == cs[i + 1]);
    assert(cs2[i + 1] == cs[i]);
    if n == i + 2 {
        let x = project_spec(cs[i].1, r);
        let y = project_spec(cs[i + 1].1, r);
        lemma_project_well_formed(cs[i].1, r);
        lemma_project_well_formed(cs[i + 1].1, r);
        if i == 0 {
            if let (Some(xv), Some(yv)) = (x, y) {
                lemma_merge_commutative(xv, yv);
            }
        } else {
            lemma_project_merged_prefix(cs, cs2, r, i);
            lemma_project_merged_well_formed(cs, r, i);
            assert(project_merged(cs, r, i + 1) == match (project_merged(cs, r, i), x) {
                (Some(m), Some(l)) => merge_spec(m, l),
                _ => None,
            });
            assert(project_merged(cs2, r, i + 1) == match (project_merged(cs2, r, i), y) {
                (Some(m), Some(l)) => merge_spec(m, l),
                _ => None,
            });
            if let (Some(f), Some(xv), Some(yv)) = (project_merged(cs, r, i), x, y) {
                lemma_merge_associative(f, xv, yv);
                lemma_merge_associative(f, yv, xv);
                lemma_merge_commutative(xv, yv);
                if let (Some(mxy), Some(myx)) = (merge_spec(xv, yv), merge_spec(yv, xv)) {
                    lemma_merge_well_formed(xv, yv);
                    lemma_merge_well_formed(yv, xv);
                    lemma_equiv_reflexive(f);
                    lemma_merge_congruent(f, f, mxy, myx);
                    if let (Some(fx), Some(fy)) = (merge_spec(f, xv), merge_spec(f, yv)) {
                        if let (Some(lhs), Some(rhs)) = (merge_spec(fx, yv), merge_spec(fy, xv)) {
                            let mid1 = merge_spec(f, mxy).unwrap();
                            let mid2 = merge_spec(f, myx).unwrap();
                            lemma_equiv_transitive(lhs, mid1, mid2);
                            lemma_equiv_symmetric(rhs, mid2);
                            lemma_equiv_transitive(lhs, mid2, rhs);
                        }
                    }
                }
            }
        }
    } else {
        lemma_project_merged_swap(cs, r, i, n - 1);
        assert(cs2[n - 1] == cs[n - 1]);
        lemma_project_merged_well_formed(cs, r, n - 1);
        lemma_project_merged_well_formed(cs2, r, n - 1);
        let z = project_spec(cs[n - 1].1, r);
        lemma_project_well_formed(cs[n - 1].1, r);
        if let (Some(m1), Some(m2), Some(zv)) = (project_merged(cs, r, n - 1), project_merged(cs2, r, n - 1), z) {
            lemma_equiv_reflexive(zv);
            lemma_merge_congruent(m1, m2, zv, zv);
        }
    }
}

/// Equivalent local types both have continuations or both have none.
proof fn lemma_equiv_local_len(a: LocalView, b: LocalView)
    requires
        equiv(a, b),
    ensures
        local_len(a) > 0 <==> local_len(b) > 0,
{
    match (a, b) {
        (LocalView::Branch { s, .. }, LocalView::Branch { s: s_b, .. }) => {
            assert(choices_equiv(s, s_b));
            if s.len() > 0 {
                assert(key_index(s, s[0].0) == 0);
            }
            if s_b.len() > 0 {
                assert(has_key(s, s_b[0].0));
            }
        },
        (LocalView::Select { s, .. }, LocalView::Select { s: s_b, .. }) => {
            assert(choices_equiv(s, s_b));
            if s.len() > 0 {
                assert(key_index(s, s[0].0) == 0);
            }
            if s_b.len() > 0 {
                assert(has_key(s, s_b[0].0));
            }
        },
        _ => {},
    }
}

/// The projection onto a role that takes no part in an interaction does
/// not depend on the order of the interaction's messages: exchanging two
/// neighbouring messages leaves it defined exactly when it was, and
/// equivalent. Any reordering is a series of such exchanges, so the same
/// holds for every order of the messages.
pub proof fn lemma_project_third_role_swap(
    p: Seq<char>,
    q: Seq<char>,
    cs: Seq<(MessageView, GlobalView)>,
    r: Seq<char>,
    i: int,
)
    requires
        r != p,
        r != q,
        0 <= i,
        i + 1 < cs.len(),
    ensures
        project_spec(GlobalView::Interact { p, q, g: cs }, r) is Some <==> project_spec(
            GlobalView::Interact { p, q, g: cs.update(i, cs[i + 1]).update(i + 1, cs[i]) },
            r,
        ) is Some,
        project_spec(GlobalView::Interact { p, q, g: cs }, r) is Some ==> equiv(
            project_spec(GlobalView::Interact { p, q, g: cs }, r).unwrap(),
            project_spec(GlobalView::Interact { p, q, g: cs.update(i, cs[i + 1]).update(i + 1, cs[i]) }, r).unwrap(),
        ),
{
    let cs2 = cs.update(i, cs[i + 1]).update(i + 1, cs[i]);
    lemma_project_merged_swap(cs, r, i, cs.len() as int);
    if let (Some(m1), Some(m2)) = (project_merged(cs, r, cs.len() as int), project_merged(cs2, r, cs2.len() as int)) {
        lemma_equiv_local_len(m1, m2);
    }
}

/// Both undefined, or both defined and equivalent.
spec fn opt_equiv(x: Option<LocalView>, y: Option<LocalView>) -> bool {
    match (x, y) {
        (Some(a), Some(b)) => equiv(a, b),
        (None, None) => true,
        _ => false,
    }
}

proof fn lemma_opt_equiv_transitive(x: Option<LocalView>, y: Option<LocalView>, z: Option<LocalView>)
    requires
        opt_equiv(x, y),
        opt_equiv(y, z),
    ensures
        opt_equiv(x, z),
{
    if let (Some(a), Some(b), Some(c)) = (x, y, z) {
        lemma_equiv_transitive(a, b, c);
    }
}

/// Moving the continuation at `j` to the end leaves the merged projection
/// of all continuations defined exactly when it was, and equivalent.
proof fn lemma_project_merged_to_end(cs: Seq<(MessageView, GlobalView)>, r: Seq<char>, j: int)
    requires
        0 <= j < cs.len(),
    ensures
        opt_equiv(
            project_merged(cs, r, cs.len() as int),
            project_merged(cs.remove(j).push(cs[j]), r, cs.len() as int),
        ),
    decreases cs.len() - j,
{
    let n = cs.len() as int;
    if j == n - 1 {
        assert(cs.remove(j).push(cs[j]) =~= cs);
        lemma_project_merged_well_formed(cs, r, n);
        if let Some(l) = project_merged(cs, r, n) {
            lemma_equiv_reflexive(l);
        }
    } else {
        let sw = cs.update(j, cs[j + 1]).update(j + 1, cs[j]);
        lemma_project_merged_swap(cs, r, j, n);
        lemma_project_merged_to_end(sw, r, j + 1);
        assert(sw.remove(j + 1).push(sw[j + 1]) =~= cs.remove(j).push(cs[j]));
        lemma_opt_equiv_transitive(
            project_merged(cs, r, n),
            project_merged(sw, r, n),
            project_merged(cs.remove(j).push(cs[j]), r, n),
        );
    }
}

/// Whether `cs2` lists the continuations of `cs` in the order `perm`:
/// position `j` of `cs2` holds position `perm[j]` of `cs`, each once.
pub open spec fn is_reordering<T>(cs: Seq<T>, cs2: Seq<T>, perm: Seq<int>) -> bool {
    &&& cs2.len() == cs.len()
    &&& perm.len() == cs.len()
    &&& forall|j: int| 0 <= j < perm.len() ==> 0 <= #[trigger] perm[j] < cs.len() && cs2[j] == cs[perm[j]]
    &&& forall|i: int, j: int| 0 <= i < j < perm.len() ==> #[trigger] perm[i] != #[trigger] perm[j]
}

/// Reordering the continuations leaves their merged projection defined
/// exactly when it was, and equivalent.
proof fn lemma_project_merged_reorder(
    cs: Seq<(MessageView, GlobalView)>,
    cs2: Seq<(MessageView, GlobalView)>,
    r: Seq<char>,
    perm: Seq<int>,
)
    requires
        cs.len() >= 1,
        is_reordering(cs, cs2, perm),
    ensures
        opt_equiv(project_merged(cs, r, cs.len() as int), project_merged(cs2, r, cs2.len() as int)),
    decreases cs.len(),
{
    let n = cs.len() as int;
    if n == 1 {
        assert(perm[0] == 0);
        assert(cs2 =~= cs);
        lemma_project_merged_well_formed(cs, r, n);
        if let Some(l) = project_merged(cs, r, n) {
            lemma_equiv_reflexive(l);
        }
    } else {
        let j = perm[n - 1];
        let a = cs.remove(j);
        let b = cs2.drop_last();
        let perm2 = Seq::new((n - 1) as nat, |k: int| if perm[k] < j { perm[k] } else { perm[k] - 1 });
        assert forall|k: int| 0 <= k < perm2.len() implies 0 <= #[trigger] perm2[k] < a.len() && b[k] == a[perm2[k]] by {
            assert(perm[k] != perm[n - 1]);
        }
        assert forall|i: int, k: int| 0 <= i < k < perm2.len() implies #[trigger] perm2[i] != #[trigger] perm2[k] by {
            assert(perm[i] != perm[k]);
            assert(perm[i] != perm[n - 1]);
            assert(perm[k] != perm[n - 1]);
        }
        lemma_project_merged_reorder(a, b, r, perm2);
        lemma_project_merged_to_end(cs, r, j);
        let m = a.push(cs[j]);
        lemma_project_merged_prefix(m, a, r, n - 1);
        lemma_project_merged_prefix(cs2, b, r, n - 1);
        assert(m[n - 1] == cs[j]);
        assert(cs2[n - 1] == cs[j]);
        lemma_project_merged_well_formed(a, r, n - 1);
        lemma_project_merged_well_formed(b, r, n - 1);
        lemma_project_well_formed(cs[j].1, r);
        if let (Some(fa), Some(fb), Some(x)) = (project_merged(a, r, n - 1), project_merged(b, r, n - 1), project_spec(cs[j].1, r)) {
            lemma_equiv_reflexive(x);
            lemma_merge_congruent(fa, fb, x, x);
        }
        assert(opt_equiv(project_merged(m, r, n), project_merged(cs2, r, n)));
        lemma_opt_equiv_transitive(project_merged(cs, r, n), project_merged(m, r, n), project_merged(cs2, r, n));
    }
}

/// The projection onto a role that takes no part in an interaction does
/// not depend on the order of the interaction's messages: listing them in
/// any other order (`is_reordering`) leaves it defined exactly when it was,
/// and equivalent.
pub proof fn lemma_project_third_role_reorder(
    p: Seq<char>,
    q: Seq<char>,
    cs: Seq<(MessageView, GlobalView)>,
    cs2: Seq<(MessageView, GlobalView)>,
    r: Seq<char>,
    perm: Seq<int>,
)
    requires
        r != p,
        r != q,
        is_reordering(cs, cs2, perm),
    ensures
        project_spec(GlobalView::Interact { p, q, g: cs }, r) is Some <==> project_spec(
            GlobalView::Interact { p, q, g: cs2 },
            r,
        ) is Some,
        project_spec(GlobalView::Interact { p, q, g: cs }, r) is Some ==> equiv(
            project_spec(GlobalView::Interact { p, q, g: cs }, r).unwrap(),
            project_spec(GlobalView::Interact { p, q, g: cs2 }, r).unwrap(),
        ),
{
    let n = cs.len() as int;
    if n == 1 {
        assert(perm[0] == 0);
        assert(cs2 =~= cs);
        lemma_project_well_formed(cs[0].1, r);
        if let Some(l) = project_spec(cs[0].1, r) {
            lemma_equiv_reflexive(l);
        }
    } else if n >= 2 {
        lemma_project_merged_reorder(cs, cs2, r, perm);
        if let (Some(m1), Some(m2)) = (project_merged(cs, r, n), project_merged(cs2, r, n)) {
            lemma_equiv_local_len(m1, m2);
        }
    }
}

/// The projection onto a participant of an interaction whose messages are
/// listed once: it is defined exactly when there is a message and every
/// continuation projects; onto the sender it is then the selection towards
/// the receiver, onto the receiver (when it is not also the sender) the
/// branching from the sender, in both cases with the interaction's
/// messages, each continuing with its continuation's projection.
pub proof fn lemma_project_participant(
    p: Seq<char>,
    q: Seq<char>,
    cs: Seq<(MessageView, GlobalView)>,
    r: Seq<char>,
)
    requires
        keys_distinct(cs),
        r == p || r == q,
    ensures
        project_spec(GlobalView::Interact { p, q, g: cs }, r) is Some <==> cs.len() > 0 && forall|i: int|
            0 <= i < cs.len() ==> #[trigger] project_spec(cs[i].1, r) is Some,
        project_spec(GlobalView::Interact { p, q, g: cs }, r) matches Some(l) ==> {
            &&& r == p ==> l is Select && l->Select_p == q
            &&& r != p ==> l is Branch && l->Branch_p == p
            &&& keys_distinct(choices_of(l))
            &&& forall|k: MessageView| #[trigger] has_key(choices_of(l), k) == has_key(cs, k)
            &&& forall|k: MessageView| #[trigger] has_key(choices_of(l), k) ==> choices_map(choices_of(l))[k] == project_spec(
                choices_map(cs)[k],
                r,
            ).unwrap()
        },
{
    let n = cs.len() as int;
    lemma_project_choices_map(cs, r, n);
    assert(cs.take(n) =~= cs);
    if let Some(s) = project_choices(cs, r, n) {
        if cs.len() > 0 {
            lemma_key_index(cs, cs[0].0);
            assert(has_key(cs, cs[0].0));
            assert(has_key(s, cs[0].0));
        } else {
            if s.len() > 0 {
                lemma_key_index(s, s[0].0);
                assert(has_key(s, s[0].0));
                assert(has_key(cs, s[0].0));
                lemma_key_index(cs, s[0].0);
            }
        }
    }
}

/// The value of an optional local type.
pub open spec fn opt_view<A>(o: Option<Box<S<A>>>) -> Option<LocalView> {
    match o {
        Some(l) => Some(l@),
        None => None,
    }
}


/// Merges two local session types.
///
/// This implements the merge operator ⊓ on session types defined in
/// Definition A.1: the result is `merge_spec` of the two.
#[verifier::loop_isolation(false)]
pub fn merge<A>(l: &Box<S<A>>, r: &Box<S<A>>) -> (res: Option<Box<S<A>>>)
    ensures
        opt_view(res) == merge_spec(l@, r@),
        well_formed(l@) && well_formed(r@) ==> (res matches Some(m) ==> well_formed(m@)),
        nonempty(l@) && nonempty(r@) ==> (res matches Some(m) ==> nonempty(m@)),
    decreases l,
{
    proof {
        if well_formed(l@) && well_formed(r@) {
            lemma_merge_well_formed(l@, r@);
        }
        if nonempty(l@) && nonempty(r@) {
            lemma_merge_nonempty(l@, r@);
        }
    }
    match &**l {
        S::Branch { p, s } => match &**r {
            S::Branch { p: p_r, s: s_r } => {
                if *p.name() == *p_r.name() {
                    let ghost sv = local::choices_view(s@, s@.len() as int);
                    let ghost srv = local::choices_view(s_r@, s_r@.len() as int);
                    proof {
                        local::lemma_choices_view(s@, s@.len() as int);
                        local::lemma_choices_view(s_r@, s_r@.len() as int);
                    }
                    let mut br = S::branch(p);
                    let mut i: usize = 0;
                    while i < s.len()
                        invariant
                            i <= s.len(),
                            sv == local::choices_view(s@, s@.len() as int),
                            srv == local::choices_view(s_r@, s_r@.len() as int),
                            sv.len() == s@.len(),
                            srv.len() == s_r@.len(),
                            forall|k: int| 0 <= k < s@.len() ==> #[trigger] sv[k] == (s@[k].0@, s@[k].1@),
                            forall|k: int| 0 <= k < s_r@.len() ==> #[trigger] srv[k] == (s_r@[k].0@, s_r@[k].1@),
                            br@ == (LocalView::Branch { p: p@, s: merge_branch_left(sv, srv, i as int) }),
                            forall|x: int|
                                #![trigger sv[x]]
                                0 <= x < i && has_key(srv, sv[x].0) ==> merge_spec(
                                    sv[x].1,
                                    srv[key_index(srv, sv[x].0)].1,
                                ) is Some,
                        decreases s.len() - i,
                    {
                        let m_i = &s[i].0;
                        let s_i = &s[i].1;
                        assert(sv[i as int] == (m_i@, s_i@));
                        proof {
                            lemma_key_index(srv, m_i@);
                        }
                        match find_key(s_r, m_i) {
                            Some(j) => {
                                assert(srv[j as int].0 == m_i@);
                                assert(key_index(srv, m_i@) == j);
                                match merge(s_i, &s_r[j].1) {
                                    Some(merged_br) => {
                                        br = S::add_message(br, m_i.clone(), merged_br);
                                    },
                                    None => {
                                        assert(!branches_agree(sv, srv));
                                        return None;
                                    },
                                }
                            },
                            None => {
                                assert(key_index(srv, m_i@) < 0);
                                br = S::add_message(br, m_i.clone(), Box::new((**s_i).clone()));
                            },
                        }
                        i = i + 1;
                    }
                    assert(branches_agree(sv, srv));
                    let ghost left = merge_branch_left(sv, srv, sv.len() as int);
                    let mut k: usize = 0;
                    while k < s_r.len()
                        invariant
                            k <= s_r.len(),
                            sv == local::choices_view(s@, s@.len() as int),
                            srv == local::choices_view(s_r@, s_r@.len() as int),
                            sv.len() == s@.len(),
                            srv.len() == s_r@.len(),
                            forall|x: int| 0 <= x < s@.len() ==> #[trigger] sv[x] == (s@[x].0@, s@[x].1@),
                            forall|x: int| 0 <= x < s_r@.len() ==> #[trigger] srv[x] == (s_r@[x].0@, s_r@[x].1@),
                            br@ == (LocalView::Branch { p: p@, s: branch_right_only(left, sv, srv, k as int) }),
                        decreases s_r.len() - k,
                    {
                        let m_j = &s_r[k].0;
                        assert(srv[k as int].0 == m_j@);
                        proof {
                            lemma_key_index(sv, m_j@);
                        }
                        match find_key(s, m_j) {
                            Some(x) => {
                                assert(sv[x as int].0 == m_j@);
                            },
                            None => {
                                br = S::add_message(br, m_j.clone(), Box::new((*s_r[k].1).clone()));
                            },
                        }
                        k = k + 1;
                    }
                    assert(merge_spec(l@, r@) == Some(br@));
                    Some(br)
                } else {
                    None
                }
            },
            _ => None,
        },
        S::Select { .. } => match &**r {
            S::Select { .. } => {
                if (**l).equals(&**r) {
                    assert(merge_spec(l@, r@) == Some(l@));
                    Some(Box::new((**l).clone()))
                } else {
                    None
                }
            },
            _ => None,
        },
        S::Recur { t, s } => match &**r {
            S::Recur { t: t_r, s: s_r } => {
                if *t == *t_r {
                    match merge(s, s_r) {
                        Some(merged) => Some(S::recur(t.as_str(), merged)),
                        None => None,
                    }
                } else {
                    None
                }
            },
            _ => None,
        },
        S::TypeVar { t } => match &**r {
            S::TypeVar { t: t_r } => {
                if *t == *t_r {
                    Some(S::typevar(t.as_str()))
                } else {
                    None
                }
            },
            _ => None,
        },
        S::End => match &**r {
            S::End => Some(S::end()),
            _ => None,
        },
    }
}


/// Converts a global type into a local type: the projection of
/// `global_type` onto `role`, `None` where it is undefined.
///
/// This implements the projection G↾q defined in Definition A.1; the result
/// is `project_spec` of the type and the role's name.
#[verifier::loop_isolation(false)]
pub fn project<A>(global_type: &Box<G<A>>, role: &Rc<Role>) -> (res: Option<Box<S<A>>>)
    ensures
        opt_view(res) == project_spec(global_type@, role@),
        res matches Some(l) ==> well_formed(l@) && nonempty(l@),
    decreases global_type,
{
    proof {
        lemma_project_well_formed(global_type@, role@);
        lemma_project_nonempty(global_type@, role@);
    }
    match &**global_type {
        G::Interact { p, q, g } => {
            let ghost gv = global::choices_view(g@, g@.len() as int);
            proof {
                global::lemma_choices_view(g@, g@.len() as int);
            }
            if *role.name() == *p.name() {
                let mut sel = S::select(q);
                let mut i: usize = 0;
                while i < g.len()
                    invariant
                        i <= g.len(),
                        project_choices(gv, role@, i as int) is Some,
                        sel@ == (LocalView::Select { p: q@, s: project_choices(gv, role@, i as int).unwrap() }),
                    decreases g.len() - i,
                {
                    assert(gv[i as int] == (g@[i as int].0@, g@[i as int].1@));
                    let projected_s = project(&g[i].1, role);
                    match projected_s {
                        Some(projected_s) => {
                            sel = S::add_message(sel, g[i].0.clone(), projected_s);
                        },
                        None => {
                            proof {
                                lemma_project_choices_none(gv, role@, i as int + 1, gv.len() as int);
                            }
                            return None;
                        },
                    }
                    i = i + 1;
                }
                if sel.len() > 0 {
                    Some(sel)
                } else {
                    None
                }
            } else if *role.name() == *q.name() {
                let mut br = S::branch(p);
                let mut i: usize = 0;
                while i < g.len()
                    invariant
                        i <= g.len(),
                        project_choices(gv, role@, i as int) is Some,
                        br@ == (LocalView::Branch { p: p@, s: project_choices(gv, role@, i as int).unwrap() }),
                    decreases g.len() - i,
                {
                    assert(gv[i as int] == (g@[i as int].0@, g@[i as int].1@));
                    let projected_s = project(&g[i].1, role);
                    match projected_s {
                        Some(projected_s) => {
                            br = S::add_message(br, g[i].0.clone(), projected_s);
                        },
                        None => {
                            proof {
                                lemma_project_choices_none(gv, role@, i as int + 1, gv.len() as int);
                            }
                            return None;
                        },
                    }
                    i = i + 1;
                }
                if br.len() > 0 {
                    Some(br)
                } else {
                    None
                }
            } else if g.len() == 1 {
                // p != role != q, a single continuation
                project(&g[0].1, role)
            } else if g.len() == 0 {
                assert(project_merged(gv, role@, 0) is None);
                assert(project_spec(global_type@, role@) is None);
                None
            } else {
                // p != role != q: merge the projections of the continuations
                let mut merged = project(&g[0].1, role);
                let mut i: usize = 1;
                while i < g.len()
                    invariant
                        1 <= i <= g.len(),
                        opt_view(merged) == project_merged(gv, role@, i as int),
                        merged matches Some(m) ==> well_formed(m@),
                    decreases g.len() - i,
                {
                    assert(gv[i as int] == (g@[i as int].0@, g@[i as int].1@));
                    let projected_s = project(&g[i].1, role);
                    match projected_s {
                        Some(projected_s) => {
                            match merged {
                                Some(merged_) => {
                                    merged = merge(&merged_, &projected_s);
                                },
                                None => {
                                    merged = None;
                                },
                            }
                        },
                        None => {
                            proof {
                                lemma_project_merged_none(gv, role@, i as int + 1, gv.len() as int);
                            }
                            return None;
                        },
                    }
                    i = i + 1;
                }
                match merged {
                    Some(s) => if s.len() > 0 {
                        Some(s)
                    } else {
                        None
                    },
                    None => None,
                }
            }
        },
        G::Recur { t, g } => {
            let projected_s = project(g, role);
            match projected_s {
                Some(projected_s) => Some(S::recur(t.as_str(), projected_s)),
                None => None,
            }
        },
        G::TypeVar { t } => Some(S::typevar(t.as_str())),
        G::End => Some(S::end()),
    }
}

} // verus!
