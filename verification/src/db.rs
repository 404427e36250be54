//! The rule store: persisted call-forward rules with create / read / update /
//! delete, enforcing the non-overlap invariant on creation.

use vstd::prelude::*;
use vstd::string::StringExecFns;

use crate::types::{
    cf_eq, ctx_names_contain, distinct_ctx_names, spec_intersecting, str_eq, CallForward, Context,
    Extension, HasId, NoId,
};

verus! {

/// Errors of the rule store's administrative surface. The `Cannot*` variants
/// stand for infrastructure failures of a durable backing store; the domain
/// errors are `ContextDoesNotExist` (unknown context at rule construction),
/// `OverlappingCallForwards` (non-overlap invariant would be violated) and
/// `CannotSelectCallForward` (no rule with the requested id).
#[derive(Debug, PartialEq)]
pub enum DBError {
    CannotStartTransaction,
    CannotCommitTransaction,
    CannotRollbackTransaction,
    CannotInsertCallForward,
    CannotInsertContextMapping(String, i32),
    CannotSelectCallForwards,
    ContextDoesNotExist(String),
    CannotDeleteCallForward,
    CannotSelectCallForward(i32),
    CannotUpdateCallForwardDestination,
    CannotSelectContexts(i32),
    CannotDeleteContextMapping(String, i32),
    OverlappingCallForwards(crate::types::Extension, crate::types::Context),
}

/// The decimal digit for a value below 10.
pub open spec fn dec_digit(d: int) -> char {
    seq!['0', '1', '2', '3', '4', '5', '6', '7', '8', '9'][d]
}

/// The decimal digits of a non-negative number, most significant first.
pub open spec fn dec_digits(n: int) -> Seq<char>
    decreases n,
{
    if n < 10 {
        seq![dec_digit(n)]
    } else {
        dec_digits(n / 10).push(dec_digit(n % 10))
    }
}

/// The decimal rendering of a signed number.
pub open spec fn spec_i32_str(n: int) -> Seq<char> {
    if n < 0 {
        seq!['-'] + dec_digits(-n)
    } else {
        dec_digits(n)
    }
}

/// Append the decimal digit `d` to `s`.
fn append_dec_digit(s: &mut String, d: u32)
    requires
        d < 10,
    ensures
        final(s)@ == old(s)@ + seq![dec_digit(d as int)],
{
    proof {
        reveal_strlit("0");
        reveal_strlit("1");
        reveal_strlit("2");
        reveal_strlit("3");
        reveal_strlit("4");
        reveal_strlit("5");
        reveal_strlit("6");
        reveal_strlit("7");
        reveal_strlit("8");
        reveal_strlit("9");
    }
    if d == 0 {
        s.append("0");
    } else if d == 1 {
        s.append("1");
    } else if d == 2 {
        s.append("2");
    } else if d == 3 {
        s.append("3");
    } else if d == 4 {
        s.append("4");
    } else if d == 5 {
        s.append("5");
    } else if d == 6 {
        s.append("6");
    } else if d == 7 {
        s.append("7");
    } else if d == 8 {
        s.append("8");
    } else {
        s.append("9");
    }
    proof {
        assert(s@ =~= old(s)@ + seq![dec_digit(d as int)]);
    }
}

/// Append the decimal digits of `mag` to `s`, most significant first.
fn append_dec_digits(s: &mut String, mag: u32)
    ensures
        final(s)@ == old(s)@ + dec_digits(mag as int),
    decreases mag,
{
    if mag < 10 {
        append_dec_digit(s, mag);
    } else {
        append_dec_digits(s, mag / 10);
        append_dec_digit(s, mag % 10);
        proof {
            assert(s@ =~= old(s)@ + dec_digits(mag as int));
        }
    }
}

/// The decimal rendering of `x`, sign included.
fn i32_to_string(x: i32) -> (r: String)
    ensures
        r@ == spec_i32_str(x as int),
{
    let mut s = String::new();
    if x < 0 {
        proof {
            reveal_strlit("-");
        }
        s.append("-");
        let mag: u32 = (-(x as i64)) as u32;
        append_dec_digits(&mut s, mag);
        proof {
            assert(s@ =~= spec_i32_str(x as int));
        }
    } else {
        append_dec_digits(&mut s, x as u32);
    }
    s
}

/// The human-readable description of a store error.
pub open spec fn spec_db_error_message(e: DBError) -> Seq<char> {
    match e {
        DBError::CannotStartTransaction => "Unable to start transaction"@,
        DBError::CannotCommitTransaction => "Unable to commit transaction"@,
        DBError::CannotRollbackTransaction => "Unable to rollback transaction"@,
        DBError::CannotInsertCallForward => "Unable to insert a call forward"@,
        DBError::CannotInsertContextMapping(x, y) => "Unable to insert a context mapping fwd_id "@
            + x@ + " to context "@ + spec_i32_str(y as int),
        DBError::CannotSelectCallForwards => "Unable to select call forwards from starting extension"@,
        DBError::ContextDoesNotExist(x) => "The context with name "@ + x@
            + " does not exit in the config"@,
        DBError::CannotDeleteCallForward => "Unable to delete call forward"@,
        DBError::CannotSelectCallForward(x) => "Unable to select call forward from its id "@
            + spec_i32_str(x as int),
        DBError::CannotUpdateCallForwardDestination => "Unable to update the destination of a call forward"@,
        DBError::CannotSelectContexts(x) => "Unable to select contexts for call forward "@
            + spec_i32_str(x as int),
        DBError::CannotDeleteContextMapping(x, y) => "Unable to delete context "@ + x@
            + " for call forward "@ + spec_i32_str(y as int),
        DBError::OverlappingCallForwards(exten, context) => "There is already a call forward from "@
            + crate::types::spec_display(exten) + " active in context "@ + context.display_name@
            + "."@,
    }
}

impl DBError {
    /// The human-readable description of this error, as it is logged and
    /// shown to an operator.
    pub fn message(&self) -> (r: String)
        ensures
            r@ == spec_db_error_message(*self),
    {
        match self {
            DBError::CannotStartTransaction => "Unable to start transaction".to_owned(),
            DBError::CannotCommitTransaction => "Unable to commit transaction".to_owned(),
            DBError::CannotRollbackTransaction => "Unable to rollback transaction".to_owned(),
            DBError::CannotInsertCallForward => "Unable to insert a call forward".to_owned(),
            DBError::CannotInsertContextMapping(x, y) => {
                let mut s = "Unable to insert a context mapping fwd_id ".to_owned();
                s.append(x.as_str());
                s.append(" to context ");
                let num = i32_to_string(*y);
                s.append(num.as_str());
                s
            },
            DBError::CannotSelectCallForwards => {
                "Unable to select call forwards from starting extension".to_owned()
            },
            DBError::ContextDoesNotExist(x) => {
                let mut s = "The context with name ".to_owned();
                s.append(x.as_str());
                s.append(" does not exit in the config");
                s
            },
            DBError::CannotDeleteCallForward => "Unable to delete call forward".to_owned(),
            DBError::CannotSelectCallForward(x) => {
                let mut s = "Unable to select call forward from its id ".to_owned();
                let num = i32_to_string(*x);
                s.append(num.as_str());
                s
            },
            DBError::CannotUpdateCallForwardDestination => {
                "Unable to update the destination of a call forward".to_owned()
            },
            DBError::CannotSelectContexts(x) => {
                let mut s = "Unable to select contexts for call forward ".to_owned();
                let num = i32_to_string(*x);
                s.append(num.as_str());
                s
            },
            DBError::CannotDeleteContextMapping(x, y) => {
                let mut s = "Unable to delete context ".to_owned();
                s.append(x.as_str());
                s.append(" for call forward ");
                let num = i32_to_string(*y);
                s.append(num.as_str());
                s
            },
            DBError::OverlappingCallForwards(exten, context) => {
                let mut s = "There is already a call forward from ".to_owned();
                let shown = exten.display_string();
                s.append(shown.as_str());
                s.append(" active in context ");
                s.append(context.display_name.as_str());
                s.append(".");
                s
            },
        }
    }
}

/// The store of persisted call-forward rules. It owns the rules, assigns
/// their ids and enforces the non-overlap invariant on every creation.
#[derive(Debug)]
pub struct RuleStore {
    pub(crate) rules: Vec<CallForward<HasId>>,
    pub(crate) next_id: i32,
}

impl View for RuleStore {
    type V = Seq<CallForward<HasId>>;

    closed spec fn view(&self) -> Seq<CallForward<HasId>> {
        self.rules@
    }
}

/// Within the crate, the store's view is its rule sequence.
pub(crate) proof fn lemma_store_view(s: &RuleStore)
    ensures
        s@ == s.rules@,
{
}

/// The index of the first rule with id `id`, if any.
pub open spec fn find_by_id(rules: Seq<CallForward<HasId>>, id: i32) -> Option<int>
    decreases rules.len(),
{
    if rules.len() == 0 {
        None
    } else if rules[0].fwd_id.id == id {
        Some(0int)
    } else {
        match find_by_id(rules.drop_first(), id) {
            None => None,
            Some(k) => Some(k + 1),
        }
    }
}

/// The rules whose source extension is `from`, in store order.
pub open spec fn rules_from(rules: Seq<CallForward<HasId>>, from: Seq<char>) -> Seq<
    CallForward<HasId>,
>
    decreases rules.len(),
{
    if rules.len() == 0 {
        Seq::empty()
    } else if rules[0].from.extension@ == from {
        seq![rules[0]] + rules_from(rules.drop_first(), from)
    } else {
        rules_from(rules.drop_first(), from)
    }
}

/// The first rule that would collide with a new rule from `new_from` applying
/// in `new_ctxs`, reported as the colliding rule's source extension together
/// with the first colliding context, in store order and context order.
pub open spec fn conflict_of(
    rules: Seq<CallForward<HasId>>,
    new_from: Seq<char>,
    new_ctxs: Seq<Context>,
) -> Option<(Extension, Context)>
    decreases rules.len(),
{
    if rules.len() == 0 {
        None
    } else if rules[0].from.extension@ == new_from && spec_intersecting(
        rules[0].in_contexts@,
        new_ctxs,
    ).len() > 0 {
        Some((rules[0].from, spec_intersecting(rules[0].in_contexts@, new_ctxs)[0]))
    } else {
        conflict_of(rules.drop_first(), new_from, new_ctxs)
    }
}

/// The rule sequence with the first rule carrying id `id` taken out; the
/// sequence itself when no rule carries it.
pub open spec fn remove_first_id(rules: Seq<CallForward<HasId>>, id: i32) -> Seq<
    CallForward<HasId>,
>
    decreases rules.len(),
{
    if rules.len() == 0 {
        Seq::empty()
    } else if rules[0].fwd_id.id == id {
        rules.drop_first()
    } else {
        seq![rules[0]] + remove_first_id(rules.drop_first(), id)
    }
}

/// The contexts of `desired`, in order, whose wire-level name does not occur
/// in `current`.
pub open spec fn spec_ctx_missing(desired: Seq<Context>, current: Seq<Context>) -> Seq<Context>
    decreases desired.len(),
{
    if desired.len() == 0 {
        Seq::empty()
    } else if !ctx_names_contain(current, desired[0].asterisk_name@) {
        seq![desired[0]] + spec_ctx_missing(desired.drop_first(), current)
    } else {
        spec_ctx_missing(desired.drop_first(), current)
    }
}

/// The context list after a diff-based update: the currently persisted
/// contexts that are still desired stay in place, and the desired contexts
/// that were not persisted yet are appended.
pub open spec fn spec_merged_contexts(current: Seq<Context>, desired: Seq<Context>) -> Seq<
    Context,
> {
    spec_intersecting(current, desired) + spec_ctx_missing(desired, current)
}

/// Membership and distinctness of the shared-context filter: a name occurs in
/// `spec_intersecting(a, b)` exactly when it occurs in both `a` and `b`, and
/// the filter keeps distinctness of `a`.
pub proof fn lemma_intersecting_props(a: Seq<Context>, b: Seq<Context>)
    ensures
        forall|n: Seq<char>|
            #[trigger] ctx_names_contain(spec_intersecting(a, b), n) <==> (ctx_names_contain(a, n)
                && ctx_names_contain(b, n)),
        distinct_ctx_names(a) ==> distinct_ctx_names(spec_intersecting(a, b)),
    decreases a.len(),
{
    if a.len() == 0 {
    } else {
        let rest = a.drop_first();
        lemma_intersecting_props(rest, b);
        assert(distinct_ctx_names(a) ==> distinct_ctx_names(rest)) by {
            if distinct_ctx_names(a) {
                assert forall|i: int, j: int|
                    0 <= i < j < rest.len() implies rest[i].asterisk_name@
                    != rest[j].asterisk_name@ by {
                    assert(rest[i] == a[i + 1]);
                    assert(rest[j] == a[j + 1]);
                }
            }
        }
        assert forall|n: Seq<char>| #[trigger]
            ctx_names_contain(a, n) implies (a[0].asterisk_name@ == n || ctx_names_contain(
            rest,
            n,
        )) by {
            let i = choose|i: int| 0 <= i < a.len() && a[i].asterisk_name@ == n;
            if i > 0 {
                assert(rest[i - 1] == a[i]);
            }
        }
        assert forall|n: Seq<char>|
            ctx_names_contain(rest, n) implies #[trigger] ctx_names_contain(a, n) by {
            let i = choose|i: int| 0 <= i < rest.len() && rest[i].asterisk_name@ == n;
            assert(a[i + 1] == rest[i]);
        }
        if ctx_names_contain(b, a[0].asterisk_name@) {
            let s = seq![a[0]] + spec_intersecting(rest, b);
            assert(spec_intersecting(a, b) == s);
            assert forall|n: Seq<char>| #[trigger]
                ctx_names_contain(s, n) implies (ctx_names_contain(a, n) && ctx_names_contain(
                b,
                n,
            )) by {
                let i = choose|i: int| 0 <= i < s.len() && s[i].asterisk_name@ == n;
                if i == 0 {
                    assert(s[0] == a[0]);
                    assert(a[0].asterisk_name@ == n);
                } else {
                    assert(s[i] == spec_intersecting(rest, b)[i - 1]);
                    assert(ctx_names_contain(spec_intersecting(rest, b), n));
                }
            }
            assert forall|n: Seq<char>|
                (ctx_names_contain(a, n) && ctx_names_contain(b, n)) implies #[trigger]
                ctx_names_contain(s, n) by {
                if a[0].asterisk_name@ == n {
                    assert(s[0] == a[0]);
                } else {
                    assert(ctx_names_contain(rest, n));
                    assert(ctx_names_contain(spec_intersecting(rest, b), n));
                    let i = choose|i: int|
                        0 <= i < spec_intersecting(rest, b).len() && spec_intersecting(
                            rest,
                            b,
                        )[i].asterisk_name@ == n;
                    assert(s[i + 1] == spec_intersecting(rest, b)[i]);
                }
            }
            if distinct_ctx_names(a) {
                assert forall|i: int, j: int|
                    0 <= i < j < s.len() implies s[i].asterisk_name@ != s[j].asterisk_name@ by {
                    if i == 0 {
                        assert(s[j] == spec_intersecting(rest, b)[j - 1]);
                        assert(ctx_names_contain(spec_intersecting(rest, b), s[j].asterisk_name@))
                            by {
                            assert(spec_intersecting(rest, b)[j - 1].asterisk_name@
                                == s[j].asterisk_name@);
                        }
                        assert(ctx_names_contain(rest, s[j].asterisk_name@));
                        let k = choose|k: int|
                            0 <= k < rest.len() && rest[k].asterisk_name@ == s[j].asterisk_name@;
                        assert(a[k + 1] == rest[k]);
                        assert(a[0].asterisk_name@ != a[k + 1].asterisk_name@);
                    } else {
                        assert(s[i] == spec_intersecting(rest, b)[i - 1]);
                        assert(s[j] == spec_intersecting(rest, b)[j - 1]);
                        assert(distinct_ctx_names(spec_intersecting(rest, b)));
                    }
                }
            }
        }
    }
}

/// Membership and distinctness of the missing-context filter: a name occurs
/// in `spec_ctx_missing(a, b)` exactly when it occurs in `a` but not in `b`,
/// and the filter keeps distinctness of `a`.
pub proof fn lemma_missing_props(a: Seq<Context>, b: Seq<Context>)
    ensures
        forall|n: Seq<char>|
            #[trigger] ctx_names_contain(spec_ctx_missing(a, b), n) <==> (ctx_names_contain(a, n)
                && !ctx_names_contain(b, n)),
        distinct_ctx_names(a) ==> distinct_ctx_names(spec_ctx_missing(a, b)),
    decreases a.len(),
{
    if a.len() == 0 {
    } else {
        let rest = a.drop_first();
        lemma_missing_props(rest, b);
        assert(distinct_ctx_names(a) ==> distinct_ctx_names(rest)) by {
            if distinct_ctx_names(a) {
                assert forall|i: int, j: int|
                    0 <= i < j < rest.len() implies rest[i].asterisk_name@
                    != rest[j].asterisk_name@ by {
                    assert(rest[i] == a[i + 1]);
                    assert(rest[j] == a[j + 1]);
                }
            }
        }
        assert forall|n: Seq<char>| #[trigger]
            ctx_names_contain(a, n) implies (a[0].asterisk_name@ == n || ctx_names_contain(
            rest,
            n,
        )) by {
            let i = choose|i: int| 0 <= i < a.len() && a[i].asterisk_name@ == n;
            if i > 0 {
                assert(rest[i - 1] == a[i]);
            }
        }
        assert forall|n: Seq<char>|
            ctx_names_contain(rest, n) implies #[trigger] ctx_names_contain(a, n) by {
            let i = choose|i: int| 0 <= i < rest.len() && rest[i].asterisk_name@ == n;
            assert(a[i + 1] == rest[i]);
        }
        if !ctx_names_contain(b, a[0].asterisk_name@) {
            let s = seq![a[0]] + spec_ctx_missing(rest, b);
            assert(spec_ctx_missing(a, b) == s);
            assert forall|n: Seq<char>| #[trigger]
                ctx_names_contain(s, n) implies (ctx_names_contain(a, n) && !ctx_names_contain(
                b,
                n,
            )) by {
                let i = choose|i: int| 0 <= i < s.len() && s[i].asterisk_name@ == n;
                if i == 0 {
                    assert(s[0] == a[0]);
                } else {
                    assert(s[i] == spec_ctx_missing(rest, b)[i - 1]);
                    assert(ctx_names_contain(spec_ctx_missing(rest, b), n));
                }
            }
            assert forall|n: Seq<char>|
                (ctx_names_contain(a, n) && !ctx_names_contain(b, n)) implies #[trigger]
                ctx_names_contain(s, n) by {
                if a[0].asterisk_name@ == n {
                    assert(s[0] == a[0]);
                } else {
                    assert(ctx_names_contain(rest, n));
                    assert(ctx_names_contain(spec_ctx_missing(rest, b), n));
                    let i = choose|i: int|
                        0 <= i < spec_ctx_missing(rest, b).len() && spec_ctx_missing(
                            rest,
                            b,
                        )[i].asterisk_name@ == n;
                    assert(s[i + 1] == spec_ctx_missing(rest, b)[i]);
                }
            }
            if distinct_ctx_names(a) {
                assert forall|i: int, j: int|
                    0 <= i < j < s.len() implies s[i].asterisk_name@ != s[j].asterisk_name@ by {
                    if i == 0 {
                        assert(s[j] == spec_ctx_missing(rest, b)[j - 1]);
                        assert(ctx_names_contain(spec_ctx_missing(rest, b), s[j].asterisk_name@))
                            by {
                            assert(spec_ctx_missing(rest, b)[j - 1].asterisk_name@
                                == s[j].asterisk_name@);
                        }
                        assert(ctx_names_contain(rest, s[j].asterisk_name@));
                        let k = choose|k: int|
                            0 <= k < rest.len() && rest[k].asterisk_name@ == s[j].asterisk_name@;
                        assert(a[k + 1] == rest[k]);
                        assert(a[0].asterisk_name@ != a[k + 1].asterisk_name@);
                    } else {
                        assert(s[i] == spec_ctx_missing(rest, b)[i - 1]);
                        assert(s[j] == spec_ctx_missing(rest, b)[j - 1]);
                        assert(distinct_ctx_names(spec_ctx_missing(rest, b)));
                    }
                }
            }
        }
    }
}

/// Correctness of the diff-based context update: after merging, the persisted
/// context names are exactly the desired ones — the additions are there, the
/// removals are gone and everything else is untouched — and the merged list
/// is non-empty and free of duplicates whenever the desired list is.
pub proof fn lemma_merged_contexts_props(current: Seq<Context>, desired: Seq<Context>)
    requires
        distinct_ctx_names(current),
        distinct_ctx_names(desired),
    ensures
        forall|n: Seq<char>|
            #[trigger] ctx_names_contain(spec_merged_contexts(current, desired), n)
                <==> ctx_names_contain(desired, n),
        distinct_ctx_names(spec_merged_contexts(current, desired)),
        desired.len() > 0 ==> spec_merged_contexts(current, desired).len() > 0,
{
    lemma_intersecting_props(current, desired);
    lemma_missing_props(desired, current);
    let keep = spec_intersecting(current, desired);
    let add = spec_ctx_missing(desired, current);
    let s = keep + add;
    assert forall|n: Seq<char>| #[trigger]
        ctx_names_contain(s, n) implies ctx_names_contain(desired, n) by {
        let i = choose|i: int| 0 <= i < s.len() && s[i].asterisk_name@ == n;
        if i < keep.len() {
            assert(s[i] == keep[i]);
            assert(ctx_names_contain(keep, n));
        } else {
            assert(s[i] == add[i - keep.len()]);
            assert(ctx_names_contain(add, n));
        }
    }
    assert forall|n: Seq<char>|
        ctx_names_contain(desired, n) implies #[trigger] ctx_names_contain(s, n) by {
        if ctx_names_contain(current, n) {
            assert(ctx_names_contain(keep, n));
            let i = choose|i: int| 0 <= i < keep.len() && keep[i].asterisk_name@ == n;
            assert(s[i] == keep[i]);
        } else {
            assert(ctx_names_contain(add, n));
            let i = choose|i: int| 0 <= i < add.len() && add[i].asterisk_name@ == n;
            assert(s[keep.len() + i] == add[i]);
        }
    }
    assert forall|i: int, j: int|
        0 <= i < j < s.len() implies s[i].asterisk_name@ != s[j].asterisk_name@ by {
        if i < keep.len() && j < keep.len() {
            assert(s[i] == keep[i]);
            assert(s[j] == keep[j]);
        } else if i >= keep.len() {
            assert(s[i] == add[i - keep.len()]);
            assert(s[j] == add[j - keep.len()]);
        } else {
            assert(s[i] == keep[i]);
            assert(s[j] == add[j - keep.len()]);
            assert(ctx_names_contain(keep, s[i].asterisk_name@)) by {
                assert(keep[i].asterisk_name@ == s[i].asterisk_name@);
            }
            assert(ctx_names_contain(add, s[j].asterisk_name@)) by {
                assert(add[j - keep.len()].asterisk_name@ == s[j].asterisk_name@);
            }
        }
    }
    if desired.len() > 0 {
        assert(ctx_names_contain(desired, desired[0].asterisk_name@)) by {
            assert(desired[0].asterisk_name@ == desired[0].asterisk_name@);
        }
        assert(ctx_names_contain(s, desired[0].asterisk_name@));
    }
}

/// The contexts of `desired`, in order, whose name does not occur among
/// `current`'s contexts: the memberships a diff-based update must insert.
pub fn missing_contexts(desired: &Vec<Context>, current: &Vec<Context>) -> (r: Vec<Context>)
    ensures
        r@ == spec_ctx_missing(desired@, current@),
{
    let mut res: Vec<Context> = Vec::new();
    let n = desired.len();
    let mut i: usize = 0;
    proof {
        assert(desired@.skip(0) =~= desired@);
        assert(res@ + spec_ctx_missing(desired@, current@) =~= spec_ctx_missing(
            desired@,
            current@,
        ));
    }
    while i < n
        invariant
            i <= n,
            n == desired.len(),
            spec_ctx_missing(desired@, current@) == res@ + spec_ctx_missing(
                desired@.skip(i as int),
                current@,
            ),
        decreases n - i,
    {
        proof {
            assert(desired@.skip(i as int)[0] == desired@[i as int]);
            assert(desired@.skip(i as int).drop_first() =~= desired@.skip(i as int + 1));
        }
        let ghost prev = res@;
        if !crate::types::context_name_in(current, desired[i].asterisk_name.as_str()) {
            res.push(desired[i].clone());
            proof {
                assert(res@ =~= prev + seq![desired@[i as int]]);
                assert(prev + (seq![desired@[i as int]] + spec_ctx_missing(
                    desired@.skip(i as int + 1),
                    current@,
                )) =~= res@ + spec_ctx_missing(desired@.skip(i as int + 1), current@));
            }
        }
        i += 1;
    }
    proof {
        assert(desired@.skip(n as int) =~= Seq::<Context>::empty());
        assert(res@ + Seq::<Context>::empty() =~= res@);
    }
    res
}

/// One row of the durable store's join of rules and context memberships: a
/// rule appears once per context it applies in.
#[derive(Debug, PartialEq)]
pub struct ForwardRow {
    pub fwd_id: i32,
    pub from_extension: String,
    pub to_extension: String,
    pub context: String,
}

/// The data of one assembled rule: id, source, destination, contexts.
pub open spec fn rule_models(rules: Seq<CallForward<HasId>>) -> Seq<
    (i32, Extension, Extension, Seq<Context>),
> {
    rules.map_values(|r: CallForward<HasId>| (r.fwd_id.id, r.from, r.to, r.in_contexts@))
}

/// The assembled rule a row belongs to: the first one carrying the row's
/// rule id.
pub open spec fn find_model(
    ms: Seq<(i32, Extension, Extension, Seq<Context>)>,
    fwd_id: i32,
) -> Option<int>
    decreases ms.len(),
{
    if ms.len() == 0 {
        None
    } else if ms[0].0 == fwd_id {
        Some(0int)
    } else {
        match find_model(ms.drop_first(), fwd_id) {
            None => None,
            Some(k) => Some(k + 1),
        }
    }
}

/// Row assembly: a rule's id is its identity, so each row either joins the
/// assembled rule that carries its id, appending its context, or starts a
/// new rule with its id, source and destination. Every context name must
/// resolve against the registry; the first unknown one is the error.
pub open spec fn spec_convert_rows(
    exts: Seq<Extension>,
    ctxs: Seq<Context>,
    rows: Seq<ForwardRow>,
    acc: Seq<(i32, Extension, Extension, Seq<Context>)>,
) -> Result<Seq<(i32, Extension, Extension, Seq<Context>)>, DBError>
    decreases rows.len(),
{
    if rows.len() == 0 {
        Ok(acc)
    } else {
        let row = rows[0];
        match crate::types::spec_find_context(ctxs, row.context@) {
            None => Err(DBError::ContextDoesNotExist(row.context)),
            Some(c) => {
                let acc2 = match find_model(acc, row.fwd_id) {
                    Some(k) => acc.update(k, (acc[k].0, acc[k].1, acc[k].2, acc[k].3.push(c))),
                    None => acc.push(
                        (
                            row.fwd_id,
                            crate::types::spec_extension_of(exts, row.from_extension),
                            crate::types::spec_extension_of(exts, row.to_extension),
                            seq![c],
                        ),
                    ),
                };
                spec_convert_rows(exts, ctxs, rows.drop_first(), acc2)
            },
        }
    }
}

/// The index of the assembled rule carrying the row's rule id, if any.
fn find_matching_rule(result: &Vec<CallForward<HasId>>, fwd_id: i32) -> (r: Option<usize>)
    ensures
        match r {
            None => find_model(rule_models(result@), fwd_id) == None::<int>,
            Some(k) => k < result@.len() && find_model(rule_models(result@), fwd_id) == Some(
                k as int,
            ),
        },
{
    let ghost ms = rule_models(result@);
    let n = result.len();
    let mut i: usize = 0;
    proof {
        assert(ms.skip(0) =~= ms);
    }
    while i < n
        invariant
            i <= n,
            n == result.len(),
            ms == rule_models(result@),
            match find_model(ms.skip(i as int), fwd_id) {
                None => find_model(ms, fwd_id) == None::<int>,
                Some(k) => find_model(ms, fwd_id) == Some(k + i),
            },
        decreases n - i,
    {
        proof {
            assert(ms.skip(i as int)[0] == ms[i as int]);
            assert(ms.skip(i as int).drop_first() =~= ms.skip(i as int + 1));
        }
        if result[i].fwd_id.id == fwd_id {
            return Some(i);
        }
        i += 1;
    }
    proof {
        assert(ms.skip(n as int) =~= Seq::<(i32, Extension, Extension, Seq<Context>)>::empty());
    }
    None
}

/// Assemble the rows the durable store returns for a query into rules: rows
/// carrying the same rule id are folded into one rule holding all their
/// contexts, in row order; its source and destination are the first such
/// row's.
pub fn convert_to_call_forwards(
    registry: &crate::types::Registry,
    call_forwards: Vec<ForwardRow>,
) -> (r: Result<Vec<CallForward<HasId>>, DBError>)
    ensures
        match spec_convert_rows(
            registry.extensions@,
            registry.contexts@,
            call_forwards@,
            Seq::empty(),
        ) {
            Err(e) => r == Err::<Vec<CallForward<HasId>>, DBError>(e),
            Ok(ms) => match r {
                Err(_) => false,
                Ok(rules) => rule_models(rules@) == ms,
            },
        },
{
    let mut result: Vec<CallForward<HasId>> = Vec::new();
    let n = call_forwards.len();
    let mut i: usize = 0;
    proof {
        assert(call_forwards@.skip(0) =~= call_forwards@);
        assert(rule_models(result@) =~= Seq::<(i32, Extension, Extension, Seq<Context>)>::empty());
    }
    while i < n
        invariant
            i <= n,
            n == call_forwards.len(),
            spec_convert_rows(
                registry.extensions@,
                registry.contexts@,
                call_forwards@,
                Seq::empty(),
            ) == spec_convert_rows(
                registry.extensions@,
                registry.contexts@,
                call_forwards@.skip(i as int),
                rule_models(result@),
            ),
        decreases n - i,
    {
        proof {
            assert(call_forwards@.skip(i as int)[0] == call_forwards@[i as int]);
            assert(call_forwards@.skip(i as int).drop_first() =~= call_forwards@.skip(
                i as int + 1,
            ));
        }
        let row = &call_forwards[i];
        let ghost prev = rule_models(result@);
        match find_matching_rule(&result, row.fwd_id) {
            Some(k) => {
                match crate::types::Context::create_from_name(registry, row.context.as_str()) {
                    None => {
                        return Err(DBError::ContextDoesNotExist(row.context.clone()));
                    },
                    Some(c) => {
                        let mut updated = result[k].clone();
                        updated.in_contexts.push(c);
                        result[k] = updated;
                        proof {
                            let spec_c = crate::types::spec_find_context(
                                registry.contexts@,
                                call_forwards@[i as int].context@,
                            ).unwrap();
                            assert(rule_models(result@) =~~= prev.update(
                                k as int,
                                (prev[k as int].0, prev[k as int].1, prev[k as int].2, prev[
                                    k as int].3.push(spec_c)),
                            ));
                        }
                    },
                }
            },
            None => {
                let mut ctx_names: Vec<String> = Vec::new();
                ctx_names.push(row.context.clone());
                let ghost names = ctx_names@;
                proof {
                    assert(names =~= seq![call_forwards@[i as int].context]);
                    assert(names.drop_first() =~= Seq::<String>::empty());
                    assert(crate::types::spec_contexts_from_names(
                        registry.contexts@,
                        Seq::<String>::empty(),
                    ) == Ok::<Seq<Context>, DBError>(Seq::<Context>::empty()));
                    assert(crate::types::spec_contexts_from_names(
                        registry.contexts@,
                        names.drop_first(),
                    ) == Ok::<Seq<Context>, DBError>(Seq::<Context>::empty()));
                }
                match CallForward::<HasId>::new(
                    registry,
                    row.from_extension.clone(),
                    row.to_extension.clone(),
                    ctx_names,
                    row.fwd_id,
                ) {
                    Err(e) => {
                        return Err(e);
                    },
                    Ok(new_rule) => {
                        result.push(new_rule);
                        proof {
                            let row_g = call_forwards@[i as int];
                            let spec_c = crate::types::spec_find_context(
                                registry.contexts@,
                                row_g.context@,
                            ).unwrap();
                            assert(seq![spec_c] + Seq::<Context>::empty() =~= seq![spec_c]);
                            assert(new_rule.in_contexts@ =~= seq![spec_c]);
                            assert(rule_models(result@) =~~= prev.push(
                                (
                                    row_g.fwd_id,
                                    crate::types::spec_extension_of(
                                        registry.extensions@,
                                        row_g.from_extension,
                                    ),
                                    crate::types::spec_extension_of(
                                        registry.extensions@,
                                        row_g.to_extension,
                                    ),
                                    seq![spec_c],
                                ),
                            ));
                        }
                    },
                }
            },
        }
        i += 1;
    }
    proof {
        assert(call_forwards@.skip(n as int) =~= Seq::<ForwardRow>::empty());
    }
    Ok(result)
}

/// Two context lists are disjoint when no wire-level name occurs in both.
pub open spec fn ctx_disjoint(x: Seq<Context>, y: Seq<Context>) -> bool {
    forall|n: Seq<char>| !(#[trigger] ctx_names_contain(x, n) && ctx_names_contain(y, n))
}

/// The non-overlap invariant over a rule sequence: any two rules sharing a
/// source extension apply in disjoint context sets.
pub open spec fn no_overlap(rules: Seq<CallForward<HasId>>) -> bool {
    forall|i: int, j: int|
        #![trigger rules[i], rules[j]]
        0 <= i < j < rules.len() && rules[i].from.extension@ == rules[j].from.extension@
            ==> ctx_disjoint(rules[i].in_contexts@, rules[j].in_contexts@)
}

/// An absent conflict report means exactly that every stored rule sharing the
/// new rule's source extension shares none of its contexts.
pub proof fn lemma_conflict_of_none(
    rules: Seq<CallForward<HasId>>,
    from: Seq<char>,
    ctxs: Seq<Context>,
)
    ensures
        conflict_of(rules, from, ctxs) is None <==> (forall|i: int|
            0 <= i < rules.len() && rules[i].from.extension@ == from
                ==> #[trigger] spec_intersecting(rules[i].in_contexts@, ctxs).len() == 0),
    decreases rules.len(),
{
    if rules.len() == 0 {
    } else {
        let rest = rules.drop_first();
        lemma_conflict_of_none(rest, from, ctxs);
        assert(forall|i: int| 0 <= i < rest.len() ==> rest[i] == rules[i + 1]);
        if !(rules[0].from.extension@ == from && spec_intersecting(
            rules[0].in_contexts@,
            ctxs,
        ).len() > 0) {
            if conflict_of(rules, from, ctxs) is None {
                assert forall|i: int|
                    0 <= i < rules.len() && rules[i].from.extension@ == from implies #[trigger]
                    spec_intersecting(rules[i].in_contexts@, ctxs).len() == 0 by {
                    if i > 0 {
                        assert(rest[i - 1] == rules[i]);
                    }
                }
            }
        }
    }
}

/// The non-overlap invariant holds after every successful creation: if the
/// persisted rules do not overlap and the store reported no conflict for a
/// new rule, then the rules together with the newly appended rule do not
/// overlap either.
pub proof fn lemma_create_preserves_no_overlap(
    rules: Seq<CallForward<HasId>>,
    rule: CallForward<HasId>,
)
    requires
        no_overlap(rules),
        conflict_of(rules, rule.from.extension@, rule.in_contexts@) is None,
    ensures
        no_overlap(rules.push(rule)),
{
    lemma_conflict_of_none(rules, rule.from.extension@, rule.in_contexts@);
    let p = rules.push(rule);
    assert forall|i: int, j: int|
        #![trigger p[i], p[j]]
        0 <= i < j < p.len() && p[i].from.extension@ == p[j].from.extension@ implies ctx_disjoint(
        p[i].in_contexts@,
        p[j].in_contexts@,
    ) by {
        if j < rules.len() {
            assert(p[i] == rules[i]);
            assert(p[j] == rules[j]);
        } else {
            assert(p[j] == rule);
            assert(p[i] == rules[i]);
            if p[i].from.extension@ == rule.from.extension@ {
                assert(spec_intersecting(rules[i].in_contexts@, rule.in_contexts@).len() == 0);
                lemma_intersecting_props(rules[i].in_contexts@, rule.in_contexts@);
                assert forall|n: Seq<char>|
                    !(#[trigger] ctx_names_contain(rules[i].in_contexts@, n) && ctx_names_contain(
                        rule.in_contexts@,
                        n,
                    )) by {
                    if ctx_names_contain(rules[i].in_contexts@, n) && ctx_names_contain(
                        rule.in_contexts@,
                        n,
                    ) {
                        assert(ctx_names_contain(
                            spec_intersecting(rules[i].in_contexts@, rule.in_contexts@),
                            n,
                        ));
                    }
                }
            }
        }
    }
}

/// Round trip of creation and lookup: a rule appended with an id that no
/// stored rule carries is found again by that id, at the end of the store.
pub proof fn lemma_create_then_get(rules: Seq<CallForward<HasId>>, rule: CallForward<HasId>)
    requires
        forall|i: int| 0 <= i < rules.len() ==> rules[i].fwd_id.id != rule.fwd_id.id,
    ensures
        find_by_id(rules.push(rule), rule.fwd_id.id) == Some(rules.len() as int),
        rules.push(rule)[rules.len() as int] == rule,
    decreases rules.len(),
{
    let p = rules.push(rule);
    if rules.len() == 0 {
        assert(p[0] == rule);
    } else {
        assert(p[0] == rules[0]);
        assert(p.drop_first() =~= rules.drop_first().push(rule));
        assert(forall|i: int|
            0 <= i < rules.drop_first().len() ==> rules.drop_first()[i] == rules[i + 1]);
        lemma_create_then_get(rules.drop_first(), rule);
    }
}

/// Well-formedness of a rule sequence as the store maintains it: ids are
/// pairwise distinct, and every rule applies in at least one context, with
/// no context named twice within one rule.
pub open spec fn rules_wf(rules: Seq<CallForward<HasId>>) -> bool {
    &&& forall|i: int, j: int|
        0 <= i < j < rules.len() ==> rules[i].fwd_id.id != rules[j].fwd_id.id
    &&& forall|i: int| 0 <= i < rules.len() ==> rules[i].in_contexts@.len() > 0
    &&& forall|i: int| 0 <= i < rules.len() ==> distinct_ctx_names(rules[i].in_contexts@)
}

/// What a well-formed store guarantees of the rules it exposes: its rule
/// sequence is itself well-formed — ids are unique and every rule's context
/// set is non-empty and duplicate-free.
pub proof fn lemma_store_wf_rules(s: &RuleStore)
    requires
        s.wf(),
    ensures
        rules_wf(s@),
{
}

/// A sequence in which no rule carries `id` yields no lookup result for it.
pub proof fn lemma_find_by_id_none(rules: Seq<CallForward<HasId>>, id: i32)
    requires
        forall|i: int| 0 <= i < rules.len() ==> rules[i].fwd_id.id != id,
    ensures
        find_by_id(rules, id) is None,
    decreases rules.len(),
{
    if rules.len() > 0 {
        assert(forall|i: int|
            0 <= i < rules.drop_first().len() ==> rules.drop_first()[i] == rules[i + 1]);
        lemma_find_by_id_none(rules.drop_first(), id);
    }
}

/// Delete-then-get: after the rule with `id` is removed from a sequence with
/// pairwise distinct ids, no rule carries that id any more, and looking the
/// id up finds nothing.
pub proof fn lemma_delete_then_get(rules: Seq<CallForward<HasId>>, id: i32)
    requires
        rules_wf(rules),
    ensures
        forall|i: int|
            0 <= i < remove_first_id(rules, id).len() ==> remove_first_id(
                rules,
                id,
            )[i].fwd_id.id != id,
        find_by_id(remove_first_id(rules, id), id) is None,
    decreases rules.len(),
{
    if rules.len() == 0 {
    } else {
        let rest = rules.drop_first();
        assert(forall|i: int| 0 <= i < rest.len() ==> rest[i] == rules[i + 1]);
        assert(rules_wf(rest)) by {
            assert(forall|i: int, j: int|
                0 <= i < j < rest.len() ==> rest[i].fwd_id.id != rest[j].fwd_id.id);
        }
        if rules[0].fwd_id.id == id {
            // Uniqueness: the removed head was the only rule with the id.
            assert(forall|i: int| 0 <= i < rest.len() ==> rest[i].fwd_id.id != id);
            lemma_find_by_id_none(rest, id);
        } else {
            lemma_delete_then_get(rest, id);
            let removed = seq![rules[0]] + remove_first_id(rest, id);
            assert(remove_first_id(rules, id) == removed);
            assert(forall|i: int|
                1 <= i < removed.len() ==> removed[i] == remove_first_id(rest, id)[i - 1]);
            assert(removed.drop_first() =~= remove_first_id(rest, id));
        }
    }
}

impl RuleStore {
    /// Well-formedness: ids are unique and below the next id to assign, and
    /// every rule applies in at least one context, with no context named
    /// twice within one rule.
    pub closed spec fn wf(&self) -> bool {
        &&& rules_wf(self.rules@)
        &&& forall|i: int| 0 <= i < self.rules@.len() ==> self.rules@[i].fwd_id.id < self.next_id
        &&& self.next_id >= 1
    }

    /// The next id the store would assign.
    pub closed spec fn spec_next_id(&self) -> int {
        self.next_id as int
    }

    pub fn new() -> (r: RuleStore)
        ensures
            r@ == Seq::<CallForward<HasId>>::empty(),
            r.wf(),
            r.spec_next_id() == 1,
    {
        RuleStore { rules: Vec::new(), next_id: 1 }
    }

    /// Persist a new call forward.
    ///
    /// No two call forwards from the same extension may be applicable in the
    /// same context: if an existing rule shares the source extension and at
    /// least one context, nothing is written and the collision is reported as
    /// `OverlappingCallForwards`. Otherwise the rule is appended with a fresh
    /// id. A rule may well share its source extension with existing rules, as
    /// long as their context sets are disjoint.
    pub fn new_call_forward(&mut self, new_forward: CallForward<NoId>) -> (r: Result<
        CallForward<HasId>,
        DBError,
    >)
        requires
            old(self).wf(),
            new_forward.in_contexts@.len() > 0,
            distinct_ctx_names(new_forward.in_contexts@),
        ensures
            final(self).wf(),
            match conflict_of(
                old(self)@,
                new_forward.from.extension@,
                new_forward.in_contexts@,
            ) {
                Some(pair) => {
                    &&& r == Err::<CallForward<HasId>, DBError>(
                        DBError::OverlappingCallForwards(pair.0, pair.1),
                    )
                    &&& final(self)@ == old(self)@
                },
                None => {
                    if old(self).spec_next_id() == i32::MAX as int {
                        &&& r == Err::<CallForward<HasId>, DBError>(
                            DBError::CannotInsertCallForward,
                        )
                        &&& final(self)@ == old(self)@
                    } else {
                        match r {
                            Err(_) => false,
                            Ok(rule) => {
                                &&& rule.from == new_forward.from
                                &&& rule.to == new_forward.to
                                &&& rule.in_contexts@ == new_forward.in_contexts@
                                &&& forall|i: int|
                                    0 <= i < old(self)@.len() ==> old(
                                        self,
                                    )@[i].fwd_id.id != rule.fwd_id.id
                                &&& final(self)@.len() == old(self)@.len() + 1
                                &&& forall|i: int|
                                    0 <= i < old(self)@.len() ==> final(self)@[i] == old(self)@[i]
                                &&& cf_eq(final(self)@[old(self)@.len() as int], rule)
                                &&& final(self).spec_next_id() == old(self).spec_next_id() + 1
                            },
                        }
                    }
                },
            },
    {
        let n = self.rules.len();
        let mut i: usize = 0;
        proof {
            assert(self.rules@.skip(0) =~= self.rules@);
        }
        while i < n
            invariant
                i <= n,
                n == self.rules.len(),
                *self == *old(self),
                old(self).wf(),
                conflict_of(self.rules@, new_forward.from.extension@, new_forward.in_contexts@)
                    == conflict_of(
                    self.rules@.skip(i as int),
                    new_forward.from.extension@,
                    new_forward.in_contexts@,
                ),
            decreases n - i,
        {
            proof {
                assert(self.rules@.skip(i as int)[0] == self.rules@[i as int]);
                assert(self.rules@.skip(i as int).drop_first() =~= self.rules@.skip(i as int + 1));
            }
            if str_eq(
                self.rules[i].from.extension.as_str(),
                new_forward.from.extension.as_str(),
            ) {
                let mut shared = self.rules[i].intersecting_contexts(&new_forward);
                if shared.len() > 0 {
                    let overlap = shared.remove(0);
                    return Err(DBError::OverlappingCallForwards(
                        self.rules[i].from.clone(),
                        overlap,
                    ));
                }
            }
            i += 1;
        }
        proof {
            assert(self.rules@.skip(n as int) =~= Seq::<CallForward<HasId>>::empty());
        }
        // No overlapping call forward exists: assign an id and persist.
        if self.next_id == i32::MAX {
            return Err(DBError::CannotInsertCallForward);
        }
        let new_id = self.next_id;
        self.next_id = self.next_id + 1;
        let rule = new_forward.set_id(new_id);
        let stored = rule.clone();
        self.rules.push(stored);
        Ok(rule)
    }

    /// Snapshot of every persisted rule, in store order.
    pub fn get_all_call_forwards(&self) -> (r: Vec<CallForward<HasId>>)
        ensures
            r@.len() == self@.len(),
            forall|i: int| 0 <= i < self@.len() ==> cf_eq(r@[i], self@[i]),
    {
        let n = self.rules.len();
        let mut res: Vec<CallForward<HasId>> = Vec::new();
        let mut i: usize = 0;
        while i < n
            invariant
                i <= n,
                n == self.rules.len(),
                res@.len() == i,
                forall|k: int| 0 <= k < i ==> cf_eq(res@[k], self.rules@[k]),
            decreases n - i,
        {
            res.push(self.rules[i].clone());
            i += 1;
        }
        res
    }

    /// Snapshot of every persisted rule whose source extension is
    /// `startpoint`, in store order.
    pub fn get_call_forwards_from_startpoint(&self, startpoint: &Extension) -> (r: Vec<
        CallForward<HasId>,
    >)
        ensures
            r@.len() == rules_from(self@, startpoint.extension@).len(),
            forall|i: int|
                0 <= i < r@.len() ==> cf_eq(r@[i], rules_from(self@, startpoint.extension@)[i]),
    {
        let n = self.rules.len();
        let mut res: Vec<CallForward<HasId>> = Vec::new();
        let ghost mut picked: Seq<CallForward<HasId>> = Seq::empty();
        let mut i: usize = 0;
        proof {
            assert(self.rules@.skip(0) =~= self.rules@);
            assert(picked + rules_from(self.rules@, startpoint.extension@) =~= rules_from(
                self.rules@,
                startpoint.extension@,
            ));
        }
        while i < n
            invariant
                i <= n,
                n == self.rules.len(),
                rules_from(self.rules@, startpoint.extension@) == picked + rules_from(
                    self.rules@.skip(i as int),
                    startpoint.extension@,
                ),
                res@.len() == picked.len(),
                forall|k: int| 0 <= k < picked.len() ==> cf_eq(res@[k], picked[k]),
            decreases n - i,
        {
            proof {
                assert(self.rules@.skip(i as int)[0] == self.rules@[i as int]);
                assert(self.rules@.skip(i as int).drop_first() =~= self.rules@.skip(i as int + 1));
            }
            let ghost prev = picked;
            if str_eq(self.rules[i].from.extension.as_str(), startpoint.extension.as_str()) {
                res.push(self.rules[i].clone());
                proof {
                    picked = picked.push(self.rules@[i as int]);
                    assert(picked =~= prev + seq![self.rules@[i as int]]);
                    assert(prev + (seq![self.rules@[i as int]] + rules_from(
                        self.rules@.skip(i as int + 1),
                        startpoint.extension@,
                    )) =~= picked + rules_from(
                        self.rules@.skip(i as int + 1),
                        startpoint.extension@,
                    ));
                }
            }
            i += 1;
        }
        proof {
            assert(self.rules@.skip(n as int) =~= Seq::<CallForward<HasId>>::empty());
            assert(picked + Seq::<CallForward<HasId>>::empty() =~= picked);
        }
        res
    }

    /// The rule with id `fwdid`, or `CannotSelectCallForward` when no rule
    /// carries that id.
    pub fn get_call_forward_by_id(&self, fwdid: i32) -> (r: Result<CallForward<HasId>, DBError>)
        ensures
            match find_by_id(self@, fwdid) {
                None => r == Err::<CallForward<HasId>, DBError>(
                    DBError::CannotSelectCallForward(fwdid),
                ),
                Some(k) => match r {
                    Err(_) => false,
                    Ok(rule) => cf_eq(rule, self@[k]),
                },
            },
    {
        let n = self.rules.len();
        let mut i: usize = 0;
        proof {
            assert(self.rules@.skip(0) =~= self.rules@);
        }
        while i < n
            invariant
                i <= n,
                n == self.rules.len(),
                match find_by_id(self.rules@.skip(i as int), fwdid) {
                    None => find_by_id(self.rules@, fwdid) == None::<int>,
                    Some(k) => find_by_id(self.rules@, fwdid) == Some(k + i),
                },
            decreases n - i,
        {
            proof {
                assert(self.rules@.skip(i as int)[0] == self.rules@[i as int]);
                assert(self.rules@.skip(i as int).drop_first() =~= self.rules@.skip(i as int + 1));
            }
            if self.rules[i].fwd_id.id == fwdid {
                return Ok(self.rules[i].clone());
            }
            i += 1;
        }
        proof {
            assert(self.rules@.skip(n as int) =~= Seq::<CallForward<HasId>>::empty());
        }
        Err(DBError::CannotSelectCallForward(fwdid))
    }

    /// Update the rule carrying `forward`'s id, which must still exist (else
    /// `CannotSelectCallForward`). `from` and `to` are updated
    /// unconditionally. The context set is updated by diff: contexts of
    /// `forward` not persisted yet are inserted, persisted contexts no longer
    /// in `forward` are removed, and the rest stay in place. The non-overlap
    /// invariant is not re-checked here; creation is where it is enforced.
    pub fn update_call_forward(&mut self, forward: &CallForward<HasId>) -> (r: Result<
        (),
        DBError,
    >)
        requires
            old(self).wf(),
            forward.in_contexts@.len() > 0,
            distinct_ctx_names(forward.in_contexts@),
        ensures
            final(self).wf(),
            match find_by_id(old(self)@, forward.fwd_id.id) {
                None => {
                    &&& r == Err::<(), DBError>(
                        DBError::CannotSelectCallForward(forward.fwd_id.id),
                    )
                    &&& final(self)@ == old(self)@
                },
                Some(k) => {
                    &&& r == Ok::<(), DBError>(())
                    &&& final(self)@.len() == old(self)@.len()
                    &&& forall|j: int|
                        0 <= j < old(self)@.len() && j != k ==> final(self)@[j] == old(self)@[j]
                    &&& final(self)@[k].fwd_id == forward.fwd_id
                    &&& final(self)@[k].from == forward.from
                    &&& final(self)@[k].to == forward.to
                    &&& final(self)@[k].in_contexts@ == spec_merged_contexts(
                        old(self)@[k].in_contexts@,
                        forward.in_contexts@,
                    )
                    &&& final(self).spec_next_id() == old(self).spec_next_id()
                },
            },
    {
        let n = self.rules.len();
        let mut i: usize = 0;
        proof {
            assert(self.rules@.skip(0) =~= self.rules@);
        }
        while i < n
            invariant
                i <= n,
                n == self.rules.len(),
                *self == *old(self),
                old(self).wf(),
                forward.in_contexts@.len() > 0,
                distinct_ctx_names(forward.in_contexts@),
                match find_by_id(self.rules@.skip(i as int), forward.fwd_id.id) {
                    None => find_by_id(self.rules@, forward.fwd_id.id) == None::<int>,
                    Some(k) => find_by_id(self.rules@, forward.fwd_id.id) == Some(k + i),
                },
            decreases n - i,
        {
            proof {
                assert(self.rules@.skip(i as int)[0] == self.rules@[i as int]);
                assert(self.rules@.skip(i as int).drop_first() =~= self.rules@.skip(i as int + 1));
            }
            if self.rules[i].fwd_id.id == forward.fwd_id.id {
                // The rule exists: update source and target, then apply the
                // context diff.
                let mut new_ctxs = self.rules[i].intersecting_contexts(forward);
                let mut additions = missing_contexts(&forward.in_contexts, &self.rules[i].in_contexts);
                new_ctxs.append(&mut additions);
                let updated = CallForward::<HasId> {
                    fwd_id: forward.fwd_id,
                    from: forward.from.clone(),
                    to: forward.to.clone(),
                    in_contexts: new_ctxs,
                };
                let ghost prev = self.rules@;
                self.rules[i] = updated;
                proof {
                    lemma_merged_contexts_props(
                        prev[i as int].in_contexts@,
                        forward.in_contexts@,
                    );
                    assert(self.rules@ == prev.update(i as int, updated));
                    assert(forall|j: int|
                        0 <= j < self.rules@.len() && j != i as int ==> self.rules@[j] == prev[j]);
                    assert(self.rules@[i as int] == updated);
                }
                return Ok(());
            }
            i += 1;
        }
        proof {
            assert(self.rules@.skip(n as int) =~= Seq::<CallForward<HasId>>::empty());
        }
        Err(DBError::CannotSelectCallForward(forward.fwd_id.id))
    }

    /// Remove the rule with id `fwd_id` together with its context
    /// memberships. Removing an id that is not present is not distinguished
    /// from success: the store is simply left unchanged.
    pub fn delete_call_forward_by_id(&mut self, fwd_id: i32) -> (r: Result<(), DBError>)
        requires
            old(self).wf(),
        ensures
            final(self).wf(),
            r == Ok::<(), DBError>(()),
            final(self)@ == remove_first_id(old(self)@, fwd_id),
            final(self).spec_next_id() == old(self).spec_next_id(),
    {
        let n = self.rules.len();
        let mut i: usize = 0;
        proof {
            assert(self.rules@.skip(0) =~= self.rules@);
            assert(self.rules@.take(0) + remove_first_id(self.rules@, fwd_id) =~= remove_first_id(
                self.rules@,
                fwd_id,
            ));
        }
        while i < n
            invariant
                i <= n,
                n == self.rules.len(),
                *self == *old(self),
                old(self).wf(),
                remove_first_id(self.rules@, fwd_id) == self.rules@.take(i as int)
                    + remove_first_id(self.rules@.skip(i as int), fwd_id),
            decreases n - i,
        {
            proof {
                assert(self.rules@.skip(i as int)[0] == self.rules@[i as int]);
                assert(self.rules@.skip(i as int).drop_first() =~= self.rules@.skip(i as int + 1));
            }
            if self.rules[i].fwd_id.id == fwd_id {
                let ghost prev = self.rules@;
                proof {
                    assert(prev.take(i as int) + prev.skip(i as int + 1) =~= prev.remove(i as int));
                }
                self.rules.remove(i);
                proof {
                    assert forall|j: int| 0 <= j < self.rules@.len() implies self.rules@[j] == (
                    if j < i as int {
                        prev[j]
                    } else {
                        prev[j + 1]
                    }) by {
                        assert(self.rules@ == prev.remove(i as int));
                    }
                }
                return Ok(());
            }
            proof {
                assert(self.rules@.take(i as int) + (seq![self.rules@[i as int]]
                    + remove_first_id(self.rules@.skip(i as int + 1), fwd_id)) =~= self.rules@.take(
                    i as int + 1,
                ) + remove_first_id(self.rules@.skip(i as int + 1), fwd_id));
            }
            i += 1;
        }
        proof {
            assert(self.rules@.skip(n as int) =~= Seq::<CallForward<HasId>>::empty());
            assert(self.rules@.take(n as int) + Seq::<CallForward<HasId>>::empty()
                =~= self.rules@);
        }
        Ok(())
    }
}

} // verus!
