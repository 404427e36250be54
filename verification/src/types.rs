//! Core value types: extensions, contexts, the read-only registry and the
//! call-forward rule with its persisted / unpersisted typestate.

use vstd::prelude::*;
use vstd::string::StringExecFns;

use crate::db::DBError;

verus! {

/// A call endpoint. `name` is the optional display name resolved from the
/// registry; endpoints outside the registry are valid (external destinations)
/// and carry no display name. Identity is the `extension` id string.
#[derive(Debug, PartialEq)]
pub struct Extension {
    pub name: Option<String>,
    // Note: this is usually a number code, but there is no guarantee of this,
    // so it is kept as a raw String.
    pub extension: String,
}

impl Clone for Extension {
    fn clone(&self) -> (r: Self)
        ensures
            r == *self,
    {
        Extension {
            name: match &self.name {
                Option::Some(s) => Option::Some(s.clone()),
                Option::None => Option::None,
            },
            extension: self.extension.clone(),
        }
    }
}

/// An operating scope in which a call arrives, defined by the registry.
/// `asterisk_name` is the wire-level identifier used by the telephony engine.
#[derive(Debug, PartialEq)]
pub struct Context {
    pub display_name: String,
    pub asterisk_name: String,
}

impl Clone for Context {
    fn clone(&self) -> (r: Self)
        ensures
            r == *self,
    {
        Context {
            display_name: self.display_name.clone(),
            asterisk_name: self.asterisk_name.clone(),
        }
    }
}

/// The static catalog of known extensions and contexts, loaded once at
/// startup and never mutated afterwards.
pub struct Registry {
    pub extensions: Vec<Extension>,
    pub contexts: Vec<Context>,
}

/// The first extension in `exts` whose id equals `id`, if any.
pub open spec fn spec_find_extension(exts: Seq<Extension>, id: Seq<char>) -> Option<Extension>
    decreases exts.len(),
{
    if exts.len() == 0 {
        None
    } else if exts[0].extension@ == id {
        Some(exts[0])
    } else {
        spec_find_extension(exts.drop_first(), id)
    }
}

/// The first context in `ctxs` whose wire-level name equals `name`, if any.
pub open spec fn spec_find_context(ctxs: Seq<Context>, name: Seq<char>) -> Option<Context>
    decreases ctxs.len(),
{
    if ctxs.len() == 0 {
        None
    } else if ctxs[0].asterisk_name@ == name {
        Some(ctxs[0])
    } else {
        spec_find_context(ctxs.drop_first(), name)
    }
}

impl Registry {
    /// Well-formedness of the catalog: it is keyed by extension id and by
    /// context wire-level name, so each occurs at most once.
    pub open spec fn wf(&self) -> bool {
        &&& forall|i: int, j: int|
            0 <= i < j < self.extensions@.len() ==> self.extensions@[i].extension@
                != self.extensions@[j].extension@
        &&& forall|i: int, j: int|
            0 <= i < j < self.contexts@.len() ==> self.contexts@[i].asterisk_name@
                != self.contexts@[j].asterisk_name@
    }

    pub fn new(extensions: Vec<Extension>, contexts: Vec<Context>) -> (r: Registry)
        ensures
            r.extensions == extensions,
            r.contexts == contexts,
    {
        Registry { extensions, contexts }
    }
}

/// In a catalog with unique ids, the first matching extension is the only
/// match: a missing result means no entry carries the id, and a found one
/// equals every entry that does.
pub proof fn lemma_find_extension_unique(exts: Seq<Extension>, id: Seq<char>)
    requires
        forall|i: int, j: int|
            0 <= i < j < exts.len() ==> exts[i].extension@ != exts[j].extension@,
    ensures
        match spec_find_extension(exts, id) {
            None => forall|i: int| 0 <= i < exts.len() ==> exts[i].extension@ != id,
            Some(e) => forall|i: int|
                0 <= i < exts.len() && exts[i].extension@ == id ==> #[trigger] exts[i] == e,
        },
    decreases exts.len(),
{
    if exts.len() > 0 {
        let rest = exts.drop_first();
        assert(forall|i: int| 0 <= i < rest.len() ==> rest[i] == exts[i + 1]);
        assert(forall|i: int, j: int|
            0 <= i < j < rest.len() ==> rest[i].extension@ != rest[j].extension@);
        lemma_find_extension_unique(rest, id);
        if exts[0].extension@ == id {
            assert forall|i: int|
                0 <= i < exts.len() && exts[i].extension@ == id implies #[trigger] exts[i]
                == exts[0] by {
                if i > 0 {
                    assert(exts[0].extension@ != exts[i].extension@);
                }
            }
        } else {
            match spec_find_extension(rest, id) {
                None => {
                    assert forall|i: int|
                        0 <= i < exts.len() implies exts[i].extension@ != id by {
                        if i > 0 {
                            assert(rest[i - 1] == exts[i]);
                        }
                    }
                },
                Some(e) => {
                    assert forall|i: int|
                        0 <= i < exts.len() && exts[i].extension@ == id implies #[trigger] exts[i]
                        == e by {
                        assert(rest[i - 1] == exts[i]);
                    }
                },
            }
        }
    }
}

/// In a catalog with unique wire-level names, the first matching context is
/// the only match: a missing result means no entry carries the name, and a
/// found one equals every entry that does.
pub proof fn lemma_find_context_unique(ctxs: Seq<Context>, name: Seq<char>)
    requires
        forall|i: int, j: int|
            0 <= i < j < ctxs.len() ==> ctxs[i].asterisk_name@ != ctxs[j].asterisk_name@,
    ensures
        match spec_find_context(ctxs, name) {
            None => forall|i: int| 0 <= i < ctxs.len() ==> ctxs[i].asterisk_name@ != name,
            Some(c) => forall|i: int|
                0 <= i < ctxs.len() && ctxs[i].asterisk_name@ == name ==> #[trigger] ctxs[i] == c,
        },
    decreases ctxs.len(),
{
    if ctxs.len() > 0 {
        let rest = ctxs.drop_first();
        assert(forall|i: int| 0 <= i < rest.len() ==> rest[i] == ctxs[i + 1]);
        assert(forall|i: int, j: int|
            0 <= i < j < rest.len() ==> rest[i].asterisk_name@ != rest[j].asterisk_name@);
        lemma_find_context_unique(rest, name);
        if ctxs[0].asterisk_name@ == name {
            assert forall|i: int|
                0 <= i < ctxs.len() && ctxs[i].asterisk_name@ == name implies #[trigger] ctxs[i]
                == ctxs[0] by {
                if i > 0 {
                    assert(ctxs[0].asterisk_name@ != ctxs[i].asterisk_name@);
                }
            }
        } else {
            match spec_find_context(rest, name) {
                None => {
                    assert forall|i: int|
                        0 <= i < ctxs.len() implies ctxs[i].asterisk_name@ != name by {
                        if i > 0 {
                            assert(rest[i - 1] == ctxs[i]);
                        }
                    }
                },
                Some(c) => {
                    assert forall|i: int|
                        0 <= i < ctxs.len() && ctxs[i].asterisk_name@ == name implies #[trigger]
                        ctxs[i] == c by {
                        assert(rest[i - 1] == ctxs[i]);
                    }
                },
            }
        }
    }
}

/// Relies on `<str as PartialEq>::eq`: equality of two string slices is
/// equality of their character sequences.
#[verifier::external_body]
pub(crate) fn str_eq(a: &str, b: &str) -> (r: bool)
    ensures
        r == (a@ == b@),
{
    a == b
}

impl Extension {
    /// Look `extension` up in the registry; ids not present there are valid
    /// external destinations and come back without a display name.
    pub fn create_from_name(registry: &Registry, extension: String) -> (r: Extension)
        ensures
            match spec_find_extension(registry.extensions@, extension@) {
                Some(e) => r == e,
                None => r == (Extension { name: None, extension }),
            },
    {
        let n = registry.extensions.len();
        let mut i: usize = 0;
        proof {
            assert(registry.extensions@.skip(0) =~= registry.extensions@);
        }
        while i < n
            invariant
                i <= n,
                n == registry.extensions.len(),
                spec_find_extension(registry.extensions@, extension@)
                    == spec_find_extension(registry.extensions@.skip(i as int), extension@),
            decreases n - i,
        {
            proof {
                assert(registry.extensions@.skip(i as int)[0] == registry.extensions@[i as int]);
                assert(registry.extensions@.skip(i as int).drop_first()
                    =~= registry.extensions@.skip(i as int + 1));
            }
            if str_eq(registry.extensions[i].extension.as_str(), extension.as_str()) {
                return registry.extensions[i].clone();
            }
            i += 1;
        }
        proof {
            assert(registry.extensions@.skip(n as int) =~= Seq::<Extension>::empty());
        }
        Extension { name: None, extension }
    }
}

/// The human-readable form of an extension: its display name with the id in
/// parentheses, or the bare id when the registry knows no name for it.
pub open spec fn spec_display(e: Extension) -> Seq<char> {
    match e.name {
        None => e.extension@,
        Some(n) => n@ + " ("@ + e.extension@ + ")"@,
    }
}

impl Extension {
    /// The human-readable form of this extension, as the UI shows it.
    pub fn display_string(&self) -> (r: String)
        ensures
            r@ == spec_display(*self),
    {
        match &self.name {
            None => self.extension.clone(),
            Some(n) => {
                let mut s = n.clone();
                s.append(" (");
                s.append(self.extension.as_str());
                s.append(")");
                s
            },
        }
    }
}

impl Context {
    /// Look the wire-level context name up in the registry; contexts not
    /// present there cannot be constructed.
    pub fn create_from_name(registry: &Registry, asterisk_name: &str) -> (r: Option<Context>)
        ensures
            r == spec_find_context(registry.contexts@, asterisk_name@),
    {
        let n = registry.contexts.len();
        let mut i: usize = 0;
        proof {
            assert(registry.contexts@.skip(0) =~= registry.contexts@);
        }
        while i < n
            invariant
                i <= n,
                n == registry.contexts.len(),
                spec_find_context(registry.contexts@, asterisk_name@)
                    == spec_find_context(registry.contexts@.skip(i as int), asterisk_name@),
            decreases n - i,
        {
            proof {
                assert(registry.contexts@.skip(i as int)[0] == registry.contexts@[i as int]);
                assert(registry.contexts@.skip(i as int).drop_first()
                    =~= registry.contexts@.skip(i as int + 1));
            }
            if str_eq(registry.contexts[i].asterisk_name.as_str(), asterisk_name) {
                return Some(registry.contexts[i].clone());
            }
            i += 1;
        }
        proof {
            assert(registry.contexts@.skip(n as int) =~= Seq::<Context>::empty());
        }
        None
    }
}

/// Typestate tag for the presence of a storage id on a rule.
pub trait IdState {}

/// Tag of a rule that has not been persisted yet: it has no storage id.
#[derive(Debug, PartialEq)]
pub struct NoId {}

impl IdState for NoId {}

/// Tag of a persisted rule: the id the store assigned to it.
#[derive(Debug, PartialEq, Copy, Clone)]
pub struct HasId {
    pub id: i32,
}

impl HasId {
    pub fn new(x: i32) -> (r: Self)
        ensures
            r.id == x,
    {
        HasId { id: x }
    }
}

impl IdState for HasId {}

/// A forwarding instruction: calls for `from` are forwarded to `to` whenever
/// they arrive in one of the contexts of `in_contexts`.
#[derive(Debug, PartialEq)]
pub struct CallForward<S: IdState> {
    pub fwd_id: S,
    pub from: Extension,
    pub to: Extension,
    pub in_contexts: Vec<Context>,
}

/// Value equality of two persisted rules: same id and the same data. The
/// context lists are compared as sequences of values.
pub open spec fn cf_eq(a: CallForward<HasId>, b: CallForward<HasId>) -> bool {
    &&& a.fwd_id == b.fwd_id
    &&& a.from == b.from
    &&& a.to == b.to
    &&& a.in_contexts@ == b.in_contexts@
}

impl Clone for CallForward<HasId> {
    fn clone(&self) -> (r: Self)
        ensures
            cf_eq(r, *self),
    {
        let mut ctxs: Vec<Context> = Vec::new();
        let n = self.in_contexts.len();
        let mut i: usize = 0;
        while i < n
            invariant
                i <= n,
                n == self.in_contexts.len(),
                ctxs@ =~= self.in_contexts@.take(i as int),
            decreases n - i,
        {
            ctxs.push(self.in_contexts[i].clone());
            i += 1;
        }
        proof {
            assert(ctxs@ =~= self.in_contexts@);
        }
        CallForward {
            fwd_id: self.fwd_id,
            from: self.from.clone(),
            to: self.to.clone(),
            in_contexts: ctxs,
        }
    }
}

/// Whether some context in `s` carries the wire-level name `name`.
pub open spec fn ctx_names_contain(s: Seq<Context>, name: Seq<char>) -> bool {
    exists|i: int| 0 <= i < s.len() && s[i].asterisk_name@ == name
}

/// Whether the contexts of `s` all carry distinct wire-level names.
pub open spec fn distinct_ctx_names(s: Seq<Context>) -> bool {
    forall|i: int, j: int|
        0 <= i < j < s.len() ==> s[i].asterisk_name@ != s[j].asterisk_name@
}

/// The contexts of `a`, in order, whose wire-level name also occurs in `b`.
pub open spec fn spec_intersecting(a: Seq<Context>, b: Seq<Context>) -> Seq<Context>
    decreases a.len(),
{
    if a.len() == 0 {
        Seq::empty()
    } else if ctx_names_contain(b, a[0].asterisk_name@) {
        seq![a[0]] + spec_intersecting(a.drop_first(), b)
    } else {
        spec_intersecting(a.drop_first(), b)
    }
}

/// Whether one of the contexts of `list` has the wire-level name `name`.
pub fn context_name_in(list: &Vec<Context>, name: &str) -> (r: bool)
    ensures
        r == ctx_names_contain(list@, name@),
{
    let n = list.len();
    let mut i: usize = 0;
    while i < n
        invariant
            i <= n,
            n == list.len(),
            forall|j: int| 0 <= j < i ==> list@[j].asterisk_name@ != name@,
        decreases n - i,
    {
        if str_eq(list[i].asterisk_name.as_str(), name) {
            return true;
        }
        i += 1;
    }
    false
}

impl<S: IdState> CallForward<S> {
    /// The contexts shared between this rule and `other`: every context of
    /// this rule, in order, whose name also occurs among `other`'s contexts.
    /// A non-empty result means the two rules overlap.
    pub fn intersecting_contexts<T: IdState>(&self, other: &CallForward<T>) -> (r: Vec<Context>)
        ensures
            r@ == spec_intersecting(self.in_contexts@, other.in_contexts@),
    {
        let a = &self.in_contexts;
        let b = &other.in_contexts;
        let mut res: Vec<Context> = Vec::new();
        let n = a.len();
        let mut i: usize = 0;
        proof {
            assert(a@.skip(0) =~= a@);
            assert(res@ + spec_intersecting(a@, b@) =~= spec_intersecting(a@, b@));
        }
        while i < n
            invariant
                i <= n,
                n == a.len(),
                spec_intersecting(a@, b@) == res@ + spec_intersecting(a@.skip(i as int), b@),
            decreases n - i,
        {
            proof {
                assert(a@.skip(i as int)[0] == a@[i as int]);
                assert(a@.skip(i as int).drop_first() =~= a@.skip(i as int + 1));
            }
            let ghost prev = res@;
            if context_name_in(b, a[i].asterisk_name.as_str()) {
                res.push(a[i].clone());
                proof {
                    assert(res@ =~= prev + seq![a@[i as int]]);
                    assert(prev + (seq![a@[i as int]] + spec_intersecting(
                        a@.skip(i as int + 1),
                        b@,
                    )) =~= res@ + spec_intersecting(a@.skip(i as int + 1), b@));
                }
            }
            i += 1;
        }
        proof {
            assert(a@.skip(n as int) =~= Seq::<Context>::empty());
            assert(res@ + Seq::<Context>::empty() =~= res@);
        }
        res
    }
}

/// The extension that `spec_find_extension` resolves `extension` to: the
/// registry entry when there is one, else an external endpoint without a
/// display name.
pub open spec fn spec_extension_of(exts: Seq<Extension>, extension: String) -> Extension {
    match spec_find_extension(exts, extension@) {
        Some(e) => e,
        None => Extension { name: None, extension },
    }
}

/// Resolve each name of `names` against the registry contexts, in order; the
/// first unknown name is the error.
pub open spec fn spec_contexts_from_names(ctxs: Seq<Context>, names: Seq<String>) -> Result<
    Seq<Context>,
    DBError,
>
    decreases names.len(),
{
    if names.len() == 0 {
        Ok(Seq::empty())
    } else {
        match spec_find_context(ctxs, names[0]@) {
            None => Err(DBError::ContextDoesNotExist(names[0])),
            Some(c) => match spec_contexts_from_names(ctxs, names.drop_first()) {
                Err(e) => Err(e),
                Ok(rest) => Ok(seq![c] + rest),
            },
        }
    }
}

impl CallForward<HasId> {
    /// Build an already-persisted rule from its stored row values; every
    /// context name must resolve against the registry.
    pub fn new(
        registry: &Registry,
        from: String,
        to: String,
        in_contexts: Vec<String>,
        fwd_id: i32,
    ) -> (r: Result<CallForward<HasId>, DBError>)
        ensures
            match spec_contexts_from_names(registry.contexts@, in_contexts@) {
                Err(e) => r == Err::<CallForward<HasId>, DBError>(e),
                Ok(cs) => match r {
                    Err(_) => false,
                    Ok(cf) => {
                        &&& cf.fwd_id.id == fwd_id
                        &&& cf.from == spec_extension_of(registry.extensions@, from)
                        &&& cf.to == spec_extension_of(registry.extensions@, to)
                        &&& cf.in_contexts@ == cs
                    },
                },
            },
    {
        let without_id = CallForward::<NoId>::new(registry, from, to, in_contexts)?;
        Ok(without_id.set_id(fwd_id))
    }
}

impl CallForward<NoId> {
    /// Build a not-yet-persisted rule, resolving `from` and `to` against the
    /// registry (unknown ids are valid external endpoints) and every context
    /// name against the registry (unknown names are rejected).
    pub fn new(registry: &Registry, from: String, to: String, in_contexts: Vec<String>) -> (r:
        Result<CallForward<NoId>, DBError>)
        ensures
            match spec_contexts_from_names(registry.contexts@, in_contexts@) {
                Err(e) => r == Err::<CallForward<NoId>, DBError>(e),
                Ok(cs) => match r {
                    Err(_) => false,
                    Ok(cf) => {
                        &&& cf.fwd_id == (NoId {  })
                        &&& cf.from == spec_extension_of(registry.extensions@, from)
                        &&& cf.to == spec_extension_of(registry.extensions@, to)
                        &&& cf.in_contexts@ == cs
                    },
                },
            },
    {
        let from_as_exten = Extension::create_from_name(registry, from);
        let to_as_exten = Extension::create_from_name(registry, to);
        let mut contexts_as_contexts: Vec<Context> = Vec::new();
        let n = in_contexts.len();
        let mut i: usize = 0;
        proof {
            assert(in_contexts@.skip(0) =~= in_contexts@);
            assert(match spec_contexts_from_names(registry.contexts@, in_contexts@.skip(0)) {
                Ok(rest) => contexts_as_contexts@ + rest =~= rest,
                Err(_) => true,
            });
        }
        while i < n
            invariant
                i <= n,
                n == in_contexts.len(),
                match spec_contexts_from_names(registry.contexts@, in_contexts@.skip(i as int)) {
                    Ok(rest) => spec_contexts_from_names(registry.contexts@, in_contexts@)
                        == Ok::<Seq<Context>, DBError>(contexts_as_contexts@ + rest),
                    Err(e) => spec_contexts_from_names(registry.contexts@, in_contexts@)
                        == Err::<Seq<Context>, DBError>(e),
                },
            decreases n - i,
        {
            proof {
                assert(in_contexts@.skip(i as int)[0] == in_contexts@[i as int]);
                assert(in_contexts@.skip(i as int).drop_first() =~= in_contexts@.skip(
                    i as int + 1,
                ));
            }
            let ghost prev = contexts_as_contexts@;
            match Context::create_from_name(registry, in_contexts[i].as_str()) {
                None => {
                    return Err(DBError::ContextDoesNotExist(in_contexts[i].clone()));
                },
                Some(x) => {
                    contexts_as_contexts.push(x);
                    proof {
                        let c = spec_find_context(
                            registry.contexts@,
                            in_contexts@[i as int]@,
                        ).unwrap();
                        assert(contexts_as_contexts@ =~= prev + seq![c]);
                        assert(match spec_contexts_from_names(
                            registry.contexts@,
                            in_contexts@.skip(i as int + 1),
                        ) {
                            Ok(rest) => prev + (seq![c] + rest) =~= contexts_as_contexts@ + rest,
                            Err(_) => true,
                        });
                    }
                },
            }
            i += 1;
        }
        proof {
            assert(in_contexts@.skip(n as int) =~= Seq::<String>::empty());
            assert(contexts_as_contexts@ + Seq::<Context>::empty() =~= contexts_as_contexts@);
        }
        Ok(
            CallForward::<NoId> {
                fwd_id: NoId {  },
                from: from_as_exten,
                to: to_as_exten,
                in_contexts: contexts_as_contexts,
            },
        )
    }

    /// Attach the id the store assigned; the rule's data is unchanged.
    pub fn set_id(self, new_id: i32) -> (r: CallForward<HasId>)
        ensures
            r.fwd_id.id == new_id,
            r.from == self.from,
            r.to == self.to,
            r.in_contexts == self.in_contexts,
    {
        CallForward::<HasId> {
            fwd_id: HasId { id: new_id },
            from: self.from,
            to: self.to,
            in_contexts: self.in_contexts,
        }
    }
}

} // verus!
