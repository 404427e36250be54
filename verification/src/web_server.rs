//! Helpers used by the administrative web UI: fuzzy search over the
//! extension catalog, highlighting of the matched characters, and the
//! wrapper div for error messages.
//!
//! Positions are character positions: the fuzzy search yields the indices of
//! the matched characters, and the highlighter marks the characters at the
//! given indices.

use vstd::prelude::*;
use vstd::string::StrSliceExecFns;
use vstd::string::StringExecFns;

verus! {

/// What `str::to_lowercase` returns: the Unicode lowercase form of a
/// character sequence.
pub uninterp spec fn lower_of(s: Seq<char>) -> Seq<char>;

/// Relies on `str::to_lowercase`: the result depends on the characters
/// alone.
#[verifier::external_body]
fn lowercase(s: &str) -> (r: String)
    ensures
        r@ == lower_of(s@),
{
    s.to_lowercase()
}

/// Relies on `String: FromIterator<char>` (through `Iterator::collect`): the
/// string of exactly the given characters.
#[verifier::external_body]
fn string_from_chars(v: &Vec<char>) -> (r: String)
    ensures
        r@ == v@,
{
    v.iter().collect()
}

/// The first index at or after `start` where `c` occurs in `term`, if any.
pub open spec fn find_char_from(term: Seq<char>, c: char, start: int) -> Option<int>
    decreases term.len() - start,
{
    if start < 0 || start >= term.len() {
        None
    } else if term[start] == c {
        Some(start)
    } else {
        find_char_from(term, c, start + 1)
    }
}

/// The indices where the characters of `search` occur in `term`, in order,
/// each the first occurrence after its predecessor; `None` when some
/// character cannot be placed.
pub open spec fn spec_fuzzy_from(search: Seq<char>, term: Seq<char>, start: int) -> Option<
    Seq<int>,
>
    decreases search.len(),
{
    if search.len() == 0 {
        Some(Seq::empty())
    } else {
        match find_char_from(term, search[0], start) {
            None => None,
            Some(i) => match spec_fuzzy_from(search.drop_first(), term, i + 1) {
                None => None,
                Some(rest) => Some(seq![i] + rest),
            },
        }
    }
}

/// The first position at or after `start` where `c` occurs in `term`.
fn find_char_position(term: &str, c: char, start: usize) -> (r: Option<usize>)
    ensures
        match find_char_from(term@, c, start as int) {
            None => r is None,
            Some(i) => match r {
                None => false,
                Some(j) => j as int == i && j < term@.len(),
            },
        },
{
    let n = term.unicode_len();
    let mut j: usize = start;
    while j < n
        invariant
            j >= start,
            j <= n || start > n,
            n == term@.len(),
            find_char_from(term@, c, start as int) == find_char_from(term@, c, j as int),
        decreases n - j,
    {
        if term.get_char(j) == c {
            return Some(j);
        }
        j += 1;
    }
    None
}

/// Case-insensitive fuzzy match of `search` against `term`.
pub open spec fn spec_fuzzy_match(search: Seq<char>, term: Seq<char>) -> Option<Seq<int>> {
    spec_fuzzy_from(search, term, 0)
}

/// Find the characters of `search` in `term`, in order and ignoring case.
///
/// Returns `None` if there is no match, and `Some` of the character indices
/// in `term` where the characters of `search` were found otherwise.
pub fn string_fuzzy_match(search: &str, term: &str) -> (r: Option<Vec<usize>>)
    ensures
        match spec_fuzzy_match(lower_of(search@), lower_of(term@)) {
            None => r is None,
            Some(ps) => match r {
                None => false,
                Some(v) => v@.map_values(|p: usize| p as int) == ps,
            },
        },
{
    let our_search = lowercase(search);
    let our_term = lowercase(term);
    let ghost gsearch = our_search@;
    let ghost gterm = our_term@;
    let search_len = our_search.as_str().unicode_len();
    let term_len = our_term.as_str().unicode_len();
    let mut pos_vec: Vec<usize> = Vec::new();
    let mut start: usize = 0;
    let mut k: usize = 0;
    proof {
        assert(gsearch.skip(0) =~= gsearch);
        assert(pos_vec@.map_values(|p: usize| p as int) =~= Seq::<int>::empty());
    }
    while k < search_len
        invariant
            k <= search_len,
            search_len == gsearch.len(),
            term_len == gterm.len(),
            gsearch == our_search@,
            gterm == our_term@,
            gsearch == lower_of(search@),
            gterm == lower_of(term@),
            start <= term_len,
            match spec_fuzzy_from(gsearch.skip(k as int), gterm, start as int) {
                None => spec_fuzzy_match(gsearch, gterm) is None,
                Some(rest) => spec_fuzzy_match(gsearch, gterm) == Some(
                    pos_vec@.map_values(|p: usize| p as int) + rest,
                ),
            },
        decreases search_len - k,
    {
        proof {
            assert(gsearch.skip(k as int)[0] == gsearch[k as int]);
            assert(gsearch.skip(k as int).drop_first() =~= gsearch.skip(k as int + 1));
        }
        let c = our_search.as_str().get_char(k);
        // Scan for the first occurrence of `c` at or after `start`.
        let j = match find_char_position(our_term.as_str(), c, start) {
            None => {
                return None;
            },
            Some(j) => j,
        };
        let ghost prev = pos_vec@.map_values(|p: usize| p as int);
        pos_vec.push(j);
        start = j + 1;
        k += 1;
        proof {
            assert(pos_vec@.map_values(|p: usize| p as int) =~= prev + seq![j as int]);
            assert(match spec_fuzzy_from(gsearch.skip(k as int), gterm, start as int) {
                None => true,
                Some(rest) => prev + (seq![j as int] + rest) =~= pos_vec@.map_values(
                    |p: usize| p as int,
                ) + rest,
            });
        }
    }
    proof {
        assert(gsearch.skip(search_len as int) =~= Seq::<char>::empty());
        assert(pos_vec@.map_values(|p: usize| p as int) + Seq::<int>::empty() =~= pos_vec@
            .map_values(|p: usize| p as int));
    }
    Some(pos_vec)
}

/// The marked string: everything copied as is, except that the character at
/// each position is wrapped in a bold tag; `None` when a position lies
/// outside the string.
pub open spec fn spec_mark_from(s: Seq<char>, positions: Seq<int>, start: int) -> Option<
    Seq<char>,
>
    decreases positions.len(),
{
    if positions.len() == 0 {
        Some(s.skip(start))
    } else {
        let idx = positions[0];
        if idx >= s.len() {
            None
        } else {
            match spec_mark_from(s, positions.drop_first(), idx + 1) {
                None => None,
                Some(rest) => Some(
                    s.subrange(start, idx) + seq!['<', 'b', '>'] + seq![s[idx]] + seq![
                        '<',
                        '/',
                        'b',
                        '>',
                    ] + rest,
                ),
            }
        }
    }
}

/// The marked form of `s` with the characters at `positions` wrapped in bold
/// tags.
pub open spec fn spec_mark(s: Seq<char>, positions: Seq<int>) -> Option<Seq<char>> {
    spec_mark_from(s, positions, 0)
}

/// Wrap the character of `s` at each of `positions` in a bold tag; the
/// positions must be strictly increasing. Returns `None` when a position
/// lies outside the string.
pub fn mark_string_at_positions(s: &str, positions: Vec<usize>) -> (r: Option<String>)
    requires
        forall|i: int|
            0 <= i && i + 1 < positions@.len() ==> #[trigger] positions@[i] < positions@[i + 1],
    ensures
        match spec_mark(s@, positions@.map_values(|p: usize| p as int)) {
            None => r is None,
            Some(cs) => match r {
                None => false,
                Some(marked) => marked@ == cs,
            },
        },
{
    let ghost gpos = positions@.map_values(|p: usize| p as int);
    let s_len = s.unicode_len();
    let mut out: Vec<char> = Vec::new();
    let mut start: usize = 0;
    let mut k: usize = 0;
    proof {
        assert(gpos.skip(0) =~= gpos);
    }
    while k < positions.len()
        invariant
            k <= positions.len(),
            gpos == positions@.map_values(|p: usize| p as int),
            gpos.len() == positions@.len(),
            s_len == s@.len(),
            start <= s_len,
            k == 0 ==> start == 0,
            k > 0 ==> start == positions@[k as int - 1] + 1,
            forall|i: int|
                0 <= i && i + 1 < positions@.len() ==> #[trigger] positions@[i] < positions@[i
                    + 1],
            match spec_mark_from(s@, gpos.skip(k as int), start as int) {
                None => spec_mark(s@, gpos) is None,
                Some(rest) => spec_mark(s@, gpos) == Some(out@ + rest),
            },
        decreases positions.len() - k,
    {
        proof {
            assert(gpos.skip(k as int)[0] == gpos[k as int]);
            assert(gpos.skip(k as int).drop_first() =~= gpos.skip(k as int + 1));
        }
        let idx = positions[k];
        if idx >= s_len {
            return None;
        }
        proof {
            if k > 0 {
                assert(positions@[k as int - 1] < positions@[k as int]);
            }
        }
        let ghost base = out@;
        proof {
            assert(s@.subrange(start as int, start as int) =~= Seq::<char>::empty());
            assert(out@ =~= base + s@.subrange(start as int, start as int));
        }
        // Copy the gap before the marked character as is.
        let mut j: usize = start;
        while j < idx
            invariant
                start <= j <= idx,
                idx < s_len == s@.len(),
                out@ == base + s@.subrange(start as int, j as int),
            decreases idx - j,
        {
            out.push(s.get_char(j));
            proof {
                assert(out@ =~= base + s@.subrange(start as int, j as int + 1));
            }
            j += 1;
        }
        // The marked character itself.
        out.push('<');
        out.push('b');
        out.push('>');
        out.push(s.get_char(idx));
        out.push('<');
        out.push('/');
        out.push('b');
        out.push('>');
        let ghost prev_start = start as int;
        start = idx + 1;
        k += 1;
        proof {
            assert(match spec_mark_from(s@, gpos.skip(k as int), start as int) {
                None => true,
                Some(rest) => base + (s@.subrange(prev_start, idx as int) + seq!['<', 'b', '>']
                    + seq![s@[idx as int]] + seq!['<', '/', 'b', '>'] + rest) =~= out@ + rest,
            });
        }
    }
    // Copy the remainder of `s` as is.
    let ghost base = out@;
    proof {
        assert(s@.subrange(start as int, start as int) =~= Seq::<char>::empty());
        assert(out@ =~= base + s@.subrange(start as int, start as int));
    }
    let mut j: usize = start;
    while j < s_len
        invariant
            start <= j <= s_len,
            s_len == s@.len(),
            out@ == base + s@.subrange(start as int, j as int),
        decreases s_len - j,
    {
        out.push(s.get_char(j));
        proof {
            assert(out@ =~= base + s@.subrange(start as int, j as int + 1));
        }
        j += 1;
    }
    proof {
        assert(gpos.skip(positions@.len() as int) =~= Seq::<int>::empty());
        assert(s@.subrange(start as int, s_len as int) =~= s@.skip(start as int));
        assert(out@ =~= base + s@.skip(start as int));
    }
    Some(string_from_chars(&out))
}

/// A found character lies at or after the start of the scan and inside the
/// string.
proof fn lemma_find_char_bounds(term: Seq<char>, c: char, start: int)
    ensures
        match find_char_from(term, c, start) {
            None => true,
            Some(i) => start <= i < term.len(),
        },
    decreases term.len() - start,
{
    if start < 0 || start >= term.len() {
    } else if term[start] == c {
    } else {
        lemma_find_char_bounds(term, c, start + 1);
    }
}

/// The positions of a fuzzy match are one per search character, lie inside
/// the term and are strictly increasing.
pub proof fn lemma_fuzzy_positions(search: Seq<char>, term: Seq<char>, start: int)
    ensures
        match spec_fuzzy_from(search, term, start) {
            None => true,
            Some(ps) => {
                &&& ps.len() == search.len()
                &&& forall|k: int| 0 <= k < ps.len() ==> start <= #[trigger] ps[k] < term.len()
                &&& forall|k: int| 0 <= k && k + 1 < ps.len() ==> #[trigger] ps[k] < ps[k + 1]
            },
        },
    decreases search.len(),
{
    if search.len() == 0 {
    } else {
        match find_char_from(term, search[0], start) {
            None => {},
            Some(i) => {
                lemma_find_char_bounds(term, search[0], start);
                lemma_fuzzy_positions(search.drop_first(), term, i + 1);
                match spec_fuzzy_from(search.drop_first(), term, i + 1) {
                    None => {},
                    Some(rest) => {
                        let ps = seq![i] + rest;
                        assert(ps[0] == i);
                        assert(forall|k: int| 0 <= k < rest.len() ==> ps[k + 1] == rest[k]);
                        assert forall|k: int|
                            0 <= k && k + 1 < ps.len() implies #[trigger] ps[k] < ps[k + 1] by {
                            if k == 0 {
                                assert(ps[1] == rest[0]);
                            } else {
                                assert(ps[k] == rest[k - 1]);
                                assert(ps[k + 1] == rest[k]);
                            }
                        }
                    },
                }
            },
        }
    }
}

/// One search-result entry: the marked display form of the extension and its
/// id, when the query fuzzy-matches the display form.
pub open spec fn spec_search_entry(e: crate::types::Extension, q: Seq<char>) -> Option<
    (Seq<char>, Seq<char>),
> {
    match spec_fuzzy_match(lower_of(q), lower_of(crate::types::spec_display(e))) {
        None => None,
        Some(ps) => match spec_mark(crate::types::spec_display(e), ps) {
            None => None,
            Some(m) => Some((m, e.extension@)),
        },
    }
}

/// The search results over a catalog of extensions, in catalog order.
pub open spec fn spec_search(exts: Seq<crate::types::Extension>, q: Seq<char>) -> Seq<
    (Seq<char>, Seq<char>),
>
    decreases exts.len(),
{
    if exts.len() == 0 {
        Seq::empty()
    } else {
        let head: Seq<(Seq<char>, Seq<char>)> = match spec_search_entry(exts[0], q) {
            None => Seq::empty(),
            Some(p) => seq![p],
        };
        head + spec_search(exts.drop_first(), q)
    }
}

/// Search the extension catalog as-you-type: each extension whose
/// human-readable form fuzzy-matches the query, as the marked-up form
/// together with the extension id.
pub fn search_extensions(registry: &crate::types::Registry, query: &str) -> (r: Vec<
    (String, String),
>)
    ensures
        r@.map_values(|p: (String, String)| (p.0@, p.1@)) == spec_search(
            registry.extensions@,
            query@,
        ),
{
    let exts = &registry.extensions;
    let mut res: Vec<(String, String)> = Vec::new();
    let n = exts.len();
    let mut i: usize = 0;
    proof {
        assert(exts@.skip(0) =~= exts@);
        assert(res@.map_values(|p: (String, String)| (p.0@, p.1@)) + spec_search(exts@, query@)
            =~= spec_search(exts@, query@));
    }
    while i < n
        invariant
            i <= n,
            n == exts.len(),
            spec_search(exts@, query@) == res@.map_values(|p: (String, String)| (p.0@, p.1@))
                + spec_search(exts@.skip(i as int), query@),
        decreases n - i,
    {
        proof {
            assert(exts@.skip(i as int)[0] == exts@[i as int]);
            assert(exts@.skip(i as int).drop_first() =~= exts@.skip(i as int + 1));
        }
        let ghost prev = res@.map_values(|p: (String, String)| (p.0@, p.1@));
        let term = exts[i].display_string();
        match string_fuzzy_match(query, term.as_str()) {
            None => {},
            Some(ps) => {
                proof {
                    lemma_fuzzy_positions(lower_of(query@), lower_of(term@), 0);
                    assert forall|k: int|
                        0 <= k && k + 1 < ps@.len() implies #[trigger] ps@[k] < ps@[k + 1] by {
                        let gps = spec_fuzzy_match(lower_of(query@), lower_of(term@)).unwrap();
                        assert(ps@.map_values(|p: usize| p as int)[k] == gps[k]);
                        assert(ps@.map_values(|p: usize| p as int)[k + 1] == gps[k + 1]);
                    }
                }
                match mark_string_at_positions(term.as_str(), ps) {
                    None => {},
                    Some(m) => {
                        res.push((m, exts[i].extension.clone()));
                        proof {
                            let entry = spec_search_entry(exts@[i as int], query@).unwrap();
                            assert(res@.map_values(|p: (String, String)| (p.0@, p.1@)) =~= prev
                                + seq![entry]);
                            assert(match spec_search(exts@.skip(i as int + 1), query@) {
                                rest => prev + (seq![entry] + rest) =~= (prev + seq![entry])
                                    + rest,
                            });
                        }
                    },
                }
            },
        }
        i += 1;
    }
    proof {
        assert(exts@.skip(n as int) =~= Seq::<crate::types::Extension>::empty());
        assert(res@.map_values(|p: (String, String)| (p.0@, p.1@)) + Seq::<
            (Seq<char>, Seq<char>),
        >::empty() =~= res@.map_values(|p: (String, String)| (p.0@, p.1@)));
    }
    res
}

/// The data of the call-forward form: source, destination and the checked
/// context boxes (absent when no box was checked).
#[derive(Debug, PartialEq)]
pub struct ForwardFormData {
    pub from: String,
    pub to: String,
    pub ctx_checkboxes: Option<Vec<String>>,
}

/// Why a submitted call-forward form was rejected. The source must be a
/// known extension, at least one context must be checked, and every checked
/// context must exist in the registry.
#[derive(Debug, PartialEq)]
pub enum FormError {
    UnknownFromExtension,
    MissingContexts,
    UnknownContext(String),
}

/// Validate a submitted call-forward form against the registry and build
/// the rule it describes: the source must be a known extension, the
/// destination may be any (possibly external) extension, and all checked
/// contexts must exist.
pub fn forward_from_form(
    registry: &crate::types::Registry,
    form: ForwardFormData,
) -> (r: Result<crate::types::CallForward<crate::types::NoId>, FormError>)
    ensures
        match crate::types::spec_find_extension(registry.extensions@, form.from@) {
            None => r == Err::<crate::types::CallForward<crate::types::NoId>, FormError>(
                FormError::UnknownFromExtension,
            ),
            Some(from_ext) => match form.ctx_checkboxes {
                None => r == Err::<crate::types::CallForward<crate::types::NoId>, FormError>(
                    FormError::MissingContexts,
                ),
                Some(boxes) => match crate::types::spec_contexts_from_names(
                    registry.contexts@,
                    boxes@,
                ) {
                    Err(e) => r matches Err(FormError::UnknownContext(c))
                        && e == crate::db::DBError::ContextDoesNotExist(c),
                    Ok(cs) => match r {
                        Err(_) => false,
                        Ok(cf) => {
                            &&& cf.from == from_ext
                            &&& cf.to == crate::types::spec_extension_of(
                                registry.extensions@,
                                form.to,
                            )
                            &&& cf.in_contexts@ == cs
                        },
                    },
                },
            },
        },
{
    let found = lookup_known_extension(registry, form.from.as_str());
    let from_ext = match found {
        None => {
            return Err(FormError::UnknownFromExtension);
        },
        Some(e) => e,
    };
    let boxes = match form.ctx_checkboxes {
        None => {
            return Err(FormError::MissingContexts);
        },
        Some(b) => b,
    };
    proof {
        lemma_contexts_from_names_err_shape(registry.contexts@, boxes@);
    }
    match crate::types::CallForward::<crate::types::NoId>::new(
        registry,
        form.from,
        form.to,
        boxes,
    ) {
        Err(crate::db::DBError::ContextDoesNotExist(c)) => Err(FormError::UnknownContext(c)),
        Err(_) => Err(FormError::MissingContexts),
        Ok(cf) => Ok(
            crate::types::CallForward::<crate::types::NoId> {
                fwd_id: crate::types::NoId {  },
                from: from_ext,
                to: cf.to,
                in_contexts: cf.in_contexts,
            },
        ),
    }
}

/// Resolving a list of context names fails only with `ContextDoesNotExist`.
proof fn lemma_contexts_from_names_err_shape(
    ctxs: Seq<crate::types::Context>,
    names: Seq<String>,
)
    ensures
        match crate::types::spec_contexts_from_names(ctxs, names) {
            Err(e) => e matches crate::db::DBError::ContextDoesNotExist(_),
            Ok(_) => true,
        },
    decreases names.len(),
{
    if names.len() > 0 {
        lemma_contexts_from_names_err_shape(ctxs, names.drop_first());
    }
}

/// The registry entry for `id`, or `None` when the registry does not know
/// the extension.
fn lookup_known_extension(
    registry: &crate::types::Registry,
    id: &str,
) -> (r: Option<crate::types::Extension>)
    ensures
        r == crate::types::spec_find_extension(registry.extensions@, id@),
{
    let n = registry.extensions.len();
    let mut i: usize = 0;
    proof {
        assert(registry.extensions@.skip(0) =~= registry.extensions@);
    }
    while i < n
        invariant
            i <= n,
            n == registry.extensions.len(),
            crate::types::spec_find_extension(registry.extensions@, id@)
                == crate::types::spec_find_extension(registry.extensions@.skip(i as int), id@),
        decreases n - i,
    {
        proof {
            assert(registry.extensions@.skip(i as int)[0] == registry.extensions@[i as int]);
            assert(registry.extensions@.skip(i as int).drop_first() =~= registry.extensions@.skip(
                i as int + 1,
            ));
        }
        if crate::types::str_eq(registry.extensions[i].extension.as_str(), id) {
            return Some(registry.extensions[i].clone());
        }
        i += 1;
    }
    proof {
        assert(registry.extensions@.skip(n as int)
            =~= Seq::<crate::types::Extension>::empty());
    }
    None
}

/// The wrapper div that carries an error message to the browser; the
/// outer-html swap replaces the whole element, so the div is always part of
/// the message.
pub fn error_display(s: &str) -> (r: String)
    ensures
        r@
            == "<div class=\"text-red-500 flex justify-center\" id=\"error_display\" _=\"on htmx:beforeSend from elsewhere set my innerHTML to ''\">"@
            + s@ + "</div>"@,
{
    let mut r: String =
        "<div class=\"text-red-500 flex justify-center\" id=\"error_display\" _=\"on htmx:beforeSend from elsewhere set my innerHTML to ''\">".to_owned();
    r.append(s);
    r.append("</div>");
    r
}

} // verus!
