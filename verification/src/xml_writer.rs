use vstd::prelude::*;

use crate::xml_error::ErrorModel;
use crate::xml_error::XmlError;
use crate::xml_escape::escaped_text;
use crate::xml_escape::xml_escape;
use crate::xml_token::opt_qname;
use crate::xml_token::opt_str_view;
use crate::xml_token::opt_string_view;
use crate::xml_token::spec_opt_qname;
use crate::xml_token::str_equal;

verus! {

// ---------------------------------------------------------------------------
// The model of the writer's namespace state: an association of prefixes to
// stacks of namespace bindings, and a stack of scopes, one per open element,
// each holding the prefixes that element freshly declared.
// ---------------------------------------------------------------------------
/// The writer's namespace state, with every string viewed as a sequence of
/// characters.
pub ghost struct NsModel {
    pub namespaces: Seq<(Option<Seq<char>>, Seq<Seq<char>>)>,
    pub scopes: Seq<Seq<Option<Seq<char>>>>,
}

/// The binding stack of a prefix: the value of its first entry, or the
/// empty stack when it has none.
pub open spec fn ns_bindings(
    ns: Seq<(Option<Seq<char>>, Seq<Seq<char>>)>,
    p: Option<Seq<char>>,
) -> Seq<Seq<char>>
    decreases ns.len(),
{
    if ns.len() == 0 {
        Seq::empty()
    } else if ns[0].0 == p {
        ns[0].1
    } else {
        ns_bindings(ns.drop_first(), p)
    }
}

/// Pushes one binding onto a prefix's stack: onto its first entry, or onto
/// a fresh entry at the end when it has none.
pub open spec fn ns_push(
    ns: Seq<(Option<Seq<char>>, Seq<Seq<char>>)>,
    p: Option<Seq<char>>,
    u: Seq<char>,
) -> Seq<(Option<Seq<char>>, Seq<Seq<char>>)>
    decreases ns.len(),
{
    if ns.len() == 0 {
        seq![(p, seq![u])]
    } else if ns[0].0 == p {
        seq![(p, ns[0].1.push(u))] + ns.drop_first()
    } else {
        seq![ns[0]] + ns_push(ns.drop_first(), p, u)
    }
}

/// Pops one binding off a prefix's stack, from its first entry; a prefix
/// with no entry or an empty stack is left alone.
pub open spec fn ns_pop(
    ns: Seq<(Option<Seq<char>>, Seq<Seq<char>>)>,
    p: Option<Seq<char>>,
) -> Seq<(Option<Seq<char>>, Seq<Seq<char>>)>
    decreases ns.len(),
{
    if ns.len() == 0 {
        ns
    } else if ns[0].0 == p {
        if ns[0].1.len() > 0 {
            seq![(p, ns[0].1.drop_last())] + ns.drop_first()
        } else {
            ns
        }
    } else {
        seq![ns[0]] + ns_pop(ns.drop_first(), p)
    }
}

/// Pops one binding for each prefix of a scope, in the scope's order.
pub open spec fn ns_pop_all(
    ns: Seq<(Option<Seq<char>>, Seq<Seq<char>>)>,
    scope: Seq<Option<Seq<char>>>,
) -> Seq<(Option<Seq<char>>, Seq<Seq<char>>)>
    decreases scope.len(),
{
    if scope.len() == 0 {
        ns
    } else {
        ns_pop(ns_pop_all(ns, scope.drop_last()), scope.last())
    }
}

/// True when the scope declares the prefix.
pub open spec fn scope_has(scope: Seq<Option<Seq<char>>>, p: Option<Seq<char>>) -> bool {
    exists|i: int| 0 <= i < scope.len() && scope[i] == p
}

/// Inserts a prefix into a scope, once.
pub open spec fn scope_insert(
    scope: Seq<Option<Seq<char>>>,
    p: Option<Seq<char>>,
) -> Seq<Option<Seq<char>>> {
    if scope_has(scope, p) {
        scope
    } else {
        scope.push(p)
    }
}

/// How many scopes declare the prefix.
pub open spec fn scopes_count(ss: Seq<Seq<Option<Seq<char>>>>, p: Option<Seq<char>>) -> nat
    decreases ss.len(),
{
    if ss.len() == 0 {
        0
    } else {
        scopes_count(ss.drop_last(), p) + if scope_has(ss.last(), p) {
            1nat
        } else {
            0nat
        }
    }
}

impl NsModel {
    /// Well-formed namespace state: one entry per prefix, no prefix twice
    /// in one scope, and every scheduled pop has a binding to pop.
    pub open spec fn wf(self) -> bool {
        &&& (forall|i: int, j: int|
            0 <= i < j < self.namespaces.len() ==> self.namespaces[i].0 != self.namespaces[j].0)
        &&& (forall|k: int, i: int, j: int|
            0 <= k < self.scopes.len() && 0 <= i < j < self.scopes[k].len()
                ==> self.scopes[k][i] != self.scopes[k][j])
        &&& (forall|p: Option<Seq<char>>|
            scopes_count(self.scopes, p) <= ns_bindings(self.namespaces, p).len())
    }
}

/// True when the innermost binding of the prefix is this namespace.
pub open spec fn ns_defined_as(m: NsModel, p: Option<Seq<char>>, u: Seq<char>) -> bool {
    ns_bindings(m.namespaces, p).len() > 0 && ns_bindings(m.namespaces, p).last() == u
}

// ---------------------------------------------------------------------------
// How the spec association behaves, entry by entry.
// ---------------------------------------------------------------------------
/// The first entry with the prefix's key holds its binding stack.
pub proof fn lemma_ns_bindings_at(
    ns: Seq<(Option<Seq<char>>, Seq<Seq<char>>)>,
    p: Option<Seq<char>>,
    i: int,
)
    requires
        0 <= i < ns.len(),
        ns[i].0 == p,
        forall|j: int| 0 <= j < i ==> ns[j].0 != p,
    ensures
        ns_bindings(ns, p) == ns[i].1,
    decreases i,
{
    if i > 0 {
        lemma_ns_bindings_at(ns.drop_first(), p, i - 1);
    }
}

/// A prefix with no entry has the empty binding stack.
pub proof fn lemma_ns_bindings_absent(
    ns: Seq<(Option<Seq<char>>, Seq<Seq<char>>)>,
    p: Option<Seq<char>>,
)
    requires
        forall|j: int| 0 <= j < ns.len() ==> ns[j].0 != p,
    ensures
        ns_bindings(ns, p) == Seq::<Seq<char>>::empty(),
    decreases ns.len(),
{
    if ns.len() > 0 {
        lemma_ns_bindings_absent(ns.drop_first(), p);
    }
}

/// Pushing onto a prefix that has an entry updates that entry in place.
pub proof fn lemma_ns_push_at(
    ns: Seq<(Option<Seq<char>>, Seq<Seq<char>>)>,
    p: Option<Seq<char>>,
    u: Seq<char>,
    i: int,
)
    requires
        0 <= i < ns.len(),
        ns[i].0 == p,
        forall|j: int| 0 <= j < i ==> ns[j].0 != p,
    ensures
        ns_push(ns, p, u) == ns.update(i, (p, ns[i].1.push(u))),
    decreases i,
{
    if i == 0 {
        assert(seq![(p, ns[0].1.push(u))] + ns.drop_first() =~= ns.update(0, (p, ns[0].1.push(u))));
    } else {
        lemma_ns_push_at(ns.drop_first(), p, u, i - 1);
        assert(seq![ns[0]] + ns.drop_first().update(i - 1, (p, ns[i].1.push(u))) =~= ns.update(
            i,
            (p, ns[i].1.push(u)),
        ));
    }
}

/// Pushing onto a prefix with no entry appends a fresh entry.
pub proof fn lemma_ns_push_absent(
    ns: Seq<(Option<Seq<char>>, Seq<Seq<char>>)>,
    p: Option<Seq<char>>,
    u: Seq<char>,
)
    requires
        forall|j: int| 0 <= j < ns.len() ==> ns[j].0 != p,
    ensures
        ns_push(ns, p, u) == ns.push((p, seq![u])),
    decreases ns.len(),
{
    if ns.len() == 0 {
        assert(ns_push(ns, p, u) =~= ns.push((p, seq![u])));
    } else {
        lemma_ns_push_absent(ns.drop_first(), p, u);
        assert(seq![ns[0]] + ns.drop_first().push((p, seq![u])) =~= ns.push((p, seq![u])));
    }
}

/// Popping a prefix whose first entry is at `i` and holds a binding updates
/// that entry in place.
pub proof fn lemma_ns_pop_at(
    ns: Seq<(Option<Seq<char>>, Seq<Seq<char>>)>,
    p: Option<Seq<char>>,
    i: int,
)
    requires
        0 <= i < ns.len(),
        ns[i].0 == p,
        forall|j: int| 0 <= j < i ==> ns[j].0 != p,
        ns[i].1.len() > 0,
    ensures
        ns_pop(ns, p) == ns.update(i, (p, ns[i].1.drop_last())),
    decreases i,
{
    if i == 0 {
        assert(seq![(p, ns[0].1.drop_last())] + ns.drop_first() =~= ns.update(
            0,
            (p, ns[0].1.drop_last()),
        ));
    } else {
        lemma_ns_pop_at(ns.drop_first(), p, i - 1);
        assert(seq![ns[0]] + ns.drop_first().update(i - 1, (p, ns[i].1.drop_last())) =~= ns.update(
            i,
            (p, ns[i].1.drop_last()),
        ));
    }
}

/// What a push does to every prefix's binding stack.
pub proof fn lemma_ns_push_bindings(
    ns: Seq<(Option<Seq<char>>, Seq<Seq<char>>)>,
    p: Option<Seq<char>>,
    u: Seq<char>,
    q: Option<Seq<char>>,
)
    ensures
        ns_bindings(ns_push(ns, p, u), q) == if q == p {
            ns_bindings(ns, p).push(u)
        } else {
            ns_bindings(ns, q)
        },
    decreases ns.len(),
{
    if ns.len() == 0 {
        if q == p {
            assert(ns_bindings(ns_push(ns, p, u), q) =~= ns_bindings(ns, p).push(u));
        } else {
            assert(seq![(p, seq![u])].drop_first() =~= ns);
        }
    } else if ns[0].0 == p {
        let r = seq![(p, ns[0].1.push(u))] + ns.drop_first();
        assert(r.drop_first() =~= ns.drop_first());
    } else {
        lemma_ns_push_bindings(ns.drop_first(), p, u, q);
        let r = seq![ns[0]] + ns_push(ns.drop_first(), p, u);
        assert(r.drop_first() =~= ns_push(ns.drop_first(), p, u));
    }
}

/// What a pop does to every prefix's binding stack.
pub proof fn lemma_ns_pop_bindings(
    ns: Seq<(Option<Seq<char>>, Seq<Seq<char>>)>,
    p: Option<Seq<char>>,
    q: Option<Seq<char>>,
)
    ensures
        ns_bindings(ns_pop(ns, p), q) == if q == p && ns_bindings(ns, p).len() > 0 {
            ns_bindings(ns, p).drop_last()
        } else {
            ns_bindings(ns, q)
        },
    decreases ns.len(),
{
    if ns.len() == 0 {
    } else if ns[0].0 == p {
        if ns[0].1.len() > 0 {
            let r = seq![(p, ns[0].1.drop_last())] + ns.drop_first();
            assert(r.drop_first() =~= ns.drop_first());
        }
    } else {
        lemma_ns_pop_bindings(ns.drop_first(), p, q);
        let r = seq![ns[0]] + ns_pop(ns.drop_first(), p);
        assert(r.drop_first() =~= ns_pop(ns.drop_first(), p));
    }
}

/// What popping a whole scope of distinct prefixes, each with a binding to
/// pop, does to every prefix's binding stack.
pub proof fn lemma_ns_pop_all_bindings(
    ns: Seq<(Option<Seq<char>>, Seq<Seq<char>>)>,
    scope: Seq<Option<Seq<char>>>,
    q: Option<Seq<char>>,
)
    requires
        forall|i: int, j: int| 0 <= i < j < scope.len() ==> scope[i] != scope[j],
        forall|i: int| 0 <= i < scope.len() ==> ns_bindings(ns, #[trigger] scope[i]).len() > 0,
    ensures
        ns_bindings(ns_pop_all(ns, scope), q) == if scope_has(scope, q) {
            ns_bindings(ns, q).drop_last()
        } else {
            ns_bindings(ns, q)
        },
    decreases scope.len(),
{
    if scope.len() > 0 {
        let front = scope.drop_last();
        let p = scope.last();
        assert(forall|i: int| 0 <= i < front.len() ==> front[i] == scope[i]);
        lemma_ns_pop_all_bindings(ns, front, q);
        lemma_ns_pop_all_bindings(ns, front, p);
        assert(!scope_has(front, p));
        lemma_ns_pop_bindings(ns_pop_all(ns, front), p, q);
        if scope_has(scope, q) {
            if q == p {
            } else {
                assert(scope_has(front, q)) by {
                    let i = choose|i: int| 0 <= i < scope.len() && scope[i] == q;
                    assert(front[i] == q);
                }
            }
        } else {
            assert(!scope_has(front, q)) by {
                if scope_has(front, q) {
                    let i = choose|i: int| 0 <= i < front.len() && front[i] == q;
                    assert(scope[i] == q);
                }
            }
            assert(q != p);
        }
    }
}

// ---------------------------------------------------------------------------
// The exact text each operation emits.
// ---------------------------------------------------------------------------
/// What starting an element emits: `<name`.
pub open spec fn start_text(p: Option<Seq<char>>, tag: Seq<char>) -> Seq<char> {
    seq!['<'] + spec_opt_qname(p, tag)
}

/// What an attribute emits: ` name="escaped value"`.
pub open spec fn attr_text(p: Option<Seq<char>>, key: Seq<char>, value: Seq<char>) -> Seq<char> {
    seq![' '] + spec_opt_qname(p, key) + seq!['=', '"'] + escaped_text(value) + seq!['"']
}

/// What a namespace declaration emits: ` xmlns="uri"` or ` xmlns:prefix="uri"`,
/// the uri escaped.
pub open spec fn ns_decl_text(p: Option<Seq<char>>, u: Seq<char>) -> Seq<char> {
    seq![' ', 'x', 'm', 'l', 'n', 's'] + (match p {
        Option::Some(pp) => seq![':'] + pp,
        Option::None => Seq::<char>::empty(),
    }) + seq!['=', '"'] + escaped_text(u) + seq!['"']
}

/// What a CDATA section emits; its contents pass verbatim.
pub open spec fn cdata_text(content: Seq<char>) -> Seq<char> {
    seq!['<', '!', '[', 'C', 'D', 'A', 'T', 'A', '['] + content + seq![']', ']', '>']
}

/// What closing an element emits: `</name>`.
pub open spec fn close_text(p: Option<Seq<char>>, tag: Seq<char>) -> Seq<char> {
    seq!['<', '/'] + spec_opt_qname(p, tag) + seq!['>']
}

/// What a whole text-only element emits.
pub open spec fn flatten_text(
    p: Option<Seq<char>>,
    tag: Seq<char>,
    content: Seq<char>,
    is_cdata: bool,
) -> Seq<char> {
    start_text(p, tag) + seq!['>'] + (if is_cdata {
        cdata_text(content)
    } else {
        escaped_text(content)
    }) + close_text(p, tag)
}

// ---------------------------------------------------------------------------
// The writer.
// ---------------------------------------------------------------------------
/// The view of a stack of namespace bindings.
pub open spec fn strings_view(v: Seq<String>) -> Seq<Seq<char>> {
    Seq::new(v.len(), |i: int| v[i]@)
}

/// The view of one scope's declared prefixes.
pub open spec fn scope_view(v: Seq<Option<String>>) -> Seq<Option<Seq<char>>> {
    Seq::new(v.len(), |i: int| opt_string_view(&v[i]))
}

/// An append-only emitter of XML syntax.  `inner` is the output written so
/// far; `used_namespaces` maps each prefix to the stack of namespaces bound
/// to it, innermost last; `set_prefixes` holds, for each open element, the
/// prefixes it freshly declared.  Every matched start/end pair leaves the
/// namespace state as it found it.
pub struct XmlWriter {
    pub inner: String,
    pub used_namespaces: Vec<(Option<String>, Vec<String>)>,
    pub set_prefixes: Vec<Vec<Option<String>>>,
}

impl XmlWriter {
    /// The namespace state this writer holds.
    pub open spec fn ns_model(self) -> NsModel {
        NsModel {
            namespaces: Seq::new(
                self.used_namespaces@.len(),
                |i: int|
                    (
                        opt_string_view(&self.used_namespaces@[i].0),
                        strings_view(self.used_namespaces@[i].1@),
                    ),
            ),
            scopes: Seq::new(self.set_prefixes@.len(), |i: int| scope_view(self.set_prefixes@[i]@)),
        }
    }

    /// The writer's invariant: its namespace state is well formed.
    pub open spec fn wf(self) -> bool {
        self.ns_model().wf()
    }

    /// A writer that appends to the given output, with no namespace in
    /// scope.
    pub fn new(inner: String) -> (r: XmlWriter)
        ensures
            r.inner == inner,
            r.ns_model().namespaces.len() == 0,
            r.ns_model().scopes.len() == 0,
            r.wf(),
    {
        let w = XmlWriter { inner, used_namespaces: Vec::new(), set_prefixes: Vec::new() };
        proof {
            assert forall|p: Option<Seq<char>>|
                scopes_count(w.ns_model().scopes, p) <= ns_bindings(
                    w.ns_model().namespaces,
                    p,
                ).len() by {
                assert(scopes_count(w.ns_model().scopes, p) == 0);
            }
        }
        w
    }

    /// Gives the output back.
    pub fn into_inner(self) -> (r: String)
        ensures
            r == self.inner,
    {
        self.inner
    }

    /// Emits `<tag` or `<prefix:tag` and opens a fresh declaration scope
    /// for this element.
    pub fn write_element_start(&mut self, prefix: Option<&str>, tag: &str) -> (r: Result<
        (),
        XmlError,
    >)
        requires
            old(self).wf(),
        ensures
            r is Ok,
            final(self).inner@ == old(self).inner@ + start_text(opt_str_view(prefix), tag@),
            final(self).ns_model().namespaces == old(self).ns_model().namespaces,
            final(self).ns_model().scopes == old(self).ns_model().scopes.push(
                Seq::<Option<Seq<char>>>::empty(),
            ),
            final(self).wf(),
    {
        let ghost m0 = self.ns_model();
        self.set_prefixes.push(Vec::new());
        self.inner.append("<");
        let name = opt_qname(prefix, tag);
        self.inner.append(name.as_str());
        proof {
            reveal_strlit("<");
            assert("<"@ =~= seq!['<']);
            assert(self.inner@ =~= old(self).inner@ + start_text(opt_str_view(prefix), tag@));
            assert(self.ns_model().namespaces =~~= m0.namespaces);
            assert(self.ns_model().scopes =~~= m0.scopes.push(Seq::<Option<Seq<char>>>::empty()));
            assert forall|p: Option<Seq<char>>|
                scopes_count(self.ns_model().scopes, p) <= ns_bindings(
                    self.ns_model().namespaces,
                    p,
                ).len() by {
                assert(self.ns_model().scopes.drop_last() =~~= m0.scopes);
                assert(!scope_has(Seq::<Option<Seq<char>>>::empty(), p));
                assert(scopes_count(m0.scopes, p) <= ns_bindings(m0.namespaces, p).len());
            }
        }
        Ok(())
    }

    /// Emits ` key="value"` or ` prefix:key="value"`, the value escaped.
    pub fn write_attribute(&mut self, prefix: Option<&str>, key: &str, value: &str) -> (r: Result<
        (),
        XmlError,
    >)
        ensures
            r is Ok,
            final(self).inner@ == old(self).inner@ + attr_text(
                opt_str_view(prefix),
                key@,
                value@,
            ),
            final(self).ns_model() == old(self).ns_model(),
    {
        self.inner.append(" ");
        let name = opt_qname(prefix, key);
        self.inner.append(name.as_str());
        self.inner.append("=\"");
        let escaped = xml_escape(value);
        self.inner.append(escaped.as_str());
        self.inner.append("\"");
        proof {
            reveal_strlit(" ");
            reveal_strlit("=\"");
            reveal_strlit("\"");
            assert(" "@ =~= seq![' ']);
            assert("=\""@ =~= seq!['=', '"']);
            assert("\""@ =~= seq!['"']);
            assert(self.inner@ =~= old(self).inner@ + attr_text(
                opt_str_view(prefix),
                key@,
                value@,
            ));
        }
        Ok(())
    }

    /// Emits the text, escaped.
    pub fn write_text(&mut self, content: &str) -> (r: Result<(), XmlError>)
        ensures
            r is Ok,
            final(self).inner@ == old(self).inner@ + escaped_text(content@),
            final(self).ns_model() == old(self).ns_model(),
    {
        let escaped = xml_escape(content);
        self.inner.append(escaped.as_str());
        Ok(())
    }

    /// Emits `<![CDATA[content]]>`; the content passes verbatim, so it must
    /// not itself hold `]]>`.
    pub fn write_cdata_text(&mut self, content: &str) -> (r: Result<(), XmlError>)
        ensures
            r is Ok,
            final(self).inner@ == old(self).inner@ + cdata_text(content@),
            final(self).ns_model() == old(self).ns_model(),
    {
        self.inner.append("<![CDATA[");
        self.inner.append(content);
        self.inner.append("]]>");
        proof {
            reveal_strlit("<![CDATA[");
            reveal_strlit("]]>");
            assert("<![CDATA["@ =~= seq!['<', '!', '[', 'C', 'D', 'A', 'T', 'A', '[']);
            assert("]]>"@ =~= seq![']', ']', '>']);
            assert(self.inner@ =~= old(self).inner@ + cdata_text(content@));
        }
        Ok(())
    }

    /// Emits `>`: the tag head ends and the element's body begins.
    pub fn write_element_end_open(&mut self) -> (r: Result<(), XmlError>)
        ensures
            r is Ok,
            final(self).inner@ == old(self).inner@ + seq!['>'],
            final(self).ns_model() == old(self).ns_model(),
    {
        self.inner.append(">");
        proof {
            reveal_strlit(">");
            assert(self.inner@ =~= old(self).inner@ + seq!['>']);
        }
        Ok(())
    }

    /// The first entry of `used_namespaces` holding this prefix, if any.
    fn find_prefix_entry(&self, prefix: &Option<&str>) -> (r: Option<usize>)
        ensures
            match r {
                Some(i) => i < self.ns_model().namespaces.len() && self.ns_model().namespaces[
                    i as int
                ].0 == opt_str_view(*prefix) && forall|j: int|
                    0 <= j < i ==> self.ns_model().namespaces[j].0 != opt_str_view(*prefix),
                None => forall|j: int|
                    0 <= j < self.ns_model().namespaces.len() ==> self.ns_model().namespaces[j].0
                        != opt_str_view(*prefix),
            },
    {
        let n = self.used_namespaces.len();
        let mut i: usize = 0;
        while i < n
            invariant
                i <= n,
                n == self.used_namespaces@.len(),
                forall|j: int|
                    0 <= j < i ==> self.ns_model().namespaces[j].0 != opt_str_view(*prefix),
            decreases n - i,
        {
            if opt_eq_str(&self.used_namespaces[i].0, prefix) {
                return Some(i);
            }
            i += 1;
        }
        None
    }

    /// True when the innermost binding for this prefix is this namespace —
    /// the duplicate a repeated declaration suppresses.
    pub fn is_prefix_defined_as(&mut self, prefix: &Option<&str>, namespace: &str) -> (r: bool)
        ensures
            *final(self) == *old(self),
            r == ns_defined_as(old(self).ns_model(), opt_str_view(*prefix), namespace@),
    {
        let ghost m = self.ns_model();
        let ghost pv = opt_str_view(*prefix);
        match self.find_prefix_entry(prefix) {
            None => {
                proof {
                    lemma_ns_bindings_absent(m.namespaces, pv);
                }
                false
            },
            Some(i) => {
                proof {
                    lemma_ns_bindings_at(m.namespaces, pv, i as int);
                }
                let stack = &self.used_namespaces[i].1;
                let k = stack.len();
                if k == 0 {
                    false
                } else {
                    str_equal(stack[k - 1].as_str(), namespace)
                }
            },
        }
    }

    /// The namespace the prefix is currently bound to, if any.
    pub fn get_namespace(&mut self, prefix: &Option<&str>) -> (r: Option<String>)
        ensures
            *final(self) == *old(self),
            ({
                let b = ns_bindings(old(self).ns_model().namespaces, opt_str_view(*prefix));
                if b.len() == 0 {
                    r is None
                } else {
                    r matches Some(u) && u@ == b.last()
                }
            }),
    {
        let ghost m = self.ns_model();
        let ghost pv = opt_str_view(*prefix);
        match self.find_prefix_entry(prefix) {
            None => {
                proof {
                    lemma_ns_bindings_absent(m.namespaces, pv);
                }
                None
            },
            Some(i) => {
                proof {
                    lemma_ns_bindings_at(m.namespaces, pv, i as int);
                }
                let stack = &self.used_namespaces[i].1;
                let k = stack.len();
                if k == 0 {
                    None
                } else {
                    Some(stack[k - 1].clone())
                }
            },
        }
    }
}

/// The namespace state after a declaration that is not suppressed: the
/// binding pushed, and the prefix recorded once in the innermost scope.
pub open spec fn declared_model(m: NsModel, p: Option<Seq<char>>, u: Seq<char>) -> NsModel {
    NsModel {
        namespaces: ns_push(m.namespaces, p, u),
        scopes: m.scopes.update(m.scopes.len() - 1, scope_insert(m.scopes.last(), p)),
    }
}

/// The namespace state after the innermost scope closes: one binding popped
/// for each prefix it declared, and the scope gone.
pub open spec fn closed_model(m: NsModel) -> NsModel {
    NsModel {
        namespaces: ns_pop_all(m.namespaces, m.scopes.last()),
        scopes: m.scopes.drop_last(),
    }
}

impl XmlWriter {
    /// Emits ` xmlns="uri"` or ` xmlns:prefix="uri"` and binds the prefix,
    /// unless the prefix is already bound to this very namespace, which is a
    /// no-op.  Declaring outside any open element is a fault.
    pub fn write_namespace_declaration(&mut self, prefix: Option<&str>, ns: &str) -> (r: Result<
        (),
        XmlError,
    >)
        requires
            old(self).wf(),
        ensures
            final(self).wf(),
            ({
                let m = old(self).ns_model();
                let pv = opt_str_view(prefix);
                if ns_defined_as(m, pv, ns@) {
                    r is Ok && final(self).inner == old(self).inner && final(self).ns_model() == m
                } else if m.scopes.len() == 0 {
                    (r matches Err(e) && e@ == (ErrorModel::Io {
                        message: "Failed to get current prefix scope"@,
                    })) && final(self).inner == old(self).inner && final(self).ns_model() == m
                } else {
                    r is Ok && final(self).inner@ == old(self).inner@ + ns_decl_text(pv, ns@)
                        && final(self).ns_model() == declared_model(m, pv, ns@)
                }
            }),
    {
        let ghost m = self.ns_model();
        let ghost pv = opt_str_view(prefix);
        if self.is_prefix_defined_as(&prefix, ns) {
            return Ok(());
        }
        let p_owned: Option<String> = match prefix {
            Some(s) => Some(s.to_owned()),
            None => None,
        };
        proof {
            assert(opt_string_view(&p_owned) == pv);
        }
        match self.push_changed_namespace(p_owned, ns) {
            Err(e) => Err(e),
            Ok(()) => {
                match prefix {
                    Some(p) => {
                        self.inner.append(" xmlns:");
                        self.inner.append(p);
                        proof {
                            reveal_strlit(" xmlns:");
                            assert(" xmlns:"@ =~= seq![' ', 'x', 'm', 'l', 'n', 's', ':']);
                        }
                    },
                    None => {
                        self.inner.append(" xmlns");
                        proof {
                            reveal_strlit(" xmlns");
                            assert(" xmlns"@ =~= seq![' ', 'x', 'm', 'l', 'n', 's']);
                        }
                    },
                }
                self.inner.append("=\"");
                let escaped = xml_escape(ns);
                self.inner.append(escaped.as_str());
                self.inner.append("\"");
                proof {
                    reveal_strlit("=\"");
                    reveal_strlit("\"");
                    assert("=\""@ =~= seq!['=', '"']);
                    assert("\""@ =~= seq!['"']);
                    assert(self.inner@ =~= old(self).inner@ + ns_decl_text(pv, ns@));
                }
                Ok(())
            },
        }
    }

    /// Binds the namespace to the prefix and records the prefix in the
    /// innermost scope, once.  The caller has already ruled the duplicate
    /// case out.
    fn push_changed_namespace(&mut self, prefix: Option<String>, namespace: &str) -> (r: Result<
        (),
        XmlError,
    >)
        requires
            old(self).wf(),
        ensures
            final(self).wf(),
            final(self).inner == old(self).inner,
            ({
                let m = old(self).ns_model();
                let pv = opt_string_view(&prefix);
                if m.scopes.len() == 0 {
                    (r matches Err(e) && e@ == (ErrorModel::Io {
                        message: "Failed to get current prefix scope"@,
                    })) && final(self).ns_model() == m
                } else {
                    r is Ok && final(self).ns_model() == declared_model(m, pv, namespace@)
                }
            }),
    {
        let ghost m = self.ns_model();
        let ghost pv = opt_string_view(&prefix);
        let n = self.set_prefixes.len();
        if n == 0 {
            return Err(XmlError::Io { message: "Failed to get current prefix scope".to_owned() });
        }
        // push the binding onto the prefix's stack
        let pref_ref: Option<&str> = match &prefix {
            Some(s) => Some(s.as_str()),
            None => None,
        };
        proof {
            assert(opt_str_view(pref_ref) == pv);
        }
        match self.find_prefix_entry(&pref_ref) {
            Some(i) => {
                let mut entry = self.used_namespaces.remove(i);
                entry.1.push(namespace.to_owned());
                self.used_namespaces.insert(i, entry);
                proof {
                    lemma_ns_push_at(m.namespaces, pv, namespace@, i as int);
                    assert(self.ns_model().namespaces =~~= m.namespaces.update(
                        i as int,
                        (pv, m.namespaces[i as int].1.push(namespace@)),
                    ));
                }
            },
            None => {
                let mut stack: Vec<String> = Vec::new();
                stack.push(namespace.to_owned());
                let p2 = opt_clone(&prefix);
                self.used_namespaces.push((p2, stack));
                proof {
                    lemma_ns_push_absent(m.namespaces, pv, namespace@);
                    assert(strings_view(stack@) =~~= seq![namespace@]);
                    assert(self.ns_model().namespaces =~~= m.namespaces.push(
                        (pv, seq![namespace@]),
                    ));
                }
            },
        }
        // record the prefix in the innermost scope, once
        let in_scope = scope_contains(&self.set_prefixes[n - 1], &prefix);
        if !in_scope {
            match self.set_prefixes.pop() {
                Some(mut sc) => {
                    sc.push(prefix);
                    self.set_prefixes.push(sc);
                    proof {
                        assert(self.ns_model().scopes =~~= m.scopes.update(
                            m.scopes.len() - 1,
                            scope_insert(m.scopes.last(), pv),
                        ));
                    }
                },
                None => {
                    proof {
                        assert(false);
                    }
                    return Err(
                        XmlError::Io { message: "Failed to get current prefix scope".to_owned() },
                    );
                },
            }
        } else {
            proof {
                assert(self.ns_model().scopes =~~= m.scopes.update(
                    m.scopes.len() - 1,
                    scope_insert(m.scopes.last(), pv),
                ));
            }
        }
        proof {
            let m1 = self.ns_model();
            let d = declared_model(m, pv, namespace@);
            assert(m1.namespaces =~~= d.namespaces);
            assert(m1.scopes =~~= d.scopes);
            lemma_declared_model_wf(m, pv, namespace@);
        }
        Ok(())
    }

    /// Pops the innermost scope, restoring the binding each of its prefixes
    /// had before the element declared it; popping with no scope open means
    /// the start and end calls were not balanced.
    fn pop_changed_namespaces(&mut self) -> (r: Result<(), XmlError>)
        requires
            old(self).wf(),
        ensures
            final(self).wf(),
            final(self).inner == old(self).inner,
            ({
                let m = old(self).ns_model();
                if m.scopes.len() == 0 {
                    (r matches Err(e) && e@ == (ErrorModel::Io {
                        message: "Failed to restore previous prefix scope"@,
                    })) && final(self).ns_model() == m
                } else {
                    r is Ok && final(self).ns_model() == closed_model(m)
                }
            }),
    {
        let ghost m = self.ns_model();
        match self.set_prefixes.pop() {
            None => Err(
                XmlError::Io { message: "Failed to restore previous prefix scope".to_owned() },
            ),
            Some(scope) => {
                let ghost sv = scope_view(scope@);
                proof {
                    assert(sv =~~= m.scopes.last());
                    assert(self.ns_model().scopes =~~= m.scopes.drop_last());
                    assert forall|jj: int| 0 <= jj < sv.len() implies ns_bindings(
                        m.namespaces,
                        #[trigger] sv[jj],
                    ).len() >= 1 by {
                        assert(scope_has(m.scopes.last(), sv[jj]));
                        assert(scopes_count(m.scopes, sv[jj]) >= 1);
                        assert(scopes_count(m.scopes, sv[jj]) <= ns_bindings(
                            m.namespaces,
                            sv[jj],
                        ).len());
                    }
                }
                let n = scope.len();
                let mut i: usize = 0;
                while i < n
                    invariant
                        i <= n,
                        n == scope@.len(),
                        sv == scope_view(scope@),
                        self.inner == old(self).inner,
                        self.ns_model().scopes =~~= m.scopes.drop_last(),
                        self.ns_model().namespaces == ns_pop_all(m.namespaces, sv.take(i as int)),
                        forall|a: int, b: int| 0 <= a < b < sv.len() ==> sv[a] != sv[b],
                        forall|jj: int|
                            0 <= jj < sv.len() ==> ns_bindings(
                                m.namespaces,
                                #[trigger] sv[jj],
                            ).len() >= 1,
                        self.ns_model().namespaces.len() == m.namespaces.len(),
                        forall|j: int|
                            0 <= j < m.namespaces.len() ==> #[trigger] self.ns_model().namespaces[
                                j
                            ].0 == m.namespaces[j].0,
                    decreases n - i,
                {
                    let ghost cur = self.ns_model().namespaces;
                    let ghost pv = opt_string_view(&scope@[i as int]);
                    proof {
                        assert(sv[i as int] == pv);
                        assert(!scope_has(sv.take(i as int), pv)) by {
                            if scope_has(sv.take(i as int), pv) {
                                let a = choose|a: int|
                                    0 <= a < i && sv.take(i as int)[a] == pv;
                                assert(sv[a] == pv);
                            }
                        }
                        lemma_ns_pop_all_bindings_partial(m.namespaces, sv, i as int, pv);
                        assert(ns_bindings(cur, pv).len() >= 1);
                    }
                    let p = &scope[i];
                    let pref_ref: Option<&str> = match p {
                        Some(s) => Some(s.as_str()),
                        None => None,
                    };
                    proof {
                        assert(opt_str_view(pref_ref) == pv);
                    }
                    match self.find_prefix_entry(&pref_ref) {
                        None => {
                            proof {
                                lemma_ns_bindings_absent(cur, pv);
                                assert(false);
                            }
                            return Err(
                                XmlError::Io {
                                    message: "Prefix does not exist in scope".to_owned(),
                                },
                            );
                        },
                        Some(idx) => {
                            proof {
                                lemma_ns_bindings_at(cur, pv, idx as int);
                            }
                            let mut entry = self.used_namespaces.remove(idx);
                            match entry.1.pop() {
                                None => {
                                    proof {
                                        assert(false);
                                    }
                                    self.used_namespaces.insert(idx, entry);
                                    return Err(
                                        XmlError::Io {
                                            message: "Prefix state could not be popped".to_owned(),
                                        },
                                    );
                                },
                                Some(_) => {
                                    self.used_namespaces.insert(idx, entry);
                                    proof {
                                        lemma_ns_pop_at(cur, pv, idx as int);
                                        assert(self.ns_model().namespaces =~~= cur.update(
                                            idx as int,
                                            (pv, cur[idx as int].1.drop_last()),
                                        ));
                                        assert(sv.take(i as int + 1).drop_last() =~~= sv.take(
                                            i as int,
                                        ));
                                        assert(sv.take(i as int + 1).last() == sv[i as int]);
                                        assert(self.ns_model().namespaces == ns_pop_all(
                                            m.namespaces,
                                            sv.take(i as int + 1),
                                        ));
                                    }
                                },
                            }
                        },
                    }
                    i += 1;
                }
                proof {
                    assert(sv.take(n as int) =~~= sv);
                    let m1 = self.ns_model();
                    assert(m1 == closed_model(m)) by {
                        assert(m1.namespaces =~~= closed_model(m).namespaces);
                        assert(m1.scopes =~~= closed_model(m).scopes);
                    }
                    lemma_closed_model_wf(m);
                }
                Ok(())
            },
        }
    }

    /// Pops the element's declaration scope and emits `</tag>` or
    /// `</prefix:tag>`.
    pub fn write_element_end_close(&mut self, prefix: Option<&str>, tag: &str) -> (r: Result<
        (),
        XmlError,
    >)
        requires
            old(self).wf(),
        ensures
            final(self).wf(),
            ({
                let m = old(self).ns_model();
                if m.scopes.len() == 0 {
                    (r matches Err(e) && e@ == (ErrorModel::Io {
                        message: "Failed to restore previous prefix scope"@,
                    })) && final(self).inner == old(self).inner && final(self).ns_model() == m
                } else {
                    r is Ok && final(self).inner@ == old(self).inner@ + close_text(
                        opt_str_view(prefix),
                        tag@,
                    ) && final(self).ns_model() == closed_model(m)
                }
            }),
    {
        match self.pop_changed_namespaces() {
            Err(e) => Err(e),
            Ok(()) => {
                self.inner.append("</");
                let name = opt_qname(prefix, tag);
                self.inner.append(name.as_str());
                self.inner.append(">");
                proof {
                    reveal_strlit("</");
                    reveal_strlit(">");
                    assert("</"@ =~= seq!['<', '/']);
                    assert(">"@ =~= seq!['>']);
                    assert(self.inner@ =~= old(self).inner@ + close_text(
                        opt_str_view(prefix),
                        tag@,
                    ));
                }
                Ok(())
            },
        }
    }

    /// Pops the element's declaration scope and emits `/>`.
    pub fn write_element_end_empty(&mut self) -> (r: Result<(), XmlError>)
        requires
            old(self).wf(),
        ensures
            final(self).wf(),
            ({
                let m = old(self).ns_model();
                if m.scopes.len() == 0 {
                    (r matches Err(e) && e@ == (ErrorModel::Io {
                        message: "Failed to restore previous prefix scope"@,
                    })) && final(self).inner == old(self).inner && final(self).ns_model() == m
                } else {
                    r is Ok && final(self).inner@ == old(self).inner@ + seq!['/', '>']
                        && final(self).ns_model() == closed_model(m)
                }
            }),
    {
        match self.pop_changed_namespaces() {
            Err(e) => Err(e),
            Ok(()) => {
                self.inner.append("/>");
                proof {
                    reveal_strlit("/>");
                    assert("/>"@ =~= seq!['/', '>']);
                    assert(self.inner@ =~= old(self).inner@ + seq!['/', '>']);
                }
                Ok(())
            },
        }
    }

    /// Emits a whole text-only element: start, `>`, the content as text or
    /// CDATA, and the close.  The namespace state is left as it was.
    pub fn write_flatten_text(
        &mut self,
        prefix: Option<&str>,
        tag: &str,
        content: &str,
        is_cdata: bool,
    ) -> (r: Result<(), XmlError>)
        requires
            old(self).wf(),
        ensures
            r is Ok,
            final(self).inner@ == old(self).inner@ + flatten_text(
                opt_str_view(prefix),
                tag@,
                content@,
                is_cdata,
            ),
            final(self).ns_model() == old(self).ns_model(),
            final(self).wf(),
    {
        let ghost m = self.ns_model();
        match self.write_element_start(prefix, tag) {
            Ok(()) => {},
            Err(e) => {
                proof {
                    assert(false);
                }
                return Err(e);
            },
        }
        match self.write_element_end_open() {
            Ok(()) => {},
            Err(e) => {
                proof {
                    assert(false);
                }
                return Err(e);
            },
        }
        if is_cdata {
            match self.write_cdata_text(content) {
                Ok(()) => {},
                Err(e) => {
                    proof {
                        assert(false);
                    }
                    return Err(e);
                },
            }
        } else {
            match self.write_text(content) {
                Ok(()) => {},
                Err(e) => {
                    proof {
                        assert(false);
                    }
                    return Err(e);
                },
            }
        }
        let r = self.write_element_end_close(prefix, tag);
        proof {
            let mid = m.scopes.push(Seq::<Option<Seq<char>>>::empty());
            assert(mid.len() > 0);
            assert(mid.last() =~~= Seq::<Option<Seq<char>>>::empty());
            assert(mid.drop_last() =~~= m.scopes);
            assert(self.ns_model().namespaces == m.namespaces);
            assert(self.ns_model() == m);
            assert(self.inner@ =~= old(self).inner@ + flatten_text(
                opt_str_view(prefix),
                tag@,
                content@,
                is_cdata,
            ));
        }
        match r {
            Ok(()) => Ok(()),
            Err(e) => {
                proof {
                    assert(false);
                }
                Err(e)
            },
        }
    }
}

/// The bindings after part of a scope is popped: one off for each prefix
/// handled so far, the rest untouched.
pub proof fn lemma_ns_pop_all_bindings_partial(
    ns: Seq<(Option<Seq<char>>, Seq<Seq<char>>)>,
    scope: Seq<Option<Seq<char>>>,
    i: int,
    q: Option<Seq<char>>,
)
    requires
        0 <= i <= scope.len(),
        forall|a: int, b: int| 0 <= a < b < scope.len() ==> scope[a] != scope[b],
        forall|j: int| 0 <= j < scope.len() ==> ns_bindings(ns, #[trigger] scope[j]).len() > 0,
    ensures
        ns_bindings(ns_pop_all(ns, scope.take(i)), q) == if scope_has(scope.take(i), q) {
            ns_bindings(ns, q).drop_last()
        } else {
            ns_bindings(ns, q)
        },
{
    let part = scope.take(i);
    assert(forall|a: int| 0 <= a < i ==> part[a] == scope[a]);
    lemma_ns_pop_all_bindings(ns, part, q);
}

/// A declaration preserves well-formedness when a scope is open.
pub proof fn lemma_declared_model_wf(m: NsModel, p: Option<Seq<char>>, u: Seq<char>)
    requires
        m.wf(),
        m.scopes.len() > 0,
    ensures
        declared_model(m, p, u).wf(),
{
    let d = declared_model(m, p, u);
    let s0 = m.scopes.last();
    let s1 = scope_insert(s0, p);
    if ns_has_index(m.namespaces, p) {
        let i = choose|i: int| 0 <= i < m.namespaces.len() && m.namespaces[i].0 == p;
        let i0 = first_index(m.namespaces, p, i);
        lemma_ns_push_at(m.namespaces, p, u, i0);
    } else {
        assert(forall|j: int| 0 <= j < m.namespaces.len() ==> m.namespaces[j].0 != p);
        lemma_ns_push_absent(m.namespaces, p, u);
    }
    // keys stay unique
    assert forall|a: int, b: int|
        0 <= a < b < d.namespaces.len() implies d.namespaces[a].0 != d.namespaces[b].0 by {
        if b < m.namespaces.len() {
        } else {
            assert(d.namespaces[b].0 == p);
        }
    }
    // scopes stay duplicate-free
    assert forall|k: int, a: int, b: int|
        0 <= k < d.scopes.len() && 0 <= a < b < d.scopes[k].len() implies d.scopes[k][a]
        != d.scopes[k][b] by {
        if k == d.scopes.len() - 1 && !scope_has(s0, p) {
            if b == s1.len() - 1 {
                assert(s1[b] == p);
                assert(s1[a] == s0[a]);
            }
        }
    }
    // every scheduled pop still has a binding
    assert forall|q: Option<Seq<char>>|
        scopes_count(d.scopes, q) <= ns_bindings(d.namespaces, q).len() by {
        lemma_ns_push_bindings(m.namespaces, p, u, q);
        assert(d.scopes.drop_last() =~~= m.scopes.drop_last());
        assert(d.scopes.last() == s1);
        assert(scopes_count(m.scopes, q) == scopes_count(m.scopes.drop_last(), q) + if scope_has(
            s0,
            q,
        ) {
            1nat
        } else {
            0nat
        });
        assert(scopes_count(d.scopes, q) == scopes_count(m.scopes.drop_last(), q) + if scope_has(
            s1,
            q,
        ) {
            1nat
        } else {
            0nat
        });
        if q == p {
            assert(scope_has(s1, p)) by {
                if !scope_has(s0, p) {
                    assert(s1[s1.len() - 1] == p);
                }
            }
        } else {
            assert(scope_has(s1, q) == scope_has(s0, q)) by {
                if !scope_has(s0, p) {
                    if scope_has(s1, q) {
                        let a = choose|a: int| 0 <= a < s1.len() && s1[a] == q;
                        assert(a < s0.len());
                    }
                    if scope_has(s0, q) {
                        let a = choose|a: int| 0 <= a < s0.len() && s0[a] == q;
                        assert(s1[a] == q);
                    }
                }
            }
        }
        assert(scopes_count(m.scopes, q) <= ns_bindings(m.namespaces, q).len());
    }
}

/// True when some entry holds the prefix.
pub open spec fn ns_has_index(
    ns: Seq<(Option<Seq<char>>, Seq<Seq<char>>)>,
    p: Option<Seq<char>>,
) -> bool {
    exists|i: int| 0 <= i < ns.len() && ns[i].0 == p
}

/// The first index at or before `i` whose entry holds the prefix.
pub proof fn first_index(
    ns: Seq<(Option<Seq<char>>, Seq<Seq<char>>)>,
    p: Option<Seq<char>>,
    i: int,
) -> (r: int)
    requires
        0 <= i < ns.len(),
        ns[i].0 == p,
    ensures
        0 <= r < ns.len(),
        ns[r].0 == p,
        forall|j: int| 0 <= j < r ==> ns[j].0 != p,
    decreases i,
{
    if exists|j: int| 0 <= j < i && ns[j].0 == p {
        let j = choose|j: int| 0 <= j < i && ns[j].0 == p;
        first_index(ns, p, j)
    } else {
        i
    }
}

/// Closing a scope preserves well-formedness.
pub proof fn lemma_closed_model_wf(m: NsModel)
    requires
        m.wf(),
        m.scopes.len() > 0,
    ensures
        closed_model(m).wf(),
{
    let c = closed_model(m);
    let sv = m.scopes.last();
    assert forall|jj: int| 0 <= jj < sv.len() implies ns_bindings(
        m.namespaces,
        #[trigger] sv[jj],
    ).len() >= 1 by {
        assert(scope_has(sv, sv[jj]));
        assert(scopes_count(m.scopes, sv[jj]) >= 1);
        assert(scopes_count(m.scopes, sv[jj]) <= ns_bindings(m.namespaces, sv[jj]).len());
    }
    lemma_ns_pop_all_keys(m.namespaces, sv);
    assert forall|a: int, b: int|
        0 <= a < b < c.namespaces.len() implies c.namespaces[a].0 != c.namespaces[b].0 by {
        assert(c.namespaces[a].0 == m.namespaces[a].0);
        assert(c.namespaces[b].0 == m.namespaces[b].0);
    }
    assert forall|q: Option<Seq<char>>|
        scopes_count(c.scopes, q) <= ns_bindings(c.namespaces, q).len() by {
        lemma_ns_pop_all_bindings(m.namespaces, sv, q);
        assert(scopes_count(m.scopes, q) == scopes_count(m.scopes.drop_last(), q) + if scope_has(
            sv,
            q,
        ) {
            1nat
        } else {
            0nat
        });
        assert(scopes_count(m.scopes, q) <= ns_bindings(m.namespaces, q).len());
    }
}

/// Popping bindings never adds, removes or re-keys entries.
pub proof fn lemma_ns_pop_keys(ns: Seq<(Option<Seq<char>>, Seq<Seq<char>>)>, p: Option<Seq<char>>)
    ensures
        ns_pop(ns, p).len() == ns.len(),
        forall|j: int| 0 <= j < ns.len() ==> #[trigger] ns_pop(ns, p)[j].0 == ns[j].0,
    decreases ns.len(),
{
    if ns.len() > 0 {
        if ns[0].0 == p {
            if ns[0].1.len() > 0 {
                let r = seq![(p, ns[0].1.drop_last())] + ns.drop_first();
                assert(forall|j: int| 1 <= j < ns.len() ==> r[j] == ns[j]);
            }
        } else {
            lemma_ns_pop_keys(ns.drop_first(), p);
            let r = seq![ns[0]] + ns_pop(ns.drop_first(), p);
            assert(forall|j: int|
                1 <= j < ns.len() ==> #[trigger] r[j] == ns_pop(ns.drop_first(), p)[j - 1]);
        }
    }
}

/// Popping a whole scope never adds, removes or re-keys entries.
pub proof fn lemma_ns_pop_all_keys(
    ns: Seq<(Option<Seq<char>>, Seq<Seq<char>>)>,
    scope: Seq<Option<Seq<char>>>,
)
    ensures
        ns_pop_all(ns, scope).len() == ns.len(),
        forall|j: int| 0 <= j < ns.len() ==> #[trigger] ns_pop_all(ns, scope)[j].0 == ns[j].0,
    decreases scope.len(),
{
    if scope.len() > 0 {
        lemma_ns_pop_all_keys(ns, scope.drop_last());
        lemma_ns_pop_keys(ns_pop_all(ns, scope.drop_last()), scope.last());
    }
}

/// Clones an optional prefix.
fn opt_clone(o: &Option<String>) -> (r: Option<String>)
    ensures
        r == *o,
{
    match o {
        Option::Some(s) => Option::Some(s.clone()),
        Option::None => Option::None,
    }
}

/// True when the scope's vector already records the prefix.
fn scope_contains(v: &Vec<Option<String>>, p: &Option<String>) -> (r: bool)
    ensures
        r == scope_has(scope_view(v@), opt_string_view(p)),
{
    let n = v.len();
    let mut i: usize = 0;
    while i < n
        invariant
            i <= n,
            n == v@.len(),
            forall|j: int| 0 <= j < i ==> scope_view(v@)[j] != opt_string_view(p),
        decreases n - i,
    {
        if opt_eq(&v[i], p) {
            proof {
                assert(scope_view(v@)[i as int] == opt_string_view(p));
            }
            return true;
        }
        i += 1;
    }
    false
}

/// True when two owned optional prefixes name the same thing.
fn opt_eq(a: &Option<String>, b: &Option<String>) -> (r: bool)
    ensures
        r == (opt_string_view(a) == opt_string_view(b)),
{
    match (a, b) {
        (Option::None, Option::None) => true,
        (Option::Some(x), Option::Some(y)) => str_equal(x.as_str(), y.as_str()),
        _ => false,
    }
}

// ---------------------------------------------------------------------------
// The scope-balance law: a matched start/end pair leaves every prefix's
// binding stack as it found it.
// ---------------------------------------------------------------------------
/// The namespace state after an element start: a fresh, empty scope.
pub open spec fn opened_model(m: NsModel) -> NsModel {
    NsModel { namespaces: m.namespaces, scopes: m.scopes.push(Seq::<Option<Seq<char>>>::empty()) }
}

/// The namespace state after one declaration: unchanged when the prefix is
/// already bound to that very namespace, else bound and recorded.
pub open spec fn declare_step(m: NsModel, p: Option<Seq<char>>, u: Seq<char>) -> NsModel {
    if ns_defined_as(m, p, u) {
        m
    } else {
        declared_model(m, p, u)
    }
}

/// The namespace state after a row of declarations, first to last.
pub open spec fn declares_applied(
    m: NsModel,
    decls: Seq<(Option<Seq<char>>, Seq<char>)>,
) -> NsModel
    decreases decls.len(),
{
    if decls.len() == 0 {
        m
    } else {
        declares_applied(declare_step(m, decls[0].0, decls[0].1), decls.drop_first())
    }
}

/// Every declaration of this prefix in the row names this namespace.
pub open spec fn decl_uris_match(
    decls: Seq<(Option<Seq<char>>, Seq<char>)>,
    p: Option<Seq<char>>,
    u: Seq<char>,
) -> bool {
    forall|i: int| 0 <= i < decls.len() && (#[trigger] decls[i]).0 == p ==> decls[i].1 == u
}

/// No prefix is declared with two different namespaces in the row.
pub open spec fn decls_consistent(decls: Seq<(Option<Seq<char>>, Seq<char>)>) -> bool {
    forall|i: int, j: int|
        0 <= i < decls.len() && 0 <= j < decls.len() && (#[trigger] decls[i]).0 == (
        #[trigger] decls[j]).0 ==> decls[i].1 == decls[j].1
}

/// The innermost scope tracks exactly what changed since `base`: a prefix it
/// records gained one binding, which every pending declaration of that
/// prefix repeats; any other prefix is untouched.
pub open spec fn scope_tracks(
    base: NsModel,
    cur: NsModel,
    decls: Seq<(Option<Seq<char>>, Seq<char>)>,
) -> bool {
    forall|p: Option<Seq<char>>|
        #![trigger ns_bindings(cur.namespaces, p)]
        {
            if scope_has(cur.scopes.last(), p) {
                ns_bindings(cur.namespaces, p).len() == ns_bindings(base.namespaces, p).len() + 1
                    && ns_bindings(cur.namespaces, p).drop_last() == ns_bindings(
                    base.namespaces,
                    p,
                ) && decl_uris_match(decls, p, ns_bindings(cur.namespaces, p).last())
            } else {
                ns_bindings(cur.namespaces, p) == ns_bindings(base.namespaces, p)
            }
        }
}

/// Applying the pending declarations and then closing the scope restores
/// every prefix's bindings to what `base` held.
proof fn lemma_declares_aux(
    base: NsModel,
    cur: NsModel,
    decls: Seq<(Option<Seq<char>>, Seq<char>)>,
)
    requires
        cur.scopes.len() == base.scopes.len() + 1,
        cur.scopes.drop_last() == base.scopes,
        decls_consistent(decls),
        forall|a: int, b: int|
            0 <= a < b < cur.scopes.last().len() ==> cur.scopes.last()[a] != cur.scopes.last()[b],
        scope_tracks(base, cur, decls),
    ensures
        ({
            let f = declares_applied(cur, decls);
            f.scopes.len() == cur.scopes.len() && closed_model(f).scopes == base.scopes && forall|
                p: Option<Seq<char>>,
            |
                ns_bindings(#[trigger] closed_model(f).namespaces, p) == ns_bindings(
                    base.namespaces,
                    p,
                )
        }),
    decreases decls.len(),
{
    if decls.len() == 0 {
        let f = cur;
        let sv = cur.scopes.last();
        assert forall|jj: int| 0 <= jj < sv.len() implies ns_bindings(
            cur.namespaces,
            #[trigger] sv[jj],
        ).len() > 0 by {
            assert(scope_has(sv, sv[jj]));
            assert(ns_bindings(cur.namespaces, sv[jj]).len() == ns_bindings(
                base.namespaces,
                sv[jj],
            ).len() + 1);
        }
        assert forall|p: Option<Seq<char>>|
            ns_bindings(#[trigger] closed_model(f).namespaces, p) == ns_bindings(
                base.namespaces,
                p,
            ) by {
            lemma_ns_pop_all_bindings(cur.namespaces, sv, p);
            assert(ns_bindings(cur.namespaces, p) == ns_bindings(cur.namespaces, p));
        }
    } else {
        let p = decls[0].0;
        let u = decls[0].1;
        let rest = decls.drop_first();
        let cur2 = declare_step(cur, p, u);
        let s0 = cur.scopes.last();
        assert(ns_bindings(cur.namespaces, p) == ns_bindings(cur.namespaces, p));
        assert(decls_consistent(rest)) by {
            assert(forall|i: int| 0 <= i < rest.len() ==> rest[i] == decls[i + 1]);
        }
        if ns_defined_as(cur, p, u) {
            assert(cur2 == cur);
            assert(scope_tracks(base, cur2, rest)) by {
                assert forall|q: Option<Seq<char>>|
                    #![trigger ns_bindings(cur2.namespaces, q)]
                    {
                        if scope_has(cur2.scopes.last(), q) {
                            ns_bindings(cur2.namespaces, q).len() == ns_bindings(
                                base.namespaces,
                                q,
                            ).len() + 1 && ns_bindings(cur2.namespaces, q).drop_last()
                                == ns_bindings(base.namespaces, q) && decl_uris_match(
                                rest,
                                q,
                                ns_bindings(cur2.namespaces, q).last(),
                            )
                        } else {
                            ns_bindings(cur2.namespaces, q) == ns_bindings(base.namespaces, q)
                        }
                    } by {
                    assert(ns_bindings(cur.namespaces, q) == ns_bindings(cur.namespaces, q));
                    if scope_has(cur.scopes.last(), q) {
                        assert(decl_uris_match(decls, q, ns_bindings(cur.namespaces, q).last()));
                        assert forall|i: int|
                            0 <= i < rest.len() && (#[trigger] rest[i]).0 == q implies rest[i].1
                            == ns_bindings(cur2.namespaces, q).last() by {
                            assert(rest[i] == decls[i + 1]);
                        }
                    }
                }
            }
            lemma_declares_aux(base, cur2, rest);
        } else {
            // the prefix cannot already be in the scope: its pending
            // declaration would then repeat its innermost binding
            assert(!scope_has(s0, p)) by {
                if scope_has(s0, p) {
                    assert(decl_uris_match(decls, p, ns_bindings(cur.namespaces, p).last()));
                    assert(decls[0].0 == p);
                    assert(u == ns_bindings(cur.namespaces, p).last());
                    assert(ns_bindings(cur.namespaces, p).len() > 0);
                }
            }
            let s1 = s0.push(p);
            assert(scope_insert(s0, p) == s1);
            assert(cur2 == declared_model(cur, p, u));
            assert(cur2.scopes.last() == s1) by {
                assert(cur2.scopes == cur.scopes.update(cur.scopes.len() - 1, s1));
            }
            assert(cur2.scopes.drop_last() =~~= base.scopes);
            assert(forall|a: int, b: int|
                0 <= a < b < s1.len() ==> s1[a] != s1[b]) by {
                assert(forall|a: int| 0 <= a < s0.len() ==> s1[a] == s0[a]);
                assert(s1[s1.len() - 1] == p);
                assert(!scope_has(s0, p));
            }
            assert(scope_tracks(base, cur2, rest)) by {
                assert forall|q: Option<Seq<char>>|
                    #![trigger ns_bindings(cur2.namespaces, q)]
                    {
                        if scope_has(cur2.scopes.last(), q) {
                            ns_bindings(cur2.namespaces, q).len() == ns_bindings(
                                base.namespaces,
                                q,
                            ).len() + 1 && ns_bindings(cur2.namespaces, q).drop_last()
                                == ns_bindings(base.namespaces, q) && decl_uris_match(
                                rest,
                                q,
                                ns_bindings(cur2.namespaces, q).last(),
                            )
                        } else {
                            ns_bindings(cur2.namespaces, q) == ns_bindings(base.namespaces, q)
                        }
                    } by {
                    lemma_ns_push_bindings(cur.namespaces, p, u, q);
                    assert(ns_bindings(cur.namespaces, q) == ns_bindings(cur.namespaces, q));
                    if q == p {
                        assert(scope_has(s1, p)) by {
                            assert(s1[s1.len() - 1] == p);
                        }
                        assert(ns_bindings(cur2.namespaces, p) == ns_bindings(
                            cur.namespaces,
                            p,
                        ).push(u));
                        assert(ns_bindings(cur2.namespaces, p).drop_last() =~~= ns_bindings(
                            cur.namespaces,
                            p,
                        ));
                        assert forall|i: int|
                            0 <= i < rest.len() && (#[trigger] rest[i]).0 == p implies rest[i].1
                            == ns_bindings(cur2.namespaces, p).last() by {
                            assert(rest[i] == decls[i + 1]);
                            assert(decls[i + 1].0 == decls[0].0);
                        }
                    } else {
                        assert(scope_has(s1, q) == scope_has(s0, q)) by {
                            if scope_has(s1, q) {
                                let a = choose|a: int| 0 <= a < s1.len() && s1[a] == q;
                                assert(a < s0.len());
                            }
                            if scope_has(s0, q) {
                                let a = choose|a: int| 0 <= a < s0.len() && s0[a] == q;
                                assert(s1[a] == q);
                            }
                        }
                        if scope_has(s0, q) {
                            assert(decl_uris_match(
                                decls,
                                q,
                                ns_bindings(cur.namespaces, q).last(),
                            ));
                            assert forall|i: int|
                                0 <= i < rest.len() && (#[trigger] rest[i]).0 == q implies rest[
                                i].1 == ns_bindings(cur2.namespaces, q).last() by {
                                assert(rest[i] == decls[i + 1]);
                            }
                        }
                    }
                }
            }
            lemma_declares_aux(base, cur2, rest);
        }
    }
}

/// The scope-balance law: opening an element, declaring namespaces in it —
/// no prefix twice with different namespaces — and closing the element
/// leaves the scope stack and every prefix's bindings exactly as they were.
pub proof fn lemma_namespace_scope_balanced(
    m: NsModel,
    decls: Seq<(Option<Seq<char>>, Seq<char>)>,
)
    requires
        decls_consistent(decls),
    ensures
        ({
            let after = declares_applied(opened_model(m), decls);
            after.scopes.len() > 0 && closed_model(after).scopes == m.scopes && forall|
                p: Option<Seq<char>>,
            |
                ns_bindings(#[trigger] closed_model(after).namespaces, p) == ns_bindings(
                    m.namespaces,
                    p,
                )
        }),
{
    let opened = opened_model(m);
    assert(opened.scopes.drop_last() =~~= m.scopes);
    assert(opened.scopes.last() =~~= Seq::<Option<Seq<char>>>::empty());
    assert(scope_tracks(m, opened, decls)) by {
        assert forall|p: Option<Seq<char>>|
            !scope_has(opened.scopes.last(), p) && ns_bindings(#[trigger] opened.namespaces, p)
                == ns_bindings(m.namespaces, p) by {}
    }
    lemma_declares_aux(m, opened, decls);
}

/// True when an owned and a borrowed optional prefix name the same thing.
fn opt_eq_str(a: &Option<String>, b: &Option<&str>) -> (r: bool)
    ensures
        r == (opt_string_view(a) == opt_str_view(*b)),
{
    match (a, b) {
        (Option::None, Option::None) => true,
        (Option::Some(x), Option::Some(y)) => str_equal(x.as_str(), y),
        _ => false,
    }
}

} // verus!
