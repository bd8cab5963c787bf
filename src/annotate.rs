//! Placeholder resolution: a registry from placeholder kinds to resolvers, and
//! the rewrite of one string through it.

use vstd::prelude::*;

use crate::placeholder::{lex, parse_string, ParsedElement, Placeholder, Token};

verus! {

/// A resolver: it declares the placeholder kinds it accepts and turns a
/// placeholder into replacement text, or declines with `None`.
pub trait Annotater {
    fn accepts_keys(&self) -> Vec<String>;

    fn annotate(&mut self, placeholder: &Placeholder) -> Result<Option<String>, String>;
}

/// Maps placeholder kinds to resolvers. One resolver may stand under several
/// kinds; a later registration of a kind overrides an earlier one.
pub struct Registry<A> {
    keys: Vec<String>,
    slots: Vec<usize>,
    annotators: Vec<A>,
    /// Every call made to a resolver: its index, the placeholder's kind and
    /// value, and the answer.
    calls: Ghost<Seq<(nat, Seq<char>, Seq<char>, Resolution)>>,
    /// The kinds of the placeholders met that no resolver is registered for.
    unknown: Vec<String>,
}

/// The kind map built from the first `n` registrations.
pub open spec fn kind_map(keys: Seq<String>, slots: Seq<usize>, n: int) -> Map<Seq<char>, nat>
    decreases n,
{
    if n <= 0 {
        Map::empty()
    } else {
        kind_map(keys, slots, n - 1).insert(keys[n - 1]@, slots[n - 1] as nat)
    }
}

/// What became of one token when a string was annotated.
pub enum Resolution {
    /// A resolver gave replacement text.
    Replaced(Seq<char>),
    /// A resolver for the kind declined.
    Declined,
    /// The resolver for the kind failed; the placeholder stays as it was.
    Failed,
    /// No resolver is registered for the kind (or the token is literal text).
    Unknown,
}

/// The outcome of resolving one placeholder.
pub enum Resolved {
    Replaced(String),
    Declined,
    Failed,
    Unknown,
}

impl View for Resolved {
    type V = Resolution;

    open spec fn view(&self) -> Resolution {
        match self {
            Resolved::Replaced(s) => Resolution::Replaced(s@),
            Resolved::Declined => Resolution::Declined,
            Resolved::Failed => Resolution::Failed,
            Resolved::Unknown => Resolution::Unknown,
        }
    }
}

/// The text that one token contributes to the rewritten string.
pub open spec fn piece(t: Token, r: Resolution) -> Seq<char> {
    match t {
        Token::Text(x) => x,
        Token::Hole(k, v) => match r {
            Resolution::Replaced(x) => x,
            Resolution::Declined => v,
            _ => seq!['$'] + k + seq![':'] + v,
        },
    }
}

/// The rewritten string: each token's piece, in order.
pub open spec fn spliced(ts: Seq<Token>, rs: Seq<Resolution>) -> Seq<char>
    decreases ts.len(),
{
    if ts.len() == 0 {
        Seq::empty()
    } else {
        spliced(ts.drop_last(), rs) + piece(ts.last(), rs[ts.len() - 1])
    }
}

/// Token `i` is a placeholder that a resolver answered: with text, or by
/// declining.
pub open spec fn resolved_at(ts: Seq<Token>, rs: Seq<Resolution>, i: int) -> bool {
    ts[i] is Hole && (rs[i] is Replaced || rs[i] is Declined)
}

/// Some placeholder among the first `n` tokens was answered by a resolver.
pub open spec fn any_resolved(ts: Seq<Token>, rs: Seq<Resolution>, n: int) -> bool {
    exists|i: int| 0 <= i < n && #[trigger] resolved_at(ts, rs, i)
}

/// The number of placeholders among the tokens whose kind is registered.
pub open spec fn known_count(kinds: Map<Seq<char>, nat>, ts: Seq<Token>) -> nat
    decreases ts.len(),
{
    if ts.len() == 0 {
        0
    } else {
        known_count(kinds, ts.drop_last()) + if known_hole(kinds, ts.last()) {
            1nat
        } else {
            0nat
        }
    }
}

/// The resolver calls that annotating the tokens makes, in order, where the
/// resolvers give `answers`: one per placeholder whose kind is registered,
/// with the resolver's index, the placeholder's kind and value, and the answer.
pub open spec fn logged_calls(
    kinds: Map<Seq<char>, nat>,
    ts: Seq<Token>,
    answers: Seq<Resolution>,
) -> Seq<(nat, Seq<char>, Seq<char>, Resolution)>
    decreases ts.len(),
{
    if ts.len() == 0 {
        Seq::empty()
    } else {
        let prev = logged_calls(kinds, ts.drop_last(), answers);
        match ts.last() {
            Token::Hole(k, v) => if kinds.contains_key(k) {
                prev.push((kinds[k], k, v, answers[known_count(kinds, ts.drop_last()) as int]))
            } else {
                prev
            },
            Token::Text(_) => prev,
        }
    }
}

/// What became of each token where the resolvers give `answers`, one per
/// placeholder whose kind is registered: that answer; every other token is
/// `Unknown`.
pub open spec fn resolutions_from(
    kinds: Map<Seq<char>, nat>,
    ts: Seq<Token>,
    answers: Seq<Resolution>,
) -> Seq<Resolution>
    decreases ts.len(),
{
    if ts.len() == 0 {
        Seq::empty()
    } else {
        resolutions_from(kinds, ts.drop_last(), answers).push(
            if known_hole(kinds, ts.last()) {
                answers[known_count(kinds, ts.drop_last()) as int]
            } else {
                Resolution::Unknown
            },
        )
    }
}

/// The kinds of the placeholders among the tokens that no resolver is
/// registered for, in order.
pub open spec fn unknown_in(kinds: Map<Seq<char>, nat>, ts: Seq<Token>) -> Seq<Seq<char>>
    decreases ts.len(),
{
    if ts.len() == 0 {
        Seq::empty()
    } else {
        let prev = unknown_in(kinds, ts.drop_last());
        match ts.last() {
            Token::Hole(k, _) => if kinds.contains_key(k) {
                prev
            } else {
                prev.push(k)
            },
            Token::Text(_) => prev,
        }
    }
}

/// A resolver's answer as a resolution: text, a decline, or a failure.
pub open spec fn answer_of(r: Result<Option<String>, String>) -> Resolution {
    match r {
        Ok(Some(x)) => Resolution::Replaced(x@),
        Ok(None) => Resolution::Declined,
        Err(_) => Resolution::Failed,
    }
}

/// The resolutions agree with the kind map: a placeholder is `Unknown` exactly
/// when no resolver is registered for its kind, and literal text is `Unknown`.
pub open spec fn consistent(kinds: Map<Seq<char>, nat>, ts: Seq<Token>, rs: Seq<Resolution>) -> bool {
    &&& rs.len() == ts.len()
    &&& forall|i: int|
        0 <= i < ts.len() ==> match #[trigger] ts[i] {
            Token::Text(_) => rs[i] is Unknown,
            Token::Hole(k, _) => (rs[i] is Unknown) == !kinds.contains_key(k),
        }
}

/// The string after annotation: rewritten if some resolver answered, else
/// unchanged.
pub open spec fn annotated(s: Seq<char>, rs: Seq<Resolution>) -> Seq<char> {
    let ts = lex(s);
    if any_resolved(ts, rs, ts.len() as int) {
        spliced(ts, rs)
    } else {
        s
    }
}

impl<A: Annotater> Registry<A> {
    pub closed spec fn wf(&self) -> bool {
        &&& self.keys@.len() == self.slots@.len()
        &&& forall|i: int| 0 <= i < self.slots@.len() ==> #[trigger] self.slots@[i] < self.annotators@.len()
    }

    /// The kind map: each registered kind to the index of its resolver.
    pub closed spec fn kinds(&self) -> Map<Seq<char>, nat> {
        kind_map(self.keys@, self.slots@, self.keys@.len() as int)
    }

    /// The number of resolvers held.
    pub closed spec fn len(&self) -> nat {
        self.annotators@.len()
    }

    /// The unregistered kinds met so far and not yet taken.
    pub closed spec fn unknown_kinds(&self) -> Seq<Seq<char>> {
        self.unknown@.map_values(|k: String| k@)
    }

    /// The calls made to resolvers so far.
    pub closed spec fn calls(&self) -> Seq<(nat, Seq<char>, Seq<char>, Resolution)> {
        self.calls@
    }

    proof fn lemma_kinds_bounded(&self)
        requires
            self.wf(),
        ensures
            forall|k: Seq<char>| #[trigger] self.kinds().contains_key(k) ==> self.kinds()[k] < self.len(),
    {
        assert forall|k: Seq<char>| #[trigger] self.kinds().contains_key(k) implies self.kinds()[k]
            < self.len() by {
            lemma_kind_map_bounded(self.keys@, self.slots@, self.keys@.len() as int, self.len(), k);
        }
    }

    /// An empty registry.
    pub fn new() -> (r: Self)
        ensures
            r.wf(),
            r.kinds() == Map::<Seq<char>, nat>::empty(),
            r.len() == 0,
            r.calls() == Seq::<(nat, Seq<char>, Seq<char>, Resolution)>::empty(),
            r.unknown_kinds() == Seq::<Seq<char>>::empty(),
    {
        Registry {
            keys: Vec::new(),
            slots: Vec::new(),
            annotators: Vec::new(),
            calls: Ghost(Seq::empty()),
            unknown: Vec::new(),
        }
    }

    /// Adds a resolver under the given kinds.
    pub fn register_with_keys(&mut self, annotator: A, keys: &Vec<String>) -> (idx: usize)
        requires
            old(self).wf(),
            old(self).len() < usize::MAX,
        ensures
            final(self).wf(),
            idx == old(self).len(),
            final(self).len() == old(self).len() + 1,
            final(self).calls() == old(self).calls(),
            final(self).unknown_kinds() == old(self).unknown_kinds(),
            forall|k: Seq<char>|
                #[trigger] final(self).kinds().contains_key(k) == (old(self).kinds().contains_key(k)
                    || exists|j: int| 0 <= j < keys@.len() && keys@[j]@ == k),
            forall|k: Seq<char>|
                (exists|j: int| 0 <= j < keys@.len() && keys@[j]@ == k)
                    ==> #[trigger] final(self).kinds()[k] == idx,
            forall|k: Seq<char>|
                !(exists|j: int| 0 <= j < keys@.len() && keys@[j]@ == k)
                    ==> #[trigger] final(self).kinds()[k] == old(self).kinds()[k],
    {
        let idx = self.annotators.len();
        self.annotators.push(annotator);
        let ghost k0 = old(self).kinds();
        let mut j: usize = 0;
        while j < keys.len()
            invariant
                self.wf(),
                idx == old(self).len(),
                self.len() == idx + 1,
                self.calls() == old(self).calls(),
                self.unknown_kinds() == old(self).unknown_kinds(),
                j <= keys@.len(),
                forall|k: Seq<char>|
                    #[trigger] self.kinds().contains_key(k) == (k0.contains_key(k) || exists|i: int|
                        0 <= i < j && keys@[i]@ == k),
                forall|k: Seq<char>|
                    (exists|i: int| 0 <= i < j && keys@[i]@ == k) ==> #[trigger] self.kinds()[k]
                        == idx,
                forall|k: Seq<char>|
                    !(exists|i: int| 0 <= i < j && keys@[i]@ == k) ==> #[trigger] self.kinds()[k]
                        == k0[k],
            decreases keys@.len() - j,
        {
            let ghost before = self.kinds();
            let ghost before_keys = self.keys@;
            let ghost before_slots = self.slots@;
            self.keys.push(keys[j].clone());
            self.slots.push(idx);
            proof {
                let n = self.keys@.len() - 1;
                lemma_kind_map_prefix(self.keys@, self.slots@, before_keys, before_slots, n);
            }
            assert(self.kinds() == before.insert(keys@[j as int]@, idx as nat));
            j = j + 1;
        }
        idx
    }
    /// Adds a resolver under the kinds it declares.
    pub fn register(&mut self, annotator: A) -> (idx: usize)
        requires
            old(self).wf(),
            old(self).len() < usize::MAX,
        ensures
            final(self).wf(),
            idx == old(self).len(),
            final(self).len() == old(self).len() + 1,
            final(self).calls() == old(self).calls(),
            final(self).unknown_kinds() == old(self).unknown_kinds(),
            forall|k: Seq<char>|
                #[trigger] final(self).kinds().contains_key(k) ==> (old(self).kinds().contains_key(k)
                    && final(self).kinds()[k] == old(self).kinds()[k]) || final(self).kinds()[k] == idx,
            forall|k: Seq<char>|
                #[trigger] old(self).kinds().contains_key(k) ==> final(self).kinds().contains_key(k),
    {
        let keys = annotator.accepts_keys();
        self.register_with_keys(annotator, &keys)
    }

    /// The index of the resolver registered for `kind`.
    pub fn lookup(&self, kind: &String) -> (r: Option<usize>)
        requires
            self.wf(),
        ensures
            match r {
                Some(i) => self.kinds().contains_key(kind@) && self.kinds()[kind@] == i as nat
                    && (i as nat) < self.len(),
                None => !self.kinds().contains_key(kind@),
            },
    {
        proof {
            self.lemma_kinds_bounded();
        }
        let n = self.keys.len();
        let mut j: usize = n;
        while j > 0
            invariant
                self.wf(),
                n == self.keys@.len(),
                j <= n,
                self.kinds().contains_key(kind@) == kind_map(self.keys@, self.slots@, j as int).contains_key(kind@),
                self.kinds().contains_key(kind@) ==> self.kinds()[kind@] == kind_map(self.keys@, self.slots@, j as int)[kind@],
            decreases j,
        {
            if self.keys[j - 1] == *kind {
                return Some(self.slots[j - 1]);
            }
            j = j - 1;
        }
        None
    }

    /// Runs resolver `idx` on a placeholder, and records the call. The kind
    /// map stays as it is.
    pub fn resolve(&mut self, idx: usize, placeholder: &Placeholder) -> (r: Result<Option<String>, String>)
        requires
            old(self).wf(),
            idx < old(self).len(),
        ensures
            final(self).wf(),
            final(self).kinds() == old(self).kinds(),
            final(self).len() == old(self).len(),
            final(self).calls() == old(self).calls().push(
                (idx as nat, placeholder.kind@, placeholder.value@, answer_of(r)),
            ),
            final(self).unknown_kinds() == old(self).unknown_kinds(),
    {
        let mut a = self.annotators.remove(idx);
        let r = a.annotate(placeholder);
        self.annotators.insert(idx, a);
        self.calls = Ghost(
            self.calls@.push((idx as nat, placeholder.kind@, placeholder.value@, answer_of(r))),
        );
        r
    }

    /// Hands out the unregistered kinds met so far, in order, and forgets them.
    pub fn take_unknown_kinds(&mut self) -> (r: Vec<String>)
        requires
            old(self).wf(),
        ensures
            r@.map_values(|k: String| k@) == old(self).unknown_kinds(),
            final(self).unknown_kinds() == Seq::<Seq<char>>::empty(),
            final(self).wf(),
            final(self).kinds() == old(self).kinds(),
            final(self).len() == old(self).len(),
            final(self).calls() == old(self).calls(),
    {
        let mut r: Vec<String> = Vec::new();
        std::mem::swap(&mut r, &mut self.unknown);
        assert(self.unknown@.map_values(|k: String| k@) =~= Seq::<Seq<char>>::empty());
        r
    }

    /// Notes a kind that no resolver is registered for.
    fn note_unknown(&mut self, kind: &String)
        ensures
            final(self).unknown_kinds() == old(self).unknown_kinds().push(kind@),
            final(self).wf() == old(self).wf(),
            final(self).kinds() == old(self).kinds(),
            final(self).len() == old(self).len(),
            final(self).calls() == old(self).calls(),
    {
        self.unknown.push(kind.clone());
        assert(self.unknown@.map_values(|k: String| k@) =~= old(self).unknown@.map_values(
            |k: String| k@,
        ).push(kind@));
    }
}

proof fn lemma_kind_map_prefix(
    k1: Seq<String>,
    s1: Seq<usize>,
    k2: Seq<String>,
    s2: Seq<usize>,
    n: int,
)
    requires
        0 <= n <= k1.len(),
        n <= k2.len(),
        n <= s1.len(),
        n <= s2.len(),
        forall|i: int| 0 <= i < n ==> k1[i] == k2[i] && s1[i] == s2[i],
    ensures
        kind_map(k1, s1, n) == kind_map(k2, s2, n),
    decreases n,
{
    if n > 0 {
        lemma_kind_map_prefix(k1, s1, k2, s2, n - 1);
    }
}

proof fn lemma_kind_map_bounded(keys: Seq<String>, slots: Seq<usize>, n: int, bound: nat, k: Seq<char>)
    requires
        0 <= n <= keys.len(),
        n <= slots.len(),
        forall|i: int| 0 <= i < slots.len() ==> #[trigger] slots[i] < bound,
    ensures
        kind_map(keys, slots, n).contains_key(k) ==> kind_map(keys, slots, n)[k] < bound,
    decreases n,
{
    if n > 0 {
        lemma_kind_map_bounded(keys, slots, n - 1, bound, k);
    }
}

/// The tokens of a lexed string, as values.
pub open spec fn tokens_of(parts: Seq<ParsedElement>) -> Seq<Token> {
    parts.map_values(|p: ParsedElement| p@)
}

/// The resolutions, as values.
pub open spec fn resolutions_of(outs: Seq<Resolved>) -> Seq<Resolution> {
    outs.map_values(|o: Resolved| o@)
}

proof fn lemma_spliced_prefix(ts: Seq<Token>, rs1: Seq<Resolution>, rs2: Seq<Resolution>)
    requires
        ts.len() <= rs1.len(),
        ts.len() <= rs2.len(),
        forall|i: int| 0 <= i < ts.len() ==> rs1[i] == rs2[i],
    ensures
        spliced(ts, rs1) == spliced(ts, rs2),
    decreases ts.len(),
{
    if ts.len() > 0 {
        lemma_spliced_prefix(ts.drop_last(), rs1, rs2);
    }
}

/// Joins the pieces of the tokens under their resolutions.
pub fn splice(parts: &Vec<ParsedElement>, outcomes: &Vec<Resolved>) -> (r: String)
    requires
        parts@.len() == outcomes@.len(),
    ensures
        r@ == spliced(tokens_of(parts@), resolutions_of(outcomes@)),
{
    let ghost ts = tokens_of(parts@);
    let ghost rs = resolutions_of(outcomes@);
    let mut r = String::new();
    let mut i: usize = 0;
    while i < parts.len()
        invariant
            i <= parts@.len(),
            parts@.len() == outcomes@.len(),
            ts == tokens_of(parts@),
            rs == resolutions_of(outcomes@),
            r@ == spliced(ts.subrange(0, i as int), rs),
        decreases parts@.len() - i,
    {
        let ghost before = r@;
        assert(ts[i as int] == parts@[i as int]@);
        assert(rs[i as int] == outcomes@[i as int]@);
        match &parts[i] {
            ParsedElement::Text(t) => {
                r.append(t.as_str());
            },
            ParsedElement::Placeholder(p) => {
                match &outcomes[i] {
                    Resolved::Replaced(x) => {
                        r.append(x.as_str());
                    },
                    Resolved::Declined => {
                        r.append(p.value.as_str());
                    },
                    Resolved::Unknown | Resolved::Failed => {
                        proof {
                            reveal_strlit("$");
                            reveal_strlit(":");
                        }
                        r.append("$");
                        r.append(p.kind.as_str());
                        r.append(":");
                        r.append(p.value.as_str());
                    },
                }
            },
        }
        assert(ts.subrange(0, i + 1).drop_last() =~= ts.subrange(0, i as int));
        assert(r@ =~= before + piece(ts[i as int], rs[i as int]));
        i = i + 1;
    }
    assert(ts.subrange(0, parts@.len() as int) =~= ts);
    r
}

/// Rewrites the placeholders of `s` through the registry. Each placeholder
/// whose kind has a resolver is handed to that resolver, in order, and
/// becomes the resolver's text, or its bare value where the resolver
/// declines; it stays as it was where the resolver fails or no resolver is
/// registered for its kind. `s` changes only if some resolver answered, and
/// the result says whether one did.
pub fn annotate_string<A: Annotater>(s: &mut String, annotators: &mut Registry<A>) -> (r: bool)
    requires
        old(annotators).wf(),
    ensures
        final(annotators).wf(),
        final(annotators).kinds() == old(annotators).kinds(),
        final(annotators).len() == old(annotators).len(),
        final(annotators).unknown_kinds() == old(annotators).unknown_kinds() + unknown_in(
            old(annotators).kinds(),
            lex(old(s)@),
        ),
        exists|answers: Seq<Resolution>|
            {
                &&& final(annotators).calls() == old(annotators).calls() + #[trigger] logged_calls(
                    old(annotators).kinds(),
                    lex(old(s)@),
                    answers,
                )
                &&& consistent(
                    old(annotators).kinds(),
                    lex(old(s)@),
                    resolutions_from(old(annotators).kinds(), lex(old(s)@), answers),
                )
                &&& r == any_resolved(
                    lex(old(s)@),
                    resolutions_from(old(annotators).kinds(), lex(old(s)@), answers),
                    lex(old(s)@).len() as int,
                )
                &&& final(s)@ == annotated(
                    old(s)@,
                    resolutions_from(old(annotators).kinds(), lex(old(s)@), answers),
                )
            },
        exists|rs: Seq<Resolution>|
            {
                &&& consistent(old(annotators).kinds(), lex(old(s)@), rs)
                &&& r == any_resolved(lex(old(s)@), rs, lex(old(s)@).len() as int)
                &&& final(s)@ == #[trigger] annotated(old(s)@, rs)
            },
{
    let parts = parse_string(s.as_str());
    let ghost ts = tokens_of(parts@);
    let ghost kinds = annotators.kinds();
    let mut outcomes: Vec<Resolved> = Vec::new();
    let mut modified = false;
    let ghost mut answers: Seq<Resolution> = Seq::empty();
    let mut i: usize = 0;
    assert(ts.subrange(0, 0) =~= Seq::<Token>::empty());
    assert(resolutions_of(outcomes@) =~= Seq::<Resolution>::empty());
    assert(old(annotators).unknown_kinds() + Seq::<Seq<char>>::empty() =~= old(annotators).unknown_kinds());
    assert(old(annotators).calls() + Seq::<(nat, Seq<char>, Seq<char>, Resolution)>::empty() =~= old(annotators).calls());
    while i < parts.len()
        invariant
            annotators.wf(),
            annotators.kinds() == kinds,
            annotators.len() == old(annotators).len(),
            answers.len() == known_count(kinds, ts.subrange(0, i as int)),
            annotators.calls() == old(annotators).calls() + logged_calls(
                kinds,
                ts.subrange(0, i as int),
                answers,
            ),
            annotators.unknown_kinds() == old(annotators).unknown_kinds() + unknown_in(
                kinds,
                ts.subrange(0, i as int),
            ),
            resolutions_of(outcomes@) == resolutions_from(kinds, ts.subrange(0, i as int), answers),
            kinds == old(annotators).kinds(),
            ts == tokens_of(parts@),
            ts == lex(old(s)@),
            *s == *old(s),
            i <= parts@.len(),
            outcomes@.len() == i,
            consistent(kinds, ts.subrange(0, i as int), resolutions_of(outcomes@)),
            modified == any_resolved(ts, resolutions_of(outcomes@), i as int),
        decreases parts@.len() - i,
    {
        let ghost rs0 = resolutions_of(outcomes@);
        let ghost calls0 = annotators.calls();
        let ghost unknown0 = annotators.unknown_kinds();
        let ghost answers0 = answers;
        assert(ts.subrange(0, i + 1).drop_last() =~= ts.subrange(0, i as int));
        assert(ts.subrange(0, i + 1).last() == ts[i as int]);
        assert(ts[i as int] == parts@[i as int]@);
        match &parts[i] {
            ParsedElement::Text(_) => {
                outcomes.push(Resolved::Unknown);
            },
            ParsedElement::Placeholder(p) => {
                match annotators.lookup(&p.kind) {
                    None => {
                        annotators.note_unknown(&p.kind);
                        outcomes.push(Resolved::Unknown);
                    },
                    Some(idx) => {
                        let r = annotators.resolve(idx, p);
                        proof {
                            answers = answers.push(answer_of(r));
                        }
                        match r {
                            Err(_) => {
                                outcomes.push(Resolved::Failed);
                            },
                            Ok(Some(x)) => {
                                outcomes.push(Resolved::Replaced(x));
                                modified = true;
                            },
                            Ok(None) => {
                                outcomes.push(Resolved::Declined);
                                modified = true;
                            },
                        }
                    },
                }
            },
        }
        proof {
            lemma_answers_extend(kinds, ts.subrange(0, i as int), answers0, answers);
        }
        assert(annotators.calls() =~= old(annotators).calls() + logged_calls(
            kinds,
            ts.subrange(0, i + 1),
            answers,
        ));
        assert(annotators.unknown_kinds() =~= old(annotators).unknown_kinds() + unknown_in(
            kinds,
            ts.subrange(0, i + 1),
        ));
        let ghost rs1 = resolutions_of(outcomes@);
        assert(rs1 =~= resolutions_from(kinds, ts.subrange(0, i + 1), answers));
        assert(rs1.subrange(0, i as int) =~= rs0);
        assert forall|j: int| 0 <= j < i implies rs1[j] == rs0[j] by {}
        assert(any_resolved(ts, rs1, i + 1) == (any_resolved(ts, rs0, i as int) || resolved_at(ts, rs1, i as int))) by {
            if any_resolved(ts, rs0, i as int) {
                let w = choose|j: int| 0 <= j < i && #[trigger] resolved_at(ts, rs0, j);
                assert(resolved_at(ts, rs1, w));
            }
            if any_resolved(ts, rs1, i + 1) && !resolved_at(ts, rs1, i as int) {
                let w = choose|j: int| 0 <= j < i + 1 && #[trigger] resolved_at(ts, rs1, j);
                assert(resolved_at(ts, rs0, w));
            }
        }
        assert(consistent(kinds, ts.subrange(0, i + 1), rs1)) by {
            assert forall|j: int| 0 <= j < i + 1 implies match #[trigger] ts.subrange(0, i + 1)[j] {
                Token::Text(_) => rs1[j] is Unknown,
                Token::Hole(k, _) => (rs1[j] is Unknown) == !kinds.contains_key(k),
            } by {
                if j < i {
                    assert(ts.subrange(0, i as int)[j] == ts.subrange(0, i + 1)[j]);
                }
            }
        }
        i = i + 1;
    }
    let ghost rs = resolutions_of(outcomes@);
    assert(ts.subrange(0, parts@.len() as int) =~= ts);
    if modified {
        *s = splice(&parts, &outcomes);
    }
    assert(annotated(old(s)@, rs) == s@);
    modified
}

/// Answers past those the tokens use change nothing.
proof fn lemma_answers_extend(
    kinds: Map<Seq<char>, nat>,
    ts: Seq<Token>,
    a1: Seq<Resolution>,
    a2: Seq<Resolution>,
)
    requires
        known_count(kinds, ts) <= a1.len(),
        known_count(kinds, ts) <= a2.len(),
        forall|j: int| 0 <= j < known_count(kinds, ts) ==> a1[j] == a2[j],
    ensures
        logged_calls(kinds, ts, a1) == logged_calls(kinds, ts, a2),
        resolutions_from(kinds, ts, a1) == resolutions_from(kinds, ts, a2),
    decreases ts.len(),
{
    if ts.len() > 0 {
        lemma_answers_extend(kinds, ts.drop_last(), a1, a2);
    }
}

/// The kind of a placeholder token has a resolver.
pub open spec fn known_hole(kinds: Map<Seq<char>, nat>, t: Token) -> bool {
    match t {
        Token::Hole(k, _) => kinds.contains_key(k),
        Token::Text(_) => false,
    }
}

/// Text in which no placeholder has a registered kind, and so also text with
/// no placeholder at all, is left exactly as it was and reported unchanged.
pub proof fn law_unresolved_text_unchanged(kinds: Map<Seq<char>, nat>, s: Seq<char>, rs: Seq<Resolution>)
    requires
        consistent(kinds, lex(s), rs),
        forall|i: int| 0 <= i < lex(s).len() ==> !known_hole(kinds, #[trigger] lex(s)[i]),
    ensures
        !any_resolved(lex(s), rs, lex(s).len() as int),
        annotated(s, rs) == s,
        forall|answers: Seq<Resolution>|
            #[trigger] logged_calls(kinds, lex(s), answers) == Seq::<
                (nat, Seq<char>, Seq<char>, Resolution),
            >::empty(),
{
    let ts = lex(s);
    if any_resolved(ts, rs, ts.len() as int) {
        let i = choose|i: int| 0 <= i < ts.len() && #[trigger] resolved_at(ts, rs, i);
        assert(!known_hole(kinds, ts[i]));
    }
    assert forall|answers: Seq<Resolution>|
        #[trigger] logged_calls(kinds, lex(s), answers) == Seq::<
            (nat, Seq<char>, Seq<char>, Resolution),
        >::empty() by {
        lemma_no_calls(kinds, ts, answers);
    }
}

proof fn lemma_no_calls(kinds: Map<Seq<char>, nat>, ts: Seq<Token>, answers: Seq<Resolution>)
    requires
        forall|i: int| 0 <= i < ts.len() ==> !known_hole(kinds, #[trigger] ts[i]),
    ensures
        logged_calls(kinds, ts, answers) == Seq::<(nat, Seq<char>, Seq<char>, Resolution)>::empty(),
    decreases ts.len(),
{
    if ts.len() > 0 {
        let t = ts.drop_last();
        assert forall|i: int| 0 <= i < t.len() implies !known_hole(kinds, #[trigger] t[i]) by {
            assert(t[i] == ts[i]);
        }
        lemma_no_calls(kinds, t, answers);
        assert(!known_hole(kinds, ts[ts.len() - 1]));
    }
}

/// A resolver answered only for a placeholder whose kind is registered.
pub proof fn lemma_resolved_is_known(kinds: Map<Seq<char>, nat>, ts: Seq<Token>, rs: Seq<Resolution>)
    requires
        consistent(kinds, ts, rs),
        any_resolved(ts, rs, ts.len() as int),
    ensures
        exists|i: int| 0 <= i < ts.len() && known_hole(kinds, #[trigger] ts[i]),
{
    let i = choose|i: int| 0 <= i < ts.len() && #[trigger] resolved_at(ts, rs, i);
    assert(known_hole(kinds, ts[i]));
}

} // verus!
