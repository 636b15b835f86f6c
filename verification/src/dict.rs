use vstd::prelude::*;
use crate::tokenizer::{Token, TokModel, toks_model, lemma_toks_model};
use crate::value::{Value, ValueType, ValModel, vals_model, lemma_vals_model};
use crate::errors::{EvalError, ErrModel, strs_set, lemma_strs_set};

verus! {

/// A stored word: its token body, whether it is hard-coded, and its
/// documentation text.
#[derive(Debug)]
pub struct WordDefinition {
    pub tokens: Vec<Token>,
    pub is_builtin: bool,
    pub description: Option<String>,
}

/// Mathematical model of one dictionary entry.
#[verifier::ext_equal]
pub struct EntryModel {
    pub body: Seq<TokModel>,
    pub builtin: bool,
    pub desc: Option<Seq<char>>,
    pub dependents: Set<Seq<char>>,
}

/// One dictionary slot: a name, its definition, and the names of the words
/// whose bodies reference it.
#[derive(Debug)]
pub struct DictEntry {
    pub name: String,
    pub def: WordDefinition,
    pub dependents: Vec<String>,
}

impl WordDefinition {
    /// Model of the stored definition (without the reverse edges).
    pub open spec fn desc_model(self) -> Option<Seq<char>> {
        match self.description {
            Some(d) => Some(d@),
            None => None,
        }
    }
}

impl DictEntry {
    /// The mathematical model of this slot.
    pub open spec fn model(self) -> EntryModel {
        EntryModel {
            body: toks_model(self.def.tokens@),
            builtin: self.def.is_builtin,
            desc: self.def.desc_model(),
            dependents: strs_set(self.dependents@),
        }
    }
}

/// Model of a whole entry list as a name-keyed map.
pub open spec fn dict_model_s(s: Seq<DictEntry>) -> Map<Seq<char>, EntryModel>
    decreases s,
{
    if s.len() == 0 {
        Map::empty()
    } else {
        dict_model_s(s.drop_last()).insert(s.last().name@, s.last().model())
    }
}

/// Pairwise-distinct entry names.
pub open spec fn names_distinct(s: Seq<DictEntry>) -> bool {
    forall|i: int, j: int| 0 <= i < j < s.len() ==> s[i].name@ != s[j].name@
}

/// With distinct names, the map agrees with the entry list pointwise.
pub proof fn lemma_dict_model(s: Seq<DictEntry>)
    requires
        names_distinct(s),
    ensures
        forall|k: Seq<char>| dict_model_s(s).dom().contains(k) <==> (exists|i: int|
            0 <= i < s.len() && s[i].name@ == k),
        forall|i: int| 0 <= i < s.len() ==> dict_model_s(s)[s[i].name@] == s[i].model(),
    decreases s,
{
    if s.len() > 0 {
        assert(forall|i: int, j: int|
            0 <= i < j < s.len() - 1 ==> s.drop_last()[i].name@ != s.drop_last()[j].name@);
        lemma_dict_model(s.drop_last());
        assert forall|k: Seq<char>| dict_model_s(s).dom().contains(k) implies (exists|i: int|
            0 <= i < s.len() && s[i].name@ == k) by {
            if k == s.last().name@ {
                assert(s[s.len() - 1].name@ == k);
            } else {
                let i = choose|i: int|
                    0 <= i < s.drop_last().len() && s.drop_last()[i].name@ == k;
                assert(s[i].name@ == k);
            }
        }
        assert forall|k: Seq<char>| (exists|i: int| 0 <= i < s.len() && s[i].name@ == k) implies
            dict_model_s(s).dom().contains(k) by {
            let i = choose|i: int| 0 <= i < s.len() && s[i].name@ == k;
            if i < s.len() - 1 {
                assert(s.drop_last()[i].name@ == k);
                assert(exists|j: int|
                    0 <= j < s.drop_last().len() && s.drop_last()[j].name@ == k);
            }
        }
        assert forall|i: int| 0 <= i < s.len() implies dict_model_s(s)[s[i].name@]
            == s[i].model() by {
            if i < s.len() - 1 {
                assert(s.drop_last()[i] == s[i]);
                assert(s[i].name@ != s.last().name@);
            }
        }
    }
}

/// Replacing an entry under the same name updates the map at that name.
pub proof fn lemma_dict_model_update(s: Seq<DictEntry>, i: int, e: DictEntry)
    requires
        names_distinct(s),
        0 <= i < s.len(),
        e.name@ == s[i].name@,
    ensures
        dict_model_s(s.update(i, e)) == dict_model_s(s).insert(e.name@, e.model()),
    decreases s,
{
    let t = s.update(i, e);
    if i == s.len() - 1 {
        assert(t.drop_last() =~= s.drop_last());
        assert(t.last() == e);
        assert(dict_model_s(s).insert(e.name@, e.model()) =~= dict_model_s(s.drop_last()).insert(
            s.last().name@,
            s.last().model(),
        ).insert(e.name@, e.model()));
    } else {
        assert(forall|a: int, b: int|
            0 <= a < b < s.len() - 1 ==> s.drop_last()[a].name@ != s.drop_last()[b].name@);
        lemma_dict_model_update(s.drop_last(), i, e);
        assert(t.drop_last() =~= s.drop_last().update(i, e));
        assert(t.last() == s.last());
        assert(s[i].name@ != s.last().name@);
        assert(dict_model_s(t) == dict_model_s(s.drop_last()).insert(e.name@, e.model()).insert(
            s.last().name@,
            s.last().model(),
        ));
        assert(dict_model_s(s.drop_last()).insert(e.name@, e.model()).insert(
            s.last().name@,
            s.last().model(),
        ) =~= dict_model_s(s.drop_last()).insert(s.last().name@, s.last().model()).insert(
            e.name@,
            e.model(),
        ));
    }
}

/// Removing the entry at `i` removes its name from the map.
pub proof fn lemma_dict_model_remove(s: Seq<DictEntry>, i: int)
    requires
        names_distinct(s),
        0 <= i < s.len(),
    ensures
        dict_model_s(s.remove(i)) == dict_model_s(s).remove(s[i].name@),
    decreases s,
{
    lemma_dict_model(s);
    let t = s.remove(i);
    if i == s.len() - 1 {
        assert(t =~= s.drop_last());
        assert forall|k: Seq<char>| #[trigger] dict_model_s(s).remove(s[i].name@).dom().contains(
            k,
        ) implies dict_model_s(t).dom().contains(k) by {
            let j = choose|j: int| 0 <= j < s.len() && s[j].name@ == k;
            assert(forall|a: int, b: int|
                0 <= a < b < t.len() ==> t[a].name@ != t[b].name@);
            lemma_dict_model(t);
            assert(j < s.len() - 1);
            assert(t[j].name@ == k);
        }
        assert(forall|a: int, b: int| 0 <= a < b < t.len() ==> t[a].name@ != t[b].name@);
        lemma_dict_model(t);
        assert(dict_model_s(t) =~= dict_model_s(s).remove(s[i].name@)) by {
            assert forall|k: Seq<char>| dict_model_s(t).dom().contains(k) implies dict_model_s(
                s,
            ).remove(s[i].name@).dom().contains(k) && dict_model_s(t)[k] == dict_model_s(s).remove(
                s[i].name@,
            )[k] by {
                let j = choose|j: int| 0 <= j < t.len() && t[j].name@ == k;
                assert(s[j] == t[j]);
                assert(k != s[i].name@);
            }
            assert forall|k: Seq<char>| dict_model_s(s).remove(s[i].name@).dom().contains(
                k,
            ) implies dict_model_s(t).dom().contains(k) by {
                let j = choose|j: int| 0 <= j < s.len() && s[j].name@ == k;
                assert(j != i);
                assert(t[j].name@ == k);
            }
        }
    } else {
        assert(forall|a: int, b: int|
            0 <= a < b < s.len() - 1 ==> s.drop_last()[a].name@ != s.drop_last()[b].name@);
        lemma_dict_model_remove(s.drop_last(), i);
        assert(t.drop_last() =~= s.drop_last().remove(i));
        assert(t.last() == s.last());
        assert(dict_model_s(t) == dict_model_s(s.drop_last()).remove(s[i].name@).insert(
            s.last().name@,
            s.last().model(),
        ));
        assert(s[i].name@ != s.last().name@);
        assert(dict_model_s(s.drop_last()).remove(s[i].name@).insert(
            s.last().name@,
            s.last().model(),
        ) =~= dict_model_s(s.drop_last()).insert(s.last().name@, s.last().model()).remove(
            s[i].name@,
        ));
    }
}

/// An entry list pointwise related to a map denotes exactly that map.
pub proof fn lemma_model_ext(ents: Seq<DictEntry>, target: Map<Seq<char>, EntryModel>)
    requires
        names_distinct(ents),
        forall|q: int| 0 <= q < ents.len() ==> target.dom().contains(#[trigger] ents[q].name@)
            && target[ents[q].name@] == ents[q].model(),
        forall|k: Seq<char>| target.dom().contains(k) ==> exists|q: int|
            0 <= q < ents.len() && #[trigger] ents[q].name@ == k,
    ensures
        dict_model_s(ents) == target,
{
    lemma_dict_model(ents);
    assert(dict_model_s(ents) =~= target) by {
        assert forall|k: Seq<char>| dict_model_s(ents).dom().contains(k) implies
            target.dom().contains(k) && dict_model_s(ents)[k] == target[k] by {
            let q = choose|q: int| 0 <= q < ents.len() && ents[q].name@ == k;
            assert(target[ents[q].name@] == ents[q].model());
            assert(dict_model_s(ents)[ents[q].name@] == ents[q].model());
        }
        assert forall|k: Seq<char>| target.dom().contains(k) implies dict_model_s(
            ents,
        ).dom().contains(k) by {
            let q = choose|q: int| 0 <= q < ents.len() && ents[q].name@ == k;
            assert(ents[q].name@ == k);
        }
    }
}

/// The dictionary: name-keyed word definitions together with the reverse
/// dependency edges that veto unsafe deletion and redefinition.
#[derive(Debug)]
pub struct Dictionary {
    entries: Vec<DictEntry>,
}

impl Dictionary {
    /// The name-keyed map this dictionary denotes.
    pub closed spec fn model(self) -> Map<Seq<char>, EntryModel> {
        dict_model_s(self.entries@)
    }

    /// Entry names are pairwise distinct.
    pub closed spec fn wf(self) -> bool {
        names_distinct(self.entries@)
    }

    /// An empty dictionary.
    pub fn new() -> (r: Dictionary)
        ensures
            r.wf(),
            r.model() == Map::<Seq<char>, EntryModel>::empty(),
    {
        Dictionary { entries: Vec::new() }
    }

    /// Index of the entry named `name`, when present.
    #[verifier::loop_isolation(false)]
    fn index_of(&self, name: &str) -> (r: Option<usize>)
        requires
            self.wf(),
        ensures
            match r {
                Some(i) => i < self.entries@.len() && self.entries@[i as int].name@ == name@
                    && self.model().dom().contains(name@) && self.model()[name@]
                    == self.entries@[i as int].model(),
                None => !self.model().dom().contains(name@),
            },
    {
        proof {
            lemma_dict_model(self.entries@);
        }
        let mut i: usize = 0;
        while i < self.entries.len()
            invariant
                i <= self.entries@.len(),
                forall|j: int| 0 <= j < i ==> self.entries@[j].name@ != name@,
            decreases self.entries@.len() - i,
        {
            if crate::text::str_eq_str(name, self.entries[i].name.as_str()) {
                return Some(i);
            }
            i += 1;
        }
        None
    }

    /// Whether `name` is defined (builtin or custom).
    pub fn contains(&self, name: &str) -> (r: bool)
        requires
            self.wf(),
        ensures
            r == self.model().dom().contains(name@),
    {
        self.index_of(name).is_some()
    }

    /// Look a word up.
    pub fn lookup(&self, name: &str) -> (r: Option<&WordDefinition>)
        requires
            self.wf(),
        ensures
            match r {
                Some(d) => self.model().dom().contains(name@) && self.model()[name@].body
                    == toks_model(d.tokens@) && self.model()[name@].builtin == d.is_builtin
                    && self.model()[name@].desc == d.desc_model(),
                None => !self.model().dom().contains(name@),
            },
    {
        match self.index_of(name) {
            Some(i) => Some(&self.entries[i].def),
            None => None,
        }
    }

    /// The names of the words whose bodies reference `name`.
    pub fn dependents_of(&self, name: &str) -> (r: Vec<String>)
        requires
            self.wf(),
        ensures
            strs_set(r@) == if self.model().dom().contains(name@) {
                self.model()[name@].dependents
            } else {
                Set::<Seq<char>>::empty()
            },
    {
        match self.index_of(name) {
            Some(i) => clone_strings(&self.entries[i].dependents),
            None => {
                let r: Vec<String> = Vec::new();
                proof {
                    assert(strs_set(r@) =~= Set::<Seq<char>>::empty());
                }
                r
            },
        }
    }

    /// Install a builtin word: a hard-coded entry with an empty body. A name
    /// that is already present is left as it is.
    pub fn insert_builtin(&mut self, name: &str, description: &str)
        requires
            old(self).wf(),
        ensures
            final(self).wf(),
            final(self).model() == if old(self).model().dom().contains(name@) {
                old(self).model()
            } else {
                old(self).model().insert(
                    name@,
                    EntryModel {
                        body: Seq::empty(),
                        builtin: true,
                        desc: Some(description@),
                        dependents: Set::empty(),
                    },
                )
            },
    {
        proof {
            lemma_dict_model(self.entries@);
        }
        if self.index_of(name).is_some() {
            return;
        }
        let entry = DictEntry {
            name: name.to_owned(),
            def: WordDefinition {
                tokens: Vec::new(),
                is_builtin: true,
                description: Some(description.to_owned()),
            },
            dependents: Vec::new(),
        };
        proof {
            assert(entry.model() =~= EntryModel {
                body: Seq::empty(),
                builtin: true,
                desc: Some(description@),
                dependents: Set::empty(),
            }) by {
                assert(strs_set(entry.dependents@) =~= Set::<Seq<char>>::empty());
            }
        }
        self.entries.push(entry);
        proof {
            assert(self.entries@.drop_last() =~= old(self).entries@);
            assert(forall|i: int|
                0 <= i < old(self).entries@.len() ==> old(self).entries@[i].name@ != name@);
        }
    }


    /// Convert a definition body into tokens, collecting references to
    /// currently-defined custom words.
    #[verifier::loop_isolation(false)]
    fn value_to_tokens(&self, v: &Value, toks: &mut Vec<Token>, refs: &mut Vec<String>)
        requires
            self.wf(),
        ensures
            toks_model(final(toks)@) == toks_model(old(toks)@) + vm_to_toks(v.model()),
            strs_set(final(refs)@) == strs_set(old(refs)@).union(
                vm_refs(v.model(), self.model()),
            ),
        decreases v,
    {
        match &v.val_type {
            ValueType::Number(f) => {
                let t = Token::Number(f.numerator(), f.denominator());
                toks.push(t);
                proof {
                    assert(toks@.drop_last() =~= old(toks)@);
                    lemma_toks_model_snoc(toks@);
                    assert(seq![toks@.last().model()] =~= vm_to_toks(v.model()));
                    assert(toks_model(toks@) =~= toks_model(old(toks)@) + vm_to_toks(v.model()));
                    assert(strs_set(refs@) =~= strs_set(refs@).union(
                        vm_refs(v.model(), self.model()),
                    ));
                }
            },
            ValueType::String(st) => {
                let t = Token::String(st.clone());
                toks.push(t);
                proof {
                    assert(toks@.drop_last() =~= old(toks)@);
                    lemma_toks_model_snoc(toks@);
                    assert(seq![toks@.last().model()] =~= vm_to_toks(v.model()));
                    assert(toks_model(toks@) =~= toks_model(old(toks)@) + vm_to_toks(v.model()));
                    assert(strs_set(refs@) =~= strs_set(refs@).union(
                        vm_refs(v.model(), self.model()),
                    ));
                }
            },
            ValueType::Boolean(b) => {
                let t = Token::Boolean(*b);
                toks.push(t);
                proof {
                    assert(toks@.drop_last() =~= old(toks)@);
                    lemma_toks_model_snoc(toks@);
                    assert(seq![toks@.last().model()] =~= vm_to_toks(v.model()));
                    assert(toks_model(toks@) =~= toks_model(old(toks)@) + vm_to_toks(v.model()));
                    assert(strs_set(refs@) =~= strs_set(refs@).union(
                        vm_refs(v.model(), self.model()),
                    ));
                }
            },
            ValueType::Nil => {
                let t = Token::Nil;
                toks.push(t);
                proof {
                    assert(toks@.drop_last() =~= old(toks)@);
                    lemma_toks_model_snoc(toks@);
                    assert(seq![toks@.last().model()] =~= vm_to_toks(v.model()));
                    assert(toks_model(toks@) =~= toks_model(old(toks)@) + vm_to_toks(v.model()));
                    assert(strs_set(refs@) =~= strs_set(refs@).union(
                        vm_refs(v.model(), self.model()),
                    ));
                }
            },
            ValueType::Symbol(st) => {
                let t = Token::Symbol(st.clone());
                toks.push(t);
                proof {
                    assert(toks@.drop_last() =~= old(toks)@);
                    lemma_toks_model_snoc(toks@);
                    assert(seq![toks@.last().model()] =~= vm_to_toks(v.model()));
                    assert(toks_model(toks@) =~= toks_model(old(toks)@) + vm_to_toks(v.model()));
                }
                let custom = match self.lookup(st.as_str()) {
                    Some(d) => !d.is_builtin,
                    None => false,
                };
                if custom {
                    let ghost before = refs@;
                    refs.push(st.clone());
                    proof {
                        assert(refs@.drop_last() =~= before);
                        assert(strs_set(refs@) == strs_set(before).insert(st@));
                        assert(strs_set(refs@) =~= strs_set(before).union(
                            vm_refs(v.model(), self.model()),
                        ));
                    }
                } else {
                    proof {
                        assert(vm_refs(v.model(), self.model()) =~= Set::<Seq<char>>::empty());
                        assert(strs_set(refs@) =~= strs_set(refs@).union(
                            vm_refs(v.model(), self.model()),
                        ));
                    }
                }
            },
            ValueType::Vector(items) => {
                let ghost ms = vals_model(items@);
                proof {
                    lemma_vals_model(items@);
                }
                let ghost toks0 = toks@;
                let ghost refs0 = refs@;
                toks.push(Token::VectorStart);
                proof {
                    assert(toks@.drop_last() =~= toks0);
                    lemma_toks_model_snoc(toks@);
                    assert(toks_model(toks@) =~= toks_model(toks0) + seq![TokModel::VecStart]);
                    assert(vms_to_toks(ms.take(0)) =~= Seq::<TokModel>::empty());
                    assert(toks_model(toks@) =~= toks_model(toks0) + seq![TokModel::VecStart]
                        + vms_to_toks(ms.take(0)));
                    assert(vms_refs(ms.take(0), self.model()) =~= Set::<Seq<char>>::empty());
                    assert(strs_set(refs@) =~= strs_set(refs0).union(
                        vms_refs(ms.take(0), self.model()),
                    ));
                }
                let mut i: usize = 0;
                while i < items.len()
                    invariant
                        i <= items@.len(),
                        toks_model(toks@) == toks_model(toks0) + seq![TokModel::VecStart]
                            + vms_to_toks(ms.take(i as int)),
                        strs_set(refs@) == strs_set(refs0).union(
                            vms_refs(ms.take(i as int), self.model()),
                        ),
                    decreases items@.len() - i,
                {
                    proof {
                        crate::value::lemma_vec_elem_smaller(*v, i as int);
                    }
                    self.value_to_tokens(&items[i], toks, refs);
                    i += 1;
                    proof {
                        assert(ms.take(i as int).drop_last() =~= ms.take(i - 1));
                        assert(ms.take(i as int).last() == ms[i - 1]);
                        assert(vms_to_toks(ms.take(i as int)) == vms_to_toks(ms.take(i - 1))
                            + vm_to_toks(ms[i - 1]));
                        assert(toks_model(toks@) =~= toks_model(toks0) + seq![TokModel::VecStart]
                            + vms_to_toks(ms.take(i as int)));
                        assert(vms_refs(ms.take(i as int), self.model()) =~= vms_refs(
                            ms.take(i - 1),
                            self.model(),
                        ).union(vm_refs(ms[i - 1], self.model())));
                        assert(strs_set(refs@) =~= strs_set(refs0).union(
                            vms_refs(ms.take(i as int), self.model()),
                        ));
                    }
                }
                let ghost before_end = toks@;
                toks.push(Token::VectorEnd);
                proof {
                    assert(toks@.drop_last() =~= before_end);
                    lemma_toks_model_snoc(toks@);
                    assert(ms.take(items@.len() as int) =~= ms);
                    assert(toks_model(toks@) =~= toks_model(toks0) + vm_to_toks(v.model()));
                    assert(vm_refs(v.model(), self.model()) =~= vms_refs(ms, self.model()));
                    assert(strs_set(refs@) =~= strs_set(refs0).union(
                        vm_refs(v.model(), self.model()),
                    ));
                }
            },
        }
    }

    /// Names of the user-defined words, in definition order.
    #[verifier::loop_isolation(false)]
    pub fn custom_words(&self) -> (r: Vec<String>)
        requires
            self.wf(),
        ensures
            forall|i: int| 0 <= i < r@.len() ==> self.model().dom().contains(#[trigger] r@[i]@)
                && !self.model()[r@[i]@].builtin,
            forall|k: Seq<char>| self.model().dom().contains(k) && !self.model()[k].builtin
                ==> strs_set(r@).contains(k),
            forall|a: int, b: int| 0 <= a < b < r@.len() ==> r@[a]@ != r@[b]@,
    {
        proof {
            lemma_dict_model(self.entries@);
        }
        let mut out: Vec<String> = Vec::new();
        let mut i: usize = 0;
        while i < self.entries.len()
            invariant
                i <= self.entries@.len(),
                forall|j: int| 0 <= j < out@.len() ==> self.model().dom().contains(
                    #[trigger] out@[j]@,
                ) && !self.model()[out@[j]@].builtin,
                forall|j: int| 0 <= j < i ==> !self.entries@[j].def.is_builtin ==> strs_set(
                    out@,
                ).contains(#[trigger] self.entries@[j].name@),
                forall|j: int| 0 <= j < out@.len() ==> exists|p: int|
                    0 <= p < i && #[trigger] out@[j]@ == self.entries@[p].name@,
                forall|a: int, b: int| 0 <= a < b < out@.len() ==> out@[a]@ != out@[b]@,
            decreases self.entries@.len() - i,
        {
            let ghost prev = out@;
            if !self.entries[i].def.is_builtin {
                out.push(self.entries[i].name.clone());
                proof {
                    assert(out@.drop_last() =~= prev);
                    assert(strs_set(out@) == strs_set(prev).insert(self.entries@[i as int].name@));
                    assert forall|a: int, b: int| 0 <= a < b < out@.len() implies out@[a]@
                        != out@[b]@ by {
                        if b == out@.len() - 1 {
                            let p = choose|p: int|
                                0 <= p < i && prev[a]@ == self.entries@[p].name@;
                            assert(self.entries@[p].name@ != self.entries@[i as int].name@);
                        }
                    }
                    assert forall|j: int| 0 <= j < out@.len() implies exists|p: int|
                        0 <= p < i + 1 && #[trigger] out@[j]@ == self.entries@[p].name@ by {
                        if j < out@.len() - 1 {
                            let p = choose|p: int|
                                0 <= p < i && prev[j]@ == self.entries@[p].name@;
                            assert(out@[j]@ == self.entries@[p].name@);
                        } else {
                            assert(out@[j]@ == self.entries@[i as int].name@);
                        }
                    }
                }
            }
            i += 1;
        }
        proof {
            assert forall|k: Seq<char>| self.model().dom().contains(k) && !self.model()[k].builtin
                implies strs_set(out@).contains(k) by {
                let j = choose|j: int|
                    0 <= j < self.entries@.len() && self.entries@[j].name@ == k;
                assert(self.model()[k] == self.entries@[j].model());
                assert(!self.entries@[j].def.is_builtin);
            }
        }
        out
    }

    /// User-defined words with their descriptions and whether dependents
    /// protect them.
    #[verifier::loop_isolation(false)]
    pub fn custom_words_info(&self) -> (r: Vec<(String, Option<String>, bool)>)
        requires
            self.wf(),
        ensures
            forall|i: int| 0 <= i < r@.len() ==> self.model().dom().contains(
                #[trigger] r@[i].0@,
            ) && !self.model()[r@[i].0@].builtin && self.model()[r@[i].0@].desc == opt_str_model(
                r@[i].1,
            ) && (r@[i].2 == (self.model()[r@[i].0@].dependents != Set::<Seq<char>>::empty())),
            forall|k: Seq<char>| self.model().dom().contains(k) && !self.model()[k].builtin
                ==> exists|i: int| 0 <= i < r@.len() && #[trigger] r@[i].0@ == k,
    {
        proof {
            lemma_dict_model(self.entries@);
        }
        let mut out: Vec<(String, Option<String>, bool)> = Vec::new();
        let mut i: usize = 0;
        while i < self.entries.len()
            invariant
                i <= self.entries@.len(),
                forall|j: int| 0 <= j < out@.len() ==> self.model().dom().contains(
                    #[trigger] out@[j].0@,
                ) && !self.model()[out@[j].0@].builtin && self.model()[out@[j].0@].desc
                    == opt_str_model(out@[j].1) && (out@[j].2 == (self.model()[
                out@[j].0@].dependents != Set::<Seq<char>>::empty())),
                forall|j: int| 0 <= j < i ==> !self.entries@[j].def.is_builtin ==> exists|p: int|
                    0 <= p < out@.len() && #[trigger] out@[p].0@ == self.entries@[j].name@,
            decreases self.entries@.len() - i,
        {
            if !self.entries[i].def.is_builtin {
                let name = self.entries[i].name.clone();
                let desc = match &self.entries[i].def.description {
                    Some(d) => Some(d.clone()),
                    None => None,
                };
                let protected_word = self.entries[i].dependents.len() > 0;
                proof {
                    if self.entries@[i as int].dependents@.len() > 0 {
                        assert(strs_set(self.entries@[i as int].dependents@).contains(
                            self.entries@[i as int].dependents@.last()@,
                        ));
                    } else {
                        assert(strs_set(self.entries@[i as int].dependents@)
                            =~= Set::<Seq<char>>::empty());
                    }
                }
                let ghost prev2 = out@;
                out.push((name, desc, protected_word));
                proof {
                    assert(out@[out@.len() - 1].0@ == self.entries@[i as int].name@);
                    assert forall|j: int|
                        0 <= j < i + 1 && !self.entries@[j].def.is_builtin implies exists|p: int|
                        0 <= p < out@.len() && #[trigger] out@[p].0@ == self.entries@[j].name@ by {
                        if j < i {
                            let p = choose|p: int|
                                0 <= p < prev2.len() && prev2[p].0@ == self.entries@[j].name@;
                            assert(out@[p].0@ == self.entries@[j].name@);
                        } else {
                            assert(out@[out@.len() - 1].0@ == self.entries@[j].name@);
                        }
                    }
                }
            }
            i += 1;
        }
        proof {
            assert forall|k: Seq<char>|
                self.model().dom().contains(k) && !self.model()[k].builtin implies exists|i2: int|
                0 <= i2 < out@.len() && #[trigger] out@[i2].0@ == k by {
                let j = choose|j: int|
                    0 <= j < self.entries@.len() && self.entries@[j].name@ == k;
                assert(self.model()[k] == self.entries@[j].model());
                assert(!self.entries@[j].def.is_builtin);
            }
        }
        out
    }

    /// Define or redefine the word `name` (already uppercase) with the given
    /// body and optional description, maintaining the dependency edges.
    #[verifier::loop_isolation(false)]
    #[verifier::rlimit(100)]
    pub fn define(&mut self, name: &str, body: &Vec<Value>, description: Option<String>) -> (r: DictOutcome)
        requires
            old(self).wf(),
        ensures
            final(self).wf(),
            define_post(
                old(self).model(),
                name@,
                vals_model(body@),
                opt_str_model(description),
                final(self).model(),
                r,
            ),
    {
        let ghost m0 = self.model();
        let idx = self.index_of(name);
        let existed = idx.is_some();
        if let Some(i) = idx {
            if self.entries[i].def.is_builtin {
                return Err(EvalError::RedefineBuiltin(name.to_owned()));
            }
            if self.entries[i].dependents.len() > 0 {
                proof {
                    assert(strs_set(self.entries@[i as int].dependents@).contains(
                        self.entries@[i as int].dependents@.last()@,
                    ));
                    assert(m0[name@].dependents != Set::<Seq<char>>::empty());
                }
                return Err(
                    EvalError::DependencyViolation {
                        word: name.to_owned(),
                        dependents: clone_strings(&self.entries[i].dependents),
                    },
                );
            }
            proof {
                assert(strs_set(self.entries@[i as int].dependents@)
                    =~= Set::<Seq<char>>::empty());
                assert(m0[name@].dependents == Set::<Seq<char>>::empty());
            }
        }
        // convert the body, collecting references to custom words
        let ghost bm = vals_model(body@);
        proof {
            lemma_vals_model(body@);
        }
        let mut toks: Vec<Token> = Vec::new();
        let mut refs: Vec<String> = Vec::new();
        proof {
            assert(toks_model(toks@) =~= vms_to_toks(bm.take(0)));
            assert(strs_set(refs@) =~= vms_refs(bm.take(0), m0));
        }
        let mut j: usize = 0;
        while j < body.len()
            invariant
                j <= body@.len(),
                self == old(self),
                toks_model(toks@) == vms_to_toks(bm.take(j as int)),
                strs_set(refs@) == vms_refs(bm.take(j as int), m0),
            decreases body@.len() - j,
        {
            self.value_to_tokens(&body[j], &mut toks, &mut refs);
            j += 1;
            proof {
                assert(bm.take(j as int).drop_last() =~= bm.take(j - 1));
                assert(bm.take(j as int).last() == bm[j - 1]);
                assert(toks_model(toks@) =~= vms_to_toks(bm.take(j as int)));
                assert(strs_set(refs@) =~= vms_refs(bm.take(j as int), m0));
            }
        }
        proof {
            assert(bm.take(body@.len() as int) =~= bm);
        }
        // drop the outgoing edges of the old body
        let ghost old_syms = if existed {
            tok_syms(m0[name@].body)
        } else {
            Set::<Seq<char>>::empty()
        };
        let ghost m1 = if existed {
            strip_all(m0, old_syms, name@)
        } else {
            m0
        };
        if let Some(i) = idx {
            let syms = collect_syms(&self.entries[i].def.tokens);
            let ghost ents0 = self.entries@;
            let mut k: usize = 0;
            while k < syms.len()
                invariant
                    k <= syms@.len(),
                    strip_progress(self.entries@, ents0, strs_set(syms@.take(k as int)), name@),
                decreases syms@.len() - k,
            {
                proof {
                    assert(self.wf());
                    assert(syms@.take(k + 1).drop_last() =~= syms@.take(k as int));
                    assert(strs_set(syms@.take(k + 1)) == strs_set(syms@.take(k as int)).insert(
                        syms@[k as int]@,
                    ));
                }
                let ghost done = strs_set(syms@.take(k as int));
                match self.index_of(syms[k].as_str()) {
                    Some(p) => {
                        let ghost before = self.entries@;
                        let mut e = self.entries.remove(p);
                        let nd = remove_all_str(&e.dependents, name);
                        e.dependents = nd;
                        self.entries.insert(p, e);
                        proof {
                            assert(self.entries@ =~= before.update(p as int, e));
                            assert forall|x: int| 0 <= x < ents0.len() implies strs_set(
                                #[trigger] self.entries@[x].dependents@,
                            ) == (if done.insert(syms@[k as int]@).contains(ents0[x].name@) {
                                strs_set(ents0[x].dependents@).remove(name@)
                            } else {
                                strs_set(ents0[x].dependents@)
                            }) by {
                                if x == p {
                                    assert(ents0[x].name@ == syms@[k as int]@);
                                    assert(strs_set(e.dependents@) == strs_set(
                                        before[x].dependents@,
                                    ).remove(name@));
                                    assert(strs_set(ents0[x].dependents@).remove(name@).remove(
                                        name@,
                                    ) =~= strs_set(ents0[x].dependents@).remove(name@));
                                } else {
                                    assert(self.entries@[x] == before[x]);
                                    assert(ents0[x].name@ != syms@[k as int]@);
                                }
                            }
                        }
                    },
                    None => {
                        proof {
                            lemma_dict_model(self.entries@);
                            assert forall|x: int| 0 <= x < ents0.len() implies
                                ents0[x].name@ != syms@[k as int]@ by {
                                if ents0[x].name@ == syms@[k as int]@ {
                                    assert(self.entries@[x].name@ == syms@[k as int]@);
                                    assert(self.model().dom().contains(syms@[k as int]@));
                                }
                            }
                        }
                    },
                }
                k += 1;
                proof {
                    assert(strip_progress(
                        self.entries@,
                        ents0,
                        strs_set(syms@.take(k as int)),
                        name@,
                    ));
                }
            }
            proof {
                assert(syms@.take(syms@.len() as int) =~= syms@);
                lemma_dict_model(ents0);
                assert forall|q: int| 0 <= q < self.entries@.len() implies m1.dom().contains(
                    #[trigger] self.entries@[q].name@,
                ) && m1[self.entries@[q].name@] == self.entries@[q].model() by {
                    let k = self.entries@[q].name@;
                    assert(ents0[q].name@ == k);
                    assert(m0.dom().contains(k));
                    assert(m0[k] == ents0[q].model());
                    assert(m1[k] =~= self.entries@[q].model());
                }
                assert forall|k: Seq<char>| m1.dom().contains(k) implies exists|q: int|
                    0 <= q < self.entries@.len() && #[trigger] self.entries@[q].name@ == k by {
                    assert(m0.dom().contains(k));
                    let q = choose|q: int| 0 <= q < ents0.len() && ents0[q].name@ == k;
                    assert(self.entries@[q].name@ == k);
                }
                lemma_model_ext(self.entries@, m1);
            }
        }
        // store the definition
        let ghost entry_m = EntryModel {
            body: toks_model(toks@),
            builtin: false,
            desc: match description {
                Some(ref d) => Some(d@),
                None => None,
            },
            dependents: if existed {
                m1[name@].dependents
            } else {
                Set::<Seq<char>>::empty()
            },
        };
        let def = WordDefinition { tokens: toks, is_builtin: false, description };
        match self.index_of(name) {
            Some(i2) => {
                let ghost before = self.entries@;
                let mut e = self.entries.remove(i2);
                e.def = def;
                self.entries.insert(i2, e);
                proof {
                    assert(self.entries@ =~= before.update(i2 as int, e));
                    lemma_dict_model_update(before, i2 as int, e);
                    assert(e.model() =~= entry_m);
                    assert(self.model() == m1.insert(name@, entry_m));
                }
            },
            None => {
                let ghost before = self.entries@;
                self.entries.push(
                    DictEntry { name: name.to_owned(), def, dependents: Vec::new() },
                );
                proof {
                    assert(self.entries@.drop_last() =~= before);
                    lemma_dict_model(before);
                    assert(self.entries@.last().model() =~= entry_m) by {
                        assert(strs_set(Seq::<String>::empty()) =~= Set::<Seq<char>>::empty());
                    }
                    assert(self.model() == m1.insert(name@, entry_m));
                }
            },
        }
        let ghost m2 = m1.insert(name@, entry_m);
        let ghost rf = vms_refs(bm, m0);
        // record the new edges
        let ghost ents2 = self.entries@;
        let mut t: usize = 0;
        while t < refs.len()
            invariant
                t <= refs@.len(),
                add_progress(self.entries@, ents2, strs_set(refs@.take(t as int)), name@),
            decreases refs@.len() - t,
        {
            proof {
                assert(self.wf());
            }
            match self.index_of(refs[t].as_str()) {
                Some(p) => {
                    let ghost before = self.entries@;
                    let mut e = self.entries.remove(p);
                    let ghost dbefore = e.dependents@;
                    if !contains_str(&e.dependents, name) {
                        e.dependents.push(name.to_owned());
                        proof {
                            assert(e.dependents@.drop_last() =~= dbefore);
                            assert(strs_set(e.dependents@) == strs_set(dbefore).insert(name@));
                        }
                    } else {
                        proof {
                            assert(strs_set(e.dependents@) =~= strs_set(dbefore).insert(name@));
                        }
                    }
                    self.entries.insert(p, e);
                    proof {
                        assert(self.entries@ =~= before.update(p as int, e));
                    }
                },
                None => {
                    proof {
                        lemma_strs_set(refs@);
                        assert(strs_set(refs@).contains(refs@[t as int]@));
                        assert(rf.contains(refs@[t as int]@));
                        assert(m0.dom().contains(refs@[t as int]@));
                        assert(m2.dom().contains(refs@[t as int]@));
                        lemma_dict_model(ents2);
                        let q = choose|q: int|
                            0 <= q < ents2.len() && ents2[q].name@ == refs@[t as int]@;
                        assert(self.entries@[q].name@ == refs@[t as int]@);
                        lemma_dict_model(self.entries@);
                        assert(self.model().dom().contains(refs@[t as int]@));
                        assert(false);
                    }
                },
            }
            t += 1;
            proof {
                assert(refs@.take(t as int).drop_last() =~= refs@.take(t - 1));
                assert(strs_set(refs@.take(t as int)) == strs_set(refs@.take(t - 1)).insert(
                    refs@[t - 1]@,
                ));
                assert forall|x: int| 0 <= x < ents2.len() implies strs_set(
                    #[trigger] self.entries@[x].dependents@,
                ) == (if strs_set(refs@.take(t as int)).contains(ents2[x].name@) {
                    strs_set(ents2[x].dependents@).insert(name@)
                } else {
                    strs_set(ents2[x].dependents@)
                }) by {
                    if ents2[x].name@ != refs@[t - 1]@ {
                        assert(strs_set(refs@.take(t as int)).contains(ents2[x].name@)
                            == strs_set(refs@.take(t - 1)).contains(ents2[x].name@));
                    } else {
                        assert(strs_set(self.entries@[x].dependents@) =~= strs_set(
                            ents2[x].dependents@,
                        ).insert(name@));
                    }
                }
                assert(add_progress(
                    self.entries@,
                    ents2,
                    strs_set(refs@.take(t as int)),
                    name@,
                ));
            }
        }
        proof {
            assert(refs@.take(refs@.len() as int) =~= refs@);
            lemma_dict_model(ents2);
            let target = add_all(m2, rf, name@);
            assert forall|q: int| 0 <= q < self.entries@.len() implies target.dom().contains(
                #[trigger] self.entries@[q].name@,
            ) && target[self.entries@[q].name@] == self.entries@[q].model() by {
                let k = self.entries@[q].name@;
                assert(ents2[q].name@ == k);
                assert(m2.dom().contains(k));
                assert(m2[k] == ents2[q].model());
                assert(target[k] =~= self.entries@[q].model());
            }
            assert forall|k: Seq<char>| target.dom().contains(k) implies exists|q: int|
                0 <= q < self.entries@.len() && #[trigger] self.entries@[q].name@ == k by {
                assert(m2.dom().contains(k));
                let q = choose|q: int| 0 <= q < ents2.len() && ents2[q].name@ == k;
                assert(self.entries@[q].name@ == k);
            }
            lemma_model_ext(self.entries@, target);
        }
        Ok(())
    }

    /// Delete the word `name`, refusing builtins, unknown names and words
    /// that others still depend on.
    #[verifier::loop_isolation(false)]
    #[verifier::rlimit(60)]
    pub fn delete(&mut self, name: &str) -> (r: DictOutcome)
        requires
            old(self).wf(),
        ensures
            final(self).wf(),
            delete_post(old(self).model(), name@, final(self).model(), r),
    {
        let ghost m0 = self.model();
        let idx = self.index_of(name);
        match idx {
            None => Err(EvalError::WordNotFound(name.to_owned())),
            Some(i) => {
                if self.entries[i].def.is_builtin {
                    return Err(EvalError::DeleteBuiltin(name.to_owned()));
                }
                if self.entries[i].dependents.len() > 0 {
                    proof {
                        assert(strs_set(self.entries@[i as int].dependents@).contains(
                            self.entries@[i as int].dependents@.last()@,
                        ));
                        assert(m0[name@].dependents != Set::<Seq<char>>::empty());
                    }
                    return Err(
                        EvalError::DependencyViolation {
                            word: name.to_owned(),
                            dependents: clone_strings(&self.entries[i].dependents),
                        },
                    );
                }
                proof {
                    assert(strs_set(self.entries@[i as int].dependents@)
                        =~= Set::<Seq<char>>::empty());
                    assert(m0[name@].dependents == Set::<Seq<char>>::empty());
                }
                let ghost before = self.entries@;
                let _removed = self.entries.remove(i);
                proof {
                    lemma_dict_model_remove(before, i as int);
                }
                let ghost ents1 = self.entries@;
                let ghost mr = m0.remove(name@);
                let mut j: usize = 0;
                while j < self.entries.len()
                    invariant
                        j <= self.entries@.len(),
                        strip_prefix_progress(self.entries@, ents1, j as int, name@),
                    decreases self.entries@.len() - j,
                {
                    let ghost before2 = self.entries@;
                    let mut e = self.entries.remove(j);
                    let nd = remove_all_str(&e.dependents, name);
                    e.dependents = nd;
                    self.entries.insert(j, e);
                    j += 1;
                    proof {
                        assert(self.entries@ =~= before2.update(j - 1, e));
                        assert forall|x: int| 0 <= x < ents1.len() implies #[trigger] self.entries@[x].name == ents1[x].name
                            && self.entries@[x].def == ents1[x].def by {
                            assert(strip_prefix_progress(before2, ents1, j - 1, name@));
                            assert(before2[x].name == ents1[x].name);
                            assert(before2[x].def == ents1[x].def);
                            if x != j - 1 {
                                assert(self.entries@[x] == before2[x]);
                            } else {
                                assert(self.entries@[x] == e);
                            }
                        }
                        assert forall|x: int| 0 <= x < ents1.len() implies strs_set(
                            #[trigger] self.entries@[x].dependents@,
                        ) == (if x < j {
                            strs_set(ents1[x].dependents@).remove(name@)
                        } else {
                            strs_set(ents1[x].dependents@)
                        }) by {
                            if x == j - 1 {
                                assert(strs_set(e.dependents@) == strs_set(
                                    before2[x].dependents@,
                                ).remove(name@));
                                assert(strs_set(before2[x].dependents@) == strs_set(
                                    ents1[x].dependents@,
                                ));
                            } else {
                                assert(self.entries@[x] == before2[x]);
                            }
                        }
                        assert(strip_prefix_progress(self.entries@, ents1, j as int, name@));
                    }
                }
                proof {
                    lemma_dict_model(before);
                    lemma_dict_model(ents1);
                    let target = Map::new(
                        |k: Seq<char>| m0.dom().contains(k) && k != name@,
                        |k: Seq<char>|
                            EntryModel { dependents: m0[k].dependents.remove(name@), ..m0[k] },
                    );
                    assert forall|q: int| 0 <= q < self.entries@.len() implies
                        target.dom().contains(#[trigger] self.entries@[q].name@)
                        && target[self.entries@[q].name@] == self.entries@[q].model() by {
                        let k = self.entries@[q].name@;
                        assert(ents1[q].name@ == k);
                        assert(mr.dom().contains(k));
                        assert(mr[k] == ents1[q].model());
                        assert(m0.dom().contains(k) && k != name@);
                        assert(m0[k] == ents1[q].model());
                        assert(target[k] =~= self.entries@[q].model());
                    }
                    assert forall|k: Seq<char>| target.dom().contains(k) implies exists|q: int|
                        0 <= q < self.entries@.len() && #[trigger] self.entries@[q].name@
                        == k by {
                        assert(mr.dom().contains(k));
                        let q = choose|q: int| 0 <= q < ents1.len() && ents1[q].name@ == k;
                        assert(self.entries@[q].name@ == k);
                    }
                    lemma_model_ext(self.entries@, target);
                }
                Ok(())
            },
        }
    }

}

/// Remove `name` from the dependents of every entry named in `syms`.
pub open spec fn strip_all(
    m: Map<Seq<char>, EntryModel>,
    syms: Set<Seq<char>>,
    name: Seq<char>,
) -> Map<Seq<char>, EntryModel> {
    Map::new(
        |k: Seq<char>| m.dom().contains(k),
        |k: Seq<char>|
            if syms.contains(k) {
                EntryModel { dependents: m[k].dependents.remove(name), ..m[k] }
            } else {
                m[k]
            },
    )
}

/// Add `name` to the dependents of every entry named in `syms`.
pub open spec fn add_all(
    m: Map<Seq<char>, EntryModel>,
    syms: Set<Seq<char>>,
    name: Seq<char>,
) -> Map<Seq<char>, EntryModel> {
    Map::new(
        |k: Seq<char>| m.dom().contains(k),
        |k: Seq<char>|
            if syms.contains(k) {
                EntryModel { dependents: m[k].dependents.insert(name), ..m[k] }
            } else {
                m[k]
            },
    )
}

/// The dictionary transition of a definition: builtins cannot be shadowed, a
/// depended-upon word cannot be replaced; otherwise the old body's outgoing
/// edges are dropped, the body is stored as tokens, and an edge to `name` is
/// recorded for every custom word the body references.
pub open spec fn spec_define(
    m: Map<Seq<char>, EntryModel>,
    name: Seq<char>,
    body: Seq<ValModel>,
    desc: Option<Seq<char>>,
) -> Result<Map<Seq<char>, EntryModel>, ErrModel> {
    if m.dom().contains(name) && m[name].builtin {
        Err(ErrModel::RedefineBuiltin(name))
    } else if m.dom().contains(name) && m[name].dependents != Set::<Seq<char>>::empty() {
        Err(ErrModel::DependencyViolation { word: name, dependents: m[name].dependents })
    } else {
        let m1 = if m.dom().contains(name) {
            strip_all(m, tok_syms(m[name].body), name)
        } else {
            m
        };
        let entry = EntryModel {
            body: vms_to_toks(body),
            builtin: false,
            desc,
            dependents: if m.dom().contains(name) {
                m1[name].dependents
            } else {
                Set::empty()
            },
        };
        Ok(add_all(m1.insert(name, entry), vms_refs(body, m), name))
    }
}

/// The dictionary transition of a deletion: builtins and depended-upon words
/// stay; otherwise the entry goes and the name disappears from every
/// dependents set.
pub open spec fn spec_delete(m: Map<Seq<char>, EntryModel>, name: Seq<char>) -> Result<
    Map<Seq<char>, EntryModel>,
    ErrModel,
> {
    if !m.dom().contains(name) {
        Err(ErrModel::WordNotFound(name))
    } else if m[name].builtin {
        Err(ErrModel::DeleteBuiltin(name))
    } else if m[name].dependents != Set::<Seq<char>>::empty() {
        Err(ErrModel::DependencyViolation { word: name, dependents: m[name].dependents })
    } else {
        Ok(
            Map::new(
                |k: Seq<char>| m.dom().contains(k) && k != name,
                |k: Seq<char>| EntryModel { dependents: m[k].dependents.remove(name), ..m[k] },
            ),
        )
    }

}

/// Outcome of a dictionary mutation: no payload on success.
pub type DictOutcome = Result<(), EvalError>;

/// View of an optional description.
pub open spec fn opt_str_model(o: Option<String>) -> Option<Seq<char>> {
    match o {
        Some(d) => Some(d@),
        None => None,
    }
}

/// Entry list `cur` equals `orig` except that `name` has been removed from
/// the dependents of every entry whose name lies in `done`.
pub open spec fn strip_progress(
    cur: Seq<DictEntry>,
    orig: Seq<DictEntry>,
    done: Set<Seq<char>>,
    name: Seq<char>,
) -> bool {
    &&& cur.len() == orig.len()
    &&& forall|x: int| 0 <= x < orig.len() ==> #[trigger] cur[x].name == orig[x].name && cur[x].def
        == orig[x].def
    &&& forall|x: int| 0 <= x < orig.len() ==> strs_set(#[trigger] cur[x].dependents@) == (if done.contains(
        orig[x].name@,
    ) {
        strs_set(orig[x].dependents@).remove(name)
    } else {
        strs_set(orig[x].dependents@)
    })
}

/// Entry list `cur` equals `orig` except that `name` has been added to the
/// dependents of every entry whose name lies in `done`.
pub open spec fn add_progress(
    cur: Seq<DictEntry>,
    orig: Seq<DictEntry>,
    done: Set<Seq<char>>,
    name: Seq<char>,
) -> bool {
    &&& cur.len() == orig.len()
    &&& forall|x: int| 0 <= x < orig.len() ==> #[trigger] cur[x].name == orig[x].name && cur[x].def
        == orig[x].def
    &&& forall|x: int| 0 <= x < orig.len() ==> strs_set(#[trigger] cur[x].dependents@) == (if done.contains(
        orig[x].name@,
    ) {
        strs_set(orig[x].dependents@).insert(name)
    } else {
        strs_set(orig[x].dependents@)
    })
}

/// Entry list `cur` equals `orig` except that the first `j` entries have had
/// `name` removed from their dependents.
pub open spec fn strip_prefix_progress(
    cur: Seq<DictEntry>,
    orig: Seq<DictEntry>,
    j: int,
    name: Seq<char>,
) -> bool {
    &&& cur.len() == orig.len()
    &&& forall|x: int| 0 <= x < orig.len() ==> #[trigger] cur[x].name == orig[x].name && cur[x].def
        == orig[x].def
    &&& forall|x: int| 0 <= x < orig.len() ==> strs_set(#[trigger] cur[x].dependents@) == (if x < j {
        strs_set(orig[x].dependents@).remove(name)
    } else {
        strs_set(orig[x].dependents@)
    })
}

/// What `Dictionary::define` guarantees: success produces exactly the
/// `spec_define` transition, failure reports its error and changes nothing.
pub open spec fn define_post(
    m: Map<Seq<char>, EntryModel>,
    name: Seq<char>,
    body: Seq<ValModel>,
    desc: Option<Seq<char>>,
    m_new: Map<Seq<char>, EntryModel>,
    r: DictOutcome,
) -> bool {
    match r {
        Ok(_) => spec_define(m, name, body, desc) == Ok::<Map<Seq<char>, EntryModel>, ErrModel>(
            m_new,
        ),
        Err(e) => spec_define(m, name, body, desc) == Err::<Map<Seq<char>, EntryModel>, ErrModel>(
            e.model(),
        ) && m_new == m,
    }
}

/// What `Dictionary::delete` guarantees, in the same shape.
pub open spec fn delete_post(
    m: Map<Seq<char>, EntryModel>,
    name: Seq<char>,
    m_new: Map<Seq<char>, EntryModel>,
    r: DictOutcome,
) -> bool {
    match r {
        Ok(_) => spec_delete(m, name) == Ok::<Map<Seq<char>, EntryModel>, ErrModel>(m_new),
        Err(e) => spec_delete(m, name) == Err::<Map<Seq<char>, EntryModel>, ErrModel>(e.model())
            && m_new == m,
    }
}

/// Tokens of one body value: scalars become their token, vectors become a
/// bracketed run.
pub open spec fn vm_to_toks(v: ValModel) -> Seq<TokModel>
    decreases v,
{
    match v {
        ValModel::Num { n, d } => seq![TokModel::Num { n, d }],
        ValModel::Str(s) => seq![TokModel::Str(s)],
        ValModel::Bool(b) => seq![TokModel::Bool(b)],
        ValModel::Sym(s) => seq![TokModel::Sym(s)],
        ValModel::Nil => seq![TokModel::Nil],
        ValModel::Arr(els) => seq![TokModel::VecStart] + vms_to_toks(els) + seq![TokModel::VecEnd],
    }
}

/// Tokens of a sequence of body values.
pub open spec fn vms_to_toks(els: Seq<ValModel>) -> Seq<TokModel>
    decreases els,
{
    if els.len() == 0 {
        Seq::empty()
    } else {
        vms_to_toks(els.drop_last()) + vm_to_toks(els.last())
    }
}

/// All symbol names occurring in one value, nested vectors included.
pub open spec fn vm_syms(v: ValModel) -> Set<Seq<char>>
    decreases v,
{
    match v {
        ValModel::Sym(s) => Set::empty().insert(s),
        ValModel::Arr(els) => vms_syms(els),
        _ => Set::empty(),
    }
}

/// All symbol names occurring in a sequence of values.
pub open spec fn vms_syms(els: Seq<ValModel>) -> Set<Seq<char>>
    decreases els,
{
    if els.len() == 0 {
        Set::empty()
    } else {
        vms_syms(els.drop_last()).union(vm_syms(els.last()))
    }
}

/// The custom words of `m` that one value references.
pub open spec fn vm_refs(v: ValModel, m: Map<Seq<char>, EntryModel>) -> Set<Seq<char>> {
    Set::new(|s: Seq<char>| vm_syms(v).contains(s) && m.dom().contains(s) && !m[s].builtin)
}

/// The custom words of `m` that a body references.
pub open spec fn vms_refs(els: Seq<ValModel>, m: Map<Seq<char>, EntryModel>) -> Set<Seq<char>> {
    Set::new(|s: Seq<char>| vms_syms(els).contains(s) && m.dom().contains(s) && !m[s].builtin)
}

/// Symbol names among a flat token sequence.
pub open spec fn tok_syms(ts: Seq<TokModel>) -> Set<Seq<char>>
    decreases ts,
{
    if ts.len() == 0 {
        Set::empty()
    } else {
        tok_syms(ts.drop_last()).union(
            match ts.last() {
                TokModel::Sym(s) => Set::empty().insert(s),
                _ => Set::empty(),
            },
        )
    }
}

/// Appending one token to a token vector appends its model.
pub proof fn lemma_toks_model_snoc(s: Seq<Token>)
    requires
        s.len() > 0,
    ensures
        toks_model(s) == toks_model(s.drop_last()) + seq![s.last().model()],
{
    assert(toks_model(s.drop_last()).push(s.last().model()) =~= toks_model(s.drop_last())
        + seq![s.last().model()]);
}

/// Collect the names of all symbol tokens in a body.
#[verifier::loop_isolation(false)]
fn collect_syms(tokens: &Vec<Token>) -> (r: Vec<String>)
    ensures
        strs_set(r@) == tok_syms(toks_model(tokens@)),
{
    proof {
        lemma_toks_model(tokens@);
    }
    let mut out: Vec<String> = Vec::new();
    let mut i: usize = 0;
    proof {
        assert(strs_set(out@) =~= tok_syms(toks_model(tokens@.take(0))));
    }
    while i < tokens.len()
        invariant
            i <= tokens@.len(),
            strs_set(out@) == tok_syms(toks_model(tokens@.take(i as int))),
        decreases tokens@.len() - i,
    {
        let ghost prev = out@;
        if let Token::Symbol(st) = &tokens[i] {
            out.push(st.clone());
            proof {
                assert(out@.drop_last() =~= prev);
            }
        }
        i += 1;
        proof {
            let tm = toks_model(tokens@.take(i as int));
            assert(tokens@.take(i as int).drop_last() =~= tokens@.take(i - 1));
            lemma_toks_model(tokens@.take(i as int));
            assert(tm.drop_last() =~= toks_model(tokens@.take(i - 1)));
            assert(tm.last() == tokens@[i - 1].model());
            assert(tok_syms(tm) == tok_syms(tm.drop_last()).union(
                match tm.last() {
                    TokModel::Sym(s2) => Set::<Seq<char>>::empty().insert(s2),
                    _ => Set::<Seq<char>>::empty(),
                },
            ));
            assert(strs_set(out@) =~= tok_syms(toks_model(tokens@.take(i as int))));
        }
    }
    proof {
        assert(tokens@.take(tokens@.len() as int) =~= tokens@);
    }
    out
}

/// Whether a string with the view of `name` occurs in the vector.
#[verifier::loop_isolation(false)]
fn contains_str(v: &Vec<String>, name: &str) -> (r: bool)
    ensures
        r == strs_set(v@).contains(name@),
{
    proof {
        lemma_strs_set(v@);
    }
    let mut i: usize = 0;
    while i < v.len()
        invariant
            i <= v@.len(),
            forall|k: int| 0 <= k < i ==> v@[k]@ != name@,
        decreases v@.len() - i,
    {
        if crate::text::str_eq_str(v[i].as_str(), name) {
            return true;
        }
        i += 1;
    }
    false
}

/// Copy a string vector, leaving out every occurrence of `name`.
#[verifier::loop_isolation(false)]
fn remove_all_str(v: &Vec<String>, name: &str) -> (r: Vec<String>)
    ensures
        strs_set(r@) == strs_set(v@).remove(name@),
{
    let mut out: Vec<String> = Vec::new();
    let mut i: usize = 0;
    while i < v.len()
        invariant
            i <= v@.len(),
            strs_set(out@) == strs_set(v@.take(i as int)).remove(name@),
        decreases v@.len() - i,
    {
        let ghost prev = out@;
        if !crate::text::str_eq_str(v[i].as_str(), name) {
            out.push(v[i].clone());
            proof {
                assert(out@.drop_last() =~= prev);
            }
        }
        i += 1;
        proof {
            assert(v@.take(i as int).drop_last() =~= v@.take(i - 1));
            assert(strs_set(v@.take(i as int)) == strs_set(v@.take(i - 1)).insert(v@[i - 1]@));
            assert(strs_set(out@) =~= strs_set(v@.take(i as int)).remove(name@));
        }
    }
    proof {
        assert(v@.take(v@.len() as int) =~= v@);
    }
    out
}

/// Copy a vector of strings.
/// Copy a vector of strings.
/// Copy a vector of strings.
fn clone_strings(v: &Vec<String>) -> (r: Vec<String>)
    ensures
        r@ == v@,
{
    let mut out: Vec<String> = Vec::new();
    let mut i: usize = 0;
    while i < v.len()
        invariant
            i <= v@.len(),
            out@ =~= v@.take(i as int),
        decreases v@.len() - i,
    {
        out.push(v[i].clone());
        i += 1;
        proof {
            assert(out@ =~= v@.take(i as int));
        }
    }
    proof {
        assert(v@.take(v@.len() as int) =~= v@);
    }
    out
}

} // verus!
