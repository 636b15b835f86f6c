use vstd::prelude::*;
use crate::dict::{
    EntryModel, spec_define, spec_delete, vms_syms, vms_refs, tok_syms, add_all, strip_all,
};
use crate::errors::ErrModel;
use crate::value::ValModel;

verus! {

/// Defining a word whose body references a custom word protects that word:
/// as long as the new word exists, the referenced word can be neither
/// deleted nor redefined, and the failure names the dependent.
///
/// Here `m` is any dictionary state, `used` a custom word defined in it, and
/// `user` a fresh name whose body mentions `used`.
pub proof fn lemma_dependency_blocks_mutation(
    m: Map<Seq<char>, EntryModel>,
    used: Seq<char>,
    user: Seq<char>,
    body: Seq<ValModel>,
    desc: Option<Seq<char>>,
    body2: Seq<ValModel>,
    desc2: Option<Seq<char>>,
)
    requires
        m.dom().contains(used),
        !m[used].builtin,
        vms_syms(body).contains(used),
        used != user,
        spec_define(m, user, body, desc) is Ok,
    ensures
        ({
            let m1 = spec_define(m, user, body, desc)->Ok_0;
            &&& spec_delete(m1, used) matches Err(e) && e matches ErrModel::DependencyViolation {
                word,
                dependents,
            } && word == used && dependents.contains(user)
            &&& spec_define(m1, used, body2, desc2) matches Err(e2) && e2 matches
                ErrModel::DependencyViolation { word: w2, dependents: d2 } && w2 == used
                && d2.contains(user)
        }),
{
    let m1 = spec_define(m, user, body, desc)->Ok_0;
    let rf = vms_refs(body, m);
    assert(rf.contains(used));
    let mstripped = if m.dom().contains(user) {
        strip_all(m, tok_syms(m[user].body), user)
    } else {
        m
    };
    let m2 = mstripped.insert(user, spec_define_entry(m, user, body, desc));
    assert(m1 == add_all(m2, rf, user));
    assert(m2.dom().contains(used));
    assert(m1[used].dependents.contains(user));
    assert(m1[used].dependents != Set::<Seq<char>>::empty());
    assert(!m1[used].builtin);
}

/// The entry `spec_define` stores for the new word.
pub open spec fn spec_define_entry(
    m: Map<Seq<char>, EntryModel>,
    name: Seq<char>,
    body: Seq<ValModel>,
    desc: Option<Seq<char>>,
) -> EntryModel {
    EntryModel {
        body: crate::dict::vms_to_toks(body),
        builtin: false,
        desc,
        dependents: if m.dom().contains(name) {
            (if m.dom().contains(name) {
                strip_all(m, tok_syms(m[name].body), name)
            } else {
                m
            })[name].dependents
        } else {
            Set::empty()
        },
    }
}

/// Deleting the dependent releases the protection: once the word defined in
/// `lemma_dependency_blocks_mutation` is deleted, the word it referenced can
/// be deleted again.
pub proof fn lemma_delete_dependent_releases(
    m: Map<Seq<char>, EntryModel>,
    used: Seq<char>,
    user: Seq<char>,
    body: Seq<ValModel>,
    desc: Option<Seq<char>>,
)
    requires
        m.dom().contains(used),
        !m[used].builtin,
        m[used].dependents == Set::<Seq<char>>::empty(),
        vms_syms(body).contains(used),
        used != user,
        !m.dom().contains(user),
        !vms_syms(body).contains(user),
        spec_define(m, user, body, desc) is Ok,
    ensures
        ({
            let m1 = spec_define(m, user, body, desc)->Ok_0;
            &&& spec_delete(m1, user) matches Ok(m2) && spec_delete(m2, used) is Ok
        }),
{
    let m1 = spec_define(m, user, body, desc)->Ok_0;
    let rf = vms_refs(body, m);
    let m2 = m.insert(user, spec_define_entry(m, user, body, desc));
    assert(m1 == add_all(m2, rf, user));
    assert(!rf.contains(user));
    assert(m1[user].dependents =~= Set::<Seq<char>>::empty());
    assert(!m1[user].builtin);
    let m3 = spec_delete(m1, user)->Ok_0;
    assert(m3.dom().contains(used));
    assert(!m3[used].builtin);
    assert(m3[used].dependents == m1[used].dependents.remove(user));
    assert(m1[used].dependents =~= Set::<Seq<char>>::empty().insert(user));
    assert(m3[used].dependents =~= Set::<Seq<char>>::empty());
}

/// Redefining a word that nothing references succeeds, and the edges of its
/// old body are dropped: a word the old body referenced but the new body does
/// not stops counting the redefined word among its dependents.
pub proof fn lemma_redefine_drops_stale_edges(
    m: Map<Seq<char>, EntryModel>,
    w: Seq<char>,
    stale: Seq<char>,
    body: Seq<ValModel>,
    desc: Option<Seq<char>>,
)
    requires
        m.dom().contains(w),
        !m[w].builtin,
        m[w].dependents == Set::<Seq<char>>::empty(),
        m.dom().contains(stale),
        stale != w,
        tok_syms(m[w].body).contains(stale),
        !vms_syms(body).contains(stale),
    ensures
        spec_define(m, w, body, desc) is Ok,
        !(spec_define(m, w, body, desc)->Ok_0)[stale].dependents.contains(w),
{
    let m1 = strip_all(m, tok_syms(m[w].body), w);
    assert(m1[stale].dependents == m[stale].dependents.remove(w));
    let rf = vms_refs(body, m);
    assert(!rf.contains(stale));
    let m2 = m1.insert(w, spec_define_entry(m, w, body, desc));
    let m3 = add_all(m2, rf, w);
    assert(spec_define(m, w, body, desc) == Ok::<Map<Seq<char>, EntryModel>, ErrModel>(m3));
    assert(m3[stale].dependents == m[stale].dependents.remove(w));
}

} // verus!
