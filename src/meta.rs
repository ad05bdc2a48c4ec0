//! Meta-resources, that manage other resources.
use vstd::prelude::*;

use crate::resource::{
    identity,
    key_text,
    lemma_key_view,
    lemma_view_keys,
    view_keys,
    Ensurer,
    Key,
    KeyView,
    Resource,
    UnresolvedResource,
};

verus! {

/// A note that a resource was declared twice with different values; the
/// first value is kept.
pub struct Duplicate {
    /// The shared key, shown.
    pub key: String,
    /// The kept resource, shown.
    pub old: String,
    /// The resource that was not kept, shown.
    pub new: String,
}

/// A note of a duplicate declaration: the key shown, the kept resource shown,
/// and the resource that was not kept shown.
pub type Note = (Seq<char>, Seq<char>, Seq<char>);

/// Whether a resource with the identity is among the members.
pub open spec fn has_identity<R: Resource>(s: Seq<R::V>, id: (Seq<char>, KeyView)) -> bool {
    exists|i: int| 0 <= i < s.len() && identity::<R>(#[trigger] s[i]) == id
}

/// Whether a resource with the identity is among the first `n` members.
pub open spec fn present_before<R: Resource>(s: Seq<R::V>, n: int, id: (Seq<char>, KeyView)) -> bool {
    exists|j: int| 0 <= j < n && identity::<R>(#[trigger] s[j]) == id
}

/// The position of the member with the identity.
pub open spec fn index_of<R: Resource>(s: Seq<R::V>, id: (Seq<char>, KeyView)) -> int {
    choose|i: int| 0 <= i < s.len() && identity::<R>(#[trigger] s[i]) == id
}

/// At most one member for each identity.
pub open spec fn distinct_identities<R: Resource>(s: Seq<R::V>) -> bool {
    forall|i: int, j: int|
        0 <= i < s.len() && 0 <= j < s.len() && i != j ==> identity::<R>(#[trigger] s[i])
            != identity::<R>(#[trigger] s[j])
}

/// Each member comes after the resources that it needs.
pub open spec fn prerequisites_first<R: UnresolvedResource>(s: Seq<R::V>) -> bool {
    forall|i: int, k: int|
        0 <= i < s.len() && 0 <= k < R::prerequisites_of(s[i]).len() ==> present_before::<R>(
            s,
            i,
            identity::<R>(#[trigger] R::prerequisites_of(s[i])[k]),
        )
}

/// Registering a resource, on the members and the notes: a new identity is
/// added at the end; an equal value changes nothing; a different value with
/// the same identity is not kept, and one note is added.
pub open spec fn register_step<R: Resource>(st: (Seq<R::V>, Seq<Note>), v: R::V) -> (
    Seq<R::V>,
    Seq<Note>,
) {
    if has_identity::<R>(st.0, identity::<R>(v)) {
        let kept = st.0[index_of::<R>(st.0, identity::<R>(v))];
        if kept == v {
            st
        } else {
            (st.0, st.1.push((key_text(R::key_of(v)), R::describe_of(kept), R::describe_of(v))))
        }
    } else {
        (st.0.push(v), st.1)
    }
}

/// Ensuring a resource: its prerequisites are ensured first, in order, and
/// then it is registered.
pub open spec fn ensured<R: UnresolvedResource>(st: (Seq<R::V>, Seq<Note>), v: R::V) -> (
    Seq<R::V>,
    Seq<Note>,
)
    decreases R::depth_of(v), R::prerequisites_of(v).len() + 1,
{
    register_step::<R>(ensured_all::<R>(st, v, R::prerequisites_of(v)), v)
}

/// Ensuring, in order, the prerequisites `ps` of `parent` (those below it).
pub open spec fn ensured_all<R: UnresolvedResource>(
    st: (Seq<R::V>, Seq<Note>),
    parent: R::V,
    ps: Seq<R::V>,
) -> (Seq<R::V>, Seq<Note>)
    decreases R::depth_of(parent), ps.len(),
{
    if ps.len() == 0 {
        st
    } else {
        let before = ensured_all::<R>(st, parent, ps.drop_last());
        if R::depth_of(ps.last()) < R::depth_of(parent) {
            ensured::<R>(before, ps.last())
        } else {
            before
        }
    }
}

proof fn lemma_prefix_trans<A>(a: Seq<A>, b: Seq<A>, c: Seq<A>)
    requires
        a.len() <= b.len() <= c.len(),
        a == b.take(a.len() as int),
        b == c.take(b.len() as int),
    ensures
        a == c.take(a.len() as int),
{
    assert(a =~= c.take(a.len() as int));
}

/// A meta-resource that ensures that other resources are realized, in the
/// order that their dependencies ask for.
pub struct Reality<R> {
    resources: Vec<R>,
    duplicates: Vec<Duplicate>,
}

impl<R: UnresolvedResource> Reality<R> {
    /// The resources, in the order they were registered.
    pub closed spec fn members(&self) -> Seq<R> {
        self.resources@
    }

    /// The views of the resources, in the order they were registered.
    pub open spec fn views(&self) -> Seq<R::V> {
        self.members().map_values(|m: R| m@)
    }

    /// The duplicate declarations met so far.
    pub closed spec fn notes(&self) -> Seq<Note> {
        self.duplicates@.map_values(|d: Duplicate| (d.key@, d.old@, d.new@))
    }

    /// The members and the notes.
    pub open spec fn state(&self) -> (Seq<R::V>, Seq<Note>) {
        (self.views(), self.notes())
    }

    /// At most one member for each identity, each after what it needs.
    pub open spec fn wf(&self) -> bool {
        &&& distinct_identities::<R>(self.views())
        &&& prerequisites_first::<R>(self.views())
    }

    /// An empty reality.
    pub fn new() -> (r: Reality<R>)
        ensures
            r.wf(),
            r.members() == Seq::<R>::empty(),
            r.notes() == Seq::<Note>::empty(),
    {
        let r = Reality { resources: Vec::new(), duplicates: Vec::new() };
        assert(r.notes() =~= Seq::empty());
        assert(r.views() =~= Seq::empty());
        r
    }

    /// The resources, in the order they were registered.
    pub fn resources(&self) -> (r: &Vec<R>)
        ensures
            r@ == self.members(),
    {
        &self.resources
    }

    /// The duplicate declarations met so far.
    pub fn duplicates(&self) -> (r: &Vec<Duplicate>)
        ensures
            r@.map_values(|d: Duplicate| (d.key@, d.old@, d.new@)) == self.notes(),
    {
        &self.duplicates
    }

    /// The position of the member with the given kind and key, if any.
    fn position(&self, kind: &String, key: &Key) -> (r: Option<usize>)
        ensures
            match r {
                Some(i) => i < self.views().len() && identity::<R>(self.views()[i as int]) == (
                kind@,
                key@,
                ),
                None => !has_identity::<R>(self.views(), (kind@, key@)),
            },
    {
        let mut i: usize = 0;
        while i < self.resources.len()
            invariant
                0 <= i <= self.resources@.len(),
                forall|j: int| 0 <= j < i ==> identity::<R>(#[trigger] self.views()[j]) != (kind@, key@),
            decreases self.resources.len() - i,
        {
            let k = self.resources[i].kind();
            if k == *kind && self.resources[i].key().same(key) {
                return Some(i);
            }
            i = i + 1;
        }
        None
    }

    /// Registers a resource whose prerequisites are all members: it is added
    /// at the end unless a member has its identity. A member of the same
    /// identity but a different value is kept, and the duplicate is noted.
    pub fn register(&mut self, r: R)
        requires
            old(self).wf(),
            forall|k: int|
                0 <= k < R::prerequisites_of(r@).len() ==> has_identity::<R>(
                    old(self).views(),
                    identity::<R>(#[trigger] R::prerequisites_of(r@)[k]),
                ),
        ensures
            final(self).wf(),
            final(self).state() == register_step::<R>(old(self).state(), r@),
            old(self).members() == final(self).members().take(old(self).members().len() as int),
            old(self).members().len() <= final(self).members().len(),
    {
        let kind = r.kind();
        let key = r.key();
        match self.position(&kind, &key) {
            Some(i) => {
                proof {
                    let s = self.views();
                    let j = index_of::<R>(s, identity::<R>(r@));
                    assert(identity::<R>(s[i as int]) == identity::<R>(r@));
                    assert(j == i);
                }
                if !self.resources[i].equals(&r) {
                    let note = Duplicate {
                        key: key.to_text(),
                        old: self.resources[i].describe(),
                        new: r.describe(),
                    };
                    self.duplicates.push(note);
                    proof {
                        assert(self.notes() =~= old(self).notes().push(
                            (note.key@, note.old@, note.new@),
                        ));
                    }
                }
                assert(self.members() =~= old(self).members().take(old(self).members().len() as int));
            },
            None => {
                self.resources.push(r);
                proof {
                    let s = self.views();
                    let o = old(self).views();
                    let n = o.len() as int;
                    assert(s =~= o.push(r@));
                    assert forall|i: int, k: int|
                        0 <= i < s.len() && 0 <= k < R::prerequisites_of(s[i]).len() implies present_before::<R>(
                        s,
                        i,
                        identity::<R>(#[trigger] R::prerequisites_of(s[i])[k]),
                    ) by {
                        if i < n {
                            let id = identity::<R>(R::prerequisites_of(o[i])[k]);
                            assert(present_before::<R>(o, i, id));
                            let j = choose|j: int| 0 <= j < i && identity::<R>(#[trigger] o[j]) == id;
                            assert(s[j] == o[j]);
                        } else {
                            let id = identity::<R>(R::prerequisites_of(r@)[k]);
                            assert(has_identity::<R>(o, id));
                            let j = choose|j: int| 0 <= j < o.len() && identity::<R>(#[trigger] o[j]) == id;
                            assert(s[j] == o[j]);
                        }
                    }
                    assert(old(self).members() =~= self.members().take(n));
                }
            },
        }
    }

    /// Adds a resource to be realized, after the resources it needs: those
    /// are ensured first, in order, and then the resource is registered.
    pub fn ensure(&mut self, resource: R)
        requires
            old(self).wf(),
        ensures
            final(self).wf(),
            final(self).state() == ensured::<R>(old(self).state(), resource@),
            old(self).members().len() <= final(self).members().len(),
            old(self).members() == final(self).members().take(old(self).members().len() as int),
            has_identity::<R>(final(self).views(), identity::<R>(resource@)),
        decreases R::depth_of(resource@),
    {
        let mut pre = resource.implicit_ensure();
        let total: usize = pre.len();
        let ghost all = pre@;
        let ghost pv = R::prerequisites_of(resource@);
        let ghost start = self.members();
        let ghost start_state = self.state();
        let mut done: usize = 0;
        proof {
            assert(pv.take(0) =~= Seq::<R::V>::empty());
        }
        while pre.len() > 0
            invariant
                self.wf(),
                all.len() == pv.len(),
                pv == R::prerequisites_of(resource@),
                forall|i: int| 0 <= i < all.len() ==> (#[trigger] all[i])@ == pv[i],
                forall|i: int| 0 <= i < all.len() ==> R::depth_of((#[trigger] all[i])@) < R::depth_of(resource@),
                done + pre@.len() == all.len(),
                all.len() == total,
                pre@ == all.subrange(done as int, all.len() as int),
                start.len() <= self.members().len(),
                start == self.members().take(start.len() as int),
                self.state() == ensured_all::<R>(start_state, resource@, pv.take(done as int)),
                forall|k: int| 0 <= k < done ==> has_identity::<R>(self.views(), identity::<R>(#[trigger] pv[k])),
            decreases pre.len(),
        {
            let p = pre.remove(0);
            assert(p == all[done as int]);
            let ghost before = self.members();
            let ghost before_state = self.state();
            self.ensure(p);
            proof {
                let t = pv.take(done + 1);
                assert(t.drop_last() =~= pv.take(done as int));
                assert(t.last() == pv[done as int]);
                assert(self.state() == ensured_all::<R>(start_state, resource@, t));
                assert forall|k: int| 0 <= k < done + 1 implies has_identity::<R>(self.views(), identity::<R>(#[trigger] pv[k])) by {
                    if k < done {
                        let id = identity::<R>(pv[k]);
                        let bv = before_state.0;
                        let j = choose|j: int| 0 <= j < bv.len() && identity::<R>(#[trigger] bv[j]) == id;
                        assert(self.members().take(before.len() as int)[j] == self.members()[j]);
                        assert(self.views()[j] == bv[j]);
                    }
                }
                lemma_prefix_trans(start, before, self.members());
            }
            done = done + 1;
            assert(pre@ =~= all.subrange(done as int, all.len() as int));
        }
        proof {
            assert(pv.take(pv.len() as int) =~= pv);
        }
        let ghost before = self.members();
        self.register(resource);
        proof {
            lemma_prefix_trans(start, before, self.members());
            let s = self.views();
            let id = identity::<R>(resource@);
            if has_identity::<R>(before.map_values(|m: R| m@), id) {
                let bv = before.map_values(|m: R| m@);
                let j = choose|j: int| 0 <= j < bv.len() && identity::<R>(#[trigger] bv[j]) == id;
                assert(self.members().take(before.len() as int)[j] == self.members()[j]);
                assert(s[j] == bv[j]);
            } else {
                assert(s[before.len() as int] == resource@);
            }
        }
    }
}

impl<R: UnresolvedResource> Reality<R> {
    /// The key of a reality: the keys of its members, in order.
    pub fn key(&self) -> (r: Key)
        ensures
            r@ == KeyView::List(self.views().map_values(|v: R::V| R::key_of(v))),
    {
        let mut keys: Vec<Key> = Vec::new();
        let mut i: usize = 0;
        while i < self.resources.len()
            invariant
                0 <= i <= self.resources@.len(),
                keys@.len() == i,
                forall|j: int| 0 <= j < i ==> (#[trigger] keys@[j])@ == R::key_of(self.resources@[j]@),
            decreases self.resources.len() - i,
        {
            keys.push(self.resources[i].key());
            i = i + 1;
        }
        proof {
            lemma_view_keys(keys@);
            assert(view_keys(keys@) =~= self.views().map_values(|v: R::V| R::key_of(v)));
        }
        let r = Key::List(keys);
        proof {
            lemma_key_view(r);
        }
        r
    }

    /// How a reality is shown.
    pub fn describe(&self) -> (r: String)
        ensures
            r@ == "reality"@,
    {
        String::from_str("reality")
    }
}

impl<R: UnresolvedResource> Ensurer<R> for Reality<R> {
    open spec fn ready(&self) -> bool {
        self.wf()
    }

    fn ensure(&mut self, resource: R) {
        Reality::ensure(self, resource)
    }
}

/// Whatever was ensured, a reality holds exactly one member for each identity
/// that it has: declaring a resource again, any number of times, never adds a
/// second entry for it.
pub proof fn lemma_one_entry_per_identity<R: UnresolvedResource>(
    reality: Reality<R>,
    id: (Seq<char>, KeyView),
)
    requires
        reality.wf(),
        has_identity::<R>(reality.views(), id),
    ensures
        exists|i: int|
            0 <= i < reality.views().len() && identity::<R>(#[trigger] reality.views()[i]) == id
                && forall|j: int|
                0 <= j < reality.views().len() && identity::<R>(#[trigger] reality.views()[j]) == id
                    ==> j == i,
{
    let s = reality.views();
    let i = choose|i: int| 0 <= i < s.len() && identity::<R>(#[trigger] s[i]) == id;
    assert forall|j: int| 0 <= j < s.len() && identity::<R>(#[trigger] s[j]) == id implies j == i by {}
}

proof fn lemma_has_grows<R: Resource>(a: Seq<R::V>, b: Seq<R::V>, id: (Seq<char>, KeyView))
    requires
        has_identity::<R>(a, id),
        a.len() <= b.len(),
        a == b.take(a.len() as int),
    ensures
        has_identity::<R>(b, id),
{
    let j = choose|j: int| 0 <= j < a.len() && identity::<R>(#[trigger] a[j]) == id;
    assert(b.take(a.len() as int)[j] == b[j]);
}

/// Ensuring only adds members: those held before stay, in their places.
pub proof fn lemma_ensured_grows<R: UnresolvedResource>(st: (Seq<R::V>, Seq<Note>), v: R::V)
    ensures
        st.0.len() <= ensured::<R>(st, v).0.len(),
        st.0 == ensured::<R>(st, v).0.take(st.0.len() as int),
        has_identity::<R>(ensured::<R>(st, v).0, identity::<R>(v)),
    decreases R::depth_of(v), R::prerequisites_of(v).len() + 1,
{
    let mid = ensured_all::<R>(st, v, R::prerequisites_of(v));
    lemma_ensured_all_grows::<R>(st, v, R::prerequisites_of(v));
    let e = ensured::<R>(st, v);
    if !has_identity::<R>(mid.0, identity::<R>(v)) {
        assert(e.0 == mid.0.push(v));
        assert(mid.0 =~= e.0.take(mid.0.len() as int));
        assert(e.0[mid.0.len() as int] == v);
    } else {
        assert(mid.0 =~= e.0.take(mid.0.len() as int));
    }
    lemma_prefix_trans(st.0, mid.0, e.0);
}

/// Ensuring prerequisites only adds members, and holds each prerequisite
/// that is below its parent.
pub proof fn lemma_ensured_all_grows<R: UnresolvedResource>(
    st: (Seq<R::V>, Seq<Note>),
    parent: R::V,
    ps: Seq<R::V>,
)
    ensures
        st.0.len() <= ensured_all::<R>(st, parent, ps).0.len(),
        st.0 == ensured_all::<R>(st, parent, ps).0.take(st.0.len() as int),
        forall|k: int|
            0 <= k < ps.len() && R::depth_of(#[trigger] ps[k]) < R::depth_of(parent) ==> has_identity::<R>(
                ensured_all::<R>(st, parent, ps).0,
                identity::<R>(ps[k]),
            ),
    decreases R::depth_of(parent), ps.len(),
{
    if ps.len() > 0 {
        let init = ps.drop_last();
        let before = ensured_all::<R>(st, parent, init);
        lemma_ensured_all_grows::<R>(st, parent, init);
        let e = ensured_all::<R>(st, parent, ps);
        if R::depth_of(ps.last()) < R::depth_of(parent) {
            lemma_ensured_grows::<R>(before, ps.last());
            lemma_prefix_trans(st.0, before.0, e.0);
        } else {
            assert(e == before);
            assert(before.0 =~= e.0.take(before.0.len() as int));
        }
        assert forall|k: int|
            0 <= k < ps.len() && R::depth_of(#[trigger] ps[k]) < R::depth_of(parent) implies has_identity::<R>(
            e.0,
            identity::<R>(ps[k]),
        ) by {
            if k < ps.len() - 1 {
                assert(init[k] == ps[k]);
                lemma_has_grows::<R>(before.0, e.0, identity::<R>(ps[k]));
            }
        }
    } else {
        assert(st.0 =~= st.0.take(st.0.len() as int));
    }
}

/// Whether the resource's identity is held, and, in turn, that of each
/// resource it needs.
pub open spec fn covered<R: UnresolvedResource>(s: Seq<R::V>, v: R::V) -> bool
    decreases R::depth_of(v), R::prerequisites_of(v).len() + 1,
{
    has_identity::<R>(s, identity::<R>(v)) && covered_all::<R>(s, v, R::prerequisites_of(v))
}

/// Whether each of the prerequisites `ps` of `parent` that is below it is
/// covered.
pub open spec fn covered_all<R: UnresolvedResource>(s: Seq<R::V>, parent: R::V, ps: Seq<R::V>) -> bool
    decreases R::depth_of(parent), ps.len(),
{
    ps.len() == 0 || (covered_all::<R>(s, parent, ps.drop_last()) && (R::depth_of(ps.last())
        < R::depth_of(parent) ==> covered::<R>(s, ps.last())))
}

proof fn lemma_covered_grows<R: UnresolvedResource>(a: Seq<R::V>, b: Seq<R::V>, v: R::V)
    requires
        covered::<R>(a, v),
        a.len() <= b.len(),
        a == b.take(a.len() as int),
    ensures
        covered::<R>(b, v),
    decreases R::depth_of(v), R::prerequisites_of(v).len() + 1,
{
    lemma_has_grows::<R>(a, b, identity::<R>(v));
    lemma_covered_all_grows::<R>(a, b, v, R::prerequisites_of(v));
}

proof fn lemma_covered_all_grows<R: UnresolvedResource>(
    a: Seq<R::V>,
    b: Seq<R::V>,
    parent: R::V,
    ps: Seq<R::V>,
)
    requires
        covered_all::<R>(a, parent, ps),
        a.len() <= b.len(),
        a == b.take(a.len() as int),
    ensures
        covered_all::<R>(b, parent, ps),
    decreases R::depth_of(parent), ps.len(),
{
    if ps.len() > 0 {
        lemma_covered_all_grows::<R>(a, b, parent, ps.drop_last());
        if R::depth_of(ps.last()) < R::depth_of(parent) {
            lemma_covered_grows::<R>(a, b, ps.last());
        }
    }
}

proof fn lemma_covered_unchanged<R: UnresolvedResource>(st: (Seq<R::V>, Seq<Note>), v: R::V)
    requires
        covered::<R>(st.0, v),
    ensures
        ensured::<R>(st, v).0 == st.0,
    decreases R::depth_of(v), R::prerequisites_of(v).len() + 1,
{
    lemma_covered_all_unchanged::<R>(st, v, R::prerequisites_of(v));
}

proof fn lemma_covered_all_unchanged<R: UnresolvedResource>(
    st: (Seq<R::V>, Seq<Note>),
    parent: R::V,
    ps: Seq<R::V>,
)
    requires
        covered_all::<R>(st.0, parent, ps),
    ensures
        ensured_all::<R>(st, parent, ps).0 == st.0,
    decreases R::depth_of(parent), ps.len(),
{
    if ps.len() > 0 {
        lemma_covered_all_unchanged::<R>(st, parent, ps.drop_last());
        let before = ensured_all::<R>(st, parent, ps.drop_last());
        if R::depth_of(ps.last()) < R::depth_of(parent) {
            lemma_covered_unchanged::<R>(before, ps.last());
        }
    }
}

proof fn lemma_ensured_covers<R: UnresolvedResource>(st: (Seq<R::V>, Seq<Note>), v: R::V)
    ensures
        covered::<R>(ensured::<R>(st, v).0, v),
    decreases R::depth_of(v), R::prerequisites_of(v).len() + 1,
{
    let ps = R::prerequisites_of(v);
    let mid = ensured_all::<R>(st, v, ps);
    lemma_ensured_all_covers::<R>(st, v, ps);
    lemma_ensured_grows::<R>(st, v);
    let e = ensured::<R>(st, v);
    assert(mid.0 =~= e.0.take(mid.0.len() as int));
    lemma_covered_all_grows::<R>(mid.0, e.0, v, ps);
}

proof fn lemma_ensured_all_covers<R: UnresolvedResource>(
    st: (Seq<R::V>, Seq<Note>),
    parent: R::V,
    ps: Seq<R::V>,
)
    ensures
        covered_all::<R>(ensured_all::<R>(st, parent, ps).0, parent, ps),
    decreases R::depth_of(parent), ps.len(),
{
    if ps.len() > 0 {
        let init = ps.drop_last();
        let before = ensured_all::<R>(st, parent, init);
        lemma_ensured_all_covers::<R>(st, parent, init);
        let e = ensured_all::<R>(st, parent, ps);
        if R::depth_of(ps.last()) < R::depth_of(parent) {
            lemma_ensured_grows::<R>(before, ps.last());
            lemma_ensured_covers::<R>(before, ps.last());
            lemma_covered_all_grows::<R>(before.0, e.0, parent, init);
        }
    }
}

/// Declaring a resource again adds no member, whatever it is and however
/// often: after it has been ensured once, ensuring it again leaves the
/// members as they are.
pub proof fn lemma_redeclaration_adds_no_member<R: UnresolvedResource>(
    st: (Seq<R::V>, Seq<Note>),
    v: R::V,
)
    ensures
        ensured::<R>(ensured::<R>(st, v), v).0 == ensured::<R>(st, v).0,
{
    lemma_ensured_covers::<R>(st, v);
    lemma_covered_unchanged::<R>(ensured::<R>(st, v), v);
}

/// Ensuring the same resource `n` times in a row.
pub open spec fn ensured_times<R: UnresolvedResource>(st: (Seq<R::V>, Seq<Note>), v: R::V, n: nat) -> (
    Seq<R::V>,
    Seq<Note>,
)
    decreases n,
{
    if n == 0 {
        st
    } else {
        ensured::<R>(ensured_times::<R>(st, v, (n - 1) as nat), v)
    }
}

/// Declaring a resource any number of times holds the same members as
/// declaring it once: its identity has a single entry, and no other entry
/// is added by the repeats.
pub proof fn lemma_repeated_declaration<R: UnresolvedResource>(
    st: (Seq<R::V>, Seq<Note>),
    v: R::V,
    n: nat,
)
    requires
        n >= 1,
    ensures
        ensured_times::<R>(st, v, n).0 == ensured::<R>(st, v).0,
        covered::<R>(ensured_times::<R>(st, v, n).0, v),
    decreases n,
{
    if n == 1 {
        assert(ensured_times::<R>(st, v, 0) == st);
        lemma_ensured_covers::<R>(st, v);
    } else {
        lemma_repeated_declaration::<R>(st, v, (n - 1) as nat);
        let prev = ensured_times::<R>(st, v, (n - 1) as nat);
        lemma_covered_unchanged::<R>(prev, v);
    }
}

/// A resource whose identity is new is added as the last member, after all
/// the resources it needs.
pub proof fn lemma_new_resource_last<R: UnresolvedResource>(st: (Seq<R::V>, Seq<Note>), v: R::V)
    requires
        forall|k: int|
            0 <= k < R::prerequisites_of(v).len() ==> R::depth_of(#[trigger] R::prerequisites_of(v)[k])
                < R::depth_of(v),
        !has_identity::<R>(ensured_all::<R>(st, v, R::prerequisites_of(v)).0, identity::<R>(v)),
    ensures
        ensured::<R>(st, v).0 == ensured_all::<R>(st, v, R::prerequisites_of(v)).0.push(v),
        forall|k: int|
            0 <= k < R::prerequisites_of(v).len() ==> present_before::<R>(
                ensured::<R>(st, v).0,
                ensured::<R>(st, v).0.len() - 1,
                identity::<R>(#[trigger] R::prerequisites_of(v)[k]),
            ),
{
    let ps = R::prerequisites_of(v);
    let mid = ensured_all::<R>(st, v, ps);
    lemma_ensured_all_grows::<R>(st, v, ps);
    let e = ensured::<R>(st, v);
    assert forall|k: int| 0 <= k < ps.len() implies present_before::<R>(
        e.0,
        e.0.len() - 1,
        identity::<R>(#[trigger] ps[k]),
    ) by {
        assert(has_identity::<R>(mid.0, identity::<R>(ps[k])));
        let j = choose|j: int| 0 <= j < mid.0.len() && identity::<R>(#[trigger] mid.0[j]) == identity::<R>(ps[k]);
        assert(e.0[j] == mid.0[j]);
    }
}

/// Declaring again a resource that is held with an equal value, when its
/// prerequisites change nothing either, changes nothing: no member and no
/// note is added.
pub proof fn lemma_equal_redeclaration<R: UnresolvedResource>(st: (Seq<R::V>, Seq<Note>), v: R::V)
    requires
        ensured_all::<R>(st, v, R::prerequisites_of(v)) == st,
        has_identity::<R>(st.0, identity::<R>(v)),
        st.0[index_of::<R>(st.0, identity::<R>(v))] == v,
    ensures
        ensured::<R>(st, v) == st,
{
}

/// First declaration wins: declaring `b` where a different value `a` of the
/// same identity is held, when `b`'s prerequisites change nothing, keeps
/// the members as they are, `a` in its place, and adds exactly one note,
/// with the key and both descriptions.
pub proof fn lemma_first_declaration_wins<R: UnresolvedResource>(
    st: (Seq<R::V>, Seq<Note>),
    b: R::V,
)
    requires
        ensured_all::<R>(st, b, R::prerequisites_of(b)) == st,
        has_identity::<R>(st.0, identity::<R>(b)),
        st.0[index_of::<R>(st.0, identity::<R>(b))] != b,
    ensures
        ensured::<R>(st, b) == (
            st.0,
            st.1.push(
                (
                    key_text(R::key_of(b)),
                    R::describe_of(st.0[index_of::<R>(st.0, identity::<R>(b))]),
                    R::describe_of(b),
                ),
            ),
        ),
{
}

/// Resources of different kinds never collide: one whose identity is new is
/// added, with no note, even where a member of another kind has its key.
pub proof fn lemma_kinds_keep_apart<R: Resource>(st: (Seq<R::V>, Seq<Note>), v: R::V)
    requires
        !has_identity::<R>(st.0, identity::<R>(v)),
    ensures
        register_step::<R>(st, v) == (st.0.push(v), st.1),
{
}

/// In a reality, each resource that a member needs is held at an earlier
/// position than the member.
pub proof fn lemma_prerequisite_precedes<R: UnresolvedResource>(reality: Reality<R>, i: int, k: int)
    requires
        reality.wf(),
        0 <= i < reality.views().len(),
        0 <= k < R::prerequisites_of(reality.views()[i]).len(),
    ensures
        exists|j: int|
            0 <= j < i && identity::<R>(#[trigger] reality.views()[j]) == identity::<R>(
                R::prerequisites_of(reality.views()[i])[k],
            ),
{
    assert(present_before::<R>(
        reality.views(),
        i,
        identity::<R>(R::prerequisites_of(reality.views()[i])[k]),
    ));
}

} // verus!
