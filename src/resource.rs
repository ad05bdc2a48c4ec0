//! Definitions for resources and related types.
use vstd::prelude::*;

use vstd::std_specs::iter::IteratorSpec;

use crate::util::{debug_of_path, debug_of_str, path_debug, str_debug};

verus! {

/// A resource key, used to tell apart resources of the same kind.
pub enum Key {
    /// A composite key made of named fields, held in order of their names;
    /// built with `Key::fields`.
    Fields(FieldList),
    /// A composite key made of several ordered keys.
    List(Vec<Key>),
    /// A key based on a string value.
    String(String),
    /// A key based on a file system path.
    Path(String),
}

/// The named fields of a composite key, strictly ordered by name, so that
/// equal fields make equal keys whatever order they were given in.
pub struct FieldList {
    items: Vec<(String, Key)>,
}

impl FieldList {
    #[verifier::type_invariant]
    closed spec fn ordered(&self) -> bool {
        names_ordered(view_fields(self.items@))
    }
}

/// The mathematical value of a `Key`.
pub enum KeyView {
    Fields(Seq<(Seq<char>, KeyView)>),
    List(Seq<KeyView>),
    String(Seq<char>),
    Path(Seq<char>),
}

pub open spec fn view_keys(s: Seq<Key>) -> Seq<KeyView>
    decreases s,
{
    if s.len() == 0 {
        Seq::empty()
    } else {
        view_keys(s.drop_last()).push(s.last().view_key())
    }
}

pub open spec fn view_fields(s: Seq<(String, Key)>) -> Seq<(Seq<char>, KeyView)>
    decreases s,
{
    if s.len() == 0 {
        Seq::empty()
    } else {
        view_fields(s.drop_last()).push((s.last().0@, s.last().1.view_key()))
    }
}

impl Key {
    pub closed spec fn view_key(&self) -> KeyView
        decreases self,
    {
        match self {
            Key::Fields(fields) => KeyView::Fields(view_fields(fields.items@)),
            Key::List(items) => KeyView::List(view_keys(items@)),
            Key::String(s) => KeyView::String(s@),
            Key::Path(p) => KeyView::Path(p@),
        }
    }
}

impl View for Key {
    type V = KeyView;

    open spec fn view(&self) -> KeyView {
        self.view_key()
    }
}

/// The view of a list, string or path key.
pub proof fn lemma_key_view(k: Key)
    ensures
        k is List ==> k@ == KeyView::List(view_keys(k->List_0@)),
        k is String ==> k@ == KeyView::String(k->String_0@),
        k is Path ==> k@ == KeyView::Path(k->Path_0@),
        k is Fields ==> k@ is Fields,
{
}

pub proof fn lemma_view_keys(s: Seq<Key>)
    ensures
        view_keys(s).len() == s.len(),
        forall|i: int| 0 <= i < s.len() ==> #[trigger] view_keys(s)[i] == s[i].view_key(),
    decreases s.len(),
{
    if s.len() > 0 {
        lemma_view_keys(s.drop_last());
    }
}

pub proof fn lemma_view_fields(s: Seq<(String, Key)>)
    ensures
        view_fields(s).len() == s.len(),
        forall|i: int|
            0 <= i < s.len() ==> #[trigger] view_fields(s)[i] == (s[i].0@, s[i].1.view_key()),
    decreases s.len(),
{
    if s.len() > 0 {
        lemma_view_fields(s.drop_last());
    }
}

/// How a key is shown: fields in braces, lists in brackets, strings and paths
/// quoted.
pub open spec fn key_text(k: KeyView) -> Seq<char>
    decreases k,
{
    match k {
        KeyView::Fields(fs) => seq!['{'] + fields_text(fs) + seq!['}'],
        KeyView::List(ks) => seq!['['] + list_text(ks) + seq![']'],
        KeyView::String(s) => str_debug(s),
        KeyView::Path(p) => path_debug(p),
    }
}

/// The keys of a list, shown and separated by `", "`.
pub open spec fn list_text(ks: Seq<KeyView>) -> Seq<char>
    decreases ks,
{
    if ks.len() == 0 {
        Seq::empty()
    } else if ks.len() == 1 {
        key_text(ks[0])
    } else {
        list_text(ks.drop_last()) + seq![',', ' '] + key_text(ks.last())
    }
}

/// The fields of a composite key, each shown as `name: value` and separated
/// by `", "`.
pub open spec fn fields_text(fs: Seq<(Seq<char>, KeyView)>) -> Seq<char>
    decreases fs,
{
    if fs.len() == 0 {
        Seq::empty()
    } else if fs.len() == 1 {
        fs[0].0 + seq![':', ' '] + key_text(fs[0].1)
    } else {
        fields_text(fs.drop_last()) + seq![',', ' '] + fs.last().0 + seq![':', ' '] + key_text(
            fs.last().1,
        )
    }
}

impl Key {
    /// Whether two keys are the same, field by field and item by item.
    pub fn same(&self, other: &Key) -> (r: bool)
        ensures
            r == (self@ == other@),
        decreases self,
    {
        match (self, other) {
            (Key::Fields(FieldList { items: a }), Key::Fields(FieldList { items: b })) => {
                proof {
                    lemma_view_fields(a@);
                    lemma_view_fields(b@);
                }
                if a.len() != b.len() {
                    assert(view_fields(a@).len() != view_fields(b@).len());
                    return false;
                }
                let mut i: usize = 0;
                while i < a.len()
                    invariant
                        *self is Fields && self->Fields_0.items == *a,
                        *other is Fields && other->Fields_0.items == *b,
                        a.len() == b.len(),
                        0 <= i <= a.len(),
                        view_fields(a@).len() == a.len(),
                        view_fields(b@).len() == b.len(),
                        forall|j: int| 0 <= j < a.len() ==> #[trigger] view_fields(a@)[j] == (a@[j].0@, a@[j].1.view_key()),
                        forall|j: int| 0 <= j < b.len() ==> #[trigger] view_fields(b@)[j] == (b@[j].0@, b@[j].1.view_key()),
                        forall|j: int| 0 <= j < i ==> view_fields(a@)[j] == view_fields(b@)[j],
                    decreases a.len() - i,
                {
                    proof {
                        broadcast use vstd::std_specs::vec::axiom_vec_index_decreases;

                        assert(decreases_to!(*self => self->Fields_0));
                        assert(decreases_to!(self->Fields_0 => self->Fields_0.items));
                        assert(decreases_to!(*a => a[i as int]));
                        assert(decreases_to!(a[i as int] => a[i as int].1));
                        assert(decreases_to!(*self => a[i as int].1));
                    }
                    let same_name = a[i].0 == b[i].0;
                    if !same_name || !a[i].1.same(&b[i].1) {
                        assert(view_fields(a@)[i as int] != view_fields(b@)[i as int]);
                        return false;
                    }
                    i = i + 1;
                }
                assert(view_fields(a@) =~= view_fields(b@));
                true
            },
            (Key::List(a), Key::List(b)) => {
                proof {
                    lemma_view_keys(a@);
                    lemma_view_keys(b@);
                }
                if a.len() != b.len() {
                    assert(view_keys(a@).len() != view_keys(b@).len());
                    return false;
                }
                let mut i: usize = 0;
                while i < a.len()
                    invariant
                        *self == Key::List(*a),
                        *other == Key::List(*b),
                        a.len() == b.len(),
                        0 <= i <= a.len(),
                        view_keys(a@).len() == a.len(),
                        view_keys(b@).len() == b.len(),
                        forall|j: int| 0 <= j < a.len() ==> #[trigger] view_keys(a@)[j] == a@[j].view_key(),
                        forall|j: int| 0 <= j < b.len() ==> #[trigger] view_keys(b@)[j] == b@[j].view_key(),
                        forall|j: int| 0 <= j < i ==> view_keys(a@)[j] == view_keys(b@)[j],
                    decreases a.len() - i,
                {
                    proof {
                        broadcast use vstd::std_specs::vec::axiom_vec_index_decreases;

                        assert(decreases_to!(*self => self->List_0));
                        assert(decreases_to!(*a => a[i as int]));
                        assert(decreases_to!(*self => a[i as int]));
                    }
                    if !a[i].same(&b[i]) {
                        assert(view_keys(a@)[i as int] != view_keys(b@)[i as int]);
                        return false;
                    }
                    i = i + 1;
                }
                assert(view_keys(a@) =~= view_keys(b@));
                true
            },
            (Key::String(a), Key::String(b)) => *a == *b,
            (Key::Path(a), Key::Path(b)) => *a == *b,
            _ => false,
        }
    }
}

impl Key {
    /// Shows the key: `{name: value, ...}` for fields, `[v1, v2, ...]` for
    /// lists, strings and paths quoted.
    pub fn to_text(&self) -> (r: String)
        ensures
            r@ == key_text(self@),
        decreases self,
    {
        match self {
            Key::Fields(FieldList { items: a }) => {
                proof {
                    lemma_view_fields(a@);
                }
                let ghost fs = view_fields(a@);
                let mut out = String::from_str("{");
                proof {
                    reveal_strlit("{");
                    assert(fs.take(0) =~= Seq::empty());
                    assert(out@ =~= seq!['{'] + fields_text(fs.take(0)));
                }
                let mut i: usize = 0;
                while i < a.len()
                    invariant
                        *self is Fields && self->Fields_0.items == *a,
                        fs == view_fields(a@),
                        fs.len() == a.len(),
                        forall|j: int| 0 <= j < a.len() ==> #[trigger] fs[j] == (a@[j].0@, a@[j].1.view_key()),
                        0 <= i <= a.len(),
                        out@ == seq!['{'] + fields_text(fs.take(i as int)),
                    decreases a.len() - i,
                {
                    proof {
                        broadcast use vstd::std_specs::vec::axiom_vec_index_decreases;

                        assert(decreases_to!(*self => self->Fields_0));
                        assert(decreases_to!(self->Fields_0 => self->Fields_0.items));
                        assert(decreases_to!(*a => a[i as int]));
                        assert(decreases_to!(a[i as int] => a[i as int].1));
                    }
                    let value = a[i].1.to_text();
                    if i > 0 {
                        out.append(", ");
                    }
                    out.append(a[i].0.as_str());
                    out.append(": ");
                    out.append(value.as_str());
                    proof {
                        reveal_strlit(", ");
                        reveal_strlit(": ");
                        let t = fs.take(i + 1);
                        assert(t.drop_last() =~= fs.take(i as int));
                        assert(t.last() == fs[i as int]);
                        assert(out@ =~= seq!['{'] + fields_text(t));
                    }
                    i = i + 1;
                }
                out.append("}");
                proof {
                    reveal_strlit("}");
                    assert(fs.take(a.len() as int) =~= fs);
                }
                out
            },
            Key::List(a) => {
                proof {
                    lemma_view_keys(a@);
                }
                let ghost ks = view_keys(a@);
                let mut out = String::from_str("[");
                proof {
                    reveal_strlit("[");
                    assert(ks.take(0) =~= Seq::empty());
                    assert(out@ =~= seq!['['] + list_text(ks.take(0)));
                }
                let mut i: usize = 0;
                while i < a.len()
                    invariant
                        *self == Key::List(*a),
                        ks == view_keys(a@),
                        ks.len() == a.len(),
                        forall|j: int| 0 <= j < a.len() ==> #[trigger] ks[j] == a@[j].view_key(),
                        0 <= i <= a.len(),
                        out@ == seq!['['] + list_text(ks.take(i as int)),
                    decreases a.len() - i,
                {
                    proof {
                        broadcast use vstd::std_specs::vec::axiom_vec_index_decreases;

                        assert(decreases_to!(*self => self->List_0));
                        assert(decreases_to!(*a => a[i as int]));
                    }
                    let item = a[i].to_text();
                    if i > 0 {
                        out.append(", ");
                    }
                    out.append(item.as_str());
                    proof {
                        reveal_strlit(", ");
                        let t = ks.take(i + 1);
                        assert(t.drop_last() =~= ks.take(i as int));
                        assert(t.last() == ks[i as int]);
                        assert(out@ =~= seq!['['] + list_text(t));
                    }
                    i = i + 1;
                }
                out.append("]");
                proof {
                    reveal_strlit("]");
                    assert(ks.take(a.len() as int) =~= ks);
                }
                out
            },
            Key::String(s) => debug_of_str(s.as_str()),
            Key::Path(p) => debug_of_path(p.as_str()),
        }
    }
}

/// Three-way comparison of texts, character by character: negative, zero or
/// positive as `a` comes before, equals or comes after `b`.
pub open spec fn text_cmp(a: Seq<char>, b: Seq<char>) -> int
    decreases a.len(),
{
    if a.len() == 0 {
        if b.len() == 0 {
            0
        } else {
            -1
        }
    } else if b.len() == 0 {
        1
    } else if a[0] < b[0] {
        -1
    } else if a[0] > b[0] {
        1
    } else {
        text_cmp(a.drop_first(), b.drop_first())
    }
}

/// The place of a key's variant in the order of keys.
pub open spec fn variant_rank(k: KeyView) -> int {
    match k {
        KeyView::Fields(_) => 0,
        KeyView::List(_) => 1,
        KeyView::String(_) => 2,
        KeyView::Path(_) => 3,
    }
}

/// Three-way comparison of keys: by variant first, then by content; lists and
/// fields item by item, a field by its name and then its value.
pub open spec fn key_cmp(a: KeyView, b: KeyView) -> int
    decreases a,
{
    match (a, b) {
        (KeyView::Fields(x), KeyView::Fields(y)) => fields_cmp(x, y),
        (KeyView::List(x), KeyView::List(y)) => list_cmp(x, y),
        (KeyView::String(x), KeyView::String(y)) => text_cmp(x, y),
        (KeyView::Path(x), KeyView::Path(y)) => text_cmp(x, y),
        _ => if variant_rank(a) < variant_rank(b) {
            -1
        } else {
            1
        },
    }
}

pub open spec fn list_cmp(x: Seq<KeyView>, y: Seq<KeyView>) -> int
    decreases x,
{
    if x.len() == 0 {
        if y.len() == 0 {
            0
        } else {
            -1
        }
    } else if y.len() == 0 {
        1
    } else if key_cmp(x[0], y[0]) != 0 {
        key_cmp(x[0], y[0])
    } else {
        list_cmp(x.drop_first(), y.drop_first())
    }
}

pub open spec fn fields_cmp(x: Seq<(Seq<char>, KeyView)>, y: Seq<(Seq<char>, KeyView)>) -> int
    decreases x,
{
    if x.len() == 0 {
        if y.len() == 0 {
            0
        } else {
            -1
        }
    } else if y.len() == 0 {
        1
    } else if text_cmp(x[0].0, y[0].0) != 0 {
        text_cmp(x[0].0, y[0].0)
    } else if key_cmp(x[0].1, y[0].1) != 0 {
        key_cmp(x[0].1, y[0].1)
    } else {
        fields_cmp(x.drop_first(), y.drop_first())
    }
}

/// The ordering that a three-way comparison stands for.
pub open spec fn ordering_of(c: int) -> std::cmp::Ordering {
    if c < 0 {
        std::cmp::Ordering::Less
    } else if c == 0 {
        std::cmp::Ordering::Equal
    } else {
        std::cmp::Ordering::Greater
    }
}

/// The characters of a string, in order.
fn chars_of(s: &str) -> (r: Vec<char>)
    ensures
        r@ == s@,
{
    broadcast use vstd::string::group_string_axioms;

    let mut it = s.chars();
    let mut r: Vec<char> = Vec::new();
    loop
        invariant
            it.obeys_prophetic_iter_laws(),
            r@.len() <= s@.len(),
            r@ == s@.subrange(0, r@.len() as int),
            it.remaining() == s@.subrange(r@.len() as int, s@.len() as int),
        decreases s@.len() - r@.len(),
    {
        match it.next() {
            Some(c) => {
                r.push(c);
                assert(r@ =~= s@.subrange(0, r@.len() as int));
                assert(it.remaining() =~= s@.subrange(r@.len() as int, s@.len() as int));
            },
            None => {
                assert(r@ =~= s@);
                return r;
            },
        }
    }
}

/// Compares two texts character by character.
pub fn compare_text(a: &str, b: &str) -> (r: std::cmp::Ordering)
    ensures
        r == ordering_of(text_cmp(a@, b@)),
{
    let x = chars_of(a);
    let y = chars_of(b);
    let mut i: usize = 0;
    assert(a@.skip(0) =~= a@);
    assert(b@.skip(0) =~= b@);
    while i < x.len() && i < y.len()
        invariant
            x@ == a@,
            y@ == b@,
            0 <= i <= x@.len(),
            i <= y@.len(),
            text_cmp(a@, b@) == text_cmp(a@.skip(i as int), b@.skip(i as int)),
        decreases x.len() - i,
    {
        let ghost (u, v) = (a@.skip(i as int), b@.skip(i as int));
        assert(u[0] == x@[i as int]);
        assert(v[0] == y@[i as int]);
        if x[i] < y[i] {
            return std::cmp::Ordering::Less;
        }
        if x[i] > y[i] {
            return std::cmp::Ordering::Greater;
        }
        assert(u.drop_first() =~= a@.skip(i + 1));
        assert(v.drop_first() =~= b@.skip(i + 1));
        i = i + 1;
    }
    if i < x.len() {
        std::cmp::Ordering::Greater
    } else if i < y.len() {
        std::cmp::Ordering::Less
    } else {
        std::cmp::Ordering::Equal
    }
}

impl Key {
    /// Compares two keys: by variant first (fields, list, string, path), then
    /// by content.
    pub fn compare(&self, other: &Key) -> (r: std::cmp::Ordering)
        ensures
            r == ordering_of(key_cmp(self@, other@)),
        decreases self,
    {
        match (self, other) {
            (Key::Fields(FieldList { items: a }), Key::Fields(FieldList { items: b })) => {
                proof {
                    lemma_view_fields(a@);
                    lemma_view_fields(b@);
                }
                let ghost (fa, fb) = (view_fields(a@), view_fields(b@));
                let mut i: usize = 0;
                assert(fa.skip(0) =~= fa);
                assert(fb.skip(0) =~= fb);
                while i < a.len() && i < b.len()
                    invariant
                        *self is Fields && self->Fields_0.items == *a,
                        fa == view_fields(a@),
                        fb == view_fields(b@),
                        fa.len() == a.len(),
                        fb.len() == b.len(),
                        forall|j: int| 0 <= j < a.len() ==> #[trigger] fa[j] == (a@[j].0@, a@[j].1.view_key()),
                        forall|j: int| 0 <= j < b.len() ==> #[trigger] fb[j] == (b@[j].0@, b@[j].1.view_key()),
                        0 <= i <= a.len(),
                        i <= b.len(),
                        key_cmp(self@, other@) == fields_cmp(fa.skip(i as int), fb.skip(i as int)),
                    decreases a.len() - i,
                {
                    proof {
                        broadcast use vstd::std_specs::vec::axiom_vec_index_decreases;

                        assert(decreases_to!(*self => self->Fields_0));
                        assert(decreases_to!(self->Fields_0 => self->Fields_0.items));
                        assert(decreases_to!(*a => a[i as int]));
                        assert(decreases_to!(a[i as int] => a[i as int].1));
                    }
                    let ghost (u, v) = (fa.skip(i as int), fb.skip(i as int));
                    assert(u[0] == fa[i as int]);
                    assert(v[0] == fb[i as int]);
                    let c = compare_text(a[i].0.as_str(), b[i].0.as_str());
                    match c {
                        std::cmp::Ordering::Equal => {},
                        _ => {
                            return c;
                        },
                    }
                    let c = a[i].1.compare(&b[i].1);
                    match c {
                        std::cmp::Ordering::Equal => {},
                        _ => {
                            return c;
                        },
                    }
                    assert(u.drop_first() =~= fa.skip(i + 1));
                    assert(v.drop_first() =~= fb.skip(i + 1));
                    i = i + 1;
                }
                if i < a.len() {
                    std::cmp::Ordering::Greater
                } else if i < b.len() {
                    std::cmp::Ordering::Less
                } else {
                    std::cmp::Ordering::Equal
                }
            },
            (Key::List(a), Key::List(b)) => {
                proof {
                    lemma_view_keys(a@);
                    lemma_view_keys(b@);
                }
                let ghost (ka, kb) = (view_keys(a@), view_keys(b@));
                let mut i: usize = 0;
                assert(ka.skip(0) =~= ka);
                assert(kb.skip(0) =~= kb);
                while i < a.len() && i < b.len()
                    invariant
                        *self == Key::List(*a),
                        ka == view_keys(a@),
                        kb == view_keys(b@),
                        ka.len() == a.len(),
                        kb.len() == b.len(),
                        forall|j: int| 0 <= j < a.len() ==> #[trigger] ka[j] == a@[j].view_key(),
                        forall|j: int| 0 <= j < b.len() ==> #[trigger] kb[j] == b@[j].view_key(),
                        0 <= i <= a.len(),
                        i <= b.len(),
                        key_cmp(self@, other@) == list_cmp(ka.skip(i as int), kb.skip(i as int)),
                    decreases a.len() - i,
                {
                    proof {
                        broadcast use vstd::std_specs::vec::axiom_vec_index_decreases;

                        assert(decreases_to!(*self => self->List_0));
                        assert(decreases_to!(*a => a[i as int]));
                    }
                    let ghost (u, v) = (ka.skip(i as int), kb.skip(i as int));
                    assert(u[0] == ka[i as int]);
                    assert(v[0] == kb[i as int]);
                    let c = a[i].compare(&b[i]);
                    match c {
                        std::cmp::Ordering::Equal => {},
                        _ => {
                            return c;
                        },
                    }
                    assert(u.drop_first() =~= ka.skip(i + 1));
                    assert(v.drop_first() =~= kb.skip(i + 1));
                    i = i + 1;
                }
                if i < a.len() {
                    std::cmp::Ordering::Greater
                } else if i < b.len() {
                    std::cmp::Ordering::Less
                } else {
                    std::cmp::Ordering::Equal
                }
            },
            (Key::String(a), Key::String(b)) => compare_text(a.as_str(), b.as_str()),
            (Key::Path(a), Key::Path(b)) => compare_text(a.as_str(), b.as_str()),
            _ => {
                if self.rank() < other.rank() {
                    std::cmp::Ordering::Less
                } else {
                    std::cmp::Ordering::Greater
                }
            },
        }
    }

    fn rank(&self) -> (r: u8)
        ensures
            r as int == variant_rank(self@),
    {
        match self {
            Key::Fields(_) => 0,
            Key::List(_) => 1,
            Key::String(_) => 2,
            Key::Path(_) => 3,
        }
    }
}

pub proof fn lemma_text_cmp_antisymmetric(a: Seq<char>, b: Seq<char>)
    ensures
        text_cmp(a, b) == -text_cmp(b, a),
        text_cmp(a, b) == 0 <==> a == b,
    decreases a.len(),
{
    if a.len() > 0 && b.len() > 0 && a[0] == b[0] {
        lemma_text_cmp_antisymmetric(a.drop_first(), b.drop_first());
        if a.drop_first() == b.drop_first() {
            assert(a =~= seq![a[0]] + a.drop_first());
            assert(b =~= seq![b[0]] + b.drop_first());
        }
    } else if a.len() > 0 && b.len() > 0 {
        assert(a[0] < b[0] || a[0] > b[0]);
        assert(a != b);
    } else {
        assert(a.len() == 0 || b.len() == 0);
        if a.len() == 0 && b.len() == 0 {
            assert(a =~= b);
        }
    }
}

pub proof fn lemma_text_cmp_transitive(a: Seq<char>, b: Seq<char>, c: Seq<char>)
    requires
        text_cmp(a, b) < 0,
        text_cmp(b, c) < 0,
    ensures
        text_cmp(a, c) < 0,
    decreases a.len(),
{
    if a.len() > 0 && b.len() > 0 && c.len() > 0 && a[0] == b[0] && b[0] == c[0] {
        lemma_text_cmp_transitive(a.drop_first(), b.drop_first(), c.drop_first());
    }
}

/// Keys are ordered consistently: swapping two keys flips their comparison,
/// and two keys compare as equal exactly when they are the same key.
pub proof fn lemma_key_cmp_antisymmetric(a: KeyView, b: KeyView)
    ensures
        key_cmp(a, b) == -key_cmp(b, a),
        key_cmp(a, b) == 0 <==> a == b,
    decreases a,
{
    match (a, b) {
        (KeyView::Fields(x), KeyView::Fields(y)) => lemma_fields_cmp_antisymmetric(x, y),
        (KeyView::List(x), KeyView::List(y)) => lemma_list_cmp_antisymmetric(x, y),
        (KeyView::String(x), KeyView::String(y)) => lemma_text_cmp_antisymmetric(x, y),
        (KeyView::Path(x), KeyView::Path(y)) => lemma_text_cmp_antisymmetric(x, y),
        _ => {},
    }
}

pub proof fn lemma_list_cmp_antisymmetric(x: Seq<KeyView>, y: Seq<KeyView>)
    ensures
        list_cmp(x, y) == -list_cmp(y, x),
        list_cmp(x, y) == 0 <==> x == y,
    decreases x,
{
    if x.len() > 0 && y.len() > 0 {
        lemma_key_cmp_antisymmetric(x[0], y[0]);
        lemma_list_cmp_antisymmetric(x.drop_first(), y.drop_first());
        if x[0] == y[0] && x.drop_first() == y.drop_first() {
            assert(x =~= seq![x[0]] + x.drop_first());
            assert(y =~= seq![y[0]] + y.drop_first());
        }
    } else if x.len() == 0 && y.len() == 0 {
        assert(x =~= y);
    }
}

pub proof fn lemma_fields_cmp_antisymmetric(
    x: Seq<(Seq<char>, KeyView)>,
    y: Seq<(Seq<char>, KeyView)>,
)
    ensures
        fields_cmp(x, y) == -fields_cmp(y, x),
        fields_cmp(x, y) == 0 <==> x == y,
    decreases x,
{
    if x.len() > 0 && y.len() > 0 {
        lemma_text_cmp_antisymmetric(x[0].0, y[0].0);
        lemma_key_cmp_antisymmetric(x[0].1, y[0].1);
        lemma_fields_cmp_antisymmetric(x.drop_first(), y.drop_first());
        if x[0] == y[0] && x.drop_first() == y.drop_first() {
            assert(x =~= seq![x[0]] + x.drop_first());
            assert(y =~= seq![y[0]] + y.drop_first());
        }
    } else if x.len() == 0 && y.len() == 0 {
        assert(x =~= y);
    }
}

/// The order of keys is transitive.
pub proof fn lemma_key_cmp_transitive(a: KeyView, b: KeyView, c: KeyView)
    requires
        key_cmp(a, b) < 0,
        key_cmp(b, c) < 0,
    ensures
        key_cmp(a, c) < 0,
    decreases a,
{
    match (a, b, c) {
        (KeyView::Fields(x), KeyView::Fields(y), KeyView::Fields(z)) => lemma_fields_cmp_transitive(x, y, z),
        (KeyView::List(x), KeyView::List(y), KeyView::List(z)) => lemma_list_cmp_transitive(x, y, z),
        (KeyView::String(x), KeyView::String(y), KeyView::String(z)) => lemma_text_cmp_transitive(x, y, z),
        (KeyView::Path(x), KeyView::Path(y), KeyView::Path(z)) => lemma_text_cmp_transitive(x, y, z),
        _ => {},
    }
}

pub proof fn lemma_list_cmp_transitive(x: Seq<KeyView>, y: Seq<KeyView>, z: Seq<KeyView>)
    requires
        list_cmp(x, y) < 0,
        list_cmp(y, z) < 0,
    ensures
        list_cmp(x, z) < 0,
    decreases x,
{
    if x.len() > 0 && y.len() > 0 && z.len() > 0 {
        lemma_key_cmp_antisymmetric(x[0], y[0]);
        lemma_key_cmp_antisymmetric(y[0], z[0]);
        if key_cmp(x[0], y[0]) < 0 && key_cmp(y[0], z[0]) < 0 {
            lemma_key_cmp_transitive(x[0], y[0], z[0]);
        } else if key_cmp(x[0], y[0]) == 0 && key_cmp(y[0], z[0]) == 0 {
            lemma_list_cmp_transitive(x.drop_first(), y.drop_first(), z.drop_first());
        }
    }
}

pub proof fn lemma_fields_cmp_transitive(
    x: Seq<(Seq<char>, KeyView)>,
    y: Seq<(Seq<char>, KeyView)>,
    z: Seq<(Seq<char>, KeyView)>,
)
    requires
        fields_cmp(x, y) < 0,
        fields_cmp(y, z) < 0,
    ensures
        fields_cmp(x, z) < 0,
    decreases x,
{
    if x.len() > 0 && y.len() > 0 && z.len() > 0 {
        lemma_text_cmp_antisymmetric(x[0].0, y[0].0);
        lemma_text_cmp_antisymmetric(y[0].0, z[0].0);
        lemma_key_cmp_antisymmetric(x[0].1, y[0].1);
        lemma_key_cmp_antisymmetric(y[0].1, z[0].1);
        let (n1, n2) = (text_cmp(x[0].0, y[0].0), text_cmp(y[0].0, z[0].0));
        if n1 < 0 && n2 < 0 {
            lemma_text_cmp_transitive(x[0].0, y[0].0, z[0].0);
        } else if n1 == 0 && n2 == 0 {
            let (v1, v2) = (key_cmp(x[0].1, y[0].1), key_cmp(y[0].1, z[0].1));
            if v1 < 0 && v2 < 0 {
                lemma_key_cmp_transitive(x[0].1, y[0].1, z[0].1);
            } else if v1 == 0 && v2 == 0 {
                lemma_fields_cmp_transitive(x.drop_first(), y.drop_first(), z.drop_first());
            }
        }
    }
}

/// The fields named by a list of (name, value) pairs: a later pair with the
/// same name replaces an earlier one.
pub open spec fn fields_map(s: Seq<(Seq<char>, KeyView)>) -> Map<Seq<char>, KeyView>
    decreases s.len(),
{
    if s.len() == 0 {
        Map::empty()
    } else {
        fields_map(s.drop_last()).insert(s.last().0, s.last().1)
    }
}

/// Fields strictly ordered by name, so each name comes once.
pub open spec fn names_ordered(fs: Seq<(Seq<char>, KeyView)>) -> bool {
    forall|i: int, j: int| 0 <= i < j < fs.len() ==> text_cmp(#[trigger] fs[i].0, #[trigger] fs[j].0) < 0
}

/// Fields ordered by name that hold exactly the named values of the map.
pub open spec fn canonical_fields(fs: Seq<(Seq<char>, KeyView)>, m: Map<Seq<char>, KeyView>) -> bool {
    &&& names_ordered(fs)
    &&& forall|n: Seq<char>| m.contains_key(n) <==> exists|i: int| 0 <= i < fs.len() && (#[trigger] fs[i]).0 == n
    &&& forall|i: int| 0 <= i < fs.len() ==> m.contains_key((#[trigger] fs[i]).0) && m[fs[i].0] == fs[i].1
}

impl Key {
    /// A composite key from named fields, held in order of their names so
    /// that equal fields make equal keys whatever order they came in. Where a
    /// name comes twice, the later value is kept.
    pub fn fields(pairs: Vec<(String, Key)>) -> (r: Key)
        ensures
            r@ is Fields,
            canonical_fields(r@->Fields_0, fields_map(view_fields(pairs@))),
    {
        proof {
            lemma_view_fields(pairs@);
        }
        let ghost input = view_fields(pairs@);
        let mut rest = pairs;
        let mut out: Vec<(String, Key)> = Vec::new();
        let ghost mut taken: int = 0;
        proof {
            lemma_view_fields(out@);
            assert(input.take(0) =~= Seq::empty());
        }
        while rest.len() > 0
            invariant
                input.len() == taken + rest@.len(),
                0 <= taken <= input.len(),
                forall|j: int| 0 <= j < rest@.len() ==> #[trigger] input[taken + j] == (rest@[j].0@, rest@[j].1.view_key()),
                canonical_fields(view_fields(out@), fields_map(input.take(taken))),
            decreases rest.len(),
        {
            let ghost before_rest = rest@;
            let (name, value) = rest.remove(0);
            let ghost entry = (name@, value.view_key());
            assert(input[taken + 0] == (before_rest[0].0@, before_rest[0].1.view_key()));
            assert(entry == input[taken]);
            proof {
                lemma_view_fields(out@);
            }
            let ghost fs = view_fields(out@);
            let ghost m = fields_map(input.take(taken));
            let mut p: usize = 0;
            while p < out.len()
                invariant
                    fs == view_fields(out@),
                    fs.len() == out@.len(),
                    forall|j: int| 0 <= j < out@.len() ==> #[trigger] fs[j] == (out@[j].0@, out@[j].1.view_key()),
                    0 <= p <= out@.len(),
                    forall|j: int| 0 <= j < p ==> text_cmp(#[trigger] fs[j].0, name@) < 0,
                ensures
                    0 <= p <= out@.len(),
                    forall|j: int| 0 <= j < p ==> text_cmp(#[trigger] fs[j].0, name@) < 0,
                    p < out@.len() ==> text_cmp(fs[p as int].0, name@) >= 0,
                decreases out.len() - p,
            {
                match compare_text(out[p].0.as_str(), name.as_str()) {
                    std::cmp::Ordering::Less => {},
                    _ => break,
                }
                p = p + 1;
            }
            let ghost m2 = m.insert(entry.0, entry.1);
            assert(input.take(taken + 1).drop_last() =~= input.take(taken));
            assert(fields_map(input.take(taken + 1)) == m2);
            let same = p < out.len() && matches!(
                compare_text(out[p].0.as_str(), name.as_str()),
                std::cmp::Ordering::Equal
            );
            if same {
                out.set(p, (name, value));
                proof {
                    lemma_view_fields(out@);
                    let gs = view_fields(out@);
                    lemma_text_cmp_antisymmetric(fs[p as int].0, entry.0);
                    assert(fs[p as int].0 == entry.0);
                    assert forall|j: int| 0 <= j < gs.len() && j != p implies (#[trigger] gs[j]) == fs[j] by {}
                    assert(gs[p as int] == entry);
                    assert forall|i: int, j: int| 0 <= i < j < gs.len() implies text_cmp(#[trigger] gs[i].0, #[trigger] gs[j].0) < 0 by {
                        assert(gs[i].0 == fs[i].0);
                        assert(gs[j].0 == fs[j].0);
                    }
                    assert forall|n: Seq<char>| m2.contains_key(n) <==> exists|i: int| 0 <= i < gs.len() && (#[trigger] gs[i]).0 == n by {
                        if m2.contains_key(n) && n != entry.0 {
                            let i = choose|i: int| 0 <= i < fs.len() && (#[trigger] fs[i]).0 == n;
                            assert(gs[i].0 == n);
                        }
                        if n == entry.0 {
                            assert(gs[p as int].0 == n);
                        }
                        if exists|i: int| 0 <= i < gs.len() && (#[trigger] gs[i]).0 == n {
                            let i = choose|i: int| 0 <= i < gs.len() && (#[trigger] gs[i]).0 == n;
                            if i != p {
                                assert(fs[i].0 == n);
                            }
                        }
                    }
                    assert forall|i: int| 0 <= i < gs.len() implies m2.contains_key((#[trigger] gs[i]).0) && m2[gs[i].0] == gs[i].1 by {
                        if i != p {
                            assert(gs[i] == fs[i]);
                            if i < p {
                                lemma_text_cmp_antisymmetric(fs[i].0, fs[p as int].0);
                            } else {
                                lemma_text_cmp_antisymmetric(fs[p as int].0, fs[i].0);
                            }
                        }
                    }
                }
            } else {
                out.insert(p, (name, value));
                proof {
                    lemma_view_fields(out@);
                    let gs = view_fields(out@);
                    assert forall|j: int| 0 <= j < p implies (#[trigger] gs[j]) == fs[j] by {}
                    assert forall|j: int| p < j < gs.len() implies (#[trigger] gs[j]) == fs[j - 1] by {}
                    assert(gs[p as int] == entry);
                    if p < fs.len() {
                        lemma_text_cmp_antisymmetric(fs[p as int].0, entry.0);
                        assert(text_cmp(entry.0, fs[p as int].0) < 0);
                    }
                    assert forall|i: int, j: int| 0 <= i < j < gs.len() implies text_cmp(#[trigger] gs[i].0, #[trigger] gs[j].0) < 0 by {
                        if j == p {
                            assert(gs[i] == fs[i]);
                        } else if i == p {
                            assert(gs[j] == fs[j - 1]);
                            if j - 1 > p {
                                lemma_text_cmp_transitive(entry.0, fs[p as int].0, fs[j - 1].0);
                            }
                        } else if j < p {
                            assert(gs[i] == fs[i]);
                            assert(gs[j] == fs[j]);
                        } else if i < p {
                            assert(gs[i] == fs[i]);
                            assert(gs[j] == fs[j - 1]);
                        } else {
                            assert(gs[i] == fs[i - 1]);
                            assert(gs[j] == fs[j - 1]);
                        }
                    }
                    assert(!m.contains_key(entry.0)) by {
                        if m.contains_key(entry.0) {
                            let i = choose|i: int| 0 <= i < fs.len() && (#[trigger] fs[i]).0 == entry.0;
                            if i < p {
                                lemma_text_cmp_antisymmetric(fs[i].0, entry.0);
                            } else if i == p {
                                lemma_text_cmp_antisymmetric(fs[p as int].0, entry.0);
                            } else {
                                lemma_text_cmp_antisymmetric(fs[p as int].0, entry.0);
                                lemma_text_cmp_antisymmetric(fs[p as int].0, fs[i].0);
                            }
                        }
                    }
                    assert forall|n: Seq<char>| m2.contains_key(n) <==> exists|i: int| 0 <= i < gs.len() && (#[trigger] gs[i]).0 == n by {
                        if m2.contains_key(n) && n != entry.0 {
                            let i = choose|i: int| 0 <= i < fs.len() && (#[trigger] fs[i]).0 == n;
                            if i < p {
                                assert(gs[i].0 == n);
                            } else {
                                assert(gs[i + 1].0 == n);
                            }
                        }
                        if n == entry.0 {
                            assert(gs[p as int].0 == n);
                        }
                        if exists|i: int| 0 <= i < gs.len() && (#[trigger] gs[i]).0 == n {
                            let i = choose|i: int| 0 <= i < gs.len() && (#[trigger] gs[i]).0 == n;
                            if i < p {
                                assert(fs[i].0 == n);
                            } else if i > p {
                                assert(fs[i - 1].0 == n);
                            }
                        }
                    }
                    assert forall|i: int| 0 <= i < gs.len() implies m2.contains_key((#[trigger] gs[i]).0) && m2[gs[i].0] == gs[i].1 by {
                        if i < p {
                            assert(gs[i] == fs[i]);
                        } else if i > p {
                            assert(gs[i] == fs[i - 1]);
                        }
                    }
                }
            }
            proof {
                taken = taken + 1;
            }
            assert forall|j: int| 0 <= j < rest@.len() implies #[trigger] input[taken + j] == (rest@[j].0@, rest@[j].1.view_key()) by {
                assert(input[taken + j] == input[(taken - 1) + (j + 1)]);
            }
        }
        proof {
            assert(input.take(taken) =~= input);
        }
        Key::Fields(FieldList { items: out })
    }
}

impl PartialEq for Key {
    fn eq(&self, other: &Key) -> (r: bool) {
        self.same(other)
    }
}

impl vstd::std_specs::cmp::PartialEqSpecImpl for Key {
    open spec fn obeys_eq_spec() -> bool {
        true
    }

    open spec fn eq_spec(&self, other: &Key) -> bool {
        self@ == other@
    }
}

/// Something that is managed and that can be realized on the target system.
/// Checking and changing the target system is the host's part; a resource
/// says who it is, what it is, and how to show it, each as a function of its
/// view.
pub trait Resource: Sized + View {
    /// The kind of a resource. Resources of different kinds never collide,
    /// even with equal keys.
    spec fn kind_of(v: Self::V) -> Seq<char>;

    /// The key that tells a resource apart from others of its kind.
    spec fn key_of(v: Self::V) -> KeyView;

    /// How a resource is shown in diagnostics.
    spec fn describe_of(v: Self::V) -> Seq<char>;

    fn kind(&self) -> (r: String)
        ensures
            r@ == Self::kind_of(self@),
    ;

    /// The key of this resource; for files, the file path.
    fn key(&self) -> (r: Key)
        ensures
            r@ == Self::key_of(self@),
    ;

    fn describe(&self) -> (r: String)
        ensures
            r@ == Self::describe_of(self@),
    ;

    /// Whether two resources declare the same desired state.
    fn equals(&self, other: &Self) -> (r: bool)
        ensures
            r == (self@ == other@),
    ;
}

/// The identity of a resource: its kind and its key.
pub open spec fn identity<R: Resource>(v: R::V) -> (Seq<char>, KeyView) {
    (R::kind_of(v), R::key_of(v))
}

/// A resource that may need other resources to be realized before it, such
/// as the directory that holds a file.
pub trait UnresolvedResource: Resource {
    /// A measure that each prerequisite is below, so that chains of
    /// prerequisites end.
    spec fn depth_of(v: Self::V) -> nat;

    /// The resources that a resource needs, in the order they are ensured.
    spec fn prerequisites_of(v: Self::V) -> Seq<Self::V>;

    /// The resources that this one needs, to be ensured before it.
    fn implicit_ensure(&self) -> (r: Vec<Self>)
        ensures
            r@.len() == Self::prerequisites_of(self@).len(),
            forall|i: int| 0 <= i < r@.len() ==> (#[trigger] r@[i])@ == Self::prerequisites_of(self@)[i],
            forall|i: int| 0 <= i < r@.len() ==> Self::depth_of((#[trigger] r@[i])@) < Self::depth_of(self@),
    ;
}

/// Something that can ensure that resources are realized.
pub trait Ensurer<R: UnresolvedResource> {
    /// Whether the ensurer is in a state to take resources.
    spec fn ready(&self) -> bool;

    /// Ensures that the resource is realized, after the resources it needs.
    fn ensure(&mut self, resource: R)
        requires
            old(self).ready(),
        ensures
            final(self).ready(),
    ;
}

} // verus!
