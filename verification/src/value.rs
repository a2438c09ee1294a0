use vstd::prelude::*;

verus! {

broadcast use vstd::std_specs::vec::group_vec_axioms;

/// The result of a parse: a JSON-like tree.
///
/// A number carries the bytes of its literal (a run of ASCII digits and
/// dots) rather than a converted machine float, so the caller chooses the
/// numeric interpretation. A string carries the raw bytes between its
/// quotes, with escape sequences left undecoded. An object keeps one entry
/// per key; a duplicate key in the input overwrites the earlier entry.
#[derive(Debug, PartialEq)]
pub enum Value {
    String(Vec<u8>),
    Number(Vec<u8>),
    Bool(bool),
    Null,
    Array(Vec<Value>),
    Object(Vec<(Vec<u8>, Value)>),
}

/// The mathematical model of a [`Value`]: sequences in place of vectors.
pub enum ValueModel {
    String(Seq<u8>),
    Number(Seq<u8>),
    Bool(bool),
    Null,
    Array(Seq<ValueModel>),
    Object(Seq<(Seq<u8>, ValueModel)>),
}

impl Value {
    /// The model of this value.
    pub open spec fn model(self) -> ValueModel
        decreases self, 0int,
    {
        match self {
            Value::String(s) => ValueModel::String(s@),
            Value::Number(n) => ValueModel::Number(n@),
            Value::Bool(b) => ValueModel::Bool(b),
            Value::Null => ValueModel::Null,
            Value::Array(a) => {
                proof {
                    assert(decreases_to!(self => a));
                    assert(decreases_to!(a => a@));
                }
                ValueModel::Array(models_of(a@, a@.len() as int))
            },
            Value::Object(m) => {
                proof {
                    assert(decreases_to!(self => m));
                    assert(decreases_to!(m => m@));
                }
                ValueModel::Object(entry_models_of(m@, m@.len() as int))
            },
        }
    }
}

/// The models of the first `n` elements of `s`.
pub open spec fn models_of(s: Seq<Value>, n: int) -> Seq<ValueModel>
    decreases s, n,
        when 0 <= n <= s.len()
{
    if n <= 0 {
        Seq::empty()
    } else {
        proof {
            assert(decreases_to!(s => s[n - 1]));
        }
        models_of(s, n - 1).push(s[n - 1].model())
    }
}

/// The models of the first `n` entries of `s`, keys and values.
pub open spec fn entry_models_of(s: Seq<(Vec<u8>, Value)>, n: int) -> Seq<(Seq<u8>, ValueModel)>
    decreases s, n,
        when 0 <= n <= s.len()
{
    if n <= 0 {
        Seq::empty()
    } else {
        proof {
            assert(decreases_to!(s => s[n - 1]));
            assert(decreases_to!(s[n - 1] => s[n - 1].1));
        }
        entry_models_of(s, n - 1).push((s[n - 1].0@, s[n - 1].1.model()))
    }
}

/// Pointwise reading of `models_of`.
pub proof fn lemma_models_of(s: Seq<Value>, n: int)
    requires
        0 <= n <= s.len(),
    ensures
        models_of(s, n).len() == n,
        forall|i: int| 0 <= i < n ==> models_of(s, n)[i] == s[i].model(),
    decreases n,
{
    if n > 0 {
        lemma_models_of(s, n - 1);
    }
}

/// Pointwise reading of `entry_models_of`.
pub proof fn lemma_entry_models_of(s: Seq<(Vec<u8>, Value)>, n: int)
    requires
        0 <= n <= s.len(),
    ensures
        entry_models_of(s, n).len() == n,
        forall|i: int| 0 <= i < n ==> entry_models_of(s, n)[i] == (s[i].0@, s[i].1.model()),
    decreases n,
{
    if n > 0 {
        lemma_entry_models_of(s, n - 1);
    }
}

impl View for Value {
    type V = ValueModel;

    open spec fn view(&self) -> ValueModel {
        self.model()
    }
}

/// True when `entries` holds `key`.
pub open spec fn obj_has_key(entries: Seq<(Seq<u8>, ValueModel)>, key: Seq<u8>) -> bool {
    exists|i: int| 0 <= i < entries.len() && entries[i].0 == key
}

/// The value that `entries` maps `key` to: the first entry with that key.
pub open spec fn obj_lookup(entries: Seq<(Seq<u8>, ValueModel)>, key: Seq<u8>) -> Option<
    ValueModel,
>
    decreases entries.len(),
{
    if entries.len() == 0 {
        None
    } else if entries[0].0 == key {
        Some(entries[0].1)
    } else {
        obj_lookup(entries.subrange(1, entries.len() as int), key)
    }
}

/// `entries` with `key` bound to `v`: the first entry with that key is
/// overwritten in place, a new key is appended.
pub open spec fn obj_insert(
    entries: Seq<(Seq<u8>, ValueModel)>,
    key: Seq<u8>,
    v: ValueModel,
) -> Seq<(Seq<u8>, ValueModel)>
    decreases entries.len(),
{
    if entries.len() == 0 {
        seq![(key, v)]
    } else if entries[0].0 == key {
        seq![(key, v)] + entries.subrange(1, entries.len() as int)
    } else {
        seq![entries[0]] + obj_insert(entries.subrange(1, entries.len() as int), key, v)
    }
}

/// The object assembled from `pairs` in source order: a later duplicate key
/// overwrites an earlier one.
pub open spec fn object_of(pairs: Seq<(Seq<u8>, ValueModel)>) -> Seq<(Seq<u8>, ValueModel)>
    decreases pairs.len(),
{
    if pairs.len() == 0 {
        Seq::empty()
    } else {
        obj_insert(object_of(pairs.drop_last()), pairs.last().0, pairs.last().1)
    }
}

/// `obj_insert` neither introduces a duplicate key nor a key other than the
/// inserted one and those already present.
pub proof fn lemma_obj_insert_keys(entries: Seq<(Seq<u8>, ValueModel)>, key: Seq<u8>, v: ValueModel)
    requires
        forall|i: int, j: int| 0 <= i < j < entries.len() ==> #[trigger] entries[i].0
            != #[trigger] entries[j].0,
    ensures
        forall|i: int, j: int|
            0 <= i < j < obj_insert(entries, key, v).len() ==> #[trigger] obj_insert(
                entries,
                key,
                v,
            )[i].0 != #[trigger] obj_insert(entries, key, v)[j].0,
        forall|i: int|
            0 <= i < obj_insert(entries, key, v).len() ==> (#[trigger] obj_insert(
                entries,
                key,
                v,
            )[i].0 == key || obj_has_key(entries, obj_insert(entries, key, v)[i].0)),
    decreases entries.len(),
{
    let out = obj_insert(entries, key, v);
    if entries.len() == 0 {
    } else if entries[0].0 == key {
        let rest = entries.subrange(1, entries.len() as int);
        assert forall|i: int| 0 <= i < out.len() implies (#[trigger] out[i].0 == key
            || obj_has_key(entries, out[i].0)) by {
            if i > 0 {
                assert(out[i] == entries[i]);
            }
        }
    } else {
        let rest = entries.subrange(1, entries.len() as int);
        lemma_obj_insert_keys(rest, key, v);
        let inner = obj_insert(rest, key, v);
        assert forall|i: int| 0 <= i < out.len() implies (#[trigger] out[i].0 == key
            || obj_has_key(entries, out[i].0)) by {
            if i > 0 {
                assert(out[i] == inner[i - 1]);
                if inner[i - 1].0 != key {
                    let w = choose|w: int|
                        0 <= w < rest.len() && rest[w].0 == inner[i - 1].0;
                    assert(entries[w + 1].0 == inner[i - 1].0);
                }
            }
        }
        assert forall|i: int, j: int| 0 <= i < j < out.len() implies #[trigger] out[i].0
            != #[trigger] out[j].0 by {
            if i == 0 {
                assert(out[j] == inner[j - 1]);
                if inner[j - 1].0 == entries[0].0 {
                    assert(inner[j - 1].0 != key);
                    let w = choose|w: int|
                        0 <= w < rest.len() && rest[w].0 == inner[j - 1].0;
                    assert(entries[w + 1].0 == entries[0].0);
                }
            } else {
                assert(out[i] == inner[i - 1] && out[j] == inner[j - 1]);
            }
        }
    }
}

/// The keys of an assembled object are pairwise distinct: the Object
/// invariant holds of every parse result, duplicate inputs included.
pub proof fn lemma_object_of_unique_keys(pairs: Seq<(Seq<u8>, ValueModel)>)
    ensures
        forall|i: int, j: int|
            0 <= i < j < object_of(pairs).len() ==> #[trigger] object_of(pairs)[i].0
                != #[trigger] object_of(pairs)[j].0,
    decreases pairs.len(),
{
    if pairs.len() > 0 {
        lemma_object_of_unique_keys(pairs.drop_last());
        lemma_obj_insert_keys(object_of(pairs.drop_last()), pairs.last().0, pairs.last().1);
    }
}

/// `obj_lookup` finds the first matching entry.
pub proof fn lemma_obj_lookup_at(entries: Seq<(Seq<u8>, ValueModel)>, key: Seq<u8>, j: int)
    requires
        0 <= j < entries.len(),
        entries[j].0 == key,
        forall|i: int| 0 <= i < j ==> entries[i].0 != key,
    ensures
        obj_lookup(entries, key) == Some(entries[j].1),
    decreases j,
{
    if j > 0 {
        let rest = entries.subrange(1, entries.len() as int);
        lemma_obj_lookup_at(rest, key, j - 1);
    }
}

/// `obj_lookup` finds nothing when no entry matches.
pub proof fn lemma_obj_lookup_none(entries: Seq<(Seq<u8>, ValueModel)>, key: Seq<u8>)
    requires
        forall|i: int| 0 <= i < entries.len() ==> entries[i].0 != key,
    ensures
        obj_lookup(entries, key) is None,
    decreases entries.len(),
{
    if entries.len() > 0 {
        lemma_obj_lookup_none(entries.subrange(1, entries.len() as int), key);
    }
}

impl Value {
    /// The element at `i` of an Array, or `None` for any other variant or an
    /// index out of range.
    pub fn at(&self, i: usize) -> (r: Option<&Value>)
        ensures
            match r {
                Some(v) => self@ matches ValueModel::Array(a) && i < a.len() && v@ == a[i as int],
                None => !(self@ matches ValueModel::Array(a) && i < a.len()),
            },
    {
        match self {
            Value::Array(a) => {
                proof {
                    lemma_models_of(a@, a@.len() as int);
                }
                if i < a.len() {
                    Some(&a[i])
                } else {
                    None
                }
            },
            _ => None,
        }
    }

    /// The value under `key` of an Object, or `None` for any other variant
    /// or an absent key.
    pub fn get(&self, key: &Vec<u8>) -> (r: Option<&Value>)
        ensures
            match r {
                Some(v) => self@ matches ValueModel::Object(m) && obj_lookup(m, key@) == Some(v@),
                None => !(self@ matches ValueModel::Object(m) && obj_has_key(m, key@)),
            },
    {
        match self {
            Value::Object(m) => {
                let ghost entries = self@->Object_0;
                proof {
                    lemma_entry_models_of(m@, m@.len() as int);
                }
                let n = m.len();
                for j in 0..n
                    invariant
                        n == m@.len(),
                        entries.len() == m@.len(),
                        forall|i: int|
                            0 <= i < m@.len() ==> entries[i] == (m@[i].0@, m@[i].1.model()),
                        self@ == ValueModel::Object(entries),
                        forall|i: int| 0 <= i < j ==> entries[i].0 != key@,
                {
                    if eq_bytes(&m[j].0, key) {
                        proof {
                            lemma_obj_lookup_at(entries, key@, j as int);
                        }
                        return Some(&m[j].1);
                    }
                }
                proof {
                    lemma_obj_lookup_none(entries, key@);
                }
                None
            },
            _ => None,
        }
    }
}

/// `obj_insert` overwrites the first matching entry in place.
pub proof fn lemma_obj_insert_at(
    entries: Seq<(Seq<u8>, ValueModel)>,
    key: Seq<u8>,
    v: ValueModel,
    j: int,
)
    requires
        0 <= j < entries.len(),
        entries[j].0 == key,
        forall|i: int| 0 <= i < j ==> entries[i].0 != key,
    ensures
        obj_insert(entries, key, v) == entries.update(j, (key, v)),
    decreases j,
{
    let rest = entries.subrange(1, entries.len() as int);
    if j == 0 {
        assert(obj_insert(entries, key, v) =~= entries.update(0, (key, v)));
    } else {
        lemma_obj_insert_at(rest, key, v, j - 1);
        assert(obj_insert(entries, key, v) =~= entries.update(j, (key, v)));
    }
}

/// `obj_insert` appends when no entry matches.
pub proof fn lemma_obj_insert_none(entries: Seq<(Seq<u8>, ValueModel)>, key: Seq<u8>, v: ValueModel)
    requires
        forall|i: int| 0 <= i < entries.len() ==> entries[i].0 != key,
    ensures
        obj_insert(entries, key, v) == entries.push((key, v)),
    decreases entries.len(),
{
    if entries.len() > 0 {
        let rest = entries.subrange(1, entries.len() as int);
        lemma_obj_insert_none(rest, key, v);
        assert(obj_insert(entries, key, v) =~= entries.push((key, v)));
    } else {
        assert(obj_insert(entries, key, v) =~= entries.push((key, v)));
    }
}

/// Binds `key` to `v` in `obj`, overwriting the first entry with that key or
/// appending a new one, as `obj_insert` says.
pub fn insert_pair(obj: &mut Vec<(Vec<u8>, Value)>, key: Vec<u8>, v: Value)
    ensures
        entry_models_of(final(obj)@, final(obj)@.len() as int) == obj_insert(
            entry_models_of(old(obj)@, old(obj)@.len() as int),
            key@,
            v@,
        ),
{
    let ghost entries = entry_models_of(obj@, obj@.len() as int);
    proof {
        lemma_entry_models_of(obj@, obj@.len() as int);
    }
    let n = obj.len();
    for j in 0..n
        invariant
            obj@ == old(obj)@,
            n == obj@.len(),
            entries == entry_models_of(obj@, obj@.len() as int),
            entries.len() == n,
            forall|i: int| 0 <= i < n ==> entries[i] == (obj@[i].0@, obj@[i].1.model()),
            forall|i: int| 0 <= i < j ==> entries[i].0 != key@,
    {
        if eq_bytes(&obj[j].0, &key) {
            proof {
                lemma_obj_insert_at(entries, key@, v@, j as int);
            }
            obj[j] = (key, v);
            proof {
                lemma_entry_models_of(obj@, obj@.len() as int);
                assert(entry_models_of(obj@, obj@.len() as int) =~= entries.update(
                    j as int,
                    (key@, v@),
                ));
            }
            return;
        }
    }
    proof {
        lemma_obj_insert_none(entries, key@, v@);
    }
    obj.push((key, v));
    proof {
        lemma_entry_models_of(obj@, obj@.len() as int);
        assert(entry_models_of(obj@, obj@.len() as int) =~= entries.push((key@, v@)));
    }
}

/// The object the pairs assemble into, in source order: a later duplicate
/// key overwrites an earlier one, as `object_of` says.
pub fn build_object(pairs: Vec<(Vec<u8>, Value)>) -> (r: Vec<(Vec<u8>, Value)>)
    ensures
        entry_models_of(r@, r@.len() as int) == object_of(
            entry_models_of(pairs@, pairs@.len() as int),
        ),
{
    let ghost orig = pairs@;
    let ghost src = entry_models_of(pairs@, pairs@.len() as int);
    proof {
        lemma_entry_models_of(pairs@, pairs@.len() as int);
        assert(src.subrange(0, 0) =~= Seq::<(Seq<u8>, ValueModel)>::empty());
    }
    let mut r: Vec<(Vec<u8>, Value)> = Vec::new();
    let mut rest = pairs;
    let ghost mut done: int = 0;
    while rest.len() > 0
        invariant
            0 <= done <= orig.len(),
            src == entry_models_of(orig, orig.len() as int),
            src.len() == orig.len(),
            forall|i: int| 0 <= i < orig.len() ==> src[i] == (orig[i].0@, orig[i].1.model()),
            rest@ == orig.subrange(done, orig.len() as int),
            entry_models_of(r@, r@.len() as int) == object_of(src.subrange(0, done)),
        decreases rest@.len(),
    {
        let kv = rest.remove(0);
        proof {
            assert(kv == orig[done]);
            assert(rest@ =~= orig.subrange(done + 1, orig.len() as int));
        }
        let ghost before = entry_models_of(r@, r@.len() as int);
        insert_pair(&mut r, kv.0, kv.1);
        proof {
            done = done + 1;
            let prefix = src.subrange(0, done);
            assert(prefix.drop_last() =~= src.subrange(0, done - 1));
            assert(prefix.last() == (orig[done - 1].0@, orig[done - 1].1.model()));
        }
    }
    proof {
        assert(src.subrange(0, done) =~= src);
    }
    r
}

/// True when the two byte vectors hold the same bytes.
pub fn eq_bytes(a: &Vec<u8>, b: &Vec<u8>) -> (r: bool)
    ensures
        r == (a@ == b@),
{
    if a.len() != b.len() {
        assert(a@ != b@) by {
            if a@ == b@ {
                assert(a@.len() == b@.len());
            }
        }
        return false;
    }
    let n = a.len();
    for i in 0..n
        invariant
            n == a.len() && n == b.len(),
            forall|k: int| 0 <= k < i ==> a@[k] == b@[k],
    {
        if a[i] != b[i] {
            return false;
        }
    }
    proof {
        assert(a@ =~= b@);
    }
    true
}

/// The compact text of a value model: no whitespace, elements and pairs
/// separated by commas, keys quoted.
pub open spec fn spec_render(v: ValueModel) -> Seq<u8>
    decreases v, 0int,
{
    match v {
        ValueModel::String(s) => seq![34u8] + s + seq![34u8],
        ValueModel::Number(n) => n,
        ValueModel::Bool(b) => if b {
            seq![116u8, 114u8, 117u8, 101u8]
        } else {
            seq![102u8, 97u8, 108u8, 115u8, 101u8]
        },
        ValueModel::Null => seq![110u8, 117u8, 108u8, 108u8],
        ValueModel::Array(a) => seq![91u8] + spec_render_items(a, 0) + seq![93u8],
        ValueModel::Object(m) => seq![123u8] + spec_render_entries(m, 0) + seq![125u8],
    }
}

/// The text of the elements from `i` on, comma-separated.
pub open spec fn spec_render_items(a: Seq<ValueModel>, i: int) -> Seq<u8>
    decreases a, a.len() - i,
        when 0 <= i <= a.len()
{
    if i >= a.len() {
        Seq::empty()
    } else {
        proof {
            assert(decreases_to!(a => a[i]));
        }
        if i + 1 < a.len() {
            spec_render(a[i]) + seq![44u8] + spec_render_items(a, i + 1)
        } else {
            spec_render(a[i])
        }
    }
}

/// The text of the pairs from `i` on, comma-separated, each a quoted key, a
/// colon and the value.
pub open spec fn spec_render_entries(m: Seq<(Seq<u8>, ValueModel)>, i: int) -> Seq<u8>
    decreases m, m.len() - i,
        when 0 <= i <= m.len()
{
    if i >= m.len() {
        Seq::empty()
    } else {
        proof {
            assert(decreases_to!(m => m[i]));
            assert(decreases_to!(m[i] => m[i].1));
        }
        let entry = seq![34u8] + m[i].0 + seq![34u8, 58u8] + spec_render(m[i].1);
        if i + 1 < m.len() {
            entry + seq![44u8] + spec_render_entries(m, i + 1)
        } else {
            entry
        }
    }
}

/// Appends the bytes of `src` to `out`.
fn append_bytes(out: &mut Vec<u8>, src: &Vec<u8>)
    ensures
        final(out)@ == old(out)@ + src@,
{
    let n = src.len();
    for i in 0..n
        invariant
            n == src@.len(),
            out@ == old(out)@ + src@.subrange(0, i as int),
    {
        out.push(src[i]);
        proof {
            assert(old(out)@ + src@.subrange(0, i as int) + seq![src@[i as int]] =~= old(out)@
                + src@.subrange(0, i + 1 as int));
        }
    }
    proof {
        assert(src@.subrange(0, n as int) =~= src@);
    }
}

/// The text of the elements of `a` from index `i` on.
fn items_text(a: &Vec<Value>, i: usize) -> (r: Vec<u8>)
    requires
        i <= a@.len(),
    ensures
        r@ == spec_render_items(models_of(a@, a@.len() as int), i as int),
    decreases a@, a@.len() - i,
{
    proof {
        lemma_models_of(a@, a@.len() as int);
    }
    let ghost am = models_of(a@, a@.len() as int);
    if i >= a.len() {
        let r: Vec<u8> = Vec::new();
        proof {
            assert(r@ =~= spec_render_items(am, i as int));
        }
        r
    } else {
        proof {
            assert(decreases_to!(a@ => a@[i as int]));
        }
        let mut r = a[i].to_text();
        if i + 1 < a.len() {
            r.push(44);
            let mut rest = items_text(a, i + 1);
            let ghost restm = rest@;
            r.append(&mut rest);
            proof {
                assert(r@ =~= spec_render(am[i as int]) + seq![44u8] + restm);
            }
        }
        r
    }
}

/// The text of the pairs of `m` from index `i` on.
fn entries_text(m: &Vec<(Vec<u8>, Value)>, i: usize) -> (r: Vec<u8>)
    requires
        i <= m@.len(),
    ensures
        r@ == spec_render_entries(entry_models_of(m@, m@.len() as int), i as int),
    decreases m@, m@.len() - i,
{
    proof {
        lemma_entry_models_of(m@, m@.len() as int);
    }
    let ghost mm = entry_models_of(m@, m@.len() as int);
    if i >= m.len() {
        let r: Vec<u8> = Vec::new();
        proof {
            assert(r@ =~= spec_render_entries(mm, i as int));
        }
        r
    } else {
        proof {
            assert(decreases_to!(m@ => m@[i as int]));
            assert(decreases_to!(m@[i as int] => m@[i as int].1));
        }
        let mut r: Vec<u8> = Vec::new();
        r.push(34);
        append_bytes(&mut r, &m[i].0);
        r.push(34);
        r.push(58);
        let mut vtext = m[i].1.to_text();
        let ghost vt = vtext@;
        r.append(&mut vtext);
        let ghost entry = seq![34u8] + mm[i as int].0 + seq![34u8, 58u8] + spec_render(
            mm[i as int].1,
        );
        proof {
            assert(r@ =~= entry);
        }
        if i + 1 < m.len() {
            r.push(44);
            let mut rest = entries_text(m, i + 1);
            let ghost restm = rest@;
            r.append(&mut rest);
            proof {
                assert(r@ =~= entry + seq![44u8] + restm);
            }
        }
        r
    }
}

impl Value {
    /// The compact text of this value: parsing it yields this value back,
    /// for well-formed values.
    pub fn to_text(&self) -> (r: Vec<u8>)
        ensures
            r@ == spec_render(self@),
        decreases self,
    {
        match self {
            Value::String(s) => {
                let mut r: Vec<u8> = Vec::new();
                r.push(34);
                append_bytes(&mut r, s);
                r.push(34);
                proof {
                    assert(r@ =~= seq![34u8] + s@ + seq![34u8]);
                }
                r
            },
            Value::Number(n) => crate::token::clone_bytes(n),
            Value::Bool(b) => {
                let mut r: Vec<u8> = Vec::new();
                if *b {
                    r.push(116);
                    r.push(114);
                    r.push(117);
                    r.push(101);
                    proof {
                        assert(r@ =~= seq![116u8, 114u8, 117u8, 101u8]);
                    }
                } else {
                    r.push(102);
                    r.push(97);
                    r.push(108);
                    r.push(115);
                    r.push(101);
                    proof {
                        assert(r@ =~= seq![102u8, 97u8, 108u8, 115u8, 101u8]);
                    }
                }
                r
            },
            Value::Null => {
                let mut r: Vec<u8> = Vec::new();
                r.push(110);
                r.push(117);
                r.push(108);
                r.push(108);
                proof {
                    assert(r@ =~= seq![110u8, 117u8, 108u8, 108u8]);
                }
                r
            },
            Value::Array(a) => {
                proof {
                    assert(decreases_to!(self => a));
                }
                let mut r: Vec<u8> = Vec::new();
                r.push(91);
                let mut body = items_text(a, 0);
                let ghost bodym = body@;
                r.append(&mut body);
                r.push(93);
                proof {
                    assert(r@ =~= seq![91u8] + bodym + seq![93u8]);
                }
                r
            },
            Value::Object(m) => {
                proof {
                    assert(decreases_to!(self => m));
                }
                let mut r: Vec<u8> = Vec::new();
                r.push(123);
                let mut body = entries_text(m, 0);
                let ghost bodym = body@;
                r.append(&mut body);
                r.push(125);
                proof {
                    assert(r@ =~= seq![123u8] + bodym + seq![125u8]);
                }
                r
            },
        }
    }
}

/// A string the renderer can quote faithfully: every quote in it is
/// escaped, that is immediately preceded by a backslash, and it does not
/// end in a backslash, which would escape the closing quote.
pub open spec fn wf_string_bytes(s: Seq<u8>) -> bool {
    &&& forall|i: int| 0 <= i < s.len() && #[trigger] s[i] == 34 ==> i > 0 && s[i - 1] == 92
    &&& (s.len() > 0 ==> s[s.len() - 1] != 92)
}

/// A numeric literal: a nonempty run of digits and dots starting with a
/// digit, as the lexer produces.
pub open spec fn wf_number_bytes(n: Seq<u8>) -> bool {
    &&& n.len() > 0
    &&& 48 <= n[0] <= 57
    &&& forall|i: int| 0 <= i < n.len() ==> (48 <= #[trigger] n[i] <= 57 || n[i] == 46)
}

/// A value whose rendered text parses back to it: strings and numbers are
/// well formed throughout, and no object holds a key twice.
pub open spec fn wf_value(v: ValueModel) -> bool
    decreases v, 0int,
{
    match v {
        ValueModel::String(s) => wf_string_bytes(s),
        ValueModel::Number(n) => wf_number_bytes(n),
        ValueModel::Bool(_) => true,
        ValueModel::Null => true,
        ValueModel::Array(a) => wf_items(a, 0),
        ValueModel::Object(m) => {
            &&& wf_entries(m, 0)
            &&& forall|i: int, j: int| 0 <= i < j < m.len() ==> #[trigger] m[i].0 != #[trigger] m[j].0
        },
    }
}

/// Every element from `i` on is well formed.
pub open spec fn wf_items(a: Seq<ValueModel>, i: int) -> bool
    decreases a, a.len() - i,
        when 0 <= i <= a.len()
{
    if i >= a.len() {
        true
    } else {
        proof {
            assert(decreases_to!(a => a[i]));
        }
        wf_value(a[i]) && wf_items(a, i + 1)
    }
}

/// Every key and value from `i` on is well formed.
pub open spec fn wf_entries(m: Seq<(Seq<u8>, ValueModel)>, i: int) -> bool
    decreases m, m.len() - i,
        when 0 <= i <= m.len()
{
    if i >= m.len() {
        true
    } else {
        proof {
            assert(decreases_to!(m => m[i]));
            assert(decreases_to!(m[i] => m[i].1));
        }
        wf_string_bytes(m[i].0) && wf_value(m[i].1) && wf_entries(m, i + 1)
    }
}

/// An object built from pairs with distinct keys is those pairs unchanged.
pub proof fn lemma_object_of_distinct(m: Seq<(Seq<u8>, ValueModel)>)
    requires
        forall|i: int, j: int| 0 <= i < j < m.len() ==> m[i].0 != m[j].0,
    ensures
        object_of(m) == m,
    decreases m.len(),
{
    if m.len() > 0 {
        lemma_object_of_distinct(m.drop_last());
        lemma_obj_insert_none(m.drop_last(), m.last().0, m.last().1);
        assert(m.drop_last().push((m.last().0, m.last().1)) =~= m);
    }
}

} // verus!
