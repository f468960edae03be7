//! Documents: the tree that a project file is read into before it becomes a
//! song.

use crate::text::same_text;
use vstd::prelude::*;
use vstd::string::*;

verus! {

/// A number of a document.
#[derive(Clone, Copy, Debug, PartialEq, Eq, Structural)]
pub enum Number {
    /// A non-negative integer.
    Unsigned(u64),
    /// A negative integer.
    Negative(i64),
    /// Any other number, as the bit pattern of a double.
    Real(u64),
}

/// A document.
#[derive(Debug)]
pub enum Json {
    Null,
    Bool(bool),
    Number(Number),
    Text(String),
    List(Vec<Json>),
    /// Members in order. A key is looked up from the front.
    Object(Vec<Member>),
}

/// A member of an object.
#[derive(Debug)]
pub struct Member {
    pub key: String,
    pub value: Json,
}

/// The model of a document.
#[verifier::ext_equal]
pub enum Tree {
    Null,
    Bool(bool),
    Number(Number),
    Text(Seq<char>),
    List(Seq<Tree>),
    Object(Seq<Field>),
}

/// The model of a member.
#[verifier::ext_equal]
pub struct Field {
    pub key: Seq<char>,
    pub value: Tree,
}

/// The model of a document.
pub open spec fn tree(j: Json) -> Tree
    decreases j,
{
    match j {
        Json::Null => Tree::Null,
        Json::Bool(b) => Tree::Bool(b),
        Json::Number(n) => Tree::Number(n),
        Json::Text(s) => Tree::Text(s@),
        Json::List(v) => Tree::List(trees(v@)),
        Json::Object(v) => Tree::Object(fields(v@)),
    }
}

/// The models of the elements of a list.
pub open spec fn trees(v: Seq<Json>) -> Seq<Tree>
    decreases v,
{
    Seq::new(
        v.len(),
        |i: int|
            if 0 <= i < v.len() {
                tree(v[i])
            } else {
                Tree::Null
            },
    )
}

/// The models of the members of an object.
pub open spec fn fields(v: Seq<Member>) -> Seq<Field>
    decreases v,
{
    Seq::new(
        v.len(),
        |i: int|
            if 0 <= i < v.len() {
                field_model(v[i])
            } else {
                Field { key: Seq::empty(), value: Tree::Null }
            },
    )
}

/// The model of a member.
pub open spec fn field_model(m: Member) -> Field
    decreases m,
{
    Field { key: m.key@, value: tree(m.value) }
}

impl View for Json {
    type V = Tree;

    open spec fn view(&self) -> Tree {
        tree(*self)
    }
}

/// The place of the first member with key `key`.
pub open spec fn key_place(f: Seq<Field>, key: Seq<char>, from: int) -> Option<int>
    decreases f.len() - from,
{
    if from < 0 || from >= f.len() {
        None
    } else if f[from].key == key {
        Some(from)
    } else {
        key_place(f, key, from + 1)
    }
}

/// The value of the member with key `key`.
pub open spec fn get(f: Seq<Field>, key: Seq<char>) -> Option<Tree> {
    match key_place(f, key, 0) {
        Some(i) => Some(f[i].value),
        None => None,
    }
}

/// Whether there is a member with key `key`.
pub open spec fn has_key(f: Seq<Field>, key: Seq<char>) -> bool {
    key_place(f, key, 0) is Some
}

/// The members with the value of `key` set: in its place if it is there, behind
/// the others if not.
pub open spec fn with(f: Seq<Field>, key: Seq<char>, value: Tree) -> Seq<Field> {
    match key_place(f, key, 0) {
        Some(i) => f.update(i, Field { key, value }),
        None => f.push(Field { key, value }),
    }
}

/// The members without those with key `key`.
pub open spec fn without(f: Seq<Field>, key: Seq<char>) -> Seq<Field>
    decreases f.len(),
{
    if f.len() == 0 {
        f
    } else if f[0].key == key {
        without(f.drop_first(), key)
    } else {
        seq![f[0]] + without(f.drop_first(), key)
    }
}

impl Tree {
    /// The members, if this is an object.
    pub open spec fn members(self) -> Option<Seq<Field>> {
        match self {
            Tree::Object(f) => Some(f),
            _ => None,
        }
    }

    /// The elements, if this is a list.
    pub open spec fn elements(self) -> Option<Seq<Tree>> {
        match self {
            Tree::List(v) => Some(v),
            _ => None,
        }
    }

    /// The value of a member, if this is an object that has it.
    pub open spec fn at(self, key: Seq<char>) -> Option<Tree> {
        match self {
            Tree::Object(f) => get(f, key),
            _ => None,
        }
    }

    /// The value, if this is a non-negative integer.
    pub open spec fn unsigned(self) -> Option<u64> {
        match self {
            Tree::Number(Number::Unsigned(n)) => Some(n),
            _ => None,
        }
    }

    /// The truth value, if this is one.
    pub open spec fn truth(self) -> Option<bool> {
        match self {
            Tree::Bool(b) => Some(b),
            _ => None,
        }
    }

    /// The characters, if this is a text.
    pub open spec fn chars(self) -> Option<Seq<char>> {
        match self {
            Tree::Text(s) => Some(s),
            _ => None,
        }
    }

    /// The object with the value of `key` replaced by what `f` makes of it, if
    /// there is one.
    pub open spec fn map_at(self, key: Seq<char>, f: spec_fn(Tree) -> Tree) -> Tree {
        match self {
            Tree::Object(m) => match get(m, key) {
                Some(v) => Tree::Object(with(m, key, f(v))),
                None => self,
            },
            _ => self,
        }
    }

    /// The list with every element replaced by what `f` makes of it.
    pub open spec fn map_elements(self, f: spec_fn(Tree) -> Tree) -> Tree {
        match self {
            Tree::List(v) => Tree::List(v.map_values(f)),
            _ => self,
        }
    }
}

// ---------------------------------------------------------------------------
// Facts about members
// ---------------------------------------------------------------------------

pub proof fn lemma_key_place(f: Seq<Field>, key: Seq<char>, from: int)
    requires
        0 <= from,
    ensures
        match key_place(f, key, from) {
            Some(i) => from <= i < f.len() && f[i].key == key && forall|k: int|
                from <= k < i ==> (#[trigger] f[k]).key != key,
            None => forall|k: int| from <= k < f.len() ==> (#[trigger] f[k]).key != key,
        },
    decreases f.len() - from,
{
    if from < f.len() && f[from].key != key {
        lemma_key_place(f, key, from + 1);
    }
}

/// The first member with the key is where it is first met.
pub proof fn lemma_key_place_is(f: Seq<Field>, key: Seq<char>, i: int)
    requires
        0 <= i < f.len(),
        f[i].key == key,
        forall|k: int| 0 <= k < i ==> (#[trigger] f[k]).key != key,
    ensures
        key_place(f, key, 0) == Some(i),
{
    lemma_key_place(f, key, 0);
}

/// No member has the key.
pub proof fn lemma_key_absent(f: Seq<Field>, key: Seq<char>)
    requires
        forall|k: int| 0 <= k < f.len() ==> (#[trigger] f[k]).key != key,
    ensures
        key_place(f, key, 0) is None,
{
    lemma_key_place(f, key, 0);
}

/// Setting a member: its value is what was set, every other key keeps its value,
/// and setting it to what it is changes nothing.
pub proof fn law_with(f: Seq<Field>, key: Seq<char>, value: Tree, other: Seq<char>)
    ensures
        get(with(f, key, value), key) == Some(value),
        other != key ==> get(with(f, key, value), other) == get(f, other),
        get(f, key) == Some(value) ==> with(f, key, value) == f,
{
    let w = with(f, key, value);
    lemma_key_place(f, key, 0);
    lemma_key_place(f, other, 0);
    match key_place(f, key, 0) {
        Some(i) => {
            lemma_key_place_is(w, key, i);
            if f[i].value == value {
                assert(w =~= f);
            }
        },
        None => {
            lemma_key_place_is(w, key, f.len() as int);
        },
    }
    if other != key {
        match key_place(f, other, 0) {
            Some(j) => {
                assert(w[j] == f[j]);
                lemma_key_place_is(w, other, j);
            },
            None => {
                lemma_key_absent(w, other);
            },
        }
    }
}

/// The value of a member is a smaller document.
pub proof fn lemma_at_is_smaller(t: Tree, key: Seq<char>)
    ensures
        t.at(key) matches Some(v) ==> decreases_to!(t => v),
{
    if let Tree::Object(f) = t {
        lemma_key_place(f, key, 0);
        if let Some(i) = key_place(f, key, 0) {
            assert(decreases_to!(t => t->Object_0));
            assert(decreases_to!(f => f[i]));
            assert(decreases_to!(f[i] => f[i].value));
        }
    }
}

/// Removing a member: it is gone, every other key keeps its value, and removing
/// what is not there changes nothing.
pub proof fn law_without(f: Seq<Field>, key: Seq<char>, other: Seq<char>)
    ensures
        get(without(f, key), key) is None,
        other != key ==> get(without(f, key), other) == get(f, other),
        !has_key(f, key) ==> without(f, key) == f,
    decreases f.len(),
{
    lemma_key_place(f, key, 0);
    if f.len() > 0 {
        let rest = f.drop_first();
        law_without(rest, key, other);
        lemma_get_front(f, key);
        lemma_get_front(f, other);
        if f[0].key != key {
            let w = without(f, key);
            assert(w.drop_first() =~= without(rest, key));
            lemma_get_front(w, key);
            lemma_get_front(w, other);
            if !has_key(f, key) {
                assert(w =~= f);
            }
        }
    }
}

/// What holds of every member holds of those left after a removal.
pub proof fn lemma_without_keeps(f: Seq<Field>, key: Seq<char>, p: spec_fn(Field) -> bool)
    requires
        forall|i: int| 0 <= i < f.len() ==> p(#[trigger] f[i]),
    ensures
        forall|i: int| 0 <= i < without(f, key).len() ==> p(#[trigger] without(f, key)[i]),
    decreases f.len(),
{
    if f.len() > 0 {
        let rest = f.drop_first();
        let kept = without(rest, key);
        assert forall|i: int| 0 <= i < rest.len() implies p(#[trigger] rest[i]) by {
            assert(rest[i] == f[i + 1]);
        }
        lemma_without_keeps(rest, key, p);
        if f[0].key != key {
            assert forall|i: int| 0 <= i < without(f, key).len() implies p(#[trigger] without(f, key)[i]) by {
                if i > 0 {
                    assert(without(f, key)[i] == kept[i - 1]);
                } else {
                    assert(without(f, key)[i] == f[0]);
                }
            }
        }
    }
}

/// Looking a key up from the front.
pub proof fn lemma_get_front(f: Seq<Field>, key: Seq<char>)
    requires
        f.len() > 0,
    ensures
        get(f, key) == (if f[0].key == key {
            Some(f[0].value)
        } else {
            get(f.drop_first(), key)
        }),
        has_key(f, key) == (f[0].key == key || has_key(f.drop_first(), key)),
{
    let rest = f.drop_first();
    lemma_key_place(f, key, 0);
    lemma_key_place(rest, key, 0);
    if f[0].key != key {
        match key_place(rest, key, 0) {
            Some(i) => {
                assert(f[i + 1] == rest[i]);
                assert forall|k: int| 0 <= k < i + 1 implies (#[trigger] f[k]).key != key by {
                    if k > 0 {
                        assert(f[k] == rest[k - 1]);
                    }
                }
                lemma_key_place_is(f, key, i + 1);
            },
            None => {
                assert forall|k: int| 0 <= k < f.len() implies (#[trigger] f[k]).key != key by {
                    if k > 0 {
                        assert(f[k] == rest[k - 1]);
                    }
                }
                lemma_key_absent(f, key);
            },
        }
    } else {
        lemma_key_place_is(f, key, 0);
    }
}

// ---------------------------------------------------------------------------
// Members
// ---------------------------------------------------------------------------

/// The place of the first member with key `key`.
pub fn member_place(v: &Vec<Member>, key: &str) -> (r: Option<usize>)
    ensures
        match r {
            Some(i) => i < v@.len() && key_place(fields(v@), key@, 0) == Some(i as int),
            None => key_place(fields(v@), key@, 0) is None,
        },
{
    let ghost f = fields(v@);
    let mut i: usize = 0;
    while i < v.len()
        invariant
            f == fields(v@),
            i <= v@.len(),
            key_place(f, key@, 0) == key_place(f, key@, i as int),
        decreases v@.len() - i,
    {
        assert(f[i as int] == field_model(v@[i as int]));
        if same_text(v[i].key.as_str(), key) {
            return Some(i);
        }
        i += 1;
    }
    None
}

/// The value of the member with key `key`.
pub fn member<'a>(v: &'a Vec<Member>, key: &str) -> (r: Option<&'a Json>)
    ensures
        match r {
            Some(j) => get(fields(v@), key@) == Some(j@),
            None => !has_key(fields(v@), key@),
        },
{
    match member_place(v, key) {
        Some(i) => {
            assert(fields(v@)[i as int] == field_model(v@[i as int]));
            Some(&v[i].value)
        },
        None => None,
    }
}

/// The value of the member with key `key`, to change it.
pub fn member_mut<'a>(v: &'a mut Vec<Member>, key: &str) -> (r: Option<&'a mut Json>)
    ensures
        match r {
            Some(j) => get(fields(old(v)@), key@) == Some(tree(*j)) && fields(final(v)@) == with(
                fields(old(v)@),
                key@,
                tree(*final(j)),
            ),
            None => !has_key(fields(old(v)@), key@) && *final(v) == *old(v),
        },
{
    match member_place(v, key) {
        Some(i) => {
            proof {
                lemma_key_place(fields(v@), key@, 0);
                assert(fields(v@)[i as int] == field_model(v@[i as int]));
            }
            let m = &mut v[i];
            Some(&mut m.value)
        },
        None => None,
    }
}

/// Whether there is a member with key `key`.
pub fn has_member(v: &Vec<Member>, key: &str) -> (r: bool)
    ensures
        r == has_key(fields(v@), key@),
{
    member_place(v, key).is_some()
}

/// Sets the value of the member with key `key`.
pub fn put_member(v: &mut Vec<Member>, key: &str, value: Json)
    ensures
        fields(final(v)@) == with(fields(old(v)@), key@, tree(value)),
{
    let ghost f = fields(v@);
    match member_place(v, key) {
        Some(i) => {
            v.set(i, Member { key: key.to_owned(), value });
            assert(fields(v@) =~= f.update(i as int, Field { key: key@, value: tree(value) }));
        },
        None => {
            v.push(Member { key: key.to_owned(), value });
            assert(fields(v@) =~= f.push(Field { key: key@, value: tree(value) }));
        },
    }
}

/// Removes the member with key `key` and returns its value.
pub fn take_member(v: &mut Vec<Member>, key: &str) -> (r: Option<Json>)
    ensures
        fields(final(v)@) == without(fields(old(v)@), key@),
        match r {
            Some(j) => get(fields(old(v)@), key@) == Some(j@),
            None => !has_key(fields(old(v)@), key@),
        },
{
    let ghost f = fields(v@);
    let mut r: Option<Json> = None;
    let mut i: usize = 0;
    let ghost mut n: int = 0;
    proof {
        assert(f.skip(0) =~= f);
        assert(f.take(0) + without(f, key@) =~= without(f, key@));
        lemma_key_place(f, key@, 0);
        assert(fields(v@).take(0) + f.skip(0) =~= f);
    }
    while i < v.len()
        invariant
            f == fields(old(v)@),
            0 <= n <= f.len(),
            i <= v@.len(),
            v@.len() - i == f.len() - n,
            fields(v@).skip(i as int) == f.skip(n),
            fields(v@).take(i as int) + without(f.skip(n), key@) == without(f, key@),
            match r {
                Some(j) => get(f, key@) == Some(j@),
                None => forall|k: int| 0 <= k < n ==> (#[trigger] f[k]).key != key@,
            },
        decreases v@.len() - i,
    {
        let ghost before = fields(v@);
        let ghost rest = f.skip(n);
        proof {
            assert(before.skip(i as int)[0] == rest[0]);
            assert(rest[0] == f[n]);
            assert(before[i as int] == f[n]);
            assert(before[i as int] == field_model(v@[i as int]));
            assert(rest.drop_first() =~= f.skip(n + 1));
        }
        if same_text(v[i].key.as_str(), key) {
            let m = v.remove(i);
            proof {
                assert(fields(v@) =~= before.remove(i as int));
                assert(fields(v@).take(i as int) =~= before.take(i as int));
                assert(fields(v@).skip(i as int) =~= before.skip(i as int).drop_first());
                assert(fields(v@).skip(i as int) == f.skip(n + 1));
                if r is None {
                    lemma_key_place_is(f, key@, n);
                }
            }
            if r.is_none() {
                r = Some(m.value);
            }
        } else {
            proof {
                assert(before.take(i + 1) =~= before.take(i as int).push(f[n]));
                assert(before.take(i as int) + (seq![rest[0]] + without(rest.drop_first(), key@)) =~= before.take(
                    i + 1,
                ) + without(f.skip(n + 1), key@));
                assert(before.skip(i + 1) =~= before.skip(i as int).drop_first());
                assert(before.skip(i + 1) == f.skip(n + 1));
            }
            i += 1;
        }
        proof {
            n = n + 1;
        }
    }
    proof {
        assert(f.skip(n) =~= Seq::<Field>::empty());
        assert(fields(v@).take(i as int) + Seq::<Field>::empty() =~= fields(v@));
        if r is None {
            lemma_key_absent(f, key@);
        }
    }
    r
}

// ---------------------------------------------------------------------------
// Documents
// ---------------------------------------------------------------------------

/// A copy of the elements of a list.
fn copy_list(v: &Vec<Json>) -> (r: Vec<Json>)
    ensures
        trees(r@) == trees(v@),
    decreases v@,
{
    let mut r: Vec<Json> = Vec::new();
    let mut i: usize = 0;
    while i < v.len()
        invariant
            i <= v@.len(),
            r@.len() == i,
            forall|k: int| 0 <= k < i ==> tree(#[trigger] r@[k]) == tree(v@[k]),
        decreases v@.len() - i,
    {
        r.push(copy(&v[i]));
        i += 1;
    }
    assert(trees(r@) =~= trees(v@));
    r
}

/// A copy of the members of an object.
pub fn copy_members(v: &Vec<Member>) -> (r: Vec<Member>)
    ensures
        fields(r@) == fields(v@),
    decreases v@,
{
    let mut r: Vec<Member> = Vec::new();
    let mut i: usize = 0;
    while i < v.len()
        invariant
            i <= v@.len(),
            r@.len() == i,
            forall|k: int| 0 <= k < i ==> field_model(#[trigger] r@[k]) == field_model(v@[k]),
        decreases v@.len() - i,
    {
        proof {
            assert(decreases_to!(v@ => v@[i as int]));
            assert(decreases_to!(v@[i as int] => v@[i as int].value));
        }
        let value = copy(&v[i].value);
        r.push(Member { key: v[i].key.clone(), value });
        i += 1;
    }
    assert(fields(r@) =~= fields(v@));
    r
}

/// A copy of a document.
fn copy(j: &Json) -> (r: Json)
    ensures
        r@ == j@,
    decreases *j,
{
    match j {
        Json::Null => Json::Null,
        Json::Bool(b) => Json::Bool(*b),
        Json::Number(n) => Json::Number(*n),
        Json::Text(s) => Json::Text(s.clone()),
        Json::List(v) => {
            proof {
                assert(decreases_to!(*j => j->List_0));
                assert(decreases_to!(j->List_0 => v@));
            }
            Json::List(copy_list(v))
        },
        Json::Object(v) => {
            proof {
                assert(decreases_to!(*j => j->Object_0));
                assert(decreases_to!(j->Object_0 => v@));
            }
            Json::Object(copy_members(v))
        },
    }
}

impl Clone for Json {
    fn clone(&self) -> (r: Json)
        ensures
            r@ == self@,
    {
        copy(self)
    }
}

impl Json {
    /// The value of a member, if this is an object that has it.
    pub fn get(&self, key: &str) -> (r: Option<&Json>)
        ensures
            match r {
                Some(j) => self@.at(key@) == Some(j@),
                None => self@.at(key@) is None,
            },
    {
        match self {
            Json::Object(v) => member(v, key),
            _ => None,
        }
    }

    /// The value, if this is a non-negative integer.
    pub fn as_u64(&self) -> (r: Option<u64>)
        ensures
            r == self@.unsigned(),
    {
        match self {
            Json::Number(Number::Unsigned(n)) => Some(*n),
            _ => None,
        }
    }

    /// The text, if this is one.
    pub fn as_text(&self) -> (r: Option<&String>)
        ensures
            match r {
                Some(s) => self@.chars() == Some(s@),
                None => self@.chars() is None,
            },
    {
        match self {
            Json::Text(s) => Some(s),
            _ => None,
        }
    }

    /// The elements, if this is a list.
    pub fn as_list(&self) -> (r: Option<&Vec<Json>>)
        ensures
            match r {
                Some(v) => self@.elements() == Some(trees(v@)),
                None => self@.elements() is None,
            },
    {
        match self {
            Json::List(v) => Some(v),
            _ => None,
        }
    }

    /// A text.
    pub fn text(s: &str) -> (r: Json)
        ensures
            r@ == Tree::Text(s@),
    {
        Json::Text(s.to_owned())
    }

    /// The truth value, if this is one.
    pub fn as_bool(&self) -> (r: Option<bool>)
        ensures
            r == self@.truth(),
    {
        match self {
            Json::Bool(b) => Some(*b),
            _ => None,
        }
    }

    /// An object with one member.
    pub fn single(key: &str, value: Json) -> (r: Json)
        ensures
            r@ == Tree::Object(seq![Field { key: key@, value: value@ }]),
    {
        let mut v: Vec<Member> = Vec::new();
        v.push(Member { key: key.to_owned(), value });
        assert(fields(v@) =~= seq![Field { key: key@, value: value@ }]);
        Json::Object(v)
    }

    /// A non-negative integer.
    pub fn unsigned(n: u64) -> (r: Json)
        ensures
            r@ == Tree::Number(Number::Unsigned(n)),
    {
        Json::Number(Number::Unsigned(n))
    }
}

} // verus!
