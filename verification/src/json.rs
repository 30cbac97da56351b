//! JSON documents as plain values.
//!
//! Reading and writing JSON text is `serde_json`'s work; this module holds
//! the document in a type of its own, which the review file and the request
//! decoders read and build.

use vstd::prelude::*;
use vstd::std_specs::cmp::PartialEqSpecImpl;

use serde_json::{Number, Value};

use crate::text::{copy_of, same_text, strs};

verus! {

// ------------------------------------------------------------ outside items

/// `serde_json::Value`: a JSON document.
#[verifier::external_type_specification]
#[verifier::external_body]
pub struct ExValue(serde_json::Value);

/// `serde_json::Number`: a JSON number.
#[verifier::external_type_specification]
#[verifier::external_body]
pub struct ExNumber(serde_json::Number);

/// What a `serde_json::Value` holds.
pub uninterp spec fn value_model(v: serde_json::Value) -> JsonModel;

/// What a `serde_json::Number` holds.
pub uninterp spec fn number_model(n: serde_json::Number) -> NumberModel;

/// The document that `serde_json::from_str` reads from a text, if it reads one.
pub uninterp spec fn json_read(text: Seq<char>) -> Option<JsonModel>;

/// What `serde_json` says of a text that it cannot read.
pub uninterp spec fn json_complaint(text: Seq<char>) -> Seq<char>;

/// Whether two numbers that are no 64-bit integers are the same to
/// `serde_json`, by the `==` of its `Number`.
pub uninterp spec fn numbers_equal(a: serde_json::Number, b: serde_json::Number) -> bool;

/// What `serde_json::to_string_pretty` writes for a document.
pub uninterp spec fn json_pretty(doc: JsonModel) -> Seq<char>;

/// What the `Display` of a `serde_json::Value` writes: the compact form.
pub uninterp spec fn json_compact(doc: JsonModel) -> Seq<char>;

/// A number of a JSON document: an integer where it is one that fits 64 bits,
/// else the number as it was read.
#[verifier::ext_equal]
pub enum NumberModel {
    Unsigned(u64),
    Negative(i64),
    Other(serde_json::Number),
}

/// A JSON document over mathematical values. The members of an object stand
/// in the order of the text.
#[verifier::ext_equal]
pub enum JsonModel {
    Null,
    Bool(bool),
    Number(NumberModel),
    Text(Seq<char>),
    Array(Seq<JsonModel>),
    Object(Seq<MemberModel>),
}

#[verifier::ext_equal]
pub struct MemberModel {
    pub key: Seq<char>,
    pub value: JsonModel,
}

/// Levels of nesting of a document: 0 for a scalar.
pub open spec fn json_depth(doc: JsonModel) -> nat
    decreases doc,
{
    match doc {
        JsonModel::Array(items) => 1 + items_depth(items),
        JsonModel::Object(members) => 1 + members_depth(members),
        _ => 0,
    }
}

pub open spec fn items_depth(items: Seq<JsonModel>) -> nat
    decreases items,
{
    if items.len() == 0 {
        0
    } else {
        let rest = items_depth(items.drop_last());
        let last = json_depth(items.last());
        if rest >= last {
            rest
        } else {
            last
        }
    }
}

pub open spec fn members_depth(members: Seq<MemberModel>) -> nat
    decreases members,
{
    if members.len() == 0 {
        0
    } else {
        let rest = members_depth(members.drop_last());
        let last = json_depth(members.last().value);
        if rest >= last {
            rest
        } else {
            last
        }
    }
}

// ------------------------------------------------------------------ documents

/// A number of a JSON document.
#[derive(Debug)]
pub enum JsonNumber {
    /// An integer from 0 up.
    Unsigned(u64),
    /// An integer below 0.
    Negative(i64),
    /// A number that is no 64-bit integer, as it was read.
    Other(Number),
}

/// A JSON document.
#[derive(Debug)]
pub enum Json {
    Null,
    Bool(bool),
    Number(JsonNumber),
    Text(String),
    Array(Vec<Json>),
    Object(JsonMap),
}

/// One member of an object.
#[derive(Debug)]
pub struct Member {
    pub key: String,
    pub value: Json,
}

/// The members of an object: each key once, in the order of first insertion.
#[derive(Debug)]
pub struct JsonMap {
    members: Vec<Member>,
}

impl JsonNumber {
    pub open spec fn model(self) -> NumberModel {
        match self {
            JsonNumber::Unsigned(n) => NumberModel::Unsigned(n),
            JsonNumber::Negative(n) => signed_model(n),
            JsonNumber::Other(n) => number_model(n),
        }
    }
}

/// The number of a signed integer.
pub open spec fn signed_model(n: i64) -> NumberModel {
    if n < 0 {
        NumberModel::Negative(n)
    } else {
        NumberModel::Unsigned(n as u64)
    }
}

impl Json {
    pub open spec fn model(self) -> JsonModel
        decreases self,
    {
        match self {
            Json::Null => JsonModel::Null,
            Json::Bool(b) => JsonModel::Bool(b),
            Json::Number(n) => JsonModel::Number(n.model()),
            Json::Text(s) => JsonModel::Text(s@),
            Json::Array(items) => JsonModel::Array(
                Seq::new(
                    items@.len(),
                    |i: int|
                        if 0 <= i < items@.len() {
                            items@[i].model()
                        } else {
                            JsonModel::Null
                        },
                ),
            ),
            Json::Object(map) => JsonModel::Object(map.model()),
        }
    }
}

impl JsonMap {
    pub closed spec fn model(self) -> Seq<MemberModel>
        decreases self,
    {
        Seq::new(
            self.members@.len(),
            |i: int|
                MemberModel {
                    key: self.members@[i].key@,
                    value: if 0 <= i < self.members@.len() {
                        self.members@[i].value.model()
                    } else {
                        JsonModel::Null
                    },
                },
        )
    }
}

impl DeepView for Json {
    type V = JsonModel;

    open spec fn deep_view(&self) -> JsonModel {
        self.model()
    }
}

impl DeepView for JsonMap {
    type V = Seq<MemberModel>;

    open spec fn deep_view(&self) -> Seq<MemberModel> {
        self.model()
    }
}

/// Position of the member with this key; the length where there is none.
pub open spec fn key_index(members: Seq<MemberModel>, key: Seq<char>) -> int
    decreases members.len(),
{
    if members.len() == 0 {
        0
    } else {
        let before = key_index(members.drop_last(), key);
        if before < members.len() - 1 || members.last().key == key {
            before
        } else {
            members.len() as int
        }
    }
}

/// Whether there is a member with this key.
pub open spec fn has_key(members: Seq<MemberModel>, key: Seq<char>) -> bool {
    exists|i: int| 0 <= i < members.len() && (#[trigger] members[i]).key == key
}

/// Whether no key stands twice.
pub open spec fn distinct_keys(members: Seq<MemberModel>) -> bool {
    forall|i: int, j: int|
        0 <= i < j < members.len() ==> (#[trigger] members[i]).key != (#[trigger] members[j]).key
}

/// The value of a key.
pub open spec fn lookup(members: Seq<MemberModel>, key: Seq<char>) -> Option<JsonModel> {
    let i = key_index(members, key);
    if i < members.len() {
        Some(members[i].value)
    } else {
        None
    }
}

/// The members without the one of this key.
pub open spec fn without_key(members: Seq<MemberModel>, key: Seq<char>) -> Seq<MemberModel> {
    let i = key_index(members, key);
    if i < members.len() {
        members.remove(i)
    } else {
        members
    }
}

/// The members with this key set: a value that stands there is replaced, a
/// new key goes last.
pub open spec fn with_member(
    members: Seq<MemberModel>,
    key: Seq<char>,
    value: JsonModel,
) -> Seq<MemberModel> {
    let i = key_index(members, key);
    if i < members.len() {
        members.update(i, MemberModel { key, value })
    } else {
        members.push(MemberModel { key, value })
    }
}

/// What `key_index` means, without recursion.
pub proof fn lemma_key_index(members: Seq<MemberModel>, key: Seq<char>)
    ensures
        0 <= key_index(members, key) <= members.len(),
        key_index(members, key) < members.len() ==> members[key_index(members, key)].key == key,
        forall|k: int| 0 <= k < key_index(members, key) ==> (#[trigger] members[k]).key != key,
        has_key(members, key) <==> key_index(members, key) < members.len(),
    decreases members.len(),
{
    if members.len() > 0 {
        lemma_key_index(members.drop_last(), key);
        let before = key_index(members.drop_last(), key);
        assert forall|k: int| 0 <= k < key_index(members, key) implies (#[trigger] members[k]).key
            != key by {
            if k < before {
                assert(members.drop_last()[k].key != key);
            }
        }
    }
}

/// A position that holds the key, with none before it, is its index.
pub proof fn lemma_key_index_is(members: Seq<MemberModel>, key: Seq<char>, i: int)
    requires
        0 <= i < members.len(),
        members[i].key == key,
        forall|k: int| 0 <= k < i ==> (#[trigger] members[k]).key != key,
    ensures
        key_index(members, key) == i,
{
    lemma_key_index(members, key);
    if key_index(members, key) > i {
        assert(members[i].key != key);
    }
}

/// Setting a key keeps keys distinct, and the key then has the value.
pub proof fn lemma_with_member(members: Seq<MemberModel>, key: Seq<char>, value: JsonModel)
    requires
        distinct_keys(members),
    ensures
        distinct_keys(with_member(members, key, value)),
        lookup(with_member(members, key, value), key) == Some(value),
{
    lemma_key_index(members, key);
    let i = key_index(members, key);
    let after = with_member(members, key, value);
    lemma_key_index_is(after, key, i);
}

/// Setting a key changes no other.
pub proof fn lemma_with_other_member(
    members: Seq<MemberModel>,
    key: Seq<char>,
    value: JsonModel,
    other: Seq<char>,
)
    requires
        other != key,
    ensures
        lookup(with_member(members, key, value), other) == lookup(members, other),
{
    lemma_key_index(members, key);
    lemma_key_index(members, other);
    let after = with_member(members, key, value);
    lemma_key_index(after, other);
    let i = key_index(members, other);
    if i < members.len() {
        assert(after[i] == members[i]);
        assert forall|k: int| 0 <= k < i implies (#[trigger] after[k]).key != other by {
            assert(members[k].key != other);
        }
        lemma_key_index_is(after, other, i);
    } else if key_index(after, other) < after.len() {
        let k = key_index(after, other);
        if k < members.len() {
            assert(members[k].key != other);
        }
    }
}

/// Dropping a key keeps keys distinct, and the key is gone.
pub proof fn lemma_without_key(members: Seq<MemberModel>, key: Seq<char>)
    requires
        distinct_keys(members),
    ensures
        distinct_keys(without_key(members, key)),
        !has_key(without_key(members, key), key),
{
    lemma_key_index(members, key);
    let i = key_index(members, key);
    let after = without_key(members, key);
    if has_key(after, key) {
        let k = choose|k: int| 0 <= k < after.len() && (#[trigger] after[k]).key == key;
        if i < members.len() {
            if k < i {
                assert(members[k].key != key);
            } else {
                assert(members[k + 1].key == key);
                assert(members[i].key != members[k + 1].key);
            }
        }
    }
}

/// The members whose keys are not among `keys`.
pub open spec fn members_except(members: Seq<MemberModel>, keys: Seq<Seq<char>>) -> Seq<
    MemberModel,
>
    decreases members.len(),
{
    if members.len() == 0 {
        Seq::empty()
    } else {
        let rest = members_except(members.drop_last(), keys);
        if keys.contains(members.last().key) {
            rest
        } else {
            rest.push(members.last())
        }
    }
}

/// The members with those of `more` set on top of them, in turn.
pub open spec fn put_all(members: Seq<MemberModel>, more: Seq<MemberModel>) -> Seq<MemberModel>
    decreases more.len(),
{
    if more.len() == 0 {
        members
    } else {
        with_member(
            put_all(members, more.drop_last()),
            more.last().key,
            more.last().value,
        )
    }
}

pub proof fn lemma_members_except_keys(members: Seq<MemberModel>, keys: Seq<Seq<char>>)
    ensures
        forall|k: Seq<char>| #[trigger]
            has_key(members_except(members, keys), k) ==> has_key(members, k),
        distinct_keys(members) ==> distinct_keys(members_except(members, keys)),
    decreases members.len(),
{
    if members.len() > 0 {
        let init = members.drop_last();
        let last = members.last();
        lemma_members_except_keys(init, keys);
        let rest = members_except(init, keys);
        let all = members_except(members, keys);
        assert forall|k: Seq<char>| #[trigger] has_key(all, k) implies has_key(members, k) by {
            let i = choose|i: int| 0 <= i < all.len() && (#[trigger] all[i]).key == k;
            if i < rest.len() {
                assert(rest[i].key == k);
                assert(has_key(rest, k));
                let j = choose|j: int| 0 <= j < init.len() && (#[trigger] init[j]).key == k;
                assert(members[j].key == k);
            } else {
                assert(members[members.len() - 1].key == k);
            }
        }
        if distinct_keys(members) {
            assert(distinct_keys(init)) by {
                assert forall|i: int, j: int| 0 <= i < j < init.len() implies (
                #[trigger] init[i]).key != (#[trigger] init[j]).key by {
                    assert(members[i].key != members[j].key);
                }
            }
            assert forall|i: int, j: int| 0 <= i < j < all.len() implies (#[trigger] all[i]).key
                != (#[trigger] all[j]).key by {
                if j < rest.len() {
                    assert(rest[i].key != rest[j].key);
                } else {
                    assert(has_key(rest, rest[i].key));
                    let m = choose|m: int|
                        0 <= m < init.len() && (#[trigger] init[m]).key == rest[i].key;
                    assert(members[m].key != members[members.len() - 1].key);
                }
            }
        }
    }
}

impl JsonMap {
    /// Each key stands once.
    #[verifier::type_invariant]
    spec fn keys_stand_once(self) -> bool {
        distinct_keys(self.model())
    }

    /// A map without members.
    pub fn new() -> (r: JsonMap)
        ensures
            r.model() == Seq::<MemberModel>::empty(),
    {
        let members: Vec<Member> = Vec::new();
        let ghost empty = JsonMap { members };
        assert(empty.model() =~= Seq::<MemberModel>::empty());
        JsonMap { members }
    }

    /// Number of members.
    pub fn len(&self) -> (r: usize)
        ensures
            r == self.model().len(),
            distinct_keys(self.model()),
    {
        proof {
            use_type_invariant(self);
        }
        self.members.len()
    }

    /// Whether there is no member.
    pub fn is_empty(&self) -> (r: bool)
        ensures
            r == (self.model().len() == 0),
    {
        self.members.len() == 0
    }

    /// The key at a position.
    pub fn key_at(&self, i: usize) -> (r: &str)
        requires
            i < self.model().len(),
        ensures
            r@ == self.model()[i as int].key,
    {
        self.members[i].key.as_str()
    }

    /// The value at a position.
    pub fn value_at(&self, i: usize) -> (r: &Json)
        requires
            i < self.model().len(),
        ensures
            r.model() == self.model()[i as int].value,
    {
        &self.members[i].value
    }

    /// Position of a key, the length where it is missing.
    pub fn position(&self, key: &str) -> (r: usize)
        ensures
            r == key_index(self.model(), key@),
            r <= self.model().len(),
    {
        let ghost members = self.model();
        let mut i: usize = 0;
        while i < self.members.len()
            invariant
                i <= self.members.len(),
                members == self.model(),
                forall|k: int| 0 <= k < i ==> (#[trigger] members[k]).key != key@,
            decreases self.members.len() - i,
        {
            assert(members[i as int].key == self.members[i as int].key@);
            if same_text(self.members[i].key.as_str(), key) {
                proof {
                    lemma_key_index_is(members, key@, i as int);
                }
                return i;
            }
            i += 1;
        }
        proof {
            lemma_key_index(members, key@);
        }
        i
    }

    /// The value of a key.
    pub fn get(&self, key: &str) -> (r: Option<&Json>)
        ensures
            match lookup(self.model(), key@) {
                Some(value) => r matches Some(v) && v.model() == value,
                None => r is None,
            },
    {
        let i: usize = self.position(key);
        if i < self.members.len() {
            Some(&self.members[i].value)
        } else {
            None
        }
    }

    /// Whether a key is there.
    pub fn contains_key(&self, key: &str) -> (r: bool)
        ensures
            r == has_key(self.model(), key@),
    {
        proof {
            lemma_key_index(self.model(), key@);
        }
        self.position(key) < self.members.len()
    }

    /// Sets the value of a key.
    pub fn insert(&mut self, key: String, value: Json)
        ensures
            final(self).model() == with_member(old(self).model(), key@, value.model()),
            distinct_keys(final(self).model()),
    {
        let ghost before = self.model();
        let ghost goal = with_member(before, key@, value.model());
        let i: usize = self.position(key.as_str());
        proof {
            use_type_invariant(&*self);
            lemma_with_member(before, key@, value.model());
        }
        let mut members: Vec<Member> = Vec::new();
        core::mem::swap(&mut self.members, &mut members);
        assert(JsonMap { members }.model() =~= before);
        let member = Member { key, value };
        if i < members.len() {
            members[i] = member;
        } else {
            members.push(member);
        }
        assert(JsonMap { members }.model() =~= goal);
        self.members = members;
    }

    /// Takes a key out.
    pub fn remove(&mut self, key: &str) -> (r: Option<Json>)
        ensures
            final(self).model() == without_key(old(self).model(), key@),
            match lookup(old(self).model(), key@) {
                Some(value) => r matches Some(v) && v.model() == value,
                None => r is None,
            },
    {
        let ghost before = self.model();
        proof {
            use_type_invariant(&*self);
            lemma_without_key(before, key@);
            lemma_key_index(before, key@);
        }
        let i: usize = self.position(key);
        if i < self.members.len() {
            let mut members: Vec<Member> = Vec::new();
            core::mem::swap(&mut self.members, &mut members);
            assert(JsonMap { members }.model() =~= before);
            let member: Member = members.remove(i);
            assert(JsonMap { members }.model() =~= before.remove(i as int));
            self.members = members;
            Some(member.value)
        } else {
            None
        }
    }
}

/// Whether `key` is among `keys`.
fn among(keys: &[&str], key: &str) -> (r: bool)
    ensures
        r == strs(keys@).contains(key@),
{
    let mut i: usize = 0;
    while i < keys.len()
        invariant
            i <= keys.len(),
            forall|k: int| 0 <= k < i ==> (#[trigger] strs(keys@)[k]) != key@,
        decreases keys.len() - i,
    {
        if same_text(keys[i], key) {
            assert(strs(keys@)[i as int] == key@);
            return true;
        }
        i += 1;
    }
    false
}

impl JsonMap {
    /// A copy without the members of the given keys.
    pub fn except(&self, keys: &[&str]) -> (r: JsonMap)
        ensures
            r.model() == members_except(self.model(), strs(keys@)),
    {
        let ghost all = self.model();
        let mut out: Vec<Member> = Vec::new();
        let mut i: usize = 0;
        assert(JsonMap { members: out }.model() =~= Seq::empty());
        while i < self.members.len()
            invariant
                i <= self.members.len(),
                all == self.model(),
                (JsonMap { members: out }).model() == members_except(
                    all.take(i as int),
                    strs(keys@),
                ),
            decreases self.members.len() - i,
        {
            let member: &Member = &self.members[i];
            assert(all.take(i + 1).drop_last() =~= all.take(i as int));
            assert(all[i as int].key == member.key@);
            if !among(keys, member.key.as_str()) {
                let ghost before = JsonMap { members: out }.model();
                out.push(
                    Member {
                        key: copy_of(member.key.as_str()),
                        value: copy_json(&member.value),
                    },
                );
                assert(JsonMap { members: out }.model() =~= before.push(all[i as int]));
            }
            i += 1;
        }
        proof {
            assert(all.take(all.len() as int) =~= all);
            use_type_invariant(self);
            lemma_members_except_keys(all, strs(keys@));
        }
        JsonMap { members: out }
    }

    /// Sets the members of another map on top.
    pub fn put_all(&mut self, more: &JsonMap)
        ensures
            final(self).model() == put_all(old(self).model(), more.model()),
    {
        let ghost start = self.model();
        let ghost all = more.model();
        let mut i: usize = 0;
        assert(all.take(0) =~= Seq::empty());
        while i < more.members.len()
            invariant
                i <= more.members.len(),
                all == more.model(),
                self.model() == put_all(start, all.take(i as int)),
            decreases more.members.len() - i,
        {
            let member: &Member = &more.members[i];
            assert(all.take(i + 1).drop_last() =~= all.take(i as int));
            assert(all[i as int].key == member.key@);
            self.insert(copy_of(member.key.as_str()), copy_json(&member.value));
            i += 1;
        }
        assert(all.take(all.len() as int) =~= all);
    }
}

// -------------------------------------------------------------------- copies

impl Clone for JsonNumber {
    fn clone(&self) -> (r: Self)
        ensures
            r.model() == self.model(),
    {
        match self {
            JsonNumber::Unsigned(n) => JsonNumber::Unsigned(*n),
            JsonNumber::Negative(n) => JsonNumber::Negative(*n),
            JsonNumber::Other(n) => JsonNumber::Other(copy_number(n)),
        }
    }
}

impl Clone for Json {
    fn clone(&self) -> (r: Self)
        ensures
            r.model() == self.model(),
    {
        copy_json(self)
    }
}

impl Clone for JsonMap {
    fn clone(&self) -> (r: Self)
        ensures
            r.model() == self.model(),
    {
        copy_map(self)
    }
}

fn copy_json(j: &Json) -> (r: Json)
    ensures
        r.model() == j.model(),
    decreases j,
{
    match j {
        Json::Null => Json::Null,
        Json::Bool(b) => Json::Bool(*b),
        Json::Number(n) => Json::Number(n.clone()),
        Json::Text(s) => Json::Text(copy_of(s.as_str())),
        Json::Array(items) => {
            let out: Vec<Json> = copy_items(items);
            let r = Json::Array(out);
            assert(r.model()->Array_0 =~= j.model()->Array_0);
            r
        },
        Json::Object(map) => Json::Object(copy_map(map)),
    }
}

fn copy_items(items: &Vec<Json>) -> (r: Vec<Json>)
    ensures
        r.len() == items.len(),
        forall|k: int| 0 <= k < r.len() ==> (#[trigger] r@[k]).model() == items@[k].model(),
    decreases items,
{
    let mut out: Vec<Json> = Vec::new();
    let mut i: usize = 0;
    while i < items.len()
        invariant
            i <= items.len(),
            out.len() == i,
            forall|k: int| 0 <= k < i ==> (#[trigger] out@[k]).model() == items@[k].model(),
        decreases items.len() - i,
    {
        out.push(copy_json(&items[i]));
        i += 1;
    }
    out
}

fn copy_map(map: &JsonMap) -> (r: JsonMap)
    ensures
        r.model() == map.model(),
    decreases map,
{
    let mut out: Vec<Member> = Vec::new();
    let mut i: usize = 0;
    while i < map.members.len()
        invariant
            i <= map.members.len(),
            out.len() == i,
            forall|k: int|
                0 <= k < i ==> (#[trigger] out@[k]).key@ == map.members@[k].key@
                    && out@[k].value.model() == map.members@[k].value.model(),
        decreases map.members.len() - i,
    {
        let member: &Member = &map.members[i];
        out.push(
            Member { key: copy_of(member.key.as_str()), value: copy_json(&member.value) },
        );
        i += 1;
    }
    proof {
        use_type_invariant(map);
        assert(JsonMap { members: out }.model() =~= map.model());
    }
    JsonMap { members: out }
}

// ------------------------------------------------------------------ equality

/// Whether two numbers are the same.
pub open spec fn same_number(a: NumberModel, b: NumberModel) -> bool {
    match (a, b) {
        (NumberModel::Unsigned(x), NumberModel::Unsigned(y)) => x == y,
        (NumberModel::Negative(x), NumberModel::Negative(y)) => x == y,
        (NumberModel::Other(x), NumberModel::Other(y)) => numbers_equal(x, y),
        _ => false,
    }
}

/// Whether two documents are the same: objects by their members, in whatever
/// order they stand.
pub open spec fn same_doc(a: JsonModel, b: JsonModel) -> bool
    decreases a,
{
    match (a, b) {
        (JsonModel::Null, JsonModel::Null) => true,
        (JsonModel::Bool(x), JsonModel::Bool(y)) => x == y,
        (JsonModel::Number(x), JsonModel::Number(y)) => same_number(x, y),
        (JsonModel::Text(x), JsonModel::Text(y)) => x == y,
        (JsonModel::Array(x), JsonModel::Array(y)) => x.len() == y.len() && forall|i: int|
            0 <= i < x.len() ==> same_doc(#[trigger] x[i], y[i]),
        (JsonModel::Object(x), JsonModel::Object(y)) => same_members(x, y),
        _ => false,
    }
}

/// Whether two lists of members hold the same keys with the same values.
pub open spec fn same_members(a: Seq<MemberModel>, b: Seq<MemberModel>) -> bool
    decreases a,
{
    a.len() == b.len() && forall|i: int|
        0 <= i < a.len() ==> (lookup(b, (#[trigger] a[i]).key) matches Some(value) && same_doc(
            a[i].value,
            value,
        ))
}

impl PartialEq for JsonNumber {
    fn eq(&self, other: &Self) -> (r: bool) {
        is_same_number(self, other)
    }
}

impl PartialEqSpecImpl for JsonNumber {
    open spec fn obeys_eq_spec() -> bool {
        true
    }

    open spec fn eq_spec(&self, other: &Self) -> bool {
        same_number(self.model(), other.model())
    }
}

impl Eq for JsonNumber {

}

impl PartialEq for Json {
    fn eq(&self, other: &Self) -> (r: bool) {
        is_same_doc(self, other)
    }
}

impl PartialEqSpecImpl for Json {
    open spec fn obeys_eq_spec() -> bool {
        true
    }

    open spec fn eq_spec(&self, other: &Self) -> bool {
        same_doc(self.model(), other.model())
    }
}

impl Eq for Json {

}

impl PartialEq for JsonMap {
    fn eq(&self, other: &Self) -> (r: bool) {
        is_same_map(self, other)
    }
}

impl PartialEqSpecImpl for JsonMap {
    open spec fn obeys_eq_spec() -> bool {
        true
    }

    open spec fn eq_spec(&self, other: &Self) -> bool {
        same_members(self.model(), other.model())
    }
}

impl Eq for JsonMap {

}

fn is_same_number(a: &JsonNumber, b: &JsonNumber) -> (r: bool)
    ensures
        r == same_number(a.model(), b.model()),
{
    match (open_number(number_of(a)), open_number(number_of(b))) {
        (JsonNumber::Unsigned(x), JsonNumber::Unsigned(y)) => x == y,
        (JsonNumber::Negative(x), JsonNumber::Negative(y)) => x == y,
        (JsonNumber::Other(x), JsonNumber::Other(y)) => equal_numbers(&x, &y),
        _ => false,
    }
}

fn is_same_doc(a: &Json, b: &Json) -> (r: bool)
    ensures
        r == same_doc(a.model(), b.model()),
    decreases a,
{
    match (a, b) {
        (Json::Null, Json::Null) => true,
        (Json::Bool(x), Json::Bool(y)) => *x == *y,
        (Json::Number(x), Json::Number(y)) => is_same_number(x, y),
        (Json::Text(x), Json::Text(y)) => same_text(x.as_str(), y.as_str()),
        (Json::Array(x), Json::Array(y)) => {
            let r: bool = are_same_docs(x, y);
            let ghost xs = a.model()->Array_0;
            let ghost ys = b.model()->Array_0;
            proof {
                assert(xs.len() == x@.len() && ys.len() == y@.len());
                assert(forall|i: int| 0 <= i < xs.len() ==> #[trigger] xs[i] == x@[i].model());
                assert(forall|i: int| 0 <= i < ys.len() ==> #[trigger] ys[i] == y@[i].model());
                if r {
                    assert forall|i: int| 0 <= i < xs.len() implies same_doc(
                        #[trigger] xs[i],
                        ys[i],
                    ) by {
                        assert(same_doc(x@[i].model(), y@[i].model()));
                    }
                } else if x.len() == y.len() {
                    let k = choose|k: int|
                        0 <= k < x.len() && !same_doc((#[trigger] x@[k]).model(), y@[k].model());
                    assert(!same_doc(xs[k], ys[k]));
                }
            }
            r
        },
        (Json::Object(x), Json::Object(y)) => is_same_map(x, y),
        _ => false,
    }
}

fn are_same_docs(a: &Vec<Json>, b: &Vec<Json>) -> (r: bool)
    ensures
        r == (a.len() == b.len() && forall|i: int|
            0 <= i < a.len() ==> same_doc((#[trigger] a@[i]).model(), b@[i].model())),
    decreases a,
{
    if a.len() != b.len() {
        return false;
    }
    let mut i: usize = 0;
    while i < a.len()
        invariant
            i <= a.len(),
            a.len() == b.len(),
            forall|k: int| 0 <= k < i ==> same_doc((#[trigger] a@[k]).model(), b@[k].model()),
        decreases a.len() - i,
    {
        if !is_same_doc(&a[i], &b[i]) {
            assert(!same_doc(a@[i as int].model(), b@[i as int].model()));
            return false;
        }
        i += 1;
    }
    true
}

fn is_same_map(a: &JsonMap, b: &JsonMap) -> (r: bool)
    ensures
        r == same_members(a.model(), b.model()),
    decreases a,
{
    let ghost x = a.model();
    let ghost y = b.model();
    if a.members.len() != b.members.len() {
        return false;
    }
    let mut i: usize = 0;
    while i < a.members.len()
        invariant
            i <= a.members.len(),
            a.members.len() == b.members.len(),
            x == a.model(),
            y == b.model(),
            x.len() == a.members.len(),
            y.len() == b.members.len(),
            forall|k: int|
                0 <= k < i ==> (lookup(y, (#[trigger] x[k]).key) matches Some(value) && same_doc(
                    x[k].value,
                    value,
                )),
        decreases a.members.len() - i,
    {
        let member: &Member = &a.members[i];
        assert(x[i as int].key == member.key@ && x[i as int].value == member.value.model());
        let same: bool = match b.get(member.key.as_str()) {
            Some(value) => is_same_doc(&member.value, value),
            None => false,
        };
        if !same {
            assert(!(lookup(y, x[i as int].key) matches Some(value) && same_doc(
                x[i as int].value,
                value,
            )));
            return false;
        }
        i += 1;
    }
    true
}

// ------------------------------------------------------- reading and writing

/// One level of a document, its children still `serde_json` values.
enum Layer {
    Null,
    Bool(bool),
    Number(Number),
    Text(String),
    Array(Vec<Value>),
    Object(Vec<Entry>),
}

struct Entry {
    key: String,
    value: Value,
}

spec fn entry_models(entries: Seq<Entry>) -> Seq<MemberModel> {
    Seq::new(
        entries.len(),
        |i: int| MemberModel { key: entries[i].key@, value: value_model(entries[i].value) },
    )
}

spec fn layer_model(layer: Layer) -> JsonModel {
    match layer {
        Layer::Null => JsonModel::Null,
        Layer::Bool(b) => JsonModel::Bool(b),
        Layer::Number(n) => JsonModel::Number(number_model(n)),
        Layer::Text(s) => JsonModel::Text(s@),
        Layer::Array(items) => JsonModel::Array(
            Seq::new(items@.len(), |i: int| value_model(items@[i])),
        ),
        Layer::Object(entries) => JsonModel::Object(entry_models(entries@)),
    }
}

/// `serde_json::from_str` into a `Value`: the document of the text, or what
/// the error says of it.
#[verifier::external_body]
fn read_value(text: &str) -> (r: Result<Value, String>)
    ensures
        match r {
            Ok(v) => json_read(text@) == Some(value_model(v)),
            Err(msg) => json_read(text@) is None && msg@ == json_complaint(text@),
        },
{
    serde_json::from_str(text).map_err(|e: serde_json::Error| e.to_string())
}

/// The variants of `serde_json::Value`, one for one. The members of an object
/// come in the order of its map, which holds each key once.
#[verifier::external_body]
fn open_value(v: Value) -> (r: Layer)
    ensures
        layer_model(r) == value_model(v),
        r matches Layer::Object(entries) ==> distinct_keys(entry_models(entries@)),
{
    match v {
        Value::Null => Layer::Null,
        Value::Bool(b) => Layer::Bool(b),
        Value::Number(n) => Layer::Number(n),
        Value::String(s) => Layer::Text(s),
        Value::Array(items) => Layer::Array(items),
        Value::Object(map) => Layer::Object(
            map.into_iter().map(|(key, value)| Entry { key, value }).collect(),
        ),
    }
}

/// The variants of `serde_json::Value`, put together one for one. A map that
/// gets each key once keeps the members and their order.
#[verifier::external_body]
fn close_value(layer: Layer) -> (r: Value)
    requires
        layer matches Layer::Object(entries) ==> distinct_keys(entry_models(entries@)),
    ensures
        value_model(r) == layer_model(layer),
{
    match layer {
        Layer::Null => Value::Null,
        Layer::Bool(b) => Value::Bool(b),
        Layer::Number(n) => Value::Number(n),
        Layer::Text(s) => Value::String(s),
        Layer::Array(items) => Value::Array(items),
        Layer::Object(entries) => Value::Object(
            entries.into_iter().map(|e| (e.key, e.value)).collect(),
        ),
    }
}

/// `Number::as_u64` and `Number::as_i64` tell the integers from 0 up, the
/// integers below 0 and the other numbers apart.
#[verifier::external_body]
fn open_number(n: Number) -> (r: JsonNumber)
    ensures
        match r {
            JsonNumber::Unsigned(u) => number_model(n) == NumberModel::Unsigned(u),
            JsonNumber::Negative(i) => i < 0 && number_model(n) == NumberModel::Negative(i),
            JsonNumber::Other(other) => other == n && number_model(n) == NumberModel::Other(n),
        },
{
    match (n.as_u64(), n.as_i64()) {
        (Some(u), _) => JsonNumber::Unsigned(u),
        (None, Some(i)) => JsonNumber::Negative(i),
        (None, None) => JsonNumber::Other(n),
    }
}

/// `Number` from a 64-bit integer from 0 up: it holds that integer.
#[verifier::external_body]
fn unsigned_number(n: u64) -> (r: Number)
    ensures
        number_model(r) == NumberModel::Unsigned(n),
{
    Number::from(n)
}

/// `Number` from a signed 64-bit integer: it holds that integer.
#[verifier::external_body]
fn signed_number(n: i64) -> (r: Number)
    ensures
        number_model(r) == signed_model(n),
{
    Number::from(n)
}

/// `Clone` of a `Number`: the same number.
#[verifier::external_body]
fn copy_number(n: &Number) -> (r: Number)
    ensures
        r == *n,
{
    n.clone()
}

/// The `==` of two `Number`s. Every number is equal to itself: those that are
/// no integers are finite.
#[verifier::external_body]
fn equal_numbers(a: &Number, b: &Number) -> (r: bool)
    ensures
        r == numbers_equal(*a, *b),
        *a == *b ==> r,
{
    a == b
}

/// `serde_json::to_string_pretty` of a `Value`. Writing a document of string
/// keys into memory has no way to fail. Reading what was written, with or
/// without a newline after it, gives the document back, down to the depth
/// that `serde_json::from_str` follows.
#[verifier::external_body]
fn write_pretty(v: &Value) -> (r: Result<String, String>)
    ensures
        r is Ok,
        r->Ok_0@ == json_pretty(value_model(*v)),
        json_depth(value_model(*v)) <= 127 ==> json_read(r->Ok_0@) == Some(value_model(*v)),
        json_depth(value_model(*v)) <= 127 ==> json_read(r->Ok_0@.push('\n')) == Some(
            value_model(*v),
        ),
{
    serde_json::to_string_pretty(v).map_err(|e| e.to_string())
}

/// The `Display` of a `Value`: its compact JSON text. Reading it gives the
/// document back, down to the depth that `serde_json::from_str` follows.
#[verifier::external_body]
fn write_compact(v: &Value) -> (r: String)
    ensures
        r@ == json_compact(value_model(*v)),
        json_depth(value_model(*v)) <= 127 ==> json_read(r@) == Some(value_model(*v)),
{
    v.to_string()
}

/// The 64-bit integer that a number is, if it is one.
#[derive(Debug, Clone, Copy, PartialEq, Eq, Structural)]
pub enum Integer {
    Unsigned(u64),
    Negative(i64),
    NoInteger,
}

impl JsonNumber {
    /// The integer that the number is.
    pub fn integer(&self) -> (r: Integer)
        ensures
            match self.model() {
                NumberModel::Unsigned(u) => r == Integer::Unsigned(u),
                NumberModel::Negative(i) => r == Integer::Negative(i) && i < 0,
                NumberModel::Other(_) => r == Integer::NoInteger,
            },
    {
        match self {
            JsonNumber::Unsigned(u) => Integer::Unsigned(*u),
            JsonNumber::Negative(i) => if *i < 0 {
                Integer::Negative(*i)
            } else {
                Integer::Unsigned(*i as u64)
            },
            JsonNumber::Other(n) => match open_number(copy_number(n)) {
                JsonNumber::Unsigned(u) => Integer::Unsigned(u),
                JsonNumber::Negative(i) => Integer::Negative(i),
                JsonNumber::Other(_) => Integer::NoInteger,
            },
        }
    }
}

fn number_of(n: &JsonNumber) -> (r: Number)
    ensures
        number_model(r) == n.model(),
{
    match n {
        JsonNumber::Unsigned(u) => unsigned_number(*u),
        JsonNumber::Negative(i) => signed_number(*i),
        JsonNumber::Other(other) => copy_number(other),
    }
}

/// A document out of its `serde_json` value.
fn from_value(v: Value) -> (r: Json)
    ensures
        r.model() == value_model(v),
    decreases value_model(v),
{
    let ghost goal = value_model(v);
    match open_value(v) {
        Layer::Null => Json::Null,
        Layer::Bool(b) => Json::Bool(b),
        Layer::Number(n) => Json::Number(open_number(n)),
        Layer::Text(s) => Json::Text(s),
        Layer::Array(items) => {
            let mut out: Vec<Json> = Vec::new();
            for item in it: items.into_iter()
                invariant
                    it.seq() == items@,
                    goal == JsonModel::Array(
                        Seq::new(items@.len(), |i: int| value_model(items@[i])),
                    ),
                    out.len() == it.index(),
                    goal == value_model(v),
                    forall|k: int|
                        0 <= k < out.len() ==> (#[trigger] out@[k]).model() == value_model(
                            items@[k],
                        ),
            {
                assert(item == items@[it.index()]);
                assert(goal->Array_0[it.index()] == value_model(item));
                out.push(from_value(item));
            }
            let r = Json::Array(out);
            assert(r.model()->Array_0 =~= goal->Array_0);
            r
        },
        Layer::Object(entries) => {
            let mut out: Vec<Member> = Vec::new();
            for entry in it: entries.into_iter()
                invariant
                    it.seq() == entries@,
                    goal == JsonModel::Object(entry_models(entries@)),
                    goal == value_model(v),
                    out.len() == it.index(),
                    forall|k: int|
                        0 <= k < out.len() ==> (#[trigger] out@[k]).key@ == entries@[k].key@
                            && out@[k].value.model() == value_model(entries@[k].value),
            {
                assert(entry == entries@[it.index()]);
                assert(goal->Object_0[it.index()].value == value_model(entry.value));
                out.push(Member { key: entry.key, value: from_value(entry.value) });
            }
            assert(JsonMap { members: out }.model() =~= entry_models(entries@));
            Json::Object(JsonMap { members: out })
        },
    }
}

/// The `serde_json` value of a document.
fn into_value(j: &Json) -> (r: Value)
    ensures
        value_model(r) == j.model(),
    decreases j,
{
    match j {
        Json::Null => close_value(Layer::Null),
        Json::Bool(b) => close_value(Layer::Bool(*b)),
        Json::Number(n) => close_value(Layer::Number(number_of(n))),
        Json::Text(s) => close_value(Layer::Text(copy_of(s.as_str()))),
        Json::Array(items) => {
            let out: Vec<Value> = into_values(items);
            let layer = Layer::Array(out);
            assert(layer_model(layer)->Array_0 =~= j.model()->Array_0);
            close_value(layer)
        },
        Json::Object(map) => close_value(Layer::Object(into_entries(map))),
    }
}

fn into_values(items: &Vec<Json>) -> (r: Vec<Value>)
    ensures
        r.len() == items.len(),
        forall|k: int| 0 <= k < r.len() ==> value_model(#[trigger] r@[k]) == items@[k].model(),
    decreases items,
{
    let mut out: Vec<Value> = Vec::new();
    let mut i: usize = 0;
    while i < items.len()
        invariant
            i <= items.len(),
            out.len() == i,
            forall|k: int| 0 <= k < i ==> value_model(#[trigger] out@[k]) == items@[k].model(),
        decreases items.len() - i,
    {
        out.push(into_value(&items[i]));
        i += 1;
    }
    out
}

fn into_entries(map: &JsonMap) -> (r: Vec<Entry>)
    ensures
        entry_models(r@) == map.model(),
        distinct_keys(entry_models(r@)),
    decreases map,
{
    let mut out: Vec<Entry> = Vec::new();
    let mut i: usize = 0;
    while i < map.members.len()
        invariant
            i <= map.members.len(),
            out.len() == i,
            forall|k: int|
                0 <= k < i ==> (#[trigger] out@[k]).key@ == map.members@[k].key@ && value_model(
                    out@[k].value,
                ) == map.members@[k].value.model(),
        decreases map.members.len() - i,
    {
        let member: &Member = &map.members[i];
        out.push(Entry { key: copy_of(member.key.as_str()), value: into_value(&member.value) });
        i += 1;
    }
    proof {
        use_type_invariant(map);
        assert(entry_models(out@) =~= map.model());
    }
    out
}

impl Json {
    /// Reads a JSON text; the error says what is wrong with it.
    pub fn parse(text: &str) -> (r: Result<Json, String>)
        ensures
            match json_read(text@) {
                Some(doc) => r matches Ok(j) && j.model() == doc,
                None => r matches Err(msg) && msg@ == json_complaint(text@),
            },
    {
        match read_value(text) {
            Ok(v) => Ok(from_value(v)),
            Err(msg) => Err(msg),
        }
    }

    /// The indented JSON text of the document. Reading it, with or without a
    /// newline after it, gives the document back, down to the depth that a
    /// reader follows.
    pub fn to_pretty(&self) -> (r: Result<String, String>)
        ensures
            r matches Ok(text) && text@ == json_pretty(self.model()) && (json_depth(self.model())
                <= 127 ==> json_read(text@) == Some(self.model()) && json_read(text@.push('\n'))
                == Some(self.model())),
    {
        write_pretty(&into_value(self))
    }

    /// The compact JSON text of the document. Reading it gives the document
    /// back, down to the depth that a reader follows.
    pub fn to_compact(&self) -> (r: String)
        ensures
            r@ == json_compact(self.model()),
            json_depth(self.model()) <= 127 ==> json_read(r@) == Some(self.model()),
    {
        write_compact(&into_value(self))
    }

    /// The member of an object.
    pub fn get(&self, key: &str) -> (r: Option<&Json>)
        ensures
            match self.model() {
                JsonModel::Object(members) => match lookup(members, key@) {
                    Some(value) => r matches Some(v) && v.model() == value,
                    None => r is None,
                },
                _ => r is None,
            },
    {
        match self {
            Json::Object(map) => map.get(key),
            _ => None,
        }
    }

    /// The JSON name of the document's type.
    pub fn kind_name(&self) -> (r: &'static str)
        ensures
            r@ == json_kind_name(self.model()),
    {
        match self {
            Json::Null => "null",
            Json::Bool(_) => "bool",
            Json::Number(_) => "number",
            Json::Text(_) => "string",
            Json::Array(_) => "array",
            Json::Object(_) => "object",
        }
    }
}

/// The JSON name of a document's type.
pub open spec fn json_kind_name(doc: JsonModel) -> Seq<char> {
    match doc {
        JsonModel::Null => "null"@,
        JsonModel::Bool(_) => "bool"@,
        JsonModel::Number(_) => "number"@,
        JsonModel::Text(_) => "string"@,
        JsonModel::Array(_) => "array"@,
        JsonModel::Object(_) => "object"@,
    }
}

// -------------------------------------------------------- members as a mapping

/// The mapping that members make: the first member of a key counts.
pub open spec fn mapping(members: Seq<MemberModel>) -> Map<Seq<char>, JsonModel>
    decreases members.len(),
{
    if members.len() == 0 {
        Map::empty()
    } else {
        let before = mapping(members.drop_last());
        if before.contains_key(members.last().key) {
            before
        } else {
            before.insert(members.last().key, members.last().value)
        }
    }
}

/// Looking a key up is applying the mapping.
pub proof fn lemma_mapping(members: Seq<MemberModel>, key: Seq<char>)
    ensures
        mapping(members).contains_key(key) <==> has_key(members, key),
        lookup(members, key) == if mapping(members).contains_key(key) {
            Some(mapping(members)[key])
        } else {
            None
        },
    decreases members.len(),
{
    lemma_key_index(members, key);
    if members.len() > 0 {
        let init = members.drop_last();
        lemma_mapping(init, key);
        lemma_mapping(init, members.last().key);
        lemma_key_index(init, key);
        lemma_key_index(init, members.last().key);
    }
}

/// Setting a new key appends it, and extends the mapping.
pub proof fn lemma_put_new(members: Seq<MemberModel>, key: Seq<char>, value: JsonModel)
    requires
        !mapping(members).contains_key(key),
    ensures
        with_member(members, key, value) == members.push(MemberModel { key, value }),
        mapping(with_member(members, key, value)) == mapping(members).insert(key, value),
{
    lemma_mapping(members, key);
    lemma_key_index(members, key);
    let after = members.push(MemberModel { key, value });
    assert(after.drop_last() =~= members);
}

/// Members of new and distinct keys, set on top, are appended.
pub proof fn lemma_put_all_new(members: Seq<MemberModel>, more: Seq<MemberModel>)
    requires
        distinct_keys(more),
        forall|i: int|
            0 <= i < more.len() ==> !mapping(members).contains_key((#[trigger] more[i]).key),
    ensures
        put_all(members, more) == members + more,
        forall|k: Seq<char>| #[trigger]
            mapping(put_all(members, more)).contains_key(k) <==> mapping(members).contains_key(k)
                || has_key(more, k),
        forall|k: Seq<char>|
            mapping(members).contains_key(k) ==> #[trigger] mapping(put_all(members, more))[k]
                == mapping(members)[k],
    decreases more.len(),
{
    if more.len() == 0 {
        assert(members + more =~= members);
    } else {
        let init = more.drop_last();
        let last = more.last();
        assert(distinct_keys(init)) by {
            assert forall|i: int, j: int| 0 <= i < j < init.len() implies (#[trigger] init[i]).key
                != (#[trigger] init[j]).key by {
                assert(more[i].key != more[j].key);
            }
        }
        assert forall|i: int| 0 <= i < init.len() implies !mapping(members).contains_key(
            (#[trigger] init[i]).key,
        ) by {
            assert(more[i].key == init[i].key);
        }
        lemma_put_all_new(members, init);
        let before = put_all(members, init);
        assert(!mapping(members).contains_key(more[more.len() - 1].key));
        assert(!has_key(init, last.key)) by {
            if has_key(init, last.key) {
                let i = choose|i: int| 0 <= i < init.len() && (#[trigger] init[i]).key == last.key;
                assert(more[i].key != more[more.len() - 1].key);
            }
        }
        lemma_put_new(before, last.key, last.value);
        assert(put_all(members, more) =~= members + more);
        assert forall|k: Seq<char>| #[trigger]
            mapping(put_all(members, more)).contains_key(k) <==> mapping(members).contains_key(k)
                || has_key(more, k) by {
            if has_key(more, k) {
                let i = choose|i: int| 0 <= i < more.len() && (#[trigger] more[i]).key == k;
                if i < init.len() {
                    assert(init[i].key == k);
                }
            }
            if has_key(init, k) {
                let i = choose|i: int| 0 <= i < init.len() && (#[trigger] init[i]).key == k;
                assert(more[i].key == k);
            }
            assert(more[more.len() - 1].key == last.key);
        }
    }
}

/// What is left of members when keys are taken out, piece by piece.
pub proof fn lemma_members_except_concat(
    a: Seq<MemberModel>,
    b: Seq<MemberModel>,
    keys: Seq<Seq<char>>,
)
    ensures
        members_except(a + b, keys) == members_except(a, keys) + members_except(b, keys),
    decreases b.len(),
{
    if b.len() == 0 {
        assert(a + b =~= a);
        assert(members_except(a, keys) + members_except(b, keys) =~= members_except(a, keys));
    } else {
        assert((a + b).drop_last() =~= a + b.drop_last());
        lemma_members_except_concat(a, b.drop_last(), keys);
        assert(members_except(a + b, keys) =~= members_except(a, keys) + members_except(b, keys));
    }
}

/// Taking out keys that no member has leaves the members.
pub proof fn lemma_members_except_none(members: Seq<MemberModel>, keys: Seq<Seq<char>>)
    requires
        forall|i: int| 0 <= i < members.len() ==> !keys.contains((#[trigger] members[i]).key),
    ensures
        members_except(members, keys) == members,
    decreases members.len(),
{
    if members.len() > 0 {
        let init = members.drop_last();
        assert forall|i: int| 0 <= i < init.len() implies !keys.contains(
            (#[trigger] init[i]).key,
        ) by {
            assert(members[i].key == init[i].key);
        }
        lemma_members_except_none(init, keys);
        assert(!keys.contains(members[members.len() - 1].key));
        assert(members_except(members, keys) =~= members);
    } else {
        assert(members_except(members, keys) =~= members);
    }
}

} // verus!
