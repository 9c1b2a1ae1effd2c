//! JSON values and their structural equality.

use vstd::prelude::*;
use crate::number::Decimal;
use crate::number::Number;

verus! {

/// A JSON value as a mathematical object.
///
/// The members of an object are kept in the order in which they were
/// written. Where a name occurs more than once, the last member of that name
/// is the one that a lookup finds.
pub enum Json {
    Null,
    Bool(bool),
    Number(Decimal),
    String(Seq<char>),
    Array(Seq<Json>),
    Object(Seq<(Seq<char>, Json)>),
}

/// The index of the last occurrence of `name` in `names`, or `-1` where it
/// does not occur.
pub open spec fn position(names: Seq<Seq<char>>, name: Seq<char>) -> int
    decreases names.len(),
{
    if names.len() == 0 {
        -1
    } else if names.last() == name {
        names.len() - 1
    } else {
        position(names.drop_last(), name)
    }
}

/// The names of the members of an object, in order.
pub open spec fn member_names(members: Seq<(Seq<char>, Json)>) -> Seq<Seq<char>> {
    Seq::new(members.len(), |i: int| members[i].0)
}

/// The names under which a list of named entries is kept, in order.
pub open spec fn entry_names<T>(entries: Seq<(String, T)>) -> Seq<Seq<char>> {
    Seq::new(entries.len(), |i: int| entries[i].0@)
}

/// The largest height among `items`.
pub open spec fn tallest(items: Seq<Json>) -> nat
    decreases items,
{
    if items.len() == 0 {
        0
    } else {
        let rest = tallest(items.drop_last());
        let last = items.last().height();
        if last > rest {
            last
        } else {
            rest
        }
    }
}

/// The largest height among the values of `members`.
pub open spec fn tallest_member(members: Seq<(Seq<char>, Json)>) -> nat
    decreases members,
{
    if members.len() == 0 {
        0
    } else {
        let rest = tallest_member(members.drop_last());
        let last = members.last().1.height();
        if last > rest {
            last
        } else {
            rest
        }
    }
}

impl Json {
    /// The members of an object; none for any other value.
    pub open spec fn members(self) -> Seq<(Seq<char>, Json)> {
        match self {
            Json::Object(members) => members,
            _ => Seq::empty(),
        }
    }

    /// The elements of an array; none for any other value.
    pub open spec fn items(self) -> Seq<Json> {
        match self {
            Json::Array(items) => items,
            _ => Seq::empty(),
        }
    }

    /// The index of the member called `name`, or `-1`.
    pub open spec fn find(self, name: Seq<char>) -> int {
        position(member_names(self.members()), name)
    }

    /// Whether the value is an object with a member called `name`.
    pub open spec fn has(self, name: Seq<char>) -> bool {
        0 <= self.find(name) < self.members().len()
    }

    /// The value of the member called `name`, where there is one.
    pub open spec fn get(self, name: Seq<char>) -> Json {
        self.members()[self.find(name)].1
    }

    /// How deeply arrays and objects are nested in the value: `0` for a
    /// scalar, one more than its tallest element for an array or object.
    pub open spec fn height(self) -> nat
        decreases self,
    {
        match self {
            Json::Array(items) => 1 + tallest(items),
            Json::Object(members) => 1 + tallest_member(members),
            _ => 0,
        }
    }

    /// No object in the value, at any depth, has two members of one name.
    pub open spec fn wf(self) -> bool
        decreases self,
    {
        match self {
            Json::Array(items) => forall|i: int|
                0 <= i < items.len() ==> (#[trigger] items[i]).wf(),
            Json::Object(members) => {
                &&& member_names(members).no_duplicates()
                &&& forall|i: int| 0 <= i < members.len() ==> (#[trigger] members[i]).1.wf()
            },
            _ => true,
        }
    }

    /// Structural equality: the same kind of value and, for numbers, the same
    /// number however it is written; for strings, the same characters; for
    /// arrays, equal elements in the same order; for objects, as many
    /// members, each of which the other object has under the same name with
    /// an equal value.
    pub open spec fn equal(self, other: Json) -> bool
        decreases self,
    {
        match self {
            Json::Null => other is Null,
            Json::Bool(x) => other == Json::Bool(x),
            Json::Number(x) => match other {
                Json::Number(y) => x.same(y),
                _ => false,
            },
            Json::String(x) => other == Json::String(x),
            Json::Array(xs) => match other {
                Json::Array(ys) => {
                    &&& xs.len() == ys.len()
                    &&& forall|i: int|
                        0 <= i < xs.len() ==> (#[trigger] xs[i]).equal(ys[i])
                },
                _ => false,
            },
            Json::Object(xs) => match other {
                Json::Object(ys) => {
                    &&& xs.len() == ys.len()
                    &&& forall|i: int|
                        0 <= i < xs.len() ==> {
                            let k = position(member_names(ys), (#[trigger] xs[i]).0);
                            0 <= k < ys.len() && xs[i].1.equal(ys[k].1)
                        }
                },
                _ => false,
            },
        }
    }
}

/// Where `position` points.
pub proof fn lemma_position(names: Seq<Seq<char>>, name: Seq<char>)
    ensures
        -1 <= position(names, name) < names.len(),
        position(names, name) >= 0 ==> names[position(names, name)] == name,
        forall|i: int| position(names, name) < i < names.len() ==> names[i] != name,
    decreases names.len(),
{
    if names.len() > 0 {
        lemma_position(names.drop_last(), name);
        assert forall|i: int| position(names, name) < i < names.len() implies names[i]
            != name by {
            if i < names.len() - 1 {
                assert(names.drop_last()[i] == names[i]);
            }
        }
    }
}

/// An element is lower than the array that holds it.
pub proof fn lemma_tallest(items: Seq<Json>, i: int)
    requires
        0 <= i < items.len(),
    ensures
        items[i].height() <= tallest(items),
    decreases items.len(),
{
    if i < items.len() - 1 {
        lemma_tallest(items.drop_last(), i);
    }
}

/// A member's value is lower than the object that holds it.
pub proof fn lemma_tallest_member(members: Seq<(Seq<char>, Json)>, i: int)
    requires
        0 <= i < members.len(),
    ensures
        members[i].1.height() <= tallest_member(members),
    decreases members.len(),
{
    if i < members.len() - 1 {
        lemma_tallest_member(members.drop_last(), i);
    }
}

/// A JSON value.
#[derive(Debug)]
pub enum Value {
    Null,
    Bool(bool),
    Number(Number),
    String(String),
    Array(Vec<Value>),
    Object(Vec<(String, Value)>),
}

/// The mathematical values of a list of values.
pub open spec fn items_view(items: Seq<Value>) -> Seq<Json>
    decreases items,
{
    Seq::new(
        items.len(),
        |i: int|
            if 0 <= i < items.len() {
                items[i].view()
            } else {
                Json::Null
            },
    )
}

/// The mathematical members of a list of members.
pub open spec fn members_view(members: Seq<(String, Value)>) -> Seq<(Seq<char>, Json)>
    decreases members,
{
    Seq::new(
        members.len(),
        |i: int|
            if 0 <= i < members.len() {
                (members[i].0@, members[i].1.view())
            } else {
                (Seq::empty(), Json::Null)
            },
    )
}

impl View for Value {
    type V = Json;

    open spec fn view(&self) -> Json
        decreases self,
    {
        match self {
            Value::Null => Json::Null,
            Value::Bool(b) => Json::Bool(*b),
            Value::Number(n) => Json::Number(n@),
            Value::String(s) => Json::String(s@),
            Value::Array(items) => Json::Array(items_view(items@)),
            Value::Object(members) => Json::Object(members_view(members@)),
        }
    }
}

/// The index of the last entry called `name`.
pub fn find_entry<T>(entries: &Vec<(String, T)>, name: &String) -> (r: Option<usize>)
    ensures
        match r {
            Some(k) => k < entries.len() && k as int == position(entry_names(entries@), name@),
            None => position(entry_names(entries@), name@) == -1,
        },
{
    let ghost names = entry_names(entries@);
    let mut found: Option<usize> = None;
    let mut i: usize = 0;
    while i < entries.len()
        invariant
            i <= entries.len(),
            names == entry_names(entries@),
            match found {
                Some(k) => k < i && k as int == position(names.take(i as int), name@),
                None => position(names.take(i as int), name@) == -1,
            },
        decreases entries.len() - i,
    {
        proof {
            assert(names.take(i + 1).drop_last() =~= names.take(i as int));
            assert(names.take(i + 1).last() == entries@[i as int].0@);
        }
        if entries[i].0 == *name {
            found = Some(i);
        }
        i = i + 1;
    }
    proof {
        assert(names.take(i as int) =~= names);
    }
    found
}

impl Value {
    /// The index of the last member called `name`, for an object.
    pub fn find(&self, name: &str) -> (r: Option<usize>)
        ensures
            match r {
                Some(k) => self@.find(name@) == k && k < self@.members().len(),
                None => !self@.has(name@),
            },
    {
        match self {
            Value::Object(members) => {
                let owned = String::from_str(name);
                proof {
                    assert(entry_names(members@) =~= member_names(members_view(members@)));
                }
                find_entry(members, &owned)
            },
            _ => None,
        }
    }

    /// The value of the last member called `name`, for an object that has
    /// one. It is less deeply nested than the object.
    pub fn get(&self, name: &str) -> (r: Option<&Value>)
        ensures
            match r {
                Some(v) => self@.has(name@) && v@ == self@.get(name@) && v@.height()
                    < self@.height(),
                None => !self@.has(name@),
            },
    {
        match self {
            Value::Object(members) => {
                let owned = String::from_str(name);
                proof {
                    assert(entry_names(members@) =~= member_names(members_view(members@)));
                }
                match find_entry(members, &owned) {
                    Some(k) => {
                        proof {
                            lemma_tallest_member(members_view(members@), k as int);
                        }
                        Some(&members[k].1)
                    },
                    None => None,
                }
            },
            _ => None,
        }
    }

    /// Structural equality of two values.
    #[verifier::loop_isolation(false)]
    pub fn equals(&self, other: &Value) -> (r: bool)
        ensures
            r == self@.equal(other@),
        decreases self,
    {
        match (self, other) {
            (Value::Null, Value::Null) => true,
            (Value::Bool(x), Value::Bool(y)) => *x == *y,
            (Value::Number(x), Value::Number(y)) => x.same(y),
            (Value::String(x), Value::String(y)) => {
                let same: bool = *x == *y;
                same
            },
            (Value::Array(xs), Value::Array(ys)) => {
                if xs.len() != ys.len() {
                    return false;
                }
                let mut i: usize = 0;
                while i < xs.len()
                    invariant
                        i <= xs.len(),
                        forall|j: int|
                            0 <= j < i ==> (#[trigger] items_view(xs@)[j]).equal(
                                items_view(ys@)[j],
                            ),
                    decreases xs.len() - i,
                {
                    if !xs[i].equals(&ys[i]) {
                        assert(!items_view(xs@)[i as int].equal(items_view(ys@)[i as int]));
                        return false;
                    }
                    i = i + 1;
                }
                true
            },
            (Value::Object(xs), Value::Object(ys)) => {
                assert(self@ == Json::Object(members_view(xs@)));
                assert(other@ == Json::Object(members_view(ys@)));
                assert(members_view(xs@).len() == xs.len());
                if xs.len() != ys.len() {
                    return false;
                }
                let ghost left = members_view(xs@);
                let ghost right = members_view(ys@);
                proof {
                    assert(entry_names(ys@) =~= member_names(right));
                }
                let mut i: usize = 0;
                while i < xs.len()
                    invariant
                        i <= xs.len(),
                        forall|j: int|
                            0 <= j < i ==> {
                                let k = position(member_names(right), (#[trigger] left[j]).0);
                                0 <= k < right.len() && left[j].1.equal(right[k].1)
                            },
                    decreases xs.len() - i,
                {
                    let hit = find_entry(ys, &xs[i].0);
                    let ghost k = position(member_names(right), left[i as int].0);
                    match hit {
                        None => {
                            assert(k == -1);
                            return false;
                        },
                        Some(at) => {
                            if !xs[i].1.equals(&ys[at].1) {
                                assert(!left[i as int].1.equal(right[k].1));
                                return false;
                            }
                        },
                    }
                    i = i + 1;
                }
                true
            },
            _ => false,
        }
    }
}

impl Clone for Value {
    /// A copy that stands for the same mathematical value.
    #[verifier::loop_isolation(false)]
    fn clone(&self) -> (r: Value)
        ensures
            r@ == self@,
        decreases self,
    {
        match self {
            Value::Null => Value::Null,
            Value::Bool(b) => Value::Bool(*b),
            Value::Number(n) => Value::Number(n.clone()),
            Value::String(s) => Value::String(s.clone()),
            Value::Array(items) => {
                let mut out: Vec<Value> = Vec::new();
                let mut i: usize = 0;
                while i < items.len()
                    invariant
                        i <= items.len(),
                        out@.len() == i,
                        forall|j: int| 0 <= j < i ==> (#[trigger] out@[j])@ == items@[j]@,
                    decreases items.len() - i,
                {
                    out.push(items[i].clone());
                    i = i + 1;
                }
                proof {
                    assert(items_view(out@) =~= items_view(items@));
                }
                Value::Array(out)
            },
            Value::Object(members) => {
                let mut out: Vec<(String, Value)> = Vec::new();
                let mut i: usize = 0;
                while i < members.len()
                    invariant
                        i <= members.len(),
                        out@.len() == i,
                        forall|j: int|
                            0 <= j < i ==> (#[trigger] out@[j]).0@ == members@[j].0@
                                && out@[j].1@ == members@[j].1@,
                    decreases members.len() - i,
                {
                    out.push((members[i].0.clone(), members[i].1.clone()));
                    i = i + 1;
                }
                proof {
                    assert(members_view(out@) =~= members_view(members@));
                }
                Value::Object(out)
            },
        }
    }
}

} // verus!
