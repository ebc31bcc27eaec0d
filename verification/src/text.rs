//! Textual documents: the generic, JSON-like value that test bodies and
//! expectations are written in.

use crate::float::{
    double_from_int, double_from_nat, double_is_finite, double_of_i64, double_of_u64,
};
use vstd::prelude::*;

verus! {

/// A number of a textual document.
///
/// A whole number that is zero or more is a `PosInt`, a whole number below
/// zero is a `NegInt`, and every other number is a `Float`, held as the bit
/// pattern of an IEEE-754 double.
#[derive(Clone, Copy, Debug)]
pub enum Number {
    PosInt(u64),
    NegInt(i64),
    Float(u64),
}

/// One member of an object: a name and the value under it.
#[derive(Debug)]
pub struct Member {
    pub key: String,
    pub value: Json,
}

/// A textual document.
#[derive(Debug)]
pub enum Json {
    Null,
    Bool(bool),
    Number(Number),
    Text(String),
    Array(Vec<Json>),
    Object(Vec<Member>),
}

/// The mathematical content of a [`Json`]: strings are sequences of
/// characters, arrays are sequences, objects are sequences of named values in
/// the order in which the document lists them.
pub enum JsonView {
    Null,
    Bool(bool),
    Number(Number),
    Text(Seq<char>),
    Array(Seq<JsonView>),
    Object(Seq<(Seq<char>, JsonView)>),
}

impl View for Json {
    type V = JsonView;

    open spec fn view(&self) -> JsonView {
        json_view(*self)
    }
}

/// The content of a document.
pub open spec fn json_view(doc: Json) -> JsonView
    decreases doc,
{
    match doc {
        Json::Null => JsonView::Null,
        Json::Bool(b) => JsonView::Bool(b),
        Json::Number(n) => JsonView::Number(n),
        Json::Text(s) => JsonView::Text(s@),
        Json::Array(items) => JsonView::Array(items_view(items@)),
        Json::Object(members) => JsonView::Object(members_view(members@)),
    }
}

/// The contents of the items of an array, in their order.
pub open spec fn items_view(items: Seq<Json>) -> Seq<JsonView>
    decreases items,
{
    if items.len() == 0 {
        Seq::empty()
    } else {
        items_view(items.drop_last()).push(json_view(items.last()))
    }
}

/// The members of an object, each as its name and its content, in their order.
pub open spec fn members_view(members: Seq<Member>) -> Seq<(Seq<char>, JsonView)>
    decreases members,
{
    if members.len() == 0 {
        Seq::empty()
    } else {
        members_view(members.drop_last()).push(
            (members.last().key@, json_view(members.last().value)),
        )
    }
}

/// The contents of the items stand item by item.
pub proof fn lemma_items_view(items: Seq<Json>)
    ensures
        items_view(items).len() == items.len(),
        forall|i: int| 0 <= i < items.len() ==> items_view(items)[i] == items[i]@,
    decreases items.len(),
{
    if items.len() > 0 {
        lemma_items_view(items.drop_last());
    }
}

/// An array with one more item holds the contents of the array and of the item.
pub proof fn lemma_items_view_push(items: Seq<Json>, item: Json)
    ensures
        items_view(items.push(item)) == items_view(items).push(item@),
{
    assert(items.push(item).drop_last() == items);
}

/// The members of an object stand member by member.
pub proof fn lemma_members_view(members: Seq<Member>)
    ensures
        members_view(members).len() == members.len(),
        forall|i: int|
            0 <= i < members.len() ==> members_view(members)[i] == (
                members[i].key@,
                members[i].value@,
            ),
    decreases members.len(),
{
    if members.len() > 0 {
        lemma_members_view(members.drop_last());
    }
}

/// The place of the first member called `key`, or the number of members where
/// none is.
pub open spec fn position<V>(members: Seq<(Seq<char>, V)>, key: Seq<char>) -> int
    decreases members.len(),
{
    if members.len() == 0 {
        0
    } else if members[0].0 == key {
        0
    } else {
        1 + position(members.drop_first(), key)
    }
}

/// The position is in range, holds the name where it is a place, and no
/// earlier place holds it.
pub proof fn lemma_position<V>(members: Seq<(Seq<char>, V)>, key: Seq<char>)
    ensures
        0 <= position(members, key) <= members.len(),
        position(members, key) < members.len() ==> members[position(members, key)].0 == key,
        forall|i: int| 0 <= i < position(members, key) ==> (#[trigger] members[i]).0 != key,
    decreases members.len(),
{
    if members.len() > 0 && members[0].0 != key {
        let rest = members.drop_first();
        lemma_position(rest, key);
        assert forall|i: int| 0 <= i < position(members, key) implies (#[trigger] members[i]).0
            != key by {
            if i > 0 {
                assert(members[i] == rest[i - 1]);
            }
        }
    }
}

/// Where `at` is the first place that holds `key`, it is the position of `key`.
pub proof fn lemma_position_is<V>(members: Seq<(Seq<char>, V)>, key: Seq<char>, at: int)
    requires
        0 <= at <= members.len(),
        at < members.len() ==> members[at].0 == key,
        forall|i: int| 0 <= i < at ==> (#[trigger] members[i]).0 != key,
    ensures
        position(members, key) == at,
{
    lemma_position(members, key);
    let p = position(members, key);
    if p < at {
        assert(members[p].0 != key);
    } else if at < p {
        assert(members[at].0 != key);
    }
}

impl Json {
    /// The place of the first member of `members` whose name is `key`.
    #[verifier::loop_isolation(false)]
    pub fn find(members: &Vec<Member>, key: &String) -> (at: Option<usize>)
        ensures
            match at {
                Some(i) => i < members.len() && i == position(members_view(members@), key@),
                None => position(members_view(members@), key@) == members.len(),
            },
    {
        proof {
            lemma_members_view(members@);
        }
        let ghost view = members_view(members@);
        let mut i: usize = 0;
        while i < members.len()
            invariant
                i <= members.len(),
                view == members_view(members@),
                forall|j: int| 0 <= j < i ==> (#[trigger] view[j]).0 != key@,
            decreases members.len() - i,
        {
            if members[i].key == *key {
                proof {
                    lemma_position_is(view, key@, i as int);
                }
                return Some(i);
            }
            i += 1;
        }
        proof {
            lemma_position_is(view, key@, i as int);
        }
        None
    }
}

/// Whether two doubles, given by their bit patterns, compare equal: the same
/// pattern, or zero and negative zero.
pub open spec fn float_equal(x: u64, y: u64) -> bool {
    x == y || (float_is_zero(x) && float_is_zero(y))
}

/// Whether a bit pattern is that of zero or of negative zero.
pub open spec fn float_is_zero(x: u64) -> bool {
    x == 0 || x == 0x8000_0000_0000_0000
}

impl Number {
    /// A number as a parsed document holds it: negative whole numbers are
    /// below zero, and a float is finite.
    pub open spec fn wf(self) -> bool {
        match self {
            Number::PosInt(_) => true,
            Number::NegInt(n) => n < 0,
            Number::Float(bits) => double_is_finite(bits),
        }
    }

    /// Equality of two numbers: of the same form, and equal in it.
    pub open spec fn same(self, other: Number) -> bool {
        match (self, other) {
            (Number::PosInt(x), Number::PosInt(y)) => x == y,
            (Number::NegInt(x), Number::NegInt(y)) => x == y,
            (Number::Float(x), Number::Float(y)) => float_equal(x, y),
            _ => false,
        }
    }

    /// The number as a signed whole number of 64 bits, where it is one.
    pub open spec fn as_i64(self) -> Option<i64> {
        match self {
            Number::PosInt(n) => if n <= i64::MAX {
                Some(n as i64)
            } else {
                None
            },
            Number::NegInt(n) => Some(n),
            Number::Float(_) => None,
        }
    }

    /// The number as an unsigned whole number of 64 bits, where it is one.
    pub open spec fn as_u64(self) -> Option<u64> {
        match self {
            Number::PosInt(n) => Some(n),
            _ => None,
        }
    }

    /// The bit pattern of the double nearest to the number.
    pub open spec fn as_double(self) -> u64 {
        match self {
            Number::PosInt(n) => double_from_nat(n as nat) as u64,
            Number::NegInt(n) => double_from_int(n as int) as u64,
            Number::Float(bits) => bits,
        }
    }

    /// The number as a signed whole number of 64 bits, where it is one.
    pub fn to_i64(&self) -> (r: Option<i64>)
        ensures
            r == self.as_i64(),
    {
        match self {
            Number::PosInt(n) => if *n <= 0x7fff_ffff_ffff_ffff {
                Some(*n as i64)
            } else {
                None
            },
            Number::NegInt(n) => Some(*n),
            Number::Float(_) => None,
        }
    }

    /// The number as an unsigned whole number of 64 bits, where it is one.
    pub fn to_u64(&self) -> (r: Option<u64>)
        ensures
            r == self.as_u64(),
    {
        match self {
            Number::PosInt(n) => Some(*n),
            _ => None,
        }
    }

    /// The bit pattern of the double nearest to the number.
    pub fn to_double(&self) -> (r: u64)
        ensures
            r == self.as_double(),
    {
        match self {
            Number::PosInt(n) => double_of_u64(*n),
            Number::NegInt(n) => double_of_i64(*n),
            Number::Float(bits) => *bits,
        }
    }

    /// The number that stands for a whole number in a document.
    pub open spec fn of_int(n: int) -> Number {
        if n >= 0 {
            Number::PosInt(n as u64)
        } else {
            Number::NegInt(n as i64)
        }
    }

    /// The number that stands for `n` in a document.
    pub fn from_i64(n: i64) -> (r: Number)
        ensures
            r == Number::of_int(n as int),
            r.wf(),
    {
        if n >= 0 {
            Number::PosInt(n as u64)
        } else {
            Number::NegInt(n)
        }
    }

    /// Whether two numbers are equal: of the same form, and equal in it.
    pub fn equals(&self, other: &Number) -> (r: bool)
        ensures
            r == self.same(*other),
    {
        match (self, other) {
            (Number::PosInt(x), Number::PosInt(y)) => *x == *y,
            (Number::NegInt(x), Number::NegInt(y)) => *x == *y,
            (Number::Float(x), Number::Float(y)) => {
                *x == *y || ((*x == 0 || *x == 0x8000_0000_0000_0000) && (*y == 0 || *y
                    == 0x8000_0000_0000_0000))
            },
            _ => false,
        }
    }
}

/// No two members have the same name.
pub open spec fn distinct_keys<V>(members: Seq<(Seq<char>, V)>) -> bool {
    forall|i: int, j: int|
        0 <= i < j < members.len() ==> (#[trigger] members[i]).0 != (#[trigger] members[j]).0
}

/// The members with `value` under `key`: in the place of the first member
/// called `key`, or at the end where there is none.
pub open spec fn put<V>(members: Seq<(Seq<char>, V)>, key: Seq<char>, value: V) -> Seq<
    (Seq<char>, V),
> {
    let at = position(members, key);
    if at < members.len() {
        members.update(at, (key, value))
    } else {
        members.push((key, value))
    }
}

impl JsonView {
    /// A document as a parser hands it out: in every object the names are
    /// distinct, and every number is well formed.
    pub open spec fn wf(self) -> bool
        decreases self,
    {
        match self {
            JsonView::Number(n) => n.wf(),
            JsonView::Array(items) => forall|i: int|
                0 <= i < items.len() ==> (#[trigger] items[i]).wf(),
            JsonView::Object(members) => distinct_keys(members) && forall|i: int|
                0 <= i < members.len() ==> (#[trigger] members[i]).1.wf(),
            _ => true,
        }
    }

    /// Equality of documents: equal leaves, arrays equal item by item, and
    /// objects that hold equal values under the same names, in whatever order.
    pub open spec fn same(self, other: JsonView) -> bool
        decreases self,
    {
        match (self, other) {
            (JsonView::Null, JsonView::Null) => true,
            (JsonView::Bool(x), JsonView::Bool(y)) => x == y,
            (JsonView::Number(x), JsonView::Number(y)) => x.same(y),
            (JsonView::Text(x), JsonView::Text(y)) => x == y,
            (JsonView::Array(x), JsonView::Array(y)) => x.len() == y.len() && forall|i: int|
                #![trigger x[i]]
                0 <= i < x.len() ==> x[i].same(y[i]),
            (JsonView::Object(x), JsonView::Object(y)) => {
                &&& forall|i: int|
                    #![trigger x[i]]
                    0 <= i < x.len() ==> position(y, x[i].0) < y.len() && x[i].1.same(
                        y[position(y, x[i].0)].1,
                    )
                &&& forall|j: int|
                    #![trigger y[j]]
                    0 <= j < y.len() ==> position(x, y[j].0) < x.len()
            },
            _ => false,
        }
    }
}

impl Json {
    /// Whether two documents are equal, member order aside.
    #[verifier::loop_isolation(false)]
    pub fn equals(&self, other: &Json) -> (r: bool)
        ensures
            r == self@.same(other@),
        decreases self,
    {
        match (self, other) {
            (Json::Null, Json::Null) => true,
            (Json::Bool(x), Json::Bool(y)) => *x == *y,
            (Json::Number(x), Json::Number(y)) => x.equals(y),
            (Json::Text(x), Json::Text(y)) => *x == *y,
            (Json::Array(x), Json::Array(y)) => {
                proof {
                    lemma_items_view(x@);
                    lemma_items_view(y@);
                }
                if x.len() != y.len() {
                    return false;
                }
                let mut i: usize = 0;
                while i < x.len()
                    invariant
                        i <= x.len(),
                        forall|k: int| 0 <= k < i ==> (#[trigger] x@[k])@.same(y@[k]@),
                    decreases x.len() - i,
                {
                    if !x[i].equals(&y[i]) {
                        assert(!items_view(x@)[i as int].same(items_view(y@)[i as int]));
                        return false;
                    }
                    i += 1;
                }
                assert forall|k: int| 0 <= k < x@.len() implies (#[trigger] items_view(
                    x@,
                )[k]).same(items_view(y@)[k]) by {
                    assert(x@[k]@.same(y@[k]@));
                }
                true
            },
            (Json::Object(x), Json::Object(y)) => {
                proof {
                    lemma_members_view(x@);
                    lemma_members_view(y@);
                }
                let ghost xs = members_view(x@);
                let ghost ys = members_view(y@);
                assert(self@->Object_0 == xs && other@->Object_0 == ys);
                let mut i: usize = 0;
                while i < x.len()
                    invariant
                        i <= x.len(),
                        forall|k: int|
                            #![trigger xs[k]]
                            0 <= k < i ==> position(ys, xs[k].0) < ys.len() && xs[k].1.same(
                                ys[position(ys, xs[k].0)].1,
                            ),
                    decreases x.len() - i,
                {
                    match Json::find(y, &x[i].key) {
                        Some(at) => {
                            if !x[i].value.equals(&y[at].value) {
                                assert(!(position(ys, xs[i as int].0) < ys.len()
                                    && xs[i as int].1.same(ys[position(ys, xs[i as int].0)].1)));
                                return false;
                            }
                        },
                        None => {
                            assert(!(position(ys, xs[i as int].0) < ys.len()));
                            return false;
                        },
                    }
                    i += 1;
                }
                let mut j: usize = 0;
                while j < y.len()
                    invariant
                        j <= y.len(),
                        forall|k: int|
                            #![trigger ys[k]]
                            0 <= k < j ==> position(xs, ys[k].0) < xs.len(),
                    decreases y.len() - j,
                {
                    if Json::find(x, &y[j].key).is_none() {
                        assert(!(position(xs, ys[j as int].0) < xs.len()));
                        return false;
                    }
                    j += 1;
                }
                true
            },
            _ => false,
        }
    }

    /// A copy of the document.
    #[verifier::loop_isolation(false)]
    pub fn deep_copy(&self) -> (r: Json)
        ensures
            r@ == self@,
        decreases self,
    {
        match self {
            Json::Null => Json::Null,
            Json::Bool(b) => Json::Bool(*b),
            Json::Number(n) => Json::Number(*n),
            Json::Text(s) => Json::Text(s.clone()),
            Json::Array(items) => {
                let mut out: Vec<Json> = Vec::new();
                let mut i: usize = 0;
                while i < items.len()
                    invariant
                        i <= items.len(),
                        out@.len() == i,
                        forall|k: int| 0 <= k < i ==> (#[trigger] out@[k])@ == items@[k]@,
                    decreases items.len() - i,
                {
                    let item = items[i].deep_copy();
                    out.push(item);
                    i += 1;
                }
                proof {
                    lemma_items_view(out@);
                    lemma_items_view(items@);
                    assert(items_view(out@) =~= items_view(items@));
                }
                Json::Array(out)
            },
            Json::Object(members) => {
                let mut out: Vec<Member> = Vec::new();
                let mut i: usize = 0;
                while i < members.len()
                    invariant
                        i <= members.len(),
                        out@.len() == i,
                        forall|k: int|
                            0 <= k < i ==> (#[trigger] out@[k]).key@ == members@[k].key@
                                && out@[k].value@ == members@[k].value@,
                    decreases members.len() - i,
                {
                    let value = members[i].value.deep_copy();
                    out.push(Member { key: members[i].key.clone(), value });
                    i += 1;
                }
                proof {
                    lemma_members_view(out@);
                    lemma_members_view(members@);
                    assert(members_view(out@) =~= members_view(members@));
                }
                Json::Object(out)
            },
        }
    }

    /// Puts `value` under `key`: in the place of the first member called
    /// `key`, or at the end where there is none.
    pub fn set_member(members: &mut Vec<Member>, key: String, value: Json)
        ensures
            members_view(final(members)@) == put(members_view(old(members)@), key@, value@),
    {
        let ghost before = members_view(members@);
        proof {
            lemma_members_view(members@);
        }
        match Json::find(members, &key) {
            Some(at) => {
                members.set(at, Member { key, value });
                proof {
                    lemma_members_view(members@);
                }
                assert(members_view(members@) =~= before.update(at as int, (key@, value@)));
            },
            None => {
                members.push(Member { key, value });
                proof {
                    lemma_members_view(members@);
                }
                assert(members_view(members@) =~= before.push((key@, value@)));
            },
        }
    }
}



} // verus!
