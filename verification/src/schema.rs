//! The schema: a catalog of message types and enumerations, held as plain
//! data and resolved by name.

use vstd::prelude::*;

verus! {

/// The kind of one value: of a field that holds one, of each item of a
/// repeated field, of each value of a keyed field.
#[derive(Clone, Copy, Debug, PartialEq, Eq, Structural)]
pub enum ElementKind {
    Bool,
    Int32,
    Int64,
    UInt32,
    UInt64,
    Float32,
    Float64,
    Text,
    Bytes,
    /// An enumeration, by its place among the schema's enumerations.
    Enumeration(usize),
    /// A nested message, by its place among the schema's message types.
    Message(usize),
}

/// The kind of the keys of a keyed field.
#[derive(Clone, Copy, Debug, PartialEq, Eq, Structural)]
pub enum KeyKind {
    Bool,
    Int32,
    Int64,
    UInt32,
    UInt64,
    Text,
}

/// The kind of a field: one value, a sequence of values, or values under keys.
#[derive(Clone, Copy, Debug, PartialEq, Eq, Structural)]
pub enum FieldKind {
    Single(ElementKind),
    Repeated(ElementKind),
    Keyed(KeyKind, ElementKind),
}

/// A field of a message type.
#[derive(Debug, PartialEq)]
pub struct Field {
    pub name: String,
    pub kind: FieldKind,
}

/// A message type: its fully qualified name and its fields in their order.
#[derive(Debug, PartialEq)]
pub struct MessageType {
    pub full_name: String,
    pub fields: Vec<Field>,
}

/// One value of an enumeration: its symbolic name and its number.
#[derive(Debug, PartialEq)]
pub struct EnumValue {
    pub name: String,
    pub number: i32,
}

/// An enumeration: its fully qualified name and its values in their order.
#[derive(Debug, PartialEq)]
pub struct EnumType {
    pub full_name: String,
    pub values: Vec<EnumValue>,
}

/// The catalog of message types and enumerations.
#[derive(Debug, PartialEq)]
pub struct Schema {
    pub messages: Vec<MessageType>,
    pub enums: Vec<EnumType>,
}

/// The place of the first of `names` that is `name`, or the number of names
/// where none is.
pub open spec fn name_position(names: Seq<Seq<char>>, name: Seq<char>) -> int
    decreases names.len(),
{
    if names.len() == 0 {
        0
    } else if names[0] == name {
        0
    } else {
        1 + name_position(names.drop_first(), name)
    }
}

/// The position is in range, holds the name where it is a place, and no
/// earlier place holds it.
pub proof fn lemma_name_position(names: Seq<Seq<char>>, name: Seq<char>)
    ensures
        0 <= name_position(names, name) <= names.len(),
        name_position(names, name) < names.len() ==> names[name_position(names, name)] == name,
        forall|i: int| 0 <= i < name_position(names, name) ==> #[trigger] names[i] != name,
    decreases names.len(),
{
    if names.len() > 0 && names[0] != name {
        let rest = names.drop_first();
        lemma_name_position(rest, name);
        assert forall|i: int| 0 <= i < name_position(names, name) implies #[trigger] names[i]
            != name by {
            if i > 0 {
                assert(names[i] == rest[i - 1]);
            }
        }
    }
}

/// The first place that holds the name, or the end where none does, is the
/// position of the name.
pub proof fn lemma_name_position_is(names: Seq<Seq<char>>, name: Seq<char>, at: int)
    requires
        0 <= at <= names.len(),
        at < names.len() ==> names[at] == name,
        forall|i: int| 0 <= i < at ==> #[trigger] names[i] != name,
    ensures
        name_position(names, name) == at,
{
    lemma_name_position(names, name);
    let p = name_position(names, name);
    if p < at {
        assert(names[p] != name);
    } else if at < p {
        assert(names[at] != name);
    }
}

/// The names of fields, in their order.
pub open spec fn field_names(fields: Seq<Field>) -> Seq<Seq<char>> {
    Seq::new(fields.len(), |i: int| fields[i].name@)
}

/// The symbolic names of the values of an enumeration, in their order.
pub open spec fn value_names(values: Seq<EnumValue>) -> Seq<Seq<char>> {
    Seq::new(values.len(), |i: int| values[i].name@)
}

/// The fully qualified names of message types, in their order.
pub open spec fn full_names(types: Seq<MessageType>) -> Seq<Seq<char>> {
    Seq::new(types.len(), |i: int| types[i].full_name@)
}

/// The short names of message types, in their order.
pub open spec fn short_names(types: Seq<MessageType>) -> Seq<Seq<char>> {
    Seq::new(types.len(), |i: int| short_name(types[i].full_name@))
}

/// The place of the last dot of a name, or -1 where it has none.
pub open spec fn last_dot(name: Seq<char>) -> int
    decreases name.len(),
{
    if name.len() == 0 {
        -1
    } else if name.last() == '.' {
        name.len() - 1
    } else {
        last_dot(name.drop_last())
    }
}

/// The short name of a fully qualified name: what follows its last dot, and
/// all of it where it has none.
pub open spec fn short_name(name: Seq<char>) -> Seq<char> {
    name.subrange(last_dot(name) + 1, name.len() as int)
}

/// The last dot is a dot, and none follows it.
pub proof fn lemma_last_dot(name: Seq<char>)
    ensures
        -1 <= last_dot(name) < name.len(),
        last_dot(name) >= 0 ==> name[last_dot(name)] == '.',
        forall|i: int| last_dot(name) < i < name.len() ==> name[i] != '.',
    decreases name.len(),
{
    if name.len() > 0 && name.last() != '.' {
        let front = name.drop_last();
        lemma_last_dot(front);
        assert forall|i: int| last_dot(name) < i < name.len() implies name[i] != '.' by {
            if i < front.len() {
                assert(name[i] == front[i]);
            }
        }
    }
}

/// The message type that `name` resolves to: the first whose fully qualified
/// name is `name`; where there is none, the first whose short name is `name`.
pub open spec fn resolve(types: Seq<MessageType>, name: Seq<char>) -> Option<int> {
    let exact = name_position(full_names(types), name);
    let short = name_position(short_names(types), name);
    if exact < types.len() {
        Some(exact)
    } else if short < types.len() {
        Some(short)
    } else {
        None
    }
}

/// Whether what a kind refers to is in a catalog of `messages` message types
/// and `enums` enumerations.
pub open spec fn element_in_catalog(kind: ElementKind, messages: nat, enums: nat) -> bool {
    match kind {
        ElementKind::Enumeration(at) => at < enums,
        ElementKind::Message(at) => at < messages,
        _ => true,
    }
}

/// The kind of the values that a field holds.
pub open spec fn element_of(kind: FieldKind) -> ElementKind {
    match kind {
        FieldKind::Single(element) => element,
        FieldKind::Repeated(element) => element,
        FieldKind::Keyed(_, element) => element,
    }
}

impl Schema {
    /// Every enumeration and every message type that a field refers to is in
    /// the catalog.
    pub open spec fn wf(&self) -> bool {
        forall|i: int, j: int|
            0 <= i < self.messages@.len() && 0 <= j < self.messages@[i].fields@.len()
                ==> element_in_catalog(
                element_of(#[trigger] self.messages@[i].fields@[j].kind),
                self.messages@.len(),
                self.enums@.len(),
            )
    }

    /// Whether every reference of a field is in the catalog.
    #[verifier::loop_isolation(false)]
    pub fn is_well_formed(&self) -> (r: bool)
        ensures
            r == self.wf(),
    {
        let mut i: usize = 0;
        while i < self.messages.len()
            invariant
                i <= self.messages.len(),
                forall|a: int, b: int|
                    0 <= a < i && 0 <= b < self.messages@[a].fields@.len() ==> element_in_catalog(
                        element_of(#[trigger] self.messages@[a].fields@[b].kind),
                        self.messages@.len(),
                        self.enums@.len(),
                    ),
            decreases self.messages.len() - i,
        {
            let fields = &self.messages[i].fields;
            let mut j: usize = 0;
            while j < fields.len()
                invariant
                    j <= fields.len(),
                    forall|b: int|
                        0 <= b < j ==> element_in_catalog(
                            element_of(#[trigger] fields@[b].kind),
                            self.messages@.len(),
                            self.enums@.len(),
                        ),
                decreases fields.len() - j,
            {
                let element = match fields[j].kind {
                    FieldKind::Single(element) => element,
                    FieldKind::Repeated(element) => element,
                    FieldKind::Keyed(_, element) => element,
                };
                let known = match element {
                    ElementKind::Enumeration(at) => at < self.enums.len(),
                    ElementKind::Message(at) => at < self.messages.len(),
                    _ => true,
                };
                if !known {
                    assert(!element_in_catalog(
                        element_of(self.messages@[i as int].fields@[j as int].kind),
                        self.messages@.len(),
                        self.enums@.len(),
                    ));
                    return false;
                }
                j += 1;
            }
            i += 1;
        }
        true
    }
}

/// The characters of a string.
pub fn chars_of(text: &str) -> (out: Vec<char>)
    ensures
        out@ == text@,
{
    let mut out: Vec<char> = Vec::new();
    let n = text.unicode_len();
    let mut i: usize = 0;
    while i < n
        invariant
            n == text@.len(),
            i <= n,
            out@ == text@.take(i as int),
        decreases n - i,
    {
        out.push(text.get_char(i));
        assert(text@.take(i + 1) == text@.take(i as int).push(text@[i as int]));
        i += 1;
    }
    assert(text@.take(n as int) == text@);
    out
}

/// Whether the short name of `full` is `name`.
#[verifier::loop_isolation(false)]
pub fn has_short_name(full: &str, name: &str) -> (r: bool)
    ensures
        r == (short_name(full@) == name@),
{
    let whole = chars_of(full);
    let wanted = chars_of(name);
    let mut start: usize = whole.len();
    while start > 0 && whole[start - 1] != '.'
        invariant
            start <= whole.len(),
            forall|i: int| start <= i < whole.len() ==> whole@[i] != '.',
        decreases start,
    {
        start -= 1;
    }
    proof {
        lemma_last_dot_is(whole@, start as int - 1);
    }
    let ghost short = short_name(full@);
    if whole.len() - start != wanted.len() {
        return false;
    }
    let mut k: usize = 0;
    while k < wanted.len()
        invariant
            k <= wanted.len(),
            forall|i: int| 0 <= i < k ==> short[i] == wanted@[i],
        decreases wanted.len() - k,
    {
        if whole[start + k] != wanted[k] {
            assert(short[k as int] != name@[k as int]);
            return false;
        }
        k += 1;
    }
    assert(short =~= name@);
    true
}

/// A dot that no dot follows, or -1 where the name has no dot, is the last dot.
pub proof fn lemma_last_dot_is(name: Seq<char>, at: int)
    requires
        -1 <= at < name.len(),
        at >= 0 ==> name[at] == '.',
        forall|i: int| at < i < name.len() ==> name[i] != '.',
    ensures
        last_dot(name) == at,
{
    lemma_last_dot(name);
    let d = last_dot(name);
    if d > at {
        assert(name[d] == '.');
    }
}

impl Schema {
    /// The place of the first field of `fields` called `name`.
    #[verifier::loop_isolation(false)]
    pub fn find_field(fields: &Vec<Field>, name: &String) -> (at: Option<usize>)
        ensures
            match at {
                Some(i) => i < fields.len() && i == name_position(field_names(fields@), name@),
                None => name_position(field_names(fields@), name@) == fields.len(),
            },
    {
        let ghost names = field_names(fields@);
        let mut i: usize = 0;
        while i < fields.len()
            invariant
                i <= fields.len(),
                forall|j: int| 0 <= j < i ==> #[trigger] names[j] != name@,
            decreases fields.len() - i,
        {
            if fields[i].name == *name {
                proof {
                    lemma_name_position_is(names, name@, i as int);
                }
                return Some(i);
            }
            i += 1;
        }
        proof {
            lemma_name_position_is(names, name@, i as int);
        }
        None
    }

    /// The place of the first value of `values` called `name`.
    #[verifier::loop_isolation(false)]
    pub fn find_value(values: &Vec<EnumValue>, name: &String) -> (at: Option<usize>)
        ensures
            match at {
                Some(i) => i < values.len() && i == name_position(value_names(values@), name@),
                None => name_position(value_names(values@), name@) == values.len(),
            },
    {
        let ghost names = value_names(values@);
        let mut i: usize = 0;
        while i < values.len()
            invariant
                i <= values.len(),
                forall|j: int| 0 <= j < i ==> #[trigger] names[j] != name@,
            decreases values.len() - i,
        {
            if values[i].name == *name {
                proof {
                    lemma_name_position_is(names, name@, i as int);
                }
                return Some(i);
            }
            i += 1;
        }
        proof {
            lemma_name_position_is(names, name@, i as int);
        }
        None
    }

    /// The message type that `name` resolves to: the first whose fully
    /// qualified name is `name`; where there is none, the first whose short
    /// name, the part after the last dot, is `name`.
    #[verifier::loop_isolation(false)]
    pub fn resolve_name(&self, name: &str) -> (at: Option<usize>)
        ensures
            match at {
                Some(i) => i < self.messages.len() && resolve(self.messages@, name@) == Some(
                    i as int,
                ),
                None => resolve(self.messages@, name@) is None,
            },
    {
        let wanted = name.to_owned();
        let ghost full = full_names(self.messages@);
        let ghost short = short_names(self.messages@);
        let mut i: usize = 0;
        while i < self.messages.len()
            invariant
                i <= self.messages.len(),
                forall|j: int| 0 <= j < i ==> #[trigger] full[j] != name@,
            decreases self.messages.len() - i,
        {
            if self.messages[i].full_name == wanted {
                proof {
                    lemma_name_position_is(full, name@, i as int);
                }
                return Some(i);
            }
            i += 1;
        }
        proof {
            lemma_name_position_is(full, name@, i as int);
        }
        let mut k: usize = 0;
        while k < self.messages.len()
            invariant
                k <= self.messages.len(),
                forall|j: int| 0 <= j < k ==> #[trigger] short[j] != name@,
            decreases self.messages.len() - k,
        {
            if has_short_name(self.messages[k].full_name.as_str(), name) {
                proof {
                    lemma_name_position_is(short, name@, k as int);
                }
                return Some(k);
            }
            k += 1;
        }
        proof {
            lemma_name_position_is(short, name@, k as int);
        }
        None
    }
}

} // verus!
