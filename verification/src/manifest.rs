//! Manifests of Substreams packages: the values that a YAML document holds, and the edit that
//! makes every module of a package start at another block.

use crate::chain::same_text;
use vstd::prelude::*;

verus! {

/// A number, of the width in which it was read. Floating-point numbers are held by their bits.
#[derive(Clone, Copy, PartialEq, Eq, Structural, Debug)]
pub enum Num {
    U8(u8),
    U16(u16),
    U32(u32),
    U64(u64),
    U128(u128),
    USize(usize),
    I8(i8),
    I16(i16),
    I32(i32),
    I64(i64),
    I128(i128),
    ISize(isize),
    F32Bits(u32),
    F64Bits(u64),
}

impl Num {
    /// The number, if it is held in an unsigned width.
    pub open spec fn unsigned(self) -> Option<u128> {
        match self {
            Num::U8(value) => Some(value as u128),
            Num::U16(value) => Some(value as u128),
            Num::U32(value) => Some(value as u128),
            Num::U64(value) => Some(value as u128),
            Num::U128(value) => Some(value),
            Num::USize(value) => Some(value as u128),
            _ => None,
        }
    }

    /// The number, if it is held in an unsigned width.
    pub fn to_u128(&self) -> (value: Option<u128>)
        ensures
            value == self.unsigned(),
    {
        match *self {
            Num::U8(value) => Some(value as u128),
            Num::U16(value) => Some(value as u128),
            Num::U32(value) => Some(value as u128),
            Num::U64(value) => Some(value as u128),
            Num::U128(value) => Some(value),
            Num::USize(value) => Some(value as u128),
            _ => None,
        }
    }
}

/// The absence of a value.
#[derive(Clone, Copy, PartialEq, Eq, Structural, Debug)]
pub enum Empty {
    Missing,
    Unit,
}

/// A value of a YAML document.
#[derive(Debug)]
pub enum Value {
    String(String),
    Char(char),
    Bool(bool),
    Num(Num),
    Empty(Empty),
    Dict(Dict),
    Array(Vec<Value>),
}

/// Values under their keys. No key occurs twice.
#[derive(Debug)]
pub struct Dict {
    entries: Vec<(String, Value)>,
}

/// No key occurs twice.
spec fn distinct_keys(entries: Seq<(String, Value)>) -> bool {
    forall|i: int, j: int|
        #![trigger entries[i], entries[j]]
        0 <= i < entries.len() && 0 <= j < entries.len() && entries[i].0@ == entries[j].0@ ==> i
            == j
}

/// The entry at `i` has this key.
spec fn keyed(entries: Seq<(String, Value)>, key: Seq<char>, i: int) -> bool {
    0 <= i < entries.len() && entries[i].0@ == key
}

/// The entries as a map.
spec fn as_map(entries: Seq<(String, Value)>) -> Map<Seq<char>, Value> {
    Map::new(
        |key: Seq<char>| exists|i: int| keyed(entries, key, i),
        |key: Seq<char>| entries[choose|i: int| keyed(entries, key, i)].1,
    )
}

impl View for Dict {
    type V = Map<Seq<char>, Value>;

    closed spec fn view(&self) -> Map<Seq<char>, Value> {
        as_map(self.entries@)
    }
}

impl Dict {
    #[verifier::type_invariant]
    spec fn inv(self) -> bool {
        distinct_keys(self.entries@)
    }

    /// A dictionary without entries.
    pub fn new() -> (dict: Dict)
        ensures
            dict@ == Map::<Seq<char>, Value>::empty(),
    {
        let dict = Dict { entries: Vec::new() };
        assert(dict@ =~= Map::<Seq<char>, Value>::empty());
        dict
    }

    /// Where the entry with this key stands.
    fn index_of(entries: &Vec<(String, Value)>, key: &str) -> (index: Option<usize>)
        ensures
            match index {
                Some(i) => keyed(entries@, key@, i as int),
                None => forall|i: int| !keyed(entries@, key@, i),
            },
    {
        let mut i: usize = 0;
        while i < entries.len()
            invariant
                i <= entries@.len(),
                forall|j: int| 0 <= j < i ==> !keyed(entries@, key@, j),
            decreases entries@.len() - i,
        {
            if same_text(entries[i].0.as_str(), key) {
                return Some(i);
            }
            i += 1;
        }
        None
    }

    /// The value under `key`.
    pub fn get(&self, key: &str) -> (value: Option<&Value>)
        ensures
            match value {
                Some(v) => self@.contains_key(key@) && *v == self@[key@],
                None => !self@.contains_key(key@),
            },
    {
        proof {
            use_type_invariant(self);
        }
        match Dict::index_of(&self.entries, key) {
            Some(i) => {
                assert(keyed(self.entries@, key@, i as int));
                Some(&self.entries[i].1)
            },
            None => None,
        }
    }

    /// Takes the value under `key` out.
    pub fn remove(&mut self, key: &str) -> (value: Option<Value>)
        ensures
            final(self)@ == old(self)@.remove(key@),
            match value {
                Some(v) => old(self)@.contains_key(key@) && v == old(self)@[key@],
                None => !old(self)@.contains_key(key@),
            },
    {
        proof {
            use_type_invariant(&*self);
        }
        let ghost before = self.entries@;
        let mut entries: Vec<(String, Value)> = Vec::new();
        std::mem::swap(&mut entries, &mut self.entries);
        let found = Dict::index_of(&entries, key);
        let value = match found {
            Some(i) => {
                let (_, value) = entries.remove(i);
                proof {
                    assert(keyed(before, key@, i as int));
                    lemma_remove(before, i as int);
                }
                Some(value)
            },
            None => {
                assert(as_map(before) =~= as_map(before).remove(key@));
                None
            },
        };
        self.entries = entries;
        value
    }

    /// Puts `value` under `key`, in place of the one there.
    pub fn insert(&mut self, key: String, value: Value) -> (replaced: Option<Value>)
        ensures
            final(self)@ == old(self)@.insert(key@, value),
            match replaced {
                Some(v) => old(self)@.contains_key(key@) && v == old(self)@[key@],
                None => !old(self)@.contains_key(key@),
            },
    {
        let replaced = self.remove(key.as_str());
        proof {
            use_type_invariant(&*self);
        }
        let ghost before = self.entries@;
        let mut entries: Vec<(String, Value)> = Vec::new();
        std::mem::swap(&mut entries, &mut self.entries);
        entries.push((key, value));
        proof {
            lemma_push(before, key, value);
            assert(old(self)@.remove(key@).insert(key@, value) =~= old(self)@.insert(key@, value));
        }
        self.entries = entries;
        replaced
    }

    /// The entries, in some order.
    pub fn into_entries(self) -> (entries: Vec<(String, Value)>)
        ensures
            forall|i: int, j: int|
                #![trigger entries@[i], entries@[j]]
                0 <= i < entries@.len() && 0 <= j < entries@.len() && entries@[i].0@
                    == entries@[j].0@ ==> i == j,
            forall|i: int|
                #![trigger entries@[i]]
                0 <= i < entries@.len() ==> self@.contains_key(entries@[i].0@)
                    && self@[entries@[i].0@] == entries@[i].1,
            forall|key: Seq<char>| #[trigger]
                self@.contains_key(key) ==> exists|i: int|
                    0 <= i < entries@.len() && (#[trigger] entries@[i]).0@ == key,
    {
        proof {
            use_type_invariant(&self);
            assert forall|i: int| #![trigger self.entries@[i]] 0 <= i < self.entries@.len() implies
                self@.contains_key(self.entries@[i].0@) && self@[self.entries@[i].0@]
                == self.entries@[i].1 by {
                assert(keyed(self.entries@, self.entries@[i].0@, i));
            }
            assert forall|key: Seq<char>| #[trigger] self@.contains_key(key) implies exists|i: int|
                0 <= i < self.entries@.len() && (#[trigger] self.entries@[i]).0@ == key by {
                let i = choose|i: int| keyed(self.entries@, key, i);
                assert(self.entries@[i].0@ == key);
            }
        }
        self.entries
    }
}

/// Taking an entry out of the list takes its key out of the map.
proof fn lemma_remove(entries: Seq<(String, Value)>, i: int)
    requires
        distinct_keys(entries),
        0 <= i < entries.len(),
    ensures
        distinct_keys(entries.remove(i)),
        as_map(entries.remove(i)) == as_map(entries).remove(entries[i].0@),
        as_map(entries).contains_key(entries[i].0@),
        as_map(entries)[entries[i].0@] == entries[i].1,
{
    let rest = entries.remove(i);
    let key = entries[i].0@;
    assert(keyed(entries, key, i));
    assert forall|k: Seq<char>| #[trigger]
        as_map(rest).contains_key(k) <==> as_map(entries).remove(key).contains_key(k) by {
        if as_map(rest).contains_key(k) {
            let j = choose|j: int| keyed(rest, k, j);
            assert(keyed(entries, k, if j < i { j } else { j + 1 }));
        }
        if as_map(entries).remove(key).contains_key(k) {
            let j = choose|j: int| keyed(entries, k, j);
            assert(keyed(rest, k, if j < i { j } else { j - 1 }));
        }
    }
    assert forall|k: Seq<char>| #[trigger] as_map(rest).contains_key(k) implies as_map(rest)[k]
        == as_map(entries).remove(key)[k] by {
        let j = choose|j: int| keyed(rest, k, j);
        assert(keyed(entries, k, if j < i { j } else { j + 1 }));
    }
    assert(as_map(rest) =~= as_map(entries).remove(key));
}

/// An entry with a new key at the end of the list is a new key of the map.
proof fn lemma_push(entries: Seq<(String, Value)>, key: String, value: Value)
    requires
        distinct_keys(entries),
        !as_map(entries).contains_key(key@),
    ensures
        distinct_keys(entries.push((key, value))),
        as_map(entries.push((key, value))) == as_map(entries).insert(key@, value),
{
    let more = entries.push((key, value));
    assert(forall|i: int| !keyed(entries, key@, i));
    assert(distinct_keys(more)) by {
        assert forall|i: int, j: int|
            #![trigger more[i], more[j]]
            0 <= i < more.len() && 0 <= j < more.len() && more[i].0@ == more[j].0@ implies i
            == j by {
            assert(!keyed(entries, key@, i));
            assert(!keyed(entries, key@, j));
        }
    }
    assert(keyed(more, key@, entries.len() as int));
    assert forall|k: Seq<char>| #[trigger]
        as_map(more).contains_key(k) <==> as_map(entries).insert(key@, value).contains_key(k) by {
        if as_map(more).contains_key(k) {
            let j = choose|j: int| keyed(more, k, j);
            if j < entries.len() {
                assert(keyed(entries, k, j));
            }
        }
        if as_map(entries).contains_key(k) {
            let j = choose|j: int| keyed(entries, k, j);
            assert(keyed(more, k, j));
        }
    }
    assert forall|k: Seq<char>| #[trigger] as_map(more).contains_key(k) implies as_map(more)[k]
        == as_map(entries).insert(key@, value)[k] by {
        let j = choose|j: int| keyed(more, k, j);
        if j < entries.len() {
            assert(keyed(entries, k, j));
        }
    }
    assert(as_map(more) =~= as_map(entries).insert(key@, value));
}

impl Value {
    /// The value under `key`, if this is a dictionary that has one.
    pub open spec fn entry(self, key: Seq<char>) -> Option<Value> {
        match self {
            Value::Dict(dict) => if dict@.contains_key(key) {
                Some(dict@[key])
            } else {
                None
            },
            _ => None,
        }
    }

    /// The text, if this is one.
    pub open spec fn text(self) -> Option<Seq<char>> {
        match self {
            Value::String(text) => Some(text@),
            _ => None,
        }
    }

    /// The same value, whatever the order in which a dictionary lists its entries.
    pub open spec fn same_as(self, other: Value) -> bool {
        match self {
            Value::Dict(dict) => other matches Value::Dict(also) && dict@ == also@,
            _ => self == other,
        }
    }

    /// The value under `key`, if this is a dictionary that has one.
    pub fn find(&self, key: &str) -> (value: Option<&Value>)
        ensures
            match value {
                Some(v) => self.entry(key@) == Some(*v),
                None => self.entry(key@) is None,
            },
    {
        match self {
            Value::Dict(dict) => dict.get(key),
            _ => None,
        }
    }

    /// The text, if this is one.
    pub fn as_str(&self) -> (text: Option<&str>)
        ensures
            match text {
                Some(t) => self.text() == Some(t@),
                None => self.text() is None,
            },
    {
        match self {
            Value::String(text) => Some(text.as_str()),
            _ => None,
        }
    }
}

/// `after` is the module `before`, made to start at `start_block`: its initial block is set and
/// nothing else changes. What is not a dictionary stays as it is.
pub open spec fn module_starts_at(before: Value, after: Value, start_block: u64) -> bool {
    match before {
        Value::Dict(dict) => after matches Value::Dict(edited) && edited@ == dict@.insert(
            "initialBlock"@,
            Value::Num(Num::U64(start_block)),
        ),
        _ => after == before,
    }
}

/// Every module of `after` is the one of `before`, made to start at `start_block`.
pub open spec fn modules_start_at(
    before: Seq<Value>,
    after: Seq<Value>,
    start_block: u64,
) -> bool {
    &&& after.len() == before.len()
    &&& forall|i: int|
        #![trigger after[i]]
        #![trigger before[i]]
        0 <= i < before.len() ==> module_starts_at(before[i], after[i], start_block)
}

/// `after` is the manifest `before` with all its modules made to start at `start_block`. A
/// manifest that lists no modules stays as it is.
pub open spec fn starts_at(before: Value, after: Value, start_block: u64) -> bool {
    match before.entry("modules"@) {
        Some(Value::Array(modules)) => {
            &&& before matches Value::Dict(dict)
            &&& after matches Value::Dict(edited)
            &&& edited@.dom() == dict@.dom()
            &&& edited@.remove("modules"@) == dict@.remove("modules"@)
            &&& edited@["modules"@] matches Value::Array(changed)
            &&& modules_start_at(modules@, changed@, start_block)
        },
        _ => after.same_as(before),
    }
}

/// Makes every module of the list start at `start_block`.
fn modify_modules(modules: &mut Vec<Value>, start_block: u64)
    ensures
        modules_start_at(old(modules)@, final(modules)@, start_block),
{
    let ghost before = modules@;
    let mut i: usize = 0;
    while i < modules.len()
        invariant
            i <= modules@.len(),
            modules@.len() == before.len(),
            forall|j: int|
                #![trigger modules@[j]]
                0 <= j < i ==> module_starts_at(before[j], modules@[j], start_block),
            forall|j: int| #![trigger modules@[j]] i <= j < before.len() ==> modules@[j] == before[j],
        decreases modules@.len() - i,
    {
        if let Value::Dict(module) = &mut modules[i] {
            module.insert("initialBlock".to_owned(), Value::Num(Num::U64(start_block)));
        }
        i += 1;
    }
}

/// Updates the initial block of all modules of a manifest.
pub fn modify_initial_block(data: &mut Value, start_block: u64)
    ensures
        starts_at(*old(data), *final(data), start_block),
{
    if let Value::Dict(dict) = data {
        let ghost before = dict@;
        match dict.remove("modules") {
            Some(Value::Array(modules)) => {
                let mut modules = modules;
                modify_modules(&mut modules, start_block);
                dict.insert("modules".to_owned(), Value::Array(modules));
                assert(dict@.dom() =~= before.dom());
                assert(dict@.remove("modules"@) =~= before.remove("modules"@));
            },
            Some(other) => {
                dict.insert("modules".to_owned(), other);
                assert(dict@ =~= before);
            },
            None => {
                assert(dict@ =~= before);
            },
        }
    }
}

/// Everything in a manifest but its modules is kept.
pub proof fn law_rest_of_the_manifest_is_kept(
    before: Value,
    after: Value,
    start_block: u64,
    key: Seq<char>,
)
    requires
        starts_at(before, after, start_block),
        key != "modules"@,
    ensures
        after.entry(key) == before.entry(key),
{
    if let Some(Value::Array(_)) = before.entry("modules"@) {
        let dict = before->Dict_0@;
        let edited = after->Dict_0@;
        assert(dict.contains_key(key) <==> dict.dom().contains(key));
        assert(edited.contains_key(key) <==> edited.dom().contains(key));
        if dict.contains_key(key) {
            assert(dict.remove("modules"@)[key] == dict[key]);
            assert(edited.remove("modules"@)[key] == edited[key]);
        }
    }
}

/// Every module that is a dictionary starts at the block that was set, and is otherwise kept.
pub proof fn law_every_module_starts_at_the_block(
    before: Value,
    after: Value,
    start_block: u64,
    i: int,
    key: Seq<char>,
)
    requires
        starts_at(before, after, start_block),
        before.entry("modules"@) matches Some(Value::Array(modules)) && 0 <= i < modules@.len()
            && modules@[i] is Dict,
    ensures
        after.entry("modules"@) matches Some(Value::Array(modules)) && {
            &&& modules@.len() == before.entry("modules"@)->0->Array_0@.len()
            &&& modules@[i].entry("initialBlock"@) matches Some(Value::Num(block))
            &&& block.unsigned() == Some(start_block as u128)
            &&& key != "initialBlock"@ ==> modules@[i].entry(key) == before.entry(
                "modules"@,
            )->0->Array_0@[i].entry(key)
        },
{
    let modules = before.entry("modules"@)->0->Array_0@;
    let edited = after->Dict_0@;
    assert(edited.dom().contains("modules"@));
    assert(module_starts_at(modules[i], edited["modules"@]->Array_0@[i], start_block));
}

/// Of two edits in a row the last one counts: the result is what it alone would give. In
/// particular, to make the same edit again changes nothing more.
pub proof fn law_last_edit_counts(
    original: Value,
    once: Value,
    twice: Value,
    first_block: u64,
    second_block: u64,
)
    requires
        starts_at(original, once, first_block),
        starts_at(once, twice, second_block),
    ensures
        starts_at(original, twice, second_block),
{
    if let Some(Value::Array(modules)) = original.entry("modules"@) {
        let dict = original->Dict_0@;
        let first = once->Dict_0@;
        let second = twice->Dict_0@;
        assert(first.dom().contains("modules"@));
        assert(once.entry("modules"@) == Some(first["modules"@]));
        let one = first["modules"@]->Array_0@;
        let two = second["modules"@]->Array_0@;
        assert forall|i: int| 0 <= i < modules@.len() implies module_starts_at(
            modules@[i],
            #[trigger] two[i],
            second_block,
        ) by {
            assert(module_starts_at(modules@[i], one[i], first_block));
            assert(module_starts_at(one[i], two[i], second_block));
            if let Value::Dict(module) = modules@[i] {
                assert(module@.insert(
                    "initialBlock"@,
                    Value::Num(Num::U64(first_block)),
                ).insert("initialBlock"@, Value::Num(Num::U64(second_block))) =~= module@.insert(
                    "initialBlock"@,
                    Value::Num(Num::U64(second_block)),
                ));
            }
        }
    }
}

/// What is under a key of a value: something only if the value is a dictionary that has the key,
/// and then what the dictionary has there. A value is a text only if it is one.
pub proof fn law_entries_are_those_of_the_dictionary(value: Value, key: Seq<char>)
    ensures
        value.entry(key) is Some <==> value is Dict && value->Dict_0@.contains_key(key),
        value.entry(key) is Some ==> value.entry(key)->0 == value->Dict_0@[key],
        value.text() is Some <==> value is String,
        value.text() is Some ==> value.text()->0 == value->String_0@,
{
}

/// The edit of a manifest that lists modules keeps all its keys and everything under them but the
/// modules. There are as many modules as before, in the same order. Each one that is a dictionary
/// has all its keys and what is under them, and besides the block under `initialBlock`, as a
/// 64-bit number; the others are as they were.
pub proof fn law_what_the_edit_does(
    before: Dict,
    modules: Vec<Value>,
    after: Value,
    start_block: u64,
)
    requires
        before@.contains_key("modules"@),
        before@["modules"@] == Value::Array(modules),
        starts_at(Value::Dict(before), after, start_block),
    ensures
        after is Dict,
        forall|key: Seq<char>| #[trigger]
            after->Dict_0@.contains_key(key) <==> before@.contains_key(key),
        forall|key: Seq<char>| #[trigger]
            before@.contains_key(key) && key != "modules"@ ==> after->Dict_0@[key] == before@[key],
        after->Dict_0@["modules"@] is Array,
        after->Dict_0@["modules"@]->Array_0@.len() == modules@.len(),
        forall|i: int|
            #![trigger modules@[i]]
            0 <= i < modules@.len() ==> {
                let module = after->Dict_0@["modules"@]->Array_0@[i];
                &&& !(modules@[i] is Dict) ==> module == modules@[i]
                &&& modules@[i] is Dict ==> {
                    &&& module is Dict
                    &&& module->Dict_0@.contains_key("initialBlock"@)
                    &&& module->Dict_0@["initialBlock"@] == Value::Num(Num::U64(start_block))
                    &&& forall|key: Seq<char>|
                        key != "initialBlock"@ ==> (#[trigger] module->Dict_0@.contains_key(key)
                            <==> modules@[i]->Dict_0@.contains_key(key))
                    &&& forall|key: Seq<char>|
                        key != "initialBlock"@ && #[trigger] modules@[i]->Dict_0@.contains_key(key)
                            ==> module->Dict_0@[key] == modules@[i]->Dict_0@[key]
                }
            },
{
    let edited = after->Dict_0@;
    assert(Value::Dict(before).entry("modules"@) == Some(Value::Array(modules)));
    assert forall|key: Seq<char>| #[trigger]
        edited.contains_key(key) <==> before@.contains_key(key) by {
        assert(edited.dom().contains(key) <==> before@.dom().contains(key));
    }
    assert forall|key: Seq<char>| #[trigger]
        before@.contains_key(key) && key != "modules"@ implies edited[key] == before@[key] by {
        law_rest_of_the_manifest_is_kept(Value::Dict(before), after, start_block, key);
        assert(edited.contains_key(key));
    }
    let changed = edited["modules"@]->Array_0@;
    assert forall|i: int| #![trigger modules@[i]] 0 <= i < modules@.len() implies module_starts_at(
        modules@[i],
        changed[i],
        start_block,
    ) by {}
}

/// What is not a dictionary with a list under `modules` is the same after the edit.
pub proof fn law_what_lists_no_modules_is_kept(before: Value, after: Value, start_block: u64)
    requires
        starts_at(before, after, start_block),
        !(before is Dict && before->Dict_0@.contains_key("modules"@)
            && before->Dict_0@["modules"@] is Array),
    ensures
        before is Dict <==> after is Dict,
        before is Dict ==> after->Dict_0@ == before->Dict_0@,
        !(before is Dict) ==> after == before,
{
}

/// An unsigned number is given as it is, whatever its width; a signed or a floating-point one is
/// not given.
pub proof fn law_unsigned_numbers_are_given_as_they_are(num: Num)
    ensures
        num matches Num::U8(n) ==> num.unsigned() == Some(n as u128),
        num matches Num::U16(n) ==> num.unsigned() == Some(n as u128),
        num matches Num::U32(n) ==> num.unsigned() == Some(n as u128),
        num matches Num::U64(n) ==> num.unsigned() == Some(n as u128),
        num matches Num::U128(n) ==> num.unsigned() == Some(n),
        num matches Num::USize(n) ==> num.unsigned() == Some(n as u128),
        num.unsigned() is Some ==> num is U8 || num is U16 || num is U32 || num is U64 || num is U128
            || num is USize,
{
}

} // verus!
