//! The header fields of a request: a mapping from names to values in
//! which a later field replaces an earlier one of the same name.

use crate::text::same_text;
use vstd::prelude::*;

verus! {

/// The mapping that a list of fields amounts to when they are entered one
/// after the other, a later field replacing an earlier one of its name.
pub open spec fn entered(fields: Seq<(Seq<char>, Seq<char>)>) -> Map<Seq<char>, Seq<char>>
    decreases fields.len(),
{
    if fields.len() == 0 {
        Map::empty()
    } else {
        entered(fields.drop_last()).insert(fields.last().0, fields.last().1)
    }
}

/// No name stands in two fields.
pub open spec fn distinct_names(fields: Seq<(Seq<char>, Seq<char>)>) -> bool {
    forall|i: int, j: int| 0 <= i < j < fields.len() ==> fields[i].0 != fields[j].0
}

/// The fields as texts.
pub open spec fn field_views(entries: Seq<(String, String)>) -> Seq<(Seq<char>, Seq<char>)> {
    Seq::new(entries.len(), |i: int| (entries[i].0@, entries[i].1@))
}

/// Tells whether a field of `fields` is called `name`.
pub open spec fn names_field(fields: Seq<(Seq<char>, Seq<char>)>, name: Seq<char>) -> bool {
    exists|i: int| 0 <= i < fields.len() && (#[trigger] fields[i]).0 == name
}

/// A name is entered exactly where a field has it.
pub proof fn lemma_entered_names_field(fields: Seq<(Seq<char>, Seq<char>)>, name: Seq<char>)
    ensures
        entered(fields).contains_key(name) <==> names_field(fields, name),
    decreases fields.len(),
{
    if fields.len() > 0 {
        let rest = fields.drop_last();
        lemma_entered_names_field(rest, name);
        if fields.last().0 == name {
            assert(fields[fields.len() - 1].0 == name);
        } else {
            if names_field(rest, name) {
                let i = choose|i: int| 0 <= i < rest.len() && (#[trigger] rest[i]).0 == name;
                assert(fields[i].0 == name);
            }
            if names_field(fields, name) {
                let i = choose|i: int| 0 <= i < fields.len() && (#[trigger] fields[i]).0 == name;
                assert(rest[i].0 == name);
            }
        }
    }
}

/// The value of an entered name is that of the last field that has the
/// name.
pub proof fn lemma_entered_last_wins(fields: Seq<(Seq<char>, Seq<char>)>, i: int)
    requires
        0 <= i < fields.len(),
        forall|j: int| i < j < fields.len() ==> (#[trigger] fields[j]).0 != fields[i].0,
    ensures
        entered(fields).contains_key(fields[i].0),
        entered(fields)[fields[i].0] == fields[i].1,
    decreases fields.len(),
{
    if i < fields.len() - 1 {
        let rest = fields.drop_last();
        assert(rest[i] == fields[i]);
        assert forall|j: int| i < j < rest.len() implies (#[trigger] rest[j]).0 != rest[i].0 by {
            assert(rest[j] == fields[j]);
        }
        lemma_entered_last_wins(rest, i);
        assert(fields[fields.len() - 1].0 != fields[i].0);
    }
}

/// Among fields of distinct names, putting a new value in the place of a
/// field is entering the field once more.
proof fn lemma_entered_update(
    fields: Seq<(Seq<char>, Seq<char>)>,
    i: int,
    value: Seq<char>,
)
    requires
        0 <= i < fields.len(),
        distinct_names(fields),
    ensures
        entered(fields.update(i, (fields[i].0, value))) == entered(fields).insert(
            fields[i].0,
            value,
        ),
    decreases fields.len(),
{
    let name = fields[i].0;
    let changed = fields.update(i, (name, value));
    let rest = fields.drop_last();
    if i == fields.len() - 1 {
        assert(changed.drop_last() =~= rest);
        assert(entered(changed) =~= entered(fields).insert(name, value));
    } else {
        assert(changed.drop_last() =~= rest.update(i, (rest[i].0, value)));
        lemma_entered_update(rest, i, value);
        assert(fields.last().0 != name);
        assert(entered(changed) =~= entered(fields).insert(name, value));
    }
}

/// The entered names are finitely many, and as many as the fields where
/// the names are distinct.
proof fn lemma_entered_len(fields: Seq<(Seq<char>, Seq<char>)>)
    requires
        distinct_names(fields),
    ensures
        entered(fields).dom().finite(),
        entered(fields).len() == fields.len(),
    decreases fields.len(),
{
    if fields.len() > 0 {
        let rest = fields.drop_last();
        lemma_entered_len(rest);
        lemma_entered_names_field(rest, fields.last().0);
        if names_field(rest, fields.last().0) {
            let i = choose|i: int| 0 <= i < rest.len() && (#[trigger] rest[i]).0 == fields.last().0;
            assert(fields[i].0 == fields[fields.len() - 1].0);
        }
    }
}

/// The names of fields with distinct names are the entered names, each
/// once.
proof fn lemma_entered_names(fields: Seq<(Seq<char>, Seq<char>)>)
    requires
        distinct_names(fields),
    ensures
        fields.map_values(|f: (Seq<char>, Seq<char>)| f.0).no_duplicates(),
        fields.map_values(|f: (Seq<char>, Seq<char>)| f.0).to_set() == entered(fields).dom(),
{
    let names = fields.map_values(|f: (Seq<char>, Seq<char>)| f.0);
    assert forall|name: Seq<char>| names.to_set().contains(name) == entered(
        fields,
    ).dom().contains(name) by {
        lemma_entered_names_field(fields, name);
        if names.contains(name) {
            let i = choose|i: int| 0 <= i < names.len() && names[i] == name;
            assert(fields[i].0 == name);
        }
        if names_field(fields, name) {
            let i = choose|i: int| 0 <= i < fields.len() && (#[trigger] fields[i]).0 == name;
            assert(names[i] == name);
        }
    }
    assert(names.to_set() =~= entered(fields).dom());
}

/// The header fields of a request.
#[derive(Debug)]
pub struct Headers {
    entries: Vec<(String, String)>,
}

impl View for Headers {
    type V = Map<Seq<char>, Seq<char>>;

    closed spec fn view(&self) -> Map<Seq<char>, Seq<char>> {
        entered(field_views(self.entries@))
    }
}

impl Headers {
    #[verifier::type_invariant]
    spec fn names_are_distinct(self) -> bool {
        distinct_names(field_views(self.entries@))
    }

    /// The names in the order in which `entry` gives them.
    pub closed spec fn names(&self) -> Seq<Seq<char>> {
        Seq::new(self.entries@.len(), |i: int| self.entries@[i].0@)
    }

    /// No fields.
    pub fn new() -> (headers: Headers)
        ensures
            headers@ == Map::<Seq<char>, Seq<char>>::empty(),
            headers.names().len() == 0,
    {
        let headers = Headers { entries: Vec::new() };
        assert(field_views(headers.entries@) =~= Seq::empty());
        headers
    }

    /// Where `name` stands among the entries, or their number where it
    /// stands nowhere.
    fn position(&self, name: &str) -> (i: usize)
        ensures
            i <= self.entries@.len(),
            i < self.entries@.len() ==> self.entries@[i as int].0@ == name@,
            i == self.entries@.len() ==> forall|j: int|
                0 <= j < self.entries@.len() ==> self.entries@[j].0@ != name@,
    {
        let mut i: usize = 0;
        while i < self.entries.len()
            invariant
                i <= self.entries@.len(),
                forall|j: int| 0 <= j < i ==> self.entries@[j].0@ != name@,
            decreases self.entries@.len() - i,
        {
            if same_text(self.entries[i].0.as_str(), name) {
                return i;
            }
            i += 1;
        }
        i
    }

    /// Enters a field. A field of the same name that was entered before
    /// gives way to it.
    pub fn insert(&mut self, name: String, value: String)
        ensures
            final(self)@ == old(self)@.insert(name@, value@),
    {
        proof {
            use_type_invariant(&*self);
        }
        let ghost before = field_views(self.entries@);
        let i = self.position(name.as_str());
        let mut taken = Headers::new();
        core::mem::swap(self, &mut taken);
        let mut entries = taken.entries;
        if i < entries.len() {
            entries.set(i, (name, value));
            proof {
                let after = field_views(entries@);
                lemma_entered_update(before, i as int, value@);
                assert(after =~= before.update(i as int, (name@, value@)));
                assert forall|j: int, k: int| 0 <= j < k < after.len() implies after[j].0
                    != after[k].0 by {
                    assert(after[j].0 == before[j].0 && after[k].0 == before[k].0);
                }
            }
        } else {
            entries.push((name, value));
            proof {
                let after = field_views(entries@);
                assert(after.drop_last() =~= before);
                assert(after.last() == (name@, value@));
                assert forall|j: int, k: int| 0 <= j < k < after.len() implies after[j].0
                    != after[k].0 by {
                    assert(after[j] == before[j]);
                    if k < before.len() {
                        assert(after[k] == before[k]);
                    }
                }
            }
        }
        *self = Headers { entries };
    }

    /// The value of the field called `name`, if there is one.
    pub fn get(&self, name: &str) -> (value: Option<&String>)
        ensures
            value is Some <==> self@.contains_key(name@),
            value matches Some(v) ==> v@ == self@[name@],
    {
        let ghost fields = field_views(self.entries@);
        proof {
            use_type_invariant(self);
            lemma_entered_names_field(fields, name@);
        }
        let i = self.position(name);
        if i < self.entries.len() {
            proof {
                assert(fields[i as int].0 == name@);
                lemma_entered_last_wins(fields, i as int);
            }
            Some(&self.entries[i].1)
        } else {
            proof {
                if names_field(fields, name@) {
                    let j = choose|j: int| 0 <= j < fields.len() && (#[trigger] fields[j]).0 == name@;
                    assert(self.entries@[j].0@ == name@);
                }
            }
            None
        }
    }

    /// How many fields there are. The names at the positions below that
    /// number are those of the mapping, each once.
    pub fn len(&self) -> (n: usize)
        ensures
            n == self@.len(),
            n == self.names().len(),
            self@.dom().finite(),
            self.names().no_duplicates(),
            self.names().to_set() == self@.dom(),
    {
        proof {
            use_type_invariant(self);
            let fields = field_views(self.entries@);
            lemma_entered_len(fields);
            lemma_entered_names(fields);
            assert(self.names() =~= fields.map_values(|f: (Seq<char>, Seq<char>)| f.0));
        }
        self.entries.len()
    }

    /// The field at position `i`: its name and its value. The positions
    /// below `len()` hold each field once.
    pub fn entry(&self, i: usize) -> (field: Option<(&String, &String)>)
        ensures
            field is Some <==> i < self.names().len(),
            field matches Some((name, value)) ==> name@ == self.names()[i as int]
                && self@.contains_key(name@) && self@[name@] == value@,
    {
        if i < self.entries.len() {
            proof {
                use_type_invariant(self);
                let fields = field_views(self.entries@);
                assert(fields[i as int] == (self.entries@[i as int].0@, self.entries@[i as int].1@));
                lemma_entered_last_wins(fields, i as int);
            }
            Some((&self.entries[i].0, &self.entries[i].1))
        } else {
            None
        }
    }
}

} // verus!
