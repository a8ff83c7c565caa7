//! Typed events: a measurement, a timestamp, and name-sorted tag and field
//! lists.
//!
//! Tag and field names are unique, never collide with each other, and never
//! use the reserved name `time`; both lists are kept strictly sorted by name,
//! so iteration is ordered. Violations are ruled out by precondition, and the
//! surrounding process checks before calling.

use vstd::prelude::*;
use crate::order::{chars_lt, lemma_chars_lt_total, lemma_chars_lt_trans, names_sorted, str_lt};
use crate::rows::Tag;

verus! {

/// Value of an event field.
#[derive(Debug)]
pub enum FieldValue {
    /// Signed integer.
    I64(i64),
    /// Unsigned integer.
    U64(u64),
    /// Floating-point value, carried as its raw bits; only the surrounding
    /// process reads it as a float.
    F64Bits(u64),
    /// Boolean.
    Bool(bool),
    /// Text.
    Text(String),
}

/// One event field.
#[derive(Debug)]
pub struct EventField {
    /// Field name.
    pub name: String,
    /// Field value.
    pub value: FieldValue,
}

/// Names of the tag list.
pub open spec fn tag_names(tags: Seq<Tag>) -> Seq<Seq<char>> {
    tags.map_values(|t: Tag| t.name@)
}

/// Names of the field list.
pub open spec fn field_names(fields: Seq<EventField>) -> Seq<Seq<char>> {
    fields.map_values(|f: EventField| f.name@)
}

/// Does a name list hold this name?
pub open spec fn has_name(names: Seq<Seq<char>>, n: Seq<char>) -> bool {
    exists|i: int| 0 <= i < names.len() && names[i] == n
}

/// A typed event.
#[derive(Debug)]
pub struct Event {
    /// Measurement name the event is recorded under.
    pub measurement: String,
    /// Timestamp in nanoseconds.
    pub time_ns: i64,
    /// Tags, strictly sorted by name.
    pub tags: Vec<Tag>,
    /// Fields, strictly sorted by name.
    pub fields: Vec<EventField>,
}

impl Event {
    /// Event well-formedness: both lists strictly name-sorted, and no name
    /// shared between them.
    pub open spec fn wf(self) -> bool {
        &&& names_sorted(tag_names(self.tags@))
        &&& names_sorted(field_names(self.fields@))
        &&& forall|n: Seq<char>|
            has_name(tag_names(self.tags@), n) ==> !has_name(field_names(self.fields@), n)
    }

    /// A new event with no tags and no fields.
    pub fn new(measurement: String, time_ns: i64) -> (r: Self)
        ensures
            r.wf(),
            r.measurement == measurement,
            r.time_ns == time_ns,
            r.tags@.len() == 0,
            r.fields@.len() == 0,
    {
        Event { measurement, time_ns, tags: Vec::new(), fields: Vec::new() }
    }

    /// Add a tag. The name must be fresh on both lists and must not be the
    /// reserved name `time`; the tag lands at its sorted position.
    pub fn add_tag_mut(&mut self, name: String, value: String)
        requires
            old(self).wf(),
            name@ != "time"@,
            !has_name(tag_names(old(self).tags@), name@),
            !has_name(field_names(old(self).fields@), name@),
        ensures
            final(self).wf(),
            final(self).measurement == old(self).measurement,
            final(self).time_ns == old(self).time_ns,
            final(self).fields@ == old(self).fields@,
            exists|i: int|
                0 <= i <= old(self).tags@.len() && final(self).tags@ == old(self).tags@.insert(
                    i,
                    Tag { name, value },
                ),
    {
        let ghost orig = self.tags@;
        let mut i: usize = self.tags.len();
        while i > 0 && !str_lt(&self.tags[i - 1].name, &name)
            invariant
                0 <= i <= self.tags@.len(),
                self.tags@ == orig,
                forall|j: int| i <= j < orig.len() ==> !chars_lt(tag_names(orig)[j], name@),
            decreases i,
        {
            i = i - 1;
        }
        proof {
            assert forall|j: int| i <= j < orig.len() implies chars_lt(
                name@,
                tag_names(orig)[j],
            ) by {
                assert(!has_name(tag_names(orig), name@));
                assert(tag_names(orig)[j] != name@);
                lemma_chars_lt_total(name@, tag_names(orig)[j]);
            }
            assert forall|p: int| 0 <= p < i implies chars_lt(tag_names(orig)[p], name@) by {
                assert(chars_lt(tag_names(orig)[i - 1], name@));
                if p < i - 1 {
                    assert(chars_lt(tag_names(orig)[p], tag_names(orig)[i - 1]));
                    lemma_chars_lt_trans(tag_names(orig)[p], tag_names(orig)[i - 1], name@);
                }
            }
        }
        let ghost gi = i as int;
        let ghost tag = (Tag { name: name, value: value });
        self.tags.insert(i, Tag { name, value });
        proof {
            assert(self.tags@ == orig.insert(gi, tag));
            assert(tag_names(self.tags@) =~= tag_names(orig).insert(gi, tag.name@));
            assert forall|p: int, q: int|
                0 <= p < q < tag_names(self.tags@).len() implies chars_lt(
                tag_names(self.tags@)[p],
                tag_names(self.tags@)[q],
            ) by {}
            assert forall|n: Seq<char>|
                has_name(tag_names(self.tags@), n) implies !has_name(
                field_names(self.fields@),
                n,
            ) by {
                let w = choose|w: int|
                    0 <= w < tag_names(self.tags@).len() && tag_names(self.tags@)[w] == n;
                if w < gi {
                    assert(tag_names(orig)[w] == n);
                } else if w > gi {
                    assert(tag_names(orig)[w - 1] == n);
                }
            }
        }
    }

    /// Add a field. The name must be fresh on both lists and must not be the
    /// reserved name `time`; the field lands at its sorted position.
    pub fn add_field_mut(&mut self, name: String, value: FieldValue)
        requires
            old(self).wf(),
            name@ != "time"@,
            !has_name(tag_names(old(self).tags@), name@),
            !has_name(field_names(old(self).fields@), name@),
        ensures
            final(self).wf(),
            final(self).measurement == old(self).measurement,
            final(self).time_ns == old(self).time_ns,
            final(self).tags@ == old(self).tags@,
            exists|i: int|
                0 <= i <= old(self).fields@.len() && field_names(final(self).fields@) == field_names(
                    old(self).fields@,
                ).insert(i, name@),
    {
        let ghost orig = self.fields@;
        let mut i: usize = self.fields.len();
        while i > 0 && !str_lt(&self.fields[i - 1].name, &name)
            invariant
                0 <= i <= self.fields@.len(),
                self.fields@ == orig,
                forall|j: int| i <= j < orig.len() ==> !chars_lt(field_names(orig)[j], name@),
            decreases i,
        {
            i = i - 1;
        }
        proof {
            assert forall|j: int| i <= j < orig.len() implies chars_lt(
                name@,
                field_names(orig)[j],
            ) by {
                assert(!has_name(field_names(orig), name@));
                assert(field_names(orig)[j] != name@);
                lemma_chars_lt_total(name@, field_names(orig)[j]);
            }
            assert forall|p: int| 0 <= p < i implies chars_lt(field_names(orig)[p], name@) by {
                assert(chars_lt(field_names(orig)[i - 1], name@));
                if p < i - 1 {
                    assert(chars_lt(field_names(orig)[p], field_names(orig)[i - 1]));
                    lemma_chars_lt_trans(field_names(orig)[p], field_names(orig)[i - 1], name@);
                }
            }
        }
        let ghost gi = i as int;
        let ghost gname = name@;
        self.fields.insert(i, EventField { name, value });
        proof {
            assert(field_names(self.fields@) =~= field_names(orig).insert(gi, gname));
            assert forall|p: int, q: int|
                0 <= p < q < field_names(self.fields@).len() implies chars_lt(
                field_names(self.fields@)[p],
                field_names(self.fields@)[q],
            ) by {}
            assert forall|n: Seq<char>|
                has_name(tag_names(self.tags@), n) implies !has_name(
                field_names(self.fields@),
                n,
            ) by {
                assert forall|w: int|
                    0 <= w < field_names(self.fields@).len() implies field_names(
                    self.fields@,
                )[w] != n by {
                    if w < gi {
                        assert(field_names(self.fields@)[w] == field_names(orig)[w]);
                    } else if w > gi {
                        assert(field_names(self.fields@)[w] == field_names(orig)[w - 1]);
                    } else {
                        assert(field_names(self.fields@)[w] == gname);
                    }
                }
            }
        }
    }

    /// Add a tag, taking and returning the event; the builder form of
    /// [`Event::add_tag_mut`].
    pub fn add_tag_move(self, name: String, value: String) -> (r: Self)
        requires
            self.wf(),
            name@ != "time"@,
            !has_name(tag_names(self.tags@), name@),
            !has_name(field_names(self.fields@), name@),
        ensures
            r.wf(),
            r.measurement == self.measurement,
            r.time_ns == self.time_ns,
            r.fields@ == self.fields@,
            exists|i: int|
                0 <= i <= self.tags@.len() && r.tags@ == self.tags@.insert(
                    i,
                    Tag { name, value },
                ),
    {
        let mut e = self;
        e.add_tag_mut(name, value);
        e
    }

    /// Add a field, taking and returning the event; the builder form of
    /// [`Event::add_field_mut`].
    pub fn add_field_move(self, name: String, value: FieldValue) -> (r: Self)
        requires
            self.wf(),
            name@ != "time"@,
            !has_name(tag_names(self.tags@), name@),
            !has_name(field_names(self.fields@), name@),
        ensures
            r.wf(),
            r.measurement == self.measurement,
            r.time_ns == self.time_ns,
            r.tags@ == self.tags@,
            exists|i: int|
                0 <= i <= self.fields@.len() && field_names(r.fields@) == field_names(
                    self.fields@,
                ).insert(i, name@),
    {
        let mut e = self;
        e.add_field_mut(name, value);
        e
    }
}

} // verus!