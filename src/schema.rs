//! Field declarations.

use vstd::prelude::*;

verus! {

/// A declared text field with its indexing and storage policy.
pub struct FieldEntry {
    pub name: String,
    pub indexed: bool,
    pub stored: bool,
}

#[derive(Debug, PartialEq, Eq, Structural, Clone, Copy)]
pub enum SchemaError {
    /// A field of that name is already declared.
    DuplicateField,
    /// No field of that name is declared.
    UnknownField,
    /// The field would be neither indexed nor stored.
    UnusedField,
}

/// An ordered set of fields, addressed by name or by position (the field id).
pub struct Schema {
    pub fields: Vec<FieldEntry>,
}

/// Position `i` holds a field named `name`.
pub open spec fn names_at(fields: Seq<FieldEntry>, i: int, name: Seq<char>) -> bool {
    0 <= i < fields.len() && fields[i].name@ == name
}

impl Schema {
    /// Field names are unique and each field is indexed or stored.
    pub open spec fn wf(&self) -> bool {
        &&& forall|i: int, j: int|
            0 <= i < j < self.fields@.len() ==> #[trigger] self.fields@[i].name@
                != #[trigger] self.fields@[j].name@
        &&& forall|i: int|
            0 <= i < self.fields@.len() ==> (#[trigger] self.fields@[i]).indexed
                || self.fields@[i].stored
    }

    pub open spec fn has_name(&self, name: Seq<char>) -> bool {
        exists|i: int| names_at(self.fields@, i, name)
    }

    pub fn new() -> (r: Schema)
        ensures
            r.wf(),
            r.fields@.len() == 0,
    {
        Schema { fields: Vec::new() }
    }

    /// The id of the field named `name`, if one is declared.
    pub fn field_id(&self, name: &str) -> (r: Option<usize>)
        ensures
            r matches Some(i) ==> names_at(self.fields@, i as int, name@),
            r is None <==> !self.has_name(name@),
    {
        let target: String = <String as vstd::string::StringExecFns>::from_str(name);
        let mut i: usize = 0;
        while i < self.fields.len()
            invariant
                i <= self.fields@.len(),
                target@ == name@,
                forall|j: int| 0 <= j < i ==> !names_at(self.fields@, j, name@),
            decreases self.fields@.len() - i,
        {
            let same = self.fields[i].name.eq(&target);
            if same {
                assert(names_at(self.fields@, i as int, name@));
                return Some(i);
            }
            i = i + 1;
        }
        None
    }

    /// Declares a field; its id is its position in declaration order.
    pub fn define_field(&mut self, name: &str, indexed: bool, stored: bool) -> (r: Result<
        usize,
        SchemaError,
    >)
        requires
            old(self).wf(),
        ensures
            final(self).wf(),
            !indexed && !stored ==> r == Err::<usize, SchemaError>(SchemaError::UnusedField)
                && final(self).fields@ == old(self).fields@,
            (indexed || stored) && old(self).has_name(name@) ==> r == Err::<usize, SchemaError>(
                SchemaError::DuplicateField,
            ) && final(self).fields@ == old(self).fields@,
            (indexed || stored) && !old(self).has_name(name@) ==> r == Ok::<usize, SchemaError>(
                old(self).fields@.len() as usize,
            ) && final(self).fields@ == old(self).fields@.push(
                FieldEntry { name: final(self).fields@.last().name, indexed, stored },
            ) && final(self).fields@.last().name@ == name@,
    {
        if !indexed && !stored {
            return Err(SchemaError::UnusedField);
        }
        if self.field_id(name).is_some() {
            return Err(SchemaError::DuplicateField);
        }
        let id = self.fields.len();
        self.fields.push(FieldEntry { name: <String as vstd::string::StringExecFns>::from_str(name), indexed, stored });
        assert forall|i: int| 0 <= i < id implies #[trigger] self.fields@[i].name@ != self.fields@[id as int].name@ by {
            assert(!names_at(old(self).fields@, i, name@));
        }
        Ok(id)
    }
}

} // verus!
