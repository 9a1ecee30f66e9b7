//! The field dictionary: registers fields with their configuration.

use vstd::prelude::*;
use vstd::hash_map::StringHashMap;
use crate::ids::FieldId;
use crate::scalar::Scalar;

verus! {

/// How a field is indexed.
pub struct FieldConfig {
    /// The factor by which the weights of the field's terms are multiplied.
    pub boost: Scalar,
    /// The fields to which the field's content is appended, each once.
    pub copy_to: Vec<FieldId>,
}

impl Default for FieldConfig {
    /// A boost of one, and no field to copy to.
    fn default() -> (r: FieldConfig)
        ensures
            r.boost == Scalar::one_spec(),
            r.copy_to@ == Seq::<FieldId>::empty(),
    {
        FieldConfig { boost: Scalar::one(), copy_to: Vec::new() }
    }
}

impl FieldConfig {
    /// A copy of the configuration.
    pub fn duplicate(&self) -> (r: FieldConfig)
        ensures
            r.boost == self.boost,
            r.copy_to@ == self.copy_to@,
    {
        let mut copy_to: Vec<FieldId> = Vec::new();
        let mut i: usize = 0;
        while i < self.copy_to.len()
            invariant
                i <= self.copy_to.len(),
                copy_to@ == self.copy_to@.take(i as int),
            decreases self.copy_to.len() - i,
        {
            copy_to.push(self.copy_to[i]);
            assert(copy_to@ =~= self.copy_to@.take(i + 1));
            i += 1;
        }
        assert(self.copy_to@.take(self.copy_to.len() as int) =~= self.copy_to@);
        FieldConfig { boost: self.boost.duplicate(), copy_to }
    }

    /// The configuration with its boost multiplied by the single-precision
    /// value whose bit pattern is `factor`.
    pub fn boost(&self, factor: u32) -> (r: FieldConfig)
        ensures
            r.boost == Scalar::mul_spec(self.boost, Scalar::Bits(factor)),
            r.copy_to@ == self.copy_to@,
    {
        let mut new = self.duplicate();
        new.boost = Scalar::product(new.boost, Scalar::Bits(factor));
        new
    }

    /// The configuration with `other` among the fields to copy to.
    pub fn copy_to(&self, other: FieldId) -> (r: FieldConfig)
        ensures
            r.boost == self.boost,
            r.copy_to@ == (if self.copy_to@.contains(other) {
                self.copy_to@
            } else {
                self.copy_to@.push(other)
            }),
    {
        let mut new = self.duplicate();
        let mut found = false;
        let mut i: usize = 0;
        while i < new.copy_to.len()
            invariant
                i <= new.copy_to.len(),
                new.copy_to@ == self.copy_to@,
                found == self.copy_to@.take(i as int).contains(other),
            decreases new.copy_to.len() - i,
        {
            proof {
                let seen = self.copy_to@.take(i as int);
                let more = self.copy_to@.take(i + 1);
                assert(more =~= seen.push(self.copy_to@[i as int]));
                if seen.contains(other) {
                    let k = choose|k: int| 0 <= k < seen.len() && seen[k] == other;
                    assert(more[k] == other);
                }
                if more.contains(other) && self.copy_to@[i as int] != other {
                    let k = choose|k: int| 0 <= k < more.len() && more[k] == other;
                    assert(seen[k] == other);
                }
                assert(more[i as int] == self.copy_to@[i as int]);
            }
            if new.copy_to[i].0 == other.0 {
                found = true;
            }
            i += 1;
        }
        assert(self.copy_to@.take(self.copy_to@.len() as int) =~= self.copy_to@);
        if !found {
            new.copy_to.push(other);
        }
        new
    }
}

/// An append-only table of fields. A field's identifier is its place in the
/// order of insertion.
pub struct DataDictionary {
    pub next_field_id: u32,
    /// The identifier of each field name.
    pub field_names: StringHashMap<FieldId>,
    /// The configuration of each identifier.
    pub fields: Vec<FieldConfig>,
}

impl Default for DataDictionary {
    /// A dictionary without fields.
    fn default() -> (r: DataDictionary)
        ensures
            r.wf(),
            r.next_field_id == 0,
            r.fields@ == Seq::<FieldConfig>::empty(),
            forall|name: Seq<char>| !r.has(name),
    {
        DataDictionary::new()
    }
}

impl DataDictionary {
    /// Whether `name` is registered.
    pub open spec fn has(&self, name: Seq<char>) -> bool {
        self.field_names@.contains_key(name)
    }

    /// The identifier of a registered name.
    pub open spec fn id_of(&self, name: Seq<char>) -> FieldId {
        self.field_names@[name]
    }

    /// The dictionary's invariant: every name leads to an identifier that was
    /// handed out.
    pub open spec fn wf(&self) -> bool {
        &&& self.next_field_id == self.fields@.len()
        &&& forall|name: Seq<char>| #[trigger]
            self.field_names@.contains_key(name) ==> self.field_names@[name].0 < self.fields@.len()
    }

    /// A dictionary without fields.
    pub fn new() -> (r: DataDictionary)
        ensures
            r.wf(),
            r.next_field_id == 0,
            r.fields@ == Seq::<FieldConfig>::empty(),
            forall|name: Seq<char>| !r.has(name),
    {
        DataDictionary { next_field_id: 0, field_names: StringHashMap::new(), fields: Vec::new() }
    }

    /// Registers `name` under the next identifier. The configurations of the
    /// identifiers handed out before stay as they are; a name that was
    /// registered before leads to the new identifier from now on.
    pub fn insert(&mut self, name: String, config: FieldConfig) -> (id: FieldId)
        requires
            old(self).wf(),
            old(self).next_field_id < u32::MAX,
        ensures
            final(self).wf(),
            id.0 == old(self).fields@.len(),
            final(self).fields@ == old(self).fields@.push(config),
            final(self).field_names@ == old(self).field_names@.insert(name@, id),
    {
        let id = FieldId(self.next_field_id);
        self.next_field_id = self.next_field_id + 1;
        self.field_names.insert(name, id);
        self.fields.push(config);
        id
    }

    /// The configuration of `field_id`, if the identifier has been handed
    /// out.
    pub fn get(&self, field_id: FieldId) -> (r: Option<&FieldConfig>)
        requires
            self.wf(),
        ensures
            match r {
                Some(config) => field_id.0 < self.fields@.len() && *config
                    == self.fields@[field_id.0 as int],
                None => field_id.0 >= self.fields@.len(),
            },
    {
        if field_id.0 < self.next_field_id {
            Some(&self.fields[field_id.0 as usize])
        } else {
            None
        }
    }

    /// The identifier and the configuration of the field `name`, if it is
    /// registered.
    pub fn get_by_name(&self, name: &str) -> (r: Option<(FieldId, &FieldConfig)>)
        requires
            self.wf(),
        ensures
            match r {
                Some((id, config)) => self.has(name@) && id == self.id_of(name@) && *config
                    == self.fields@[id.0 as int],
                None => !self.has(name@),
            },
    {
        match self.field_names.get(name) {
            Some(id) => Some((*id, &self.fields[id.0 as usize])),
            None => None,
        }
    }
}

} // verus!
