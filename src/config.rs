use vstd::prelude::*;

use crate::error::TelemError;
use crate::telemetry::TelemFieldType;

verus! {

/// The schema registry: every known packet type.
#[derive(Debug, Clone)]
pub struct Config {
    pub pkgs: Vec<PacketType>,
}

/// The layout of one packet type.
#[derive(Debug, Clone)]
pub struct PacketType {
    pub name: String,
    pub id: usize,
    pub number_fields: usize,
    pub fields: Vec<Field>,
}

/// A named, typed field at an absolute index (in 4-byte units).
#[derive(Debug, Clone)]
pub struct Field {
    pub name: String,
    pub index: usize,
    pub ty: TelemFieldType,
}

/// `k` is the first position of `pkgs` whose id is `id`.
pub open spec fn is_first_type(pkgs: Seq<PacketType>, id: usize, k: int) -> bool {
    0 <= k < pkgs.len() && pkgs[k].id == id && forall|j: int| 0 <= j < k ==> pkgs[j].id != id
}

/// Whether some packet type of `cfg` has the id `id`.
pub open spec fn has_type(cfg: Config, id: usize) -> bool {
    exists|k: int| 0 <= k < cfg.pkgs@.len() && cfg.pkgs@[k].id == id
}

/// The first packet type of `cfg` with the id `id`.
pub open spec fn type_of_id(cfg: Config, id: usize) -> PacketType {
    let k = choose|k: int| is_first_type(cfg.pkgs@, id, k);
    cfg.pkgs@[k]
}

/// `k` is the first position of `fields` whose name is `name`.
pub open spec fn is_first_field(fields: Seq<Field>, name: Seq<char>, k: int) -> bool {
    0 <= k < fields.len() && fields[k].name@ == name && forall|j: int|
        0 <= j < k ==> fields[j].name@ != name
}

/// Whether the packet type has a field called `name`.
pub open spec fn has_field(t: PacketType, name: Seq<char>) -> bool {
    exists|k: int| 0 <= k < t.fields@.len() && t.fields@[k].name@ == name
}

/// The first field of the packet type called `name`.
pub open spec fn field_of_name(t: PacketType, name: Seq<char>) -> Field {
    let k = choose|k: int| is_first_field(t.fields@, name, k);
    t.fields@[k]
}

/// What a field descriptor says: its name, index and type.
pub open spec fn field_model(f: Field) -> (Seq<char>, usize, TelemFieldType) {
    (f.name@, f.index, f.ty)
}

/// What a packet type says: its name, id, field count and field descriptors.
pub open spec fn type_model(t: PacketType) -> (
    Seq<char>,
    usize,
    usize,
    Seq<(Seq<char>, usize, TelemFieldType)>,
) {
    (t.name@, t.id, t.number_fields, t.fields@.map_values(|f: Field| field_model(f)))
}

proof fn lemma_first_type_unique(pkgs: Seq<PacketType>, id: usize, a: int, b: int)
    requires
        is_first_type(pkgs, id, a),
        is_first_type(pkgs, id, b),
    ensures
        a == b,
{
}

proof fn lemma_first_field_unique(fields: Seq<Field>, name: Seq<char>, a: int, b: int)
    requires
        is_first_field(fields, name, a),
        is_first_field(fields, name, b),
    ensures
        a == b,
{
}

impl Config {
    /// Looks up the packet type with the given id; the first one wins.
    pub fn get_type<'a>(&'a self, id: usize) -> (r: Result<&'a PacketType, TelemError>)
        ensures
            has_type(*self, id) <==> r is Ok,
            r matches Ok(t) ==> *t == type_of_id(*self, id),
            r matches Err(e) ==> e == TelemError::PkgTypeNotFound(id),
    {
        let mut i: usize = 0;
        while i < self.pkgs.len()
            invariant
                i <= self.pkgs@.len(),
                forall|j: int| 0 <= j < i ==> self.pkgs@[j].id != id,
            decreases self.pkgs@.len() - i,
        {
            if self.pkgs[i].id == id {
                proof {
                    assert(is_first_type(self.pkgs@, id, i as int));
                    let k = choose|k: int| is_first_type(self.pkgs@, id, k);
                    lemma_first_type_unique(self.pkgs@, id, i as int, k);
                }
                return Ok(&self.pkgs[i]);
            }
            i += 1;
        }
        Err(TelemError::PkgTypeNotFound(id))
    }
}

impl PacketType {
    /// A copy of the packet type, descriptor by descriptor.
    pub fn duplicate(&self) -> (r: PacketType)
        ensures
            type_model(r) == type_model(*self),
    {
        let mut fields: Vec<Field> = Vec::new();
        let mut i: usize = 0;
        while i < self.fields.len()
            invariant
                i <= self.fields@.len(),
                fields@.len() == i,
                forall|j: int| 0 <= j < i ==> field_model(#[trigger] fields@[j]) == field_model(self.fields@[j]),
            decreases self.fields@.len() - i,
        {
            let f = &self.fields[i];
            fields.push(Field { name: f.name.clone(), index: f.index, ty: f.ty });
            i += 1;
        }
        let r = PacketType {
            name: self.name.clone(),
            id: self.id,
            number_fields: self.number_fields,
            fields,
        };
        assert(r.fields@.map_values(|f: Field| field_model(f)) =~= self.fields@.map_values(
            |f: Field| field_model(f),
        ));
        r
    }

    pub fn get_name(&self) -> (r: String)
        ensures
            r@ == self.name@,
    {
        self.name.clone()
    }

    /// Looks up the field with the given name; the first one wins.
    pub fn get_field<'a>(&'a self, field_name: &str) -> (r: Result<&'a Field, TelemError>)
        ensures
            has_field(*self, field_name@) <==> r is Ok,
            r matches Ok(f) ==> *f == field_of_name(*self, field_name@),
            r matches Err(e) ==> e matches TelemError::FieldNotFound(n) && n@ == field_name@,
    {
        let wanted = field_name.to_owned();
        let mut i: usize = 0;
        while i < self.fields.len()
            invariant
                wanted@ == field_name@,
                i <= self.fields@.len(),
                forall|j: int| 0 <= j < i ==> self.fields@[j].name@ != field_name@,
            decreases self.fields@.len() - i,
        {
            if self.fields[i].name == wanted {
                proof {
                    assert(is_first_field(self.fields@, field_name@, i as int));
                    let k = choose|k: int| is_first_field(self.fields@, field_name@, k);
                    lemma_first_field_unique(self.fields@, field_name@, i as int, k);
                }
                return Ok(&self.fields[i]);
            }
            i += 1;
        }
        Err(TelemError::FieldNotFound(wanted))
    }
}

} // verus!
