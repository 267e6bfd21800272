//! The AAMP parameter-archive model: CRC-32 names, typed parameter
//! leaves, and the three nesting levels of the parameter tree.
use vstd::prelude::*;
use vstd::string::*;

use crate::types::{Color, Curve, FixedSafeString, Quat, Vector2f, Vector3f, Vector4f};

verus! {

/// The error surface of the whole library. Every fallible operation
/// returns a `Result` carrying one of these.
#[derive(Debug, Clone, PartialEq, Eq)]
pub enum AampError {
    /// Magic, version, type byte, offset, or length is invalid.
    InvalidData(&'static str),
    /// An I/O failure reported by a caller-provided channel.
    IoError(String),
    /// A binary read or write could not complete.
    BinaryRWError(String),
    /// A string field held malformed text.
    BadString(String),
    /// Any other failure, described in text.
    Any(String),
}

pub type Result<T> = core::result::Result<T, AampError>;

/// One round of the CRC-32 shift register: shift right, and fold the
/// polynomial in when the low bit was set.
pub open spec fn crc32_step(crc: u32) -> u32 {
    if crc & 1 == 1 {
        (crc >> 1) ^ 0xEDB88320u32
    } else {
        crc >> 1
    }
}

/// `n` rounds of the shift register.
pub open spec fn crc32_rounds(crc: u32, n: nat) -> u32
    decreases n,
{
    if n == 0 {
        crc
    } else {
        crc32_step(crc32_rounds(crc, (n - 1) as nat))
    }
}

/// Absorb one byte: XOR it into the register, then run eight rounds.
pub open spec fn crc32_update(crc: u32, byte: u8) -> u32 {
    crc32_rounds(crc ^ (byte as u32), 8)
}

/// Absorb a byte sequence, left to right.
pub open spec fn crc32_accum(crc: u32, bytes: Seq<u8>) -> u32
    decreases bytes.len(),
{
    if bytes.len() == 0 {
        crc
    } else {
        crc32_update(crc32_accum(crc, bytes.drop_last()), bytes.last())
    }
}

/// CRC-32/ISO-HDLC of a byte sequence: initial value and final XOR
/// are both all-ones.
pub open spec fn name_hash(bytes: Seq<u8>) -> u32 {
    crc32_accum(0xFFFFFFFFu32, bytes) ^ 0xFFFFFFFFu32
}

/// CRC hash function used for every AAMP key.
pub fn hash_name(name: &str) -> (r: u32)
    ensures
        r == name_hash(name.spec_bytes()),
{
    let bytes: &[u8] = name.as_bytes();
    let mut crc: u32 = 0xFFFFFFFF;
    let n: usize = bytes.len();
    let mut i: usize = 0;
    while i < n
        invariant
            n == bytes@.len(),
            i <= n,
            crc == crc32_accum(0xFFFFFFFFu32, bytes@.take(i as int)),
        decreases n - i,
    {
        crc = crc ^ (bytes[i] as u32);
        let ghost absorbed: u32 = crc;
        let mut j: u8 = 0;
        while j < 8
            invariant
                j <= 8,
                crc == crc32_rounds(absorbed, j as nat),
            decreases 8 - j,
        {
            if crc & 1 == 1 {
                crc = (crc >> 1) ^ 0xEDB88320;
            } else {
                crc = crc >> 1;
            }
            j = j + 1;
        }
        proof {
            assert(bytes@.take(i + 1).drop_last() =~= bytes@.take(i as int));
            assert(bytes@.take(i + 1).last() == bytes@[i as int]);
        }
        i = i + 1;
    }
    proof {
        assert(bytes@.take(n as int) =~= bytes@);
    }
    crc ^ 0xFFFFFFFF
}

/// Parameter structure name: a wrapper around the CRC-32 hash of the
/// original key text. The text itself is not retained.
#[derive(Debug, Clone, Copy, PartialEq, Eq, Hash, Structural)]
pub struct Name(u32);

/// The `Name` whose raw hash is `h`.
pub closed spec fn name_of(h: u32) -> Name {
    Name(h)
}

/// `name_of` and `spec_hash` are inverses.
pub broadcast proof fn lemma_name_of(h: u32)
    ensures
        (#[trigger] name_of(h)).spec_hash() == h,
{
}

impl Name {
    /// The raw hash a `Name` stands for.
    pub closed spec fn spec_hash(&self) -> u32 {
        self.0
    }

    /// The CRC-32 hash of the name.
    pub fn hash(&self) -> (r: u32)
        ensures
            r == self.spec_hash(),
    {
        self.0
    }

    /// Construct a `Name` directly from key text.
    pub fn from_str(s: &str) -> (r: Name)
        ensures
            r.spec_hash() == name_hash(s.spec_bytes()),
    {
        Name(hash_name(s))
    }
}

impl From<&str> for Name {
    fn from(s: &str) -> (r: Name) {
        Name(hash_name(s))
    }
}

impl vstd::std_specs::convert::FromSpecImpl<&str> for Name {
    open spec fn obeys_from_spec() -> bool {
        true
    }

    open spec fn from_spec(s: &str) -> Name {
        name_of(name_hash(s.spec_bytes()))
    }
}

impl From<u32> for Name {
    fn from(u: u32) -> (r: Name) {
        Name(u)
    }
}

impl vstd::std_specs::convert::FromSpecImpl<u32> for Name {
    open spec fn obeys_from_spec() -> bool {
        true
    }

    open spec fn from_spec(u: u32) -> Name {
        name_of(u)
    }
}

/// An insertion-ordered mapping from `Name` to a value. Lookup is by
/// the 32-bit hash; an insert whose hash is already present is
/// rejected, so two keys that collide in the CRC space cannot
/// coexist.
#[derive(Debug, Clone, PartialEq)]
pub struct ParameterStructureMap<V> {
    entries: Vec<(Name, V)>,
}

impl<V> ParameterStructureMap<V> {
    /// The entries, in insertion order.
    pub closed spec fn entries_seq(&self) -> Seq<(Name, V)> {
        self.entries@
    }

    /// Whether some entry carries this hash.
    pub open spec fn contains_hash(&self, h: u32) -> bool {
        exists|i: int|
            0 <= i < self.entries_seq().len() && (#[trigger] self.entries_seq()[i]).0.spec_hash()
                == h
    }

    /// No two entries carry the same hash.
    pub open spec fn wf(&self) -> bool {
        forall|i: int, j: int|
            0 <= i < j < self.entries_seq().len() ==> (#[trigger] self.entries_seq()[i]).0.spec_hash()
                != (#[trigger] self.entries_seq()[j]).0.spec_hash()
    }

    /// An empty mapping.
    pub fn new() -> (r: ParameterStructureMap<V>)
        ensures
            r.entries_seq() === Seq::<(Name, V)>::empty(),
            r.wf(),
    {
        ParameterStructureMap { entries: Vec::new() }
    }

    /// How many entries the mapping holds.
    pub fn len(&self) -> (r: usize)
        ensures
            r == self.entries_seq().len(),
    {
        self.entries.len()
    }

    /// Whether the mapping holds no entry.
    pub fn is_empty(&self) -> (r: bool)
        ensures
            r == (self.entries_seq().len() == 0),
    {
        self.entries.len() == 0
    }

    /// The entry at an insertion-order position.
    pub fn entry_at(&self, i: usize) -> (r: &(Name, V))
        requires
            i < self.entries_seq().len(),
        ensures
            *r == self.entries_seq()[i as int],
    {
        &self.entries[i]
    }

    /// Look a value up by its name's hash.
    pub fn get(&self, name: Name) -> (r: Option<&V>)
        ensures
            match r {
                Some(v) => exists|i: int|
                    0 <= i < self.entries_seq().len() && (#[trigger] self.entries_seq()[i])
                        == (name, *v),
                None => !self.contains_hash(name.spec_hash()),
            },
    {
        let n: usize = self.entries.len();
        let mut i: usize = 0;
        while i < n
            invariant
                n == self.entries_seq().len(),
                i <= n,
                forall|j: int|
                    0 <= j < i ==> (#[trigger] self.entries_seq()[j]).0.spec_hash()
                        != name.spec_hash(),
            decreases n - i,
        {
            if self.entries[i].0.hash() == name.hash() {
                proof {
                    assert(self.entries_seq()[i as int].0 == name);
                }
                return Some(&self.entries[i].1);
            }
            i = i + 1;
        }
        None
    }

    /// Append an entry, rejecting a hash that is already present.
    pub fn insert(&mut self, name: Name, value: V) -> (r: Result<()>)
        requires
            old(self).wf(),
        ensures
            final(self).wf(),
            match r {
                Ok(()) => !old(self).contains_hash(name.spec_hash()) && final(self).entries_seq()
                    == old(self).entries_seq().push((name, value)),
                Err(e) => old(self).contains_hash(name.spec_hash()) && final(self).entries_seq()
                    == old(self).entries_seq() && e matches AampError::InvalidData(_),
            },
    {
        let n: usize = self.entries.len();
        let mut i: usize = 0;
        while i < n
            invariant
                n == self.entries_seq().len(),
                i <= n,
                self.entries_seq() == old(self).entries_seq(),
                old(self).wf(),
                forall|j: int|
                    0 <= j < i ==> (#[trigger] self.entries_seq()[j]).0.spec_hash()
                        != name.spec_hash(),
            decreases n - i,
        {
            if self.entries[i].0.hash() == name.hash() {
                proof {
                    assert(self.entries_seq()[i as int].0.spec_hash() == name.spec_hash());
                    assert forall|a: int, b: int|
                        0 <= a < b < self.entries_seq().len() implies (
                    #[trigger] self.entries_seq()[a]).0.spec_hash() != (
                    #[trigger] self.entries_seq()[b]).0.spec_hash() by {
                        assert(old(self).entries_seq()[a].0.spec_hash() != old(
                            self,
                        ).entries_seq()[b].0.spec_hash());
                    }
                }
                return Err(AampError::InvalidData("a key with this hash is already present"));
            }
            i = i + 1;
        }
        self.entries.push((name, value));
        proof {
            let ghost oldseq = old(self).entries_seq();
            assert forall|a: int, b: int|
                0 <= a < b < self.entries_seq().len() implies (
            #[trigger] self.entries_seq()[a]).0.spec_hash() != (
            #[trigger] self.entries_seq()[b]).0.spec_hash() by {
                if b < oldseq.len() {
                    assert(oldseq[a].0.spec_hash() != oldseq[b].0.spec_hash());
                } else {
                    assert(self.entries_seq()[b] == (name, value));
                    assert(oldseq[a].0.spec_hash() != name.spec_hash());
                }
            }
        }
        Ok(())
    }
}

/// An ordered mapping from parameter names to parameters.
#[derive(Debug, Clone, PartialEq)]
pub struct ParameterObject(pub ParameterStructureMap<Parameter>);

impl ParameterObject {
    /// An empty parameter object.
    pub fn new() -> (r: ParameterObject)
        ensures
            r.0.entries_seq() === Seq::<(Name, Parameter)>::empty(),
            r.0.wf(),
    {
        ParameterObject(ParameterStructureMap::new())
    }

    /// How many parameters the object holds.
    pub fn len(&self) -> (r: usize)
        ensures
            r == self.0.entries_seq().len(),
    {
        self.0.len()
    }

    /// Whether the object holds no parameter.
    pub fn is_empty(&self) -> (r: bool)
        ensures
            r == (self.0.entries_seq().len() == 0),
    {
        self.0.is_empty()
    }
}

/// An ordered mapping from names to parameter objects.
#[derive(Debug, Clone, PartialEq)]
pub struct ParameterObjectMap(pub ParameterStructureMap<ParameterObject>);

impl ParameterObjectMap {
    /// An empty object map.
    pub fn new() -> (r: ParameterObjectMap)
        ensures
            r.0.entries_seq() === Seq::<(Name, ParameterObject)>::empty(),
            r.0.wf(),
    {
        ParameterObjectMap(ParameterStructureMap::new())
    }

    /// How many objects the map holds.
    pub fn len(&self) -> (r: usize)
        ensures
            r == self.0.entries_seq().len(),
    {
        self.0.len()
    }

    /// Whether the map holds no object.
    pub fn is_empty(&self) -> (r: bool)
        ensures
            r == (self.0.entries_seq().len() == 0),
    {
        self.0.is_empty()
    }
}

/// An ordered mapping from names to child parameter lists. It keeps
/// the same shape and rules as [`ParameterStructureMap`]; it is a
/// type of its own because the parameter tree recurses through it.
#[derive(Debug, PartialEq)]
pub struct ParameterListMap {
    entries: Vec<(Name, ParameterList)>,
}

impl ParameterListMap {
    /// The entries, in insertion order.
    pub closed spec fn entries_seq(&self) -> Seq<(Name, ParameterList)> {
        self.entries@
    }

    /// Whether some entry carries this hash.
    pub open spec fn contains_hash(&self, h: u32) -> bool {
        exists|i: int|
            0 <= i < self.entries_seq().len() && (#[trigger] self.entries_seq()[i]).0.spec_hash()
                == h
    }

    /// No two entries carry the same hash.
    pub open spec fn wf(&self) -> bool {
        forall|i: int, j: int|
            0 <= i < j < self.entries_seq().len() ==> (#[trigger] self.entries_seq()[i]).0.spec_hash()
                != (#[trigger] self.entries_seq()[j]).0.spec_hash()
    }

    /// An empty list map.
    pub fn new() -> (r: ParameterListMap)
        ensures
            r.entries_seq() === Seq::<(Name, ParameterList)>::empty(),
            r.wf(),
    {
        ParameterListMap { entries: Vec::new() }
    }

    /// How many lists the map holds.
    pub fn len(&self) -> (r: usize)
        ensures
            r == self.entries_seq().len(),
    {
        self.entries.len()
    }

    /// Whether the map holds no list.
    pub fn is_empty(&self) -> (r: bool)
        ensures
            r == (self.entries_seq().len() == 0),
    {
        self.entries.len() == 0
    }

    /// The entry at an insertion-order position.
    pub fn entry_at(&self, i: usize) -> (r: &(Name, ParameterList))
        requires
            i < self.entries_seq().len(),
        ensures
            *r == self.entries_seq()[i as int],
    {
        &self.entries[i]
    }

    /// Look a child list up by its name's hash.
    pub fn get(&self, name: Name) -> (r: Option<&ParameterList>)
        ensures
            match r {
                Some(v) => exists|i: int|
                    0 <= i < self.entries_seq().len() && (#[trigger] self.entries_seq()[i])
                        == (name, *v),
                None => !self.contains_hash(name.spec_hash()),
            },
    {
        let n: usize = self.entries.len();
        let mut i: usize = 0;
        while i < n
            invariant
                n == self.entries_seq().len(),
                i <= n,
                forall|j: int|
                    0 <= j < i ==> (#[trigger] self.entries_seq()[j]).0.spec_hash()
                        != name.spec_hash(),
            decreases n - i,
        {
            if self.entries[i].0.hash() == name.hash() {
                proof {
                    assert(self.entries_seq()[i as int].0 == name);
                }
                return Some(&self.entries[i].1);
            }
            i = i + 1;
        }
        None
    }

    /// Append an entry, rejecting a hash that is already present.
    pub fn insert(&mut self, name: Name, value: ParameterList) -> (r: Result<()>)
        requires
            old(self).wf(),
        ensures
            final(self).wf(),
            match r {
                Ok(()) => !old(self).contains_hash(name.spec_hash()) && final(self).entries_seq()
                    == old(self).entries_seq().push((name, value)),
                Err(e) => old(self).contains_hash(name.spec_hash()) && final(self).entries_seq()
                    == old(self).entries_seq() && e matches AampError::InvalidData(_),
            },
    {
        let n: usize = self.entries.len();
        let mut i: usize = 0;
        while i < n
            invariant
                n == self.entries_seq().len(),
                i <= n,
                self.entries_seq() == old(self).entries_seq(),
                old(self).wf(),
                forall|j: int|
                    0 <= j < i ==> (#[trigger] self.entries_seq()[j]).0.spec_hash()
                        != name.spec_hash(),
            decreases n - i,
        {
            if self.entries[i].0.hash() == name.hash() {
                proof {
                    assert(self.entries_seq()[i as int].0.spec_hash() == name.spec_hash());
                    assert forall|a: int, b: int|
                        0 <= a < b < self.entries_seq().len() implies (
                    #[trigger] self.entries_seq()[a]).0.spec_hash() != (
                    #[trigger] self.entries_seq()[b]).0.spec_hash() by {
                        assert(old(self).entries_seq()[a].0.spec_hash() != old(
                            self,
                        ).entries_seq()[b].0.spec_hash());
                    }
                }
                return Err(AampError::InvalidData("a key with this hash is already present"));
            }
            i = i + 1;
        }
        self.entries.push((name, value));
        proof {
            let ghost oldseq = old(self).entries_seq();
            assert forall|a: int, b: int|
                0 <= a < b < self.entries_seq().len() implies (
            #[trigger] self.entries_seq()[a]).0.spec_hash() != (
            #[trigger] self.entries_seq()[b]).0.spec_hash() by {
                if b < oldseq.len() {
                    assert(oldseq[a].0.spec_hash() != oldseq[b].0.spec_hash());
                } else {
                    assert(self.entries_seq()[b] == (name, value));
                    assert(oldseq[a].0.spec_hash() != name.spec_hash());
                }
            }
        }
        Ok(())
    }
}

impl Default for ParameterObject {
    /// The empty parameter object.
    fn default() -> (r: ParameterObject)
        ensures
            r.0.entries_seq() === Seq::<(Name, Parameter)>::empty(),
            r.0.wf(),
    {
        ParameterObject::new()
    }
}

impl Default for ParameterObjectMap {
    /// The empty object map.
    fn default() -> (r: ParameterObjectMap)
        ensures
            r.0.entries_seq() === Seq::<(Name, ParameterObject)>::empty(),
            r.0.wf(),
    {
        ParameterObjectMap::new()
    }
}

impl Default for ParameterListMap {
    /// The empty list map.
    fn default() -> (r: ParameterListMap)
        ensures
            r.entries_seq() === Seq::<(Name, ParameterList)>::empty(),
            r.wf(),
    {
        ParameterListMap::new()
    }
}

/// A parameter value: one of the twenty-one AAMP leaf kinds. Float
/// payloads are IEEE-754 bit patterns, so equality of parameters is
/// bit-for-bit.
#[derive(Debug, Clone, PartialEq, Eq, Hash)]
pub enum Parameter {
    Bool(bool),
    F32(u32),
    Int(i32),
    Vec2(Vector2f),
    Vec3(Vector3f),
    Vec4(Vector4f),
    Color(Color),
    String32(FixedSafeString<32>),
    String64(FixedSafeString<64>),
    Curve1([Curve; 1]),
    Curve2([Curve; 2]),
    Curve3([Curve; 3]),
    Curve4([Curve; 4]),
    BufferInt(Vec<i32>),
    BufferF32(Vec<u32>),
    String256(FixedSafeString<256>),
    Quat(Quat),
    U32(u32),
    BufferU32(Vec<u32>),
    BufferBinary(Vec<u8>),
    StringRef(String),
}

impl Parameter {
    /// The binary type byte of each parameter kind.
    pub open spec fn spec_type_byte(&self) -> u8 {
        match self {
            Parameter::Bool(_) => 0,
            Parameter::F32(_) => 1,
            Parameter::Int(_) => 2,
            Parameter::Vec2(_) => 3,
            Parameter::Vec3(_) => 4,
            Parameter::Vec4(_) => 5,
            Parameter::Color(_) => 6,
            Parameter::String32(_) => 7,
            Parameter::String64(_) => 8,
            Parameter::Curve1(_) => 9,
            Parameter::Curve2(_) => 10,
            Parameter::Curve3(_) => 11,
            Parameter::Curve4(_) => 12,
            Parameter::BufferInt(_) => 13,
            Parameter::BufferF32(_) => 14,
            Parameter::String256(_) => 15,
            Parameter::Quat(_) => 16,
            Parameter::U32(_) => 17,
            Parameter::BufferU32(_) => 18,
            Parameter::BufferBinary(_) => 19,
            Parameter::StringRef(_) => 20,
        }
    }

    /// The binary type byte: the tag fully determines it.
    pub fn get_type(&self) -> (r: u8)
        ensures
            r == self.spec_type_byte(),
    {
        match self {
            Parameter::Bool(_) => 0,
            Parameter::F32(_) => 1,
            Parameter::Int(_) => 2,
            Parameter::Vec2(_) => 3,
            Parameter::Vec3(_) => 4,
            Parameter::Vec4(_) => 5,
            Parameter::Color(_) => 6,
            Parameter::String32(_) => 7,
            Parameter::String64(_) => 8,
            Parameter::Curve1(_) => 9,
            Parameter::Curve2(_) => 10,
            Parameter::Curve3(_) => 11,
            Parameter::Curve4(_) => 12,
            Parameter::BufferInt(_) => 13,
            Parameter::BufferF32(_) => 14,
            Parameter::String256(_) => 15,
            Parameter::Quat(_) => 16,
            Parameter::U32(_) => 17,
            Parameter::BufferU32(_) => 18,
            Parameter::BufferBinary(_) => 19,
            Parameter::StringRef(_) => 20,
        }
    }

    /// Whether this kind stores a length just before its data in the
    /// binary data section.
    pub fn is_buffer_type(&self) -> (r: bool)
        ensures
            r <==> (self matches Parameter::BufferInt(_) || self matches Parameter::BufferF32(_)
                || self matches Parameter::BufferU32(_) || self
                matches Parameter::BufferBinary(_)),
    {
        match self {
            Parameter::BufferInt(_) => true,
            Parameter::BufferF32(_) => true,
            Parameter::BufferU32(_) => true,
            Parameter::BufferBinary(_) => true,
            _ => false,
        }
    }

    /// The text a string-kind parameter holds, if it is one.
    pub open spec fn spec_as_str(&self) -> Option<Seq<char>> {
        match self {
            Parameter::String32(s) => Some(s.spec_str()),
            Parameter::String64(s) => Some(s.spec_str()),
            Parameter::String256(s) => Some(s.spec_str()),
            Parameter::StringRef(s) => Some(s@),
            _ => None,
        }
    }

    /// The text of a string-kind parameter.
    pub fn as_str(&self) -> (r: Option<&str>)
        ensures
            match r {
                Some(s) => self.spec_as_str() == Some(s@),
                None => self.spec_as_str() is None,
            },
    {
        match self {
            Parameter::String32(s) => Some(s.as_str()),
            Parameter::String64(s) => Some(s.as_str()),
            Parameter::String256(s) => Some(s.as_str()),
            Parameter::StringRef(s) => Some(s.as_str()),
            _ => None,
        }
    }
}

/// Read-only and mutable access to the two child maps of a
/// parameter-list shape, and lookup by name in each.
pub trait ParameterListing {
    /// The child lists.
    fn lists(&self) -> &ParameterListMap;

    /// The child lists, mutably.
    fn lists_mut(&mut self) -> &mut ParameterListMap;

    /// Look a child list up by name.
    fn list(&self, name: Name) -> Option<&ParameterList>;

    /// The child objects.
    fn objects(&self) -> &ParameterObjectMap;

    /// The child objects, mutably.
    fn objects_mut(&mut self) -> &mut ParameterObjectMap;

    /// Look a child object up by name.
    fn object(&self, name: Name) -> Option<&ParameterObject>;
}

/// One level of the parameter tree: child objects and child lists.
#[derive(Debug, PartialEq)]
pub struct ParameterList {
    pub objects: ParameterObjectMap,
    pub lists: ParameterListMap,
}

impl ParameterList {
    /// An empty parameter list.
    pub fn new() -> (r: ParameterList)
        ensures
            r.objects.0.entries_seq() === Seq::<(Name, ParameterObject)>::empty(),
            r.lists.entries_seq() === Seq::<(Name, ParameterList)>::empty(),
            r.objects.0.wf(),
            r.lists.wf(),
    {
        ParameterList { objects: ParameterObjectMap::new(), lists: ParameterListMap::new() }
    }
}

impl ParameterListing for ParameterList {
    fn lists(&self) -> (r: &ParameterListMap)
        ensures
            *r == self.lists,
    {
        &self.lists
    }

    fn lists_mut(&mut self) -> &mut ParameterListMap {
        &mut self.lists
    }

    fn list(&self, name: Name) -> (r: Option<&ParameterList>)
        ensures
            match r {
                Some(v) => exists|i: int|
                    0 <= i < self.lists.entries_seq().len() && (
                    #[trigger] self.lists.entries_seq()[i]) == (name, *v),
                None => !self.lists.contains_hash(name.spec_hash()),
            },
    {
        self.lists.get(name)
    }

    fn objects(&self) -> (r: &ParameterObjectMap)
        ensures
            *r == self.objects,
    {
        &self.objects
    }

    fn objects_mut(&mut self) -> &mut ParameterObjectMap {
        &mut self.objects
    }

    fn object(&self, name: Name) -> (r: Option<&ParameterObject>)
        ensures
            match r {
                Some(v) => exists|i: int|
                    0 <= i < self.objects.0.entries_seq().len() && (
                    #[trigger] self.objects.0.entries_seq()[i]) == (name, *v),
                None => !self.objects.0.contains_hash(name.spec_hash()),
            },
    {
        self.objects.0.get(name)
    }
}

impl Default for ParameterList {
    /// The empty parameter list.
    fn default() -> (r: ParameterList)
        ensures
            r.objects.0.entries_seq() === Seq::<(Name, ParameterObject)>::empty(),
            r.lists.entries_seq() === Seq::<(Name, ParameterList)>::empty(),
    {
        ParameterList::new()
    }
}

/// A whole parameter archive: a version, a data-type label, and the
/// root list, whose name is the hash of `param_root`.
#[derive(Debug, PartialEq)]
pub struct ParameterIO {
    pub version: u32,
    pub data_type: String,
    pub param_root: ParameterList,
}

impl ParameterIO {
    /// An empty archive with the canonical version and `xml` label.
    pub fn new() -> (r: ParameterIO)
        ensures
            r.version == 0,
            r.data_type@ == "xml"@,
            r.param_root.objects.0.entries_seq() === Seq::<(Name, ParameterObject)>::empty(),
            r.param_root.lists.entries_seq() === Seq::<(Name, ParameterList)>::empty(),
    {
        ParameterIO { version: 0, data_type: "xml".to_owned(), param_root: ParameterList::new() }
    }
}

impl Default for ParameterIO {
    /// The empty archive with the canonical version and `xml` label.
    fn default() -> (r: ParameterIO)
        ensures
            r.version == 0,
            r.data_type@ == "xml"@,
    {
        ParameterIO::new()
    }
}

impl ParameterListing for ParameterIO {
    fn lists(&self) -> (r: &ParameterListMap)
        ensures
            *r == self.param_root.lists,
    {
        &self.param_root.lists
    }

    fn lists_mut(&mut self) -> &mut ParameterListMap {
        &mut self.param_root.lists
    }

    fn list(&self, name: Name) -> (r: Option<&ParameterList>)
        ensures
            match r {
                Some(v) => exists|i: int|
                    0 <= i < self.param_root.lists.entries_seq().len() && (
                    #[trigger] self.param_root.lists.entries_seq()[i]) == (name, *v),
                None => !self.param_root.lists.contains_hash(name.spec_hash()),
            },
    {
        self.param_root.lists.get(name)
    }

    fn objects(&self) -> (r: &ParameterObjectMap)
        ensures
            *r == self.param_root.objects,
    {
        &self.param_root.objects
    }

    fn objects_mut(&mut self) -> &mut ParameterObjectMap {
        &mut self.param_root.objects
    }

    fn object(&self, name: Name) -> (r: Option<&ParameterObject>)
        ensures
            match r {
                Some(v) => exists|i: int|
                    0 <= i < self.param_root.objects.0.entries_seq().len() && (
                    #[trigger] self.param_root.objects.0.entries_seq()[i]) == (name, *v),
                None => !self.param_root.objects.0.contains_hash(name.spec_hash()),
            },
    {
        self.param_root.objects.0.get(name)
    }
}

} // verus!
