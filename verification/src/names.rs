//! Names of schemas, collections, views and databases.
//!
//! A name must begin with an ASCII alphanumeric character; the rest
//! may also be `.`, `-` or `_`.  Names are compared without regard to
//! ASCII case wherever uniqueness is enforced.  A qualified name is an
//! `authority` part plus a local part, written `authority.name`.

use vstd::prelude::*;

verus! {

use vstd::utf8::encode_utf8;
use vstd::string::StringSliceAdditionalSpecFns;

/// An ASCII digit or letter.
pub open spec fn is_ascii_alnum(b: u8) -> bool {
    (0x30 <= b && b <= 0x39) || (0x41 <= b && b <= 0x5a) || (0x61 <= b && b <= 0x7a)
}

/// A byte allowed after the first position of a name.
pub open spec fn is_name_byte(b: u8) -> bool {
    is_ascii_alnum(b) || b == 0x2e || b == 0x2d || b == 0x5f
}

/// The name grammar over a name's UTF-8 bytes: non-empty, leading
/// alphanumeric, every byte alphanumeric or `.`, `-`, `_`.
pub open spec fn valid_name_bytes(s: Seq<u8>) -> bool {
    &&& s.len() > 0
    &&& is_ascii_alnum(s[0])
    &&& forall|i: int| 0 <= i < s.len() ==> is_name_byte(#[trigger] s[i])
}

/// An upper-case ASCII letter folded to lower case; other bytes kept.
pub open spec fn lower_byte(b: u8) -> u8 {
    if 0x41 <= b && b <= 0x5a {
        (b + 0x20) as u8
    } else {
        b
    }
}

/// A byte string folded to lower case, the unit of case-insensitive
/// comparison.
pub open spec fn fold_bytes(s: Seq<u8>) -> Seq<u8> {
    s.map_values(|b: u8| lower_byte(b))
}

/// A name that does not follow the grammar, carrying the rejected text.
#[derive(Debug)]
pub struct InvalidNameError {
    /// The rejected name.
    pub name: String,
}

fn byte_is_alnum(b: u8) -> (r: bool)
    ensures
        r == is_ascii_alnum(b),
{
    (0x30 <= b && b <= 0x39) || (0x41 <= b && b <= 0x5a) || (0x61 <= b && b <= 0x7a)
}

fn byte_is_name(b: u8) -> (r: bool)
    ensures
        r == is_name_byte(b),
{
    byte_is_alnum(b) || b == 0x2e || b == 0x2d || b == 0x5f
}

fn byte_lower(b: u8) -> (r: u8)
    ensures
        r == lower_byte(b),
{
    if 0x41 <= b && b <= 0x5a {
        b + 0x20
    } else {
        b
    }
}

/// Checks a name against the grammar; the error holds the name itself.
pub fn validate_name(name: &str) -> (r: Result<(), InvalidNameError>)
    ensures
        r is Ok <==> valid_name_bytes(name.spec_bytes()),
        r matches Err(e) ==> e.name@ == name@,
{
    let bytes = name.as_bytes();
    let n = bytes.len();
    if n == 0 {
        return Err(InvalidNameError { name: name.to_owned() });
    }
    if !byte_is_alnum(bytes[0]) {
        return Err(InvalidNameError { name: name.to_owned() });
    }
    for i in 0..n
        invariant
            n == bytes@.len(),
            bytes@ == name.spec_bytes(),
            is_ascii_alnum(bytes@[0]),
            forall|j: int| 0 <= j < i ==> is_name_byte(#[trigger] bytes@[j]),
    {
        if !byte_is_name(bytes[i]) {
            return Err(InvalidNameError { name: name.to_owned() });
        }
    }
    Ok(())
}

/// Compares two pieces of text for exact equality.
pub fn str_equal(a: &str, b: &str) -> (r: bool)
    ensures
        r == (a@ == b@),
{
    let ab = a.as_bytes();
    let bb = b.as_bytes();
    let n = ab.len();
    if n != bb.len() {
        proof {
            vstd::utf8::encode_utf8_decode_utf8(a@);
            vstd::utf8::encode_utf8_decode_utf8(b@);
        }
        return false;
    }
    for i in 0..n
        invariant
            n == ab@.len() == bb@.len(),
            ab@ == a.spec_bytes(),
            bb@ == b.spec_bytes(),
            forall|j: int| 0 <= j < i ==> ab@[j] == bb@[j],
    {
        if ab[i] != bb[i] {
            proof {
                vstd::utf8::encode_utf8_decode_utf8(a@);
                vstd::utf8::encode_utf8_decode_utf8(b@);
            }
            return false;
        }
    }
    proof {
        assert(ab@ =~= bb@);
        vstd::utf8::encode_utf8_decode_utf8(a@);
        vstd::utf8::encode_utf8_decode_utf8(b@);
    }
    true
}

/// Compares two names without regard to ASCII case.
pub fn names_equal_ignore_case(a: &str, b: &str) -> (r: bool)
    ensures
        r == (fold_bytes(a.spec_bytes()) == fold_bytes(b.spec_bytes())),
{
    let ab = a.as_bytes();
    let bb = b.as_bytes();
    let n = ab.len();
    if n != bb.len() {
        proof {
            assert(fold_bytes(ab@).len() != fold_bytes(bb@).len());
        }
        return false;
    }
    for i in 0..n
        invariant
            n == ab@.len() == bb@.len(),
            ab@ == a.spec_bytes(),
            bb@ == b.spec_bytes(),
            forall|j: int| 0 <= j < i ==> lower_byte(#[trigger] ab@[j]) == lower_byte(bb@[j]),
    {
        if byte_lower(ab[i]) != byte_lower(bb[i]) {
            proof {
                assert(fold_bytes(ab@)[i as int] != fold_bytes(bb@)[i as int]);
            }
            return false;
        }
    }
    proof {
        assert(fold_bytes(ab@) =~= fold_bytes(bb@));
    }
    true
}

/// The fully qualified name of a collection: `authority.name`.
#[derive(Debug, Clone)]
pub struct CollectionName {
    /// The authority that defines the collection.
    pub authority: String,
    /// The collection's own name within the authority.
    pub name: String,
}

/// The fully qualified name of a schema: `authority.name`.
#[derive(Debug, Clone)]
pub struct SchemaName {
    /// The authority that defines the schema.
    pub authority: String,
    /// The schema's own name within the authority.
    pub name: String,
}

/// The fully qualified name of a view: its collection plus the view's
/// own name.
#[derive(Debug, Clone)]
pub struct ViewName {
    /// The collection the view indexes.
    pub collection: CollectionName,
    /// The view's own name within the collection.
    pub name: String,
}

/// Both parts of a two-part name folded to lower case, the unit of
/// case-insensitive comparison of qualified names.
pub open spec fn folded_qualified(authority: Seq<char>, name: Seq<char>) -> (Seq<u8>, Seq<u8>) {
    (fold_bytes(encode_utf8(authority)), fold_bytes(encode_utf8(name)))
}

impl CollectionName {
    /// Both parts follow the name grammar.
    pub open spec fn wf(&self) -> bool {
        valid_name_bytes(encode_utf8(self.authority@)) && valid_name_bytes(
            encode_utf8(self.name@),
        )
    }

    /// The case-folded form of this name.
    pub open spec fn folded(&self) -> (Seq<u8>, Seq<u8>) {
        folded_qualified(self.authority@, self.name@)
    }

    /// Builds a collection name, validating both parts.
    pub fn new(authority: String, name: String) -> (r: Result<CollectionName, InvalidNameError>)
        ensures
            r matches Ok(c) ==> c.wf() && c.authority@ == authority@ && c.name@ == name@,
            r is Err ==> !(valid_name_bytes(encode_utf8(authority@)) && valid_name_bytes(
                encode_utf8(name@),
            )),
    {
        match validate_name(authority.as_str()) {
            Ok(_) => {
            },
            Err(e) => {
                return Err(e);
            },
        }
        match validate_name(name.as_str()) {
            Ok(_) => {
            },
            Err(e) => {
                return Err(e);
            },
        }
        Ok(CollectionName { authority, name })
    }

    /// Compares two collection names without regard to ASCII case.
    pub fn equals_ignore_case(&self, other: &CollectionName) -> (r: bool)
        ensures
            r == (self.folded() == other.folded()),
    {
        let same_authority = names_equal_ignore_case(
            self.authority.as_str(),
            other.authority.as_str(),
        );
        let same_name = names_equal_ignore_case(self.name.as_str(), other.name.as_str());
        same_authority && same_name
    }
}

impl SchemaName {
    /// Both parts follow the name grammar.
    pub open spec fn wf(&self) -> bool {
        valid_name_bytes(encode_utf8(self.authority@)) && valid_name_bytes(
            encode_utf8(self.name@),
        )
    }

    /// The case-folded form of this name.
    pub open spec fn folded(&self) -> (Seq<u8>, Seq<u8>) {
        folded_qualified(self.authority@, self.name@)
    }

    /// Builds a schema name, validating both parts.
    pub fn new(authority: String, name: String) -> (r: Result<SchemaName, InvalidNameError>)
        ensures
            r matches Ok(c) ==> c.wf() && c.authority@ == authority@ && c.name@ == name@,
            r is Err ==> !(valid_name_bytes(encode_utf8(authority@)) && valid_name_bytes(
                encode_utf8(name@),
            )),
    {
        match validate_name(authority.as_str()) {
            Ok(_) => {
            },
            Err(e) => {
                return Err(e);
            },
        }
        match validate_name(name.as_str()) {
            Ok(_) => {
            },
            Err(e) => {
                return Err(e);
            },
        }
        Ok(SchemaName { authority, name })
    }

    /// Compares two schema names without regard to ASCII case.
    pub fn equals_ignore_case(&self, other: &SchemaName) -> (r: bool)
        ensures
            r == (self.folded() == other.folded()),
    {
        let same_authority = names_equal_ignore_case(
            self.authority.as_str(),
            other.authority.as_str(),
        );
        let same_name = names_equal_ignore_case(self.name.as_str(), other.name.as_str());
        same_authority && same_name
    }
}

impl ViewName {
    /// The collection part and the view's own part are all valid names.
    pub open spec fn wf(&self) -> bool {
        self.collection.wf() && valid_name_bytes(encode_utf8(self.name@))
    }

    /// Builds a view name over an already validated collection name.
    pub fn new(collection: CollectionName, name: String) -> (r: Result<ViewName, InvalidNameError>)
        requires
            collection.wf(),
        ensures
            r matches Ok(v) ==> v.wf() && v.collection.authority@ == collection.authority@
                && v.collection.name@ == collection.name@ && v.name@ == name@,
            r is Err ==> !valid_name_bytes(encode_utf8(name@)),
    {
        match validate_name(name.as_str()) {
            Ok(_) => Ok(ViewName { collection, name }),
            Err(e) => Err(e),
        }
    }
}

} // verus!
