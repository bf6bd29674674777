//! Tag keys as they travel over the wire: the measurement and the field are
//! named by the one-byte keys `[0]` and `[255]`.
use vstd::prelude::*;
use vstd::utf8::encode_utf8;

verus! {

/// The wire name of the field tag, `_field`.
pub open spec fn field_name() -> Seq<u8> {
    seq![95u8, 102u8, 105u8, 101u8, 108u8, 100u8]
}

/// The wire name of the measurement tag, `_measurement`.
pub open spec fn measurement_name() -> Seq<u8> {
    seq![95u8, 109u8, 101u8, 97u8, 115u8, 117u8, 114u8, 101u8, 109u8, 101u8, 110u8, 116u8]
}

/// Recognises the keys that stand for the measurement and for the field.
pub trait SpecialTagKeys {
    /// The bytes of the key.
    spec fn key_bytes(&self) -> Seq<u8>;

    /// Whether the key refers to the measurement name.
    fn is_measurement(&self) -> (r: bool)
        ensures
            r == (self.key_bytes() == seq![0u8]),
    ;

    /// Whether the key refers to a field name.
    fn is_field(&self) -> (r: bool)
        ensures
            r == (self.key_bytes() == seq![255u8]),
    ;
}

/// Whether `b` is the single byte `x`.
fn is_single_byte(b: &[u8], x: u8) -> (r: bool)
    ensures
        r == (b@ == seq![x]),
{
    if b.len() == 1 {
        proof {
            if b[0] == x {
                assert(b@ =~= seq![x]);
            }
        }
        b[0] == x
    } else {
        false
    }
}

impl SpecialTagKeys for Vec<u8> {
    open spec fn key_bytes(&self) -> Seq<u8> {
        self@
    }

    fn is_measurement(&self) -> (r: bool) {
        is_single_byte(self.as_slice(), 0)
    }

    fn is_field(&self) -> (r: bool) {
        is_single_byte(self.as_slice(), 255)
    }
}

impl SpecialTagKeys for String {
    open spec fn key_bytes(&self) -> Seq<u8> {
        encode_utf8(self@)
    }

    fn is_measurement(&self) -> (r: bool) {
        is_single_byte(self.as_str().as_bytes(), 0)
    }

    fn is_field(&self) -> (r: bool) {
        is_single_byte(self.as_str().as_bytes(), 255)
    }
}

/// A copy of the bytes of `b`.
fn bytes_to_vec(b: &[u8]) -> (r: Vec<u8>)
    ensures
        r@ == b@,
{
    let mut out: Vec<u8> = Vec::new();
    let mut i: usize = 0;
    while i < b.len()
        invariant
            i <= b@.len(),
            out@ == b@.take(i as int),
        decreases b@.len() - i,
    {
        out.push(b[i]);
        i = i + 1;
        proof {
            assert(out@ =~= b@.take(i as int));
        }
    }
    proof {
        assert(b@.take(i as int) =~= b@);
    }
    out
}

/// The tag keys in wire form: the field's and the measurement's names, then
/// the UTF-8 bytes of each key of `tag_keys`, in the order given (a set of
/// keys is given in ascending order).
pub fn tag_keys_to_byte_vecs(tag_keys: &[String]) -> (r: Vec<Vec<u8>>)
    ensures
        r@.len() == tag_keys@.len() + 2,
        r@[0]@ == field_name(),
        r@[1]@ == measurement_name(),
        forall|i: int| 0 <= i < tag_keys@.len() ==> #[trigger] r@[i + 2]@ == encode_utf8(tag_keys@[i]@),
{
    let mut out: Vec<Vec<u8>> = Vec::new();
    out.push(vec![95u8, 102u8, 105u8, 101u8, 108u8, 100u8]);
    out.push(vec![95u8, 109u8, 101u8, 97u8, 115u8, 117u8, 114u8, 101u8, 109u8, 101u8, 110u8, 116u8]);
    proof {
        assert(out@[0]@ =~= field_name());
        assert(out@[1]@ =~= measurement_name());
    }
    let mut i: usize = 0;
    while i < tag_keys.len()
        invariant
            i <= tag_keys@.len(),
            out@.len() == i + 2,
            out@[0]@ == field_name(),
            out@[1]@ == measurement_name(),
            forall|j: int| 0 <= j < i ==> #[trigger] out@[j + 2]@ == encode_utf8(tag_keys@[j]@),
        decreases tag_keys@.len() - i,
    {
        let name = tag_keys[i].as_str();
        let bytes = bytes_to_vec(name.as_bytes());
        out.push(bytes);
        i = i + 1;
    }
    out
}

/// Why a tag key could not become a tag name.
#[derive(Debug, PartialEq, Eq, Structural)]
pub enum TagNameError {
    /// The key names the measurement, which should have been handled before.
    InternalInvalidMeasurementReference,
    /// The key names a field, which should have been handled before.
    InternalInvalidFieldReference,
    /// The key is not valid UTF-8.
    ConvertingTagName,
}

/// Relies on `String::from_utf8`: the bytes become a string exactly when
/// they are the UTF-8 encoding of some string; its error is dropped.
#[verifier::external_body]
fn string_from_utf8(bytes: Vec<u8>) -> (r: Option<String>)
    ensures
        r matches Some(s) ==> encode_utf8(s@) == bytes@,
        r is None ==> forall|cs: Seq<char>| encode_utf8(cs) != bytes@,
{
    String::from_utf8(bytes).ok()
}

/// The tag name that a wire key stands for; the measurement's and the
/// field's keys are refused.
pub fn make_tag_name(tag_name: Vec<u8>) -> (r: Result<String, TagNameError>)
    ensures
        tag_name@ == seq![0u8] ==> r == Err::<String, TagNameError>(
            TagNameError::InternalInvalidMeasurementReference,
        ),
        tag_name@ == seq![255u8] ==> r == Err::<String, TagNameError>(
            TagNameError::InternalInvalidFieldReference,
        ),
        tag_name@ != seq![0u8] && tag_name@ != seq![255u8] ==> match r {
            Ok(s) => encode_utf8(s@) == tag_name@,
            Err(e) => e == TagNameError::ConvertingTagName && forall|cs: Seq<char>|
                encode_utf8(cs) != tag_name@,
        },
{
    proof {
        assert(seq![255u8][0] != seq![0u8][0]);
    }
    if tag_name.is_measurement() {
        Err(TagNameError::InternalInvalidMeasurementReference)
    } else if tag_name.is_field() {
        Err(TagNameError::InternalInvalidFieldReference)
    } else {
        match string_from_utf8(tag_name) {
            Some(s) => Ok(s),
            None => Err(TagNameError::ConvertingTagName),
        }
    }
}

} // verus!
