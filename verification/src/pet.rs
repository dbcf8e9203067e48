//! The inventory record and the randomized construction of a fresh one.
//!
//! Textual fields are ASCII byte strings, so that the persistence format in
//! `codec` can speak of them byte for byte.

use vstd::prelude::*;
use rand::Rng;

verus! {

/// A byte that may stand unescaped inside a JSON string literal: printable
/// ASCII other than the double quote and the backslash.
pub open spec fn json_safe_byte(b: u8) -> bool {
    32 <= b < 127 && b != 34 && b != 92
}

/// A byte string that may stand unescaped inside a JSON string literal.
pub open spec fn json_safe(s: Seq<u8>) -> bool {
    forall|i: int| 0 <= i < s.len() ==> json_safe_byte(s[i])
}

/// An ASCII letter or digit.
pub open spec fn alnum_byte(b: u8) -> bool {
    (48 <= b <= 57) || (65 <= b <= 90) || (97 <= b <= 122)
}

/// The byte string `cats`, one of the two category tags.
pub open spec fn cats() -> Seq<u8> {
    seq![99u8, 97u8, 116u8, 115u8]
}

/// The byte string `dogs`, the other category tag.
pub open spec fn dogs() -> Seq<u8> {
    seq![100u8, 111u8, 103u8, 115u8]
}

/// A single inventory record, the only persisted entity.
#[derive(Clone, Debug, PartialEq)]
pub struct Pet {
    pub id: usize,
    pub name: Vec<u8>,
    pub category: Vec<u8>,
    pub age: usize,
    pub created_at: Vec<u8>,
}

/// The mathematical shape of a record: its fields as numbers and sequences.
#[verifier::ext_equal]
pub struct PetView {
    pub id: nat,
    pub name: Seq<u8>,
    pub category: Seq<u8>,
    pub age: nat,
    pub created_at: Seq<u8>,
}

impl DeepView for Pet {
    type V = PetView;

    open spec fn deep_view(&self) -> PetView {
        self@
    }
}

impl View for Pet {
    type V = PetView;

    open spec fn view(&self) -> PetView {
        PetView {
            id: self.id as nat,
            name: self.name@,
            category: self.category@,
            age: self.age as nat,
            created_at: self.created_at@,
        }
    }
}

/// A record whose textual fields can stand unescaped in the backing file.
pub open spec fn valid_pet(p: PetView) -> bool {
    &&& json_safe(p.name)
    &&& json_safe(p.category)
    &&& json_safe(p.created_at)
    &&& p.id <= usize::MAX
    &&& p.age <= usize::MAX
}

/// Every record of the list can stand unescaped in the backing file.
pub open spec fn valid_pets(pets: Seq<PetView>) -> bool {
    forall|i: int| 0 <= i < pets.len() ==> valid_pet(pets[i])
}

/// Relies on rand 0.7's `Rng::gen_range(low, high)`: a random value in
/// `[low, high)`. It panics when `low >= high`, which `requires` rules out.
#[verifier::external_body]
fn random_in_range(low: usize, high: usize) -> (r: usize)
    requires
        low < high,
    ensures
        low <= r < high,
{
    rand::thread_rng().gen_range(low, high)
}

/// Relies on rand 0.7's `Alphanumeric` distribution: every sample is one of
/// the ASCII letters or digits, each a single byte.
#[verifier::external_body]
fn random_name(len: usize) -> (r: Vec<u8>)
    ensures
        r@.len() == len as nat,
        forall|i: int| 0 <= i < r@.len() ==> alnum_byte(r@[i]),
{
    rand::thread_rng()
        .sample_iter(rand::distributions::Alphanumeric)
        .take(len)
        .collect::<String>()
        .into_bytes()
}

/// Relies on chrono's `Utc::now().to_rfc3339()`: the current time as a
/// non-empty RFC 3339 string of ASCII digits and the separators
/// `-`, `+`, `:`, `.`, `T` and `Z`.
#[verifier::external_body]
fn now_timestamp() -> (r: Vec<u8>)
    ensures
        json_safe(r@),
        r@.len() > 0,
{
    chrono::Utc::now().to_rfc3339().into_bytes()
}

/// An ASCII letter or digit stands unescaped in a JSON string.
proof fn lemma_alnum_json_safe(s: Seq<u8>)
    requires
        forall|i: int| 0 <= i < s.len() ==> alnum_byte(s[i]),
    ensures
        json_safe(s),
{
}

/// Synthesize one record with a freshly drawn id, name, age and category,
/// stamped with the current time. No uniqueness of `id` is enforced.
pub fn make_random_pet() -> (p: Pet)
    ensures
        valid_pet(p@),
        p@.id < 9999999,
        p@.name.len() == 10,
        p@.category == cats() || p@.category == dogs(),
        1 <= p@.age < 15,
{
    let pick = random_in_range(0, 1);
    let category: Vec<u8> = if pick == 0 {
        vec![99u8, 97u8, 116u8, 115u8]
    } else {
        vec![100u8, 111u8, 103u8, 115u8]
    };
    proof {
        assert(category@ == cats() || category@ == dogs());
    }
    let name = random_name(10);
    proof {
        lemma_alnum_json_safe(name@);
    }
    Pet {
        id: random_in_range(0, 9999999),
        name,
        category,
        age: random_in_range(1, 15),
        created_at: now_timestamp(),
    }
}

} // verus!
