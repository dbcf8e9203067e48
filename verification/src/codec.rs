//! The backing-file format: a JSON array of record objects, written and read
//! byte for byte. `spec_encode` is the single mathematical description of the
//! format; the encoder produces exactly that byte sequence, and a successful
//! decode certifies that its input is exactly the encoding of the returned
//! list.

use vstd::prelude::*;
use crate::pet::Pet;
use crate::pet::PetView;
use crate::pet::json_safe;
use crate::pet::json_safe_byte;
use crate::pet::valid_pet;
use crate::pet::valid_pets;

verus! {

/// The decimal digits of `n`, most significant first.
pub open spec fn spec_digits(n: nat) -> Seq<u8>
    decreases n,
{
    if n < 10 {
        seq![(48 + n) as u8]
    } else {
        spec_digits(n / 10).push((48 + n % 10) as u8)
    }
}

/// A string literal of the format: `"` body `"`.
pub open spec fn spec_qstr(s: Seq<u8>) -> Seq<u8> {
    seq![34u8] + s + seq![34u8]
}

/// The bytes of `{"id":`.
pub open spec fn lit_head() -> Seq<u8> {
    seq![123u8, 34u8, 105u8, 100u8, 34u8, 58u8]
}

/// The bytes of `,"name":`.
pub open spec fn lit_name() -> Seq<u8> {
    seq![44u8, 34u8, 110u8, 97u8, 109u8, 101u8, 34u8, 58u8]
}

/// The bytes of `,"category":`.
pub open spec fn lit_category() -> Seq<u8> {
    seq![44u8, 34u8, 99u8, 97u8, 116u8, 101u8, 103u8, 111u8, 114u8, 121u8, 34u8, 58u8]
}

/// The bytes of `,"age":`.
pub open spec fn lit_age() -> Seq<u8> {
    seq![44u8, 34u8, 97u8, 103u8, 101u8, 34u8, 58u8]
}

/// The bytes of `,"created_at":`.
pub open spec fn lit_created() -> Seq<u8> {
    seq![
        44u8,
        34u8,
        99u8,
        114u8,
        101u8,
        97u8,
        116u8,
        101u8,
        100u8,
        95u8,
        97u8,
        116u8,
        34u8,
        58u8,
    ]
}

/// One record as a JSON object with its five fields in fixed order.
pub open spec fn spec_pet(p: PetView) -> Seq<u8> {
    lit_head() + spec_digits(p.id) + lit_name() + spec_qstr(p.name) + lit_category() + spec_qstr(
        p.category,
    ) + lit_age() + spec_digits(p.age) + lit_created() + spec_qstr(p.created_at) + seq![125u8]
}

/// The objects of the array, joined by commas.
pub open spec fn spec_items(l: Seq<PetView>) -> Seq<u8>
    decreases l.len(),
{
    if l.len() == 0 {
        Seq::empty()
    } else if l.len() == 1 {
        spec_pet(l[0])
    } else {
        spec_items(l.drop_last()) + seq![44u8] + spec_pet(l.last())
    }
}

/// A record list as the backing file holds it: a JSON array of objects.
pub open spec fn spec_encode(l: Seq<PetView>) -> Seq<u8> {
    seq![91u8] + spec_items(l) + seq![93u8]
}

/// Append the decimal digits of `n`.
fn emit_digits(out: &mut Vec<u8>, n: usize)
    ensures
        final(out)@ == old(out)@ + spec_digits(n as nat),
    decreases n,
{
    if n < 10 {
        out.push(48 + n as u8);
        proof {
            assert(out@ =~= old(out)@ + spec_digits(n as nat));
        }
    } else {
        emit_digits(out, n / 10);
        out.push(48 + (n % 10) as u8);
        proof {
            assert(out@ =~= old(out)@ + spec_digits(n as nat));
        }
    }
}

/// Append a whole byte string.
fn emit_bytes(out: &mut Vec<u8>, s: &Vec<u8>)
    ensures
        final(out)@ == old(out)@ + s@,
{
    let mut i: usize = 0;
    while i < s.len()
        invariant
            i <= s@.len(),
            out@ == old(out)@ + s@.subrange(0, i as int),
        decreases s@.len() - i,
    {
        out.push(s[i]);
        i = i + 1;
        proof {
            assert(out@ =~= old(out)@ + s@.subrange(0, i as int));
        }
    }
    proof {
        assert(s@.subrange(0, s@.len() as int) =~= s@);
    }
}

/// Append a string literal: quote, body, quote.
fn emit_qstr(out: &mut Vec<u8>, s: &Vec<u8>)
    ensures
        final(out)@ == old(out)@ + spec_qstr(s@),
{
    out.push(34);
    emit_bytes(out, s);
    out.push(34);
    proof {
        assert(out@ =~= old(out)@ + spec_qstr(s@));
    }
}

/// Append the bytes of `{"id":`.
fn emit_lit_head(out: &mut Vec<u8>)
    ensures
        final(out)@ == old(out)@ + lit_head(),
{
    out.push(123);
    out.push(34);
    out.push(105);
    out.push(100);
    out.push(34);
    out.push(58);
    proof {
        assert(out@ =~= old(out)@ + lit_head());
    }
}

/// Append the bytes of `,"name":`.
fn emit_lit_name(out: &mut Vec<u8>)
    ensures
        final(out)@ == old(out)@ + lit_name(),
{
    out.push(44);
    out.push(34);
    out.push(110);
    out.push(97);
    out.push(109);
    out.push(101);
    out.push(34);
    out.push(58);
    proof {
        assert(out@ =~= old(out)@ + lit_name());
    }
}

/// Append the bytes of `,"category":`.
fn emit_lit_category(out: &mut Vec<u8>)
    ensures
        final(out)@ == old(out)@ + lit_category(),
{
    out.push(44);
    out.push(34);
    out.push(99);
    out.push(97);
    out.push(116);
    out.push(101);
    out.push(103);
    out.push(111);
    out.push(114);
    out.push(121);
    out.push(34);
    out.push(58);
    proof {
        assert(out@ =~= old(out)@ + lit_category());
    }
}

/// Append the bytes of `,"age":`.
fn emit_lit_age(out: &mut Vec<u8>)
    ensures
        final(out)@ == old(out)@ + lit_age(),
{
    out.push(44);
    out.push(34);
    out.push(97);
    out.push(103);
    out.push(101);
    out.push(34);
    out.push(58);
    proof {
        assert(out@ =~= old(out)@ + lit_age());
    }
}

/// Append the bytes of `,"created_at":`.
fn emit_lit_created(out: &mut Vec<u8>)
    ensures
        final(out)@ == old(out)@ + lit_created(),
{
    out.push(44);
    out.push(34);
    out.push(99);
    out.push(114);
    out.push(101);
    out.push(97);
    out.push(116);
    out.push(101);
    out.push(100);
    out.push(95);
    out.push(97);
    out.push(116);
    out.push(34);
    out.push(58);
    proof {
        assert(out@ =~= old(out)@ + lit_created());
    }
}

/// Append one record as a JSON object.
#[verifier::rlimit(50)]
fn emit_pet(out: &mut Vec<u8>, p: &Pet)
    ensures
        final(out)@ == old(out)@ + spec_pet(p@),
{
    emit_lit_head(out);
    emit_digits(out, p.id);
    proof {
        assert(out@ =~= old(out)@ + (lit_head() + spec_digits(p@.id)));
    }
    emit_lit_name(out);
    proof {
        assert(out@ =~= old(out)@ + (lit_head() + spec_digits(p@.id) + lit_name()));
    }
    emit_qstr(out, &p.name);
    proof {
        assert(out@ =~= old(out)@ + (lit_head() + spec_digits(p@.id) + lit_name() + spec_qstr(
            p@.name,
        )));
    }
    emit_lit_category(out);
    proof {
        assert(out@ =~= old(out)@ + (lit_head() + spec_digits(p@.id) + lit_name() + spec_qstr(
            p@.name,
        ) + lit_category()));
    }
    emit_qstr(out, &p.category);
    proof {
        assert(out@ =~= old(out)@ + (lit_head() + spec_digits(p@.id) + lit_name() + spec_qstr(
            p@.name,
        ) + lit_category() + spec_qstr(p@.category)));
    }
    emit_lit_age(out);
    proof {
        assert(out@ =~= old(out)@ + (lit_head() + spec_digits(p@.id) + lit_name() + spec_qstr(
            p@.name,
        ) + lit_category() + spec_qstr(p@.category) + lit_age()));
    }
    emit_digits(out, p.age);
    proof {
        assert(out@ =~= old(out)@ + (lit_head() + spec_digits(p@.id) + lit_name() + spec_qstr(
            p@.name,
        ) + lit_category() + spec_qstr(p@.category) + lit_age() + spec_digits(p@.age)));
    }
    emit_lit_created(out);
    proof {
        assert(out@ =~= old(out)@ + (lit_head() + spec_digits(p@.id) + lit_name() + spec_qstr(
            p@.name,
        ) + lit_category() + spec_qstr(p@.category) + lit_age() + spec_digits(p@.age)
            + lit_created()));
    }
    emit_qstr(out, &p.created_at);
    proof {
        assert(out@ =~= old(out)@ + (lit_head() + spec_digits(p@.id) + lit_name() + spec_qstr(
            p@.name,
        ) + lit_category() + spec_qstr(p@.category) + lit_age() + spec_digits(p@.age)
            + lit_created() + spec_qstr(p@.created_at)));
    }
    out.push(125);
    proof {
        assert(out@ =~= old(out)@ + spec_pet(p@));
    }
}

/// Serialize the whole record list to the bytes of the backing file.
pub fn encode_pets(pets: &Vec<Pet>) -> (r: Vec<u8>)
    ensures
        r@ == spec_encode(pets.deep_view()),
{
    let mut out: Vec<u8> = Vec::new();
    out.push(91);
    let mut i: usize = 0;
    while i < pets.len()
        invariant
            i <= pets@.len(),
            out@ == seq![91u8] + spec_items(pets.deep_view().take(i as int)),
        decreases pets@.len() - i,
    {
        let ghost before = pets.deep_view().take(i as int);
        if i > 0 {
            out.push(44);
        }
        emit_pet(&mut out, &pets[i]);
        proof {
            let after = pets.deep_view().take(i + 1 as int);
            assert(after.drop_last() =~= before);
            assert(after.last() == pets.deep_view()[i as int]);
            if i == 0 {
                assert(spec_items(after) == spec_pet(after[0]));
                assert(out@ =~= seq![91u8] + spec_items(after));
            } else {
                assert(spec_items(after) == spec_items(before) + seq![44u8] + spec_pet(
                    after.last(),
                ));
                assert(out@ =~= seq![91u8] + spec_items(after));
            }
        }
        i = i + 1;
    }
    out.push(93);
    proof {
        assert(pets.deep_view().take(pets@.len() as int) =~= pets.deep_view());
        assert(out@ =~= spec_encode(pets.deep_view()));
    }
    out
}

/// An ASCII digit.
pub open spec fn digit_byte(b: u8) -> bool {
    48 <= b <= 57
}

/// The bytes of `lit` stand at `pos` in `input`.
pub open spec fn bytes_at(input: Seq<u8>, pos: int, lit: Seq<u8>) -> bool {
    &&& pos + lit.len() <= input.len()
    &&& input.subrange(pos, pos + lit.len()) == lit
}

/// The canonical digits of `n` stand at `pos` and end the number there: what
/// follows them, if anything, is no digit.
pub open spec fn number_at(input: Seq<u8>, pos: int, n: nat) -> bool {
    &&& n <= usize::MAX
    &&& bytes_at(input, pos, spec_digits(n))
    &&& (pos + spec_digits(n).len() == input.len() || !digit_byte(
        input[pos + spec_digits(n).len()],
    ))
}

/// A quoted string literal with the unescaped body `s` stands at `pos`.
pub open spec fn qstr_at(input: Seq<u8>, pos: int, s: Seq<u8>) -> bool {
    &&& json_safe(s)
    &&& bytes_at(input, pos, spec_qstr(s))
}

/// Where the scan of a string body stands relative to a complete quoted
/// string at `pos`: inside the body, or exactly on the closing quote, where
/// the collected bytes are the body itself. It cannot run past the quote.
proof fn lemma_qstr_run_position(input: Seq<u8>, pos: int, p: int, c: Seq<u8>, s: Seq<u8>)
    requires
        qstr_at(input, pos, s),
        0 <= pos,
        pos + 1 <= p <= input.len(),
        input.subrange(pos + 1, p) == c,
        json_safe(c),
    ensures
        p <= pos + 1 + s.len(),
        p < pos + 1 + s.len() ==> input[p] == s[p - pos - 1] && json_safe_byte(input[p]),
        p == pos + 1 + s.len() ==> input[p] == 34 && c == s,
{
    let q = spec_qstr(s);
    assert(q.len() == s.len() + 2);
    assert forall|j: int| 0 <= j < q.len() implies input[pos + j] == q[j] by {
        assert(input.subrange(pos, pos + q.len())[j] == input[pos + j]);
    }
    assert(q[0] == 34);
    assert forall|j: int| 1 <= j <= s.len() implies q[j] == s[j - 1] by {
        assert((seq![34u8] + s)[j] == s[j - 1]);
    }
    assert(q[s.len() + 1 as int] == 34);
    if p > pos + 1 + s.len() {
        let j = pos + 1 + s.len();
        assert(input[j] == 34);
        assert(input.subrange(pos + 1, p)[j - pos - 1] == input[j]);
        assert(json_safe_byte(c[j - pos - 1]));
        assert(false);
    }
    if p == pos + 1 + s.len() {
        assert(input[p] == q[s.len() + 1 as int]);
        assert forall|i: int| 0 <= i < c.len() implies c[i] == s[i] by {
            assert(input.subrange(pos + 1, p)[i] == input[pos + 1 + i]);
            assert(input[pos + 1 + i] == q[i + 1]);
        }
        assert(c =~= s);
    }
    if p < pos + 1 + s.len() {
        assert(input[p] == q[p - pos]);
    }
}

/// A whole encoded record for `pv` stands at `pos`.
pub open spec fn pet_at(input: Seq<u8>, pos: int, pv: PetView) -> bool {
    &&& valid_pet(pv)
    &&& bytes_at(input, pos, spec_pet(pv))
}

/// A stretch of known bytes splits into its two parts in place.
proof fn lemma_bytes_at_split(input: Seq<u8>, a: int, x: Seq<u8>, y: Seq<u8>)
    requires
        0 <= a,
        bytes_at(input, a, x + y),
    ensures
        bytes_at(input, a, x),
        bytes_at(input, a + x.len(), y),
{
    assert forall|i: int| 0 <= i < x.len() implies input.subrange(a, a + x.len())[i] == x[i] by {
        assert(input.subrange(a, a + (x + y).len())[i] == input[a + i]);
        assert(input.subrange(a, a + x.len())[i] == input[a + i]);
    }
    assert(input.subrange(a, a + x.len()) =~= x);
    assert forall|i: int|
        0 <= i < y.len() implies input.subrange(a + x.len(), a + x.len() + y.len())[i] == y[i] by {
        assert(input.subrange(a, a + (x + y).len())[x.len() + i] == input[a + x.len() + i]);
        assert(input.subrange(a + x.len(), a + x.len() + y.len())[i] == input[a + x.len() + i]);
        assert((x + y)[x.len() + i] == y[i]);
    }
    assert(input.subrange(a + x.len(), a + x.len() + y.len()) =~= y);
}

/// An encoded record at `pos` lays its head, fields and separators at fixed
/// offsets, each ready for the reader of its kind.
#[verifier::rlimit(100)]
proof fn lemma_pet_at_stages(input: Seq<u8>, pos: int, pv: PetView)
    requires
        0 <= pos,
        pet_at(input, pos, pv),
    ensures
        spec_pet(pv).len() == 54 + spec_digits(pv.id).len() + pv.name.len() + pv.category.len()
            + spec_digits(pv.age).len() + pv.created_at.len(),
        bytes_at(input, pos, lit_head()),
        number_at(input, pos + 6, pv.id),
        bytes_at(input, pos + 6 + spec_digits(pv.id).len(), lit_name()),
        qstr_at(input, pos + 14 + spec_digits(pv.id).len(), pv.name),
        bytes_at(
            input,
            pos + 16 + spec_digits(pv.id).len() + pv.name.len(),
            lit_category(),
        ),
        qstr_at(input, pos + 28 + spec_digits(pv.id).len() + pv.name.len(), pv.category),
        bytes_at(
            input,
            pos + 30 + spec_digits(pv.id).len() + pv.name.len() + pv.category.len(),
            lit_age(),
        ),
        number_at(
            input,
            pos + 37 + spec_digits(pv.id).len() + pv.name.len() + pv.category.len(),
            pv.age,
        ),
        bytes_at(
            input,
            pos + 37 + spec_digits(pv.id).len() + pv.name.len() + pv.category.len()
                + spec_digits(pv.age).len(),
            lit_created(),
        ),
        qstr_at(
            input,
            pos + 51 + spec_digits(pv.id).len() + pv.name.len() + pv.category.len()
                + spec_digits(pv.age).len(),
            pv.created_at,
        ),
        bytes_at(
            input,
            pos + 53 + spec_digits(pv.id).len() + pv.name.len() + pv.category.len()
                + spec_digits(pv.age).len() + pv.created_at.len(),
            seq![125u8],
        ),
{
    let p1 = pos + 6;
    let p2 = p1 + spec_digits(pv.id).len();
    let p3 = p2 + 8;
    let p4 = p3 + 2 + pv.name.len();
    let p5 = p4 + 12;
    let p6 = p5 + 2 + pv.category.len();
    let p7 = p6 + 7;
    let p8 = p7 + spec_digits(pv.age).len();
    let p9 = p8 + 14;
    let p10 = p9 + 2 + pv.created_at.len();
    assert(spec_pet(pv) =~= lit_head() + (spec_digits(pv.id) + pet_after_id(pv)));
    lemma_bytes_at_split(input, pos, lit_head(), spec_digits(pv.id) + pet_after_id(pv));
    lemma_bytes_at_split(input, p1, spec_digits(pv.id), pet_after_id(pv));
    assert(pet_after_id(pv) =~= lit_name() + (spec_qstr(pv.name) + pet_after_name(pv)));
    lemma_bytes_at_split(input, p2, lit_name(), spec_qstr(pv.name) + pet_after_name(pv));
    lemma_bytes_at_split(input, p3, spec_qstr(pv.name), pet_after_name(pv));
    assert(pet_after_name(pv) =~= lit_category() + (spec_qstr(pv.category) + pet_after_category(
        pv,
    )));
    lemma_bytes_at_split(
        input,
        p4,
        lit_category(),
        spec_qstr(pv.category) + pet_after_category(pv),
    );
    lemma_bytes_at_split(input, p5, spec_qstr(pv.category), pet_after_category(pv));
    assert(pet_after_category(pv) =~= lit_age() + (spec_digits(pv.age) + pet_after_age(pv)));
    lemma_bytes_at_split(input, p6, lit_age(), spec_digits(pv.age) + pet_after_age(pv));
    lemma_bytes_at_split(input, p7, spec_digits(pv.age), pet_after_age(pv));
    assert(pet_after_age(pv) =~= lit_created() + (spec_qstr(pv.created_at) + seq![125u8]));
    lemma_bytes_at_split(input, p8, lit_created(), spec_qstr(pv.created_at) + seq![125u8]);
    lemma_bytes_at_split(input, p9, spec_qstr(pv.created_at), seq![125u8]);
    // The byte after each digit run is the comma of the next key.
    assert(input.subrange(p2, p2 + 8)[0] == input[p2]);
    assert(input[p2] == 44);
    assert(input.subrange(p8, p8 + 14)[0] == input[p8]);
    assert(input[p8] == 44);
}

/// Where a digit run read so far stands relative to a complete number at
/// `pos`: still inside it, where it is a prefix, or exactly at its end,
/// where it is the number itself. It cannot run past the end.
proof fn lemma_digit_run_position(input: Seq<u8>, pos: int, p: int, v: nat, n: nat)
    requires
        number_at(input, pos, n),
        0 <= pos < p <= input.len(),
        input.subrange(pos, p) == spec_digits(v),
    ensures
        p <= pos + spec_digits(n).len(),
        p < pos + spec_digits(n).len() ==> spec_digits(v) == spec_digits(n).subrange(0, p - pos),
        p == pos + spec_digits(n).len() ==> v == n,
{
    let ln = spec_digits(n).len();
    lemma_digits_bytes(n);
    lemma_digits_bytes(v);
    if p > pos + ln {
        assert(input.subrange(pos, p)[ln as int] == input[pos + ln]);
        assert(digit_byte(spec_digits(v)[ln as int]));
        assert(false);
    }
    if p < pos + ln {
        assert forall|i: int| 0 <= i < p - pos implies spec_digits(v)[i] == spec_digits(
            n,
        ).subrange(0, p - pos)[i] by {
            assert(input.subrange(pos, p)[i] == input[pos + i]);
            assert(input.subrange(pos, pos + ln)[i] == input[pos + i]);
        }
        assert(spec_digits(v) =~= spec_digits(n).subrange(0, p - pos));
    }
    if p == pos + ln {
        assert(spec_digits(v) == input.subrange(pos, p));
        assert(spec_digits(n) == input.subrange(pos, pos + ln));
        lemma_digits_inj(v, n);
    }
}

/// A range of a sequence splits at any point in between.
proof fn lemma_subrange_cat(s: Seq<u8>, a: int, b: int, c: int)
    requires
        0 <= a <= b <= c <= s.len(),
    ensures
        s.subrange(a, c) == s.subrange(a, b) + s.subrange(b, c),
{
    assert(s.subrange(a, c) =~= s.subrange(a, b) + s.subrange(b, c));
}

/// Match the bytes of `lit` at `pos`.
fn expect_bytes(input: &Vec<u8>, pos: usize, lit: &Vec<u8>) -> (r: Option<usize>)
    ensures
        r matches Some(p2) ==> {
            &&& p2 == pos + lit@.len()
            &&& p2 <= input@.len()
            &&& input@.subrange(pos as int, p2 as int) == lit@
        },
        r is None ==> !bytes_at(input@, pos as int, lit@),
{
    if pos > input.len() || input.len() - pos < lit.len() {
        return None;
    }
    let mut i: usize = 0;
    while i < lit.len()
        invariant
            pos + lit@.len() <= input@.len(),
            input@.len() <= usize::MAX,
            i <= lit@.len(),
            forall|j: int| 0 <= j < i ==> input@[pos + j] == lit@[j],
        decreases lit@.len() - i,
    {
        if input[pos + i] != lit[i] {
            proof {
                if bytes_at(input@, pos as int, lit@) {
                    assert(input@.subrange(pos as int, pos + lit@.len())[i as int] == lit@[
                        i as int
                    ]);
                }
            }
            return None;
        }
        i = i + 1;
    }
    proof {
        assert(input@.subrange(pos as int, (pos + lit@.len()) as int) =~= lit@);
    }
    Some(pos + lit.len())
}

/// Read a decimal number at `pos`. On success the consumed bytes are exactly
/// the canonical digits of the value; and wherever a complete number stands,
/// the read succeeds and consumes it whole.
fn parse_number(input: &Vec<u8>, pos: usize) -> (r: Option<(usize, usize)>)
    ensures
        r matches Some(vp) ==> {
            &&& pos < vp.1 <= input@.len()
            &&& input@.subrange(pos as int, vp.1 as int) == spec_digits(vp.0 as nat)
        },
        forall|n: nat|
            number_at(input@, pos as int, n) ==> r == Some(
                (n as usize, (pos + spec_digits(n).len()) as usize),
            ),
{
    if pos >= input.len() {
        proof {
            assert forall|n: nat| !number_at(input@, pos as int, n) by {
                lemma_digits_bytes(n);
            }
        }
        return None;
    }
    let b0 = input[pos];
    if !(48 <= b0 && b0 <= 57) {
        proof {
            assert forall|n: nat| !number_at(input@, pos as int, n) by {
                lemma_digits_bytes(n);
                if number_at(input@, pos as int, n) {
                    assert(input@.subrange(pos as int, pos + spec_digits(n).len())[0] == input@[
                        pos as int
                    ]);
                }
            }
        }
        return None;
    }
    if b0 == 48 {
        proof {
            assert(input@.subrange(pos as int, (pos + 1) as int) =~= spec_digits(0));
            assert forall|n: nat| number_at(input@, pos as int, n) implies n == 0 by {
                assert(input@.subrange(pos as int, pos + spec_digits(n).len())[0] == input@[
                    pos as int
                ]);
                if n >= 1 {
                    lemma_leading_nonzero(n);
                }
            }
        }
        return Some((0, pos + 1));
    }
    let mut v: usize = (b0 - 48) as usize;
    let mut p: usize = pos + 1;
    proof {
        assert(input@.subrange(pos as int, p as int) =~= spec_digits(v as nat));
    }
    while p < input.len() && 48 <= input[p] && input[p] <= 57
        invariant
            pos < p <= input@.len(),
            1 <= v,
            input@.subrange(pos as int, p as int) == spec_digits(v as nat),
        decreases input@.len() - p,
    {
        let b = input[p];
        let d: usize = (b - 48) as usize;
        proof {
            assert((v * 10 + d) / 10 == v && (v * 10 + d) % 10 == d) by (nonlinear_arith)
                requires
                    1 <= v,
                    0 <= d < 10,
            ;
            assert(spec_digits((v * 10 + d) as nat) == spec_digits(v as nat).push(
                (48 + d) as u8,
            ));
            assert forall|n: nat| number_at(input@, pos as int, n) implies v * 10 + d <= n by {
                lemma_digit_run_position(input@, pos as int, p as int, v as nat, n);
                lemma_digits_bytes(n);
                let ln = spec_digits(n).len();
                assert(p - pos < ln);
                assert(input@.subrange(pos as int, pos + ln)[p - pos] == input@[p as int]);
                assert(spec_digits((v * 10 + d) as nat) =~= spec_digits(n).subrange(
                    0,
                    p - pos + 1,
                ));
                lemma_digits_prefix_le((v * 10 + d) as nat, n);
            }
        }
        let nv = match v.checked_mul(10) {
            Some(x) => match x.checked_add(d) {
                Some(y) => y,
                None => {
                    proof {
                        assert forall|n: nat| !number_at(input@, pos as int, n) by {}
                    }
                    return None;
                },
            },
            None => {
                proof {
                    assert forall|n: nat| !number_at(input@, pos as int, n) by {}
                }
                return None;
            },
        };
        proof {
            assert(input@.subrange(pos as int, (p + 1) as int) =~= input@.subrange(
                pos as int,
                p as int,
            ).push(input@[p as int]));
        }
        v = nv;
        p = p + 1;
    }
    proof {
        assert forall|n: nat|
            number_at(input@, pos as int, n) implies n == v && pos + spec_digits(n).len()
            == p by {
            lemma_digit_run_position(input@, pos as int, p as int, v as nat, n);
            lemma_digits_bytes(n);
            if p < pos + spec_digits(n).len() {
                assert(input@.subrange(pos as int, pos + spec_digits(n).len())[p - pos]
                    == input@[p as int]);
                assert(digit_byte(input@[p as int]));
            }
        }
    }
    Some((v, p))
}

/// Read a string literal at `pos`: a quote, unescaped text, a quote. On
/// success the consumed bytes are exactly the quoted text; and wherever a
/// complete quoted string stands, the read succeeds and consumes it whole.
fn parse_qstr(input: &Vec<u8>, pos: usize) -> (r: Option<(Vec<u8>, usize)>)
    ensures
        r matches Some(sp) ==> {
            &&& pos < sp.1 <= input@.len()
            &&& json_safe(sp.0@)
            &&& input@.subrange(pos as int, sp.1 as int) == spec_qstr(sp.0@)
        },
        forall|s: Seq<u8>|
            qstr_at(input@, pos as int, s) ==> (r matches Some(sp) && sp.0@ == s && sp.1 as int
                == pos + s.len() + 2),
{
    if pos >= input.len() {
        proof {
            assert forall|s: Seq<u8>| !qstr_at(input@, pos as int, s) by {}
        }
        return None;
    }
    if input[pos] != 34 {
        proof {
            assert forall|s: Seq<u8>| !qstr_at(input@, pos as int, s) by {
                if qstr_at(input@, pos as int, s) {
                    assert(input@.subrange(pos as int, pos + spec_qstr(s).len())[0] == input@[
                        pos as int
                    ]);
                    assert(spec_qstr(s)[0] == 34);
                }
            }
        }
        return None;
    }
    let mut s: Vec<u8> = Vec::new();
    let mut p: usize = pos + 1;
    proof {
        assert(s@ =~= input@.subrange((pos + 1) as int, p as int));
    }
    while p < input.len() && input[p] != 34
        invariant
            pos + 1 <= p <= input@.len(),
            s@ == input@.subrange((pos + 1) as int, p as int),
            json_safe(s@),
        decreases input@.len() - p,
    {
        let b = input[p];
        if !(32 <= b && b < 127) || b == 92 {
            proof {
                assert forall|t: Seq<u8>| !qstr_at(input@, pos as int, t) by {
                    if qstr_at(input@, pos as int, t) {
                        lemma_qstr_run_position(input@, pos as int, p as int, s@, t);
                    }
                }
            }
            return None;
        }
        s.push(b);
        p = p + 1;
        proof {
            assert(s@ =~= input@.subrange((pos + 1) as int, p as int));
            assert forall|i: int| 0 <= i < s@.len() implies json_safe_byte(s@[i]) by {}
        }
    }
    if p >= input.len() {
        proof {
            assert forall|t: Seq<u8>| !qstr_at(input@, pos as int, t) by {
                if qstr_at(input@, pos as int, t) {
                    lemma_qstr_run_position(input@, pos as int, p as int, s@, t);
                }
            }
        }
        return None;
    }
    proof {
        assert(input@.subrange(pos as int, (p + 1) as int) =~= spec_qstr(s@));
        assert forall|t: Seq<u8>|
            qstr_at(input@, pos as int, t) implies s@ == t && p + 1 == pos + t.len() + 2 by {
            lemma_qstr_run_position(input@, pos as int, p as int, s@, t);
            if p < pos + 1 + t.len() {
                assert(input@[p as int] == t[p - pos - 1]);
            }
        }
    }
    Some((s, p + 1))
}

/// The opening half of an encoded record: its head, id, name and category.
pub open spec fn spec_pet_front(id: nat, name: Seq<u8>, category: Seq<u8>) -> Seq<u8> {
    lit_head() + spec_digits(id) + lit_name() + spec_qstr(name) + lit_category() + spec_qstr(
        category,
    )
}

/// Read the opening half of a record object at `pos`: head, id, name and
/// category. On success the consumed bytes are exactly that half; and
/// wherever a complete record object stands, the read succeeds, agrees with
/// its fields, and stops right before its age key.
#[verifier::rlimit(100)]
fn parse_pet_front(input: &Vec<u8>, pos: usize) -> (r: Option<(usize, Vec<u8>, Vec<u8>, usize)>)
    ensures
        r matches Some(t) ==> {
            &&& pos < t.3 <= input@.len()
            &&& json_safe(t.1@)
            &&& json_safe(t.2@)
            &&& input@.subrange(pos as int, t.3 as int) == spec_pet_front(
                t.0 as nat,
                t.1@,
                t.2@,
            )
        },
        forall|pv: PetView|
            pet_at(input@, pos as int, pv) ==> (r matches Some(t) && t.0 as nat == pv.id && t.1@
                == pv.name && t.2@ == pv.category && t.3 as int == pos + 30 + spec_digits(
                pv.id,
            ).len() + pv.name.len() + pv.category.len()),
{
    let head: Vec<u8> = vec![123u8, 34u8, 105u8, 100u8, 34u8, 58u8];
    let name_key: Vec<u8> = vec![44u8, 34u8, 110u8, 97u8, 109u8, 101u8, 34u8, 58u8];
    let category_key: Vec<u8> = vec![
        44u8,
        34u8,
        99u8,
        97u8,
        116u8,
        101u8,
        103u8,
        111u8,
        114u8,
        121u8,
        34u8,
        58u8,
    ];
    proof {
        assert(head@ =~= lit_head());
        assert(name_key@ =~= lit_name());
        assert(category_key@ =~= lit_category());
    }
    let p1 = match expect_bytes(input, pos, &head) {
        Some(p) => p,
        None => {
            proof {
                assert forall|pv: PetView| !pet_at(input@, pos as int, pv) by {
                    if pet_at(input@, pos as int, pv) {
                        lemma_pet_at_stages(input@, pos as int, pv);
                    }
                }
            }
            return None;
        },
    };
    let (id, p2) = match parse_number(input, p1) {
        Some(vp) => vp,
        None => {
            proof {
                assert forall|pv: PetView| !pet_at(input@, pos as int, pv) by {
                    if pet_at(input@, pos as int, pv) {
                        lemma_pet_at_stages(input@, pos as int, pv);
                        assert(number_at(input@, p1 as int, pv.id));
                    }
                }
            }
            return None;
        },
    };
    proof {
        lemma_subrange_cat(input@, pos as int, p1 as int, p2 as int);
    }
    let p3 = match expect_bytes(input, p2, &name_key) {
        Some(p) => p,
        None => {
            proof {
                assert forall|pv: PetView| !pet_at(input@, pos as int, pv) by {
                    if pet_at(input@, pos as int, pv) {
                        lemma_pet_at_stages(input@, pos as int, pv);
                        assert(number_at(input@, p1 as int, pv.id));
                        assert(p2 as int == p1 + spec_digits(pv.id).len());
                        assert(bytes_at(input@, p2 as int, name_key@));
                    }
                }
            }
            return None;
        },
    };
    proof {
        lemma_subrange_cat(input@, pos as int, p2 as int, p3 as int);
    }
    let (name, p4) = match parse_qstr(input, p3) {
        Some(sp) => sp,
        None => {
            proof {
                assert forall|pv: PetView| !pet_at(input@, pos as int, pv) by {
                    if pet_at(input@, pos as int, pv) {
                        lemma_pet_at_stages(input@, pos as int, pv);
                        assert(number_at(input@, p1 as int, pv.id));
                        assert(p2 as int == p1 + spec_digits(pv.id).len());
                        assert(qstr_at(input@, p3 as int, pv.name));
                    }
                }
            }
            return None;
        },
    };
    proof {
        lemma_subrange_cat(input@, pos as int, p3 as int, p4 as int);
    }
    let p5 = match expect_bytes(input, p4, &category_key) {
        Some(p) => p,
        None => {
            proof {
                assert forall|pv: PetView| !pet_at(input@, pos as int, pv) by {
                    if pet_at(input@, pos as int, pv) {
                        lemma_pet_at_stages(input@, pos as int, pv);
                        assert(number_at(input@, p1 as int, pv.id));
                        assert(p2 as int == p1 + spec_digits(pv.id).len());
                        assert(qstr_at(input@, p3 as int, pv.name));
                        assert(p4 as int == p3 + pv.name.len() + 2);
                        assert(bytes_at(input@, p4 as int, category_key@));
                    }
                }
            }
            return None;
        },
    };
    proof {
        lemma_subrange_cat(input@, pos as int, p4 as int, p5 as int);
    }
    let (category, p6) = match parse_qstr(input, p5) {
        Some(sp) => sp,
        None => {
            proof {
                assert forall|pv: PetView| !pet_at(input@, pos as int, pv) by {
                    if pet_at(input@, pos as int, pv) {
                        lemma_pet_at_stages(input@, pos as int, pv);
                        assert(number_at(input@, p1 as int, pv.id));
                        assert(p2 as int == p1 + spec_digits(pv.id).len());
                        assert(qstr_at(input@, p3 as int, pv.name));
                        assert(p4 as int == p3 + pv.name.len() + 2);
                        assert(qstr_at(input@, p5 as int, pv.category));
                    }
                }
            }
            return None;
        },
    };
    proof {
        lemma_subrange_cat(input@, pos as int, p5 as int, p6 as int);
        assert forall|pv: PetView|
            pet_at(input@, pos as int, pv) implies id as nat == pv.id && name@ == pv.name
            && category@ == pv.category && p6 as int == pos + 30 + spec_digits(pv.id).len()
            + pv.name.len() + pv.category.len() by {
            lemma_pet_at_stages(input@, pos as int, pv);
            assert(number_at(input@, p1 as int, pv.id));
            assert(p2 as int == p1 + spec_digits(pv.id).len());
            assert(qstr_at(input@, p3 as int, pv.name));
            assert(p4 as int == p3 + pv.name.len() + 2);
            assert(qstr_at(input@, p5 as int, pv.category));
            assert(p6 as int == p5 + pv.category.len() + 2);
        }
    }
    Some((id, name, category, p6))
}

/// A successfully parsed record and a complete record at the same place
/// agree, and the parse stopped exactly at the record's end.
proof fn lemma_pet_parse_agree(input: Seq<u8>, pos: int, p: int, q: PetView, pv: PetView)
    requires
        0 <= pos <= p <= input.len(),
        valid_pet(q),
        input.subrange(pos, p) == spec_pet(q),
        pet_at(input, pos, pv),
    ensures
        q == pv,
        p == pos + spec_pet(pv).len(),
{
    let n = input.len() as int;
    let pend = pos + spec_pet(pv).len();
    lemma_subrange_cat(input, pos, p, n);
    lemma_subrange_cat(input, pos, pend, n);
    assert(input.subrange(pos, n) =~= input.subrange(0, n).subrange(pos, n));
    lemma_pet_strip(q, input.subrange(p, n), pv, input.subrange(pend, n));
}

/// Read one record object at `pos`. On success the consumed bytes are
/// exactly the encoding of the returned record; and wherever a complete
/// record object stands, the read succeeds and consumes it whole.
#[verifier::rlimit(100)]
fn parse_pet(input: &Vec<u8>, pos: usize) -> (r: Option<(Pet, usize)>)
    ensures
        r matches Some(pp) ==> {
            &&& pos < pp.1 <= input@.len()
            &&& valid_pet(pp.0@)
            &&& input@.subrange(pos as int, pp.1 as int) == spec_pet(pp.0@)
        },
        forall|pv: PetView|
            pet_at(input@, pos as int, pv) ==> (r matches Some(pp) && pp.0@ == pv && pp.1 as int
                == pos + spec_pet(pv).len()),
{
    let age_key: Vec<u8> = vec![44u8, 34u8, 97u8, 103u8, 101u8, 34u8, 58u8];
    let created_key: Vec<u8> = vec![
        44u8,
        34u8,
        99u8,
        114u8,
        101u8,
        97u8,
        116u8,
        101u8,
        100u8,
        95u8,
        97u8,
        116u8,
        34u8,
        58u8,
    ];
    let tail: Vec<u8> = vec![125u8];
    proof {
        assert(age_key@ =~= lit_age());
        assert(created_key@ =~= lit_created());
        assert(tail@ =~= seq![125u8]);
    }
    let (id, name, category, p6) = match parse_pet_front(input, pos) {
        Some(t) => t,
        None => {
            return None;
        },
    };
    let p7 = match expect_bytes(input, p6, &age_key) {
        Some(p) => p,
        None => {
            proof {
                assert forall|pv: PetView| !pet_at(input@, pos as int, pv) by {
                    if pet_at(input@, pos as int, pv) {
                        lemma_pet_at_stages(input@, pos as int, pv);
                        assert(bytes_at(input@, p6 as int, age_key@));
                    }
                }
            }
            return None;
        },
    };
    proof {
        lemma_subrange_cat(input@, pos as int, p6 as int, p7 as int);
    }
    let (age, p8) = match parse_number(input, p7) {
        Some(vp) => vp,
        None => {
            proof {
                assert forall|pv: PetView| !pet_at(input@, pos as int, pv) by {
                    if pet_at(input@, pos as int, pv) {
                        lemma_pet_at_stages(input@, pos as int, pv);
                        assert(p7 as int == p6 + 7);
                        assert(number_at(input@, p7 as int, pv.age));
                    }
                }
            }
            return None;
        },
    };
    proof {
        lemma_subrange_cat(input@, pos as int, p7 as int, p8 as int);
    }
    let p9 = match expect_bytes(input, p8, &created_key) {
        Some(p) => p,
        None => {
            proof {
                assert forall|pv: PetView| !pet_at(input@, pos as int, pv) by {
                    if pet_at(input@, pos as int, pv) {
                        lemma_pet_at_stages(input@, pos as int, pv);
                        assert(p7 as int == p6 + 7);
                        assert(number_at(input@, p7 as int, pv.age));
                        assert(p8 as int == p7 + spec_digits(pv.age).len());
                        assert(bytes_at(input@, p8 as int, created_key@));
                    }
                }
            }
            return None;
        },
    };
    proof {
        lemma_subrange_cat(input@, pos as int, p8 as int, p9 as int);
    }
    let (created_at, p10) = match parse_qstr(input, p9) {
        Some(sp) => sp,
        None => {
            proof {
                assert forall|pv: PetView| !pet_at(input@, pos as int, pv) by {
                    if pet_at(input@, pos as int, pv) {
                        lemma_pet_at_stages(input@, pos as int, pv);
                        assert(p7 as int == p6 + 7);
                        assert(number_at(input@, p7 as int, pv.age));
                        assert(p8 as int == p7 + spec_digits(pv.age).len());
                        assert(qstr_at(input@, p9 as int, pv.created_at));
                    }
                }
            }
            return None;
        },
    };
    proof {
        lemma_subrange_cat(input@, pos as int, p9 as int, p10 as int);
    }
    let p11 = match expect_bytes(input, p10, &tail) {
        Some(p) => p,
        None => {
            proof {
                assert forall|pv: PetView| !pet_at(input@, pos as int, pv) by {
                    if pet_at(input@, pos as int, pv) {
                        lemma_pet_at_stages(input@, pos as int, pv);
                        assert(p7 as int == p6 + 7);
                        assert(number_at(input@, p7 as int, pv.age));
                        assert(p8 as int == p7 + spec_digits(pv.age).len());
                        assert(qstr_at(input@, p9 as int, pv.created_at));
                        assert(p10 as int == p9 + pv.created_at.len() + 2);
                        assert(bytes_at(input@, p10 as int, tail@));
                    }
                }
            }
            return None;
        },
    };
    proof {
        lemma_subrange_cat(input@, pos as int, p10 as int, p11 as int);
    }
    let pet = Pet { id, name, category, age, created_at };
    proof {
        assert(input@.subrange(pos as int, p11 as int) == spec_pet(pet@));
        assert forall|pv: PetView|
            pet_at(input@, pos as int, pv) implies pet@ == pv && p11 as int == pos + spec_pet(
            pv,
        ).len() by {
            lemma_pet_parse_agree(input@, pos as int, p11 as int, pet@, pv);
        }
    }
    Some((pet, p11))
}

/// Deserialize the bytes of the backing file. A successful read certifies
/// its input: the returned list is well-formed and its encoding is, byte
/// for byte, the input itself. And the read of a well-formed list's
/// encoding always succeeds and returns that list: together the two
/// directions close the round trip through the store.
pub fn decode_pets(input: &Vec<u8>) -> (r: Option<Vec<Pet>>)
    ensures
        r matches Some(pets) ==> {
            &&& valid_pets(pets.deep_view())
            &&& input@ == spec_encode(pets.deep_view())
        },
        forall|l: Seq<PetView>|
            valid_pets(l) && input@ == spec_encode(l) ==> (r matches Some(pets)
                && pets.deep_view() == l),
{
    let open: Vec<u8> = vec![91u8];
    proof {
        assert(open@ =~= seq![91u8]);
    }
    let p0 = match expect_bytes(input, 0, &open) {
        Some(p) => p,
        None => {
            proof {
                assert forall|l: Seq<PetView>| !(valid_pets(l) && input@ == spec_encode(l)) by {
                    if valid_pets(l) && input@ == spec_encode(l) {
                        assert(spec_encode(l) =~= seq![91u8] + (spec_items(l) + seq![93u8]));
                        assert(input@[0] == 91);
                        assert(input@.subrange(0, 1) =~= seq![91u8]);
                        assert(bytes_at(input@, 0, open@));
                    }
                }
            }
            return None;
        },
    };
    if p0 < input.len() && input[p0] == 93 {
        if p0 + 1 == input.len() {
            let pets: Vec<Pet> = Vec::new();
            proof {
                assert(pets.deep_view() =~= Seq::<PetView>::empty());
                assert(input@ =~= spec_encode(pets.deep_view()));
                assert forall|l: Seq<PetView>|
                    valid_pets(l) && input@ == spec_encode(l) implies pets.deep_view() == l by {
                    assert(spec_encode(l) =~= seq![91u8] + (spec_items(l) + seq![93u8]));
                    if l.len() > 0 {
                        lemma_items_head_byte(l);
                        assert(input@[1] == (spec_items(l) + seq![93u8])[0]);
                        assert((spec_items(l) + seq![93u8])[0] == spec_items(l)[0]);
                        assert(false);
                    }
                    assert(l =~= pets.deep_view());
                }
            }
            return Some(pets);
        } else {
            proof {
                assert forall|l: Seq<PetView>| !(valid_pets(l) && input@ == spec_encode(l)) by {
                    if valid_pets(l) && input@ == spec_encode(l) {
                        assert(spec_encode(l) =~= seq![91u8] + (spec_items(l) + seq![93u8]));
                        if l.len() == 0 {
                            assert(input@.len() == 2);
                        } else {
                            lemma_items_head_byte(l);
                            assert(input@[1] == (spec_items(l) + seq![93u8])[0]);
                            assert((spec_items(l) + seq![93u8])[0] == spec_items(l)[0]);
                        }
                    }
                }
            }
            return None;
        }
    }
    let mut pets: Vec<Pet> = Vec::new();
    let (first, mut p) = match parse_pet(input, p0) {
        Some(pp) => pp,
        None => {
            proof {
                assert forall|l: Seq<PetView>| !(valid_pets(l) && input@ == spec_encode(l)) by {
                    if valid_pets(l) && input@ == spec_encode(l) {
                        lemma_first_pet_stands(input@, l);
                        if l.len() == 0 {
                            assert(input@[1] == 93);
                        }
                    }
                }
            }
            return None;
        },
    };
    proof {
        lemma_subrange_cat(input@, 0, p0 as int, p as int);
    }
    pets.push(first);
    proof {
        assert(pets.deep_view() =~= seq![first@]);
        assert(spec_items(pets.deep_view()) == spec_pet(first@));
        assert(input@.subrange(0, p as int) == seq![91u8] + spec_items(pets.deep_view()));
    }
    loop
        invariant
            1 <= pets.deep_view().len(),
            0 < p <= input@.len(),
            valid_pets(pets.deep_view()),
            input@.subrange(0, p as int) == seq![91u8] + spec_items(pets.deep_view()),
        decreases input@.len() - p,
    {
        if p >= input.len() {
            proof {
                assert forall|l: Seq<PetView>| !(valid_pets(l) && input@ == spec_encode(l)) by {
                    if valid_pets(l) && input@ == spec_encode(l) {
                        lemma_chunk_first_byte(input@, p as int, pets.deep_view(), l);
                    }
                }
            }
            return None;
        }
        if input[p] == 93 {
            if p + 1 == input.len() {
                proof {
                    assert(input@.subrange(0, (p + 1) as int) =~= input@.subrange(0, p as int)
                        + seq![input@[p as int]]);
                    assert(input@ =~= input@.subrange(0, (p + 1) as int));
                    assert(input@ == spec_encode(pets.deep_view()));
                    assert forall|l: Seq<PetView>|
                        valid_pets(l) && input@ == spec_encode(l) implies pets.deep_view()
                        == l by {
                        lemma_chunk_closed(input@, p as int, pets.deep_view(), l);
                    }
                }
                return Some(pets);
            } else {
                proof {
                    assert forall|l: Seq<PetView>| !(valid_pets(l) && input@ == spec_encode(
                        l,
                    )) by {
                        if valid_pets(l) && input@ == spec_encode(l) {
                            lemma_chunk_closed(input@, p as int, pets.deep_view(), l);
                        }
                    }
                }
                return None;
            }
        }
        if input[p] != 44 {
            proof {
                assert forall|l: Seq<PetView>| !(valid_pets(l) && input@ == spec_encode(l)) by {
                    if valid_pets(l) && input@ == spec_encode(l) {
                        lemma_chunk_first_byte(input@, p as int, pets.deep_view(), l);
                    }
                }
            }
            return None;
        }
        let (pet, p2) = match parse_pet(input, p + 1) {
            Some(pp) => pp,
            None => {
                proof {
                    assert forall|l: Seq<PetView>| !(valid_pets(l) && input@ == spec_encode(
                        l,
                    )) by {
                        if valid_pets(l) && input@ == spec_encode(l) {
                            lemma_chunk_next_pet(input@, p as int, pets.deep_view(), l);
                        }
                    }
                }
                return None;
            },
        };
        let ghost before = pets.deep_view();
        pets.push(pet);
        proof {
            assert(pets.deep_view() =~= before.push(pet@));
            assert(pets.deep_view().drop_last() =~= before);
            assert(spec_items(pets.deep_view()) == spec_items(before) + seq![44u8] + spec_pet(
                pet@,
            ));
            assert(input@.subrange(p as int, (p + 1) as int) =~= seq![44u8]);
            lemma_subrange_cat(input@, 0, p as int, (p + 1) as int);
            lemma_subrange_cat(input@, 0, (p + 1) as int, p2 as int);
            assert(input@.subrange(0, p2 as int) =~= seq![91u8] + spec_items(pets.deep_view()));
        }
        p = p2;
    }
}

/// In a non-empty encoded file, the first record stands right after the
/// opening bracket; in an empty one the closing bracket does.
proof fn lemma_first_pet_stands(input: Seq<u8>, l: Seq<PetView>)
    requires
        valid_pets(l),
        input == spec_encode(l),
    ensures
        input.len() >= 2,
        l.len() == 0 ==> input[1] == 93,
        l.len() > 0 ==> pet_at(input, 1, l[0]),
{
    assert(spec_encode(l) =~= seq![91u8] + (spec_items(l) + seq![93u8]));
    assert(input.subrange(0, input.len() as int) =~= input);
    assert(bytes_at(input, 0, spec_encode(l)));
    assert(spec_encode(l) =~= seq![91u8] + (spec_items(l) + seq![93u8]));
    lemma_bytes_at_split(input, 0, seq![91u8], spec_items(l) + seq![93u8]);
    if l.len() == 0 {
        assert(input[1] == (spec_items(l) + seq![93u8])[0]);
    } else if l.len() == 1 {
        assert(spec_items(l) == spec_pet(l[0]));
        lemma_bytes_at_split(input, 1, spec_pet(l[0]), seq![93u8]);
    } else {
        lemma_items_first(l);
        assert(spec_items(l) + seq![93u8] =~= spec_pet(l[0]) + (seq![44u8] + (spec_items(
            l.drop_first(),
        ) + seq![93u8])));
        lemma_bytes_at_split(
            input,
            1,
            spec_pet(l[0]),
            seq![44u8] + (spec_items(l.drop_first()) + seq![93u8]),
        );
    }
}

/// A positive number never starts with the digit zero.
proof fn lemma_leading_nonzero(n: nat)
    requires
        n >= 1,
    ensures
        spec_digits(n)[0] != 48,
    decreases n,
{
    if n >= 10 {
        lemma_digits_bytes(n / 10);
        lemma_leading_nonzero(n / 10);
        assert(spec_digits(n)[0] == spec_digits(n / 10)[0]);
    }
}

/// A number whose digits are a prefix of another's is no larger.
proof fn lemma_digits_prefix_le(a: nat, b: nat)
    requires
        spec_digits(a).len() <= spec_digits(b).len(),
        spec_digits(a) == spec_digits(b).subrange(0, spec_digits(a).len() as int),
    ensures
        a <= b,
    decreases b,
{
    lemma_digits_bytes(a);
    lemma_digits_bytes(b);
    if spec_digits(a).len() == spec_digits(b).len() {
        assert(spec_digits(b).subrange(0, spec_digits(b).len() as int) =~= spec_digits(b));
        lemma_digits_inj(a, b);
    } else {
        assert(spec_digits(b).len() >= 2);
        assert(b >= 10);
        lemma_digits_bytes(b / 10);
        assert(spec_digits(b).subrange(0, spec_digits(a).len() as int) =~= spec_digits(
            b / 10,
        ).subrange(0, spec_digits(a).len() as int));
        lemma_digits_prefix_le(a, b / 10);
    }
}

/// Every byte of a decimal representation is a digit.
proof fn lemma_digits_bytes(n: nat)
    ensures
        spec_digits(n).len() >= 1,
        forall|i: int| 0 <= i < spec_digits(n).len() ==> 48 <= #[trigger] spec_digits(n)[i] <= 57,
    decreases n,
{
    if n >= 10 {
        lemma_digits_bytes(n / 10);
    }
}

/// The decimal representation determines the number.
proof fn lemma_digits_inj(a: nat, b: nat)
    requires
        spec_digits(a) == spec_digits(b),
    ensures
        a == b,
    decreases a,
{
    lemma_digits_bytes(a / 10);
    lemma_digits_bytes(b / 10);
    if a < 10 && b < 10 {
        assert(spec_digits(a)[0] == (48 + a) as u8);
        assert(spec_digits(b)[0] == (48 + b) as u8);
        assert(48 + a < 256 && 48 + b < 256);
        assert(a == b);
    } else if a < 10 {
        assert(spec_digits(a).len() == 1);
        assert(spec_digits(b).len() >= 2);
    } else if b < 10 {
        assert(spec_digits(b).len() == 1);
        assert(spec_digits(a).len() >= 2);
    } else {
        assert(spec_digits(a).last() == (48 + a % 10) as u8);
        assert(spec_digits(b).last() == (48 + b % 10) as u8);
        assert(48 + a % 10 < 256 && 48 + b % 10 < 256);
        assert(a % 10 == b % 10);
        assert(spec_digits(a).drop_last() =~= spec_digits(a / 10));
        assert(spec_digits(b).drop_last() =~= spec_digits(b / 10));
        lemma_digits_inj(a / 10, b / 10);
        assert(a == 10 * (a / 10) + a % 10);
        assert(b == 10 * (b / 10) + b % 10);
    }
}

/// Equally long prefixes of equal concatenations match, and so do the rests.
proof fn lemma_cat_strip(a: Seq<u8>, x: Seq<u8>, b: Seq<u8>, y: Seq<u8>)
    requires
        a + x == b + y,
        a.len() == b.len(),
    ensures
        a == b,
        x == y,
{
    assert((a + x).len() == a.len() + x.len());
    assert((b + y).len() == b.len() + y.len());
    assert(x.len() == y.len());
    assert forall|i: int| 0 <= i < a.len() implies a[i] == b[i] by {
        assert((a + x)[i] == a[i]);
        assert((b + y)[i] == b[i]);
        assert((a + x)[i] == (b + y)[i]);
    }
    assert(a =~= b);
    assert forall|i: int| 0 <= i < x.len() implies x[i] == y[i] by {
        assert((a + x)[a.len() + i] == x[i]);
        assert((b + y)[b.len() + i] == y[i]);
        assert((a + x)[a.len() + i] == (b + y)[a.len() + i]);
    }
    assert(x =~= y);
}

/// A run of bytes satisfying `good`, closed by a byte that does not, is cut
/// at the same place in both decompositions of one sequence.
proof fn lemma_run_strip(
    x1: Seq<u8>,
    r1: Seq<u8>,
    x2: Seq<u8>,
    r2: Seq<u8>,
    good: spec_fn(u8) -> bool,
)
    requires
        x1 + r1 == x2 + r2,
        forall|i: int| 0 <= i < x1.len() ==> good(#[trigger] x1[i]),
        forall|i: int| 0 <= i < x2.len() ==> good(#[trigger] x2[i]),
        r1.len() > 0,
        !good(r1[0]),
        r2.len() > 0,
        !good(r2[0]),
    ensures
        x1 == x2,
        r1 == r2,
{
    if x1.len() < x2.len() {
        assert((x1 + r1)[x1.len() as int] == r1[0]);
        assert((x2 + r2)[x1.len() as int] == x2[x1.len() as int]);
        assert(false);
    } else if x2.len() < x1.len() {
        assert((x2 + r2)[x2.len() as int] == r2[0]);
        assert((x1 + r1)[x2.len() as int] == x1[x2.len() as int]);
        assert(false);
    }
    lemma_cat_strip(x1, r1, x2, r2);
}

/// The encoding of a record after its `id` digits.
spec fn pet_after_id(p: PetView) -> Seq<u8> {
    lit_name() + spec_qstr(p.name) + lit_category() + spec_qstr(p.category) + lit_age()
        + spec_digits(p.age) + lit_created() + spec_qstr(p.created_at) + seq![125u8]
}

/// The encoding of a record after the closing quote of its name.
spec fn pet_after_name(p: PetView) -> Seq<u8> {
    lit_category() + spec_qstr(p.category) + lit_age() + spec_digits(p.age) + lit_created()
        + spec_qstr(p.created_at) + seq![125u8]
}

/// The encoding of a record after the closing quote of its category.
spec fn pet_after_category(p: PetView) -> Seq<u8> {
    lit_age() + spec_digits(p.age) + lit_created() + spec_qstr(p.created_at) + seq![125u8]
}

/// The encoding of a record after its `age` digits.
spec fn pet_after_age(p: PetView) -> Seq<u8> {
    lit_created() + spec_qstr(p.created_at) + seq![125u8]
}

/// Strip `{"id":` and the digit run of the id from both decompositions.
#[verifier::rlimit(100)]
proof fn lemma_strip_id(p1: PetView, r1: Seq<u8>, p2: PetView, r2: Seq<u8>)
    requires
        spec_pet(p1) + r1 == spec_pet(p2) + r2,
    ensures
        p1.id == p2.id,
        pet_after_id(p1) + r1 == pet_after_id(p2) + r2,
{
    let digit = |b: u8| 48 <= b <= 57;
    lemma_digits_bytes(p1.id);
    lemma_digits_bytes(p2.id);
    let u1 = pet_after_id(p1) + r1;
    let u2 = pet_after_id(p2) + r2;
    assert(spec_pet(p1) + r1 =~= lit_head() + (spec_digits(p1.id) + u1));
    assert(spec_pet(p2) + r2 =~= lit_head() + (spec_digits(p2.id) + u2));
    lemma_cat_strip(lit_head(), spec_digits(p1.id) + u1, lit_head(), spec_digits(p2.id) + u2);
    assert(pet_after_id(p1)[0] == 44);
    assert(pet_after_id(p2)[0] == 44);
    assert(u1[0] == 44 && u2[0] == 44);
    lemma_run_strip(spec_digits(p1.id), u1, spec_digits(p2.id), u2, digit);
    lemma_digits_inj(p1.id, p2.id);
}

/// Strip `,"name":"` and the name up to its closing quote.
#[verifier::rlimit(100)]
proof fn lemma_strip_name(p1: PetView, r1: Seq<u8>, p2: PetView, r2: Seq<u8>)
    requires
        json_safe(p1.name),
        json_safe(p2.name),
        pet_after_id(p1) + r1 == pet_after_id(p2) + r2,
    ensures
        p1.name == p2.name,
        pet_after_name(p1) + r1 == pet_after_name(p2) + r2,
{
    let nonquote = |b: u8| b != 34;
    let v1 = pet_after_name(p1) + r1;
    let v2 = pet_after_name(p2) + r2;
    assert(pet_after_id(p1) + r1 =~= (lit_name() + seq![34u8]) + (p1.name + (seq![34u8] + v1)));
    assert(pet_after_id(p2) + r2 =~= (lit_name() + seq![34u8]) + (p2.name + (seq![34u8] + v2)));
    lemma_cat_strip(
        lit_name() + seq![34u8],
        p1.name + (seq![34u8] + v1),
        lit_name() + seq![34u8],
        p2.name + (seq![34u8] + v2),
    );
    assert(forall|i: int| 0 <= i < p1.name.len() ==> nonquote(#[trigger] p1.name[i]));
    assert(forall|i: int| 0 <= i < p2.name.len() ==> nonquote(#[trigger] p2.name[i]));
    assert((seq![34u8] + v1)[0] == 34);
    assert((seq![34u8] + v2)[0] == 34);
    lemma_run_strip(p1.name, seq![34u8] + v1, p2.name, seq![34u8] + v2, nonquote);
    lemma_cat_strip(seq![34u8], v1, seq![34u8], v2);
}

/// Strip `,"category":"` and the category up to its closing quote.
#[verifier::rlimit(100)]
proof fn lemma_strip_category(p1: PetView, r1: Seq<u8>, p2: PetView, r2: Seq<u8>)
    requires
        json_safe(p1.category),
        json_safe(p2.category),
        pet_after_name(p1) + r1 == pet_after_name(p2) + r2,
    ensures
        p1.category == p2.category,
        pet_after_category(p1) + r1 == pet_after_category(p2) + r2,
{
    let nonquote = |b: u8| b != 34;
    let w1 = pet_after_category(p1) + r1;
    let w2 = pet_after_category(p2) + r2;
    assert(pet_after_name(p1) + r1 =~= (lit_category() + seq![34u8]) + (p1.category + (seq![34u8]
        + w1)));
    assert(pet_after_name(p2) + r2 =~= (lit_category() + seq![34u8]) + (p2.category + (seq![34u8]
        + w2)));
    lemma_cat_strip(
        lit_category() + seq![34u8],
        p1.category + (seq![34u8] + w1),
        lit_category() + seq![34u8],
        p2.category + (seq![34u8] + w2),
    );
    assert(forall|i: int| 0 <= i < p1.category.len() ==> nonquote(#[trigger] p1.category[i]));
    assert(forall|i: int| 0 <= i < p2.category.len() ==> nonquote(#[trigger] p2.category[i]));
    assert((seq![34u8] + w1)[0] == 34);
    assert((seq![34u8] + w2)[0] == 34);
    lemma_run_strip(p1.category, seq![34u8] + w1, p2.category, seq![34u8] + w2, nonquote);
    lemma_cat_strip(seq![34u8], w1, seq![34u8], w2);
}

/// Strip `,"age":` and the digit run of the age.
#[verifier::rlimit(100)]
proof fn lemma_strip_age(p1: PetView, r1: Seq<u8>, p2: PetView, r2: Seq<u8>)
    requires
        pet_after_category(p1) + r1 == pet_after_category(p2) + r2,
    ensures
        p1.age == p2.age,
        pet_after_age(p1) + r1 == pet_after_age(p2) + r2,
{
    let digit = |b: u8| 48 <= b <= 57;
    lemma_digits_bytes(p1.age);
    lemma_digits_bytes(p2.age);
    let x1 = pet_after_age(p1) + r1;
    let x2 = pet_after_age(p2) + r2;
    assert(pet_after_category(p1) + r1 =~= lit_age() + (spec_digits(p1.age) + x1));
    assert(pet_after_category(p2) + r2 =~= lit_age() + (spec_digits(p2.age) + x2));
    lemma_cat_strip(lit_age(), spec_digits(p1.age) + x1, lit_age(), spec_digits(p2.age) + x2);
    assert(pet_after_age(p1)[0] == 44);
    assert(pet_after_age(p2)[0] == 44);
    assert(x1[0] == 44 && x2[0] == 44);
    lemma_run_strip(spec_digits(p1.age), x1, spec_digits(p2.age), x2, digit);
    lemma_digits_inj(p1.age, p2.age);
}

/// Strip `,"created_at":"`, the timestamp, and the closing `"}`.
#[verifier::rlimit(100)]
proof fn lemma_strip_created(p1: PetView, r1: Seq<u8>, p2: PetView, r2: Seq<u8>)
    requires
        json_safe(p1.created_at),
        json_safe(p2.created_at),
        pet_after_age(p1) + r1 == pet_after_age(p2) + r2,
    ensures
        p1.created_at == p2.created_at,
        r1 == r2,
{
    let nonquote = |b: u8| b != 34;
    assert(pet_after_age(p1) + r1 =~= (lit_created() + seq![34u8]) + (p1.created_at + (seq![34u8]
        + (seq![125u8] + r1))));
    assert(pet_after_age(p2) + r2 =~= (lit_created() + seq![34u8]) + (p2.created_at + (seq![34u8]
        + (seq![125u8] + r2))));
    lemma_cat_strip(
        lit_created() + seq![34u8],
        p1.created_at + (seq![34u8] + (seq![125u8] + r1)),
        lit_created() + seq![34u8],
        p2.created_at + (seq![34u8] + (seq![125u8] + r2)),
    );
    assert(forall|i: int| 0 <= i < p1.created_at.len() ==> nonquote(#[trigger] p1.created_at[i]));
    assert(forall|i: int| 0 <= i < p2.created_at.len() ==> nonquote(#[trigger] p2.created_at[i]));
    assert((seq![34u8] + (seq![125u8] + r1))[0] == 34);
    assert((seq![34u8] + (seq![125u8] + r2))[0] == 34);
    lemma_run_strip(
        p1.created_at,
        seq![34u8] + (seq![125u8] + r1),
        p2.created_at,
        seq![34u8] + (seq![125u8] + r2),
        nonquote,
    );
    lemma_cat_strip(seq![34u8], seq![125u8] + r1, seq![34u8], seq![125u8] + r2);
    lemma_cat_strip(seq![125u8], r1, seq![125u8], r2);
}

/// One encoded record is never a proper prefix of another: equal streams
/// that both start with an encoded record carry the same record and the
/// same rest.
proof fn lemma_pet_strip(p1: PetView, r1: Seq<u8>, p2: PetView, r2: Seq<u8>)
    requires
        valid_pet(p1),
        valid_pet(p2),
        spec_pet(p1) + r1 == spec_pet(p2) + r2,
    ensures
        p1 == p2,
        r1 == r2,
{
    lemma_strip_id(p1, r1, p2, r2);
    lemma_strip_name(p1, r1, p2, r2);
    lemma_strip_category(p1, r1, p2, r2);
    lemma_strip_age(p1, r1, p2, r2);
    lemma_strip_created(p1, r1, p2, r2);
    assert(p1 =~= p2);
}

/// A non-empty list has a non-empty joined encoding.
proof fn lemma_items_len(l: Seq<PetView>)
    requires
        l.len() > 0,
    ensures
        spec_items(l).len() >= 1,
    decreases l.len(),
{
    if l.len() == 1 {
        lemma_digits_bytes(l[0].id);
        assert(spec_pet(l[0]).len() >= 1);
    } else {
        lemma_items_len(l.drop_last());
    }
}

/// The joined encoding of two or more records, read from the front.
proof fn lemma_items_first(l: Seq<PetView>)
    requires
        l.len() >= 2,
    ensures
        spec_items(l) == spec_pet(l[0]) + seq![44u8] + spec_items(l.drop_first()),
    decreases l.len(),
{
    if l.len() == 2 {
        assert(l.drop_last() =~= seq![l[0]]);
        assert(l.drop_first() =~= seq![l[1]]);
        assert(spec_items(l.drop_last()) == spec_pet(l[0]));
        assert(spec_items(l.drop_first()) == spec_pet(l[1]));
        assert(l.last() == l[1]);
        assert(spec_items(l) =~= spec_pet(l[0]) + seq![44u8] + spec_items(l.drop_first()));
    } else {
        lemma_items_first(l.drop_last());
        assert(l.drop_last()[0] == l[0]);
        assert(l.drop_last().drop_first() =~= l.drop_first().drop_last());
        assert(l.drop_first().len() >= 2);
        assert(l.drop_first().last() == l.last());
        assert(spec_items(l.drop_first()) == spec_items(l.drop_first().drop_last()) + seq![44u8]
            + spec_pet(l.drop_first().last()));
        assert(spec_items(l) =~= spec_pet(l[0]) + seq![44u8] + spec_items(l.drop_first()));
    }
}

/// Records after the first are all well-formed too.
proof fn lemma_valid_drop_first(l: Seq<PetView>)
    requires
        valid_pets(l),
        l.len() >= 1,
    ensures
        valid_pets(l.drop_first()),
{
    assert forall|i: int| 0 <= i < l.drop_first().len() implies valid_pet(
        l.drop_first()[i],
    ) by {
        assert(l.drop_first()[i] == l[i + 1]);
    }
}

/// Two record lists whose joined encodings close with the same bracket are
/// the same list.
#[verifier::rlimit(100)]
proof fn lemma_items_strip(l1: Seq<PetView>, l2: Seq<PetView>)
    requires
        valid_pets(l1),
        valid_pets(l2),
        spec_items(l1) + seq![93u8] == spec_items(l2) + seq![93u8],
    ensures
        l1 == l2,
    decreases l1.len(),
{
    if l1.len() == 0 && l2.len() == 0 {
        assert(l1 =~= l2);
    } else if l1.len() == 0 {
        lemma_items_len(l2);
        assert((spec_items(l1) + seq![93u8]).len() == 1);
        assert((spec_items(l2) + seq![93u8]).len() >= 2);
        assert(false);
    } else if l2.len() == 0 {
        lemma_items_len(l1);
        assert((spec_items(l2) + seq![93u8]).len() == 1);
        assert((spec_items(l1) + seq![93u8]).len() >= 2);
        assert(false);
    } else if l1.len() == 1 && l2.len() == 1 {
        lemma_pet_strip(l1[0], seq![93u8], l2[0], seq![93u8]);
        assert(l1 =~= l2);
    } else if l1.len() == 1 {
        lemma_items_first(l2);
        let rest2 = seq![44u8] + (spec_items(l2.drop_first()) + seq![93u8]);
        assert(spec_items(l2) + seq![93u8] =~= spec_pet(l2[0]) + rest2);
        lemma_pet_strip(l1[0], seq![93u8], l2[0], rest2);
        assert(seq![93u8][0] == rest2[0]);
        assert(false);
    } else if l2.len() == 1 {
        lemma_items_first(l1);
        let rest1 = seq![44u8] + (spec_items(l1.drop_first()) + seq![93u8]);
        assert(spec_items(l1) + seq![93u8] =~= spec_pet(l1[0]) + rest1);
        lemma_pet_strip(l1[0], rest1, l2[0], seq![93u8]);
        assert(seq![93u8][0] == rest1[0]);
        assert(false);
    } else {
        lemma_items_first(l1);
        lemma_items_first(l2);
        let rest1 = seq![44u8] + (spec_items(l1.drop_first()) + seq![93u8]);
        let rest2 = seq![44u8] + (spec_items(l2.drop_first()) + seq![93u8]);
        assert(spec_items(l1) + seq![93u8] =~= spec_pet(l1[0]) + rest1);
        assert(spec_items(l2) + seq![93u8] =~= spec_pet(l2[0]) + rest2);
        lemma_pet_strip(l1[0], rest1, l2[0], rest2);
        lemma_cat_strip(
            seq![44u8],
            spec_items(l1.drop_first()) + seq![93u8],
            seq![44u8],
            spec_items(l2.drop_first()) + seq![93u8],
        );
        lemma_valid_drop_first(l1);
        lemma_valid_drop_first(l2);
        lemma_items_strip(l1.drop_first(), l2.drop_first());
        assert forall|i: int| 0 <= i < l1.len() implies l1[i] == l2[i] by {
            if i > 0 {
                assert(l1.drop_first()[i - 1] == l1[i]);
                assert(l2.drop_first()[i - 1] == l2[i]);
            }
        }
        assert(l1 =~= l2);
    }
}

/// An encoded record starts with the opening brace of its object.
proof fn lemma_pet_first_byte(p: PetView)
    ensures
        spec_pet(p).len() >= 1,
        spec_pet(p)[0] == 123,
{
    assert(spec_pet(p) =~= lit_head() + (spec_digits(p.id) + pet_after_id(p)));
    assert((lit_head() + (spec_digits(p.id) + pet_after_id(p)))[0] == 123);
}

/// A non-empty joined encoding starts with the opening brace of its first
/// record.
proof fn lemma_items_head_byte(l: Seq<PetView>)
    requires
        l.len() >= 1,
    ensures
        spec_items(l).len() >= 1,
        spec_items(l)[0] == 123,
{
    lemma_pet_first_byte(l[0]);
    if l.len() >= 2 {
        lemma_items_first(l);
        assert((spec_pet(l[0]) + seq![44u8] + spec_items(l.drop_first()))[0] == spec_pet(l[0])[0]);
    }
}

/// A run of parsed records against a complete encoded list that closes with
/// a bracket: the parsed records are the opening stretch of the list, and
/// what remains is the closing bracket alone, or a comma and the rest of the
/// list.
#[verifier::rlimit(100)]
proof fn lemma_items_chunk(l1: Seq<PetView>, l2: Seq<PetView>, r1: Seq<u8>)
    requires
        valid_pets(l1),
        valid_pets(l2),
        1 <= l1.len(),
        spec_items(l1) + r1 == spec_items(l2) + seq![93u8],
    ensures
        l1.len() <= l2.len(),
        l1 == l2.take(l1.len() as int),
        l1.len() == l2.len() ==> r1 == seq![93u8],
        l1.len() < l2.len() ==> r1 == seq![44u8] + (spec_items(l2.skip(l1.len() as int))
            + seq![93u8]),
    decreases l1.len(),
{
    if l2.len() == 0 {
        lemma_items_head_byte(l1);
        assert((spec_items(l1) + r1)[0] == 123);
        assert((spec_items(l2) + seq![93u8])[0] == 93);
        assert(false);
    } else if l1.len() == 1 && l2.len() == 1 {
        lemma_pet_strip(l1[0], r1, l2[0], seq![93u8]);
        assert(l1 =~= l2.take(1));
    } else if l1.len() == 1 {
        lemma_items_first(l2);
        let rest2 = seq![44u8] + (spec_items(l2.drop_first()) + seq![93u8]);
        assert(spec_items(l2) + seq![93u8] =~= spec_pet(l2[0]) + rest2);
        lemma_pet_strip(l1[0], r1, l2[0], rest2);
        assert(l1 =~= l2.take(1));
        assert(l2.skip(1) =~= l2.drop_first());
    } else {
        lemma_items_first(l1);
        let rest1 = seq![44u8] + (spec_items(l1.drop_first()) + r1);
        assert(spec_items(l1) + r1 =~= spec_pet(l1[0]) + rest1);
        if l2.len() == 1 {
            lemma_pet_strip(l1[0], rest1, l2[0], seq![93u8]);
            assert(rest1[0] == 44);
            assert(false);
        } else {
            lemma_items_first(l2);
            let rest2 = seq![44u8] + (spec_items(l2.drop_first()) + seq![93u8]);
            assert(spec_items(l2) + seq![93u8] =~= spec_pet(l2[0]) + rest2);
            lemma_pet_strip(l1[0], rest1, l2[0], rest2);
            lemma_cat_strip(
                seq![44u8],
                spec_items(l1.drop_first()) + r1,
                seq![44u8],
                spec_items(l2.drop_first()) + seq![93u8],
            );
            lemma_valid_drop_first(l1);
            lemma_valid_drop_first(l2);
            lemma_items_chunk(l1.drop_first(), l2.drop_first(), r1);
            let k = l1.len() as int;
            assert forall|i: int| 0 <= i < k implies l1[i] == l2.take(k)[i] by {
                if i > 0 {
                    assert(l1.drop_first()[i - 1] == l1[i]);
                    assert(l1.drop_first()[i - 1] == l2.drop_first().take(k - 1)[i - 1]);
                    assert(l2.drop_first().take(k - 1)[i - 1] == l2[i]);
                }
            }
            assert(l1 =~= l2.take(k));
            if l1.len() < l2.len() {
                assert(l2.skip(k) =~= l2.drop_first().skip(k - 1));
            }
        }
    }
}

/// After the opening bracket and some parsed records, the rest of a
/// complete encoded file is what the joined encodings of the remaining
/// records and the closing bracket dictate.
proof fn lemma_decode_align(input: Seq<u8>, p: int, parsed: Seq<PetView>, l: Seq<PetView>)
    requires
        input == spec_encode(l),
        0 < p <= input.len(),
        input.subrange(0, p) == seq![91u8] + spec_items(parsed),
    ensures
        spec_items(parsed) + input.subrange(p, input.len() as int) == spec_items(l)
            + seq![93u8],
{
    let n = input.len() as int;
    lemma_subrange_cat(input, 0, p, n);
    assert(input.subrange(0, n) =~= input);
    assert((seq![91u8] + spec_items(parsed)) + input.subrange(p, n) =~= seq![91u8] + (spec_items(
        parsed,
    ) + input.subrange(p, n)));
    assert(spec_encode(l) =~= seq![91u8] + (spec_items(l) + seq![93u8]));
    lemma_cat_strip(
        seq![91u8],
        spec_items(parsed) + input.subrange(p, n),
        seq![91u8],
        spec_items(l) + seq![93u8],
    );
}

/// Between two records of a complete encoded file, the reader stands on a
/// comma or on the closing bracket.
proof fn lemma_chunk_first_byte(input: Seq<u8>, p: int, parsed: Seq<PetView>, l: Seq<PetView>)
    requires
        input == spec_encode(l),
        valid_pets(parsed),
        valid_pets(l),
        1 <= parsed.len(),
        0 < p <= input.len(),
        input.subrange(0, p) == seq![91u8] + spec_items(parsed),
    ensures
        p < input.len(),
        input[p] == 44 || input[p] == 93,
{
    let n = input.len() as int;
    lemma_decode_align(input, p, parsed, l);
    lemma_items_chunk(parsed, l, input.subrange(p, n));
    if parsed.len() == l.len() {
        assert(input.subrange(p, n)[0] == input[p]);
    } else {
        assert(input.subrange(p, n)[0] == input[p]);
        assert((seq![44u8] + (spec_items(l.skip(parsed.len() as int)) + seq![93u8]))[0] == 44);
    }
}

/// On the closing bracket, everything has been read: the parsed records are
/// the whole list and only that byte remains.
proof fn lemma_chunk_closed(input: Seq<u8>, p: int, parsed: Seq<PetView>, l: Seq<PetView>)
    requires
        input == spec_encode(l),
        valid_pets(parsed),
        valid_pets(l),
        1 <= parsed.len(),
        0 < p < input.len(),
        input.subrange(0, p) == seq![91u8] + spec_items(parsed),
        input[p] == 93,
    ensures
        parsed == l,
        p + 1 == input.len(),
{
    let n = input.len() as int;
    lemma_decode_align(input, p, parsed, l);
    lemma_items_chunk(parsed, l, input.subrange(p, n));
    assert(input.subrange(p, n)[0] == input[p]);
    if parsed.len() < l.len() {
        assert((seq![44u8] + (spec_items(l.skip(parsed.len() as int)) + seq![93u8]))[0] == 44);
        assert(false);
    }
    assert(l.take(l.len() as int) =~= l);
    assert(input.subrange(p, n).len() == 1);
}

/// On a comma, a further record of the list stands right behind it.
#[verifier::rlimit(100)]
proof fn lemma_chunk_next_pet(input: Seq<u8>, p: int, parsed: Seq<PetView>, l: Seq<PetView>)
    requires
        input == spec_encode(l),
        valid_pets(parsed),
        valid_pets(l),
        1 <= parsed.len(),
        0 < p < input.len(),
        input.subrange(0, p) == seq![91u8] + spec_items(parsed),
        input[p] == 44,
    ensures
        parsed.len() < l.len(),
        pet_at(input, p + 1, l[parsed.len() as int]),
{
    let n = input.len() as int;
    let k = parsed.len() as int;
    lemma_decode_align(input, p, parsed, l);
    lemma_items_chunk(parsed, l, input.subrange(p, n));
    assert(input.subrange(p, n)[0] == input[p]);
    if parsed.len() == l.len() {
        assert(input.subrange(p, n) == seq![93u8]);
        assert(false);
    }
    let x = spec_items(l.skip(k)) + seq![93u8];
    assert(input.subrange(p, n) == seq![44u8] + x);
    assert forall|i: int| 0 <= i < x.len() implies input.subrange(p + 1, n)[i] == x[i] by {
        assert(input.subrange(p + 1, n)[i] == input[p + 1 + i]);
        assert(input.subrange(p, n)[i + 1] == input[p + 1 + i]);
        assert((seq![44u8] + x)[i + 1] == x[i]);
    }
    assert(input.subrange(p + 1, n) =~= x);
    assert(bytes_at(input, p + 1, x));
    let rest = l.skip(k);
    assert(rest.len() >= 1);
    assert(rest[0] == l[k]);
    if rest.len() == 1 {
        assert(spec_items(rest) == spec_pet(rest[0]));
        lemma_bytes_at_split(input, p + 1, spec_pet(rest[0]), seq![93u8]);
    } else {
        lemma_items_first(rest);
        assert(x =~= spec_pet(rest[0]) + (seq![44u8] + (spec_items(rest.drop_first())
            + seq![93u8])));
        lemma_bytes_at_split(
            input,
            p + 1,
            spec_pet(rest[0]),
            seq![44u8] + (spec_items(rest.drop_first()) + seq![93u8]),
        );
    }
}

/// The backing file determines the record list: two well-formed lists with
/// the same encoding are the same list, field for field. Together with the
/// contracts of `encode_pets` and `decode_pets`, writing a list to the
/// store and reading the file back always yields that very list.
pub proof fn lemma_store_round_trip(l1: Seq<PetView>, l2: Seq<PetView>)
    requires
        valid_pets(l1),
        valid_pets(l2),
        spec_encode(l1) == spec_encode(l2),
    ensures
        l1 == l2,
{
    assert(spec_encode(l1) =~= seq![91u8] + (spec_items(l1) + seq![93u8]));
    assert(spec_encode(l2) =~= seq![91u8] + (spec_items(l2) + seq![93u8]));
    lemma_cat_strip(
        seq![91u8],
        spec_items(l1) + seq![93u8],
        seq![91u8],
        spec_items(l2) + seq![93u8],
    );
    lemma_items_strip(l1, l2);
}

} // verus!

