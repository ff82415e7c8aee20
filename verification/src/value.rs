//! The JSON value tree, its accessors and its serialization.
use crate::float_text::{decimal_exponent, long_exponent, number_shape, significant_digits};
use crate::number::{
    char_bytes, is_negative, significand,
    canonical_number, canonical_number_text, is_canonical_number, is_number_byte,
    lemma_canonical_number_is_canonical, number_is_valid, valid_number,
};
use crate::text::{hex4, push_char, push_hex4, push_spaces, push_str, spaces};
use crate::error::ErrorModel;
use crate::laws::law_written_text_reads_back;
use crate::parser::parse_text;
use crate::roundtrip::{
    lemma_ascii_encode, items_well_formed, lemma_items_well_formed, lemma_members_well_formed, members_well_formed,
    well_formed,
};
use crate::tokenizer::number_byte;
use vstd::prelude::*;
use vstd::string::StringSliceAdditionalSpecFns;
use vstd::utf8::{encode_utf8, encode_utf8_decode_utf8};

verus! {

/// A JSON value.  A number is kept as the canonical decimal text of the
/// literal it was read from (see the `number` module).
#[derive(Debug, PartialEq)]
pub enum JsonValue {
    Null,
    Boolean(bool),
    Number(JsonNumber),
    String(String),
    Array(Vec<JsonValue>),
    Object(JsonObject),
}

/// A JSON number: the canonical text of a number literal (see the `number`
/// module), which denotes exactly the number that the literal denotes.  Two
/// numbers are equal when they denote the same value (`same_value`), so `-0`
/// equals `0` and `1e5` equals `100000`.
#[derive(Debug)]
pub struct JsonNumber {
    text: String,
}

impl View for JsonNumber {
    type V = Seq<char>;

    closed spec fn view(&self) -> Seq<char> {
        self.text@
    }
}

impl JsonNumber {
    #[verifier::type_invariant]
    spec fn inv(self) -> bool {
        is_canonical_number(self.text@)
    }

    /// The number a literal denotes: `None` unless the float parser accepts
    /// the literal (see `valid_number`), else its canonical text.
    pub fn from_literal(literal: &str) -> (r: Option<JsonNumber>)
        ensures
            r is Some <==> is_number_literal(literal.spec_bytes()),
            r matches Some(n) ==> n@ == canonical_number(literal.spec_bytes()),
    {
        let bytes = literal.as_bytes();
        let mut i: usize = 0;
        while i < bytes.len()
            invariant
                bytes@ == literal.spec_bytes(),
                i <= bytes@.len(),
                forall|k: int| 0 <= k < i ==> is_number_byte(#[trigger] bytes@[k]),
            decreases bytes.len() - i,
        {
            if !number_byte(bytes[i]) {
                assert(!is_number_byte(bytes@[i as int]));
                return None;
            }
            i = i + 1;
        }
        if !number_is_valid(bytes) {
            return None;
        }
        proof {
            lemma_canonical_number_is_canonical(bytes@);
        }
        Some(JsonNumber { text: canonical_number_text(bytes) })
    }

    /// A canonical number text as a number.
    pub(crate) fn from_canonical(text: String) -> (r: JsonNumber)
        requires
            is_canonical_number(text@),
        ensures
            r@ == text@,
    {
        JsonNumber { text }
    }

    /// The canonical text of the number.
    pub fn as_str(&self) -> (r: &str)
        ensures
            r@ == self@,
    {
        self.text.as_str()
    }
}

impl Clone for JsonNumber {
    fn clone(&self) -> (r: Self)
        ensures
            r@ == self@,
    {
        proof {
            use_type_invariant(self);
        }
        JsonNumber { text: self.text.clone() }
    }
}

/// Two accepted literals denote the same value: both are zero (whatever
/// their signs), or they have the same sign, the same significant digits and
/// the same power of ten of their first digit.  Literals with a long exponent
/// (see `long_exponent`), far outside the range of a float, are compared by
/// their text.
pub open spec fn same_value(a: Seq<u8>, b: Seq<u8>) -> bool {
    let da = significant_digits(a);
    let db = significant_digits(b);
    if da.len() == 0 || db.len() == 0 {
        da.len() == 0 && db.len() == 0
    } else if long_exponent(a) || long_exponent(b) {
        a == b
    } else {
        &&& is_negative(significand(a)) == is_negative(significand(b))
        &&& da == db
        &&& decimal_exponent(a) == decimal_exponent(b)
    }
}

/// Whether two runs of bytes are equal.
fn same_bytes(a: &[u8], b: &[u8]) -> (r: bool)
    ensures
        r == (a@ == b@),
{
    if a.len() != b.len() {
        return false;
    }
    let mut i: usize = 0;
    while i < a.len()
        invariant
            a@.len() == b@.len(),
            i <= a@.len(),
            forall|k: int| 0 <= k < i ==> a@[k] == b@[k],
        decreases a.len() - i,
    {
        if a[i] != b[i] {
            return false;
        }
        i = i + 1;
    }
    assert(a@ =~= b@);
    true
}

/// Whether two canonical number texts denote the same value.
fn numbers_equal(a: &str, b: &str) -> (r: bool)
    requires
        is_canonical_number(a@),
        is_canonical_number(b@),
    ensures
        r == same_value(char_bytes(a@), char_bytes(b@)),
{
    proof {
        lemma_canonical_number_is_canonical(char_bytes(a@));
        lemma_canonical_number_is_canonical(char_bytes(b@));
        lemma_ascii_encode(a@);
        lemma_ascii_encode(b@);
    }
    let x = a.as_bytes();
    let y = b.as_bytes();
    let (xneg, xlit, xlead, xstop, xe) = number_shape(x);
    let (yneg, ylit, ylead, ystop, ye) = number_shape(y);
    if xlead == xstop || ylead == ystop {
        return xlead == xstop && ylead == ystop;
    }
    match (xe, ye) {
        (Some(ex), Some(ey)) => {
            xneg == yneg && same_bytes(&xlit.as_slice()[xlead..xstop], &ylit.as_slice()[ylead..ystop])
                && ex == ey
        },
        _ => same_bytes(x, y),
    }
}

impl PartialEq for JsonNumber {
    fn eq(&self, other: &Self) -> (r: bool) {
        proof {
            use_type_invariant(self);
            use_type_invariant(other);
        }
        numbers_equal(self.text.as_str(), other.text.as_str())
    }
}

impl vstd::std_specs::cmp::PartialEqSpecImpl for JsonNumber {
    open spec fn obeys_eq_spec() -> bool {
        true
    }

    open spec fn eq_spec(&self, other: &Self) -> bool {
        same_value(char_bytes(self@), char_bytes(other@))
    }
}

/// Whether a run of bytes is a number literal that the float parser accepts.
pub open spec fn is_number_literal(b: Seq<u8>) -> bool {
    &&& forall|k: int| 0 <= k < b.len() ==> is_number_byte(#[trigger] b[k])
    &&& valid_number(b)
}

/// The members of a JSON object, kept in the order of their keys (the
/// lexicographic order of the keys' UTF-8 bytes).  Inserting a key that is
/// already present replaces its value, so no key occurs twice; and since the
/// order does not depend on the order of insertion, two objects with the same
/// members are equal.
#[derive(Debug, PartialEq)]
pub struct JsonObject {
    entries: Vec<(String, JsonValue)>,
}

/// The mathematical content of a [`JsonValue`].
pub enum ValueModel {
    Null,
    Boolean(bool),
    Number(Seq<char>),
    String(Seq<char>),
    Array(Seq<ValueModel>),
    Object(Seq<(Seq<char>, ValueModel)>),
}

impl JsonValue {
    pub closed spec fn model(self) -> ValueModel
        decreases self,
    {
        match self {
            JsonValue::Null => ValueModel::Null,
            JsonValue::Boolean(b) => ValueModel::Boolean(b),
            JsonValue::Number(n) => ValueModel::Number(n@),
            JsonValue::String(s) => ValueModel::String(s@),
            JsonValue::Array(items) => ValueModel::Array(
                Seq::new(
                    items.len() as nat,
                    |i: int|
                        if 0 <= i < items.len() {
                            items@[i].model()
                        } else {
                            ValueModel::Null
                        },
                ),
            ),
            JsonValue::Object(obj) => ValueModel::Object(
                Seq::new(
                    obj.entries.len() as nat,
                    |i: int|
                        if 0 <= i < obj.entries.len() {
                            (obj.entries@[i].0@, obj.entries@[i].1.model())
                        } else {
                            (Seq::empty(), ValueModel::Null)
                        },
                ),
            ),
        }
    }
}

impl View for JsonValue {
    type V = ValueModel;

    open spec fn view(&self) -> ValueModel {
        self.model()
    }
}

impl View for JsonObject {
    type V = Seq<(Seq<char>, ValueModel)>;

    closed spec fn view(&self) -> Seq<(Seq<char>, ValueModel)> {
        self.entries@.map_values(|e: (String, JsonValue)| (e.0@, e.1@))
    }
}

pub proof fn lemma_object_model(obj: JsonObject)
    ensures
        JsonValue::Object(obj)@ == ValueModel::Object(obj@),
{
    assert(JsonValue::Object(obj)@->Object_0 =~= obj@);
}

/// The model of an array is the sequence of the models of its elements.
pub proof fn lemma_array_model(items: Vec<JsonValue>)
    ensures
        JsonValue::Array(items)@ == ValueModel::Array(items@.map_values(|v: JsonValue| v@)),
{
    assert(JsonValue::Array(items)@->Array_0 =~= items@.map_values(|v: JsonValue| v@));
}

/// The models of the scalar values.
pub proof fn lemma_scalar_models()
    ensures
        JsonValue::Null@ == ValueModel::Null,
        forall|b: bool| #[trigger] JsonValue::Boolean(b)@ == ValueModel::Boolean(b),
        forall|n: JsonNumber| #[trigger] JsonValue::Number(n)@ == ValueModel::Number(n@),
        forall|s: String| #[trigger] JsonValue::String(s)@ == ValueModel::String(s@),
{
}

// ---------------------------------------------------------------------------
// Objects
// ---------------------------------------------------------------------------
/// Index of the first member whose key is `k`, searching from `i`.
pub open spec fn find_key_from(es: Seq<(Seq<char>, ValueModel)>, k: Seq<char>, i: int) -> Option<int>
    decreases es.len() - i,
{
    if i < 0 || i >= es.len() {
        None
    } else if es[i].0 == k {
        Some(i)
    } else {
        find_key_from(es, k, i + 1)
    }
}

/// Index of the first member whose key is `k`.
pub open spec fn find_key(es: Seq<(Seq<char>, ValueModel)>, k: Seq<char>) -> Option<int> {
    find_key_from(es, k, 0)
}

/// The value of key `k` in an object.
pub open spec fn lookup(es: Seq<(Seq<char>, ValueModel)>, k: Seq<char>) -> Option<ValueModel> {
    match find_key(es, k) {
        Some(i) => Some(es[i].1),
        None => None,
    }
}

/// The first member with key `k` is at `i`.
pub proof fn lemma_find_key_at(es: Seq<(Seq<char>, ValueModel)>, k: Seq<char>, i: int)
    requires
        0 <= i < es.len(),
        es[i].0 == k,
        forall|m: int| 0 <= m < i ==> #[trigger] es[m].0 != k,
    ensures
        find_key(es, k) == Some(i),
{
    lemma_find_key_from(es, k, 0);
    if let Some(j) = find_key(es, k) {
        assert(!(j < i));
    }
}

/// No member has key `k`.
pub proof fn lemma_find_key_none(es: Seq<(Seq<char>, ValueModel)>, k: Seq<char>)
    requires
        forall|m: int| 0 <= m < es.len() ==> #[trigger] es[m].0 != k,
    ensures
        find_key(es, k) is None,
{
    lemma_find_key_from(es, k, 0);
}

/// Lexicographic order on byte sequences: `a` comes before `b`.
pub open spec fn bytes_before(a: Seq<u8>, b: Seq<u8>) -> bool
    decreases a.len(),
{
    if b.len() == 0 {
        false
    } else if a.len() == 0 {
        true
    } else if a[0] != b[0] {
        a[0] < b[0]
    } else {
        bytes_before(a.drop_first(), b.drop_first())
    }
}

/// The order of keys: the lexicographic order of their UTF-8 bytes.
pub open spec fn key_before(a: Seq<char>, b: Seq<char>) -> bool {
    bytes_before(encode_utf8(a), encode_utf8(b))
}

/// The keys are in strictly increasing order (so no key occurs twice).
pub open spec fn keys_ordered(es: Seq<(Seq<char>, ValueModel)>) -> bool {
    forall|i: int, j: int| 0 <= i < j < es.len() ==> key_before(#[trigger] es[i].0, #[trigger] es[j].0)
}

/// Index of the first member, from `i` on, whose key does not come before
/// `k`; the length when there is none.
pub open spec fn slot_from(es: Seq<(Seq<char>, ValueModel)>, k: Seq<char>, i: int) -> int
    decreases es.len() - i,
{
    if i < 0 || i >= es.len() {
        es.len() as int
    } else if key_before(es[i].0, k) {
        slot_from(es, k, i + 1)
    } else {
        i
    }
}

/// Where a new key `k` goes among the members.
pub open spec fn slot(es: Seq<(Seq<char>, ValueModel)>, k: Seq<char>) -> int {
    slot_from(es, k, 0)
}

/// The members after inserting `k` with value `v`: the value of an existing
/// key is replaced in place, a new key goes before the first key that does
/// not come before it.
pub open spec fn object_insert(es: Seq<(Seq<char>, ValueModel)>, k: Seq<char>, v: ValueModel) -> Seq<
    (Seq<char>, ValueModel),
> {
    match find_key(es, k) {
        Some(i) => es.update(i, (k, v)),
        None => es.insert(slot(es, k), (k, v)),
    }
}

/// The members of `es` after inserting each of `ms` in turn.
pub open spec fn insert_all(es: Seq<(Seq<char>, ValueModel)>, ms: Seq<(Seq<char>, ValueModel)>) -> Seq<
    (Seq<char>, ValueModel),
>
    decreases ms.len(),
{
    if ms.len() == 0 {
        es
    } else {
        insert_all(object_insert(es, ms[0].0, ms[0].1), ms.drop_first())
    }
}

/// The value of the last of `ms` whose key is `k`, if any.
pub open spec fn last_value(ms: Seq<(Seq<char>, ValueModel)>, k: Seq<char>) -> Option<ValueModel>
    decreases ms.len(),
{
    if ms.len() == 0 {
        None
    } else {
        match last_value(ms.drop_first(), k) {
            Some(v) => Some(v),
            None => if ms[0].0 == k {
                Some(ms[0].1)
            } else {
                None
            },
        }
    }
}

/// No key occurs twice.
pub open spec fn distinct_keys(es: Seq<(Seq<char>, ValueModel)>) -> bool {
    forall|i: int, j: int| 0 <= i < j < es.len() ==> #[trigger] es[i].0 != #[trigger] es[j].0
}

pub proof fn lemma_find_key_from(es: Seq<(Seq<char>, ValueModel)>, k: Seq<char>, i: int)
    requires
        0 <= i,
    ensures
        find_key_from(es, k, i) matches Some(j) ==> i <= j < es.len() && es[j].0 == k && forall|
            m: int,
        | i <= m < j ==> #[trigger] es[m].0 != k,
        find_key_from(es, k, i) is None ==> forall|m: int| i <= m < es.len() ==> #[trigger] es[m].0 != k,
    decreases es.len() - i,
{
    if i < es.len() && es[i].0 != k {
        lemma_find_key_from(es, k, i + 1);
    }
}

proof fn lemma_bytes_before_irreflexive(a: Seq<u8>)
    ensures
        !bytes_before(a, a),
    decreases a.len(),
{
    if a.len() > 0 {
        lemma_bytes_before_irreflexive(a.drop_first());
    }
}

proof fn lemma_bytes_before_transitive(a: Seq<u8>, b: Seq<u8>, c: Seq<u8>)
    requires
        bytes_before(a, b),
        bytes_before(b, c),
    ensures
        bytes_before(a, c),
    decreases a.len(),
{
    if a.len() > 0 && a[0] == b[0] && b[0] == c[0] {
        lemma_bytes_before_transitive(a.drop_first(), b.drop_first(), c.drop_first());
    }
}

proof fn lemma_bytes_before_total(a: Seq<u8>, b: Seq<u8>)
    requires
        a != b,
    ensures
        bytes_before(a, b) || bytes_before(b, a),
    decreases a.len(),
{
    if a.len() == 0 {
        if b.len() == 0 {
            assert(a =~= b);
        }
    } else if b.len() > 0 && a[0] == b[0] {
        assert(a.drop_first() != b.drop_first()) by {
            if a.drop_first() == b.drop_first() {
                assert(a =~= seq![a[0]] + a.drop_first());
                assert(b =~= seq![b[0]] + b.drop_first());
            }
        }
        lemma_bytes_before_total(a.drop_first(), b.drop_first());
    }
}

/// `key_before` is a strict total order.
pub proof fn lemma_key_order(a: Seq<char>, b: Seq<char>, c: Seq<char>)
    ensures
        !key_before(a, a),
        key_before(a, b) && key_before(b, c) ==> key_before(a, c),
        a != b ==> key_before(a, b) || key_before(b, a),
        key_before(a, b) ==> !key_before(b, a),
{
    lemma_bytes_before_irreflexive(encode_utf8(a));
    if key_before(a, b) && key_before(b, c) {
        lemma_bytes_before_transitive(encode_utf8(a), encode_utf8(b), encode_utf8(c));
    }
    if key_before(a, b) && key_before(b, a) {
        lemma_bytes_before_transitive(encode_utf8(a), encode_utf8(b), encode_utf8(a));
    }
    if a != b {
        encode_utf8_decode_utf8(a);
        encode_utf8_decode_utf8(b);
        lemma_bytes_before_total(encode_utf8(a), encode_utf8(b));
    }
}

/// Ordered keys are distinct.
pub proof fn lemma_ordered_distinct(es: Seq<(Seq<char>, ValueModel)>)
    requires
        keys_ordered(es),
    ensures
        distinct_keys(es),
{
    assert forall|i: int, j: int| 0 <= i < j < es.len() implies #[trigger] es[i].0 != #[trigger] es[j].0 by {
        lemma_key_order(es[i].0, es[j].0, es[j].0);
    }
}

pub proof fn lemma_slot_from(es: Seq<(Seq<char>, ValueModel)>, k: Seq<char>, i: int)
    requires
        0 <= i <= es.len(),
    ensures
        i <= slot_from(es, k, i) <= es.len(),
        forall|m: int| i <= m < slot_from(es, k, i) ==> key_before(#[trigger] es[m].0, k),
        slot_from(es, k, i) < es.len() ==> !key_before(es[slot_from(es, k, i)].0, k),
    decreases es.len() - i,
{
    if i < es.len() && key_before(es[i].0, k) {
        lemma_slot_from(es, k, i + 1);
    }
}

/// Inserting into members whose keys are in order keeps them in order.
pub proof fn lemma_object_insert_ordered(es: Seq<(Seq<char>, ValueModel)>, k: Seq<char>, v: ValueModel)
    requires
        keys_ordered(es),
    ensures
        keys_ordered(object_insert(es, k, v)),
{
    lemma_find_key_from(es, k, 0);
    let r = object_insert(es, k, v);
    match find_key(es, k) {
        Some(x) => {
            assert forall|i: int, j: int| 0 <= i < j < r.len() implies key_before(#[trigger] r[i].0, #[trigger] r[j].0) by {
                assert(r[i].0 == es[i].0);
                assert(r[j].0 == es[j].0);
            }
        },
        None => {
            let s = slot(es, k);
            lemma_slot_from(es, k, 0);
            assert forall|m: int| s <= m < es.len() implies key_before(k, #[trigger] es[m].0) by {
                lemma_key_order(es[s].0, k, k);
                lemma_key_order(k, es[s].0, es[m].0);
                assert(es[s].0 != k);
                if m > s {
                    assert(key_before(es[s].0, es[m].0));
                }
            }
            assert forall|i: int, j: int| 0 <= i < j < r.len() implies key_before(#[trigger] r[i].0, #[trigger] r[j].0) by {
                if j < s {
                    assert(r[i] == es[i] && r[j] == es[j]);
                } else if j == s {
                    assert(r[i] == es[i]);
                } else if i < s {
                    assert(r[i] == es[i] && r[j] == es[j - 1]);
                } else if i == s {
                    assert(r[j] == es[j - 1]);
                } else {
                    assert(r[i] == es[i - 1] && r[j] == es[j - 1]);
                }
            }
        },
    }
}

/// Whether two texts are equal, compared byte by byte.
pub(crate) fn same_text(a: &str, b: &str) -> (r: bool)
    ensures
        r == (a@ == b@),
{
    let x = a.as_bytes();
    let y = b.as_bytes();
    proof {
        encode_utf8_decode_utf8(a@);
        encode_utf8_decode_utf8(b@);
    }
    if x.len() != y.len() {
        return false;
    }
    let mut i: usize = 0;
    while i < x.len()
        invariant
            x@ == a.spec_bytes(),
            y@ == b.spec_bytes(),
            x@.len() == y@.len(),
            i <= x@.len(),
            forall|k: int| 0 <= k < i ==> x@[k] == y@[k],
        decreases x.len() - i,
    {
        if x[i] != y[i] {
            return false;
        }
        i = i + 1;
    }
    assert(x@ =~= y@);
    true
}

/// Whether key `a` comes before key `b`.
fn key_precedes(a: &str, b: &str) -> (r: bool)
    ensures
        r == key_before(a@, b@),
{
    let x = a.as_bytes();
    let y = b.as_bytes();
    let mut i: usize = 0;
    assert(x@.skip(0) =~= x@);
    assert(y@.skip(0) =~= y@);
    while i < x.len() && i < y.len() && x[i] == y[i]
        invariant
            x@ == a.spec_bytes(),
            y@ == b.spec_bytes(),
            i <= x@.len(),
            i <= y@.len(),
            bytes_before(x@, y@) == bytes_before(x@.skip(i as int), y@.skip(i as int)),
        decreases x.len() - i,
    {
        assert(x@.skip(i as int).drop_first() =~= x@.skip(i + 1));
        assert(y@.skip(i as int).drop_first() =~= y@.skip(i + 1));
        i = i + 1;
    }
    if i == y.len() {
        false
    } else if i == x.len() {
        true
    } else {
        x[i] < y[i]
    }
}

impl JsonObject {
    /// The keys of an object are in increasing order; in particular no key
    /// occurs twice.
    #[verifier::type_invariant]
    spec fn keys_in_order(self) -> bool {
        keys_ordered(self@)
    }

    /// An object with no members.
    pub fn new() -> (r: Self)
        ensures
            r@ == Seq::<(Seq<char>, ValueModel)>::empty(),
    {
        JsonObject { entries: Vec::new() }
    }

    /// The number of members.
    pub fn len(&self) -> (r: usize)
        ensures
            r == self@.len(),
    {
        self.entries.len()
    }

    pub fn is_empty(&self) -> (r: bool)
        ensures
            r == (self@.len() == 0),
    {
        self.entries.len() == 0
    }

    /// The members, in the order of their keys.
    pub fn entries(&self) -> (r: &[(String, JsonValue)])
        ensures
            keys_ordered(self@),
            distinct_keys(self@),
            r@.len() == self@.len(),
            forall|i: int| 0 <= i < r@.len() ==> (#[trigger] r@[i]).0@ == self@[i].0 && r@[i].1@ == self@[i].1,
    {
        proof {
            use_type_invariant(self);
            lemma_ordered_distinct(self@);
        }
        self.entries.as_slice()
    }

    /// Index of the member with key `key`.
    fn position_of(&self, key: &str) -> (r: Option<usize>)
        ensures
            match find_key(self@, key@) {
                Some(i) => r matches Some(k) && k as int == i,
                None => r is None,
            },
            r matches Some(i) ==> i < self@.len() && i < self.entries@.len() && self@[i as int].0 == key@,
    {
        proof {
            lemma_find_key_from(self@, key@, 0);
        }
        let mut i: usize = 0;
        while i < self.entries.len()
            invariant
                i <= self.entries@.len(),
                find_key(self@, key@) == find_key_from(self@, key@, i as int),
            decreases self.entries.len() - i,
        {
            if same_text(self.entries[i].0.as_str(), key) {
                return Some(i);
            }
            i = i + 1;
        }
        None
    }

    /// Where a new key `key` goes: before the first key that does not come before it.
    fn slot_of(&self, key: &str) -> (r: usize)
        ensures
            r == slot(self@, key@),
            r <= self@.len(),
    {
        proof {
            lemma_slot_from(self@, key@, 0);
        }
        let mut i: usize = 0;
        while i < self.entries.len()
            invariant
                i <= self.entries@.len(),
                slot(self@, key@) == slot_from(self@, key@, i as int),
            decreases self.entries.len() - i,
        {
            if !key_precedes(self.entries[i].0.as_str(), key) {
                return i;
            }
            i = i + 1;
        }
        i
    }

    /// The value of key `key`, if present.
    pub fn get(&self, key: &str) -> (r: Option<&JsonValue>)
        ensures
            match lookup(self@, key@) {
                Some(v) => r matches Some(x) && x@ == v,
                None => r is None,
            },
    {
        match self.position_of(key) {
            Some(i) => Some(&self.entries[i].1),
            None => None,
        }
    }

    /// Sets the value of `key`.  An existing key keeps its place and its
    /// previous value is returned; a new key goes to its place in the order
    /// of the keys.
    pub fn insert(&mut self, key: String, value: JsonValue) -> (r: Option<JsonValue>)
        ensures
            final(self)@ == object_insert(old(self)@, key@, value@),
            match find_key(old(self)@, key@) {
                Some(i) => r matches Some(x) && x@ == old(self)@[i].1,
                None => r is None,
            },
            keys_ordered(final(self)@),
    {
        proof {
            use_type_invariant(&*self);
            lemma_object_insert_ordered(self@, key@, value@);
        }
        let ghost key_view = key@;
        let ghost value_view = value@;
        let ghost before = self@;
        let position = self.position_of(key.as_str());
        let place = self.slot_of(key.as_str());
        let mut entries: Vec<(String, JsonValue)> = Vec::new();
        core::mem::swap(&mut entries, &mut self.entries);
        assert(entries@.map_values(|e: (String, JsonValue)| (e.0@, e.1@)) == before);
        let result = match position {
            Some(i) => {
                let ghost old_entries = entries@;
                let (old_key, old_value) = entries.remove(i);
                entries.insert(i, (old_key, value));
                proof {
                    assert(old_value == old_entries[i as int].1);
                    assert(entries@ =~= old_entries.update(i as int, (old_key, value)));
                    assert(old_key@ == key_view);
                    assert(find_key(before, key_view) == Some(i as int));
                    let expected = before.update(i as int, (key_view, value_view));
                    let now = entries@.map_values(|e: (String, JsonValue)| (e.0@, e.1@));
                    assert(now.len() == expected.len());
                    assert forall|j: int| 0 <= j < now.len() implies now[j] == expected[j] by {
                        if j == i {
                            assert(entries@[j] == (old_key, value));
                        } else {
                            assert(entries@[j] == old_entries[j]);
                        }
                    }
                    assert(now =~= expected);
                }
                Some(old_value)
            },
            None => {
                let ghost old_entries = entries@;
                entries.insert(place, (key, value));
                proof {
                    let expected = before.insert(place as int, (key_view, value_view));
                    let now = entries@.map_values(|e: (String, JsonValue)| (e.0@, e.1@));
                    assert(entries@ =~= old_entries.insert(place as int, (key, value)));
                    assert(now.len() == expected.len());
                    assert forall|j: int| 0 <= j < now.len() implies now[j] == expected[j] by {
                        if j < place {
                            assert(entries@[j] == old_entries[j]);
                        } else if j > place {
                            assert(entries@[j] == old_entries[j - 1]);
                        }
                    }
                    assert(now =~= expected);
                }
                None
            },
        };
        self.entries = entries;
        result
    }
}

/// A copy of a value.
fn clone_value(v: &JsonValue) -> (r: JsonValue)
    ensures
        r@ == v@,
    decreases v,
{
    match v {
        JsonValue::Null => JsonValue::Null,
        JsonValue::Boolean(b) => JsonValue::Boolean(*b),
        JsonValue::Number(n) => JsonValue::Number(n.clone()),
        JsonValue::String(t) => JsonValue::String(t.clone()),
        JsonValue::Array(items) => {
            let copy = clone_items(items);
            proof {
                lemma_array_model(*items);
                lemma_array_model(copy);
                assert(copy@.map_values(|x: JsonValue| x@) =~= items@.map_values(|x: JsonValue| x@));
            }
            JsonValue::Array(copy)
        },
        JsonValue::Object(obj) => {
            proof {
                use_type_invariant(obj);
            }
            let entries = clone_entries(&obj.entries);
            let copy = JsonObject { entries };
            proof {
                lemma_object_model(*obj);
                lemma_object_model(copy);
            }
            JsonValue::Object(copy)
        },
    }
}

/// Copies of the elements of an array.
fn clone_items(items: &Vec<JsonValue>) -> (r: Vec<JsonValue>)
    ensures
        r@.len() == items@.len(),
        forall|i: int| 0 <= i < items@.len() ==> (#[trigger] r@[i])@ == items@[i]@,
    decreases items,
{
    let mut out: Vec<JsonValue> = Vec::new();
    let mut i: usize = 0;
    while i < items.len()
        invariant
            i <= items@.len(),
            out@.len() == i,
            forall|k: int| 0 <= k < i ==> (#[trigger] out@[k])@ == items@[k]@,
        decreases items.len() - i,
    {
        out.push(clone_value(&items[i]));
        i = i + 1;
    }
    out
}

/// Copies of the members of an object.
fn clone_entries(entries: &Vec<(String, JsonValue)>) -> (r: Vec<(String, JsonValue)>)
    ensures
        r@.map_values(|e: (String, JsonValue)| (e.0@, e.1@)) == entries@.map_values(
            |e: (String, JsonValue)| (e.0@, e.1@),
        ),
    decreases entries,
{
    let mut out: Vec<(String, JsonValue)> = Vec::new();
    let mut i: usize = 0;
    while i < entries.len()
        invariant
            i <= entries@.len(),
            out@.len() == i,
            forall|k: int| 0 <= k < i ==> (#[trigger] out@[k]).0@ == entries@[k].0@ && out@[k].1@ == entries@[k].1@,
        decreases entries.len() - i,
    {
        let key = entries[i].0.clone();
        let value = clone_value(&entries[i].1);
        out.push((key, value));
        i = i + 1;
    }
    assert(out@.map_values(|e: (String, JsonValue)| (e.0@, e.1@)) =~= entries@.map_values(
        |e: (String, JsonValue)| (e.0@, e.1@),
    ));
    out
}

impl Clone for JsonValue {
    fn clone(&self) -> (r: Self)
        ensures
            r@ == self@,
    {
        clone_value(self)
    }
}

impl Clone for JsonObject {
    fn clone(&self) -> (r: Self)
        ensures
            r@ == self@,
    {
        proof {
            use_type_invariant(self);
        }
        JsonObject { entries: clone_entries(&self.entries) }
    }
}

// ---------------------------------------------------------------------------
// Accessors
// ---------------------------------------------------------------------------
impl JsonValue {
    pub fn is_null(&self) -> (r: bool)
        ensures
            r == (self@ is Null),
    {
        match self {
            JsonValue::Null => true,
            _ => false,
        }
    }

    pub fn as_str(&self) -> (r: Option<&str>)
        ensures
            match self@ {
                ValueModel::String(s) => r matches Some(x) && x@ == s,
                _ => r is None,
            },
    {
        match self {
            JsonValue::String(s) => Some(s.as_str()),
            _ => None,
        }
    }

    /// The canonical decimal text of a number.
    pub fn as_number(&self) -> (r: Option<&str>)
        ensures
            match self@ {
                ValueModel::Number(n) => r matches Some(x) && x@ == n,
                _ => r is None,
            },
    {
        match self {
            JsonValue::Number(n) => Some(n.as_str()),
            _ => None,
        }
    }

    pub fn as_bool(&self) -> (r: Option<bool>)
        ensures
            match self@ {
                ValueModel::Boolean(b) => r == Some(b),
                _ => r is None,
            },
    {
        match self {
            JsonValue::Boolean(b) => Some(*b),
            _ => None,
        }
    }

    pub fn as_array(&self) -> (r: Option<&Vec<JsonValue>>)
        ensures
            match self@ {
                ValueModel::Array(items) => r matches Some(a) && a@.len() == items.len() && forall|
                    i: int,
                | 0 <= i < items.len() ==> (#[trigger] a@[i])@ == items[i],
                _ => r is None,
            },
    {
        match self {
            JsonValue::Array(arr) => Some(arr),
            _ => None,
        }
    }

    pub fn as_object(&self) -> (r: Option<&JsonObject>)
        ensures
            match self@ {
                ValueModel::Object(es) => r matches Some(o) && o@ == es,
                _ => r is None,
            },
    {
        match self {
            JsonValue::Object(obj) => {
                proof {
                    lemma_object_model(*obj);
                }
                Some(obj)
            },
            _ => None,
        }
    }

    /// The value of member `key` of an object.
    pub fn get(&self, key: &str) -> (r: Option<&JsonValue>)
        ensures
            match self@ {
                ValueModel::Object(es) => match lookup(es, key@) {
                    Some(v) => r matches Some(x) && x@ == v,
                    None => r is None,
                },
                _ => r is None,
            },
    {
        match self {
            JsonValue::Object(obj) => {
                proof {
                    lemma_object_model(*obj);
                }
                obj.get(key)
            },
            _ => None,
        }
    }

    /// Element `index` of an array.
    pub fn get_index(&self, index: usize) -> (r: Option<&JsonValue>)
        ensures
            match self@ {
                ValueModel::Array(items) => if index < items.len() {
                    r matches Some(x) && x@ == items[index as int]
                } else {
                    r is None
                },
                _ => r is None,
            },
    {
        match self {
            JsonValue::Array(arr) => if index < arr.len() {
                Some(&arr[index])
            } else {
                None
            },
            _ => None,
        }
    }
}

// ---------------------------------------------------------------------------
// Serialization
// ---------------------------------------------------------------------------
/// How a character is written inside a string literal.
pub open spec fn escape_char(c: char) -> Seq<char> {
    if c == '"' {
        seq!['\\', '"']
    } else if c == '\\' {
        seq!['\\', '\\']
    } else if c == '\n' {
        seq!['\\', 'n']
    } else if c == '\r' {
        seq!['\\', 'r']
    } else if c == '\t' {
        seq!['\\', 't']
    } else if c == '\u{8}' {
        seq!['\\', 'b']
    } else if c == '\u{c}' {
        seq!['\\', 'f']
    } else if (c as u32) < 0x20 {
        seq!['\\', 'u'] + hex4(c as nat, false)
    } else {
        seq![c]
    }
}

/// The escaped text of a string's characters.
pub open spec fn escape_chars(s: Seq<char>) -> Seq<char>
    decreases s.len(),
{
    if s.len() == 0 {
        seq![]
    } else {
        escape_chars(s.drop_last()) + escape_char(s.last())
    }
}

/// A string literal.
pub open spec fn quoted(s: Seq<char>) -> Seq<char> {
    seq!['"'] + escape_chars(s) + seq!['"']
}

/// The indentation step: the indent when pretty-printing, zero otherwise.
pub open spec fn step(indent: Option<nat>) -> nat {
    match indent {
        Some(k) => k,
        None => 0,
    }
}

/// A line break when pretty-printing, nothing otherwise.
pub open spec fn newline(indent: Option<nat>) -> Seq<char> {
    if indent is Some {
        seq!['\n']
    } else {
        seq![]
    }
}

/// `n` spaces when pretty-printing, nothing otherwise.
pub open spec fn pad(indent: Option<nat>, n: nat) -> Seq<char> {
    if indent is Some {
        spaces(n)
    } else {
        seq![]
    }
}

pub open spec fn separator(i: int) -> Seq<char> {
    if i > 0 {
        seq![',']
    } else {
        seq![]
    }
}

/// What comes before the closing bracket of a container with `n` members.
pub open spec fn closing(n: nat, indent: Option<nat>, current: nat) -> Seq<char> {
    if n > 0 {
        newline(indent) + pad(indent, current)
    } else {
        seq![]
    }
}

/// The text of a value: compact when `indent` is `None`, else with one member
/// per line, nested members indented by `indent` more spaces than their
/// container, which itself stands at indentation `current`.
pub open spec fn render(v: ValueModel, indent: Option<nat>, current: nat) -> Seq<char>
    decreases v, 0int,
{
    let inner = current + step(indent);
    match v {
        ValueModel::Null => "null"@,
        ValueModel::Boolean(b) => if b {
            "true"@
        } else {
            "false"@
        },
        ValueModel::Number(n) => n,
        ValueModel::String(s) => quoted(s),
        ValueModel::Array(items) => seq!['['] + render_items(items, indent, inner, 0) + closing(
            items.len(),
            indent,
            current,
        ) + seq![']'],
        ValueModel::Object(es) => seq!['{'] + render_members(es, indent, inner, 0) + closing(
            es.len(),
            indent,
            current,
        ) + seq!['}'],
    }
}

/// The elements of an array from index `i` on.
pub open spec fn render_items(items: Seq<ValueModel>, indent: Option<nat>, inner: nat, i: int) -> Seq<
    char,
>
    decreases items, items.len() - i,
{
    if i < 0 || i >= items.len() {
        seq![]
    } else {
        separator(i) + newline(indent) + pad(indent, inner) + render(items[i], indent, inner)
            + render_items(items, indent, inner, i + 1)
    }
}

/// The members of an object from index `i` on.
pub open spec fn render_members(
    es: Seq<(Seq<char>, ValueModel)>,
    indent: Option<nat>,
    inner: nat,
    i: int,
) -> Seq<char>
    decreases es, es.len() - i,
{
    if i < 0 || i >= es.len() {
        seq![]
    } else {
        separator(i) + newline(indent) + pad(indent, inner) + quoted(es[i].0) + seq![':'] + render(
            es[i].1,
            indent,
            inner,
        ) + render_members(es, indent, inner, i + 1)
    }
}

/// The indentation of the members of a container that stands at `current`.
pub open spec fn inner_indent(indent: Option<nat>, current: nat) -> nat {
    current + step(indent)
}

/// Whether every indentation met while writing `v` fits in a `usize`.
pub open spec fn fits(v: ValueModel, indent: Option<nat>, current: nat) -> bool
    decreases v, 0int,
{
    &&& inner_indent(indent, current) <= usize::MAX
    &&& match v {
        ValueModel::Array(items) => fits_items(items, indent, inner_indent(indent, current), 0),
        ValueModel::Object(es) => fits_members(es, indent, inner_indent(indent, current), 0),
        _ => true,
    }
}

/// Whether the elements of an array from index `i` on fit.
pub open spec fn fits_items(items: Seq<ValueModel>, indent: Option<nat>, inner: nat, i: int) -> bool
    decreases items, items.len() - i,
{
    if i < 0 || i >= items.len() {
        true
    } else {
        fits(items[i], indent, inner) && fits_items(items, indent, inner, i + 1)
    }
}

/// Whether the members of an object from index `i` on fit.
pub open spec fn fits_members(es: Seq<(Seq<char>, ValueModel)>, indent: Option<nat>, inner: nat, i: int) -> bool
    decreases es, es.len() - i,
{
    if i < 0 || i >= es.len() {
        true
    } else {
        fits(es[i].1, indent, inner) && fits_members(es, indent, inner, i + 1)
    }
}

pub open spec fn indent_model(indent: Option<usize>) -> Option<nat> {
    match indent {
        Some(k) => Some(k as nat),
        None => None,
    }
}

/// Without indentation everything fits.
pub proof fn lemma_fits_compact(v: ValueModel, current: nat)
    requires
        current <= usize::MAX,
    ensures
        fits(v, None, current),
    decreases v, 0int,
{
    match v {
        ValueModel::Array(items) => lemma_fits_compact_items(items, current, 0),
        ValueModel::Object(es) => lemma_fits_compact_members(es, current, 0),
        _ => {},
    }
}

proof fn lemma_fits_compact_items(items: Seq<ValueModel>, current: nat, i: int)
    requires
        current <= usize::MAX,
    ensures
        fits_items(items, None, current, i),
    decreases items, items.len() - i,
{
    if 0 <= i < items.len() {
        lemma_fits_compact(items[i], current);
        lemma_fits_compact_items(items, current, i + 1);
    }
}

proof fn lemma_fits_compact_members(es: Seq<(Seq<char>, ValueModel)>, current: nat, i: int)
    requires
        current <= usize::MAX,
    ensures
        fits_members(es, None, current, i),
    decreases es, es.len() - i,
{
    if 0 <= i < es.len() {
        lemma_fits_compact(es[i].1, current);
        lemma_fits_compact_members(es, current, i + 1);
    }
}

fn write_escaped_char(out: &mut String, c: char)
    ensures
        final(out)@ == old(out)@ + escape_char(c),
{
    if c == '"' {
        push_char(out, '\\');
        push_char(out, '"');
    } else if c == '\\' {
        push_char(out, '\\');
        push_char(out, '\\');
    } else if c == '\n' {
        push_char(out, '\\');
        push_char(out, 'n');
    } else if c == '\r' {
        push_char(out, '\\');
        push_char(out, 'r');
    } else if c == '\t' {
        push_char(out, '\\');
        push_char(out, 't');
    } else if c == '\u{8}' {
        push_char(out, '\\');
        push_char(out, 'b');
    } else if c == '\u{c}' {
        push_char(out, '\\');
        push_char(out, 'f');
    } else if (c as u32) < 0x20 {
        push_char(out, '\\');
        push_char(out, 'u');
        push_hex4(out, c as u32, false);
    } else {
        push_char(out, c);
    }
}

/// Writes a string literal.
fn write_json_string(out: &mut String, s: &str)
    ensures
        final(out)@ == old(out)@ + quoted(s@),
{
    let ghost start = out@;
    push_char(out, '"');
    for c in it: s.chars()
        invariant
            it.seq() == s@,
            out@ == start + seq!['"'] + escape_chars(s@.take(it.index())),
    {
        let ghost before = out@;
        write_escaped_char(out, c);
        proof {
            let k = it.index();
            assert(s@.take(k + 1).drop_last() =~= s@.take(k));
            assert(out@ =~= start + seq!['"'] + escape_chars(s@.take(k + 1)));
        }
    }
    push_char(out, '"');
    assert(s@.take(s@.len() as int) =~= s@);
    assert(out@ =~= start + quoted(s@));
}

/// Writes a line break and `n` spaces when pretty-printing.
fn write_break(out: &mut String, indent: Option<usize>, n: usize)
    ensures
        final(out)@ == old(out)@ + newline(indent_model(indent)) + pad(indent_model(indent), n as nat),
{
    match indent {
        Some(_) => {
            push_char(out, '\n');
            push_spaces(out, n);
        },
        None => {
            assert(old(out)@ + Seq::<char>::empty() + Seq::<char>::empty() =~= old(out)@);
        },
    }
}

/// Writes the text of a value.
#[verifier::rlimit(80)]
fn write_json(value: &JsonValue, out: &mut String, indent: Option<usize>, current: usize)
    requires
        fits(value@, indent_model(indent), current as nat),
    ensures
        final(out)@ == old(out)@ + render(value@, indent_model(indent), current as nat),
        well_formed(value@),
    decreases value,
{
    let ghost ind = indent_model(indent);
    let step_len = match indent {
        Some(k) => k,
        None => 0,
    };
    let inner = current + step_len;
    let ghost start = old(out)@;
    match value {
        JsonValue::Null => push_str(out, "null"),
        JsonValue::Boolean(b) => if *b {
            push_str(out, "true")
        } else {
            push_str(out, "false")
        },
        JsonValue::Number(n) => {
            proof {
                use_type_invariant(n);
            }
            push_str(out, n.as_str())
        },
        JsonValue::String(s) => write_json_string(out, s.as_str()),
        JsonValue::Array(arr) => {
            proof {
                lemma_array_model(*arr);
            }
            let ghost items = arr@.map_values(|v: JsonValue| v@);
            push_char(out, '[');
            write_items(arr, out, indent, inner);
            if arr.len() > 0 {
                write_break(out, indent, current);
            }
            push_char(out, ']');
            proof {
                if arr.len() == 0 {
                    assert(closing(items.len(), ind, current as nat) =~= Seq::<char>::empty());
                }
                assert(out@ =~= start + render(value@, ind, current as nat));
            }
        },
        JsonValue::Object(obj) => {
            proof {
                lemma_object_model(*obj);
                use_type_invariant(obj);
            }
            let ghost es = obj@;
            push_char(out, '{');
            write_members(&obj.entries, out, indent, inner);
            if obj.entries.len() > 0 {
                write_break(out, indent, current);
            }
            push_char(out, '}');
            proof {
                if obj.entries.len() == 0 {
                    assert(closing(es.len(), ind, current as nat) =~= Seq::<char>::empty());
                }
                assert(out@ =~= start + render(value@, ind, current as nat));
            }
        },
    }
}

/// Writes the elements of an array.
fn write_items(arr: &Vec<JsonValue>, out: &mut String, indent: Option<usize>, inner: usize)
    requires
        fits_items(arr@.map_values(|v: JsonValue| v@), indent_model(indent), inner as nat, 0),
    ensures
        final(out)@ == old(out)@ + render_items(
            arr@.map_values(|v: JsonValue| v@),
            indent_model(indent),
            inner as nat,
            0,
        ),
        items_well_formed(arr@.map_values(|v: JsonValue| v@), 0),
    decreases arr,
{
    let ghost ind = indent_model(indent);
    let ghost items = arr@.map_values(|v: JsonValue| v@);
    let ghost start = old(out)@;
    let mut i: usize = 0;
    while i < arr.len()
        invariant
            items == arr@.map_values(|v: JsonValue| v@),
            ind == indent_model(indent),
            i <= arr@.len(),
            fits_items(items, ind, inner as nat, i as int),
            forall|k: int| 0 <= k < i ==> well_formed(#[trigger] items[k]),
            out@ + render_items(items, ind, inner as nat, i as int) == start + render_items(
                items,
                ind,
                inner as nat,
                0,
            ),
        decreases arr.len() - i,
    {
        let ghost before = out@;
        if i > 0 {
            push_char(out, ',');
        }
        write_break(out, indent, inner);
        write_json(&arr[i], out, indent, inner);
        proof {
            assert(out@ =~= before + separator(i as int) + newline(ind) + pad(ind, inner as nat)
                + render(items[i as int], ind, inner as nat));
        }
        i = i + 1;
    }
    assert(render_items(items, ind, inner as nat, i as int) =~= Seq::<char>::empty());
    assert(out@ =~= start + render_items(items, ind, inner as nat, 0));
    proof {
        lemma_items_well_formed(items, 0);
    }
}

/// Writes the members of an object.
#[verifier::rlimit(30)]
fn write_members(entries: &Vec<(String, JsonValue)>, out: &mut String, indent: Option<usize>, inner: usize)
    requires
        fits_members(
            entries@.map_values(|e: (String, JsonValue)| (e.0@, e.1@)),
            indent_model(indent),
            inner as nat,
            0,
        ),
    ensures
        final(out)@ == old(out)@ + render_members(
            entries@.map_values(|e: (String, JsonValue)| (e.0@, e.1@)),
            indent_model(indent),
            inner as nat,
            0,
        ),
        members_well_formed(entries@.map_values(|e: (String, JsonValue)| (e.0@, e.1@)), 0),
    decreases entries,
{
    let ghost ind = indent_model(indent);
    let ghost es = entries@.map_values(|e: (String, JsonValue)| (e.0@, e.1@));
    let ghost start = old(out)@;
    let mut i: usize = 0;
    while i < entries.len()
        invariant
            es == entries@.map_values(|e: (String, JsonValue)| (e.0@, e.1@)),
            ind == indent_model(indent),
            i <= entries@.len(),
            fits_members(es, ind, inner as nat, i as int),
            forall|k: int| 0 <= k < i ==> well_formed(#[trigger] es[k].1),
            out@ + render_members(es, ind, inner as nat, i as int) == start + render_members(
                es,
                ind,
                inner as nat,
                0,
            ),
        decreases entries.len() - i,
    {
        let ghost before = out@;
        assert(es[i as int] == (entries@[i as int].0@, entries@[i as int].1@));
        if i > 0 {
            push_char(out, ',');
        }
        write_break(out, indent, inner);
        write_json_string(out, entries[i].0.as_str());
        push_char(out, ':');
        write_json(&entries[i].1, out, indent, inner);
        proof {
            assert(out@ =~= before + separator(i as int) + newline(ind) + pad(ind, inner as nat)
                + quoted(es[i as int].0) + seq![':'] + render(es[i as int].1, ind, inner as nat));
        }
        i = i + 1;
    }
    assert(render_members(es, ind, inner as nat, i as int) =~= Seq::<char>::empty());
    assert(out@ =~= start + render_members(es, ind, inner as nat, 0));
    proof {
        lemma_members_well_formed(es, 0);
    }
}

/// Whether every indentation met while writing `value` fits in a `usize`.
fn fits_exec(value: &JsonValue, indent: usize, current: usize) -> (r: bool)
    ensures
        r == fits(value@, Some(indent as nat), current as nat),
    decreases value,
{
    if current > usize::MAX - indent {
        return false;
    }
    let inner = current + indent;
    match value {
        JsonValue::Array(arr) => {
            let ghost items = value@->Array_0;
            let mut i: usize = 0;
            while i < arr.len()
                invariant
                    items == value@->Array_0,
                    *value == JsonValue::Array(*arr),
                    items.len() == arr@.len(),
                    forall|k: int| 0 <= k < arr@.len() ==> (#[trigger] arr@[k])@ == items[k],
                    inner == current + indent,
                    i <= arr@.len(),
                    inner == inner_indent(Some(indent as nat), current as nat),
                    fits(value@, Some(indent as nat), current as nat) == fits_items(items, Some(indent as nat), inner as nat, i as int),
                decreases arr.len() - i,
            {
                if !fits_exec(&arr[i], indent, inner) {
                    return false;
                }
                i = i + 1;
            }
            true
        },
        JsonValue::Object(obj) => {
            let ghost es = value@->Object_0;
            let mut i: usize = 0;
            while i < obj.entries.len()
                invariant
                    es == value@->Object_0,
                    *value == JsonValue::Object(*obj),
                    es.len() == obj.entries@.len(),
                    forall|k: int| 0 <= k < obj.entries@.len() ==> (#[trigger] obj.entries@[k]).1@ == es[k].1,
                    inner == current + indent,
                    i <= obj.entries@.len(),
                    inner == inner_indent(Some(indent as nat), current as nat),
                    fits(value@, Some(indent as nat), current as nat) == fits_members(es, Some(indent as nat), inner as nat, i as int),
                decreases obj.entries.len() - i,
            {
                if !fits_exec(&obj.entries[i].1, indent, inner) {
                    return false;
                }
                i = i + 1;
            }
            true
        },
        _ => true,
    }
}

impl JsonValue {
    /// The compact JSON text of the value.
    pub fn to_string(&self) -> (r: String)
        ensures
            r@ == render(self@, None, 0),
            parse_text(encode_utf8(r@)) == Ok::<ValueModel, ErrorModel>(self@),
    {
        proof {
            lemma_fits_compact(self@, 0);
        }
        let mut out = String::new();
        write_json(self, &mut out, None, 0);
        proof {
            law_written_text_reads_back(self@, None);
        }
        out
    }

    /// The JSON text of the value with one member per line, nested members
    /// indented by `indent` spaces per level.
    pub fn pretty_print(&self, indent: usize) -> (r: String)
        requires
            fits(self@, Some(indent as nat), 0),
        ensures
            r@ == render(self@, Some(indent as nat), 0),
            parse_text(encode_utf8(r@)) == Ok::<ValueModel, ErrorModel>(self@),
    {
        let mut out = String::new();
        write_json(self, &mut out, Some(indent), 0);
        proof {
            law_written_text_reads_back(self@, Some(indent as nat));
        }
        out
    }

    /// `pretty_print`, or `None` when the indentation of some member would not fit in a `usize`.
    pub fn checked_pretty_print(&self, indent: usize) -> (r: Option<String>)
        ensures
            fits(self@, Some(indent as nat), 0) ==> (r matches Some(s) && s@ == render(
                self@,
                Some(indent as nat),
                0,
            ) && parse_text(encode_utf8(s@)) == Ok::<ValueModel, ErrorModel>(self@)),
            !fits(self@, Some(indent as nat), 0) ==> r is None,
    {
        if fits_exec(self, indent, 0) {
            Some(self.pretty_print(indent))
        } else {
            None
        }
    }
}

} // verus!
