use crate::util::{bytes_equal, push_all};
use vstd::prelude::*;
use vstd::slice::{slice_subrange, slice_to_vec};
use vstd::string::StringSliceAdditionalSpecFns;
use vstd::utf8::valid_utf8;

verus! {

/// The abstract value that a bencoded document denotes.
pub enum Datum {
    Bytes(Seq<u8>),
    Int(int),
    List(Seq<Datum>),
    Dict(Seq<(Seq<u8>, Datum)>),
}

/// A byte string: raw bytes, never interpreted as text by the codec.
#[derive(Clone, Debug, PartialEq, Eq, Hash)]
pub struct BencodableByteString(Vec<u8>);

impl View for BencodableByteString {
    type V = Seq<u8>;

    closed spec fn view(&self) -> Seq<u8> {
        self.0@
    }
}

/// A dictionary whose keys are byte strings, kept in strictly ascending
/// lexicographic order of their raw bytes.
#[derive(Debug, PartialEq, Eq)]
pub struct BencodeDict {
    entries: Vec<(BencodableByteString, Bencodable)>,
}

#[derive(Debug, PartialEq, Eq)]
pub enum Bencodable {
    ByteString(BencodableByteString),
    Integer(i32),
    List(Vec<Bencodable>),
    Dictionary(BencodeDict),
}

/// Strict lexicographic order on byte sequences (a proper prefix is smaller).
pub open spec fn lex_lt(a: Seq<u8>, b: Seq<u8>) -> bool
    decreases a.len(),
{
    if b.len() == 0 {
        false
    } else if a.len() == 0 {
        true
    } else if a[0] != b[0] {
        a[0] < b[0]
    } else {
        lex_lt(a.drop_first(), b.drop_first())
    }
}

/// The value of the first entry under `key`.
pub open spec fn lookup(entries: Seq<(Seq<u8>, Datum)>, key: Seq<u8>) -> Option<Datum>
    decreases entries.len(),
{
    if entries.len() == 0 {
        None
    } else if entries[0].0 == key {
        Some(entries[0].1)
    } else {
        lookup(entries.drop_first(), key)
    }
}

proof fn lemma_lookup(entries: Seq<(Seq<u8>, Datum)>, key: Seq<u8>, i: int)
    requires
        0 <= i <= entries.len(),
        forall|j: int| 0 <= j < i ==> #[trigger] entries[j].0 != key,
        i == entries.len() || entries[i].0 == key,
    ensures
        lookup(entries, key) == if i < entries.len() {
            Some(entries[i].1)
        } else {
            None::<Datum>
        },
    decreases i,
{
    if i > 0 {
        let rest = entries.drop_first();
        assert forall|j: int| 0 <= j < i - 1 implies #[trigger] rest[j].0 != key by {
            assert(rest[j] == entries[j + 1]);
        }
        if i < entries.len() {
            assert(rest[i - 1] == entries[i]);
        }
        lemma_lookup(rest, key, i - 1);
    }
}

/// Keys strictly ascending, pairwise.
pub open spec fn keys_ascending<V>(entries: Seq<(Seq<u8>, V)>) -> bool {
    forall|i: int, j: int| 0 <= i < j < entries.len() ==> lex_lt(entries[i].0, entries[j].0)
}

pub closed spec fn datum_of(b: Bencodable) -> Datum
    decreases b,
{
    match b {
        Bencodable::ByteString(s) => Datum::Bytes(s.0@),
        Bencodable::Integer(i) => Datum::Int(i as int),
        Bencodable::List(items) => Datum::List(datums_of(items@)),
        Bencodable::Dictionary(d) => Datum::Dict(entries_of(d.entries@)),
    }
}

pub closed spec fn datums_of(items: Seq<Bencodable>) -> Seq<Datum>
    decreases items,
{
    if items.len() == 0 {
        Seq::empty()
    } else {
        datums_of(items.subrange(0, items.len() - 1)).push(datum_of(items[items.len() - 1]))
    }
}

pub closed spec fn entries_of(entries: Seq<(BencodableByteString, Bencodable)>) -> Seq<
    (Seq<u8>, Datum),
>
    decreases entries,
{
    if entries.len() == 0 {
        Seq::empty()
    } else {
        let last = entries[entries.len() - 1];
        entries_of(entries.subrange(0, entries.len() - 1)).push((last.0@, datum_of(last.1)))
    }
}

impl View for Bencodable {
    type V = Datum;

    open spec fn view(&self) -> Datum {
        datum_of(*self)
    }
}

#[verifier::external_type_specification]
#[verifier::external_body]
pub struct ExUtf8Error(core::str::Utf8Error);

/// Relies on `core::str::from_utf8`: it accepts exactly the valid UTF-8
/// byte sequences and hands back the same bytes as text.
pub assume_specification<'a>[ core::str::from_utf8 ](v: &'a [u8]) -> (r: Result<
    &'a str,
    core::str::Utf8Error,
>)
    ensures
        r is Ok <==> valid_utf8(v@),
        r matches Ok(text) ==> text.spec_bytes() == v@,
;

impl BencodableByteString {
    pub fn new(bytes: Vec<u8>) -> (r: BencodableByteString)
        ensures
            r@ == bytes@,
    {
        BencodableByteString(bytes)
    }

    /// The bytes as text, when they are valid UTF-8.
    pub fn as_string(&self) -> (r: Result<&str, core::str::Utf8Error>)
        ensures
            r is Ok <==> valid_utf8(self@),
            r matches Ok(text) ==> text.spec_bytes() == self@,
    {
        core::str::from_utf8(self.0.as_slice())
    }

    pub fn copy(&self) -> (r: BencodableByteString)
        ensures
            r@ == self@,
    {
        BencodableByteString(slice_to_vec(self.0.as_slice()))
    }

    pub fn as_bytes(&self) -> (r: &[u8])
        ensures
            r@ == self@,
    {
        self.0.as_slice()
    }
}

impl From<&str> for BencodableByteString {
    fn from(s: &str) -> BencodableByteString {
        BencodableByteString(slice_to_vec(s.as_bytes()))
    }
}

impl vstd::std_specs::convert::FromSpecImpl<&str> for BencodableByteString {
    open spec fn obeys_from_spec() -> bool {
        false
    }

    open spec fn from_spec(s: &str) -> BencodableByteString {
        arbitrary()
    }
}

impl From<&[u8]> for BencodableByteString {
    fn from(s: &[u8]) -> BencodableByteString {
        BencodableByteString(slice_to_vec(s))
    }
}

impl vstd::std_specs::convert::FromSpecImpl<&[u8]> for BencodableByteString {
    open spec fn obeys_from_spec() -> bool {
        false
    }

    open spec fn from_spec(s: &[u8]) -> BencodableByteString {
        arbitrary()
    }
}

impl From<&str> for Bencodable {
    fn from(s: &str) -> Bencodable {
        Bencodable::ByteString(BencodableByteString(slice_to_vec(s.as_bytes())))
    }
}

impl vstd::std_specs::convert::FromSpecImpl<&str> for Bencodable {
    open spec fn obeys_from_spec() -> bool {
        false
    }

    open spec fn from_spec(s: &str) -> Bencodable {
        arbitrary()
    }
}

impl From<&[u8]> for Bencodable {
    fn from(s: &[u8]) -> Bencodable {
        Bencodable::ByteString(BencodableByteString(slice_to_vec(s)))
    }
}

impl vstd::std_specs::convert::FromSpecImpl<&[u8]> for Bencodable {
    open spec fn obeys_from_spec() -> bool {
        false
    }

    open spec fn from_spec(s: &[u8]) -> Bencodable {
        arbitrary()
    }
}

impl BencodeDict {
    #[verifier::type_invariant]
    spec fn keys_sorted(&self) -> bool {
        forall|a: int, b: int|
            0 <= a < b < self.entries@.len() ==> lex_lt(
                self.entries@[a].0@,
                self.entries@[b].0@,
            )
    }

    pub fn new() -> (r: BencodeDict)
        ensures
            r@ == Seq::<(Seq<u8>, Datum)>::empty(),
    {
        BencodeDict { entries: Vec::new() }
    }

    pub fn len(&self) -> (r: usize)
        ensures
            r == self@.len(),
    {
        proof {
            lemma_entries_of(self.entries@);
        }
        self.entries.len()
    }

    /// The keys are strictly ascending in raw byte order.
    pub fn keys_are_ascending(&self)
        ensures
            keys_ascending(self@),
    {
        proof {
            use_type_invariant(self);
            lemma_entries_of(self.entries@);
        }
    }

    /// The value stored under `key`, if any.
    pub fn get(&self, key: &[u8]) -> (r: Option<&Bencodable>)
        ensures
            r is None <==> lookup(self@, key@) is None,
            r matches Some(v) ==> lookup(self@, key@) == Some(v@),
    {
        proof {
            lemma_entries_of(self.entries@);
        }
        let mut k: usize = 0;
        while k < self.entries.len()
            invariant
                k <= self.entries@.len(),
                self@.len() == self.entries@.len(),
                forall|i: int|
                    0 <= i < self.entries@.len() ==> #[trigger] self@[i] == (
                        self.entries@[i].0@,
                        self.entries@[i].1@,
                    ),
                forall|i: int| 0 <= i < k ==> #[trigger] self@[i].0 != key@,
            decreases self.entries@.len() - k,
        {
            if bytes_equal(self.entries[k].0.0.as_slice(), key) {
                proof {
                    lemma_lookup(self@, key@, k as int);
                }
                return Some(&self.entries[k].1);
            }
            k = k + 1;
        }
        proof {
            lemma_lookup(self@, key@, k as int);
        }
        None
    }

    /// Stores `value` under `key`, replacing any value already there; the
    /// keys stay in ascending order.
    pub fn insert(&mut self, key: BencodableByteString, value: Bencodable)
        ensures
            keys_ascending(final(self)@),
            exists|p: int|
                0 <= p <= old(self)@.len() && (final(self)@ == old(self)@.insert(
                    p,
                    (key@, value@),
                ) || (p < old(self)@.len() && old(self)@[p].0 == key@ && final(self)@ == old(
                    self,
                )@.update(p, (key@, value@)))),
    {
        proof {
            use_type_invariant(&*self);
            lemma_entries_of(self.entries@);
        }
        let ghost before = self.entries@;
        let mut p: usize = 0;
        while p < self.entries.len() && lex_less(self.entries[p].0.0.as_slice(), key.0.as_slice())
            invariant
                p <= self.entries@.len(),
                self.entries@ == before,
                forall|a: int| 0 <= a < p ==> lex_lt(#[trigger] before[a].0@, key@),
            decreases self.entries@.len() - p,
        {
            p = p + 1;
        }
        let ghost e = (key, value);
        let found = p < self.entries.len() && bytes_equal(
            self.entries[p].0.0.as_slice(),
            key.0.as_slice(),
        );
        if found {
            proof {
                assert forall|a: int, b: int|
                    0 <= a < b < before.len() implies lex_lt(
                    #[trigger] before.update(p as int, e)[a].0@,
                    #[trigger] before.update(p as int, e)[b].0@,
                ) by {
                    assert(before[p as int].0@ == key@);
                }
                lemma_entries_of(before.update(p as int, e));
                assert(entries_of(before.update(p as int, e)) =~= entries_of(before).update(
                    p as int,
                    (key@, value@),
                ));
            }
            let mut entries = Vec::new();
            core::mem::swap(&mut self.entries, &mut entries);
            entries.set(p, (key, value));
            self.entries = entries;
            assert(self@ == old(self)@.update(p as int, (key@, value@)));
            assert(old(self)@[p as int].0 == key@);
        } else {
            proof {
                let after = before.insert(p as int, e);
                if p < before.len() {
                    lemma_lex_total(before[p as int].0@, key@);
                }
                assert forall|a: int, b: int| 0 <= a < b < after.len() implies lex_lt(
                    #[trigger] after[a].0@,
                    #[trigger] after[b].0@,
                ) by {
                    if b == p {
                        assert(after[a] == before[a]);
                    } else if a == p {
                        assert(after[b] == before[b - 1]);
                        if b - 1 > p {
                            lemma_lex_transitive(key@, before[p as int].0@, before[b - 1].0@);
                        }
                    } else if a < p && b > p {
                        assert(after[a] == before[a]);
                        assert(after[b] == before[b - 1]);
                    } else if a > p {
                        assert(after[a] == before[a - 1]);
                        assert(after[b] == before[b - 1]);
                    } else {
                        assert(after[a] == before[a]);
                        assert(after[b] == before[b]);
                    }
                }
                lemma_entries_of(after);
                assert(entries_of(after) =~= entries_of(before).insert(p as int, (key@, value@)));
            }
            let mut entries = Vec::new();
            core::mem::swap(&mut self.entries, &mut entries);
            entries.insert(p, (key, value));
            self.entries = entries;
            assert(self@ == old(self)@.insert(p as int, (key@, value@)));
        }
        proof {
            use_type_invariant(&*self);
            lemma_entries_of(self.entries@);
        }
    }
}

impl View for BencodeDict {
    type V = Seq<(Seq<u8>, Datum)>;

    closed spec fn view(&self) -> Seq<(Seq<u8>, Datum)> {
        entries_of(self.entries@)
    }
}

/// Canonical decimal digits of a natural number: no leading zeros.
pub open spec fn digit_seq(n: nat) -> Seq<u8>
    decreases n,
{
    if n < 10 {
        seq![(n + 48) as u8]
    } else {
        digit_seq(n / 10).push((n % 10 + 48) as u8)
    }
}

/// Canonical decimal text of an integer: a minus sign only for negatives.
pub open spec fn int_text(i: int) -> Seq<u8> {
    if i < 0 {
        seq![45u8] + digit_seq((-i) as nat)
    } else {
        digit_seq(i as nat)
    }
}

/// `<length>:<bytes>`
pub open spec fn encode_bytes(s: Seq<u8>) -> Seq<u8> {
    digit_seq(s.len()) + seq![58u8] + s
}

/// The canonical encoding of a value.
pub open spec fn encode_datum(d: Datum) -> Seq<u8>
    decreases d,
{
    match d {
        Datum::Bytes(s) => encode_bytes(s),
        Datum::Int(i) => seq![105u8] + int_text(i) + seq![101u8],
        Datum::List(items) => seq![108u8] + encode_items(items) + seq![101u8],
        Datum::Dict(entries) => seq![100u8] + encode_entries(entries) + seq![101u8],
    }
}

pub open spec fn encode_items(items: Seq<Datum>) -> Seq<u8>
    decreases items,
{
    if items.len() == 0 {
        Seq::empty()
    } else {
        encode_items(items.subrange(0, items.len() - 1)) + encode_datum(items[items.len() - 1])
    }
}

pub open spec fn encode_entries(entries: Seq<(Seq<u8>, Datum)>) -> Seq<u8>
    decreases entries,
{
    if entries.len() == 0 {
        Seq::empty()
    } else {
        let last = entries[entries.len() - 1];
        encode_entries(entries.subrange(0, entries.len() - 1)) + encode_bytes(last.0)
            + encode_datum(last.1)
    }
}

/// What the view of a value is, by its variant.
pub proof fn lemma_view_cases(b: Bencodable)
    ensures
        match b {
            Bencodable::ByteString(s) => b@ == Datum::Bytes(s@),
            Bencodable::Integer(i) => b@ == Datum::Int(i as int),
            Bencodable::List(items) => b@ == Datum::List(datums_of(items@)),
            Bencodable::Dictionary(d) => b@ == Datum::Dict(d@),
        },
{
}

/// The view of a sequence of values is taken element by element.
pub proof fn lemma_datums_of(items: Seq<Bencodable>)
    ensures
        datums_of(items).len() == items.len(),
        forall|i: int| 0 <= i < items.len() ==> #[trigger] datums_of(items)[i] == items[i]@,
    decreases items.len(),
{
    if items.len() > 0 {
        let prefix = items.subrange(0, items.len() - 1);
        lemma_datums_of(prefix);
        assert forall|i: int| 0 <= i < items.len() implies #[trigger] datums_of(items)[i]
            == items[i]@ by {
            if i < items.len() - 1 {
                assert(prefix[i] == items[i]);
            }
        }
    }
}

/// The view of dictionary entries is taken entry by entry.
pub proof fn lemma_entries_of(entries: Seq<(BencodableByteString, Bencodable)>)
    ensures
        entries_of(entries).len() == entries.len(),
        forall|i: int|
            0 <= i < entries.len() ==> #[trigger] entries_of(entries)[i] == (
            entries[i].0@,
            entries[i].1@,
        ),
    decreases entries.len(),
{
    if entries.len() > 0 {
        let prefix = entries.subrange(0, entries.len() - 1);
        lemma_entries_of(prefix);
        assert forall|i: int| 0 <= i < entries.len() implies #[trigger] entries_of(entries)[i]
            == (entries[i].0@, entries[i].1@) by {
            if i < entries.len() - 1 {
                assert(prefix[i] == entries[i]);
            }
        }
    }
}

proof fn lemma_datums_of_push(items: Seq<Bencodable>, b: Bencodable)
    ensures
        datums_of(items.push(b)) == datums_of(items).push(b@),
{
    assert(items.push(b).subrange(0, items.len() as int) =~= items);
}

proof fn lemma_entries_of_push(
    entries: Seq<(BencodableByteString, Bencodable)>,
    e: (BencodableByteString, Bencodable),
)
    ensures
        entries_of(entries.push(e)) == entries_of(entries).push((e.0@, e.1@)),
{
    assert(entries.push(e).subrange(0, entries.len() as int) =~= entries);
}

/// Appends the canonical digits of `n`.
fn push_digits(n: u64, out: &mut Vec<u8>)
    ensures
        final(out)@ == old(out)@ + digit_seq(n as nat),
    decreases n,
{
    if n >= 10 {
        push_digits(n / 10, out);
    }
    out.push((n % 10) as u8 + 48);
    assert(final(out)@ =~= old(out)@ + digit_seq(n as nat));
}

fn push_encoded_bytes(s: &BencodableByteString, out: &mut Vec<u8>)
    ensures
        final(out)@ == old(out)@ + encode_bytes(s@),
{
    push_digits(s.0.len() as u64, out);
    out.push(58u8);
    push_all(out, s.0.as_slice());
    assert(final(out)@ =~= old(out)@ + encode_bytes(s@));
}

fn push_encoded(b: &Bencodable, out: &mut Vec<u8>)
    ensures
        final(out)@ == old(out)@ + encode_datum(b@),
    decreases b,
{
    proof {
        lemma_view_cases(*b);
    }
    match b {
        Bencodable::ByteString(s) => {
            push_encoded_bytes(s, out);
        },
        Bencodable::Integer(i) => {
            out.push(105u8);
            if *i < 0 {
                out.push(45u8);
                push_digits((-(*i as i64)) as u64, out);
            } else {
                push_digits(*i as u64, out);
            }
            out.push(101u8);
            assert(final(out)@ =~= old(out)@ + encode_datum(b@));
        },
        Bencodable::List(items) => {
            out.push(108u8);
            let ghost start = out@;
            let ghost ds = datums_of(items@);
            proof {
                lemma_datums_of(items@);
            }
            let mut k: usize = 0;
            while k < items.len()
                invariant
                    *b == Bencodable::List(*items),
                    k <= items@.len(),
                    ds.len() == items@.len(),
                    forall|i: int| 0 <= i < items@.len() ==> #[trigger] ds[i] == items@[i]@,
                    out@ == start + encode_items(ds.subrange(0, k as int)),
                decreases items@.len() - k,
            {
                proof {
                    assert(decreases_to!(*b => (*b)->List_0));
                    assert(decreases_to!(items => items@));
                    assert(decreases_to!(items@ => items@[k as int]));
                }
                push_encoded(&items[k], out);
                proof {
                    let next = ds.subrange(0, k + 1);
                    assert(next.subrange(0, k as int) =~= ds.subrange(0, k as int));
                    assert(out@ =~= start + encode_items(next));
                }
                k = k + 1;
            }
            assert(ds.subrange(0, k as int) =~= ds);
            out.push(101u8);
            assert(final(out)@ =~= old(out)@ + encode_datum(b@));
        },
        Bencodable::Dictionary(d) => {
            out.push(100u8);
            let ghost start = out@;
            let ghost es = d@;
            proof {
                lemma_entries_of(d.entries@);
            }
            let mut k: usize = 0;
            while k < d.entries.len()
                invariant
                    *b == Bencodable::Dictionary(*d),
                    k <= d.entries@.len(),
                    es == entries_of(d.entries@),
                    es.len() == d.entries@.len(),
                    forall|i: int|
                        0 <= i < d.entries@.len() ==> #[trigger] es[i] == (
                        d.entries@[i].0@,
                        d.entries@[i].1@,
                    ),
                    out@ == start + encode_entries(es.subrange(0, k as int)),
                decreases d.entries@.len() - k,
            {
                let entry = &d.entries[k];
                proof {
                    assert(decreases_to!(*b => (*b)->Dictionary_0));
                    assert(decreases_to!(*d => d.entries));
                    assert(decreases_to!(d.entries => d.entries@));
                    assert(decreases_to!(d.entries@ => d.entries@[k as int]));
                    assert(decreases_to!(d.entries@[k as int] => d.entries@[k as int].1));
                }
                push_encoded_bytes(&entry.0, out);
                push_encoded(&entry.1, out);
                proof {
                    let next = es.subrange(0, k + 1);
                    assert(next.subrange(0, k as int) =~= es.subrange(0, k as int));
                    assert(out@ =~= start + encode_entries(next));
                }
                k = k + 1;
            }
            assert(es.subrange(0, k as int) =~= es);
            out.push(101u8);
            assert(final(out)@ =~= old(out)@ + encode_datum(b@));
        },
    }
}

/// Encoding failures. Encoding a well-formed value always succeeds, so
/// none of these is produced; they remain for callers that match on them.
#[derive(Debug, PartialEq, Eq)]
pub enum EncodeError {
    ListEncodeFailure,
    DictKeyEncodeFailure,
    DictValueEncodeFailure,
}

/// Encodes a value canonically: integers in canonical decimal, dictionary
/// entries in ascending key order.
pub fn bencode(b: &Bencodable) -> (r: Result<Vec<u8>, EncodeError>)
    ensures
        r matches Ok(bytes) && bytes@ == encode_datum(b@),
        b matches Bencodable::Dictionary(d) ==> keys_ascending(d@),
{
    if let Bencodable::Dictionary(d) = b {
        d.keys_are_ascending();
    }
    let mut out: Vec<u8> = Vec::new();
    push_encoded(b, &mut out);
    assert(out@ =~= encode_datum(b@));
    Ok(out)
}

/// The result of parsing one value: the value and the index just past it.
#[derive(Debug)]
pub struct ParseResult {
    pub index: usize,
    pub bencodable: Bencodable,
}

impl From<(usize, Bencodable)> for ParseResult {
    fn from(pr: (usize, Bencodable)) -> ParseResult {
        ParseResult { index: pr.0, bencodable: pr.1 }
    }
}

impl vstd::std_specs::convert::FromSpecImpl<(usize, Bencodable)> for ParseResult {
    open spec fn obeys_from_spec() -> bool {
        true
    }

    open spec fn from_spec(pr: (usize, Bencodable)) -> ParseResult {
        ParseResult { index: pr.0, bencodable: pr.1 }
    }
}

/// Where and why decoding stopped.
#[derive(Debug, PartialEq, Eq)]
pub struct BencodeParseError {
    pub index: usize,
    pub original: Vec<u8>,
    pub error_type: BencodeParseErrorType,
}

#[derive(Debug, PartialEq, Eq, Clone, Copy)]
pub enum BencodeParseErrorType {
    ParseInteger,
    ParseList,
    ParseDictionary,
    ParseByteString,
    ParseByteStringLength,
    ParseInitiate,
    ParseEnd,
    ParseValue,
}

/// A parse outcome in the model: the value and the next index, or the error
/// kind and the index at which it was detected.
pub type SpecParse = Result<(Datum, int), (BencodeParseErrorType, int)>;

pub open spec fn is_digit(c: u8) -> bool {
    48 <= c <= 57
}

/// The first index at or after `i` that holds `c`, or the length if none does.
pub open spec fn find_byte(s: Seq<u8>, i: int, c: u8) -> int
    decreases s.len() - i,
{
    if i < 0 || i >= s.len() {
        s.len() as int
    } else if s[i] == c {
        i
    } else {
        find_byte(s, i + 1, c)
    }
}

pub open spec fn digits_value(t: Seq<u8>) -> nat
    decreases t.len(),
{
    if t.len() == 0 {
        0
    } else {
        digits_value(t.drop_last()) * 10 + (t.last() - 48) as nat
    }
}

pub open spec fn all_digits(t: Seq<u8>) -> bool {
    forall|k: int| 0 <= k < t.len() ==> is_digit(#[trigger] t[k])
}

/// Decimal digits without a superfluous leading zero.
pub open spec fn canonical_nat_text(t: Seq<u8>) -> bool {
    t.len() > 0 && all_digits(t) && (t.len() == 1 || t[0] != 48)
}

/// `0`, or an optional minus sign before digits that do not start with zero.
pub open spec fn canonical_int_text(t: Seq<u8>) -> bool {
    canonical_nat_text(t) || (t.len() > 1 && t[0] == 45 && canonical_nat_text(t.drop_first())
        && t[1] != 48)
}

pub open spec fn int_value(t: Seq<u8>) -> int {
    if t.len() > 0 && t[0] == 45 {
        -digits_value(t.drop_first())
    } else {
        digits_value(t) as int
    }
}

/// A byte string whose length digits start at `i`.
pub open spec fn parse_bytes_at(s: Seq<u8>, i: int) -> SpecParse {
    let j = find_byte(s, i, 58);
    let t = s.subrange(i, j);
    let n = digits_value(t);
    if j >= s.len() {
        Err((BencodeParseErrorType::ParseByteStringLength, j))
    } else if !canonical_nat_text(t) || n > usize::MAX {
        Err((BencodeParseErrorType::ParseByteStringLength, j))
    } else if j + 1 + n > s.len() {
        Err((BencodeParseErrorType::ParseByteString, j))
    } else {
        Ok((Datum::Bytes(s.subrange(j + 1, j + 1 + n)), j + 1 + n))
    }
}

/// An integer whose text starts at `i`, just past the `i` marker.
pub open spec fn parse_int_at(s: Seq<u8>, i: int) -> SpecParse {
    let j = find_byte(s, i, 101);
    let t = s.subrange(i, j);
    if j >= s.len() {
        Err((BencodeParseErrorType::ParseInteger, j))
    } else if !canonical_int_text(t) || int_value(t) < i32::MIN || int_value(t) > i32::MAX {
        Err((BencodeParseErrorType::ParseInteger, j))
    } else {
        Ok((Datum::Int(int_value(t)), j + 1))
    }
}

/// Any value starting at `i`.
pub open spec fn parse_value_at(s: Seq<u8>, i: int) -> SpecParse
    decreases s.len() - i, 0int,
{
    if i < 0 || i >= s.len() {
        Err((BencodeParseErrorType::ParseValue, i))
    } else if is_digit(s[i]) {
        parse_bytes_at(s, i)
    } else if s[i] == 105 {
        parse_int_at(s, i + 1)
    } else if s[i] == 108 {
        parse_list_at(s, i + 1, Seq::empty())
    } else if s[i] == 100 {
        parse_dict_at(s, i + 1, Seq::empty())
    } else {
        Err((BencodeParseErrorType::ParseInitiate, i))
    }
}

/// The rest of a list from `i`, after the items `acc`.
pub open spec fn parse_list_at(s: Seq<u8>, i: int, acc: Seq<Datum>) -> SpecParse
    decreases s.len() - i, 1int,
{
    if i < 0 || i >= s.len() {
        Err((BencodeParseErrorType::ParseList, i))
    } else if s[i] == 101 {
        Ok((Datum::List(acc), i + 1))
    } else {
        match parse_value_at(s, i) {
            Err(e) => Err(e),
            Ok((v, j)) => if j <= i || j > s.len() {
                Err((BencodeParseErrorType::ParseList, i))
            } else {
                parse_list_at(s, j, acc.push(v))
            },
        }
    }
}

/// The rest of a dictionary from `i`, after the entries `acc`.
pub open spec fn parse_dict_at(s: Seq<u8>, i: int, acc: Seq<(Seq<u8>, Datum)>) -> SpecParse
    decreases s.len() - i, 1int,
{
    if i < 0 || i >= s.len() {
        Err((BencodeParseErrorType::ParseDictionary, i))
    } else if s[i] == 101 {
        Ok((Datum::Dict(acc), i + 1))
    } else {
        match parse_value_at(s, i) {
            Err(e) => Err(e),
            Ok((k, j)) => if !(k is Bytes) {
                Err((BencodeParseErrorType::ParseDictionary, i))
            } else if acc.len() > 0 && !lex_lt(acc.last().0, k->Bytes_0) {
                Err((BencodeParseErrorType::ParseDictionary, i))
            } else if j <= i || j > s.len() {
                Err((BencodeParseErrorType::ParseDictionary, i))
            } else {
                match parse_value_at(s, j) {
                    Err(e) => Err(e),
                    Ok((v, j2)) => if j2 <= j || j2 > s.len() {
                        Err((BencodeParseErrorType::ParseDictionary, i))
                    } else {
                        parse_dict_at(s, j2, acc.push((k->Bytes_0, v)))
                    },
                }
            },
        }
    }
}

/// Decoding a whole document: one value and nothing after it.
pub open spec fn decode_spec(s: Seq<u8>) -> Result<Datum, (BencodeParseErrorType, int)> {
    match parse_value_at(s, 0) {
        Err(e) => Err(e),
        Ok((v, j)) => if j < s.len() {
            Err((BencodeParseErrorType::ParseEnd, j))
        } else {
            Ok(v)
        },
    }
}

pub open spec fn parse_matches(
    r: Result<ParseResult, BencodeParseError>,
    m: SpecParse,
    s: Seq<u8>,
) -> bool {
    match r {
        Ok(pr) => m matches Ok((v, j)) && pr.bencodable@ == v && pr.index == j,
        Err(e) => m matches Err((t, j)) && e.error_type == t && e.index == j && e.original@ == s,
    }
}

impl From<(BencodeParseErrorType, usize, &[u8])> for BencodeParseError {
    fn from(t: (BencodeParseErrorType, usize, &[u8])) -> BencodeParseError {
        parse_error(t.0, t.1, t.2)
    }
}

impl vstd::std_specs::convert::FromSpecImpl<(BencodeParseErrorType, usize, &[u8])> for BencodeParseError {
    open spec fn obeys_from_spec() -> bool {
        false
    }

    open spec fn from_spec(t: (BencodeParseErrorType, usize, &[u8])) -> BencodeParseError {
        arbitrary()
    }
}

fn parse_error(error_type: BencodeParseErrorType, index: usize, bytes: &[u8]) -> (e:
    BencodeParseError)
    ensures
        e.error_type == error_type,
        e.index == index,
        e.original@ == bytes@,
{
    BencodeParseError { index, original: slice_to_vec(bytes), error_type }
}

/// Index of the first `c` at or after `i`, or the length.
fn find(bytes: &[u8], i: usize, c: u8) -> (j: usize)
    requires
        i <= bytes@.len(),
    ensures
        j == find_byte(bytes@, i as int, c),
        i <= j <= bytes@.len(),
{
    let mut j = i;
    while j < bytes.len() && bytes[j] != c
        invariant
            i <= j <= bytes@.len(),
            find_byte(bytes@, i as int, c) == find_byte(bytes@, j as int, c),
        decreases bytes@.len() - j,
    {
        j = j + 1;
    }
    j
}

proof fn lemma_digits_value_prefix(t: Seq<u8>, k: int)
    requires
        0 <= k <= t.len(),
        all_digits(t),
    ensures
        digits_value(t.subrange(0, k)) <= digits_value(t),
    decreases t.len(),
{
    if k < t.len() {
        assert(is_digit(t[t.len() - 1]));
        lemma_digits_value_prefix(t.drop_last(), k);
        assert(t.drop_last().subrange(0, k) =~= t.subrange(0, k));
    } else {
        assert(t.subrange(0, k) =~= t);
    }
}

proof fn lemma_digits_value_step(t: Seq<u8>, k: int)
    requires
        0 <= k < t.len(),
    ensures
        digits_value(t.subrange(0, k + 1)) == digits_value(t.subrange(0, k)) * 10 + (t[k]
            - 48) as nat,
{
    assert(t.subrange(0, k + 1).drop_last() =~= t.subrange(0, k));
}

/// The value of the decimal digits `bytes[from..to]`, or `None` once it
/// passes `cap`.
fn read_digits(bytes: &[u8], from: usize, to: usize, cap: u64) -> (r: Option<u64>)
    requires
        from <= to <= bytes@.len(),
        all_digits(bytes@.subrange(from as int, to as int)),
    ensures
        r matches Some(n) ==> n == digits_value(bytes@.subrange(from as int, to as int)) && n <= cap,
        r is None ==> digits_value(bytes@.subrange(from as int, to as int)) > cap,
{
    let ghost t = bytes@.subrange(from as int, to as int);
    let mut val: u64 = 0;
    let mut k = from;
    while k < to
        invariant
            from <= k <= to <= bytes@.len(),
            t == bytes@.subrange(from as int, to as int),
            all_digits(t),
            val == digits_value(t.subrange(0, k - from)),
            val <= cap,
        decreases to - k,
    {
        proof {
            assert(is_digit(t[k - from]));
            lemma_digits_value_step(t, k - from);
            assert(t[k - from] == bytes@[k as int]);
        }
        let d = (bytes[k] - 48) as u64;
        if cap < d || val > (cap - d) / 10 {
            proof {
                lemma_digits_value_prefix(t, k - from + 1);
                if cap >= d {
                    assert(val * 10 + d > cap) by (nonlinear_arith)
                        requires
                            val > (cap - d) / 10,
                            cap >= d,
                    ;
                }
            }
            return None;
        }
        assert(val * 10 + d <= cap) by (nonlinear_arith)
            requires
                val <= (cap - d) / 10,
                cap >= d,
        ;
        val = val * 10 + d;
        k = k + 1;
    }
    assert(t.subrange(0, k - from) =~= t);
    Some(val)
}

fn parse_byte_string(index: usize, bytes: &[u8]) -> (r: Result<ParseResult, BencodeParseError>)
    requires
        index < bytes@.len(),
    ensures
        parse_matches(r, parse_bytes_at(bytes@, index as int), bytes@),
{
    let j = find(bytes, index, 58);
    let ghost t = bytes@.subrange(index as int, j as int);
    if j >= bytes.len() {
        return Err(parse_error(BencodeParseErrorType::ParseByteStringLength, j, bytes));
    }
    let mut k = index;
    while k < j
        invariant
            index <= k <= j < bytes@.len(),
            t == bytes@.subrange(index as int, j as int),
            j == find_byte(bytes@, index as int, 58),
            forall|m: int| index <= m < k ==> is_digit(#[trigger] bytes@[m]),
        decreases j - k,
    {
        if bytes[k] < 48 || bytes[k] > 57 {
            assert(!all_digits(t)) by {
                assert(t[k - index] == bytes@[k as int]);
            }
            return Err(parse_error(BencodeParseErrorType::ParseByteStringLength, j, bytes));
        }
        k = k + 1;
    }
    assert(all_digits(t)) by {
        assert forall|m: int| 0 <= m < t.len() implies is_digit(#[trigger] t[m]) by {
            assert(t[m] == bytes@[index + m]);
        }
    }
    if j == index || (j - index > 1 && bytes[index] == 48) {
        return Err(parse_error(BencodeParseErrorType::ParseByteStringLength, j, bytes));
    }
    let room = (bytes.len() - j - 1) as u64;
    match read_digits(bytes, index, j, room) {
        None => {
            if read_digits(bytes, index, j, usize::MAX as u64).is_none() {
                return Err(parse_error(BencodeParseErrorType::ParseByteStringLength, j, bytes));
            }
            Err(parse_error(BencodeParseErrorType::ParseByteString, j, bytes))
        },
        Some(n) => {
            let n = n as usize;
            let end = j + 1 + n;
            let content = slice_to_vec(slice_subrange(bytes, j + 1, end));
            let b = Bencodable::ByteString(BencodableByteString(content));
            proof {
                lemma_view_cases(b);
            }
            Ok(ParseResult { index: end, bencodable: b })
        },
    }
}

fn all_digits_in(bytes: &[u8], from: usize, to: usize) -> (r: bool)
    requires
        from <= to <= bytes@.len(),
    ensures
        r == all_digits(bytes@.subrange(from as int, to as int)),
{
    let ghost t = bytes@.subrange(from as int, to as int);
    let mut k = from;
    while k < to
        invariant
            from <= k <= to <= bytes@.len(),
            t == bytes@.subrange(from as int, to as int),
            forall|m: int| 0 <= m < k - from ==> is_digit(#[trigger] t[m]),
        decreases to - k,
    {
        if bytes[k] < 48 || bytes[k] > 57 {
            assert(!is_digit(t[k - from]));
            return false;
        }
        k = k + 1;
    }
    true
}

fn parse_integer(index: usize, bytes: &[u8]) -> (r: Result<ParseResult, BencodeParseError>)
    requires
        index <= bytes@.len(),
    ensures
        parse_matches(r, parse_int_at(bytes@, index as int), bytes@),
{
    let j = find(bytes, index, 101);
    let ghost t = bytes@.subrange(index as int, j as int);
    if j >= bytes.len() {
        return Err(parse_error(BencodeParseErrorType::ParseInteger, j, bytes));
    }
    let negative = index < j && bytes[index] == 45;
    let start = if negative {
        index + 1
    } else {
        index
    };
    let ghost digits = bytes@.subrange(start as int, j as int);
    assert(negative ==> t.drop_first() =~= digits);
    assert(!negative ==> t =~= digits);
    if start == j || !all_digits_in(bytes, start, j) || (j - start > 1 && bytes[start] == 48) || (
    negative && bytes[start] == 48) {
        proof {
            if negative {
                assert(!is_digit(t[0]));
            } else if start < j {
                assert(t[0] == digits[0]);
            }
        }
        return Err(parse_error(BencodeParseErrorType::ParseInteger, j, bytes));
    }
    assert(canonical_int_text(t)) by {
        if negative {
            assert(t[1] == digits[0]);
        }
    }
    let cap: u64 = if negative {
        2147483648
    } else {
        2147483647
    };
    match read_digits(bytes, start, j, cap) {
        None => {
            proof {
                if !negative {
                    assert(!(t.len() > 0 && t[0] == 45)) by {
                        assert(t[0] == digits[0]);
                        assert(is_digit(digits[0]));
                    }
                }
            }
            Err(parse_error(BencodeParseErrorType::ParseInteger, j, bytes))
        },
        Some(n) => {
            let value: i32 = if negative {
                (-(n as i64)) as i32
            } else {
                n as i32
            };
            proof {
                if !negative {
                    assert(!(t.len() > 0 && t[0] == 45)) by {
                        assert(t[0] == digits[0]);
                        assert(is_digit(digits[0]));
                    }
                }
                assert(value as int == int_value(t));
            }
            let b = Bencodable::Integer(value);
            proof {
                lemma_view_cases(b);
            }
            Ok(ParseResult { index: j + 1, bencodable: b })
        },
    }
}

proof fn lemma_lex_irreflexive(a: Seq<u8>)
    ensures
        !lex_lt(a, a),
    decreases a.len(),
{
    if a.len() > 0 {
        lemma_lex_irreflexive(a.drop_first());
    }
}

proof fn lemma_lex_transitive(a: Seq<u8>, b: Seq<u8>, c: Seq<u8>)
    requires
        lex_lt(a, b),
        lex_lt(b, c),
    ensures
        lex_lt(a, c),
    decreases a.len(),
{
    if a.len() > 0 && b.len() > 0 && c.len() > 0 && a[0] == b[0] && b[0] == c[0] {
        lemma_lex_transitive(a.drop_first(), b.drop_first(), c.drop_first());
    }
}

proof fn lemma_lex_total(a: Seq<u8>, b: Seq<u8>)
    requires
        a != b,
    ensures
        lex_lt(a, b) || lex_lt(b, a),
    decreases a.len(),
{
    if a.len() > 0 && b.len() > 0 && a[0] == b[0] {
        if a.drop_first() == b.drop_first() {
            assert(a =~= seq![a[0]] + a.drop_first());
            assert(b =~= seq![b[0]] + b.drop_first());
        } else {
            lemma_lex_total(a.drop_first(), b.drop_first());
        }
    } else if a.len() == 0 && b.len() == 0 {
        assert(a =~= b);
    }
}

/// Whether `a` comes strictly before `b` in lexicographic byte order.
fn lex_less(a: &[u8], b: &[u8]) -> (r: bool)
    ensures
        r == lex_lt(a@, b@),
{
    let mut k: usize = 0;
    assert(a@.subrange(0, a@.len() as int) =~= a@);
    assert(b@.subrange(0, b@.len() as int) =~= b@);
    while k < a.len() && k < b.len() && a[k] == b[k]
        invariant
            k <= a@.len(),
            k <= b@.len(),
            lex_lt(a@, b@) == lex_lt(
                a@.subrange(k as int, a@.len() as int),
                b@.subrange(k as int, b@.len() as int),
            ),
        decreases a@.len() - k,
    {
        proof {
            let sa = a@.subrange(k as int, a@.len() as int);
            let sb = b@.subrange(k as int, b@.len() as int);
            assert(sa.drop_first() =~= a@.subrange(k + 1, a@.len() as int));
            assert(sb.drop_first() =~= b@.subrange(k + 1, b@.len() as int));
        }
        k = k + 1;
    }
    if k == b.len() {
        false
    } else if k == a.len() {
        true
    } else {
        a[k] < b[k]
    }
}

fn parse_bencoded_value(index: usize, bytes: &[u8]) -> (r: Result<ParseResult, BencodeParseError>)
    requires
        index <= bytes@.len(),
    ensures
        parse_matches(r, parse_value_at(bytes@, index as int), bytes@),
    decreases bytes@.len() - index, 0int,
{
    if index >= bytes.len() {
        return Err(parse_error(BencodeParseErrorType::ParseValue, index, bytes));
    }
    let b = bytes[index];
    if 48 <= b && b <= 57 {
        parse_byte_string(index, bytes)
    } else if b == 105 {
        parse_integer(index + 1, bytes)
    } else if b == 108 {
        parse_list(index + 1, bytes)
    } else if b == 100 {
        parse_dictionary(index + 1, bytes)
    } else {
        Err(parse_error(BencodeParseErrorType::ParseInitiate, index, bytes))
    }
}

fn parse_list(index: usize, bytes: &[u8]) -> (r: Result<ParseResult, BencodeParseError>)
    requires
        index <= bytes@.len(),
    ensures
        parse_matches(r, parse_list_at(bytes@, index as int, Seq::empty()), bytes@),
    decreases bytes@.len() - index, 1int,
{
    let ghost s = bytes@;
    let mut items: Vec<Bencodable> = Vec::new();
    let mut i = index;
    loop
        invariant
            s == bytes@,
            index <= i <= s.len(),
            parse_list_at(s, index as int, Seq::empty()) == parse_list_at(
                s,
                i as int,
                datums_of(items@),
            ),
        decreases s.len() - i,
    {
        if i >= bytes.len() {
            return Err(parse_error(BencodeParseErrorType::ParseList, i, bytes));
        }
        if bytes[i] == 101 {
            let b = Bencodable::List(items);
            proof {
                lemma_view_cases(b);
            }
            return Ok(ParseResult { index: i + 1, bencodable: b });
        }
        let pr = match parse_bencoded_value(i, bytes) {
            Err(e) => {
                return Err(e);
            },
            Ok(pr) => pr,
        };
        proof {
            lemma_parse_value(s, i as int);
            lemma_datums_of_push(items@, pr.bencodable);
        }
        items.push(pr.bencodable);
        i = pr.index;
    }
}

fn parse_dictionary(index: usize, bytes: &[u8]) -> (r: Result<ParseResult, BencodeParseError>)
    requires
        index <= bytes@.len(),
    ensures
        parse_matches(r, parse_dict_at(bytes@, index as int, Seq::empty()), bytes@),
    decreases bytes@.len() - index, 1int,
{
    let ghost s = bytes@;
    let mut entries: Vec<(BencodableByteString, Bencodable)> = Vec::new();
    let mut i = index;
    loop
        invariant
            s == bytes@,
            index <= i <= s.len(),
            parse_dict_at(s, index as int, Seq::empty()) == parse_dict_at(
                s,
                i as int,
                entries_of(entries@),
            ),
            forall|a: int, b: int|
                0 <= a < b < entries@.len() ==> lex_lt(entries@[a].0@, entries@[b].0@),
        decreases s.len() - i,
    {
        if i >= bytes.len() {
            return Err(parse_error(BencodeParseErrorType::ParseDictionary, i, bytes));
        }
        if bytes[i] == 101 {
            let b = Bencodable::Dictionary(BencodeDict { entries });
            proof {
                lemma_view_cases(b);
            }
            return Ok(ParseResult { index: i + 1, bencodable: b });
        }
        let key_result = match parse_bencoded_value(i, bytes) {
            Err(e) => {
                return Err(e);
            },
            Ok(pr) => pr,
        };
        proof {
            lemma_parse_value(s, i as int);
            lemma_view_cases(key_result.bencodable);
            lemma_entries_of(entries@);
        }
        let j = key_result.index;
        let key = match key_result.bencodable {
            Bencodable::ByteString(k) => k,
            _ => {
                return Err(parse_error(BencodeParseErrorType::ParseDictionary, i, bytes));
            },
        };
        if entries.len() > 0 && !lex_less(
            entries[entries.len() - 1].0.0.as_slice(),
            key.0.as_slice(),
        ) {
            return Err(parse_error(BencodeParseErrorType::ParseDictionary, i, bytes));
        }
        let value_result = match parse_bencoded_value(j, bytes) {
            Err(e) => {
                return Err(e);
            },
            Ok(pr) => pr,
        };
        proof {
            lemma_parse_value(s, j as int);
            lemma_entries_of_push(entries@, (key, value_result.bencodable));
            assert forall|a: int| 0 <= a < entries@.len() implies lex_lt(
                #[trigger] entries@[a].0@,
                key@,
            ) by {
                if a < entries@.len() - 1 {
                    lemma_lex_transitive(entries@[a].0@, entries@[entries@.len() - 1].0@, key@);
                }
            }
        }
        entries.push((key, value_result.bencodable));
        i = value_result.index;
    }
}

/// Decodes one complete bencoded document.
pub fn bdecode(bencoded_bytes: &[u8]) -> (r: Result<Bencodable, BencodeParseError>)
    ensures
        match r {
            Ok(b) => decode_spec(bencoded_bytes@) == Ok::<Datum, (BencodeParseErrorType, int)>(
                b@,
            ),
            Err(e) => decode_spec(bencoded_bytes@) == Err::<Datum, (BencodeParseErrorType, int)>(
                (e.error_type, e.index as int),
            ) && e.original@ == bencoded_bytes@,
        },
{
    match parse_bencoded_value(0, bencoded_bytes) {
        Err(e) => Err(e),
        Ok(pr) => {
            if pr.index < bencoded_bytes.len() {
                Err(parse_error(BencodeParseErrorType::ParseEnd, pr.index, bencoded_bytes))
            } else {
                Ok(pr.bencodable)
            }
        },
    }
}

proof fn lemma_find_byte(s: Seq<u8>, i: int, c: u8)
    requires
        0 <= i <= s.len(),
    ensures
        i <= find_byte(s, i, c) <= s.len(),
        find_byte(s, i, c) < s.len() ==> s[find_byte(s, i, c)] == c,
    decreases s.len() - i,
{
    if i < s.len() && s[i] != c {
        lemma_find_byte(s, i + 1, c);
    }
}

proof fn lemma_canonical_digits(t: Seq<u8>)
    requires
        canonical_nat_text(t),
    ensures
        digit_seq(digits_value(t)) == t,
    decreases t.len(),
{
    let n = digits_value(t);
    let d = (t.last() - 48) as nat;
    assert(is_digit(t[t.len() - 1]));
    if t.len() == 1 {
        assert(t.drop_last() =~= Seq::<u8>::empty());
        assert(digit_seq(n) =~= t);
    } else {
        let p = t.drop_last();
        assert(all_digits(p)) by {
            assert forall|k: int| 0 <= k < p.len() implies is_digit(#[trigger] p[k]) by {
                assert(p[k] == t[k]);
            }
        }
        assert(p[0] == t[0]);
        lemma_canonical_digits(p);
        lemma_digits_value_prefix(p, 1);
        assert(p.subrange(0, 1).drop_last() =~= Seq::<u8>::empty());
        let q = digits_value(p);
        assert(q >= 1);
        assert(n == q * 10 + d);
        assert(n / 10 == q && n % 10 == d) by (nonlinear_arith)
            requires
                n == q * 10 + d,
                d < 10,
        ;
        assert(digit_seq(n) =~= t);
    }
}

proof fn lemma_canonical_int(t: Seq<u8>)
    requires
        canonical_int_text(t),
    ensures
        int_text(int_value(t)) == t,
{
    if t.len() > 0 && t[0] == 45 {
        if canonical_nat_text(t) {
            assert(is_digit(t[0]));
        }
        let u = t.drop_first();
        lemma_canonical_digits(u);
        lemma_digits_value_prefix(u, 1);
        assert(u.subrange(0, 1).drop_last() =~= Seq::<u8>::empty());
        assert(u[0] == t[1]);
        assert(int_text(int_value(t)) =~= t);
    } else {
        lemma_canonical_digits(t);
    }
}

proof fn lemma_parse_bytes(s: Seq<u8>, i: int)
    requires
        0 <= i < s.len(),
    ensures
        parse_bytes_at(s, i) matches Ok((v, j)) ==> i < j <= s.len() && s.subrange(i, j)
            == encode_datum(v),
{
    let j = find_byte(s, i, 58);
    lemma_find_byte(s, i, 58);
    let t = s.subrange(i, j);
    if parse_bytes_at(s, i) is Ok {
        lemma_canonical_digits(t);
        let n = digits_value(t);
        let payload = s.subrange(j + 1, j + 1 + n);
        assert(s.subrange(i, j + 1 + n) =~= t + seq![58u8] + payload);
    }
}

proof fn lemma_parse_int(s: Seq<u8>, i: int)
    requires
        0 <= i <= s.len(),
    ensures
        parse_int_at(s, i) matches Ok((v, j)) ==> i < j <= s.len() && v is Int && s.subrange(i, j)
            == int_text(v->Int_0) + seq![101u8],
{
    let j = find_byte(s, i, 101);
    lemma_find_byte(s, i, 101);
    let t = s.subrange(i, j);
    if parse_int_at(s, i) is Ok {
        lemma_canonical_int(t);
        assert(s.subrange(i, j + 1) =~= t + seq![101u8]);
    }
}

proof fn lemma_parse_value(s: Seq<u8>, i: int)
    ensures
        parse_value_at(s, i) matches Ok((v, j)) ==> i < j <= s.len() && s.subrange(i, j)
            == encode_datum(v),
    decreases s.len() - i, 0int,
{
    if 0 <= i < s.len() {
        if is_digit(s[i]) {
            lemma_parse_bytes(s, i);
        } else if s[i] == 105 {
            lemma_parse_int(s, i + 1);
            if let Ok((v, j)) = parse_value_at(s, i) {
                assert(s.subrange(i, j) =~= seq![105u8] + s.subrange(i + 1, j));
            }
        } else if s[i] == 108 {
            lemma_parse_list(s, i + 1, Seq::empty());
            if let Ok((v, j)) = parse_value_at(s, i) {
                assert(s.subrange(i, j) =~= seq![108u8] + s.subrange(i + 1, j));
                assert(encode_items(Seq::empty()) + s.subrange(i + 1, j) =~= s.subrange(i + 1, j));
                let full = v->List_0;
                assert(s.subrange(i + 1, j) =~= encode_items(full) + seq![101u8]);
            }
        } else if s[i] == 100 {
            lemma_parse_dict(s, i + 1, Seq::empty());
            if let Ok((v, j)) = parse_value_at(s, i) {
                assert(s.subrange(i, j) =~= seq![100u8] + s.subrange(i + 1, j));
                assert(encode_entries(Seq::empty()) + s.subrange(i + 1, j) =~= s.subrange(
                    i + 1,
                    j,
                ));
                let full = v->Dict_0;
                assert(s.subrange(i + 1, j) =~= encode_entries(full) + seq![101u8]);
            }
        }
    }
}

proof fn lemma_parse_list(s: Seq<u8>, i: int, acc: Seq<Datum>)
    ensures
        parse_list_at(s, i, acc) matches Ok((v, j)) ==> i < j <= s.len() && v is List
            && encode_items(acc) + s.subrange(i, j) == encode_items(v->List_0) + seq![101u8],
    decreases s.len() - i, 1int,
{
    if 0 <= i < s.len() {
        if s[i] == 101 {
            assert(s.subrange(i, i + 1) =~= seq![101u8]);
        } else {
            lemma_parse_value(s, i);
            if let Ok((v, j)) = parse_value_at(s, i) {
                if i < j <= s.len() {
                    lemma_parse_list(s, j, acc.push(v));
                    if let Ok((w, j2)) = parse_list_at(s, j, acc.push(v)) {
                        assert(acc.push(v).subrange(0, acc.len() as int) =~= acc);
                        assert(encode_items(acc.push(v)) == encode_items(acc) + encode_datum(v));
                        assert(s.subrange(i, j2) =~= s.subrange(i, j) + s.subrange(j, j2));
                        assert(encode_items(acc) + s.subrange(i, j2) =~= encode_items(acc.push(v))
                            + s.subrange(j, j2));
                    }
                }
            }
        }
    }
}

proof fn lemma_parse_dict(s: Seq<u8>, i: int, acc: Seq<(Seq<u8>, Datum)>)
    ensures
        parse_dict_at(s, i, acc) matches Ok((v, j)) ==> i < j <= s.len() && v is Dict
            && encode_entries(acc) + s.subrange(i, j) == encode_entries(v->Dict_0) + seq![101u8],
    decreases s.len() - i, 1int,
{
    if 0 <= i < s.len() {
        if s[i] == 101 {
            assert(s.subrange(i, i + 1) =~= seq![101u8]);
        } else {
            lemma_parse_value(s, i);
            if let Ok((k, j)) = parse_value_at(s, i) {
                if k is Bytes && i < j <= s.len() {
                    lemma_parse_value(s, j);
                    if let Ok((v, j2)) = parse_value_at(s, j) {
                        if j < j2 <= s.len() {
                            let e = (k->Bytes_0, v);
                            lemma_parse_dict(s, j2, acc.push(e));
                            if let Ok((w, j3)) = parse_dict_at(s, j2, acc.push(e)) {
                                assert(acc.push(e).subrange(0, acc.len() as int) =~= acc);
                                assert(encode_entries(acc.push(e)) == encode_entries(acc)
                                    + encode_bytes(k->Bytes_0) + encode_datum(v));
                                assert(s.subrange(i, j3) =~= s.subrange(i, j) + s.subrange(j, j2)
                                    + s.subrange(j2, j3));
                                assert(encode_entries(acc) + s.subrange(i, j3) =~= encode_entries(
                                    acc.push(e),
                                ) + s.subrange(j2, j3));
                            }
                        }
                    }
                }
            }
        }
    }
}

/// Decoding then encoding gives back the input: every document that
/// decodes is the canonical encoding of the value it decodes to.
pub proof fn lemma_decode_encode_round_trip(s: Seq<u8>)
    requires
        decode_spec(s) is Ok,
    ensures
        encode_datum(decode_spec(s)->Ok_0) == s,
{
    lemma_parse_value(s, 0);
    assert(s.subrange(0, s.len() as int) =~= s);
}

impl Bencodable {
    /// A copy of the value.
    pub fn duplicate(&self) -> (r: Bencodable)
        ensures
            r@ == self@,
        decreases self,
    {
        proof {
            lemma_view_cases(*self);
        }
        match self {
            Bencodable::ByteString(s) => {
                let r = Bencodable::ByteString(s.copy());
                proof {
                    lemma_view_cases(r);
                }
                r
            },
            Bencodable::Integer(i) => {
                let r = Bencodable::Integer(*i);
                proof {
                    lemma_view_cases(r);
                }
                r
            },
            Bencodable::List(items) => {
                let mut copy: Vec<Bencodable> = Vec::new();
                let mut k: usize = 0;
                proof {
                    lemma_datums_of(items@);
                }
                while k < items.len()
                    invariant
                        *self == Bencodable::List(*items),
                        k <= items@.len(),
                        datums_of(items@).len() == items@.len(),
                        forall|i: int|
                            0 <= i < items@.len() ==> #[trigger] datums_of(items@)[i] == items@[i]@,
                        datums_of(copy@) == datums_of(items@).subrange(0, k as int),
                    decreases items@.len() - k,
                {
                    proof {
                        assert(decreases_to!(*self => (*self)->List_0));
                        assert(decreases_to!(items => items@));
                        assert(decreases_to!(items@ => items@[k as int]));
                    }
                    let item = items[k].duplicate();
                    proof {
                        lemma_datums_of_push(copy@, item);
                        assert(datums_of(items@).subrange(0, k + 1) =~= datums_of(items@).subrange(
                            0,
                            k as int,
                        ).push(item@));
                    }
                    copy.push(item);
                    k = k + 1;
                }
                assert(datums_of(items@).subrange(0, k as int) =~= datums_of(items@));
                let r = Bencodable::List(copy);
                proof {
                    lemma_view_cases(r);
                }
                r
            },
            Bencodable::Dictionary(d) => {
                proof {
                    use_type_invariant(d);
                    lemma_entries_of(d.entries@);
                }
                let mut copy: Vec<(BencodableByteString, Bencodable)> = Vec::new();
                let mut k: usize = 0;
                while k < d.entries.len()
                    invariant
                        *self == Bencodable::Dictionary(*d),
                        k <= d.entries@.len(),
                        entries_of(d.entries@).len() == d.entries@.len(),
                        forall|i: int|
                            0 <= i < d.entries@.len() ==> #[trigger] entries_of(d.entries@)[i] == (
                                d.entries@[i].0@,
                                d.entries@[i].1@,
                            ),
                        forall|a: int, b: int|
                            0 <= a < b < d.entries@.len() ==> lex_lt(
                                d.entries@[a].0@,
                                d.entries@[b].0@,
                            ),
                        copy@.len() == k,
                        forall|i: int| 0 <= i < k ==> (#[trigger] copy@[i]).0@ == d.entries@[i].0@,
                        entries_of(copy@) == entries_of(d.entries@).subrange(0, k as int),
                    decreases d.entries@.len() - k,
                {
                    proof {
                        assert(decreases_to!(*self => (*self)->Dictionary_0));
                        assert(decreases_to!(*d => d.entries));
                        assert(decreases_to!(d.entries => d.entries@));
                        assert(decreases_to!(d.entries@ => d.entries@[k as int]));
                        assert(decreases_to!(d.entries@[k as int] => d.entries@[k as int].1));
                    }
                    let key = d.entries[k].0.copy();
                    let value = d.entries[k].1.duplicate();
                    proof {
                        lemma_entries_of_push(copy@, (key, value));
                        assert(entries_of(d.entries@).subrange(0, k + 1) =~= entries_of(
                            d.entries@,
                        ).subrange(0, k as int).push((key@, value@)));
                    }
                    copy.push((key, value));
                    k = k + 1;
                }
                assert(entries_of(d.entries@).subrange(0, k as int) =~= entries_of(d.entries@));
                let r = Bencodable::Dictionary(BencodeDict { entries: copy });
                proof {
                    lemma_view_cases(r);
                }
                r
            },
        }
    }
}

impl BencodeDict {
    /// Takes out the value stored under `key`, if any.
    pub fn remove(&mut self, key: &[u8]) -> (r: Option<Bencodable>)
        ensures
            r is None <==> lookup(old(self)@, key@) is None,
            r matches Some(v) ==> lookup(old(self)@, key@) == Some(v@),
            r is None ==> final(self)@ == old(self)@,
            r is Some ==> exists|i: int|
                0 <= i < old(self)@.len() && old(self)@[i].0 == key@ && final(self)@ == old(
                    self,
                )@.remove(i),
    {
        proof {
            use_type_invariant(&*self);
            lemma_entries_of(self.entries@);
        }
        let ghost before = self.entries@;
        let mut k: usize = 0;
        while k < self.entries.len()
            invariant
                k <= self.entries@.len(),
                self.entries@ == before,
                self@ == entries_of(before),
                old(self)@ == entries_of(before),
                self@.len() == before.len(),
                forall|i: int|
                    0 <= i < before.len() ==> #[trigger] self@[i] == (before[i].0@, before[i].1@),
                forall|i: int| 0 <= i < k ==> #[trigger] self@[i].0 != key@,
                forall|a: int, b: int|
                    0 <= a < b < before.len() ==> lex_lt(before[a].0@, before[b].0@),
            decreases self.entries@.len() - k,
        {
            if bytes_equal(self.entries[k].0.0.as_slice(), key) {
                proof {
                    lemma_lookup(self@, key@, k as int);
                    let after = before.remove(k as int);
                    assert forall|a: int, b: int| 0 <= a < b < after.len() implies lex_lt(
                        #[trigger] after[a].0@,
                        #[trigger] after[b].0@,
                    ) by {
                        if a >= k {
                            assert(after[a] == before[a + 1]);
                        } else {
                            assert(after[a] == before[a]);
                        }
                        if b >= k {
                            assert(after[b] == before[b + 1]);
                        } else {
                            assert(after[b] == before[b]);
                        }
                    }
                    lemma_entries_of(after);
                    assert(entries_of(after) =~= entries_of(before).remove(k as int));
                }
                let mut entries = Vec::new();
                core::mem::swap(&mut self.entries, &mut entries);
                let (_, value) = entries.remove(k);
                self.entries = entries;
                assert(self@ == old(self)@.remove(k as int));
                return Some(value);
            }
            k = k + 1;
        }
        proof {
            lemma_lookup(self@, key@, k as int);
        }
        None
    }
}

} // verus!
