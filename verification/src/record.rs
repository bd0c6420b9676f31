//! Payload records: the `Record` contract and the record of fifteen numbers
//! that is ordered by how many of them are prime.

use vstd::prelude::*;
use vstd::slice::*;
use vstd::string::StrSliceExecFns;
use rand::Rng;
use crate::bytes::{
    Bytes, le_bytes_of_u32, lemma_u32_le_round_trip, u32_from_le, u32_le_bytes, u32s_of_le_bytes,
};
use crate::device::zeros;

verus! {

/// Why a record could not be made.
#[derive(Copy, Clone, PartialEq, Eq, Debug)]
pub enum RecordError {
    /// The bytes supplied do not have the width of a record.
    InvalidData,
    /// The bytes supplied are those of the empty record.
    NotFound,
}

/// A payload with a fixed-width encoding and a total preorder, given by a
/// sort key: records with equal keys are equivalent, not necessarily equal.
pub trait Record: Bytes {
    /// The number records are ordered by.
    spec fn order_key(self) -> nat;

    /// The record a line of text stands for.
    spec fn from_text(text: Seq<char>) -> Self;

    /// Records are narrow enough to sit beside a key in a data block.
    proof fn lemma_record_width()
        ensures
            Self::width() <= 0xffff_ffff,
    ;

    /// A slot of zeros holds the sentinel, so that a zeroed block holds no
    /// record.
    proof fn lemma_zeros_are_empty()
        ensures
            Self::decoding(zeros(Self::width())) == Self::sentinel(),
    ;

    /// The empty record, which is the sentinel.
    fn new() -> (r: Self)
        ensures
            r == Self::sentinel(),
    ;

    fn from_string(string: String) -> (r: Result<Self, RecordError>)
        ensures
            r == Ok::<Self, RecordError>(Self::from_text(string@)),
    ;

    /// A record drawn at random.
    fn from_random() -> (r: Result<Self, RecordError>)
        ensures
            r is Ok,
    ;

    fn sort_key(&self) -> (k: u64)
        ensures
            k == self.order_key(),
    ;
}

/// The record that `bytes` hold. There is none where the bytes do not
/// have the width of a record, nor where they hold the empty record.
pub fn read_record<T: Record>(bytes: &[u8]) -> (r: Result<T, RecordError>)
    ensures
        bytes@.len() != T::width() ==> r == Err::<T, RecordError>(RecordError::InvalidData),
        bytes@.len() == T::width() && T::decoding(bytes@) == T::sentinel() ==> r == Err::<
            T,
            RecordError,
        >(RecordError::NotFound),
        bytes@.len() == T::width() && T::decoding(bytes@) != T::sentinel() ==> r == Ok::<
            T,
            RecordError,
        >(T::decoding(bytes@)),
{
    if bytes.len() as u64 != T::get_size() {
        return Err(RecordError::InvalidData);
    }
    let record = T::from_bytes(bytes);
    if record.is_invalid() {
        return Err(RecordError::NotFound);
    }
    Ok(record)
}

/// How many numbers an `IntRecord` holds.
pub const NUMBERS: usize = 15;

/// Whether `n` is a prime number.
pub open spec fn is_prime_number(n: nat) -> bool {
    &&& n >= 2
    &&& forall|d: nat| 2 <= d < n ==> #[trigger] (n % d) != 0
}

/// How many of `numbers` are prime.
pub open spec fn prime_count(numbers: Seq<u32>) -> nat
    decreases numbers.len(),
{
    if numbers.len() == 0 {
        0
    } else {
        prime_count(numbers.drop_last()) + if is_prime_number(numbers.last() as nat) {
            1nat
        } else {
            0nat
        }
    }
}

/// The numbers one after the other, four little-endian bytes each.
pub open spec fn encode_numbers(numbers: Seq<u32>) -> Seq<u8> {
    Seq::new(4 * numbers.len(), |j: int| u32_le_bytes(numbers[j / 4])[j % 4])
}

/// The numbers that `bytes` holds, four little-endian bytes each.
pub open spec fn decode_numbers(bytes: Seq<u8>) -> Seq<u32> {
    Seq::new(
        bytes.len() / 4,
        |i: int| u32_from_le(bytes.subrange(4 * i, 4 * i + 4)),
    )
}

/// The characters that separate the numbers of a line.
pub open spec fn is_space(c: char) -> bool {
    c == ' ' || c == '\t' || c == '\n' || c == '\r' || c == '\u{c}'
}

pub open spec fn is_digit(c: char) -> bool {
    '0' <= c <= '9'
}

/// The number that a string of decimal digits writes.
pub open spec fn digits_value(digits: Seq<char>) -> nat
    decreases digits.len(),
{
    if digits.len() == 0 {
        0
    } else {
        (10 * digits_value(digits.drop_last()) + (digits.last() as nat - '0' as nat)) as nat
    }
}

/// Whether every character of `digits` is a decimal digit.
pub open spec fn all_digits(digits: Seq<char>) -> bool {
    forall|i: int| 0 <= i < digits.len() ==> is_digit(#[trigger] digits[i])
}

/// A word without the plus sign that may stand in front of it.
pub open spec fn unsigned_part(word: Seq<char>) -> Seq<char> {
    if word.len() > 0 && word[0] == '+' {
        word.subrange(1, word.len() as int)
    } else {
        word
    }
}

/// What one word of a line counts for: its value where it is a decimal
/// number that fits 32 bits, with or without a plus sign in front, and zero
/// where it is anything else.
pub open spec fn word_value(word: Seq<char>) -> u32 {
    let digits = unsigned_part(word);
    if digits.len() > 0 && all_digits(digits) && digits_value(digits) <= u32::MAX {
        digits_value(digits) as u32
    } else {
        0
    }
}

/// The first position at or after `i` that holds no space.
pub open spec fn skip_spaces(text: Seq<char>, i: int) -> int
    decreases text.len() - i,
{
    if 0 <= i < text.len() && is_space(text[i]) {
        skip_spaces(text, i + 1)
    } else {
        i
    }
}

/// The first position at or after `i` that holds a space, or the end.
pub open spec fn word_end(text: Seq<char>, i: int) -> int
    decreases text.len() - i,
{
    if 0 <= i < text.len() && !is_space(text[i]) {
        word_end(text, i + 1)
    } else {
        i
    }
}

/// The values of the first `room` words of `text` from position `i` on.
pub open spec fn words_from(text: Seq<char>, i: int, room: nat) -> Seq<u32>
    decreases room,
{
    let start = skip_spaces(text, i);
    if room == 0 || !(0 <= start < text.len()) {
        Seq::empty()
    } else {
        let end = word_end(text, start);
        seq![word_value(text.subrange(start, end))] + words_from(text, end, (room - 1) as nat)
    }
}

/// `numbers` cut or filled with zeros to `len` numbers.
pub open spec fn padded(numbers: Seq<u32>, len: nat) -> Seq<u32> {
    Seq::new(len, |i: int| if i < numbers.len() { numbers[i] } else { 0u32 })
}

/// `rand::Rng::gen_range` on the thread's generator with the range
/// `1..10`: some number of that range.
#[verifier::external_body]
fn random_digit() -> (n: u32)
    ensures
        1 <= n < 10,
{
    rand::thread_rng().gen_range(1..10)
}

/// `primes::is_prime`: false below 2, otherwise whether the number is its
/// own least factor above 1.
#[verifier::external_body]
fn is_prime(n: u32) -> (b: bool)
    ensures
        b == is_prime_number(n as nat),
{
    primes::is_prime(n as u64)
}

/// Number `i` of the encoding's groups of four bytes encodes number `i`.
pub proof fn lemma_encoded_group(numbers: Seq<u32>, i: int)
    requires
        0 <= i < numbers.len(),
    ensures
        encode_numbers(numbers).subrange(4 * i, 4 * i + 4) == u32_le_bytes(numbers[i]),
{
    let group = encode_numbers(numbers).subrange(4 * i, 4 * i + 4);
    let word = u32_le_bytes(numbers[i]);
    assert(word.len() == 4);
    assert forall|k: int| 0 <= k < 4 implies group[k] == word[k] by {
        assert((4 * i + k) / 4 == i);
        assert((4 * i + k) % 4 == k);
    }
    assert(group =~= word);
}

/// Decoding an encoding gives the numbers back.
pub proof fn lemma_numbers_round_trip(numbers: Seq<u32>)
    ensures
        encode_numbers(numbers).len() == 4 * numbers.len(),
        decode_numbers(encode_numbers(numbers)) == numbers,
{
    let bytes = encode_numbers(numbers);
    let back = decode_numbers(bytes);
    assert(back.len() == numbers.len());
    assert forall|i: int| 0 <= i < numbers.len() implies back[i] == numbers[i] by {
        lemma_encoded_group(numbers, i);
        lemma_u32_le_round_trip(numbers[i]);
    }
    assert(back =~= numbers);
}

/// A record of fifteen numbers of 32 bits. Records are ordered by how
/// many of their numbers are prime; the record of fifteen zeros is the
/// empty record.
#[derive(Copy, Clone, Debug)]
pub struct IntRecord {
    numbers: [u32; 15],
}

impl IntRecord {
    /// The numbers of the record, in order.
    pub closed spec fn view(self) -> Seq<u32> {
        self.numbers@
    }

    /// The record with exactly these numbers.
    pub closed spec fn with_numbers(numbers: Seq<u32>) -> Self {
        choose|r: IntRecord| r.numbers@ == numbers
    }

    /// A record is determined by its numbers.
    pub proof fn lemma_view_determines(self, other: Self)
        requires
            self@ == other@,
        ensures
            self == other,
    {
        assert(self.numbers@ =~= other.numbers@);
        assert(self.numbers == other.numbers);
    }

    /// Every record has fifteen numbers and is the record of its numbers.
    pub proof fn lemma_view(self)
        ensures
            self@.len() == NUMBERS,
            Self::with_numbers(self@) == self,
    {
        let r = Self::with_numbers(self@);
        assert(r.numbers@ == self.numbers@);
        r.lemma_view_determines(self);
    }

    /// The record that holds `numbers`.
    pub fn from_numbers(numbers: [u32; 15]) -> (r: Self)
        ensures
            r@ == numbers@,
    {
        IntRecord { numbers }
    }

    /// The numbers of the record.
    pub fn numbers(&self) -> (numbers: [u32; 15])
        ensures
            numbers@ == self@,
    {
        self.numbers
    }

    /// The value of the word that starts at `start`, and where it ends.
    fn read_word(text: &str, len: usize, start: usize) -> (r: (u32, usize))
        requires
            len == text@.len(),
            start < len,
            !is_space(text@[start as int]),
        ensures
            r.1 == word_end(text@, start as int),
            start < r.1 <= len,
            r.0 == word_value(text@.subrange(start as int, r.1 as int)),
    {
        let first = text.get_char(start);
        let from: usize = if first == '+' { start + 1 } else { start };
        let mut i: usize = from;
        let mut value: u64 = 0;
        let mut all_digits = true;
        let mut fits = true;
        proof {
            assert(word_end(text@, start as int) == word_end(text@, start as int + 1));
            assert(text@.subrange(from as int, i as int) =~= Seq::<char>::empty());
        }
        while i < len && !is_space_char(text.get_char(i))
            invariant
                len == text@.len(),
                start <= from <= i <= len,
                start < len,
                from == start || from == start + 1,
                i > start || from == start,
                word_end(text@, start as int) == word_end(text@, i as int),
                forall|k: int| from <= k < i ==> !is_space(#[trigger] text@[k]),
                all_digits == (forall|k: int| from <= k < i ==> is_digit(#[trigger] text@[k])),
                all_digits && fits ==> value == digits_value(text@.subrange(from as int, i as int)),
                all_digits ==> (fits == (digits_value(text@.subrange(from as int, i as int))
                    <= u32::MAX)),
                value <= u32::MAX,
            decreases len - i,
        {
            let c = text.get_char(i);
            proof {
                let before = text@.subrange(from as int, i as int);
                let after = text@.subrange(from as int, i as int + 1);
                assert(after.drop_last() =~= before);
                assert(after.last() == c);
            }
            if all_digits && '0' <= c && c <= '9' {
                if fits {
                    let digit: u64 = (c as u32 - '0' as u32) as u64;
                    let next: u64 = value * 10 + digit;
                    if next <= 0xffff_ffff {
                        value = next;
                    } else {
                        fits = false;
                    }
                }
            } else {
                all_digits = false;
            }
            i += 1;
        }
        proof {
            assert(i > start);
            assert(word_end(text@, i as int) == i);
            let word = text@.subrange(start as int, i as int);
            let digits = text@.subrange(from as int, i as int);
            assert(word[0] == first);
            assert(unsigned_part(word) =~= digits);
            if all_digits {
                assert forall|k: int| 0 <= k < digits.len() implies is_digit(
                    #[trigger] digits[k],
                ) by {
                    assert(digits[k] == text@[from + k]);
                }
            } else {
                let k = choose|k: int| from <= k < i && !is_digit(#[trigger] text@[k]);
                assert(digits[k - from] == text@[k]);
            }
        }
        let number: u32 = if all_digits && fits && i > from { value as u32 } else { 0 };
        (number, i)
    }

    /// How many of the record's numbers are prime.
    pub fn get_primes(&self) -> (primes: u32)
        ensures
            primes == prime_count(self@),
    {
        let mut primes: u32 = 0;
        let mut i: usize = 0;
        while i < NUMBERS
            invariant
                0 <= i <= NUMBERS,
                primes == prime_count(self.numbers@.take(i as int)),
                primes <= i,
            decreases NUMBERS - i,
        {
            proof {
                assert(self.numbers@.take(i + 1).drop_last() =~= self.numbers@.take(i as int));
            }
            if is_prime(self.numbers[i]) {
                primes += 1;
            }
            i += 1;
        }
        proof {
            assert(self.numbers@.take(NUMBERS as int) =~= self.numbers@);
        }
        primes
    }
}

/// Whether `c` separates the numbers of a line.
fn is_space_char(c: char) -> (b: bool)
    ensures
        b == is_space(c),
{
    c == ' ' || c == '\t' || c == '\n' || c == '\r' || c == '\u{c}'
}

impl Bytes for IntRecord {
    open spec fn width() -> nat {
        60
    }

    open spec fn encoding(self) -> Seq<u8> {
        encode_numbers(self@)
    }

    open spec fn decoding(bytes: Seq<u8>) -> Self {
        Self::with_numbers(decode_numbers(bytes))
    }

    open spec fn sentinel() -> Self {
        Self::with_numbers(Seq::new(15, |i: int| 0u32))
    }

    proof fn lemma_width_bounds() {
    }

    proof fn lemma_encoding_len(v: Self) {
        v.lemma_view();
    }

    proof fn lemma_round_trip(v: Self) {
        v.lemma_view();
        lemma_numbers_round_trip(v@);
    }

    fn get_size() -> (n: u64) {
        60
    }

    fn to_bytes(&self) -> (bytes: Vec<u8>) {
        let mut bytes: Vec<u8> = Vec::new();
        let mut i: usize = 0;
        while i < NUMBERS
            invariant
                0 <= i <= NUMBERS,
                bytes@.len() == 4 * i,
                forall|j: int|
                    0 <= j < 4 * i ==> #[trigger] bytes@[j] == u32_le_bytes(
                        self.numbers@[j / 4],
                    )[j % 4],
            decreases NUMBERS - i,
        {
            let mut word = le_bytes_of_u32(self.numbers[i]);
            bytes.append(&mut word);
            i += 1;
        }
        assert(bytes@ =~= self.encoding());
        bytes
    }

    fn from_bytes(bytes: &[u8]) -> (v: Self) {
        let decoded = u32s_of_le_bytes(bytes, NUMBERS);
        let mut numbers = [0u32; 15];
        let mut i: usize = 0;
        while i < NUMBERS
            invariant
                0 <= i <= NUMBERS,
                decoded@.len() == NUMBERS,
                forall|j: int| 0 <= j < i ==> #[trigger] numbers@[j] == decoded@[j],
            decreases NUMBERS - i,
        {
            numbers[i] = decoded[i];
            i += 1;
        }
        let v = IntRecord { numbers };
        proof {
            assert(v@ =~= decode_numbers(bytes@));
            v.lemma_view();
        }
        v
    }

    fn invalid() -> (v: Self) {
        let v = IntRecord { numbers: [0u32; 15] };
        proof {
            assert(v@ =~= Seq::new(15, |i: int| 0u32));
            v.lemma_view();
        }
        v
    }

    fn is_invalid(&self) -> (b: bool) {
        let mut i: usize = 0;
        while i < NUMBERS
            invariant
                0 <= i <= NUMBERS,
                forall|j: int| 0 <= j < i ==> #[trigger] self.numbers@[j] == 0,
            decreases NUMBERS - i,
        {
            if self.numbers[i] != 0 {
                proof {
                    let zero = Self::sentinel();
                    if *self == zero {
                        Self::invalid_view();
                        assert(self@[i as int] == 0);
                    }
                }
                return false;
            }
            i += 1;
        }
        proof {
            Self::invalid_view();
            assert(self@ =~= Self::sentinel()@);
            self.lemma_view_determines(Self::sentinel());
        }
        true
    }
}

impl IntRecord {
    /// The sentinel holds fifteen zeros.
    pub proof fn invalid_view()
        ensures
            Self::sentinel()@ == Seq::new(15, |i: int| 0u32),
    {
        let zeros = Seq::new(15, |i: int| 0u32);
        let witness = IntRecord { numbers: vstd::array::spec_array_fill_for_copy_type(0u32) };
        broadcast use vstd::array::axiom_spec_array_fill_for_copy_type;
        assert(witness.numbers@ =~= zeros);
    }
}

impl Record for IntRecord {
    open spec fn order_key(self) -> nat {
        prime_count(self@)
    }

    open spec fn from_text(text: Seq<char>) -> Self {
        Self::with_numbers(padded(words_from(text, 0, NUMBERS as nat), NUMBERS as nat))
    }

    proof fn lemma_record_width() {
    }

    proof fn lemma_zeros_are_empty() {
        let numbers = decode_numbers(zeros(60));
        assert forall|i: int| 0 <= i < 15 implies numbers[i] == 0u32 by {
            let word = zeros(60).subrange(4 * i, 4 * i + 4);
            assert(word =~= seq![0u8, 0u8, 0u8, 0u8]);
        }
        assert(numbers =~= Seq::new(15, |i: int| 0u32));
    }

    fn new() -> (r: Self) {
        Self::invalid()
    }

    fn from_string(string: String) -> (r: Result<Self, RecordError>) {
        let text = string.as_str();
        let len = text.unicode_len();
        let mut numbers = [0u32; 15];
        let mut count: usize = 0;
        let mut i: usize = 0;
        let ghost mut found: Seq<u32> = Seq::empty();
        loop
            invariant
                len == text@.len(),
                0 <= i <= len,
                0 <= count <= NUMBERS,
                found.len() == count,
                forall|k: int| 0 <= k < count ==> #[trigger] numbers@[k] == found[k],
                forall|k: int| count <= k < NUMBERS ==> #[trigger] numbers@[k] == 0,
                words_from(text@, 0, NUMBERS as nat) == found + words_from(
                    text@,
                    i as int,
                    (NUMBERS - count) as nat,
                ),
            ensures
                count >= NUMBERS || i >= len,
            decreases NUMBERS - count,
        {
            if count >= NUMBERS {
                break;
            }
            let ghost from = i;
            while i < len && is_space_char(text.get_char(i))
                invariant
                    len == text@.len(),
                    0 <= i <= len,
                    skip_spaces(text@, from as int) == skip_spaces(text@, i as int),
                decreases len - i,
            {
                i += 1;
            }
            proof {
                assert(skip_spaces(text@, i as int) == i);
                assert(words_from(text@, from as int, (NUMBERS - count) as nat) == words_from(
                    text@,
                    i as int,
                    (NUMBERS - count) as nat,
                ));
            }
            if i >= len {
                break;
            }
            let (value, end) = Self::read_word(text, len, i);
            numbers[count] = value;
            proof {
                let rest = words_from(text@, end as int, (NUMBERS - count - 1) as nat);
                assert(words_from(text@, from as int, (NUMBERS - count) as nat) == seq![value]
                    + rest);
                assert(found + (seq![value] + rest) =~= found.push(value) + rest);
                found = found.push(value);
            }
            count += 1;
            i = end;
        }
        let r = IntRecord { numbers };
        proof {
            assert(skip_spaces(text@, i as int) == i || i < len);
            assert(words_from(text@, i as int, (NUMBERS - count) as nat) =~= Seq::<u32>::empty());
            assert(found + Seq::<u32>::empty() =~= found);
            assert(r@ =~= padded(found, NUMBERS as nat));
            r.lemma_view();
        }
        Ok(r)
    }

    fn from_random() -> (r: Result<Self, RecordError>)
        ensures
            r is Ok,
            forall|i: int| 0 <= i < NUMBERS ==> 1 <= #[trigger] r->Ok_0@[i] < 10,
    {
        let mut numbers = [0u32; 15];
        let mut i: usize = 0;
        while i < NUMBERS
            invariant
                0 <= i <= NUMBERS,
                forall|j: int| 0 <= j < i ==> 1 <= #[trigger] numbers@[j] < 10,
            decreases NUMBERS - i,
        {
            numbers[i] = random_digit();
            i += 1;
        }
        Ok(IntRecord { numbers })
    }

    fn sort_key(&self) -> (k: u64) {
        self.get_primes() as u64
    }
}

} // verus!
