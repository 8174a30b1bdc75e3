//! Vorud: bytes written as words that can be read aloud. Sixteen bits
//! become one word of five letters, consonant, vowel, consonant, vowel,
//! consonant; words are joined by hyphens.

use vstd::prelude::*;
use vstd::string::*;

verus! {

/// The vowels, in the order of their values.
pub open spec fn vowels() -> Seq<char> {
    seq!['a', 'e', 'i', 'o', 'u']
}

/// The consonants, in the order of their values.
pub open spec fn consonants() -> Seq<char> {
    seq!['b', 'd', 'f', 'g', 'j', 'k', 'm', 'n', 'p', 'r', 's', 't', 'v', 'z']
}

/// What a letter stands for: a vowel or a consonant, with its value.
#[derive(Clone, Copy, PartialEq, Eq, Debug, Structural)]
pub enum Decode {
    V(u16),
    C(u16),
}

/// The value of `c` as a vowel, if it is one.
pub open spec fn vowel_value(c: char) -> Option<int> {
    if c == 'a' {
        Some(0)
    } else if c == 'e' {
        Some(1)
    } else if c == 'i' {
        Some(2)
    } else if c == 'o' {
        Some(3)
    } else if c == 'u' {
        Some(4)
    } else {
        None
    }
}

/// The value of `c` as a consonant, if it is one.
pub open spec fn consonant_value(c: char) -> Option<int> {
    if c == 'b' {
        Some(0)
    } else if c == 'd' {
        Some(1)
    } else if c == 'f' {
        Some(2)
    } else if c == 'g' {
        Some(3)
    } else if c == 'j' {
        Some(4)
    } else if c == 'k' {
        Some(5)
    } else if c == 'm' {
        Some(6)
    } else if c == 'n' {
        Some(7)
    } else if c == 'p' {
        Some(8)
    } else if c == 'r' {
        Some(9)
    } else if c == 's' {
        Some(10)
    } else if c == 't' {
        Some(11)
    } else if c == 'v' {
        Some(12)
    } else if c == 'z' {
        Some(13)
    } else {
        None
    }
}

/// A letter has the value `i` as a vowel exactly when it is the vowel
/// number `i`, and likewise as a consonant.
pub proof fn lemma_letter_values(c: char, i: int)
    ensures
        vowel_value(c) == Some(i) <==> 0 <= i < 5 && vowels()[i] == c,
        consonant_value(c) == Some(i) <==> 0 <= i < 14 && consonants()[i] == c,
{
}

/// The word for the sixteen bits `data`: the digits of `data` in the
/// bases 14, 5, 14, 5 and 14, counted from the right, as two vowels
/// between three consonants, the most significant digit first.
pub open spec fn chunk_text(data: int) -> Seq<char> {
    seq![
        consonants()[data / 14 / 5 / 14 / 5 % 14],
        vowels()[data / 14 / 5 / 14 % 5],
        consonants()[data / 14 / 5 % 14],
        vowels()[data / 14 % 5],
        consonants()[data % 14],
    ]
}

/// The number that the word `word` stands for; `None` where it is not
/// five letters, consonants and vowels in turn.
pub open spec fn chunk_value(word: Seq<char>) -> Option<int> {
    if word.len() == 5 && consonant_value(word[0]) is Some && vowel_value(word[1]) is Some
        && consonant_value(word[2]) is Some && vowel_value(word[3]) is Some && consonant_value(
        word[4],
    ) is Some {
        Some(
            consonant_value(word[0]).unwrap() * 4900 + vowel_value(word[1]).unwrap() * 980
                + consonant_value(word[2]).unwrap() * 70 + vowel_value(word[3]).unwrap() * 14
                + consonant_value(word[4]).unwrap(),
        )
    } else {
        None
    }
}

/// The vowel of value `i`, as a string.
fn vowel(i: u16) -> (s: &'static str)
    requires
        i < 5,
    ensures
        s@ == seq![vowels()[i as int]],
{
    proof {
        reveal_strlit("a");
        reveal_strlit("e");
        reveal_strlit("i");
        reveal_strlit("o");
        reveal_strlit("u");
    }
    let s = if i == 0 {
        "a"
    } else if i == 1 {
        "e"
    } else if i == 2 {
        "i"
    } else if i == 3 {
        "o"
    } else {
        "u"
    };
    proof {
        assert(s@ =~= seq![vowels()[i as int]]);
    }
    s
}

/// The consonant of value `i`, as a string.
fn consonant(i: u16) -> (s: &'static str)
    requires
        i < 14,
    ensures
        s@ == seq![consonants()[i as int]],
{
    proof {
        reveal_strlit("b");
        reveal_strlit("d");
        reveal_strlit("f");
        reveal_strlit("g");
        reveal_strlit("j");
        reveal_strlit("k");
        reveal_strlit("m");
        reveal_strlit("n");
        reveal_strlit("p");
        reveal_strlit("r");
        reveal_strlit("s");
        reveal_strlit("t");
        reveal_strlit("v");
        reveal_strlit("z");
    }
    let s = if i == 0 {
        "b"
    } else if i == 1 {
        "d"
    } else if i == 2 {
        "f"
    } else if i == 3 {
        "g"
    } else if i == 4 {
        "j"
    } else if i == 5 {
        "k"
    } else if i == 6 {
        "m"
    } else if i == 7 {
        "n"
    } else if i == 8 {
        "p"
    } else if i == 9 {
        "r"
    } else if i == 10 {
        "s"
    } else if i == 11 {
        "t"
    } else if i == 12 {
        "v"
    } else {
        "z"
    };
    proof {
        assert(s@ =~= seq![consonants()[i as int]]);
    }
    s
}

/// The word for sixteen bits.
pub fn vorud_chunk(data: u16) -> (word: String)
    ensures
        word@ == chunk_text(data as int),
{
    let c5: u16 = data % 14;
    let v4: u16 = data / 14 % 5;
    let c3: u16 = data / 14 / 5 % 14;
    let v2: u16 = data / 14 / 5 / 14 % 5;
    let c1: u16 = data / 14 / 5 / 14 / 5 % 14;
    let mut word = String::from_str(consonant(c1));
    word.append(vowel(v2));
    word.append(consonant(c3));
    word.append(vowel(v4));
    word.append(consonant(c5));
    proof {
        assert(word@ =~= chunk_text(data as int));
    }
    word
}

/// What the letter `c` stands for, if it is a letter of a word.
pub fn decode(c: char) -> (d: Option<Decode>)
    ensures
        match d {
            Some(Decode::V(i)) => vowel_value(c) == Some(i as int),
            Some(Decode::C(i)) => consonant_value(c) == Some(i as int),
            None => vowel_value(c) is None && consonant_value(c) is None,
        },
{
    if c == 'a' {
        Some(Decode::V(0))
    } else if c == 'b' {
        Some(Decode::C(0))
    } else if c == 'd' {
        Some(Decode::C(1))
    } else if c == 'e' {
        Some(Decode::V(1))
    } else if c == 'f' {
        Some(Decode::C(2))
    } else if c == 'g' {
        Some(Decode::C(3))
    } else if c == 'i' {
        Some(Decode::V(2))
    } else if c == 'j' {
        Some(Decode::C(4))
    } else if c == 'k' {
        Some(Decode::C(5))
    } else if c == 'm' {
        Some(Decode::C(6))
    } else if c == 'n' {
        Some(Decode::C(7))
    } else if c == 'o' {
        Some(Decode::V(3))
    } else if c == 'p' {
        Some(Decode::C(8))
    } else if c == 'r' {
        Some(Decode::C(9))
    } else if c == 's' {
        Some(Decode::C(10))
    } else if c == 't' {
        Some(Decode::C(11))
    } else if c == 'u' {
        Some(Decode::V(4))
    } else if c == 'v' {
        Some(Decode::C(12))
    } else if c == 'z' {
        Some(Decode::C(13))
    } else {
        None
    }
}

/// The value of the vowel `letter`; the error where it is no vowel.
pub fn v(letter: char) -> (r: Result<u16, ()>)
    ensures
        match r {
            Ok(i) => vowel_value(letter) == Some(i as int),
            Err(_) => vowel_value(letter) is None,
        },
{
    match decode(letter) {
        Some(Decode::V(i)) => Ok(i),
        _ => Err(()),
    }
}

/// The value of the consonant `letter`; the error where it is no
/// consonant.
pub fn c(letter: char) -> (r: Result<u16, ()>)
    ensures
        match r {
            Ok(i) => consonant_value(letter) == Some(i as int),
            Err(_) => consonant_value(letter) is None,
        },
{
    match decode(letter) {
        Some(Decode::C(i)) => Ok(i),
        _ => Err(()),
    }
}

/// The sixteen bits that the word `s` stands for; the error where `s` is
/// no word, or stands for a number that sixteen bits cannot hold.
pub fn durov_chunk(s: &str) -> (r: Result<u16, ()>)
    ensures
        match r {
            Ok(x) => chunk_value(s@) == Some(x as int),
            Err(_) => chunk_value(s@) is None || chunk_value(s@).unwrap() > u16::MAX,
        },
{
    if s.unicode_len() != 5 {
        return Err(());
    }
    let c0: u16 = match c(s.get_char(0)) {
        Ok(i) => i,
        Err(_) => {
            return Err(());
        },
    };
    let v1: u16 = match v(s.get_char(1)) {
        Ok(i) => i,
        Err(_) => {
            return Err(());
        },
    };
    let c2: u16 = match c(s.get_char(2)) {
        Ok(i) => i,
        Err(_) => {
            return Err(());
        },
    };
    let v3: u16 = match v(s.get_char(3)) {
        Ok(i) => i,
        Err(_) => {
            return Err(());
        },
    };
    let c4: u16 = match c(s.get_char(4)) {
        Ok(i) => i,
        Err(_) => {
            return Err(());
        },
    };
    let low: u16 = v1 * 980 + c2 * 70 + v3 * 14 + c4;
    let high: u16 = c0 * 4900;
    if low > u16::MAX - high {
        return Err(());
    }
    Ok(high + low)
}

/// A number below 68600 is the sum of its digits in the mixed base of a
/// word, each times the weight of its place.
proof fn lemma_digits(x: int)
    requires
        0 <= x < 68600,
    ensures
        x == (x / 14 / 5 / 14 / 5 % 14) * 4900 + (x / 14 / 5 / 14 % 5) * 980 + (x / 14 / 5 % 14) * 70
            + (x / 14 % 5) * 14 + x % 14,
{
    let q1 = x / 14;
    let q2 = q1 / 5;
    let q3 = q2 / 14;
    let q4 = q3 / 5;
    assert(x == 14 * q1 + x % 14);
    assert(q1 == 5 * q2 + q1 % 5);
    assert(q2 == 14 * q3 + q2 % 14);
    assert(q3 == 5 * q4 + q3 % 5);
    assert(0 <= q4 < 14);
    assert(q4 % 14 == q4);
}

/// The digits of a number that is written in the mixed base of a word.
proof fn lemma_digits_of(c0: int, v1: int, c2: int, v3: int, c4: int)
    requires
        0 <= c0 < 14,
        0 <= v1 < 5,
        0 <= c2 < 14,
        0 <= v3 < 5,
        0 <= c4 < 14,
    ensures
        ({
            let x = c0 * 4900 + v1 * 980 + c2 * 70 + v3 * 14 + c4;
            &&& x / 14 / 5 / 14 / 5 % 14 == c0
            &&& x / 14 / 5 / 14 % 5 == v1
            &&& x / 14 / 5 % 14 == c2
            &&& x / 14 % 5 == v3
            &&& x % 14 == c4
            &&& 0 <= x < 68600
        }),
{
    let x = c0 * 4900 + v1 * 980 + c2 * 70 + v3 * 14 + c4;
    let q1 = c0 * 350 + v1 * 70 + c2 * 5 + v3;
    let q2 = c0 * 70 + v1 * 14 + c2;
    let q3 = c0 * 5 + v1;
    vstd::arithmetic::div_mod::lemma_fundamental_div_mod_converse(x, 14, q1, c4);
    vstd::arithmetic::div_mod::lemma_fundamental_div_mod_converse(q1, 5, q2, v3);
    vstd::arithmetic::div_mod::lemma_fundamental_div_mod_converse(q2, 14, q3, c2);
    vstd::arithmetic::div_mod::lemma_fundamental_div_mod_converse(q3, 5, c0, v1);
    vstd::arithmetic::div_mod::lemma_fundamental_div_mod_converse(c0, 14, 0, c0);
}

/// The vowel number `i` has the value `i`.
proof fn lemma_vowel_at(i: int)
    requires
        0 <= i < 5,
    ensures
        vowel_value(vowels()[i]) == Some(i),
{
}

/// The consonant number `i` has the value `i`.
proof fn lemma_consonant_at(i: int)
    requires
        0 <= i < 14,
    ensures
        consonant_value(consonants()[i]) == Some(i),
{
}

/// A vowel is the vowel that its value numbers.
proof fn lemma_vowel_of(letter: char)
    requires
        vowel_value(letter) is Some,
    ensures
        0 <= vowel_value(letter).unwrap() < 5,
        vowels()[vowel_value(letter).unwrap()] == letter,
{
}

/// A consonant is the consonant that its value numbers.
proof fn lemma_consonant_of(letter: char)
    requires
        consonant_value(letter) is Some,
    ensures
        0 <= consonant_value(letter).unwrap() < 14,
        consonants()[consonant_value(letter).unwrap()] == letter,
{
}

/// Reading the word for sixteen bits gives the sixteen bits back.
pub proof fn lemma_chunk_round_trip(data: int)
    requires
        0 <= data <= u16::MAX,
    ensures
        chunk_value(chunk_text(data)) == Some(data),
{
    let word = chunk_text(data);
    lemma_consonant_at(data / 14 / 5 / 14 / 5 % 14);
    lemma_vowel_at(data / 14 / 5 / 14 % 5);
    lemma_consonant_at(data / 14 / 5 % 14);
    lemma_vowel_at(data / 14 % 5);
    lemma_consonant_at(data % 14);
    assert(word[0] == consonants()[data / 14 / 5 / 14 / 5 % 14]);
    assert(word[1] == vowels()[data / 14 / 5 / 14 % 5]);
    assert(word[2] == consonants()[data / 14 / 5 % 14]);
    assert(word[3] == vowels()[data / 14 % 5]);
    assert(word[4] == consonants()[data % 14]);
    lemma_digits(data);
}

/// A word that stands for a number is the word for that number.
pub proof fn lemma_chunk_text_of_value(word: Seq<char>)
    requires
        chunk_value(word) is Some,
    ensures
        chunk_text(chunk_value(word).unwrap()) == word,
{
    let x = chunk_value(word).unwrap();
    let c0 = consonant_value(word[0]).unwrap();
    let v1 = vowel_value(word[1]).unwrap();
    let c2 = consonant_value(word[2]).unwrap();
    let v3 = vowel_value(word[3]).unwrap();
    let c4 = consonant_value(word[4]).unwrap();
    lemma_consonant_of(word[0]);
    lemma_vowel_of(word[1]);
    lemma_consonant_of(word[2]);
    lemma_vowel_of(word[3]);
    lemma_consonant_of(word[4]);
    lemma_digits_of(c0, v1, c2, v3, c4);
    assert(x == c0 * 4900 + v1 * 980 + c2 * 70 + v3 * 14 + c4);
    assert(chunk_text(x) =~= word);
}

/// The character at place `i` of `text` is what a vorud has there: a
/// hyphen after every five letters, and within the five a vowel at the
/// second and the fourth place, a consonant at the others.
pub open spec fn fits_at(text: Seq<char>, i: int) -> bool {
    if i % 6 == 5 {
        text[i] == '-'
    } else if i % 6 == 1 || i % 6 == 3 {
        vowel_value(text[i]) is Some
    } else {
        consonant_value(text[i]) is Some
    }
}

/// `text` is a vorud: empty, or words of five letters joined by hyphens.
pub open spec fn is_vorud_text(text: Seq<char>) -> bool {
    text.len() == 0 || (text.len() % 6 == 5 && forall|i: int|
        0 <= i < text.len() ==> #[trigger] fits_at(text, i))
}

/// Word number `k` of a vorud.
pub open spec fn word_at(text: Seq<char>, k: int) -> Seq<char> {
    text.subrange(6 * k, 6 * k + 5)
}

/// A text in vorud form.
#[derive(PartialEq, Eq, Debug)]
pub struct Vorud(String);

impl View for Vorud {
    type V = Seq<char>;

    closed spec fn view(&self) -> Seq<char> {
        self.0@
    }
}

impl Vorud {
    #[verifier::type_invariant]
    spec fn inv(&self) -> bool {
        is_vorud_text(self.0@)
    }

    /// Accepts `s` as a vorud where it has the form of one.
    pub fn new(s: String) -> (r: Result<Vorud, ()>)
        ensures
            match r {
                Ok(vorud) => vorud@ == s@ && is_vorud_text(s@),
                Err(_) => !is_vorud_text(s@),
            },
    {
        let n: usize = s.as_str().unicode_len();
        if n == 0 {
            return Ok(Vorud(s));
        }
        if n % 6 != 5 {
            return Err(());
        }
        let mut i: usize = 0;
        while i < n
            invariant
                i <= n,
                n == s@.len(),
                forall|j: int| 0 <= j < i ==> #[trigger] fits_at(s@, j),
            decreases n - i,
        {
            let letter: char = s.as_str().get_char(i);
            let place: usize = i % 6;
            let good: bool = if place == 5 {
                letter == '-'
            } else if place == 1 || place == 3 {
                v(letter).is_ok()
            } else {
                c(letter).is_ok()
            };
            if !good {
                proof {
                    assert(!fits_at(s@, i as int));
                }
                return Err(());
            }
            i = i + 1;
        }
        Ok(Vorud(s))
    }

    /// The text of the vorud.
    pub fn as_str(&self) -> (s: &str)
        ensures
            s@ == self@,
            is_vorud_text(self@),
    {
        proof {
            use_type_invariant(self);
        }
        self.0.as_str()
    }
}

/// A type whose values can be read from a vorud.
pub trait FromVorud<E>: Sized {
    fn from_vorud(v: &Vorud) -> Result<Self, E>;
}

/// A type whose values can be written as a vorud.
pub trait ToVorud {
    fn to_vorud(&self) -> Vorud;
}

/// The sixteen bits that the bytes number `2 * i` and `2 * i + 1` make,
/// the first of them the upper half.
pub open spec fn pair_value(bytes: Seq<u8>, i: int) -> int {
    bytes[2 * i] * 256 + bytes[2 * i + 1]
}

/// The vorud of the first `n` pairs of `bytes`.
pub open spec fn words_text(bytes: Seq<u8>, n: int) -> Seq<char>
    decreases n,
{
    if n <= 0 {
        Seq::empty()
    } else if n == 1 {
        chunk_text(pair_value(bytes, 0))
    } else {
        words_text(bytes, n - 1) + seq!['-'] + chunk_text(pair_value(bytes, n - 1))
    }
}

/// The vorud of `bytes`: one word for each pair of bytes. A byte that is
/// left over at the end is not written.
pub open spec fn bytes_text(bytes: Seq<u8>) -> Seq<char> {
    words_text(bytes, bytes.len() as int / 2)
}

/// The word for sixteen bits is a vorud.
proof fn lemma_word_is_vorud(data: int)
    requires
        0 <= data <= u16::MAX,
    ensures
        is_vorud_text(chunk_text(data)),
        chunk_text(data).len() == 5,
{
    let word = chunk_text(data);
    lemma_chunk_round_trip(data);
    assert forall|i: int| 0 <= i < word.len() implies #[trigger] fits_at(word, i) by {}
}

/// A vorud, a hyphen and a word make a vorud.
proof fn lemma_vorud_append(text: Seq<char>, word: Seq<char>)
    requires
        is_vorud_text(text),
        text.len() > 0,
        is_vorud_text(word),
        word.len() == 5,
    ensures
        is_vorud_text(text + seq!['-'] + word),
        (text + seq!['-'] + word).len() == text.len() + 6,
{
    let all = text + seq!['-'] + word;
    let n = text.len() as int;
    assert forall|i: int| 0 <= i < all.len() implies #[trigger] fits_at(all, i) by {
        if i < n {
            assert(all[i] == text[i]);
            assert(fits_at(text, i));
        } else if i == n {
            assert(all[i] == '-');
        } else {
            assert(all[i] == word[i - n - 1]);
            assert(fits_at(word, i - n - 1));
            assert((i - n - 1) % 6 == i % 6);
        }
    }
}

impl<'a> ToVorud for &'a [u8] {
    /// The vorud of the bytes.
    fn to_vorud(&self) -> (vorud: Vorud)
        ensures
            vorud@ == bytes_text((*self)@),
    {
        let bytes: &[u8] = *self;
        let total: usize = bytes.len();
        let words: usize = total / 2;
        let mut ret = String::new();
        let mut i: usize = 0;
        while i < words
            invariant
                i <= words,
                total == bytes@.len(),
                words == total / 2,
                ret@ == words_text(bytes@, i as int),
                is_vorud_text(ret@),
                ret@.len() == if i == 0 {
                    0
                } else {
                    6 * i - 1
                },
            decreases words - i,
        {
            let b0: u16 = bytes[i * 2] as u16;
            let b1: u16 = bytes[i * 2 + 1] as u16;
            let word: String = vorud_chunk(b0 * 256 + b1);
            proof {
                lemma_word_is_vorud(pair_value(bytes@, i as int));
                if i > 0 {
                    lemma_vorud_append(ret@, word@);
                }
            }
            if i > 0 {
                ret.append("-");
                proof {
                    reveal_strlit("-");
                    assert("-"@ =~= seq!['-']);
                }
            }
            ret.append(word.as_str());
            proof {
                if i == 0 {
                    assert(ret@ =~= word@);
                }
            }
            i = i + 1;
        }
        Vorud(ret)
    }
}

/// The two bytes that are read from a word of the value `x`.
pub open spec fn word_bytes(x: int) -> Seq<u8> {
    seq![(x / 255 % 256) as u8, (x % 255) as u8]
}

/// The bytes that are read from the first `n` words of `text`; `None`
/// where one of them stands for more than sixteen bits can hold.
pub open spec fn text_bytes(text: Seq<char>, n: int) -> Option<Seq<u8>>
    decreases n,
{
    if n <= 0 {
        Some(Seq::empty())
    } else {
        match (text_bytes(text, n - 1), chunk_value(word_at(text, n - 1))) {
            (Some(bytes), Some(x)) => if x <= u16::MAX {
                Some(bytes + word_bytes(x))
            } else {
                None
            },
            _ => None,
        }
    }
}

/// The bytes that are read from a vorud: two from each word. The empty
/// vorud holds no word and gives no bytes.
pub open spec fn vorud_bytes(text: Seq<char>) -> Option<Seq<u8>> {
    if text.len() == 0 {
        None
    } else {
        text_bytes(text, text.len() as int / 6 + 1)
    }
}

/// Once a word cannot be read, the vorud cannot.
proof fn lemma_text_bytes_none(text: Seq<char>, k: int, n: int)
    requires
        k <= n,
        text_bytes(text, k) is None,
    ensures
        text_bytes(text, n) is None,
    decreases n - k,
{
    if k < n {
        lemma_text_bytes_none(text, k, n - 1);
    }
}

impl FromVorud<()> for Vec<u8> {
    /// The bytes of the vorud.
    fn from_vorud(v: &Vorud) -> (r: Result<Vec<u8>, ()>)
        ensures
            match r {
                Ok(bytes) => vorud_bytes(v@) == Some(bytes@),
                Err(_) => vorud_bytes(v@) is None,
            },
    {
        let s: &str = v.as_str();
        let n: usize = s.unicode_len();
        if n == 0 {
            return Err(());
        }
        let words: usize = n / 6 + 1;
        let mut ret: Vec<u8> = Vec::new();
        let mut k: usize = 0;
        while k < words
            invariant
                k <= words,
                words == n / 6 + 1,
                s@ == v@,
                n == s@.len(),
                n % 6 == 5,
                text_bytes(s@, k as int) == Some(ret@),
            decreases words - k,
        {
            assert(6 * k + 5 <= n);
            let word: &str = s.substring_char(6 * k, 6 * k + 5);
            assert(word@ == word_at(s@, k as int));
            match durov_chunk(word) {
                Ok(x) => {
                    let ghost before = ret@;
                    ret.push((x / 255 % 256) as u8);
                    ret.push((x % 255) as u8);
                    proof {
                        assert(ret@ =~= before + word_bytes(x as int));
                    }
                },
                Err(_) => {
                    proof {
                        lemma_text_bytes_none(s@, k + 1, words as int);
                    }
                    return Err(());
                },
            }
            k = k + 1;
        }
        Ok(ret)
    }
}

/// The four bytes that stand for `x` in a vorud, the uppermost first.
pub open spec fn u32_bytes(x: u32) -> Seq<u8> {
    seq![
        (x / 0x1000000 % 255) as u8,
        (x / 0x10000 % 255) as u8,
        (x / 0x100 % 255) as u8,
        (x % 255) as u8,
    ]
}

impl ToVorud for u32 {
    /// The vorud of the number: two words.
    fn to_vorud(&self) -> (vorud: Vorud)
        ensures
            vorud@ == bytes_text(u32_bytes(*self)),
    {
        let x: u32 = *self;
        let mut vec: Vec<u8> = Vec::new();
        vec.push((x / 0x1000000 % 255) as u8);
        vec.push((x / 0x10000 % 255) as u8);
        vec.push((x / 0x100 % 255) as u8);
        vec.push((x % 255) as u8);
        proof {
            assert(vec@ =~= u32_bytes(x));
        }
        vec.as_slice().to_vorud()
    }
}

impl FromVorud<()> for u32 {
    /// The number that the four bytes of the vorud make, the first of them
    /// the uppermost; the error where the vorud does not hold four bytes.
    fn from_vorud(v: &Vorud) -> (r: Result<u32, ()>)
        ensures
            match r {
                Ok(x) => vorud_bytes(v@) matches Some(bytes) && bytes.len() == 4 && x == bytes[3]
                    + bytes[2] * 0x100 + bytes[1] * 0x10000 + bytes[0] * 0x1000000,
                Err(_) => !(vorud_bytes(v@) matches Some(bytes) && bytes.len() == 4),
            },
    {
        let bytes: Vec<u8> = match Vec::<u8>::from_vorud(v) {
            Ok(b) => b,
            Err(_) => {
                return Err(());
            },
        };
        if bytes.len() != 4 {
            return Err(());
        }
        Ok(
            bytes[3] as u32 + bytes[2] as u32 * 0x100 + bytes[1] as u32 * 0x10000 + bytes[0] as u32
                * 0x1000000,
        )
    }
}

} // verus!
