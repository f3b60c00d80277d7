//! Base-62 label codec: a deterministic, reversible mapping between 128-bit
//! identifiers and short printable strings over the alphabet of digits,
//! uppercase letters and lowercase letters, in that order.

use vstd::prelude::*;

verus! {

/// Largest number of digits a decodable label may have: every `u128` value
/// fits in 22 base-62 digits.
pub const MAX_LABEL_LEN: usize = 22;

/// The character standing for the base-62 digit `d`: `'0'..='9'` for 0..=9,
/// `'A'..='Z'` for 10..=35, `'a'..='z'` for 36..=61.
pub open spec fn digit_char(d: int) -> char {
    if d < 10 {
        ((48 + d) as u8) as char
    } else if d < 36 {
        ((55 + d) as u8) as char
    } else {
        ((61 + d) as u8) as char
    }
}

/// Whether `c` belongs to the 62-character alphabet.
pub open spec fn is_b62_char(c: char) -> bool {
    (48 <= c as int && c as int <= 57) || (65 <= c as int && c as int <= 90) || (97 <= c as int
        && c as int <= 122)
}

/// The base-62 digit a character stands for (meaningful only on alphabet
/// characters).
pub open spec fn digit_val(c: char) -> int {
    if c as int <= 57 {
        c as int - 48
    } else if c as int <= 90 {
        c as int - 55
    } else {
        c as int - 61
    }
}

/// Base-62 digit string of `x`, most significant digit first; empty for 0.
pub open spec fn encode_rec(x: nat) -> Seq<char>
    decreases x,
{
    if x == 0 {
        Seq::empty()
    } else {
        encode_rec(x / 62).push(digit_char((x % 62) as int))
    }
}

/// The label of `x`: its base-62 digit string, except that 0 is written "0".
pub open spec fn encode_spec(x: nat) -> Seq<char> {
    if x == 0 {
        seq!['0']
    } else {
        encode_rec(x)
    }
}

/// Whether every character of `s` belongs to the alphabet.
pub open spec fn all_b62(s: Seq<char>) -> bool {
    forall|i: int| 0 <= i < s.len() ==> is_b62_char(s[i])
}

/// The numeric value of a digit string, most significant digit first.
pub open spec fn str_val(s: Seq<char>) -> int
    decreases s.len(),
{
    if s.len() == 0 {
        0
    } else {
        str_val(s.drop_last()) * 62 + digit_val(s.last())
    }
}

/// What `decode` returns on the character sequence `s`: the value of `s`,
/// unless `s` is longer than 22 characters, holds a character outside the
/// alphabet, or its value does not fit in 128 bits.
pub open spec fn decode_spec(s: Seq<char>) -> Option<u128> {
    if s.len() <= MAX_LABEL_LEN && all_b62(s) && str_val(s) <= u128::MAX {
        Some(str_val(s) as u128)
    } else {
        None
    }
}

/// 62 raised to the power `n`.
pub open spec fn pow62(n: nat) -> nat
    decreases n,
{
    if n == 0 {
        1
    } else {
        62 * pow62((n - 1) as nat)
    }
}

/// Digit characters decode back to the digit they stand for, and belong to
/// the alphabet.
proof fn lemma_digit_char_val(d: int)
    requires
        0 <= d < 62,
    ensures
        is_b62_char(digit_char(d)),
        digit_val(digit_char(d)) == d,
{
}

/// Every character of a digit string of a number belongs to the alphabet.
proof fn lemma_encode_rec_valid(x: nat)
    ensures
        all_b62(encode_rec(x)),
    decreases x,
{
    if x > 0 {
        lemma_encode_rec_valid(x / 62);
        lemma_digit_char_val((x % 62) as int);
    }
}

/// The digit string of a number has that number as its value.
proof fn lemma_encode_rec_val(x: nat)
    ensures
        str_val(encode_rec(x)) == x,
    decreases x,
{
    if x > 0 {
        lemma_encode_rec_val(x / 62);
        lemma_digit_char_val((x % 62) as int);
        let s = encode_rec(x);
        assert(s.drop_last() =~= encode_rec(x / 62));
        vstd::arithmetic::div_mod::lemma_fundamental_div_mod(x as int, 62);
    }
}

/// A number below `62^n` has at most `n` base-62 digits.
proof fn lemma_encode_rec_len(x: nat, n: nat)
    requires
        x < pow62(n),
    ensures
        encode_rec(x).len() <= n,
    decreases x,
{
    if x > 0 {
        assert(pow62(0) == 1);
        assert(n > 0);
        assert(x / 62 < pow62((n - 1) as nat)) by {
            vstd::arithmetic::div_mod::lemma_multiply_divide_lt(
                x as int,
                62,
                pow62((n - 1) as nat) as int,
            );
        }
        lemma_encode_rec_len(x / 62, (n - 1) as nat);
    }
}

/// Every 128-bit value fits in 22 base-62 digits.
proof fn lemma_pow62_22_large()
    ensures
        u128::MAX < pow62(22),
{
    assert(pow62(0) == 1);
    assert(pow62(1) == 62);
    assert(pow62(2) == 3844);
    assert(pow62(3) == 238328);
    assert(pow62(4) == 14776336);
    assert(pow62(5) == 916132832);
    assert(pow62(6) == 56800235584);
    assert(pow62(7) == 3521614606208);
    assert(pow62(8) == 218340105584896);
    assert(pow62(9) == 13537086546263552);
    assert(pow62(10) == 839299365868340224);
    assert(pow62(11) == 52036560683837093888);
    assert(pow62(12) == 3226266762397899821056);
    assert(pow62(13) == 200028539268669788905472);
    assert(pow62(14) == 12401769434657526912139264);
    assert(pow62(15) == 768909704948766668552634368);
    assert(pow62(16) == 47672401706823533450263330816);
    assert(pow62(17) == 2955688905823059073916326510592);
    assert(pow62(18) == 183252712161029662582812243656704);
    assert(pow62(19) == 11361668153983839080134359106715648);
    assert(pow62(20) == 704423425546998022968330264616370176);
    assert(pow62(21) == 43674252383913877424036476406214950912);
    assert(pow62(22) == 2707803647802660400290261537185326956544);
}

/// A digit string never has a negative value.
proof fn lemma_str_val_nonneg(s: Seq<char>)
    requires
        all_b62(s),
    ensures
        str_val(s) >= 0,
    decreases s.len(),
{
    if s.len() > 0 {
        lemma_str_val_nonneg(s.drop_last());
        vstd::arithmetic::mul::lemma_mul_inequality(0, str_val(s.drop_last()), 62);
    }
}

/// Extending a digit string on the right never lowers its value.
proof fn lemma_str_val_prefix(s: Seq<char>, i: int)
    requires
        all_b62(s),
        0 <= i <= s.len(),
    ensures
        str_val(s.take(i)) <= str_val(s),
    decreases s.len() - i,
{
    if i < s.len() {
        lemma_str_val_prefix(s, i + 1);
        let t = s.take(i + 1);
        assert(t.drop_last() =~= s.take(i));
        assert(all_b62(t.drop_last()));
        lemma_str_val_nonneg(t.drop_last());
        assert(str_val(t) == str_val(s.take(i)) * 62 + digit_val(s[i]));
        vstd::arithmetic::mul::lemma_mul_inequality(
            str_val(s.take(i)),
            str_val(s.take(i)) * 62,
            1,
        );
        assert(str_val(s.take(i)) <= str_val(s.take(i)) * 62) by (nonlinear_arith)
            requires
                str_val(s.take(i)) >= 0,
        ;
    } else {
        assert(s.take(i) =~= s);
    }
}

/// Round trip: decoding the label of any 128-bit value gives that value back,
/// and the label of 0 is the single character "0".
pub proof fn lemma_encode_decode(x: u128)
    ensures
        decode_spec(encode_spec(x as nat)) == Some(x),
        encode_spec(0) == seq!['0'],
{
    if x == 0 {
        let s = seq!['0'];
        assert(s.drop_last() =~= Seq::<char>::empty());
        assert(str_val(Seq::<char>::empty()) == 0);
        assert(s.last() == '0');
        assert(str_val(s) == str_val(s.drop_last()) * 62 + digit_val(s.last()));
        assert(str_val(s) == digit_val('0'));
        assert(all_b62(s)) by {
            assert(s[0] == '0');
        }
    } else {
        lemma_encode_rec_valid(x as nat);
        lemma_encode_rec_val(x as nat);
        lemma_pow62_22_large();
        lemma_encode_rec_len(x as nat, 22);
    }
}

/// Decoding rejects every string longer than 22 characters, and every string
/// holding a character outside the 62-character alphabet.
pub proof fn lemma_decode_rejects(s: Seq<char>)
    requires
        s.len() > 22 || exists|i: int| 0 <= i < s.len() && !is_b62_char(s[i]),
    ensures
        decode_spec(s) is None,
{
}

/// Relies on String::push: appends the given character at the end.
#[verifier::external_body]
fn push_char(s: &mut String, c: char)
    ensures
        final(s)@ == old(s)@.push(c),
{
    s.push(c);
}

/// The alphabet character standing for digit `d`.
fn digit_char_exec(d: u8) -> (c: char)
    requires
        d < 62,
    ensures
        c == digit_char(d as int),
{
    if d < 10 {
        (48 + d) as char
    } else if d < 36 {
        (55 + d) as char
    } else {
        (61 + d) as char
    }
}

/// The digit a character stands for, or nothing when the character is
/// outside the alphabet.
fn digit_val_exec(c: char) -> (r: Option<u8>)
    ensures
        r is Some <==> is_b62_char(c),
        r is Some ==> r->0 == digit_val(c) && r->0 < 62,
{
    let u = c as u32;
    if 48 <= u && u <= 57 {
        Some((u - 48) as u8)
    } else if 65 <= u && u <= 90 {
        Some((u - 55) as u8)
    } else if 97 <= u && u <= 122 {
        Some((u - 61) as u8)
    } else {
        None
    }
}

/// Encode a 128-bit value as its base-62 label, most significant digit
/// first; 0 becomes "0".
pub fn encode(number: u128) -> (r: String)
    ensures
        r@ == encode_spec(number as nat),
{
    if number == 0 {
        let z = "0".to_owned();
        proof {
            reveal_strlit("0");
            assert(z@ =~= seq!['0']);
        }
        return z;
    }
    let mut n: u128 = number;
    let mut r = String::new();
    while n > 0
        invariant
            encode_rec(number as nat) =~= encode_rec(n as nat) + r@,
        decreases n,
    {
        let d: u8 = (n % 62) as u8;
        let c = digit_char_exec(d);
        let mut piece = String::new();
        push_char(&mut piece, c);
        proof {
            assert(encode_rec(n as nat) =~= encode_rec(n as nat / 62) + piece@);
        }
        r = piece.concat(r.as_str());
        n = n / 62;
    }
    proof {
        assert(encode_rec(number as nat) =~= r@);
    }
    r
}

/// Decode a base-62 label back to its 128-bit value; absent when the label
/// is longer than 22 characters, holds a character outside the alphabet, or
/// its value overflows 128 bits.
pub fn decode(string: &str) -> (r: Option<u128>)
    ensures
        r == decode_spec(string@),
{
    let ghost s = string@;
    let n = string.unicode_len();
    if n > MAX_LABEL_LEN {
        return None;
    }
    let mut result: u128 = 0;
    let mut i: usize = 0;
    while i < n
        invariant
            0 <= i <= n,
            n == s.len(),
            n <= MAX_LABEL_LEN,
            s == string@,
            all_b62(s.take(i as int)),
            result == str_val(s.take(i as int)),
        decreases n - i,
    {
        let c = string.get_char(i);
        let d = match digit_val_exec(c) {
            Some(d) => d,
            None => {
                proof {
                    assert(!is_b62_char(s[i as int]));
                }
                return None;
            },
        };
        proof {
            let t = s.take(i + 1);
            assert(t.drop_last() =~= s.take(i as int));
            assert(t.last() == s[i as int]);
        }
        let prod = match result.checked_mul(62) {
            Some(p) => p,
            None => {
                proof {
                    lemma_decode_overflow(s, i as int, result as int, digit_val(s[i as int]));
                }
                return None;
            },
        };
        let sum = match prod.checked_add(d as u128) {
            Some(q) => q,
            None => {
                proof {
                    lemma_decode_overflow(s, i as int, result as int, digit_val(s[i as int]));
                }
                return None;
            },
        };
        result = sum;
        i = i + 1;
    }
    proof {
        assert(s.take(n as int) =~= s);
    }
    Some(result)
}

/// When the value accumulated over a prefix already exceeds 128 bits, the
/// whole string decodes to nothing.
proof fn lemma_decode_overflow(s: Seq<char>, i: int, prefix: int, d: int)
    requires
        0 <= i < s.len(),
        all_b62(s.take(i)),
        is_b62_char(s[i]),
        prefix == str_val(s.take(i)),
        d == digit_val(s[i]),
        prefix * 62 + d > u128::MAX,
    ensures
        decode_spec(s) is None,
{
    if all_b62(s) {
        let t = s.take(i + 1);
        assert(t.drop_last() =~= s.take(i));
        assert(t.last() == s[i]);
        assert(str_val(t) == prefix * 62 + d);
        lemma_str_val_prefix(s, i + 1);
    }
}

} // verus!
