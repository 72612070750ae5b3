//! The textual form of `u256`: 64 lowercase hexadecimal digits, most
//! significant first.
use vstd::prelude::*;
use vstd::arithmetic::power2::pow2;
use crate::arithmetic256::{lemma_pow2_256, lemma_val_order, limb_base, u256, word_mod};

verus! {

/// The character of hexadecimal digit `d`, `0 <= d < 16`, in lower case.
pub open spec fn hex_char(d: int) -> char {
    if d < 10 {
        (d + 48) as u8 as char
    } else {
        (d + 87) as u8 as char
    }
}

/// The digit that character `c` stands for, in either case; `-1` for a
/// character that is no hexadecimal digit.
pub open spec fn digit_value(c: char) -> int {
    let u = c as u32;
    if 48 <= u <= 57 {
        u - 48
    } else if 97 <= u <= 102 {
        u - 87
    } else if 65 <= u <= 70 {
        u - 55
    } else {
        -1
    }
}

/// 64 hexadecimal digits, each a digit of `v` in base 16.
pub open spec fn hex_of(v: int) -> Seq<char> {
    Seq::new(64, |j: int| hex_char((v / (pow2((4 * (63 - j)) as nat) as int)) % 16))
}

/// Each character is a hexadecimal digit.
pub open spec fn all_hex_digits(s: Seq<char>) -> bool {
    forall|i: int| 0 <= i < s.len() ==> digit_value(#[trigger] s[i]) >= 0
}

/// The number that the hexadecimal digits `s` spell, most significant first.
pub open spec fn hex_value(s: Seq<char>) -> int
    decreases s.len(),
{
    if s.len() == 0 {
        0
    } else {
        hex_value(s.drop_last()) * 16 + digit_value(s.last())
    }
}

/// Relies on String::push: appends one character.
#[verifier::external_body]
fn push_char(s: &mut String, c: char)
    ensures
        final(s)@ == old(s)@.push(c),
{
    s.push(c);
}

impl u256 {
    /// The value as 64 lowercase hexadecimal digits, high limb first.
    pub fn to_hex(&self) -> (r: String)
        ensures
            r@ == hex_of(self.val()),
    {
        let ghost v = self.val();
        let mut x = *self;
        let mut low_first: Vec<char> = Vec::new();
        let mut k: usize = 0;
        proof {
            vstd::arithmetic::power2::lemma2_to64();
            assert(pow2(0) == 1);
            assert(v / 1 == v);
        }
        while k < 64
            invariant
                k <= 64,
                v == self.val(),
                0 <= v,
                x.val() == v / (pow2((4 * k) as nat) as int),
                low_first@.len() == k,
                forall|j: int|
                    0 <= j < k ==> low_first@[j] == hex_char(
                        (v / (pow2((4 * j) as nat) as int)) % 16,
                    ),
            decreases 64 - k,
        {
            proof {
                lemma_low_nibble(x);
            }
            let d = (x.lo & 0xf) as u8;
            let c = if d < 10 {
                (d + 48) as char
            } else {
                (d + 87) as char
            };
            low_first.push(c);
            proof {
                lemma_div16_step(v, k as nat);
            }
            x.shr();
            x.shr();
            x.shr();
            x.shr();
            k = k + 1;
        }
        let mut r = String::new();
        let mut t: usize = 0;
        while t < 64
            invariant
                t <= 64,
                low_first@.len() == 64,
                forall|j: int|
                    0 <= j < 64 ==> low_first@[j] == hex_char(
                        (v / (pow2((4 * j) as nat) as int)) % 16,
                    ),
                r@ == hex_of(v).subrange(0, t as int),
            decreases 64 - t,
        {
            push_char(&mut r, low_first[63 - t]);
            t = t + 1;
            assert(r@ =~= hex_of(v).subrange(0, t as int));
        }
        assert(r@ =~= hex_of(v));
        r
    }
}

impl u256 {
    /// The value that 64 hexadecimal digits spell, most significant first,
    /// in either case; `None` for any other text.
    pub fn from_hex(s: &str) -> (r: Option<u256>)
        ensures
            r is Some <==> s@.len() == 64 && all_hex_digits(s@),
            r matches Some(v) ==> v.val() == hex_value(s@),
    {
        broadcast use vstd::string::is_ascii_spec_bytes;

        if !s.is_ascii() {
            proof {
                lemma_non_ascii_not_hex(s@);
            }
            return None;
        }
        let b = s.as_bytes();
        assert(b@ =~= Seq::new(s@.len(), |i: int| s@[i] as u8));
        if b.len() != 64 {
            return None;
        }
        let sixteen = u256 { lo: 16, hi: 0 };
        let mut acc = u256::zero();
        let mut i: usize = 0;
        proof {
            vstd::arithmetic::power2::lemma2_to64();
            lemma_pow2_256();
            assert(s@.subrange(0, 0) =~= Seq::<char>::empty());
        }
        while i < 64
            invariant
                i <= 64,
                s@.len() == 64,
                b@ == Seq::new(s@.len(), |j: int| s@[j] as u8),
                vstd::string::is_ascii(s),
                pow2(256) == word_mod(),
                sixteen.val() == 16,
                acc.val() == hex_value(s@.subrange(0, i as int)),
                0 <= acc.val() < pow2((4 * i) as nat),
                all_hex_digits(s@.subrange(0, i as int)),
            decreases 64 - i,
        {
            let c = b[i];
            assert(c as u32 == s@[i as int] as u32);
            let d: u128 = if 48 <= c && c <= 57 {
                (c - 48) as u128
            } else if 97 <= c && c <= 102 {
                (c - 87) as u128
            } else if 65 <= c && c <= 70 {
                (c - 55) as u128
            } else {
                proof {
                    assert(digit_value(s@[i as int]) < 0);
                }
                return None;
            };
            let ghost before = acc.val();
            proof {
                vstd::arithmetic::power2::lemma2_to64();
                vstd::arithmetic::power2::lemma_pow2_adds((4 * i) as nat, 4);
                if i + 1 < 64 {
                    vstd::arithmetic::power2::lemma_pow2_strictly_increases(
                        (4 * (i + 1)) as nat,
                        256,
                    );
                }
                assert(before * 16 + d < pow2((4 * (i + 1)) as nat)) by (nonlinear_arith)
                    requires
                        0 <= before < pow2((4 * i) as nat),
                        0 <= d < 16,
                        pow2((4 * i + 4) as nat) == pow2((4 * i) as nat) * 16,
                        (4 * i + 4) == 4 * (i + 1),
                ;
                vstd::arithmetic::div_mod::lemma_small_mod((before * 16) as nat, word_mod() as nat);
                vstd::arithmetic::div_mod::lemma_small_mod(
                    (before * 16 + d) as nat,
                    word_mod() as nat,
                );
            }
            acc.mul(&sixteen);
            acc.add(&u256 { lo: d, hi: 0 });
            proof {
                let pre = s@.subrange(0, i as int);
                let next = s@.subrange(0, i + 1);
                assert(next.drop_last() =~= pre);
                assert(next.last() == s@[i as int]);
                assert forall|j: int| 0 <= j < next.len() implies digit_value(#[trigger] next[j])
                    >= 0 by {
                    if j < i {
                        assert(next[j] == pre[j]);
                    }
                }
            }
            i = i + 1;
        }
        assert(s@.subrange(0, 64) =~= s@);
        Some(acc)
    }
}

/// The hexadecimal display of a value consists of 64 digits that spell the
/// value again: `from_hex(to_hex(v))` gives back `v`.
pub proof fn lemma_hex_round_trip(v: u256)
    ensures
        hex_of(v.val()).len() == 64,
        all_hex_digits(hex_of(v.val())),
        hex_value(hex_of(v.val())) == v.val(),
{
    lemma_val_order(v, v);
    lemma_hex_prefix(v.val(), 64);
    assert(hex_of(v.val()).subrange(0, 64) =~= hex_of(v.val()));
    vstd::arithmetic::power2::lemma2_to64();
}

/// Text with a character beyond ASCII holds a character that is no hexadecimal digit.
proof fn lemma_non_ascii_not_hex(s: Seq<char>)
    requires
        !vstd::utf8::is_ascii_chars(s),
    ensures
        !all_hex_digits(s),
{
    let i = choose|i: int| 0 <= i < s.len() && !('\0' <= #[trigger] s[i] <= '\u{7f}');
    lemma_char_ascii(s[i]);
}

/// A character is ASCII exactly when its code is below 128.
proof fn lemma_char_ascii(c: char)
    ensures
        ('\0' <= c <= '\u{7f}') == (c as u32 <= 127),
{
}

/// Each digit character reads back as the digit it was made from.
proof fn lemma_hex_char(d: int)
    requires
        0 <= d < 16,
    ensures
        digit_value(hex_char(d)) == d,
{
}

/// The first `k` digits of `hex_of(v)` spell `v / 16^(64 - k)`.
proof fn lemma_hex_prefix(v: int, k: nat)
    requires
        0 <= v < word_mod(),
        k <= 64,
    ensures
        hex_value(hex_of(v).subrange(0, k as int)) == v / (pow2((4 * (64 - k)) as nat) as int),
        all_hex_digits(hex_of(v).subrange(0, k as int)),
    decreases k,
{
    let h = hex_of(v);
    if k == 0 {
        assert(h.subrange(0, 0) =~= Seq::<char>::empty());
        vstd::arithmetic::power2::lemma_pow2_pos(256);
        lemma_pow2_256();
        vstd::arithmetic::div_mod::lemma_basic_div(v, word_mod());
    } else {
        lemma_hex_prefix(v, (k - 1) as nat);
        let j = (64 - k) as nat;
        let pre = h.subrange(0, k - 1);
        let next = h.subrange(0, k as int);
        assert(next.drop_last() =~= pre);
        vstd::arithmetic::power2::lemma_pow2_pos(4 * j);
        let w = v / (pow2(4 * j) as int);
        lemma_hex_char(w % 16);
        lemma_div16_step(v, j);
        vstd::arithmetic::div_mod::lemma_fundamental_div_mod(w, 16);
        assert forall|t: int| 0 <= t < next.len() implies digit_value(#[trigger] next[t]) >= 0 by {
            if t < k - 1 {
                assert(next[t] == pre[t]);
            } else {
                lemma_hex_char(w % 16);
            }
        }
    }
}

/// The low four bits of `x` are its value modulo 16.
proof fn lemma_low_nibble(x: u256)
    ensures
        (x.lo & 0xf) == x.val() % 16,
        x.lo & 0xf < 16,
{
    let lo = x.lo;
    assert(lo & 0xf == lo % 16 && lo & 0xf < 16) by (bit_vector);
    let q = limb_base() / 16;
    assert(limb_base() == 16 * q);
    let h16 = x.hi * q;
    assert(x.val() == h16 * 16 + lo) by (nonlinear_arith)
        requires
            x.val() == x.hi * limb_base() + lo,
            limb_base() == 16 * q,
            h16 == x.hi * q,
    ;
}

/// Dividing by 2^(4k) and then by 16 is dividing by 2^(4(k+1)).
proof fn lemma_div16_step(v: int, k: nat)
    requires
        0 <= v,
    ensures
        v / (pow2(4 * k) as int) / 16 == v / (pow2(4 * (k + 1)) as int),
        v / (pow2(4 * k) as int) / 2 / 2 / 2 / 2 == v / (pow2(4 * (k + 1)) as int),
{
    vstd::arithmetic::power2::lemma2_to64();
    vstd::arithmetic::power2::lemma_pow2_adds(4 * k, 4);
    vstd::arithmetic::power2::lemma_pow2_pos(4 * k);
    let p = pow2(4 * k) as int;
    vstd::arithmetic::div_mod::lemma_div_denominator(v, p, 16);
    let w = v / p;
    vstd::arithmetic::div_mod::lemma_div_denominator(w, 2, 2);
    vstd::arithmetic::div_mod::lemma_div_denominator(w, 4, 2);
    vstd::arithmetic::div_mod::lemma_div_denominator(w, 8, 2);
    assert(w >= 0) by {
        vstd::arithmetic::div_mod::lemma_div_pos_is_pos(v, p);
    }
}

} // verus!
