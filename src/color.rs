use std::hash::DefaultHasher;
use std::hash::Hasher;
use vstd::prelude::*;
use vstd::std_specs::hash::DefaultHasherAdditionalSpecFns;
use vstd::string::*;

verus! {

/// The character of a decimal digit.
pub open spec fn digit_char(d: nat) -> char {
    if d == 0 {
        '0'
    } else if d == 1 {
        '1'
    } else if d == 2 {
        '2'
    } else if d == 3 {
        '3'
    } else if d == 4 {
        '4'
    } else if d == 5 {
        '5'
    } else if d == 6 {
        '6'
    } else if d == 7 {
        '7'
    } else if d == 8 {
        '8'
    } else {
        '9'
    }
}

/// The decimal representation of `n`, without leading zeros.
pub open spec fn decimal(n: nat) -> Seq<char>
    decreases n,
{
    if n < 10 {
        seq![digit_char(n)]
    } else {
        decimal(n / 10).push(digit_char(n % 10))
    }
}

fn digit_str(d: u64) -> (r: &'static str)
    requires
        d < 10,
    ensures
        r@ == seq![digit_char(d as nat)],
{
    proof {
        reveal_strlit("0");
        reveal_strlit("1");
        reveal_strlit("2");
        reveal_strlit("3");
        reveal_strlit("4");
        reveal_strlit("5");
        reveal_strlit("6");
        reveal_strlit("7");
        reveal_strlit("8");
        reveal_strlit("9");
    }
    if d == 0 {
        "0"
    } else if d == 1 {
        "1"
    } else if d == 2 {
        "2"
    } else if d == 3 {
        "3"
    } else if d == 4 {
        "4"
    } else if d == 5 {
        "5"
    } else if d == 6 {
        "6"
    } else if d == 7 {
        "7"
    } else if d == 8 {
        "8"
    } else {
        "9"
    }
}

/// Appends the decimal representation of `n` to `s`.
pub fn append_decimal(s: &mut String, n: u64)
    ensures
        final(s)@ == old(s)@ + decimal(n as nat),
    decreases n,
{
    if n >= 10 {
        append_decimal(s, n / 10);
    }
    let d = digit_str(n % 10);
    s.append(d);
    proof {
        assert(old(s)@ + decimal(n as nat) =~= old(s)@ + decimal((n / 10) as nat) + seq![
            digit_char((n % 10) as nat),
        ] || n < 10);
    }
}

/// Hue of a colour derived from a hash: 0 to 359.
pub open spec fn hue_of(hash: u64) -> nat {
    (hash % 360) as nat
}

/// Saturation (percent) of a colour derived from a hash: 70 to 100.
pub open spec fn saturation_of(hash: u64) -> nat {
    (70 + (hash >> 16u64) % 31) as nat
}

/// Lightness (percent) of a colour derived from a hash: 65 to 85.
pub open spec fn lightness_of(hash: u64) -> nat {
    (65 + (hash >> 32u64) % 21) as nat
}

/// The CSS colour `hsl(H, S%, L%)` derived from a hash.
pub open spec fn color_of_hash(hash: u64) -> Seq<char> {
    "hsl("@ + decimal(hue_of(hash)) + ", "@ + decimal(saturation_of(hash)) + "%, "@ + decimal(
        lightness_of(hash),
    ) + "%)"@
}

/// Turns a hash into a vibrant colour that reads well on a dark background.
pub fn generate_color_from_hash(hash: u64) -> (r: String)
    ensures
        r@ == color_of_hash(hash),
{
    let h = hash % 360;
    let sat = 70 + ((hash >> 16u64) % 31);
    let light = 65 + ((hash >> 32u64) % 21);
    let mut out = String::new();
    out.append("hsl(");
    append_decimal(&mut out, h);
    out.append(", ");
    append_decimal(&mut out, sat);
    out.append("%, ");
    append_decimal(&mut out, light);
    out.append("%)");
    out
}

/// What hashing a string with `Hash::hash` writes into a `DefaultHasher`.
pub uninterp spec fn str_hash_writes(s: Seq<char>) -> Seq<Seq<u8>>;

/// What hashing an `i32` with `Hash::hash` writes into a `DefaultHasher`.
pub uninterp spec fn i32_hash_writes(v: i32) -> Seq<Seq<u8>>;

/// Relies on `<str as Hash>::hash`: the writes depend on the characters alone.
#[verifier::external_body]
pub(crate) fn hash_str_into(s: &str, hasher: &mut DefaultHasher)
    ensures
        final(hasher)@ == old(hasher)@ + str_hash_writes(s@),
{
    std::hash::Hash::hash(s, hasher)
}

/// Relies on `<i32 as Hash>::hash`: the writes depend on the value alone.
#[verifier::external_body]
pub(crate) fn hash_i32_into(v: i32, hasher: &mut DefaultHasher)
    ensures
        final(hasher)@ == old(hasher)@ + i32_hash_writes(v),
{
    std::hash::Hash::hash(&v, hasher)
}

/// The hash that a fresh `DefaultHasher` gives for a string.
pub open spec fn string_hash(s: Seq<char>) -> u64 {
    DefaultHasher::spec_finish(Seq::<Seq<u8>>::empty() + str_hash_writes(s))
}

/// A colour derived from the hash of a string.
pub fn generate_color(s: &str) -> (r: String)
    ensures
        r@ == color_of_hash(string_hash(s@)),
{
    let mut hasher = DefaultHasher::new();
    hash_str_into(s, &mut hasher);
    let hash = hasher.finish();
    generate_color_from_hash(hash)
}

} // verus!
