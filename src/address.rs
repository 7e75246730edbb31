use vstd::prelude::*;
use vstd::string::StringExecFns;

verus! {

/// Number of random bytes behind an account or transaction identifier.
pub const ADDRESS_BYTES: usize = 20;

/// The lower-case hexadecimal digits, indexed by value.
pub open spec fn hex_chars() -> Seq<char> {
    seq!['0', '1', '2', '3', '4', '5', '6', '7', '8', '9', 'a', 'b', 'c', 'd', 'e', 'f']
}

/// Two lower-case hexadecimal digits per byte, most significant first.
pub open spec fn hex_of(b: Seq<u8>) -> Seq<char>
    decreases b.len(),
{
    if b.len() == 0 {
        Seq::empty()
    } else {
        let last = b.last();
        hex_of(b.drop_last()) + seq![hex_chars()[(last / 16) as int], hex_chars()[(last % 16) as int]]
    }
}

/// The identifier written for a run of bytes: `0x` and their hexadecimal digits.
pub open spec fn address_of(b: Seq<u8>) -> Seq<char> {
    seq!['0', 'x'] + hex_of(b)
}

/// Relies on rand's thread-local generator (`rand::rng` with
/// `RngCore::fill_bytes`) for fresh random bytes. Nothing is assumed of
/// their values.
#[verifier::external_body]
fn random_bytes() -> (r: [u8; ADDRESS_BYTES]) {
    let mut bytes = [0u8; ADDRESS_BYTES];
    rand::RngCore::fill_bytes(&mut rand::rng(), &mut bytes);
    bytes
}

fn hex_digit(n: u8) -> (r: &'static str)
    requires
        n < 16,
    ensures
        r@ == seq![hex_chars()[n as int]],
{
    proof {
        reveal_strlit("0");
        reveal_strlit("1");
        reveal_strlit("2");
        reveal_strlit("3");
        reveal_strlit("4");
        reveal_strlit("5");
        reveal_strlit("6");
        reveal_strlit("7");
        reveal_strlit("8");
        reveal_strlit("9");
        reveal_strlit("a");
        reveal_strlit("b");
        reveal_strlit("c");
        reveal_strlit("d");
        reveal_strlit("e");
        reveal_strlit("f");
    }
    let r = if n == 0 {
        "0"
    } else if n == 1 {
        "1"
    } else if n == 2 {
        "2"
    } else if n == 3 {
        "3"
    } else if n == 4 {
        "4"
    } else if n == 5 {
        "5"
    } else if n == 6 {
        "6"
    } else if n == 7 {
        "7"
    } else if n == 8 {
        "8"
    } else if n == 9 {
        "9"
    } else if n == 10 {
        "a"
    } else if n == 11 {
        "b"
    } else if n == 12 {
        "c"
    } else if n == 13 {
        "d"
    } else if n == 14 {
        "e"
    } else {
        "f"
    };
    assert(r@ =~= seq![hex_chars()[n as int]]);
    r
}

/// Writes bytes as an identifier: `0x` followed by two lower-case hex
/// digits per byte.
pub fn address_from_bytes(bytes: &[u8]) -> (r: String)
    ensures
        r@ == address_of(bytes@),
{
    let mut s = String::new();
    proof {
        reveal_strlit("0x");
    }
    s.append("0x");
    let mut i: usize = 0;
    while i < bytes.len()
        invariant
            i <= bytes@.len(),
            s@ == address_of(bytes@.subrange(0, i as int)),
        decreases bytes@.len() - i,
    {
        let b = bytes[i];
        s.append(hex_digit(b / 16));
        s.append(hex_digit(b % 16));
        proof {
            let next = bytes@.subrange(0, i + 1);
            assert(next.drop_last() =~= bytes@.subrange(0, i as int));
            assert(next.last() == b);
        }
        i = i + 1;
        assert(s@ =~= address_of(bytes@.subrange(0, i as int)));
    }
    assert(bytes@.subrange(0, bytes@.len() as int) =~= bytes@);
    s
}

/// A fresh random identifier: `0x` and forty hex digits of random bytes.
pub fn random_address() -> (r: String)
    ensures
        exists|b: Seq<u8>| b.len() == ADDRESS_BYTES && r@ == address_of(b),
{
    let bytes = random_bytes();
    let r = address_from_bytes(&bytes);
    assert(bytes@.len() == ADDRESS_BYTES);
    r
}

} // verus!
