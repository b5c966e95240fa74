//! Lower-case hexadecimal encoding and decoding over byte vectors, with a
//! proved round trip. The sync layer spells response keys in hex inside its
//! request control messages.
use vstd::prelude::*;

verus! {

/// ASCII digit for a nibble (0..16): '0'..'9' then 'a'..'f'.
pub open spec fn hex_digit(n: u8) -> u8 {
    if n < 10 {
        (48 + n) as u8
    } else {
        (87 + n) as u8
    }
}

/// Lower-case hex spelling of a byte sequence, two digits per byte.
pub open spec fn spec_hex_encode(s: Seq<u8>) -> Seq<u8>
    decreases s.len(),
{
    if s.len() == 0 {
        Seq::empty()
    } else {
        spec_hex_encode(s.drop_last()) + seq![
            hex_digit(s.last() / 16),
            hex_digit(s.last() % 16),
        ]
    }
}

pub proof fn lemma_hex_encode_len(s: Seq<u8>)
    ensures
        spec_hex_encode(s).len() == 2 * s.len(),
    decreases s.len(),
{
    if s.len() > 0 {
        lemma_hex_encode_len(s.drop_last());
    }
}

/// Whether an ASCII byte is a hex digit, upper or lower case.
pub open spec fn is_hex_digit(c: u8) -> bool {
    (48 <= c && c <= 57) || (97 <= c && c <= 102) || (65 <= c && c <= 70)
}

/// Value of a hex digit; meaningful only where is_hex_digit holds.
pub open spec fn spec_hex_val(c: u8) -> u8 {
    if 48 <= c && c <= 57 {
        (c - 48) as u8
    } else if 97 <= c && c <= 102 {
        (c - 87) as u8
    } else if 65 <= c && c <= 70 {
        (c - 55) as u8
    } else {
        0
    }
}

/// Whether a byte sequence is well-formed hex: even length, digits only.
pub open spec fn is_hex_seq(s: Seq<u8>) -> bool {
    s.len() % 2 == 0 && forall|i: int| 0 <= i < s.len() ==> is_hex_digit(#[trigger] s[i])
}

/// The bytes a well-formed hex sequence spells.
pub open spec fn spec_hex_decode(s: Seq<u8>) -> Seq<u8> {
    Seq::new(s.len() / 2, |i: int| (spec_hex_val(s[2 * i]) * 16 + spec_hex_val(s[2 * i + 1])) as u8)
}

pub fn hex_encode(data: &[u8]) -> (r: Vec<u8>)
    ensures
        r@ == spec_hex_encode(data@),
        r@.len() == 2 * data@.len(),
{
    let mut r: Vec<u8> = Vec::new();
    let mut i: usize = 0;
    proof {
        assert(data@.subrange(0, 0) =~= Seq::<u8>::empty());
    }
    while i < data.len()
        invariant
            i <= data@.len(),
            r@ == spec_hex_encode(data@.subrange(0, i as int)),
            r@.len() == 2 * i,
        decreases data@.len() - i,
    {
        let b = data[i];
        let hi = b / 16;
        let lo = b % 16;
        let hi_c = if hi < 10 {
            48 + hi
        } else {
            87 + hi
        };
        let lo_c = if lo < 10 {
            48 + lo
        } else {
            87 + lo
        };
        r.push(hi_c);
        r.push(lo_c);
        proof {
            let s1 = data@.subrange(0, i + 1);
            assert(s1.drop_last() =~= data@.subrange(0, i as int));
            assert(r@ =~= spec_hex_encode(s1.drop_last()) + seq![
                hex_digit(s1.last() / 16),
                hex_digit(s1.last() % 16),
            ]);
            lemma_hex_encode_len(s1);
        }
        i = i + 1;
    }
    proof {
        assert(data@.subrange(0, data@.len() as int) =~= data@);
    }
    r
}

/// Decode hex; None exactly where the input is not well-formed hex.
pub fn hex_decode(s: &[u8]) -> (r: Option<Vec<u8>>)
    ensures
        r is Some <==> is_hex_seq(s@),
        r is Some ==> r.unwrap()@ == spec_hex_decode(s@),
{
    if s.len() % 2 != 0 {
        return None;
    }
    let mut out: Vec<u8> = Vec::new();
    let mut i: usize = 0;
    while i < s.len()
        invariant
            s@.len() % 2 == 0,
            i % 2 == 0,
            i <= s@.len(),
            out@.len() == i / 2,
            forall|j: int| 0 <= j < i ==> is_hex_digit(#[trigger] s@[j]),
            forall|j: int|
                0 <= j < i / 2 ==> out@[j] == (spec_hex_val(s@[2 * j]) * 16 + spec_hex_val(
                    s@[2 * j + 1],
                )) as u8,
        decreases s@.len() - i,
    {
        let hi = s[i];
        let lo = s[i + 1];
        let hv = if 48 <= hi && hi <= 57 {
            hi - 48
        } else if 97 <= hi && hi <= 102 {
            hi - 87
        } else if 65 <= hi && hi <= 70 {
            hi - 55
        } else {
            return None;
        };
        let lv = if 48 <= lo && lo <= 57 {
            lo - 48
        } else if 97 <= lo && lo <= 102 {
            lo - 87
        } else if 65 <= lo && lo <= 70 {
            lo - 55
        } else {
            return None;
        };
        out.push(hv * 16 + lv);
        i = i + 2;
    }
    proof {
        assert(out@ =~= spec_hex_decode(s@));
    }
    Some(out)
}

/// Round trip: decoding an encoding gives the bytes back.
///
/// Law: for every byte sequence, its hex spelling is well-formed hex and
/// decodes to the original sequence.
pub proof fn lemma_hex_round_trip(data: Seq<u8>)
    ensures
        is_hex_seq(spec_hex_encode(data)),
        spec_hex_decode(spec_hex_encode(data)) == data,
    decreases data.len(),
{
    lemma_hex_encode_len(data);
    if data.len() == 0 {
        assert(spec_hex_decode(spec_hex_encode(data)) =~= data);
    } else {
        lemma_hex_round_trip(data.drop_last());
        lemma_hex_encode_len(data.drop_last());
        let e = spec_hex_encode(data);
        let ep = spec_hex_encode(data.drop_last());
        assert forall|i: int| 0 <= i < e.len() implies is_hex_digit(#[trigger] e[i]) by {
            if i < ep.len() {
                assert(e[i] == ep[i]);
            }
        }
        assert forall|i: int| 0 <= i < data.len() implies spec_hex_decode(e)[i] == data[i] by {
            if i < data.len() - 1 {
                assert(e[2 * i] == ep[2 * i]);
                assert(e[2 * i + 1] == ep[2 * i + 1]);
                assert(spec_hex_decode(ep)[i] == data.drop_last()[i]);
            } else {
                assert(e[2 * i] == hex_digit(data.last() / 16));
                assert(e[2 * i + 1] == hex_digit(data.last() % 16));
                assert(data.last() / 16 * 16 + data.last() % 16 == data.last());
            }
        }
        assert(spec_hex_decode(e) =~= data);
    }
}

} // verus!
