//! Repair of the export's per-byte `\u00XY` escapes.
use vstd::prelude::*;
use crate::error::ConversationError;

verus! {

/// An ASCII hexadecimal digit, in either case.
pub open spec fn is_hex(c: u8) -> bool {
    (48 <= c <= 57) || (65 <= c <= 70) || (97 <= c <= 102)
}

/// The value of a hexadecimal digit.
pub open spec fn hex_val(c: u8) -> int {
    if 48 <= c <= 57 {
        c - 48
    } else if 65 <= c <= 70 {
        c - 55
    } else {
        c - 87
    }
}

/// Whether the six bytes starting at `i` read `\u00XY` with hex digits `X`, `Y`.
pub open spec fn escape_at(b: Seq<u8>, i: int) -> bool {
    &&& 0 <= i
    &&& i + 6 <= b.len()
    &&& b[i] == 92
    &&& b[i + 1] == 117
    &&& b[i + 2] == 48
    &&& b[i + 3] == 48
    &&& is_hex(b[i + 4])
    &&& is_hex(b[i + 5])
}

/// The byte that the escape starting at `i` stands for.
pub open spec fn escaped_byte(b: Seq<u8>, i: int) -> u8 {
    (16 * hex_val(b[i + 4]) + hex_val(b[i + 5])) as u8
}

/// The repaired buffer: scanning from the left, every escape becomes the byte
/// it stands for, and every other byte is copied through.
pub open spec fn repaired(b: Seq<u8>) -> Seq<u8>
    decreases b.len(),
{
    if b.len() == 0 {
        Seq::empty()
    } else if escape_at(b, 0) {
        seq![escaped_byte(b, 0)] + repaired(b.skip(6))
    } else {
        seq![b[0]] + repaired(b.skip(1))
    }
}

/// The lowercase hexadecimal digit of a value below 16.
pub open spec fn hex_digit(v: int) -> u8 {
    if v < 10 {
        (48 + v) as u8
    } else {
        (87 + v) as u8
    }
}

/// The export's escape of one byte: `\u00XY` with `XY` its value in hex.
pub open spec fn escape_of(c: u8) -> Seq<u8> {
    seq![92u8, 117u8, 48u8, 48u8, hex_digit(c as int / 16), hex_digit(c as int % 16)]
}

/// The export's escaping of a buffer: each ASCII byte as it is, each other
/// byte as its escape.
pub open spec fn escaped(b: Seq<u8>) -> Seq<u8>
    decreases b.len(),
{
    if b.len() == 0 {
        b
    } else if b[0] < 128 {
        seq![b[0]] + escaped(b.skip(1))
    } else {
        escape_of(b[0]) + escaped(b.skip(1))
    }
}

proof fn lemma_escaped_head(b: Seq<u8>)
    ensures
        b.len() == 0 ==> escaped(b).len() == 0,
        b.len() > 0 ==> escaped(b).len() > 0 && escaped(b)[0] == (if b[0] < 128 {
            b[0]
        } else {
            92u8
        }),
        b.len() > 0 && b[0] < 128 ==> escaped(b) == seq![b[0]] + escaped(b.skip(1)),
{
}

/// Escaping a buffer and repairing the result gives the buffer back, provided
/// that the buffer itself holds no escape.
pub proof fn lemma_escape_round_trip(b: Seq<u8>)
    requires
        forall|i: int| !escape_at(b, i),
    ensures
        repaired(escaped(b)) == b,
    decreases b.len(),
{
    if b.len() > 0 {
        let t = b.skip(1);
        assert forall|i: int| !escape_at(t, i) by {
            if escape_at(t, i) {
                assert(escape_at(b, i + 1));
            }
        }
        lemma_escape_round_trip(t);
        let e = escaped(b);
        if b[0] < 128 {
            if b[0] == 92 && escape_at(e, 0) {
                let b1 = t;
                let b2 = b1.skip(1);
                let b3 = b2.skip(1);
                let b4 = b3.skip(1);
                let b5 = b4.skip(1);
                lemma_escaped_head(b1);
                assert(e[1] == escaped(b1)[0]);
                assert(b1[0] == 117);
                lemma_escaped_head(b2);
                assert(e[2] == escaped(b2)[0]);
                assert(b2[0] == 48);
                lemma_escaped_head(b3);
                assert(e[3] == escaped(b3)[0]);
                assert(b3[0] == 48);
                lemma_escaped_head(b4);
                assert(e[4] == escaped(b4)[0]);
                assert(b4[0] == e[4]);
                lemma_escaped_head(b5);
                assert(e[5] == escaped(b5)[0]);
                assert(b5[0] == e[5]);
                assert(escape_at(b, 0));
            }
            assert(!escape_at(e, 0));
            assert(e.skip(1) =~= escaped(t));
            assert(seq![b[0]] + t =~= b);
        } else {
            let c = b[0];
            assert(escape_at(e, 0));
            assert(escaped_byte(e, 0) == c);
            assert(e.skip(6) =~= escaped(t));
            assert(seq![c] + t =~= b);
        }
    }
}

fn is_hex_digit(c: u8) -> (r: bool)
    ensures
        r == is_hex(c),
{
    (48 <= c && c <= 57) || (65 <= c && c <= 70) || (97 <= c && c <= 102)
}

fn hex_digit_value(c: u8) -> (r: u8)
    requires
        is_hex(c),
    ensures
        r as int == hex_val(c),
        r < 16,
{
    if 48 <= c && c <= 57 {
        c - 48
    } else if 65 <= c && c <= 70 {
        c - 55
    } else {
        c - 87
    }
}

/// Replaces each `\u00XY` escape of the buffer by the byte `0xXY`; everything
/// else, including an incomplete escape at the end, is copied unchanged.
pub fn repair_escapes(buffer: &Vec<u8>) -> (r: Vec<u8>)
    ensures
        r@ == repaired(buffer@),
{
    let mut out: Vec<u8> = Vec::new();
    let n = buffer.len();
    let mut i: usize = 0;
    proof {
        assert(buffer@.skip(0) =~= buffer@);
        assert(out@ + repaired(buffer@) =~= repaired(buffer@));
    }
    while i < n
        invariant
            n == buffer@.len(),
            i <= n,
            out@ + repaired(buffer@.skip(i as int)) == repaired(buffer@),
        decreases n - i,
    {
        let ghost rest = buffer@.skip(i as int);
        if n - i >= 6 && buffer[i] == 92 && buffer[i + 1] == 117 && buffer[i + 2] == 48
            && buffer[i + 3] == 48 && is_hex_digit(buffer[i + 4]) && is_hex_digit(
            buffer[i + 5],
        ) {
            let hi = hex_digit_value(buffer[i + 4]);
            let lo = hex_digit_value(buffer[i + 5]);
            let v: u8 = hi * 16 + lo;
            proof {
                assert(escape_at(rest, 0));
                assert(rest.skip(6) =~= buffer@.skip(i + 6));
                assert(v == escaped_byte(rest, 0));
                assert(out@.push(v) + repaired(buffer@.skip(i + 6)) =~= out@ + repaired(rest));
            }
            out.push(v);
            i = i + 6;
        } else {
            proof {
                assert(!escape_at(rest, 0));
                assert(rest.skip(1) =~= buffer@.skip(i + 1));
                assert(out@.push(buffer@[i as int]) + repaired(buffer@.skip(i + 1)) =~= out@
                    + repaired(rest));
            }
            out.push(buffer[i]);
            i = i + 1;
        }
    }
    proof {
        assert(buffer@.skip(n as int) =~= Seq::<u8>::empty());
        assert(out@ + repaired(buffer@.skip(n as int)) =~= out@);
    }
    out
}

/// The text that a byte buffer encodes as UTF-8, or `None` when it is not
/// valid UTF-8.
pub uninterp spec fn utf8_text(b: Seq<u8>) -> Option<Seq<char>>;

/// Relies on `String::from_utf8`: it succeeds exactly on valid UTF-8, with the
/// text those bytes encode.
#[verifier::external_body]
fn text_from_utf8(b: Vec<u8>) -> (r: Option<String>)
    ensures
        r is Some <==> utf8_text(b@) is Some,
        r is Some ==> r->Some_0@ == utf8_text(b@)->Some_0,
{
    String::from_utf8(b).ok()
}

/// Repairs the escapes of a raw export file and reads the result as UTF-8
/// text; fails with `InvalidEncoding` exactly when the repaired bytes are not
/// valid UTF-8.
pub fn decode_export(raw: &Vec<u8>) -> (r: Result<String, ConversationError>)
    ensures
        utf8_text(repaired(raw@)) is Some ==> (r matches Ok(s) && s@ == utf8_text(
            repaired(raw@),
        )->Some_0),
        utf8_text(repaired(raw@)) is None ==> r matches Err(ConversationError::InvalidEncoding),
{
    let bytes = repair_escapes(raw);
    match text_from_utf8(bytes) {
        Some(s) => Ok(s),
        None => Err(ConversationError::InvalidEncoding),
    }
}

} // verus!
