use vstd::prelude::*;

verus! {

/// The lowercase hexadecimal digit for `d` (below 16).
pub open spec fn hex_digit(d: u8) -> char {
    if d < 10 {
        (48 + d) as char
    } else {
        (87 + d) as char
    }
}

/// Two lowercase hexadecimal digits per byte, high half first.
pub open spec fn hex_spec(data: Seq<u8>) -> Seq<char>
    decreases data.len(),
{
    if data.len() == 0 {
        Seq::empty()
    } else {
        hex_spec(data.drop_last()) + seq![hex_digit(data.last() / 16), hex_digit(data.last() % 16)]
    }
}

/// Relies on `String::push`: appends one character.
#[verifier::external_body]
fn push_char(s: &mut String, c: char)
    ensures
        final(s)@ == old(s)@.push(c),
{
    s.push(c);
}

fn digit_char(d: u8) -> (r: char)
    requires
        d < 16,
    ensures
        r == hex_digit(d),
{
    if d < 10 {
        (48u8 + d) as char
    } else {
        (87u8 + d) as char
    }
}

/// The lowercase hexadecimal text of a byte sequence.
pub fn u8_to_hex_string(data: &[u8]) -> (r: String)
    ensures
        r@ == hex_spec(data@),
{
    let mut rv = String::new();
    let mut i: usize = 0;
    while i < data.len()
        invariant
            i <= data@.len(),
            rv@ == hex_spec(data@.take(i as int)),
        decreases data@.len() - i,
    {
        let c = data[i];
        assert(c >> 4 == c / 16) by (bit_vector);
        push_char(&mut rv, digit_char(c >> 4));
        push_char(&mut rv, digit_char(c % 16));
        assert(data@.take(i + 1).drop_last() =~= data@.take(i as int));
        i = i + 1;
    }
    assert(data@.take(data@.len() as int) =~= data@);
    rv
}


/// The value of one hexadecimal digit, in either case.
pub open spec fn hex_digit_value(c: u8) -> Option<u8> {
    if 48 <= c <= 57 {
        Some((c - 48) as u8)
    } else if 97 <= c <= 102 {
        Some((c - 87) as u8)
    } else if 65 <= c <= 70 {
        Some((c - 55) as u8)
    } else {
        None
    }
}

/// The bytes that hexadecimal text stands for, two digits per byte, high half
/// first; `None` for an odd number of characters or a character that is no
/// hexadecimal digit.
pub open spec fn hex_decode_spec(text: Seq<u8>) -> Option<Seq<u8>>
    decreases text.len(),
{
    if text.len() == 0 {
        Some(Seq::empty())
    } else if text.len() == 1 {
        None
    } else {
        match (
            hex_digit_value(text[0]),
            hex_digit_value(text[1]),
            hex_decode_spec(text.subrange(2, text.len() as int)),
        ) {
            (Some(h), Some(l), Some(rest)) => Some(seq![(h * 16 + l) as u8] + rest),
            _ => None,
        }
    }
}

fn digit_value(c: u8) -> (r: Option<u8>)
    ensures
        r == hex_digit_value(c),
{
    if 48 <= c && c <= 57 {
        Some(c - 48)
    } else if 97 <= c && c <= 102 {
        Some(c - 87)
    } else if 65 <= c && c <= 70 {
        Some(c - 55)
    } else {
        None
    }
}

/// Decodes one line of hexadecimal text into the bytes it stands for.
pub fn hex_to_bytes(text: &[u8]) -> (r: Option<Vec<u8>>)
    ensures
        match r {
            Some(b) => hex_decode_spec(text@) == Some(b@),
            None => hex_decode_spec(text@) is None,
        },
{
    let n = text.len();
    let mut out: Vec<u8> = Vec::new();
    let mut i: usize = 0;
    assert(text@.subrange(0, n as int) =~= text@);
    while i < n
        invariant
            n == text@.len(),
            i <= n,
            hex_decode_spec(text@) == match hex_decode_spec(text@.subrange(i as int, n as int)) {
                Some(rest) => Some(out@ + rest),
                None => None,
            },
        decreases n - i,
    {
        let ghost t = text@.subrange(i as int, n as int);
        if n - i < 2 {
            return None;
        }
        assert(t.subrange(2, t.len() as int) =~= text@.subrange(i + 2, n as int));
        let h = digit_value(text[i]);
        let l = digit_value(text[i + 1]);
        match (h, l) {
            (Some(h), Some(l)) => {
                proof {
                    if let Some(rest) = hex_decode_spec(text@.subrange(i + 2, n as int)) {
                        assert(out@ + (seq![(h * 16 + l) as u8] + rest) =~= out@.push(
                            (h * 16 + l) as u8,
                        ) + rest);
                    }
                }
                out.push(h * 16 + l);
            },
            _ => return None,
        }
        i = i + 2;
    }
    assert(out@ + Seq::<u8>::empty() =~= out@);
    Some(out)
}

} // verus!
