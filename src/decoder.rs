use vstd::prelude::*;

verus! {

/// What the decoder is asked to read next from the byte cursor.
#[derive(Clone, Copy, Debug, PartialEq, Eq)]
pub enum TokenType {
    /// Four bytes, most significant first.
    Unsigned32,
    /// Eight bytes, most significant first.
    Unsigned64,
    /// A compact integer: one prefix byte, then 0, 2, 4 or 8 little-endian bytes.
    VarInt,
    /// Exactly this many bytes, verbatim.
    Bytestring(u64),
}

/// The result of one decoding step.
#[derive(Debug, PartialEq, Eq)]
pub enum Token {
    Integer(u64),
    String(Vec<u8>),
    /// The input ran out before the token was complete.
    Invalid,
}

/// Mathematical counterpart of `Token`.
pub enum TokenModel {
    Integer(u64),
    String(Seq<u8>),
    Invalid,
}

impl View for Token {
    type V = TokenModel;

    open spec fn view(&self) -> TokenModel {
        match self {
            Token::Integer(n) => TokenModel::Integer(*n),
            Token::String(v) => TokenModel::String(v@),
            Token::Invalid => TokenModel::Invalid,
        }
    }
}

/// The big-endian value of the `width` bytes of `s` starting at `p`.
pub open spec fn be_value_at(s: Seq<u8>, p: int, width: int) -> int {
    if width == 2 {
        s[p] * 0x100 + s[p + 1]
    } else if width == 4 {
        s[p] * 0x1000000 + s[p + 1] * 0x10000 + s[p + 2] * 0x100 + s[p + 3]
    } else {
        s[p] * 0x100000000000000 + s[p + 1] * 0x1000000000000 + s[p + 2] * 0x10000000000
            + s[p + 3] * 0x100000000 + s[p + 4] * 0x1000000 + s[p + 5] * 0x10000 + s[p + 6]
            * 0x100 + s[p + 7]
    }
}

/// The little-endian value of the `width` bytes of `s` starting at `p`.
pub open spec fn le_value_at(s: Seq<u8>, p: int, width: int) -> int {
    if width == 2 {
        s[p] + s[p + 1] * 0x100
    } else if width == 4 {
        s[p] + s[p + 1] * 0x100 + s[p + 2] * 0x10000 + s[p + 3] * 0x1000000
    } else {
        s[p] + s[p + 1] * 0x100 + s[p + 2] * 0x10000 + s[p + 3] * 0x1000000 + s[p + 4]
            * 0x100000000 + s[p + 5] * 0x10000000000 + s[p + 6] * 0x1000000000000 + s[p + 7]
            * 0x100000000000000
    }
}

/// Reading a fixed-width integer at `p`: the token and the cursor after it.
/// A shortfall consumes the rest of the input.
pub open spec fn fixed_spec(s: Seq<u8>, p: int, width: int, big_endian: bool) -> (TokenModel, int) {
    if p + width <= s.len() {
        let v = if big_endian {
            be_value_at(s, p, width)
        } else {
            le_value_at(s, p, width)
        };
        (TokenModel::Integer(v as u64), p + width)
    } else {
        (TokenModel::Invalid, s.len() as int)
    }
}

/// Reading one token of the given kind at `p`: the token and the cursor after it.
pub open spec fn decode_spec(s: Seq<u8>, p: int, kind: TokenType) -> (TokenModel, int) {
    match kind {
        TokenType::Unsigned32 => fixed_spec(s, p, 4, true),
        TokenType::Unsigned64 => fixed_spec(s, p, 8, true),
        TokenType::VarInt => {
            if p < s.len() {
                let b = s[p];
                if b == 0xfd {
                    fixed_spec(s, p + 1, 2, false)
                } else if b == 0xfe {
                    fixed_spec(s, p + 1, 4, false)
                } else if b == 0xff {
                    fixed_spec(s, p + 1, 8, false)
                } else {
                    (TokenModel::Integer(b as u64), p + 1)
                }
            } else {
                (TokenModel::Invalid, s.len() as int)
            }
        },
        TokenType::Bytestring(n) => {
            if p + n <= s.len() {
                (TokenModel::String(s.subrange(p, p + n)), p + n)
            } else {
                (TokenModel::Invalid, s.len() as int)
            }
        },
    }
}

fn decode_integer(data: &[u8], pos: &mut usize, width: usize, big_endian: bool) -> (r: Token)
    requires
        *old(pos) <= data@.len(),
        width == 2 || width == 4 || width == 8,
    ensures
        (r@, *final(pos) as int) == fixed_spec(data@, *old(pos) as int, width as int, big_endian),
{
    let p = *pos;
    if data.len() - p < width {
        *pos = data.len();
        return Token::Invalid;
    }
    let b0 = data[p] as u64;
    let b1 = data[p + 1] as u64;
    let v: u64 = if width == 2 {
        if big_endian {
            b0 * 0x100 + b1
        } else {
            b0 + b1 * 0x100
        }
    } else {
        let b2 = data[p + 2] as u64;
        let b3 = data[p + 3] as u64;
        if width == 4 {
            if big_endian {
                b0 * 0x1000000 + b1 * 0x10000 + b2 * 0x100 + b3
            } else {
                b0 + b1 * 0x100 + b2 * 0x10000 + b3 * 0x1000000
            }
        } else {
            let b4 = data[p + 4] as u64;
            let b5 = data[p + 5] as u64;
            let b6 = data[p + 6] as u64;
            let b7 = data[p + 7] as u64;
            if big_endian {
                b0 * 0x100000000000000 + b1 * 0x1000000000000 + b2 * 0x10000000000 + b3
                    * 0x100000000 + b4 * 0x1000000 + b5 * 0x10000 + b6 * 0x100 + b7
            } else {
                b0 + b1 * 0x100 + b2 * 0x10000 + b3 * 0x1000000 + b4 * 0x100000000 + b5
                    * 0x10000000000 + b6 * 0x1000000000000 + b7 * 0x100000000000000
            }
        }
    };
    *pos = p + width;
    Token::Integer(v)
}

/// Reads one token of the requested kind at the cursor and advances it.
/// On a shortfall the token is `Invalid` and the cursor stands at the end.
pub fn decode_token(data: &[u8], pos: &mut usize, expected_token: TokenType) -> (r: Token)
    requires
        *old(pos) <= data@.len(),
    ensures
        (r@, *final(pos) as int) == decode_spec(data@, *old(pos) as int, expected_token),
        *final(pos) <= data@.len(),
{
    match expected_token {
        TokenType::Unsigned32 => decode_integer(data, pos, 4, true),
        TokenType::Unsigned64 => decode_integer(data, pos, 8, true),
        TokenType::VarInt => {
            let p = *pos;
            if p >= data.len() {
                return Token::Invalid;
            }
            let b = data[p];
            *pos = p + 1;
            if b == 0xfd {
                decode_integer(data, pos, 2, false)
            } else if b == 0xfe {
                decode_integer(data, pos, 4, false)
            } else if b == 0xff {
                decode_integer(data, pos, 8, false)
            } else {
                Token::Integer(b as u64)
            }
        },
        TokenType::Bytestring(len) => {
            let p = *pos;
            if len > (data.len() - p) as u64 {
                *pos = data.len();
                return Token::Invalid;
            }
            let n = len as usize;
            let mut rv: Vec<u8> = Vec::new();
            let mut i: usize = 0;
            while i < n
                invariant
                    p + n <= data@.len(),
                    data@.len() == data.len(),
                    i <= n,
                    rv@ == data@.subrange(p as int, p + i),
                decreases n - i,
            {
                rv.push(data[p + i]);
                i = i + 1;
                assert(rv@ =~= data@.subrange(p as int, p + i));
            }
            *pos = p + n;
            Token::String(rv)
        },
    }
}

} // verus!
