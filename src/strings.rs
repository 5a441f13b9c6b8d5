use vstd::prelude::*;

verus! {

/// Why an escaped string does not unescape.
#[derive(Clone, Copy, Debug, PartialEq, Eq, Structural)]
pub enum EscapeError {
    /// A backslash ends the string.
    TrailingBackslash,
    /// `\x` is not followed by two characters.
    IncompleteHex,
    /// The two characters after `\x` are not a hexadecimal number.
    InvalidHex,
    /// The number after `\x` is above 0x7F.
    NonAsciiHex,
    /// A backslash is followed by this character, which escapes nothing.
    UnknownEscape(char),
}

/// The value of a hexadecimal digit.
pub open spec fn hex_value(c: char) -> Option<nat> {
    if '0' <= c <= '9' {
        Some((c as nat - '0' as nat) as nat)
    } else if 'a' <= c <= 'f' {
        Some((c as nat - 'a' as nat + 10) as nat)
    } else if 'A' <= c <= 'F' {
        Some((c as nat - 'A' as nat + 10) as nat)
    } else {
        None
    }
}

/// The number that two hexadecimal digits write.
pub open spec fn hex_pair(h1: char, h2: char) -> Option<nat> {
    match (hex_value(h1), hex_value(h2)) {
        (Some(a), Some(b)) => Some(a * 16 + b),
        _ => None,
    }
}

pub open spec fn prepend(p: Seq<char>, r: Result<Seq<char>, EscapeError>) -> Result<Seq<char>, EscapeError> {
    match r {
        Ok(s) => Ok(p + s),
        Err(e) => Err(e),
    }
}

/// The string that `s` stands for: `\0 \\ \n \r \t` and, where `hex` is set,
/// `\xHH` with `HH` at most 0x7F, each stand for one character.
pub open spec fn unescaped(hex: bool, s: Seq<char>) -> Result<Seq<char>, EscapeError>
    decreases s.len(),
{
    if s.len() == 0 {
        Ok(seq![])
    } else if s[0] != '\\' {
        prepend(seq![s[0]], unescaped(hex, s.drop_first()))
    } else if s.len() < 2 {
        Err(EscapeError::TrailingBackslash)
    } else {
        let e = s[1];
        if e == '0' {
            prepend(seq!['\0'], unescaped(hex, s.skip(2)))
        } else if e == '\\' {
            prepend(seq!['\\'], unescaped(hex, s.skip(2)))
        } else if e == 'n' {
            prepend(seq!['\n'], unescaped(hex, s.skip(2)))
        } else if e == 'r' {
            prepend(seq!['\r'], unescaped(hex, s.skip(2)))
        } else if e == 't' {
            prepend(seq!['\t'], unescaped(hex, s.skip(2)))
        } else if e == 'x' && hex {
            if s.len() < 4 {
                Err(EscapeError::IncompleteHex)
            } else {
                match hex_pair(s[2], s[3]) {
                    None => Err(EscapeError::InvalidHex),
                    Some(v) => if v > 0x7f {
                        Err(EscapeError::NonAsciiHex)
                    } else {
                        prepend(seq![(v as u8) as char], unescaped(hex, s.skip(4)))
                    },
                }
            }
        } else {
            Err(EscapeError::UnknownEscape(e))
        }
    }
}

fn hex_value_exec(c: char) -> (r: Option<u8>)
    ensures
        r matches Some(v) ==> hex_value(c) == Some(v as nat) && v < 16,
        r is None ==> hex_value(c) is None,
{
    if '0' <= c && c <= '9' {
        Some((c as u32 - '0' as u32) as u8)
    } else if 'a' <= c && c <= 'f' {
        Some((c as u32 - 'a' as u32 + 10) as u8)
    } else if 'A' <= c && c <= 'F' {
        Some((c as u32 - 'A' as u32 + 10) as u8)
    } else {
        None
    }
}

/// Unescapes `input`: see [`unescaped`].
pub fn unescape<const X: bool>(input: &[char]) -> (r: Result<Vec<char>, EscapeError>)
    ensures
        match unescaped(X, input@) {
            Ok(s) => r matches Ok(v) && v@ == s,
            Err(e) => r == Err::<Vec<char>, EscapeError>(e),
        },
{
    let mut out: Vec<char> = Vec::new();
    let mut i: usize = 0;
    assert(input@.skip(0) =~= input@);
    while i < input.len()
        invariant
            i <= input@.len(),
            unescaped(X, input@) == prepend(out@, unescaped(X, input@.skip(i as int))),
        decreases input.len() - i,
    {
        let ghost s = input@.skip(i as int);
        let ghost old_out = out@;
        let ch = input[i];
        assert(s[0] == ch);
        if ch != '\\' {
            assert(s.drop_first() =~= input@.skip(i + 1));
            assert(unescaped(X, s) == prepend(seq![ch], unescaped(X, s.drop_first())));
            out.push(ch);
            i = i + 1;
            proof {
                lemma_prepend_push(old_out, ch, unescaped(X, input@.skip(i as int)));
                assert(old_out.push(ch) =~= out@);
            }
            continue;
        }
        if input.len() - i < 2 {
            return Err(EscapeError::TrailingBackslash);
        }
        let e = input[i + 1];
        assert(s[1] == e);
        assert(s.skip(2) =~= input@.skip(i + 2));
        let simple: Option<char> = if e == '0' {
            Some('\0')
        } else if e == '\\' {
            Some('\\')
        } else if e == 'n' {
            Some('\n')
        } else if e == 'r' {
            Some('\r')
        } else if e == 't' {
            Some('\t')
        } else {
            None
        };
        match simple {
            Some(c) => {
                assert(unescaped(X, s) == prepend(seq![c], unescaped(X, s.skip(2))));
                out.push(c);
                i = i + 2;
                proof {
                    lemma_prepend_push(old_out, c, unescaped(X, input@.skip(i as int)));
                    assert(old_out.push(c) =~= out@);
                }
            },
            None => {
                if e == 'x' && X {
                    if input.len() - i < 4 {
                        return Err(EscapeError::IncompleteHex);
                    }
                    let h1 = input[i + 2];
                    let h2 = input[i + 3];
                    assert(s[2] == h1 && s[3] == h2);
                    assert(s.skip(4) =~= input@.skip(i + 4));
                    let v: Option<u8> = match (hex_value_exec(h1), hex_value_exec(h2)) {
                        (Some(a), Some(b)) => Some(a * 16 + b),
                        _ => None,
                    };
                    match v {
                        None => {
                            return Err(EscapeError::InvalidHex);
                        },
                        Some(v) => {
                            if v > 0x7f {
                                return Err(EscapeError::NonAsciiHex);
                            }
                            assert(hex_pair(h1, h2) == Some(v as nat));
                            assert(unescaped(X, s) == prepend(seq![v as char], unescaped(X, s.skip(4))));
                            out.push(v as char);
                            i = i + 4;
                            proof {
                                lemma_prepend_push(old_out, v as char, unescaped(X, input@.skip(i as int)));
                                assert(old_out.push(v as char) =~= out@);
                            }
                        },
                    }
                } else {
                    return Err(EscapeError::UnknownEscape(e));
                }
            },
        }
    }
    proof {
        assert(input@.skip(i as int) =~= Seq::<char>::empty());
        assert(out@ + Seq::<char>::empty() =~= out@);
    }
    Ok(out)
}

proof fn lemma_prepend_push(p: Seq<char>, c: char, r: Result<Seq<char>, EscapeError>)
    ensures
        prepend(p, prepend(seq![c], r)) == prepend(p.push(c), r),
{
    if let Ok(s) = r {
        assert(p + (seq![c] + s) =~= p.push(c) + s);
    }
}

} // verus!
