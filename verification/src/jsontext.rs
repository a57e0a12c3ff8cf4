//! JSON text fragments over raw bytes: escaping for strings the gateway
//! emits, unescaping for strings it reads, and plain decimal numbers read
//! to hundredths.  Escaping then reading back returns the original bytes.

use vstd::prelude::*;

verus! {

/// The lower-case hex digit for a value below 16.
pub open spec fn hexdig(v: int) -> u8 {
    if v < 10 {
        (48 + v) as u8
    } else {
        (87 + v) as u8
    }
}

/// The value of a hex digit byte, or -1.
pub open spec fn hexval(b: u8) -> int {
    if 48 <= b <= 57 {
        b - 48
    } else if 97 <= b <= 102 {
        b - 87
    } else if 65 <= b <= 70 {
        b - 55
    } else {
        -1
    }
}

/// How one raw byte appears inside a JSON string: quote, backslash and the
/// common control characters get two-character escapes, other control
/// bytes become `\u00XX`, everything else passes through.
pub open spec fn spec_escape_byte(b: u8) -> Seq<u8> {
    if b == 34 {
        seq![92u8, 34u8]
    } else if b == 92 {
        seq![92u8, 92u8]
    } else if b == 10 {
        seq![92u8, 110u8]
    } else if b == 13 {
        seq![92u8, 114u8]
    } else if b == 9 {
        seq![92u8, 116u8]
    } else if b < 32 {
        seq![92u8, 117u8, 48u8, 48u8, hexdig(b as int / 16), hexdig(b as int % 16)]
    } else {
        seq![b]
    }
}

/// A whole byte sequence escaped for a JSON string.
pub open spec fn spec_escape(s: Seq<u8>) -> Seq<u8>
    decreases s.len(),
{
    if s.len() == 0 {
        Seq::empty()
    } else {
        spec_escape_byte(s.first()) + spec_escape(s.drop_first())
    }
}

/// Escaping distributes over concatenation.
pub proof fn lemma_escape_concat(u: Seq<u8>, v: Seq<u8>)
    ensures
        spec_escape(u + v) == spec_escape(u) + spec_escape(v),
    decreases u.len(),
{
    if u.len() == 0 {
        assert(u + v =~= v);
        assert(spec_escape(u) + spec_escape(v) =~= spec_escape(v));
    } else {
        lemma_escape_concat(u.drop_first(), v);
        assert((u + v).first() == u.first());
        assert((u + v).drop_first() =~= u.drop_first() + v);
        assert(spec_escape_byte(u.first()) + (spec_escape(u.drop_first()) + spec_escape(v))
            =~= (spec_escape_byte(u.first()) + spec_escape(u.drop_first())) + spec_escape(v));
    }
}

/// Escapes `s` for embedding in a JSON string literal.
pub fn json_escape(s: &[u8]) -> (r: Vec<u8>)
    ensures
        r@ == spec_escape(s@),
{
    let mut out: Vec<u8> = Vec::new();
    let n = s.len();
    let mut i: usize = 0;
    while i < n
        invariant
            n == s@.len(),
            i <= n,
            out@ == spec_escape(s@.subrange(0, i as int)),
        decreases n - i,
    {
        let b = s[i];
        if b == 34 {
            out.push(92);
            out.push(34);
        } else if b == 92 {
            out.push(92);
            out.push(92);
        } else if b == 10 {
            out.push(92);
            out.push(110);
        } else if b == 13 {
            out.push(92);
            out.push(114);
        } else if b == 9 {
            out.push(92);
            out.push(116);
        } else if b < 32 {
            out.push(92);
            out.push(117);
            out.push(48);
            out.push(48);
            let hi = b / 16;
            let lo = b % 16;
            out.push(if hi < 10 { 48 + hi } else { 87 + hi });
            out.push(if lo < 10 { 48 + lo } else { 87 + lo });
        } else {
            out.push(b);
        }
        proof {
            assert(s@.subrange(0, i + 1) =~= s@.subrange(0, i as int) + seq![s@[i as int]]);
            lemma_escape_concat(s@.subrange(0, i as int), seq![s@[i as int]]);
            let single = seq![s@[i as int]];
            assert(single.len() == 1);
            assert(single.first() == s@[i as int]);
            assert(single.drop_first() =~= Seq::<u8>::empty());
            assert(spec_escape(single) == spec_escape_byte(single.first()) + spec_escape(
                single.drop_first(),
            ));
            assert(spec_escape(Seq::<u8>::empty()) =~= Seq::<u8>::empty());
            assert(spec_escape(single) =~= spec_escape_byte(s@[i as int]));
            assert(out@ =~= spec_escape(s@.subrange(0, i as int)) + spec_escape_byte(s@[i as int]));
        }
        i = i + 1;
    }
    proof {
        assert(s@.subrange(0, n as int) =~= s@);
    }
    out
}

/// The UTF-8 bytes of a scalar below 0x10000 that is not a surrogate.
pub open spec fn spec_utf8_of(h: int) -> Seq<u8> {
    if h < 128 {
        seq![h as u8]
    } else if h < 2048 {
        seq![(192 + h / 64) as u8, (128 + h % 64) as u8]
    } else {
        seq![(224 + h / 4096) as u8, (128 + (h / 64) % 64) as u8, (128 + h % 64) as u8]
    }
}

/// Reads a JSON string body up to its closing quote: the unescaped bytes
/// and the input that follows the quote.  `\uXXXX` escapes decode to the
/// scalar's UTF-8 bytes; surrogates and unknown escapes fail.
pub open spec fn spec_take_str_body(s: Seq<u8>) -> Option<(Seq<u8>, Seq<u8>)>
    decreases s.len(),
{
    if s.len() == 0 {
        None
    } else if s.first() == 34 {
        Some((Seq::empty(), s.skip(1)))
    } else if s.first() == 92 {
        if s.len() < 2 {
            None
        } else {
            let e = s[1];
            if e == 117 {
                if s.len() < 6 {
                    None
                } else {
                    let h = hexval(s[2]) * 4096 + hexval(s[3]) * 256 + hexval(s[4]) * 16 + hexval(
                        s[5],
                    );
                    if hexval(s[2]) < 0 || hexval(s[3]) < 0 || hexval(s[4]) < 0 || hexval(s[5]) < 0
                        || (55296 <= h < 57344) {
                        None
                    } else {
                        match spec_take_str_body(s.skip(6)) {
                            Some((c, r)) => Some((spec_utf8_of(h) + c, r)),
                            None => None,
                        }
                    }
                }
            } else {
                let b: int = if e == 34 {
                    34
                } else if e == 92 {
                    92
                } else if e == 47 {
                    47
                } else if e == 110 {
                    10
                } else if e == 114 {
                    13
                } else if e == 116 {
                    9
                } else if e == 98 {
                    8
                } else if e == 102 {
                    12
                } else {
                    -1
                };
                if b < 0 {
                    None
                } else {
                    match spec_take_str_body(s.skip(2)) {
                        Some((c, r)) => Some((seq![b as u8] + c, r)),
                        None => None,
                    }
                }
            }
        }
    } else {
        match spec_take_str_body(s.skip(1)) {
            Some((c, r)) => Some((seq![s.first()] + c, r)),
            None => None,
        }
    }
}

/// Reading back an escaped string returns the original bytes: the escaped
/// form followed by a closing quote and any tail parses to exactly the
/// original content with the tail left over.
pub proof fn lemma_escape_round_trip(c: Seq<u8>, tail: Seq<u8>)
    ensures
        spec_take_str_body(spec_escape(c) + seq![34u8] + tail) == Some((c, tail)),
    decreases c.len(),
{
    let s = spec_escape(c) + seq![34u8] + tail;
    if c.len() == 0 {
        assert(spec_escape(c) =~= Seq::<u8>::empty());
        assert(s =~= seq![34u8] + tail);
        assert(s.first() == 34);
        assert(s.skip(1) =~= tail);
    } else {
        let b = c.first();
        let rest = c.drop_first();
        lemma_escape_round_trip(rest, tail);
        let inner = spec_escape(rest) + seq![34u8] + tail;
        assert(s =~= spec_escape_byte(b) + inner);
        if b == 34 || b == 92 || b == 10 || b == 13 || b == 9 {
            assert(s[0] == 92);
            assert(s.skip(2) =~= inner);
            assert(seq![b] + rest =~= c);
        } else if b < 32 {
            assert(s[0] == 92 && s[1] == 117 && s[2] == 48 && s[3] == 48);
            assert(s[4] == hexdig(b as int / 16) && s[5] == hexdig(b as int % 16));
            assert(hexval(hexdig(b as int / 16)) == b as int / 16);
            assert(hexval(hexdig(b as int % 16)) == b as int % 16);
            let h = hexval(s[2]) * 4096 + hexval(s[3]) * 256 + hexval(s[4]) * 16 + hexval(s[5]);
            assert(h == b as int);
            assert(s.skip(6) =~= inner);
            assert(spec_utf8_of(h) =~= seq![b]);
            assert(seq![b] + rest =~= c);
        } else {
            assert(s.first() == b);
            assert(b != 34 && b != 92);
            assert(s.skip(1) =~= inner);
            assert(seq![b] + rest =~= c);
        }
    }
}

/// Reads a JSON string body starting at `from` (just past the opening
/// quote); returns the unescaped content and the index just past the
/// closing quote.
pub fn take_json_string(s: &[u8], from: usize) -> (r: Option<(Vec<u8>, usize)>)
    requires
        from <= s@.len(),
    ensures
        match r {
            Some((c, end)) => from <= end <= s@.len() && spec_take_str_body(s@.skip(from as int))
                == Some((c@, s@.skip(end as int))),
            None => spec_take_str_body(s@.skip(from as int)) is None,
        },
{
    let n = s.len();
    let mut acc: Vec<u8> = Vec::new();
    let mut i: usize = from;
    loop
        invariant
            from <= i <= n,
            n == s@.len(),
            spec_take_str_body(s@.skip(from as int)) == (match spec_take_str_body(
                s@.skip(i as int),
            ) {
                Some((c, r)) => Some((acc@ + c, r)),
                None => None::<(Seq<u8>, Seq<u8>)>,
            }),
        decreases n - i,
    {
        if i >= n {
            return None;
        }
        let b = s[i];
        proof {
            assert(s@.skip(i as int).first() == s@[i as int]);
        }
        if b == 34 {
            proof {
                assert(s@.skip(i as int).skip(1) =~= s@.skip(i + 1));
                assert(acc@ + Seq::<u8>::empty() =~= acc@);
            }
            return Some((acc, i + 1));
        } else if b == 92 {
            if n - i < 2 {
                return None;
            }
            let e = s[i + 1];
            proof {
                assert(s@.skip(i as int)[1] == s@[i + 1]);
            }
            if e == 117 {
                if n - i < 6 {
                    return None;
                }
                let h2 = hexval_exec(s[i + 2]);
                let h3 = hexval_exec(s[i + 3]);
                let h4 = hexval_exec(s[i + 4]);
                let h5 = hexval_exec(s[i + 5]);
                proof {
                    assert(s@.skip(i as int)[2] == s@[i + 2]);
                    assert(s@.skip(i as int)[3] == s@[i + 3]);
                    assert(s@.skip(i as int)[4] == s@[i + 4]);
                    assert(s@.skip(i as int)[5] == s@[i + 5]);
                }
                if h2 < 0 || h3 < 0 || h4 < 0 || h5 < 0 {
                    return None;
                }
                let h: u32 = (h2 as u32) * 4096 + (h3 as u32) * 256 + (h4 as u32) * 16 + (h5
                    as u32);
                if 55296 <= h && h < 57344 {
                    return None;
                }
                let ghost acc0 = acc@;
                if h < 128 {
                    acc.push(h as u8);
                } else if h < 2048 {
                    acc.push((192 + h / 64) as u8);
                    acc.push((128 + h % 64) as u8);
                } else {
                    acc.push((224 + h / 4096) as u8);
                    acc.push((128 + (h / 64) % 64) as u8);
                    acc.push((128 + h % 64) as u8);
                }
                proof {
                    assert(acc@ =~= acc0 + spec_utf8_of(h as int));
                    assert(s@.skip(i as int).skip(6) =~= s@.skip(i + 6));
                    assert forall|c: Seq<u8>| acc0 + (spec_utf8_of(h as int) + c) =~= acc@
                        + c by {}
                }
                i = i + 6;
            } else {
                let ghost acc0 = acc@;
                let decoded: i16 = if e == 34 {
                    34
                } else if e == 92 {
                    92
                } else if e == 47 {
                    47
                } else if e == 110 {
                    10
                } else if e == 114 {
                    13
                } else if e == 116 {
                    9
                } else if e == 98 {
                    8
                } else if e == 102 {
                    12
                } else {
                    -1
                };
                if decoded < 0 {
                    return None;
                }
                acc.push(decoded as u8);
                proof {
                    assert(acc@ =~= acc0 + seq![decoded as u8]);
                    assert(s@.skip(i as int).skip(2) =~= s@.skip(i + 2));
                    assert forall|c: Seq<u8>| acc0 + (seq![decoded as u8] + c) =~= acc@ + c by {}
                }
                i = i + 2;
            }
        } else {
            let ghost acc0 = acc@;
            acc.push(b);
            proof {
                assert(acc@ =~= acc0 + seq![b]);
                assert(s@.skip(i as int).skip(1) =~= s@.skip(i + 1));
                assert forall|c: Seq<u8>| acc0 + (seq![b] + c) =~= acc@ + c by {}
            }
            i = i + 1;
        }
    }
}

/// The value of one hex digit byte, or -1.
fn hexval_exec(b: u8) -> (r: i16)
    ensures
        r as int == hexval(b),
{
    if 48 <= b && b <= 57 {
        (b - 48) as i16
    } else if 97 <= b && b <= 102 {
        (b - 87) as i16
    } else if 65 <= b && b <= 70 {
        (b - 55) as i16
    } else {
        -1
    }
}

/// Number of leading decimal digits.
pub open spec fn digits_prefix_len(s: Seq<u8>) -> int
    decreases s.len(),
{
    if s.len() == 0 || !(48 <= s.first() <= 57) {
        0
    } else {
        1 + digits_prefix_len(s.drop_first())
    }
}

/// Value of the first `n` bytes read as a decimal number.
pub open spec fn digits_value(s: Seq<u8>, n: int) -> int
    decreases n,
{
    if n <= 0 {
        0
    } else {
        digits_value(s, n - 1) * 10 + (s[n - 1] - 48)
    }
}

/// Reads a plain decimal number — digits, optionally a dot and more
/// digits — into hundredths, truncating beyond two fractional digits.
/// Fails on more than twelve integer digits.
pub open spec fn spec_take_number(s: Seq<u8>) -> Option<(u64, Seq<u8>)> {
    let n = digits_prefix_len(s);
    if n == 0 || n > 12 {
        None
    } else {
        let ip = digits_value(s, n);
        if n < s.len() && s[n] == 46 {
            let m = digits_prefix_len(s.skip(n + 1));
            if m == 0 {
                None
            } else {
                let f2 = if m == 1 {
                    (s[n + 1] - 48) * 10
                } else {
                    (s[n + 1] - 48) * 10 + (s[n + 2] - 48)
                };
                Some(((ip * 100 + f2) as u64, s.skip(n + 1 + m)))
            }
        } else {
            Some(((ip * 100) as u64, s.skip(n)))
        }
    }
}

} // verus!
