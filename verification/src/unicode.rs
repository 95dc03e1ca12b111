use vstd::prelude::*;
use vstd::utf8::*;

verus! {

/// Checks that `s` is a valid UTF-8 encoding: well-formed leading and
/// continuation bytes, no overlong encoding, and no surrogate, exactly as
/// `vstd::utf8::valid_utf8` defines validity.
pub fn is_valid_utf8(s: &[u8]) -> (r: bool)
    ensures
        r == valid_utf8(s@),
{
    let mut i: usize = 0;
    proof {
        assert(s@.skip(0) =~= s@);
    }
    while i < s.len()
        invariant
            i <= s.len(),
            valid_utf8(s@) == valid_utf8(s@.skip(i as int)),
        decreases s.len() - i,
    {
        let ghost pre = s@.skip(i as int);
        let b0: u8 = s[i];
        let n: usize = s.len() - i;
        proof {
            assert(pre.len() == n);
            assert(pre[0] == s@[i as int]);
        }
        if b0 <= 0x7f {
            proof {
                assert((b0 & 0x7f) <= 0x7f) by (bit_vector);
                assert(valid_first_scalar(pre));
                assert(length_of_first_scalar(pre) == 1);
                assert(pop_first_scalar(pre) =~= s@.skip(i as int + 1));
            }
            i += 1;
        } else if 0xc2 <= b0 && b0 <= 0xdf {
            if n < 2 {
                proof {
                    assert(!valid_first_scalar(pre));
                }
                return false;
            }
            let b1: u8 = s[i + 1];
            proof {
                assert(pre[1] == s@[i as int + 1]);
            }
            if 0x80 <= b1 && b1 <= 0xbf {
                proof {
                    assert(0x80 <= ((((b0 & 0x1f) as u32) << 6) | ((b1 & 0x3f) as u32))
                        <= 0x7ff) by (bit_vector)
                        requires
                            0xc2 <= b0 <= 0xdf,
                            0x80 <= b1 <= 0xbf,
                    ;
                    assert(valid_first_scalar(pre));
                    assert(length_of_first_scalar(pre) == 2);
                    assert(pop_first_scalar(pre) =~= s@.skip(i as int + 2));
                }
                i += 2;
            } else {
                proof {
                    assert(!valid_first_scalar(pre));
                }
                return false;
            }
        } else if 0xe0 <= b0 && b0 <= 0xef {
            if n < 3 {
                proof {
                    assert(!valid_first_scalar(pre));
                }
                return false;
            }
            let b1: u8 = s[i + 1];
            let b2: u8 = s[i + 2];
            proof {
                assert(pre[1] == s@[i as int + 1]);
                assert(pre[2] == s@[i as int + 2]);
            }
            let cont_ok: bool = 0x80 <= b1 && b1 <= 0xbf && 0x80 <= b2 && b2 <= 0xbf;
            let not_overlong: bool = b0 != 0xe0 || b1 >= 0xa0;
            let not_surr: bool = b0 != 0xed || b1 <= 0x9f;
            if cont_ok && not_overlong && not_surr {
                proof {
                    assert(0x800 <= ((((b0 & 0x0f) as u32) << 12) | (((b1 & 0x3f) as u32) << 6) | (
                    (b2 & 0x3f) as u32)) && !(0xd800 <= ((((b0 & 0x0f) as u32) << 12) | (((b1
                        & 0x3f) as u32) << 6) | ((b2 & 0x3f) as u32)) <= 0xdfff)) by (bit_vector)
                        requires
                            0xe0 <= b0 <= 0xef,
                            0x80 <= b1 <= 0xbf,
                            0x80 <= b2 <= 0xbf,
                            b0 != 0xe0 || b1 >= 0xa0,
                            b0 != 0xed || b1 <= 0x9f,
                    ;
                    assert(valid_first_scalar(pre));
                    assert(length_of_first_scalar(pre) == 3);
                    assert(pop_first_scalar(pre) =~= s@.skip(i as int + 3));
                }
                i += 3;
            } else {
                proof {
                    if cont_ok {
                        if b0 == 0xe0 && b1 < 0xa0 {
                            assert(((((b0 & 0x0f) as u32) << 12) | (((b1 & 0x3f) as u32) << 6) | ((
                            b2 & 0x3f) as u32)) < 0x800) by (bit_vector)
                                requires
                                    b0 == 0xe0,
                                    0x80 <= b1 < 0xa0,
                            ;
                        } else {
                            assert(0xd800 <= ((((b0 & 0x0f) as u32) << 12) | (((b1
                                & 0x3f) as u32) << 6) | ((b2 & 0x3f) as u32)) <= 0xdfff)
                                by (bit_vector)
                                requires
                                    b0 == 0xed,
                                    0xa0 <= b1 <= 0xbf,
                                    0x80 <= b2 <= 0xbf,
                            ;
                        }
                    }
                    assert(!valid_first_scalar(pre));
                }
                return false;
            }
        } else if 0xf0 <= b0 && b0 <= 0xf4 {
            if n < 4 {
                proof {
                    assert(!valid_first_scalar(pre));
                }
                return false;
            }
            let b1: u8 = s[i + 1];
            let b2: u8 = s[i + 2];
            let b3: u8 = s[i + 3];
            proof {
                assert(pre[1] == s@[i as int + 1]);
                assert(pre[2] == s@[i as int + 2]);
                assert(pre[3] == s@[i as int + 3]);
            }
            let cont_ok: bool = 0x80 <= b1 && b1 <= 0xbf && 0x80 <= b2 && b2 <= 0xbf && 0x80 <= b3
                && b3 <= 0xbf;
            let not_overlong: bool = b0 != 0xf0 || b1 >= 0x90;
            let in_range: bool = b0 != 0xf4 || b1 <= 0x8f;
            if cont_ok && not_overlong && in_range {
                proof {
                    assert(0x10000 <= ((((b0 & 0x07) as u32) << 18) | (((b1 & 0x3f) as u32) << 12)
                        | (((b2 & 0x3f) as u32) << 6) | ((b3 & 0x3f) as u32))
                        <= 0x10ffff) by (bit_vector)
                        requires
                            0xf0 <= b0 <= 0xf4,
                            0x80 <= b1 <= 0xbf,
                            0x80 <= b2 <= 0xbf,
                            0x80 <= b3 <= 0xbf,
                            b0 != 0xf0 || b1 >= 0x90,
                            b0 != 0xf4 || b1 <= 0x8f,
                    ;
                    assert(valid_first_scalar(pre));
                    assert(length_of_first_scalar(pre) == 4);
                    assert(pop_first_scalar(pre) =~= s@.skip(i as int + 4));
                }
                i += 4;
            } else {
                proof {
                    if cont_ok {
                        if b0 == 0xf0 && b1 < 0x90 {
                            assert(((((b0 & 0x07) as u32) << 18) | (((b1 & 0x3f) as u32) << 12) | ((
                            (b2 & 0x3f) as u32) << 6) | ((b3 & 0x3f) as u32)) < 0x10000)
                                by (bit_vector)
                                requires
                                    b0 == 0xf0,
                                    0x80 <= b1 < 0x90,
                            ;
                        } else {
                            assert(((((b0 & 0x07) as u32) << 18) | (((b1 & 0x3f) as u32) << 12) | ((
                            (b2 & 0x3f) as u32) << 6) | ((b3 & 0x3f) as u32)) > 0x10ffff)
                                by (bit_vector)
                                requires
                                    b0 == 0xf4,
                                    0x90 <= b1 <= 0xbf,
                            ;
                        }
                    }
                    assert(!valid_first_scalar(pre));
                }
                return false;
            }
        } else {
            proof {
                if 0xc0 <= b0 && b0 <= 0xc1 && pre.len() >= 2 {
                    let c1 = pre[1];
                    assert(((((b0 & 0x1f) as u32) << 6) | ((c1 & 0x3f) as u32))
                        < 0x80) by (bit_vector)
                        requires
                            0xc0 <= b0 <= 0xc1,
                    ;
                }
                if 0xf5 <= b0 && b0 <= 0xf7 && pre.len() >= 4 {
                    let c1 = pre[1];
                    let c2 = pre[2];
                    let c3 = pre[3];
                    assert(((((b0 & 0x07) as u32) << 18) | (((c1 & 0x3f) as u32) << 12) | (((c2
                        & 0x3f) as u32) << 6) | ((c3 & 0x3f) as u32)) > 0x10ffff) by (bit_vector)
                        requires
                            0xf5 <= b0 <= 0xf7,
                    ;
                }
                assert(!valid_first_scalar(pre));
            }
            return false;
        }
    }
    proof {
        assert(s@.skip(i as int) =~= Seq::<u8>::empty());
    }
    true
}

} // verus!
