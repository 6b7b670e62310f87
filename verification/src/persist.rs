//! The encodings of the three persisted records, each proved to decode back
//! to the state it was encoded from, and the `load`/`save` pairs the
//! persistence layer around the library calls with plain bytes.

use vstd::prelude::*;
use vstd::utf8::{char_is_scalar, char_u32_cast, is_scalar};
use crate::codec::{
    dec_bool, dec_i64, dec_str, dec_u8, dec_u64, dec_usize, enc_bool, enc_i64, enc_str, enc_u8,
    enc_u64, enc_usize, encodable_str, lemma_enc_items_snoc, lemma_list_rt, lemma_rt_bool,
    lemma_rt_i64, lemma_rt_str, lemma_rt_u8, lemma_rt_u64, lemma_rt_usize, s_dec_bool, s_dec_i64,
    s_dec_items, s_dec_list, s_dec_str, s_dec_u8, s_dec_u64, s_dec_usize, s_enc_bool, s_enc_i64,
    s_enc_items, s_enc_list, s_enc_str, s_enc_u64, s_enc_usize,
};
use crate::data::{DBResult, Data, DataAbs, DataIO, DataType, DatabaseError, ResourceIO};
use crate::store::{Components, Instances, Resources};

verus! {

/// Relies on `char::from_u32`: it returns `Some` exactly on a Unicode
/// scalar value, and the returned character casts back to that value.
pub assume_specification[ char::from_u32 ](u: u32) -> (r: Option<char>)
    ensures
        r matches Some(c) ==> c as u32 == u,
        r is Some <==> is_scalar(u),
;

// --- the three small enums, one tag byte each ---

pub open spec fn s_enc_rio(x: ResourceIO) -> Seq<u8> {
    match x {
        ResourceIO::FORM => seq![0u8],
        ResourceIO::STATIC => seq![1u8],
    }
}

pub open spec fn s_dec_rio(b: Seq<u8>) -> Option<(ResourceIO, Seq<u8>)> {
    match s_dec_u8(b) {
        Some((t, rest)) => if t == 0 {
            Some((ResourceIO::FORM, rest))
        } else if t == 1 {
            Some((ResourceIO::STATIC, rest))
        } else {
            None
        },
        None => None,
    }
}

pub proof fn lemma_rt_rio(x: ResourceIO, rest: Seq<u8>)
    ensures
        s_dec_rio(s_enc_rio(x) + rest) == Some((x, rest)),
{
    match x {
        ResourceIO::FORM => lemma_rt_u8(0u8, rest),
        ResourceIO::STATIC => lemma_rt_u8(1u8, rest),
    }
}

pub fn enc_rio(out: &mut Vec<u8>, x: ResourceIO)
    ensures
        final(out)@ == old(out)@ + s_enc_rio(x),
{
    match x {
        ResourceIO::FORM => enc_u8(out, 0),
        ResourceIO::STATIC => enc_u8(out, 1),
    }
}

pub fn dec_rio(b: &Vec<u8>, pos: usize) -> (r: Option<(ResourceIO, usize)>)
    requires
        pos <= b@.len(),
    ensures
        match s_dec_rio(b@.skip(pos as int)) {
            Some((v, rest)) => {
                &&& r matches Some((x, p2)) && x == v && pos <= p2 <= b@.len() && b@.skip(p2 as int)
                    == rest
            },
            None => r is None,
        },
{
    match dec_u8(b, pos) {
        None => None,
        Some((t, p2)) => {
            if t == 0 {
                Some((ResourceIO::FORM, p2))
            } else if t == 1 {
                Some((ResourceIO::STATIC, p2))
            } else {
                None
            }
        },
    }
}

pub open spec fn s_enc_dio(x: DataIO) -> Seq<u8> {
    match x {
        DataIO::DB_READ_ONLY => seq![0u8],
        DataIO::DB_INPUT => seq![1u8],
        DataIO::DB_BOTH => seq![2u8],
        DataIO::STATIC => seq![3u8],
    }
}

pub open spec fn s_dec_dio(b: Seq<u8>) -> Option<(DataIO, Seq<u8>)> {
    match s_dec_u8(b) {
        Some((t, rest)) => if t == 0 {
            Some((DataIO::DB_READ_ONLY, rest))
        } else if t == 1 {
            Some((DataIO::DB_INPUT, rest))
        } else if t == 2 {
            Some((DataIO::DB_BOTH, rest))
        } else if t == 3 {
            Some((DataIO::STATIC, rest))
        } else {
            None
        },
        None => None,
    }
}

pub proof fn lemma_rt_dio(x: DataIO, rest: Seq<u8>)
    ensures
        s_dec_dio(s_enc_dio(x) + rest) == Some((x, rest)),
{
    match x {
        DataIO::DB_READ_ONLY => lemma_rt_u8(0u8, rest),
        DataIO::DB_INPUT => lemma_rt_u8(1u8, rest),
        DataIO::DB_BOTH => lemma_rt_u8(2u8, rest),
        DataIO::STATIC => lemma_rt_u8(3u8, rest),
    }
}

pub fn enc_dio(out: &mut Vec<u8>, x: DataIO)
    ensures
        final(out)@ == old(out)@ + s_enc_dio(x),
{
    match x {
        DataIO::DB_READ_ONLY => enc_u8(out, 0),
        DataIO::DB_INPUT => enc_u8(out, 1),
        DataIO::DB_BOTH => enc_u8(out, 2),
        DataIO::STATIC => enc_u8(out, 3),
    }
}

pub fn dec_dio(b: &Vec<u8>, pos: usize) -> (r: Option<(DataIO, usize)>)
    requires
        pos <= b@.len(),
    ensures
        match s_dec_dio(b@.skip(pos as int)) {
            Some((v, rest)) => {
                &&& r matches Some((x, p2)) && x == v && pos <= p2 <= b@.len() && b@.skip(p2 as int)
                    == rest
            },
            None => r is None,
        },
{
    match dec_u8(b, pos) {
        None => None,
        Some((t, p2)) => {
            if t == 0 {
                Some((DataIO::DB_READ_ONLY, p2))
            } else if t == 1 {
                Some((DataIO::DB_INPUT, p2))
            } else if t == 2 {
                Some((DataIO::DB_BOTH, p2))
            } else if t == 3 {
                Some((DataIO::STATIC, p2))
            } else {
                None
            }
        },
    }
}

pub open spec fn s_enc_dtype(x: DataType) -> Seq<u8> {
    match x {
        DataType::UINT => seq![0u8],
        DataType::INT => seq![1u8],
        DataType::STRING => seq![2u8],
        DataType::PASSWORD => seq![3u8],
    }
}

pub open spec fn s_dec_dtype(b: Seq<u8>) -> Option<(DataType, Seq<u8>)> {
    match s_dec_u8(b) {
        Some((t, rest)) => if t == 0 {
            Some((DataType::UINT, rest))
        } else if t == 1 {
            Some((DataType::INT, rest))
        } else if t == 2 {
            Some((DataType::STRING, rest))
        } else if t == 3 {
            Some((DataType::PASSWORD, rest))
        } else {
            None
        },
        None => None,
    }
}

pub proof fn lemma_rt_dtype(x: DataType, rest: Seq<u8>)
    ensures
        s_dec_dtype(s_enc_dtype(x) + rest) == Some((x, rest)),
{
    match x {
        DataType::UINT => lemma_rt_u8(0u8, rest),
        DataType::INT => lemma_rt_u8(1u8, rest),
        DataType::STRING => lemma_rt_u8(2u8, rest),
        DataType::PASSWORD => lemma_rt_u8(3u8, rest),
    }
}

pub fn enc_dtype(out: &mut Vec<u8>, x: DataType)
    ensures
        final(out)@ == old(out)@ + s_enc_dtype(x),
{
    match x {
        DataType::UINT => enc_u8(out, 0),
        DataType::INT => enc_u8(out, 1),
        DataType::STRING => enc_u8(out, 2),
        DataType::PASSWORD => enc_u8(out, 3),
    }
}

pub fn dec_dtype(b: &Vec<u8>, pos: usize) -> (r: Option<(DataType, usize)>)
    requires
        pos <= b@.len(),
    ensures
        match s_dec_dtype(b@.skip(pos as int)) {
            Some((v, rest)) => {
                &&& r matches Some((x, p2)) && x == v && pos <= p2 <= b@.len() && b@.skip(p2 as int)
                    == rest
            },
            None => r is None,
        },
{
    match dec_u8(b, pos) {
        None => None,
        Some((t, p2)) => {
            if t == 0 {
                Some((DataType::UINT, p2))
            } else if t == 1 {
                Some((DataType::INT, p2))
            } else if t == 2 {
                Some((DataType::STRING, p2))
            } else if t == 3 {
                Some((DataType::PASSWORD, p2))
            } else {
                None
            }
        },
    }
}

// --- a stored value: a variant tag, then the payload ---

/// A value can be encoded once its string payload, if any, fits the length
/// prefix.
pub open spec fn encodable_data(d: Data) -> bool {
    d matches Data::STRING(s) ==> encodable_str(s@)
}

pub open spec fn s_enc_data(d: Data) -> Seq<u8> {
    match d {
        Data::BOOL(x) => seq![0u8] + s_enc_bool(x),
        Data::CHAR(c) => seq![1u8] + s_enc_u64((c as u32) as u64),
        Data::SIGNED_INT_8(x) => seq![2u8] + s_enc_i64(x as i64),
        Data::SIGNED_INT_16(x) => seq![3u8] + s_enc_i64(x as i64),
        Data::SIGNED_INT_32(x) => seq![4u8] + s_enc_i64(x as i64),
        Data::SIGNED_INT_64(x) => seq![5u8] + s_enc_i64(x),
        Data::UNSIGNED_INT_8(x) => seq![6u8] + s_enc_u64(x as u64),
        Data::UNSIGNED_INT_16(x) => seq![7u8] + s_enc_u64(x as u64),
        Data::UNSIGNED_INT_32(x) => seq![8u8] + s_enc_u64(x as u64),
        Data::UNSIGNED_INT_64(x) => seq![9u8] + s_enc_u64(x),
        Data::FLOAT_32(x) => seq![10u8] + s_enc_u64(x as u64),
        Data::FLOAT_64(x) => seq![11u8] + s_enc_u64(x),
        Data::STRING(s) => seq![12u8] + s_enc_str(s@),
    }
}

pub open spec fn s_dec_data(b: Seq<u8>) -> Option<(DataAbs, Seq<u8>)> {
    match s_dec_u8(b) {
        None => None,
        Some((tag, b1)) => {
            if tag == 0 {
                match s_dec_bool(b1) {
                    Some((x, rest)) => Some((DataAbs::BOOL(x), rest)),
                    None => None,
                }
            } else if tag == 1 {
                match s_dec_u64(b1) {
                    Some((v, rest)) => if v <= u32::MAX as u64 && is_scalar(v as u32) {
                        Some((DataAbs::CHAR((v as u32) as char), rest))
                    } else {
                        None
                    },
                    None => None,
                }
            } else if tag == 2 {
                match s_dec_i64(b1) {
                    Some((v, rest)) => if i8::MIN as i64 <= v <= i8::MAX as i64 {
                        Some((DataAbs::SIGNED_INT_8(v as i8), rest))
                    } else {
                        None
                    },
                    None => None,
                }
            } else if tag == 3 {
                match s_dec_i64(b1) {
                    Some((v, rest)) => if i16::MIN as i64 <= v <= i16::MAX as i64 {
                        Some((DataAbs::SIGNED_INT_16(v as i16), rest))
                    } else {
                        None
                    },
                    None => None,
                }
            } else if tag == 4 {
                match s_dec_i64(b1) {
                    Some((v, rest)) => if i32::MIN as i64 <= v <= i32::MAX as i64 {
                        Some((DataAbs::SIGNED_INT_32(v as i32), rest))
                    } else {
                        None
                    },
                    None => None,
                }
            } else if tag == 5 {
                match s_dec_i64(b1) {
                    Some((v, rest)) => Some((DataAbs::SIGNED_INT_64(v), rest)),
                    None => None,
                }
            } else if tag == 6 {
                match s_dec_u64(b1) {
                    Some((v, rest)) => if v <= u8::MAX as u64 {
                        Some((DataAbs::UNSIGNED_INT_8(v as u8), rest))
                    } else {
                        None
                    },
                    None => None,
                }
            } else if tag == 7 {
                match s_dec_u64(b1) {
                    Some((v, rest)) => if v <= u16::MAX as u64 {
                        Some((DataAbs::UNSIGNED_INT_16(v as u16), rest))
                    } else {
                        None
                    },
                    None => None,
                }
            } else if tag == 8 {
                match s_dec_u64(b1) {
                    Some((v, rest)) => if v <= u32::MAX as u64 {
                        Some((DataAbs::UNSIGNED_INT_32(v as u32), rest))
                    } else {
                        None
                    },
                    None => None,
                }
            } else if tag == 9 {
                match s_dec_u64(b1) {
                    Some((v, rest)) => Some((DataAbs::UNSIGNED_INT_64(v), rest)),
                    None => None,
                }
            } else if tag == 10 {
                match s_dec_u64(b1) {
                    Some((v, rest)) => if v <= u32::MAX as u64 {
                        Some((DataAbs::FLOAT_32(v as u32), rest))
                    } else {
                        None
                    },
                    None => None,
                }
            } else if tag == 11 {
                match s_dec_u64(b1) {
                    Some((v, rest)) => Some((DataAbs::FLOAT_64(v), rest)),
                    None => None,
                }
            } else if tag == 12 {
                match s_dec_str(b1) {
                    Some((s, rest)) => Some((DataAbs::STRING(s), rest)),
                    None => None,
                }
            } else {
                None
            }
        },
    }
}

#[verifier::rlimit(60)]
pub proof fn lemma_rt_data(d: Data, rest: Seq<u8>)
    requires
        encodable_data(d),
    ensures
        s_dec_data(s_enc_data(d) + rest) == Some((d.abs(), rest)),
{
    match d {
        Data::BOOL(x) => {
            assert(s_enc_data(d) + rest =~= seq![0u8] + (s_enc_bool(x) + rest));
            lemma_rt_u8(0u8, s_enc_bool(x) + rest);
            lemma_rt_bool(x, rest);
        },
        Data::CHAR(c) => {
            let u = (c as u32) as u64;
            assert(s_enc_data(d) + rest =~= seq![1u8] + (s_enc_u64(u) + rest));
            lemma_rt_u8(1u8, s_enc_u64(u) + rest);
            lemma_rt_u64(u, rest);
            char_is_scalar(c);
            char_u32_cast(c, c as u32);
        },
        Data::SIGNED_INT_8(x) => {
            assert(s_enc_data(d) + rest =~= seq![2u8] + (s_enc_i64(x as i64) + rest));
            lemma_rt_u8(2u8, s_enc_i64(x as i64) + rest);
            lemma_rt_i64(x as i64, rest);
        },
        Data::SIGNED_INT_16(x) => {
            assert(s_enc_data(d) + rest =~= seq![3u8] + (s_enc_i64(x as i64) + rest));
            lemma_rt_u8(3u8, s_enc_i64(x as i64) + rest);
            lemma_rt_i64(x as i64, rest);
        },
        Data::SIGNED_INT_32(x) => {
            assert(s_enc_data(d) + rest =~= seq![4u8] + (s_enc_i64(x as i64) + rest));
            lemma_rt_u8(4u8, s_enc_i64(x as i64) + rest);
            lemma_rt_i64(x as i64, rest);
        },
        Data::SIGNED_INT_64(x) => {
            assert(s_enc_data(d) + rest =~= seq![5u8] + (s_enc_i64(x) + rest));
            lemma_rt_u8(5u8, s_enc_i64(x) + rest);
            lemma_rt_i64(x, rest);
        },
        Data::UNSIGNED_INT_8(x) => {
            assert(s_enc_data(d) + rest =~= seq![6u8] + (s_enc_u64(x as u64) + rest));
            lemma_rt_u8(6u8, s_enc_u64(x as u64) + rest);
            lemma_rt_u64(x as u64, rest);
        },
        Data::UNSIGNED_INT_16(x) => {
            assert(s_enc_data(d) + rest =~= seq![7u8] + (s_enc_u64(x as u64) + rest));
            lemma_rt_u8(7u8, s_enc_u64(x as u64) + rest);
            lemma_rt_u64(x as u64, rest);
        },
        Data::UNSIGNED_INT_32(x) => {
            assert(s_enc_data(d) + rest =~= seq![8u8] + (s_enc_u64(x as u64) + rest));
            lemma_rt_u8(8u8, s_enc_u64(x as u64) + rest);
            lemma_rt_u64(x as u64, rest);
        },
        Data::UNSIGNED_INT_64(x) => {
            assert(s_enc_data(d) + rest =~= seq![9u8] + (s_enc_u64(x) + rest));
            lemma_rt_u8(9u8, s_enc_u64(x) + rest);
            lemma_rt_u64(x, rest);
        },
        Data::FLOAT_32(x) => {
            assert(s_enc_data(d) + rest =~= seq![10u8] + (s_enc_u64(x as u64) + rest));
            lemma_rt_u8(10u8, s_enc_u64(x as u64) + rest);
            lemma_rt_u64(x as u64, rest);
        },
        Data::FLOAT_64(x) => {
            assert(s_enc_data(d) + rest =~= seq![11u8] + (s_enc_u64(x) + rest));
            lemma_rt_u8(11u8, s_enc_u64(x) + rest);
            lemma_rt_u64(x, rest);
        },
        Data::STRING(s) => {
            assert(s_enc_data(d) + rest =~= seq![12u8] + (s_enc_str(s@) + rest));
            lemma_rt_u8(12u8, s_enc_str(s@) + rest);
            lemma_rt_str(s@, rest);
        },
    }
}

pub fn enc_data(out: &mut Vec<u8>, d: &Data)
    ensures
        final(out)@ == old(out)@ + s_enc_data(*d),
        encodable_data(*d),
{
    match d {
        Data::BOOL(x) => {
            enc_u8(out, 0);
            enc_bool(out, *x);
        },
        Data::CHAR(c) => {
            enc_u8(out, 1);
            enc_u64(out, (*c as u32) as u64);
        },
        Data::SIGNED_INT_8(x) => {
            enc_u8(out, 2);
            enc_i64(out, *x as i64);
        },
        Data::SIGNED_INT_16(x) => {
            enc_u8(out, 3);
            enc_i64(out, *x as i64);
        },
        Data::SIGNED_INT_32(x) => {
            enc_u8(out, 4);
            enc_i64(out, *x as i64);
        },
        Data::SIGNED_INT_64(x) => {
            enc_u8(out, 5);
            enc_i64(out, *x);
        },
        Data::UNSIGNED_INT_8(x) => {
            enc_u8(out, 6);
            enc_u64(out, *x as u64);
        },
        Data::UNSIGNED_INT_16(x) => {
            enc_u8(out, 7);
            enc_u64(out, *x as u64);
        },
        Data::UNSIGNED_INT_32(x) => {
            enc_u8(out, 8);
            enc_u64(out, *x as u64);
        },
        Data::UNSIGNED_INT_64(x) => {
            enc_u8(out, 9);
            enc_u64(out, *x);
        },
        Data::FLOAT_32(x) => {
            enc_u8(out, 10);
            enc_u64(out, *x as u64);
        },
        Data::FLOAT_64(x) => {
            enc_u8(out, 11);
            enc_u64(out, *x);
        },
        Data::STRING(s) => {
            enc_u8(out, 12);
            enc_str(out, s.as_str());
        },
    }
    proof {
        assert(out@ =~= old(out)@ + s_enc_data(*d));
    }
}

pub fn dec_data(b: &Vec<u8>, pos: usize) -> (r: Option<(Data, usize)>)
    requires
        pos <= b@.len(),
    ensures
        match s_dec_data(b@.skip(pos as int)) {
            Some((a, rest)) => {
                &&& r matches Some((d, p2)) && d.abs() == a && pos <= p2 <= b@.len() && b@.skip(
                    p2 as int,
                ) == rest
            },
            None => r is None,
        },
{
    let (tag, p1) = match dec_u8(b, pos) {
        None => {
            return None;
        },
        Some(v) => v,
    };
    if tag == 0 {
        match dec_bool(b, p1) {
            Some((x, p2)) => Some((Data::BOOL(x), p2)),
            None => None,
        }
    } else if tag == 1 {
        match dec_u64(b, p1) {
            Some((v, p2)) => {
                if v <= u32::MAX as u64 {
                    match char::from_u32(v as u32) {
                        Some(c) => {
                            proof {
                                char_u32_cast(c, v as u32);
                            }
                            Some((Data::CHAR(c), p2))
                        },
                        None => None,
                    }
                } else {
                    None
                }
            },
            None => None,
        }
    } else if tag == 2 {
        match dec_i64(b, p1) {
            Some((v, p2)) => {
                if i8::MIN as i64 <= v && v <= i8::MAX as i64 {
                    Some((Data::SIGNED_INT_8(v as i8), p2))
                } else {
                    None
                }
            },
            None => None,
        }
    } else if tag == 3 {
        match dec_i64(b, p1) {
            Some((v, p2)) => {
                if i16::MIN as i64 <= v && v <= i16::MAX as i64 {
                    Some((Data::SIGNED_INT_16(v as i16), p2))
                } else {
                    None
                }
            },
            None => None,
        }
    } else if tag == 4 {
        match dec_i64(b, p1) {
            Some((v, p2)) => {
                if i32::MIN as i64 <= v && v <= i32::MAX as i64 {
                    Some((Data::SIGNED_INT_32(v as i32), p2))
                } else {
                    None
                }
            },
            None => None,
        }
    } else if tag == 5 {
        match dec_i64(b, p1) {
            Some((v, p2)) => Some((Data::SIGNED_INT_64(v), p2)),
            None => None,
        }
    } else if tag == 6 {
        match dec_u64(b, p1) {
            Some((v, p2)) => {
                if v <= u8::MAX as u64 {
                    Some((Data::UNSIGNED_INT_8(v as u8), p2))
                } else {
                    None
                }
            },
            None => None,
        }
    } else if tag == 7 {
        match dec_u64(b, p1) {
            Some((v, p2)) => {
                if v <= u16::MAX as u64 {
                    Some((Data::UNSIGNED_INT_16(v as u16), p2))
                } else {
                    None
                }
            },
            None => None,
        }
    } else if tag == 8 {
        match dec_u64(b, p1) {
            Some((v, p2)) => {
                if v <= u32::MAX as u64 {
                    Some((Data::UNSIGNED_INT_32(v as u32), p2))
                } else {
                    None
                }
            },
            None => None,
        }
    } else if tag == 9 {
        match dec_u64(b, p1) {
            Some((v, p2)) => Some((Data::UNSIGNED_INT_64(v), p2)),
            None => None,
        }
    } else if tag == 10 {
        match dec_u64(b, p1) {
            Some((v, p2)) => {
                if v <= u32::MAX as u64 {
                    Some((Data::FLOAT_32(v as u32), p2))
                } else {
                    None
                }
            },
            None => None,
        }
    } else if tag == 11 {
        match dec_u64(b, p1) {
            Some((v, p2)) => Some((Data::FLOAT_64(v), p2)),
            None => None,
        }
    } else if tag == 12 {
        match dec_str(b, p1) {
            Some((s, p2)) => Some((Data::STRING(s), p2)),
            None => None,
        }
    } else {
        None
    }
}

// --- one stored value entry: instance id, then the value ---

pub open spec fn s_enc_value_entry(t: (usize, Data)) -> Seq<u8> {
    s_enc_usize(t.0) + s_enc_data(t.1)
}

pub open spec fn s_dec_value_entry(b: Seq<u8>) -> Option<((usize, DataAbs), Seq<u8>)> {
    match s_dec_usize(b) {
        Some((k, b1)) => match s_dec_data(b1) {
            Some((d, rest)) => Some(((k, d), rest)),
            None => None,
        },
        None => None,
    }
}

pub open spec fn value_entry_enc_f() -> spec_fn((usize, Data)) -> Seq<u8> {
    |t: (usize, Data)| s_enc_value_entry(t)
}

pub open spec fn value_entry_dec_f() -> spec_fn(Seq<u8>) -> Option<((usize, DataAbs), Seq<u8>)> {
    |b: Seq<u8>| s_dec_value_entry(b)
}

pub open spec fn value_entry_abs_f() -> spec_fn((usize, Data)) -> (usize, DataAbs) {
    |t: (usize, Data)| (t.0, t.1.abs())
}

pub proof fn lemma_rt_value_entry(t: (usize, Data), rest: Seq<u8>)
    requires
        encodable_data(t.1),
    ensures
        s_dec_value_entry(s_enc_value_entry(t) + rest) == Some(((t.0, t.1.abs()), rest)),
{
    assert(s_enc_value_entry(t) + rest =~= s_enc_usize(t.0) + (s_enc_data(t.1) + rest));
    lemma_rt_usize(t.0, s_enc_data(t.1) + rest);
    lemma_rt_data(t.1, rest);
}

fn enc_value_entry(out: &mut Vec<u8>, t: &(usize, Data))
    ensures
        final(out)@ == old(out)@ + s_enc_value_entry(*t),
        encodable_data(t.1),
{
    enc_usize(out, t.0);
    enc_data(out, &t.1);
    proof {
        assert(out@ =~= old(out)@ + s_enc_value_entry(*t));
    }
}

fn dec_value_entry(b: &Vec<u8>, pos: usize) -> (r: Option<((usize, Data), usize)>)
    requires
        pos <= b@.len(),
    ensures
        match s_dec_value_entry(b@.skip(pos as int)) {
            Some((a, rest)) => {
                &&& r matches Some((t, p2)) && t.0 == a.0 && t.1.abs() == a.1 && pos <= p2
                    <= b@.len() && b@.skip(p2 as int) == rest
            },
            None => r is None,
        },
{
    let (k, p1) = match dec_usize(b, pos) {
        None => {
            return None;
        },
        Some(v) => v,
    };
    match dec_data(b, p1) {
        None => None,
        Some((d, p2)) => Some(((k, d), p2)),
    }
}

fn enc_value_entries(out: &mut Vec<u8>, v: &Vec<(usize, Data)>)
    ensures
        final(out)@ == old(out)@ + s_enc_list(v@, value_entry_enc_f()),
        encodable_value_entries(v@),
{
    enc_u64(out, v.len() as u64);
    let ghost base = out@;
    let mut k: usize = 0;
    while k < v.len()
        invariant
            v@.len() <= u64::MAX,
            k <= v@.len(),
            out@ == base + s_enc_items(v@.take(k as int), value_entry_enc_f()),
            forall|i: int| 0 <= i < k ==> encodable_data((#[trigger] v@[i]).1),
        decreases v@.len() - k,
    {
        proof {
            assert(base + s_enc_items(v@.take(k as int), value_entry_enc_f()) == out@);
        }
        enc_value_entry(out, &v[k]);
        proof {
            assert(v@.take(k as int).push(v@[k as int]) =~= v@.take(k + 1));
            lemma_enc_items_snoc(v@.take(k as int), v@[k as int], value_entry_enc_f());
            assert(out@ =~= base + s_enc_items(v@.take(k + 1), value_entry_enc_f()));
        }
        k += 1;
    }
    proof {
        assert(v@.take(v@.len() as int) =~= v@);
        assert(out@ =~= old(out)@ + s_enc_list(v@, value_entry_enc_f()));
    }
}

#[verifier::loop_isolation(false)]
fn dec_value_entries(b: &Vec<u8>, pos: usize) -> (r: Option<(Vec<(usize, Data)>, usize)>)
    requires
        pos <= b@.len(),
    ensures
        match s_dec_list(b@.skip(pos as int), value_entry_dec_f()) {
            Some((a, rest)) => {
                &&& r matches Some((v, p2)) && v@.map_values(value_entry_abs_f()) == a && pos <= p2
                    <= b@.len() && b@.skip(p2 as int) == rest
            },
            None => r is None,
        },
{
    let (cnt, p1) = match dec_u64(b, pos) {
        None => {
            return None;
        },
        Some(v) => v,
    };
    let ghost full = s_dec_items(b@.skip(p1 as int), value_entry_dec_f(), cnt as nat);
    let mut acc: Vec<(usize, Data)> = Vec::new();
    let mut cur = p1;
    let mut k: u64 = 0;
    while k < cnt
        invariant
            k <= cnt,
            pos <= cur <= b@.len(),
            full == (match s_dec_items(b@.skip(cur as int), value_entry_dec_f(), (cnt - k) as nat) {
                Some((t, rest)) => Some((acc@.map_values(value_entry_abs_f()) + t, rest)),
                None => None::<(Seq<(usize, DataAbs)>, Seq<u8>)>,
            }),
        decreases cnt - k,
    {
        let ghost rem = (cnt - k) as nat;
        let ghost here = b@.skip(cur as int);
        proof {
            assert(value_entry_dec_f()(here) == s_dec_value_entry(here));
        }
        match dec_value_entry(b, cur) {
            None => {
                proof {
                    assert(s_dec_items(here, value_entry_dec_f(), rem) is None);
                }
                return None;
            },
            Some((t, p2)) => {
                let ghost a = (t.0, t.1.abs());
                proof {
                    let abs_acc = acc@.map_values(value_entry_abs_f());
                    assert(s_dec_value_entry(here) == Some((a, b@.skip(p2 as int))));
                    assert(s_dec_items(here, value_entry_dec_f(), rem) == (
                    match s_dec_items(b@.skip(p2 as int), value_entry_dec_f(), (rem - 1) as nat) {
                        Some((tail, b2)) => Some((seq![a] + tail, b2)),
                        None => None::<(Seq<(usize, DataAbs)>, Seq<u8>)>,
                    }));
                    assert((acc@.push(t)).map_values(value_entry_abs_f()) =~= abs_acc.push(
                        value_entry_abs_f()(t),
                    ));
                    assert(value_entry_abs_f()(t) == a);
                    match s_dec_items(b@.skip(p2 as int), value_entry_dec_f(), (rem - 1) as nat) {
                        Some((tail, b2)) => {
                            assert(abs_acc.push(a) + tail =~= abs_acc + (seq![a] + tail));
                        },
                        None => {},
                    }
                }
                acc.push(t);
                cur = p2;
                k += 1;
            },
        }
    }
    proof {
        assert(s_dec_items(b@.skip(cur as int), value_entry_dec_f(), 0) == Some((
            Seq::<(usize, DataAbs)>::empty(),
            b@.skip(cur as int),
        )));
        assert(acc@.map_values(value_entry_abs_f()) + Seq::<(usize, DataAbs)>::empty()
            =~= acc@.map_values(value_entry_abs_f()));
        assert(full == Some((acc@.map_values(value_entry_abs_f()), b@.skip(cur as int))));
        assert(s_dec_list(b@.skip(pos as int), value_entry_dec_f()) == full);
    }
    Some((acc, cur))
}

// --- one value-table entry: component id, then its value list ---

pub open spec fn s_enc_inst_entry(t: (usize, Vec<(usize, Data)>)) -> Seq<u8> {
    s_enc_usize(t.0) + s_enc_list(t.1@, value_entry_enc_f())
}

pub open spec fn s_dec_inst_entry(b: Seq<u8>) -> Option<(
    (usize, Seq<(usize, DataAbs)>),
    Seq<u8>,
)> {
    match s_dec_usize(b) {
        Some((k, b1)) => match s_dec_list(b1, value_entry_dec_f()) {
            Some((l, rest)) => Some(((k, l), rest)),
            None => None,
        },
        None => None,
    }
}

pub open spec fn inst_entry_enc_f() -> spec_fn((usize, Vec<(usize, Data)>)) -> Seq<u8> {
    |t: (usize, Vec<(usize, Data)>)| s_enc_inst_entry(t)
}

pub open spec fn inst_entry_dec_f() -> spec_fn(Seq<u8>) -> Option<(
    (usize, Seq<(usize, DataAbs)>),
    Seq<u8>,
)> {
    |b: Seq<u8>| s_dec_inst_entry(b)
}

pub open spec fn inst_entry_abs_f() -> spec_fn((usize, Vec<(usize, Data)>)) -> (
    usize,
    Seq<(usize, DataAbs)>,
) {
    |t: (usize, Vec<(usize, Data)>)| (t.0, t.1@.map_values(value_entry_abs_f()))
}

pub open spec fn encodable_value_entries(s: Seq<(usize, Data)>) -> bool {
    s.len() <= u64::MAX && forall|i: int| 0 <= i < s.len() ==> encodable_data((#[trigger] s[i]).1)
}

pub proof fn lemma_rt_inst_entry(t: (usize, Vec<(usize, Data)>), rest: Seq<u8>)
    requires
        encodable_value_entries(t.1@),
    ensures
        s_dec_inst_entry(s_enc_inst_entry(t) + rest) == Some((inst_entry_abs_f()(t), rest)),
{
    let tail = s_enc_list(t.1@, value_entry_enc_f()) + rest;
    assert(s_enc_inst_entry(t) + rest =~= s_enc_usize(t.0) + tail);
    lemma_rt_usize(t.0, tail);
    assert forall|e: (usize, Data), r2: Seq<u8>| t.1@.contains(e) implies #[trigger] value_entry_dec_f()(
        value_entry_enc_f()(e) + r2,
    ) == Some((value_entry_abs_f()(e), r2)) by {
        let i = choose|i: int| 0 <= i < t.1@.len() && t.1@[i] == e;
        assert(encodable_data(e.1));
        lemma_rt_value_entry(e, r2);
    }
    lemma_list_rt(t.1@, value_entry_enc_f(), value_entry_dec_f(), value_entry_abs_f(), rest);
}

fn enc_inst_entry(out: &mut Vec<u8>, t: &(usize, Vec<(usize, Data)>))
    ensures
        final(out)@ == old(out)@ + s_enc_inst_entry(*t),
        encodable_value_entries(t.1@),
{
    enc_usize(out, t.0);
    enc_value_entries(out, &t.1);
    proof {
        assert(out@ =~= old(out)@ + s_enc_inst_entry(*t));
    }
}

fn dec_inst_entry(b: &Vec<u8>, pos: usize) -> (r: Option<((usize, Vec<(usize, Data)>), usize)>)
    requires
        pos <= b@.len(),
    ensures
        match s_dec_inst_entry(b@.skip(pos as int)) {
            Some((a, rest)) => {
                &&& r matches Some((t, p2)) && t.0 == a.0 && t.1@.map_values(value_entry_abs_f())
                    == a.1 && pos <= p2 <= b@.len() && b@.skip(p2 as int) == rest
            },
            None => r is None,
        },
{
    let (key, p1) = match dec_usize(b, pos) {
        None => {
            return None;
        },
        Some(v) => v,
    };
    match dec_value_entries(b, p1) {
        None => None,
        Some((l, p2)) => Some(((key, l), p2)),
    }
}

fn enc_inst_entries(out: &mut Vec<u8>, v: &Vec<(usize, Vec<(usize, Data)>)>)
    ensures
        final(out)@ == old(out)@ + s_enc_list(v@, inst_entry_enc_f()),
        v@.len() <= u64::MAX,
        forall|i: int| 0 <= i < v@.len() ==> encodable_value_entries((#[trigger] v@[i]).1@),
{
    enc_u64(out, v.len() as u64);
    let ghost base = out@;
    let mut k: usize = 0;
    while k < v.len()
        invariant
            v@.len() <= u64::MAX,
            k <= v@.len(),
            out@ == base + s_enc_items(v@.take(k as int), inst_entry_enc_f()),
            forall|i: int| 0 <= i < k ==> encodable_value_entries((#[trigger] v@[i]).1@),
        decreases v@.len() - k,
    {
        enc_inst_entry(out, &v[k]);
        proof {
            assert(v@.take(k as int).push(v@[k as int]) =~= v@.take(k + 1));
            lemma_enc_items_snoc(v@.take(k as int), v@[k as int], inst_entry_enc_f());
            assert(out@ =~= base + s_enc_items(v@.take(k + 1), inst_entry_enc_f()));
        }
        k += 1;
    }
    proof {
        assert(v@.take(v@.len() as int) =~= v@);
        assert(out@ =~= old(out)@ + s_enc_list(v@, inst_entry_enc_f()));
    }
}

#[verifier::loop_isolation(false)]
fn dec_inst_entries(b: &Vec<u8>, pos: usize) -> (r: Option<(
    Vec<(usize, Vec<(usize, Data)>)>,
    usize,
)>)
    requires
        pos <= b@.len(),
    ensures
        match s_dec_list(b@.skip(pos as int), inst_entry_dec_f()) {
            Some((a, rest)) => {
                &&& r matches Some((v, p2)) && v@.map_values(inst_entry_abs_f()) == a && pos <= p2
                    <= b@.len() && b@.skip(p2 as int) == rest
            },
            None => r is None,
        },
{
    let (cnt, p1) = match dec_u64(b, pos) {
        None => {
            return None;
        },
        Some(v) => v,
    };
    let ghost full = s_dec_items(b@.skip(p1 as int), inst_entry_dec_f(), cnt as nat);
    let mut acc: Vec<(usize, Vec<(usize, Data)>)> = Vec::new();
    let mut cur = p1;
    let mut k: u64 = 0;
    while k < cnt
        invariant
            k <= cnt,
            pos <= cur <= b@.len(),
            full == (match s_dec_items(b@.skip(cur as int), inst_entry_dec_f(), (cnt - k) as nat) {
                Some((t, rest)) => Some((acc@.map_values(inst_entry_abs_f()) + t, rest)),
                None => None::<(Seq<(usize, Seq<(usize, DataAbs)>)>, Seq<u8>)>,
            }),
        decreases cnt - k,
    {
        let ghost rem = (cnt - k) as nat;
        let ghost here = b@.skip(cur as int);
        proof {
            assert(inst_entry_dec_f()(here) == s_dec_inst_entry(here));
        }
        match dec_inst_entry(b, cur) {
            None => {
                proof {
                    assert(s_dec_items(here, inst_entry_dec_f(), rem) is None);
                }
                return None;
            },
            Some((t, p2)) => {
                let ghost a = (t.0, t.1@.map_values(value_entry_abs_f()));
                proof {
                    let abs_acc = acc@.map_values(inst_entry_abs_f());
                    assert(s_dec_inst_entry(here) == Some((a, b@.skip(p2 as int))));
                    assert(s_dec_items(here, inst_entry_dec_f(), rem) == (
                    match s_dec_items(b@.skip(p2 as int), inst_entry_dec_f(), (rem - 1) as nat) {
                        Some((tail, b2)) => Some((seq![a] + tail, b2)),
                        None => None::<(Seq<(usize, Seq<(usize, DataAbs)>)>, Seq<u8>)>,
                    }));
                    assert((acc@.push(t)).map_values(inst_entry_abs_f()) =~= abs_acc.push(
                        inst_entry_abs_f()(t),
                    ));
                    assert(inst_entry_abs_f()(t) == a);
                    match s_dec_items(b@.skip(p2 as int), inst_entry_dec_f(), (rem - 1) as nat) {
                        Some((tail, b2)) => {
                            assert(abs_acc.push(a) + tail =~= abs_acc + (seq![a] + tail));
                        },
                        None => {},
                    }
                }
                acc.push(t);
                cur = p2;
                k += 1;
            },
        }
    }
    proof {
        assert(s_dec_items(b@.skip(cur as int), inst_entry_dec_f(), 0) == Some((
            Seq::<(usize, Seq<(usize, DataAbs)>)>::empty(),
            b@.skip(cur as int),
        )));
        assert(acc@.map_values(inst_entry_abs_f()) + Seq::<(usize, Seq<(usize, DataAbs)>)>::empty()
            =~= acc@.map_values(inst_entry_abs_f()));
        assert(full == Some((acc@.map_values(inst_entry_abs_f()), b@.skip(cur as int))));
        assert(s_dec_list(b@.skip(pos as int), inst_entry_dec_f()) == full);
    }
    Some((acc, cur))
}

// --- the instance record ---

/// The mathematical shape of an `Instances` record.
pub ghost struct InstancesAbs {
    pub instances: Seq<(usize, Seq<(usize, DataAbs)>)>,
    pub next_instance_id: usize,
}

pub open spec fn instances_abs(x: Instances) -> InstancesAbs {
    InstancesAbs {
        instances: x.instances@.map_values(inst_entry_abs_f()),
        next_instance_id: x.next_instance_id,
    }
}

/// Every list fits its length prefix and every string its own.
pub open spec fn instances_encodable(x: Instances) -> bool {
    x.instances@.len() <= u64::MAX && forall|i: int|
        0 <= i < x.instances@.len() ==> encodable_value_entries(
            (#[trigger] x.instances@[i]).1@,
        )
}

pub open spec fn s_enc_instances(x: Instances) -> Seq<u8> {
    s_enc_list(x.instances@, inst_entry_enc_f()) + s_enc_usize(x.next_instance_id)
}

pub open spec fn s_dec_instances(b: Seq<u8>) -> Option<(InstancesAbs, Seq<u8>)> {
    match s_dec_list(b, inst_entry_dec_f()) {
        Some((l, b1)) => match s_dec_usize(b1) {
            Some((n, rest)) => Some((InstancesAbs { instances: l, next_instance_id: n }, rest)),
            None => None,
        },
        None => None,
    }
}

/// The round trip for the instance record: decoding an encoded record gives
/// back the record it was encoded from, counter included.
pub proof fn lemma_instances_round_trip(x: Instances, rest: Seq<u8>)
    requires
        instances_encodable(x),
    ensures
        s_dec_instances(s_enc_instances(x) + rest) == Some((instances_abs(x), rest)),
{
    let tail = s_enc_usize(x.next_instance_id) + rest;
    assert(s_enc_instances(x) + rest =~= s_enc_list(x.instances@, inst_entry_enc_f()) + tail);
    assert forall|e: (usize, Vec<(usize, Data)>), r2: Seq<u8>| x.instances@.contains(e) implies
        #[trigger] inst_entry_dec_f()(inst_entry_enc_f()(e) + r2) == Some((
        inst_entry_abs_f()(e),
        r2,
    )) by {
        let i = choose|i: int| 0 <= i < x.instances@.len() && x.instances@[i] == e;
        assert(encodable_value_entries(e.1@));
        lemma_rt_inst_entry(e, r2);
    }
    lemma_list_rt(x.instances@, inst_entry_enc_f(), inst_entry_dec_f(), inst_entry_abs_f(), tail);
    lemma_rt_usize(x.next_instance_id, rest);
}

impl Instances {
    /// Encodes the record into the persisted byte form.
    pub fn save(&self) -> (out: Vec<u8>)
        ensures
            out@ == s_enc_instances(*self),
            instances_encodable(*self),
    {
        let mut out: Vec<u8> = Vec::new();
        enc_inst_entries(&mut out, &self.instances);
        enc_usize(&mut out, self.next_instance_id);
        proof {
            assert(out@ =~= s_enc_instances(*self));
        }
        out
    }

    /// Decodes a persisted record; anything the encoder cannot have
    /// produced, trailing bytes included, is a load failure.
    pub fn load(bytes: &Vec<u8>) -> (r: DBResult<Instances>)
        ensures
            match s_dec_instances(bytes@) {
                Some((a, rest)) => if rest.len() == 0 {
                    r matches Ok(x) && instances_abs(x) == a
                } else {
                    r matches Err(e) && e matches DatabaseError::FailedToLoadFile(_)
                },
                None => r matches Err(e) && e matches DatabaseError::FailedToLoadFile(_),
            },
    {
        proof {
            assert(bytes@.skip(0) =~= bytes@);
        }
        let (entries, p1) = match dec_inst_entries(bytes, 0) {
            None => {
                return Err(
                    DatabaseError::FailedToLoadFile(String::from_str("Malformed instance record")),
                );
            },
            Some(v) => v,
        };
        let (next, p2) = match dec_usize(bytes, p1) {
            None => {
                return Err(
                    DatabaseError::FailedToLoadFile(String::from_str("Malformed instance record")),
                );
            },
            Some(v) => v,
        };
        if p2 != bytes.len() {
            return Err(
                DatabaseError::FailedToLoadFile(
                    String::from_str("Trailing bytes in instance record"),
                ),
            );
        }
        Ok(Instances { instances: entries, next_instance_id: next })
    }
}


// --- component record entries ---

pub open spec fn s_enc_comp_entry(t: (String, usize)) -> Seq<u8> {
    s_enc_str(t.0@) + s_enc_usize(t.1)
}

pub open spec fn s_dec_comp_entry(b: Seq<u8>) -> Option<((Seq<char>, usize), Seq<u8>)> {
    match s_dec_str(b) {
        Some((s, b1)) => match s_dec_usize(b1) {
            Some((k, rest)) => Some(((s, k), rest)),
            None => None,
        },
        None => None,
    }
}

pub open spec fn comp_entry_enc_f() -> spec_fn((String, usize)) -> Seq<u8> {
    |t: (String, usize)| s_enc_comp_entry(t)
}

pub open spec fn comp_entry_dec_f() -> spec_fn(Seq<u8>) -> Option<((Seq<char>, usize), Seq<u8>)> {
    |b: Seq<u8>| s_dec_comp_entry(b)
}

pub open spec fn comp_entry_abs_f() -> spec_fn((String, usize)) -> (Seq<char>, usize) {
    |t: (String, usize)| (t.0@, t.1)
}

pub proof fn lemma_rt_comp_entry(t: (String, usize), rest: Seq<u8>)
    requires
        encodable_str(t.0@),
    ensures
        s_dec_comp_entry(s_enc_comp_entry(t) + rest) == Some(((t.0@, t.1), rest)),
{
    assert(s_enc_comp_entry(t) + rest =~= s_enc_str(t.0@) + (s_enc_usize(t.1) + rest));
    lemma_rt_str(t.0@, s_enc_usize(t.1) + rest);
    lemma_rt_usize(t.1, rest);
}

fn enc_comp_entry(out: &mut Vec<u8>, t: &(String, usize))
    ensures
        final(out)@ == old(out)@ + s_enc_comp_entry(*t),
        encodable_str(t.0@),
{
    enc_str(out, t.0.as_str());
    enc_usize(out, t.1);
    proof {
        assert(out@ =~= old(out)@ + s_enc_comp_entry(*t));
    }
}

fn dec_comp_entry(b: &Vec<u8>, pos: usize) -> (r: Option<((String, usize), usize)>)
    requires
        pos <= b@.len(),
    ensures
        match s_dec_comp_entry(b@.skip(pos as int)) {
            Some((a, rest)) => {
                &&& r matches Some((t, p2)) && t.0@ == a.0 && t.1 == a.1 && pos <= p2 <= b@.len()
                    && b@.skip(p2 as int) == rest
            },
            None => r is None,
        },
{
    let (s, p1) = match dec_str(b, pos) {
        None => {
            return None;
        },
        Some(v) => v,
    };
    match dec_usize(b, p1) {
        None => None,
        Some((k, p2)) => Some(((s, k), p2)),
    }
}

pub open spec fn s_enc_name_entry(t: (usize, String)) -> Seq<u8> {
    s_enc_usize(t.0) + s_enc_str(t.1@)
}

pub open spec fn s_dec_name_entry(b: Seq<u8>) -> Option<((usize, Seq<char>), Seq<u8>)> {
    match s_dec_usize(b) {
        Some((k, b1)) => match s_dec_str(b1) {
            Some((s, rest)) => Some(((k, s), rest)),
            None => None,
        },
        None => None,
    }
}

pub open spec fn name_entry_enc_f() -> spec_fn((usize, String)) -> Seq<u8> {
    |t: (usize, String)| s_enc_name_entry(t)
}

pub open spec fn name_entry_dec_f() -> spec_fn(Seq<u8>) -> Option<((usize, Seq<char>), Seq<u8>)> {
    |b: Seq<u8>| s_dec_name_entry(b)
}

pub open spec fn name_entry_abs_f() -> spec_fn((usize, String)) -> (usize, Seq<char>) {
    |t: (usize, String)| (t.0, t.1@)
}

pub proof fn lemma_rt_name_entry(t: (usize, String), rest: Seq<u8>)
    requires
        encodable_str(t.1@),
    ensures
        s_dec_name_entry(s_enc_name_entry(t) + rest) == Some(((t.0, t.1@), rest)),
{
    assert(s_enc_name_entry(t) + rest =~= s_enc_usize(t.0) + (s_enc_str(t.1@) + rest));
    lemma_rt_usize(t.0, s_enc_str(t.1@) + rest);
    lemma_rt_str(t.1@, rest);
}

fn enc_name_entry(out: &mut Vec<u8>, t: &(usize, String))
    ensures
        final(out)@ == old(out)@ + s_enc_name_entry(*t),
        encodable_str(t.1@),
{
    enc_usize(out, t.0);
    enc_str(out, t.1.as_str());
    proof {
        assert(out@ =~= old(out)@ + s_enc_name_entry(*t));
    }
}

fn dec_name_entry(b: &Vec<u8>, pos: usize) -> (r: Option<((usize, String), usize)>)
    requires
        pos <= b@.len(),
    ensures
        match s_dec_name_entry(b@.skip(pos as int)) {
            Some((a, rest)) => {
                &&& r matches Some((t, p2)) && t.0 == a.0 && t.1@ == a.1 && pos <= p2 <= b@.len()
                    && b@.skip(p2 as int) == rest
            },
            None => r is None,
        },
{
    let (k, p1) = match dec_usize(b, pos) {
        None => {
            return None;
        },
        Some(v) => v,
    };
    match dec_str(b, p1) {
        None => None,
        Some((s, p2)) => Some(((k, s), p2)),
    }
}

pub open spec fn s_enc_dtype_entry(t: (usize, DataType)) -> Seq<u8> {
    s_enc_usize(t.0) + s_enc_dtype(t.1)
}

pub open spec fn s_dec_dtype_entry(b: Seq<u8>) -> Option<((usize, DataType), Seq<u8>)> {
    match s_dec_usize(b) {
        Some((k, b1)) => match s_dec_dtype(b1) {
            Some((d, rest)) => Some(((k, d), rest)),
            None => None,
        },
        None => None,
    }
}

pub open spec fn dtype_entry_enc_f() -> spec_fn((usize, DataType)) -> Seq<u8> {
    |t: (usize, DataType)| s_enc_dtype_entry(t)
}

pub open spec fn dtype_entry_dec_f() -> spec_fn(Seq<u8>) -> Option<((usize, DataType), Seq<u8>)> {
    |b: Seq<u8>| s_dec_dtype_entry(b)
}

pub open spec fn dtype_entry_abs_f() -> spec_fn((usize, DataType)) -> (usize, DataType) {
    |t: (usize, DataType)| t
}

pub proof fn lemma_rt_dtype_entry(t: (usize, DataType), rest: Seq<u8>)
    ensures
        s_dec_dtype_entry(s_enc_dtype_entry(t) + rest) == Some((t, rest)),
{
    assert(s_enc_dtype_entry(t) + rest =~= s_enc_usize(t.0) + (s_enc_dtype(t.1) + rest));
    lemma_rt_usize(t.0, s_enc_dtype(t.1) + rest);
    lemma_rt_dtype(t.1, rest);
}

fn enc_dtype_entry(out: &mut Vec<u8>, t: &(usize, DataType))
    ensures
        final(out)@ == old(out)@ + s_enc_dtype_entry(*t),
{
    enc_usize(out, t.0);
    enc_dtype(out, t.1);
    proof {
        assert(out@ =~= old(out)@ + s_enc_dtype_entry(*t));
    }
}

fn dec_dtype_entry(b: &Vec<u8>, pos: usize) -> (r: Option<((usize, DataType), usize)>)
    requires
        pos <= b@.len(),
    ensures
        match s_dec_dtype_entry(b@.skip(pos as int)) {
            Some((a, rest)) => {
                &&& r matches Some((t, p2)) && t == a && pos <= p2 <= b@.len() && b@.skip(p2 as int)
                    == rest
            },
            None => r is None,
        },
{
    let (k, p1) = match dec_usize(b, pos) {
        None => {
            return None;
        },
        Some(v) => v,
    };
    match dec_dtype(b, p1) {
        None => None,
        Some((d, p2)) => Some(((k, d), p2)),
    }
}


fn enc_comp_entries(out: &mut Vec<u8>, v: &Vec<(String, usize)>)
    ensures
        final(out)@ == old(out)@ + s_enc_list(v@, comp_entry_enc_f()),
        v@.len() <= u64::MAX,
        forall|i: int| 0 <= i < v@.len() ==> encodable_str((#[trigger] v@[i]).0@),
{
    enc_u64(out, v.len() as u64);
    let ghost base = out@;
    let mut k: usize = 0;
    while k < v.len()
        invariant
            v@.len() <= u64::MAX,
            k <= v@.len(),
            out@ == base + s_enc_items(v@.take(k as int), comp_entry_enc_f()),
            forall|i: int| 0 <= i < k ==> encodable_str((#[trigger] v@[i]).0@),
        decreases v@.len() - k,
    {
        enc_comp_entry(out, &v[k]);
        proof {
            assert(v@.take(k as int).push(v@[k as int]) =~= v@.take(k + 1));
            lemma_enc_items_snoc(v@.take(k as int), v@[k as int], comp_entry_enc_f());
            assert(out@ =~= base + s_enc_items(v@.take(k + 1), comp_entry_enc_f()));
        }
        k += 1;
    }
    proof {
        assert(v@.take(v@.len() as int) =~= v@);
        assert(out@ =~= old(out)@ + s_enc_list(v@, comp_entry_enc_f()));
    }
}


#[verifier::loop_isolation(false)]
fn dec_comp_entries(b: &Vec<u8>, pos: usize) -> (r: Option<(Vec<(String, usize)>, usize)>)
    requires
        pos <= b@.len(),
    ensures
        match s_dec_list(b@.skip(pos as int), comp_entry_dec_f()) {
            Some((a, rest)) => {
                &&& r matches Some((v, p2)) && v@.map_values(comp_entry_abs_f()) == a && pos <= p2
                    <= b@.len() && b@.skip(p2 as int) == rest
            },
            None => r is None,
        },
{
    let (cnt, p1) = match dec_u64(b, pos) {
        None => {
            return None;
        },
        Some(v) => v,
    };
    let ghost full = s_dec_items(b@.skip(p1 as int), comp_entry_dec_f(), cnt as nat);
    let mut acc: Vec<(String, usize)> = Vec::new();
    let mut cur = p1;
    let mut k: u64 = 0;
    while k < cnt
        invariant
            k <= cnt,
            pos <= cur <= b@.len(),
            full == (match s_dec_items(b@.skip(cur as int), comp_entry_dec_f(), (cnt - k) as nat) {
                Some((t, rest)) => Some((acc@.map_values(comp_entry_abs_f()) + t, rest)),
                None => None::<(Seq<(Seq<char>, usize)>, Seq<u8>)>,
            }),
        decreases cnt - k,
    {
        let ghost rem = (cnt - k) as nat;
        let ghost here = b@.skip(cur as int);
        proof {
            assert(comp_entry_dec_f()(here) == s_dec_comp_entry(here));
        }
        match dec_comp_entry(b, cur) {
            None => {
                proof {
                    assert(s_dec_items(here, comp_entry_dec_f(), rem) is None);
                }
                return None;
            },
            Some((t, p2)) => {
                let ghost a = (t.0@, t.1);
                proof {
                    let abs_acc = acc@.map_values(comp_entry_abs_f());
                    assert(s_dec_comp_entry(here) == Some((a, b@.skip(p2 as int))));
                    assert(s_dec_items(here, comp_entry_dec_f(), rem) == (
                    match s_dec_items(b@.skip(p2 as int), comp_entry_dec_f(), (rem - 1) as nat) {
                        Some((tail, b2)) => Some((seq![a] + tail, b2)),
                        None => None::<(Seq<(Seq<char>, usize)>, Seq<u8>)>,
                    }));
                    assert((acc@.push(t)).map_values(comp_entry_abs_f()) =~= abs_acc.push(
                        comp_entry_abs_f()(t),
                    ));
                    assert(comp_entry_abs_f()(t) == a);
                    match s_dec_items(b@.skip(p2 as int), comp_entry_dec_f(), (rem - 1) as nat) {
                        Some((tail, b2)) => {
                            assert(abs_acc.push(a) + tail =~= abs_acc + (seq![a] + tail));
                        },
                        None => {},
                    }
                }
                acc.push(t);
                cur = p2;
                k += 1;
            },
        }
    }
    proof {
        assert(s_dec_items(b@.skip(cur as int), comp_entry_dec_f(), 0) == Some((
            Seq::<(Seq<char>, usize)>::empty(),
            b@.skip(cur as int),
        )));
        assert(acc@.map_values(comp_entry_abs_f()) + Seq::<(Seq<char>, usize)>::empty()
            =~= acc@.map_values(comp_entry_abs_f()));
        assert(full == Some((acc@.map_values(comp_entry_abs_f()), b@.skip(cur as int))));
        assert(s_dec_list(b@.skip(pos as int), comp_entry_dec_f()) == full);
    }
    Some((acc, cur))
}


fn enc_name_entries(out: &mut Vec<u8>, v: &Vec<(usize, String)>)
    ensures
        final(out)@ == old(out)@ + s_enc_list(v@, name_entry_enc_f()),
        v@.len() <= u64::MAX,
        forall|i: int| 0 <= i < v@.len() ==> encodable_str((#[trigger] v@[i]).1@),
{
    enc_u64(out, v.len() as u64);
    let ghost base = out@;
    let mut k: usize = 0;
    while k < v.len()
        invariant
            v@.len() <= u64::MAX,
            k <= v@.len(),
            out@ == base + s_enc_items(v@.take(k as int), name_entry_enc_f()),
            forall|i: int| 0 <= i < k ==> encodable_str((#[trigger] v@[i]).1@),
        decreases v@.len() - k,
    {
        enc_name_entry(out, &v[k]);
        proof {
            assert(v@.take(k as int).push(v@[k as int]) =~= v@.take(k + 1));
            lemma_enc_items_snoc(v@.take(k as int), v@[k as int], name_entry_enc_f());
            assert(out@ =~= base + s_enc_items(v@.take(k + 1), name_entry_enc_f()));
        }
        k += 1;
    }
    proof {
        assert(v@.take(v@.len() as int) =~= v@);
        assert(out@ =~= old(out)@ + s_enc_list(v@, name_entry_enc_f()));
    }
}


#[verifier::loop_isolation(false)]
fn dec_name_entries(b: &Vec<u8>, pos: usize) -> (r: Option<(Vec<(usize, String)>, usize)>)
    requires
        pos <= b@.len(),
    ensures
        match s_dec_list(b@.skip(pos as int), name_entry_dec_f()) {
            Some((a, rest)) => {
                &&& r matches Some((v, p2)) && v@.map_values(name_entry_abs_f()) == a && pos <= p2
                    <= b@.len() && b@.skip(p2 as int) == rest
            },
            None => r is None,
        },
{
    let (cnt, p1) = match dec_u64(b, pos) {
        None => {
            return None;
        },
        Some(v) => v,
    };
    let ghost full = s_dec_items(b@.skip(p1 as int), name_entry_dec_f(), cnt as nat);
    let mut acc: Vec<(usize, String)> = Vec::new();
    let mut cur = p1;
    let mut k: u64 = 0;
    while k < cnt
        invariant
            k <= cnt,
            pos <= cur <= b@.len(),
            full == (match s_dec_items(b@.skip(cur as int), name_entry_dec_f(), (cnt - k) as nat) {
                Some((t, rest)) => Some((acc@.map_values(name_entry_abs_f()) + t, rest)),
                None => None::<(Seq<(usize, Seq<char>)>, Seq<u8>)>,
            }),
        decreases cnt - k,
    {
        let ghost rem = (cnt - k) as nat;
        let ghost here = b@.skip(cur as int);
        proof {
            assert(name_entry_dec_f()(here) == s_dec_name_entry(here));
        }
        match dec_name_entry(b, cur) {
            None => {
                proof {
                    assert(s_dec_items(here, name_entry_dec_f(), rem) is None);
                }
                return None;
            },
            Some((t, p2)) => {
                let ghost a = (t.0, t.1@);
                proof {
                    let abs_acc = acc@.map_values(name_entry_abs_f());
                    assert(s_dec_name_entry(here) == Some((a, b@.skip(p2 as int))));
                    assert(s_dec_items(here, name_entry_dec_f(), rem) == (
                    match s_dec_items(b@.skip(p2 as int), name_entry_dec_f(), (rem - 1) as nat) {
                        Some((tail, b2)) => Some((seq![a] + tail, b2)),
                        None => None::<(Seq<(usize, Seq<char>)>, Seq<u8>)>,
                    }));
                    assert((acc@.push(t)).map_values(name_entry_abs_f()) =~= abs_acc.push(
                        name_entry_abs_f()(t),
                    ));
                    assert(name_entry_abs_f()(t) == a);
                    match s_dec_items(b@.skip(p2 as int), name_entry_dec_f(), (rem - 1) as nat) {
                        Some((tail, b2)) => {
                            assert(abs_acc.push(a) + tail =~= abs_acc + (seq![a] + tail));
                        },
                        None => {},
                    }
                }
                acc.push(t);
                cur = p2;
                k += 1;
            },
        }
    }
    proof {
        assert(s_dec_items(b@.skip(cur as int), name_entry_dec_f(), 0) == Some((
            Seq::<(usize, Seq<char>)>::empty(),
            b@.skip(cur as int),
        )));
        assert(acc@.map_values(name_entry_abs_f()) + Seq::<(usize, Seq<char>)>::empty()
            =~= acc@.map_values(name_entry_abs_f()));
        assert(full == Some((acc@.map_values(name_entry_abs_f()), b@.skip(cur as int))));
        assert(s_dec_list(b@.skip(pos as int), name_entry_dec_f()) == full);
    }
    Some((acc, cur))
}


fn enc_dtype_entries(out: &mut Vec<u8>, v: &Vec<(usize, DataType)>)
    ensures
        final(out)@ == old(out)@ + s_enc_list(v@, dtype_entry_enc_f()),
        v@.len() <= u64::MAX,
{
    enc_u64(out, v.len() as u64);
    let ghost base = out@;
    let mut k: usize = 0;
    while k < v.len()
        invariant
            v@.len() <= u64::MAX,
            k <= v@.len(),
            out@ == base + s_enc_items(v@.take(k as int), dtype_entry_enc_f()),

        decreases v@.len() - k,
    {
        enc_dtype_entry(out, &v[k]);
        proof {
            assert(v@.take(k as int).push(v@[k as int]) =~= v@.take(k + 1));
            lemma_enc_items_snoc(v@.take(k as int), v@[k as int], dtype_entry_enc_f());
            assert(out@ =~= base + s_enc_items(v@.take(k + 1), dtype_entry_enc_f()));
        }
        k += 1;
    }
    proof {
        assert(v@.take(v@.len() as int) =~= v@);
        assert(out@ =~= old(out)@ + s_enc_list(v@, dtype_entry_enc_f()));
    }
}


#[verifier::loop_isolation(false)]
fn dec_dtype_entries(b: &Vec<u8>, pos: usize) -> (r: Option<(Vec<(usize, DataType)>, usize)>)
    requires
        pos <= b@.len(),
    ensures
        match s_dec_list(b@.skip(pos as int), dtype_entry_dec_f()) {
            Some((a, rest)) => {
                &&& r matches Some((v, p2)) && v@.map_values(dtype_entry_abs_f()) == a && pos <= p2
                    <= b@.len() && b@.skip(p2 as int) == rest
            },
            None => r is None,
        },
{
    let (cnt, p1) = match dec_u64(b, pos) {
        None => {
            return None;
        },
        Some(v) => v,
    };
    let ghost full = s_dec_items(b@.skip(p1 as int), dtype_entry_dec_f(), cnt as nat);
    let mut acc: Vec<(usize, DataType)> = Vec::new();
    let mut cur = p1;
    let mut k: u64 = 0;
    while k < cnt
        invariant
            k <= cnt,
            pos <= cur <= b@.len(),
            full == (match s_dec_items(b@.skip(cur as int), dtype_entry_dec_f(), (cnt - k) as nat) {
                Some((t, rest)) => Some((acc@.map_values(dtype_entry_abs_f()) + t, rest)),
                None => None::<(Seq<(usize, DataType)>, Seq<u8>)>,
            }),
        decreases cnt - k,
    {
        let ghost rem = (cnt - k) as nat;
        let ghost here = b@.skip(cur as int);
        proof {
            assert(dtype_entry_dec_f()(here) == s_dec_dtype_entry(here));
        }
        match dec_dtype_entry(b, cur) {
            None => {
                proof {
                    assert(s_dec_items(here, dtype_entry_dec_f(), rem) is None);
                }
                return None;
            },
            Some((t, p2)) => {
                let ghost a = t;
                proof {
                    let abs_acc = acc@.map_values(dtype_entry_abs_f());
                    assert(s_dec_dtype_entry(here) == Some((a, b@.skip(p2 as int))));
                    assert(s_dec_items(here, dtype_entry_dec_f(), rem) == (
                    match s_dec_items(b@.skip(p2 as int), dtype_entry_dec_f(), (rem - 1) as nat) {
                        Some((tail, b2)) => Some((seq![a] + tail, b2)),
                        None => None::<(Seq<(usize, DataType)>, Seq<u8>)>,
                    }));
                    assert((acc@.push(t)).map_values(dtype_entry_abs_f()) =~= abs_acc.push(
                        dtype_entry_abs_f()(t),
                    ));
                    assert(dtype_entry_abs_f()(t) == a);
                    match s_dec_items(b@.skip(p2 as int), dtype_entry_dec_f(), (rem - 1) as nat) {
                        Some((tail, b2)) => {
                            assert(abs_acc.push(a) + tail =~= abs_acc + (seq![a] + tail));
                        },
                        None => {},
                    }
                }
                acc.push(t);
                cur = p2;
                k += 1;
            },
        }
    }
    proof {
        assert(s_dec_items(b@.skip(cur as int), dtype_entry_dec_f(), 0) == Some((
            Seq::<(usize, DataType)>::empty(),
            b@.skip(cur as int),
        )));
        assert(acc@.map_values(dtype_entry_abs_f()) + Seq::<(usize, DataType)>::empty()
            =~= acc@.map_values(dtype_entry_abs_f()));
        assert(full == Some((acc@.map_values(dtype_entry_abs_f()), b@.skip(cur as int))));
        assert(s_dec_list(b@.skip(pos as int), dtype_entry_dec_f()) == full);
    }
    Some((acc, cur))
}


// --- the component record ---

/// The mathematical shape of a `Components` record.
pub ghost struct ComponentsAbs {
    pub components: Seq<(Seq<char>, usize)>,
    pub component_names: Seq<(usize, Seq<char>)>,
    pub component_data_types: Seq<(usize, DataType)>,
    pub next_component_id: usize,
}

pub open spec fn components_abs(x: Components) -> ComponentsAbs {
    ComponentsAbs {
        components: x.components@.map_values(comp_entry_abs_f()),
        component_names: x.component_names@.map_values(name_entry_abs_f()),
        component_data_types: x.component_data_types@.map_values(dtype_entry_abs_f()),
        next_component_id: x.next_component_id,
    }
}

/// Every list fits its length prefix and every string its own.
pub open spec fn components_encodable(x: Components) -> bool {
    &&& x.components@.len() <= u64::MAX
    &&& x.component_names@.len() <= u64::MAX
    &&& x.component_data_types@.len() <= u64::MAX
    &&& forall|i: int|
        0 <= i < x.components@.len() ==> encodable_str((#[trigger] x.components@[i]).0@)
    &&& forall|i: int|
        0 <= i < x.component_names@.len() ==> encodable_str((#[trigger] x.component_names@[i]).1@)
}

pub open spec fn s_enc_components(x: Components) -> Seq<u8> {
    s_enc_list(x.components@, comp_entry_enc_f()) + s_enc_list(
        x.component_names@,
        name_entry_enc_f(),
    ) + s_enc_list(x.component_data_types@, dtype_entry_enc_f()) + s_enc_usize(
        x.next_component_id,
    )
}

pub open spec fn s_dec_components(b: Seq<u8>) -> Option<(ComponentsAbs, Seq<u8>)> {
    match s_dec_list(b, comp_entry_dec_f()) {
        Some((cs, b1)) => match s_dec_list(b1, name_entry_dec_f()) {
            Some((ns, b2)) => match s_dec_list(b2, dtype_entry_dec_f()) {
                Some((ds, b3)) => match s_dec_usize(b3) {
                    Some((n, rest)) => Some(
                        (
                            ComponentsAbs {
                                components: cs,
                                component_names: ns,
                                component_data_types: ds,
                                next_component_id: n,
                            },
                            rest,
                        ),
                    ),
                    None => None,
                },
                None => None,
            },
            None => None,
        },
        None => None,
    }
}

/// The round trip for the component record: decoding an encoded record
/// gives back the record it was encoded from, counter included.
pub proof fn lemma_components_round_trip(x: Components, rest: Seq<u8>)
    requires
        components_encodable(x),
    ensures
        s_dec_components(s_enc_components(x) + rest) == Some((components_abs(x), rest)),
{
    let t3 = s_enc_usize(x.next_component_id) + rest;
    let t2 = s_enc_list(x.component_data_types@, dtype_entry_enc_f()) + t3;
    let t1 = s_enc_list(x.component_names@, name_entry_enc_f()) + t2;
    assert(s_enc_components(x) + rest =~= s_enc_list(x.components@, comp_entry_enc_f()) + t1);
    assert forall|e: (String, usize), r2: Seq<u8>| x.components@.contains(e) implies
        #[trigger] comp_entry_dec_f()(comp_entry_enc_f()(e) + r2) == Some((
        comp_entry_abs_f()(e),
        r2,
    )) by {
        let i = choose|i: int| 0 <= i < x.components@.len() && x.components@[i] == e;
        assert(encodable_str(e.0@));
        lemma_rt_comp_entry(e, r2);
    }
    lemma_list_rt(x.components@, comp_entry_enc_f(), comp_entry_dec_f(), comp_entry_abs_f(), t1);
    assert forall|e: (usize, String), r2: Seq<u8>| x.component_names@.contains(e) implies
        #[trigger] name_entry_dec_f()(name_entry_enc_f()(e) + r2) == Some((
        name_entry_abs_f()(e),
        r2,
    )) by {
        let i = choose|i: int| 0 <= i < x.component_names@.len() && x.component_names@[i] == e;
        assert(encodable_str(e.1@));
        lemma_rt_name_entry(e, r2);
    }
    lemma_list_rt(
        x.component_names@,
        name_entry_enc_f(),
        name_entry_dec_f(),
        name_entry_abs_f(),
        t2,
    );
    assert forall|e: (usize, DataType), r2: Seq<u8>| x.component_data_types@.contains(e) implies
        #[trigger] dtype_entry_dec_f()(dtype_entry_enc_f()(e) + r2) == Some((
        dtype_entry_abs_f()(e),
        r2,
    )) by {
        lemma_rt_dtype_entry(e, r2);
    }
    lemma_list_rt(
        x.component_data_types@,
        dtype_entry_enc_f(),
        dtype_entry_dec_f(),
        dtype_entry_abs_f(),
        t3,
    );
    lemma_rt_usize(x.next_component_id, rest);
}

impl Components {
    /// Encodes the record into the persisted byte form.
    pub fn save(&self) -> (out: Vec<u8>)
        ensures
            out@ == s_enc_components(*self),
            components_encodable(*self),
    {
        let mut out: Vec<u8> = Vec::new();
        enc_comp_entries(&mut out, &self.components);
        enc_name_entries(&mut out, &self.component_names);
        enc_dtype_entries(&mut out, &self.component_data_types);
        enc_usize(&mut out, self.next_component_id);
        proof {
            assert(out@ =~= s_enc_components(*self));
        }
        out
    }

    /// Decodes a persisted record; anything the encoder cannot have
    /// produced, trailing bytes included, is a load failure.
    pub fn load(bytes: &Vec<u8>) -> (r: DBResult<Components>)
        ensures
            match s_dec_components(bytes@) {
                Some((a, rest)) => if rest.len() == 0 {
                    r matches Ok(x) && components_abs(x) == a
                } else {
                    r matches Err(e) && e matches DatabaseError::FailedToLoadFile(_)
                },
                None => r matches Err(e) && e matches DatabaseError::FailedToLoadFile(_),
            },
    {
        proof {
            assert(bytes@.skip(0) =~= bytes@);
        }
        let (cs, p1) = match dec_comp_entries(bytes, 0) {
            None => {
                return Err(
                    DatabaseError::FailedToLoadFile(String::from_str("Malformed component record")),
                );
            },
            Some(v) => v,
        };
        let (ns, p2) = match dec_name_entries(bytes, p1) {
            None => {
                return Err(
                    DatabaseError::FailedToLoadFile(String::from_str("Malformed component record")),
                );
            },
            Some(v) => v,
        };
        let (ds, p3) = match dec_dtype_entries(bytes, p2) {
            None => {
                return Err(
                    DatabaseError::FailedToLoadFile(String::from_str("Malformed component record")),
                );
            },
            Some(v) => v,
        };
        let (next, p4) = match dec_usize(bytes, p3) {
            None => {
                return Err(
                    DatabaseError::FailedToLoadFile(String::from_str("Malformed component record")),
                );
            },
            Some(v) => v,
        };
        if p4 != bytes.len() {
            return Err(
                DatabaseError::FailedToLoadFile(
                    String::from_str("Trailing bytes in component record"),
                ),
            );
        }
        Ok(
            Components {
                components: cs,
                component_names: ns,
                component_data_types: ds,
                next_component_id: next,
            },
        )
    }
}


// --- resource record entries ---

pub open spec fn s_enc_res_entry(t: (String, (usize, ResourceIO))) -> Seq<u8> {
    s_enc_str(t.0@) + s_enc_usize(t.1.0) + s_enc_rio(t.1.1)
}

pub open spec fn s_dec_res_entry(b: Seq<u8>) -> Option<(
    (Seq<char>, (usize, ResourceIO)),
    Seq<u8>,
)> {
    match s_dec_str(b) {
        Some((s, b1)) => match s_dec_usize(b1) {
            Some((k, b2)) => match s_dec_rio(b2) {
                Some((io, rest)) => Some(((s, (k, io)), rest)),
                None => None,
            },
            None => None,
        },
        None => None,
    }
}

pub open spec fn res_entry_enc_f() -> spec_fn((String, (usize, ResourceIO))) -> Seq<u8> {
    |t: (String, (usize, ResourceIO))| s_enc_res_entry(t)
}

pub open spec fn res_entry_dec_f() -> spec_fn(Seq<u8>) -> Option<(
    (Seq<char>, (usize, ResourceIO)),
    Seq<u8>,
)> {
    |b: Seq<u8>| s_dec_res_entry(b)
}

pub open spec fn res_entry_abs_f() -> spec_fn((String, (usize, ResourceIO))) -> (
    Seq<char>,
    (usize, ResourceIO),
) {
    |t: (String, (usize, ResourceIO))| (t.0@, t.1)
}

pub proof fn lemma_rt_res_entry(t: (String, (usize, ResourceIO)), rest: Seq<u8>)
    requires
        encodable_str(t.0@),
    ensures
        s_dec_res_entry(s_enc_res_entry(t) + rest) == Some(((t.0@, t.1), rest)),
{
    let t2 = s_enc_rio(t.1.1) + rest;
    let t1 = s_enc_usize(t.1.0) + t2;
    assert(s_enc_res_entry(t) + rest =~= s_enc_str(t.0@) + t1);
    lemma_rt_str(t.0@, t1);
    lemma_rt_usize(t.1.0, t2);
    lemma_rt_rio(t.1.1, rest);
}

fn enc_res_entry(out: &mut Vec<u8>, t: &(String, (usize, ResourceIO)))
    ensures
        final(out)@ == old(out)@ + s_enc_res_entry(*t),
        encodable_str(t.0@),
{
    enc_str(out, t.0.as_str());
    enc_usize(out, t.1.0);
    enc_rio(out, t.1.1);
    proof {
        assert(out@ =~= old(out)@ + s_enc_res_entry(*t));
    }
}

fn dec_res_entry(b: &Vec<u8>, pos: usize) -> (r: Option<((String, (usize, ResourceIO)), usize)>)
    requires
        pos <= b@.len(),
    ensures
        match s_dec_res_entry(b@.skip(pos as int)) {
            Some((a, rest)) => {
                &&& r matches Some((t, p2)) && t.0@ == a.0 && t.1 == a.1 && pos <= p2 <= b@.len()
                    && b@.skip(p2 as int) == rest
            },
            None => r is None,
        },
{
    let (s, p1) = match dec_str(b, pos) {
        None => {
            return None;
        },
        Some(v) => v,
    };
    let (k, p2) = match dec_usize(b, p1) {
        None => {
            return None;
        },
        Some(v) => v,
    };
    match dec_rio(b, p2) {
        None => None,
        Some((io, p3)) => Some(((s, (k, io)), p3)),
    }
}

pub open spec fn s_enc_pair_entry(t: (usize, usize)) -> Seq<u8> {
    s_enc_usize(t.0) + s_enc_usize(t.1)
}

pub open spec fn s_dec_pair_entry(b: Seq<u8>) -> Option<((usize, usize), Seq<u8>)> {
    match s_dec_usize(b) {
        Some((k, b1)) => match s_dec_usize(b1) {
            Some((v, rest)) => Some(((k, v), rest)),
            None => None,
        },
        None => None,
    }
}

pub open spec fn pair_entry_enc_f() -> spec_fn((usize, usize)) -> Seq<u8> {
    |t: (usize, usize)| s_enc_pair_entry(t)
}

pub open spec fn pair_entry_dec_f() -> spec_fn(Seq<u8>) -> Option<((usize, usize), Seq<u8>)> {
    |b: Seq<u8>| s_dec_pair_entry(b)
}

pub open spec fn pair_entry_abs_f() -> spec_fn((usize, usize)) -> (usize, usize) {
    |t: (usize, usize)| t
}

pub proof fn lemma_rt_pair_entry(t: (usize, usize), rest: Seq<u8>)
    ensures
        s_dec_pair_entry(s_enc_pair_entry(t) + rest) == Some((t, rest)),
{
    assert(s_enc_pair_entry(t) + rest =~= s_enc_usize(t.0) + (s_enc_usize(t.1) + rest));
    lemma_rt_usize(t.0, s_enc_usize(t.1) + rest);
    lemma_rt_usize(t.1, rest);
}

fn enc_pair_entry(out: &mut Vec<u8>, t: &(usize, usize))
    ensures
        final(out)@ == old(out)@ + s_enc_pair_entry(*t),
{
    enc_usize(out, t.0);
    enc_usize(out, t.1);
    proof {
        assert(out@ =~= old(out)@ + s_enc_pair_entry(*t));
    }
}

fn dec_pair_entry(b: &Vec<u8>, pos: usize) -> (r: Option<((usize, usize), usize)>)
    requires
        pos <= b@.len(),
    ensures
        match s_dec_pair_entry(b@.skip(pos as int)) {
            Some((a, rest)) => {
                &&& r matches Some((t, p2)) && t == a && pos <= p2 <= b@.len() && b@.skip(p2 as int)
                    == rest
            },
            None => r is None,
        },
{
    let (k, p1) = match dec_usize(b, pos) {
        None => {
            return None;
        },
        Some(v) => v,
    };
    match dec_usize(b, p1) {
        None => None,
        Some((v, p2)) => Some(((k, v), p2)),
    }
}

pub open spec fn s_enc_model_entry(t: (usize, DataIO)) -> Seq<u8> {
    s_enc_usize(t.0) + s_enc_dio(t.1)
}

pub open spec fn s_dec_model_entry(b: Seq<u8>) -> Option<((usize, DataIO), Seq<u8>)> {
    match s_dec_usize(b) {
        Some((k, b1)) => match s_dec_dio(b1) {
            Some((io, rest)) => Some(((k, io), rest)),
            None => None,
        },
        None => None,
    }
}

pub open spec fn model_entry_enc_f() -> spec_fn((usize, DataIO)) -> Seq<u8> {
    |t: (usize, DataIO)| s_enc_model_entry(t)
}

pub open spec fn model_entry_dec_f() -> spec_fn(Seq<u8>) -> Option<((usize, DataIO), Seq<u8>)> {
    |b: Seq<u8>| s_dec_model_entry(b)
}

pub open spec fn model_entry_abs_f() -> spec_fn((usize, DataIO)) -> (usize, DataIO) {
    |t: (usize, DataIO)| t
}

pub proof fn lemma_rt_model_entry(t: (usize, DataIO), rest: Seq<u8>)
    ensures
        s_dec_model_entry(s_enc_model_entry(t) + rest) == Some((t, rest)),
{
    assert(s_enc_model_entry(t) + rest =~= s_enc_usize(t.0) + (s_enc_dio(t.1) + rest));
    lemma_rt_usize(t.0, s_enc_dio(t.1) + rest);
    lemma_rt_dio(t.1, rest);
}

fn enc_model_entry(out: &mut Vec<u8>, t: &(usize, DataIO))
    ensures
        final(out)@ == old(out)@ + s_enc_model_entry(*t),
{
    enc_usize(out, t.0);
    enc_dio(out, t.1);
    proof {
        assert(out@ =~= old(out)@ + s_enc_model_entry(*t));
    }
}

fn dec_model_entry(b: &Vec<u8>, pos: usize) -> (r: Option<((usize, DataIO), usize)>)
    requires
        pos <= b@.len(),
    ensures
        match s_dec_model_entry(b@.skip(pos as int)) {
            Some((a, rest)) => {
                &&& r matches Some((t, p2)) && t == a && pos <= p2 <= b@.len() && b@.skip(p2 as int)
                    == rest
            },
            None => r is None,
        },
{
    let (k, p1) = match dec_usize(b, pos) {
        None => {
            return None;
        },
        Some(v) => v,
    };
    match dec_dio(b, p1) {
        None => None,
        Some((io, p2)) => Some(((k, io), p2)),
    }
}


fn enc_res_entries(out: &mut Vec<u8>, v: &Vec<(String, (usize, ResourceIO))>)
    ensures
        final(out)@ == old(out)@ + s_enc_list(v@, res_entry_enc_f()),
        v@.len() <= u64::MAX,
        forall|i: int| 0 <= i < v@.len() ==> encodable_str((#[trigger] v@[i]).0@),
{
    enc_u64(out, v.len() as u64);
    let ghost base = out@;
    let mut k: usize = 0;
    while k < v.len()
        invariant
            v@.len() <= u64::MAX,
            k <= v@.len(),
            out@ == base + s_enc_items(v@.take(k as int), res_entry_enc_f()),
            forall|i: int| 0 <= i < k ==> encodable_str((#[trigger] v@[i]).0@),
        decreases v@.len() - k,
    {
        enc_res_entry(out, &v[k]);
        proof {
            assert(v@.take(k as int).push(v@[k as int]) =~= v@.take(k + 1));
            lemma_enc_items_snoc(v@.take(k as int), v@[k as int], res_entry_enc_f());
            assert(out@ =~= base + s_enc_items(v@.take(k + 1), res_entry_enc_f()));
        }
        k += 1;
    }
    proof {
        assert(v@.take(v@.len() as int) =~= v@);
        assert(out@ =~= old(out)@ + s_enc_list(v@, res_entry_enc_f()));
    }
}


#[verifier::loop_isolation(false)]
fn dec_res_entries(b: &Vec<u8>, pos: usize) -> (r: Option<(Vec<(String, (usize, ResourceIO))>, usize)>)
    requires
        pos <= b@.len(),
    ensures
        match s_dec_list(b@.skip(pos as int), res_entry_dec_f()) {
            Some((a, rest)) => {
                &&& r matches Some((v, p2)) && v@.map_values(res_entry_abs_f()) == a && pos <= p2
                    <= b@.len() && b@.skip(p2 as int) == rest
            },
            None => r is None,
        },
{
    let (cnt, p1) = match dec_u64(b, pos) {
        None => {
            return None;
        },
        Some(v) => v,
    };
    let ghost full = s_dec_items(b@.skip(p1 as int), res_entry_dec_f(), cnt as nat);
    let mut acc: Vec<(String, (usize, ResourceIO))> = Vec::new();
    let mut cur = p1;
    let mut k: u64 = 0;
    while k < cnt
        invariant
            k <= cnt,
            pos <= cur <= b@.len(),
            full == (match s_dec_items(b@.skip(cur as int), res_entry_dec_f(), (cnt - k) as nat) {
                Some((t, rest)) => Some((acc@.map_values(res_entry_abs_f()) + t, rest)),
                None => None::<(Seq<(Seq<char>, (usize, ResourceIO))>, Seq<u8>)>,
            }),
        decreases cnt - k,
    {
        let ghost rem = (cnt - k) as nat;
        let ghost here = b@.skip(cur as int);
        proof {
            assert(res_entry_dec_f()(here) == s_dec_res_entry(here));
        }
        match dec_res_entry(b, cur) {
            None => {
                proof {
                    assert(s_dec_items(here, res_entry_dec_f(), rem) is None);
                }
                return None;
            },
            Some((t, p2)) => {
                let ghost a = (t.0@, t.1);
                proof {
                    let abs_acc = acc@.map_values(res_entry_abs_f());
                    assert(s_dec_res_entry(here) == Some((a, b@.skip(p2 as int))));
                    assert(s_dec_items(here, res_entry_dec_f(), rem) == (
                    match s_dec_items(b@.skip(p2 as int), res_entry_dec_f(), (rem - 1) as nat) {
                        Some((tail, b2)) => Some((seq![a] + tail, b2)),
                        None => None::<(Seq<(Seq<char>, (usize, ResourceIO))>, Seq<u8>)>,
                    }));
                    assert((acc@.push(t)).map_values(res_entry_abs_f()) =~= abs_acc.push(
                        res_entry_abs_f()(t),
                    ));
                    assert(res_entry_abs_f()(t) == a);
                    match s_dec_items(b@.skip(p2 as int), res_entry_dec_f(), (rem - 1) as nat) {
                        Some((tail, b2)) => {
                            assert(abs_acc.push(a) + tail =~= abs_acc + (seq![a] + tail));
                        },
                        None => {},
                    }
                }
                acc.push(t);
                cur = p2;
                k += 1;
            },
        }
    }
    proof {
        assert(s_dec_items(b@.skip(cur as int), res_entry_dec_f(), 0) == Some((
            Seq::<(Seq<char>, (usize, ResourceIO))>::empty(),
            b@.skip(cur as int),
        )));
        assert(acc@.map_values(res_entry_abs_f()) + Seq::<(Seq<char>, (usize, ResourceIO))>::empty()
            =~= acc@.map_values(res_entry_abs_f()));
        assert(full == Some((acc@.map_values(res_entry_abs_f()), b@.skip(cur as int))));
        assert(s_dec_list(b@.skip(pos as int), res_entry_dec_f()) == full);
    }
    Some((acc, cur))
}


fn enc_pair_entries(out: &mut Vec<u8>, v: &Vec<(usize, usize)>)
    ensures
        final(out)@ == old(out)@ + s_enc_list(v@, pair_entry_enc_f()),
        v@.len() <= u64::MAX,
{
    enc_u64(out, v.len() as u64);
    let ghost base = out@;
    let mut k: usize = 0;
    while k < v.len()
        invariant
            v@.len() <= u64::MAX,
            k <= v@.len(),
            out@ == base + s_enc_items(v@.take(k as int), pair_entry_enc_f()),

        decreases v@.len() - k,
    {
        enc_pair_entry(out, &v[k]);
        proof {
            assert(v@.take(k as int).push(v@[k as int]) =~= v@.take(k + 1));
            lemma_enc_items_snoc(v@.take(k as int), v@[k as int], pair_entry_enc_f());
            assert(out@ =~= base + s_enc_items(v@.take(k + 1), pair_entry_enc_f()));
        }
        k += 1;
    }
    proof {
        assert(v@.take(v@.len() as int) =~= v@);
        assert(out@ =~= old(out)@ + s_enc_list(v@, pair_entry_enc_f()));
    }
}


#[verifier::loop_isolation(false)]
fn dec_pair_entries(b: &Vec<u8>, pos: usize) -> (r: Option<(Vec<(usize, usize)>, usize)>)
    requires
        pos <= b@.len(),
    ensures
        match s_dec_list(b@.skip(pos as int), pair_entry_dec_f()) {
            Some((a, rest)) => {
                &&& r matches Some((v, p2)) && v@.map_values(pair_entry_abs_f()) == a && pos <= p2
                    <= b@.len() && b@.skip(p2 as int) == rest
            },
            None => r is None,
        },
{
    let (cnt, p1) = match dec_u64(b, pos) {
        None => {
            return None;
        },
        Some(v) => v,
    };
    let ghost full = s_dec_items(b@.skip(p1 as int), pair_entry_dec_f(), cnt as nat);
    let mut acc: Vec<(usize, usize)> = Vec::new();
    let mut cur = p1;
    let mut k: u64 = 0;
    while k < cnt
        invariant
            k <= cnt,
            pos <= cur <= b@.len(),
            full == (match s_dec_items(b@.skip(cur as int), pair_entry_dec_f(), (cnt - k) as nat) {
                Some((t, rest)) => Some((acc@.map_values(pair_entry_abs_f()) + t, rest)),
                None => None::<(Seq<(usize, usize)>, Seq<u8>)>,
            }),
        decreases cnt - k,
    {
        let ghost rem = (cnt - k) as nat;
        let ghost here = b@.skip(cur as int);
        proof {
            assert(pair_entry_dec_f()(here) == s_dec_pair_entry(here));
        }
        match dec_pair_entry(b, cur) {
            None => {
                proof {
                    assert(s_dec_items(here, pair_entry_dec_f(), rem) is None);
                }
                return None;
            },
            Some((t, p2)) => {
                let ghost a = t;
                proof {
                    let abs_acc = acc@.map_values(pair_entry_abs_f());
                    assert(s_dec_pair_entry(here) == Some((a, b@.skip(p2 as int))));
                    assert(s_dec_items(here, pair_entry_dec_f(), rem) == (
                    match s_dec_items(b@.skip(p2 as int), pair_entry_dec_f(), (rem - 1) as nat) {
                        Some((tail, b2)) => Some((seq![a] + tail, b2)),
                        None => None::<(Seq<(usize, usize)>, Seq<u8>)>,
                    }));
                    assert((acc@.push(t)).map_values(pair_entry_abs_f()) =~= abs_acc.push(
                        pair_entry_abs_f()(t),
                    ));
                    assert(pair_entry_abs_f()(t) == a);
                    match s_dec_items(b@.skip(p2 as int), pair_entry_dec_f(), (rem - 1) as nat) {
                        Some((tail, b2)) => {
                            assert(abs_acc.push(a) + tail =~= abs_acc + (seq![a] + tail));
                        },
                        None => {},
                    }
                }
                acc.push(t);
                cur = p2;
                k += 1;
            },
        }
    }
    proof {
        assert(s_dec_items(b@.skip(cur as int), pair_entry_dec_f(), 0) == Some((
            Seq::<(usize, usize)>::empty(),
            b@.skip(cur as int),
        )));
        assert(acc@.map_values(pair_entry_abs_f()) + Seq::<(usize, usize)>::empty()
            =~= acc@.map_values(pair_entry_abs_f()));
        assert(full == Some((acc@.map_values(pair_entry_abs_f()), b@.skip(cur as int))));
        assert(s_dec_list(b@.skip(pos as int), pair_entry_dec_f()) == full);
    }
    Some((acc, cur))
}


fn enc_model_entries(out: &mut Vec<u8>, v: &Vec<(usize, DataIO)>)
    ensures
        final(out)@ == old(out)@ + s_enc_list(v@, model_entry_enc_f()),
        v@.len() <= u64::MAX,
{
    enc_u64(out, v.len() as u64);
    let ghost base = out@;
    let mut k: usize = 0;
    while k < v.len()
        invariant
            v@.len() <= u64::MAX,
            k <= v@.len(),
            out@ == base + s_enc_items(v@.take(k as int), model_entry_enc_f()),

        decreases v@.len() - k,
    {
        enc_model_entry(out, &v[k]);
        proof {
            assert(v@.take(k as int).push(v@[k as int]) =~= v@.take(k + 1));
            lemma_enc_items_snoc(v@.take(k as int), v@[k as int], model_entry_enc_f());
            assert(out@ =~= base + s_enc_items(v@.take(k + 1), model_entry_enc_f()));
        }
        k += 1;
    }
    proof {
        assert(v@.take(v@.len() as int) =~= v@);
        assert(out@ =~= old(out)@ + s_enc_list(v@, model_entry_enc_f()));
    }
}


#[verifier::loop_isolation(false)]
fn dec_model_entries(b: &Vec<u8>, pos: usize) -> (r: Option<(Vec<(usize, DataIO)>, usize)>)
    requires
        pos <= b@.len(),
    ensures
        match s_dec_list(b@.skip(pos as int), model_entry_dec_f()) {
            Some((a, rest)) => {
                &&& r matches Some((v, p2)) && v@.map_values(model_entry_abs_f()) == a && pos <= p2
                    <= b@.len() && b@.skip(p2 as int) == rest
            },
            None => r is None,
        },
{
    let (cnt, p1) = match dec_u64(b, pos) {
        None => {
            return None;
        },
        Some(v) => v,
    };
    let ghost full = s_dec_items(b@.skip(p1 as int), model_entry_dec_f(), cnt as nat);
    let mut acc: Vec<(usize, DataIO)> = Vec::new();
    let mut cur = p1;
    let mut k: u64 = 0;
    while k < cnt
        invariant
            k <= cnt,
            pos <= cur <= b@.len(),
            full == (match s_dec_items(b@.skip(cur as int), model_entry_dec_f(), (cnt - k) as nat) {
                Some((t, rest)) => Some((acc@.map_values(model_entry_abs_f()) + t, rest)),
                None => None::<(Seq<(usize, DataIO)>, Seq<u8>)>,
            }),
        decreases cnt - k,
    {
        let ghost rem = (cnt - k) as nat;
        let ghost here = b@.skip(cur as int);
        proof {
            assert(model_entry_dec_f()(here) == s_dec_model_entry(here));
        }
        match dec_model_entry(b, cur) {
            None => {
                proof {
                    assert(s_dec_items(here, model_entry_dec_f(), rem) is None);
                }
                return None;
            },
            Some((t, p2)) => {
                let ghost a = t;
                proof {
                    let abs_acc = acc@.map_values(model_entry_abs_f());
                    assert(s_dec_model_entry(here) == Some((a, b@.skip(p2 as int))));
                    assert(s_dec_items(here, model_entry_dec_f(), rem) == (
                    match s_dec_items(b@.skip(p2 as int), model_entry_dec_f(), (rem - 1) as nat) {
                        Some((tail, b2)) => Some((seq![a] + tail, b2)),
                        None => None::<(Seq<(usize, DataIO)>, Seq<u8>)>,
                    }));
                    assert((acc@.push(t)).map_values(model_entry_abs_f()) =~= abs_acc.push(
                        model_entry_abs_f()(t),
                    ));
                    assert(model_entry_abs_f()(t) == a);
                    match s_dec_items(b@.skip(p2 as int), model_entry_dec_f(), (rem - 1) as nat) {
                        Some((tail, b2)) => {
                            assert(abs_acc.push(a) + tail =~= abs_acc + (seq![a] + tail));
                        },
                        None => {},
                    }
                }
                acc.push(t);
                cur = p2;
                k += 1;
            },
        }
    }
    proof {
        assert(s_dec_items(b@.skip(cur as int), model_entry_dec_f(), 0) == Some((
            Seq::<(usize, DataIO)>::empty(),
            b@.skip(cur as int),
        )));
        assert(acc@.map_values(model_entry_abs_f()) + Seq::<(usize, DataIO)>::empty()
            =~= acc@.map_values(model_entry_abs_f()));
        assert(full == Some((acc@.map_values(model_entry_abs_f()), b@.skip(cur as int))));
        assert(s_dec_list(b@.skip(pos as int), model_entry_dec_f()) == full);
    }
    Some((acc, cur))
}

// --- one model-table entry: resource id, then its binding list ---

pub open spec fn s_enc_models_entry(t: (usize, Vec<(usize, DataIO)>)) -> Seq<u8> {
    s_enc_usize(t.0) + s_enc_list(t.1@, model_entry_enc_f())
}

pub open spec fn s_dec_models_entry(b: Seq<u8>) -> Option<(
    (usize, Seq<(usize, DataIO)>),
    Seq<u8>,
)> {
    match s_dec_usize(b) {
        Some((k, b1)) => match s_dec_list(b1, model_entry_dec_f()) {
            Some((l, rest)) => Some(((k, l), rest)),
            None => None,
        },
        None => None,
    }
}

pub open spec fn models_entry_enc_f() -> spec_fn((usize, Vec<(usize, DataIO)>)) -> Seq<u8> {
    |t: (usize, Vec<(usize, DataIO)>)| s_enc_models_entry(t)
}

pub open spec fn models_entry_dec_f() -> spec_fn(Seq<u8>) -> Option<(
    (usize, Seq<(usize, DataIO)>),
    Seq<u8>,
)> {
    |b: Seq<u8>| s_dec_models_entry(b)
}

pub open spec fn models_entry_abs_f() -> spec_fn((usize, Vec<(usize, DataIO)>)) -> (
    usize,
    Seq<(usize, DataIO)>,
) {
    |t: (usize, Vec<(usize, DataIO)>)| (t.0, t.1@)
}

pub proof fn lemma_rt_models_entry(t: (usize, Vec<(usize, DataIO)>), rest: Seq<u8>)
    requires
        t.1@.len() <= u64::MAX,
    ensures
        s_dec_models_entry(s_enc_models_entry(t) + rest) == Some(((t.0, t.1@), rest)),
{
    let tail = s_enc_list(t.1@, model_entry_enc_f()) + rest;
    assert(s_enc_models_entry(t) + rest =~= s_enc_usize(t.0) + tail);
    lemma_rt_usize(t.0, tail);
    assert forall|e: (usize, DataIO), r2: Seq<u8>| t.1@.contains(e) implies
        #[trigger] model_entry_dec_f()(model_entry_enc_f()(e) + r2) == Some((
        model_entry_abs_f()(e),
        r2,
    )) by {
        lemma_rt_model_entry(e, r2);
    }
    lemma_list_rt(t.1@, model_entry_enc_f(), model_entry_dec_f(), model_entry_abs_f(), rest);
    assert(t.1@.map_values(model_entry_abs_f()) =~= t.1@);
}

fn enc_models_entry(out: &mut Vec<u8>, t: &(usize, Vec<(usize, DataIO)>))
    ensures
        final(out)@ == old(out)@ + s_enc_models_entry(*t),
        t.1@.len() <= u64::MAX,
{
    enc_usize(out, t.0);
    enc_model_entries(out, &t.1);
    proof {
        assert(out@ =~= old(out)@ + s_enc_models_entry(*t));
    }
}

fn dec_models_entry(b: &Vec<u8>, pos: usize) -> (r: Option<((usize, Vec<(usize, DataIO)>), usize)>)
    requires
        pos <= b@.len(),
    ensures
        match s_dec_models_entry(b@.skip(pos as int)) {
            Some((a, rest)) => {
                &&& r matches Some((t, p2)) && t.0 == a.0 && t.1@.map_values(model_entry_abs_f())
                    == a.1 && pos <= p2 <= b@.len() && b@.skip(p2 as int) == rest
            },
            None => r is None,
        },
{
    let (key, p1) = match dec_usize(b, pos) {
        None => {
            return None;
        },
        Some(v) => v,
    };
    match dec_model_entries(b, p1) {
        None => None,
        Some((l, p2)) => Some(((key, l), p2)),
    }
}


fn enc_models_entries(out: &mut Vec<u8>, v: &Vec<(usize, Vec<(usize, DataIO)>)>)
    ensures
        final(out)@ == old(out)@ + s_enc_list(v@, models_entry_enc_f()),
        v@.len() <= u64::MAX,
        forall|i: int| 0 <= i < v@.len() ==> (#[trigger] v@[i]).1@.len() <= u64::MAX,
{
    enc_u64(out, v.len() as u64);
    let ghost base = out@;
    let mut k: usize = 0;
    while k < v.len()
        invariant
            v@.len() <= u64::MAX,
            k <= v@.len(),
            out@ == base + s_enc_items(v@.take(k as int), models_entry_enc_f()),
            forall|i: int| 0 <= i < k ==> (#[trigger] v@[i]).1@.len() <= u64::MAX,
        decreases v@.len() - k,
    {
        enc_models_entry(out, &v[k]);
        proof {
            assert(v@.take(k as int).push(v@[k as int]) =~= v@.take(k + 1));
            lemma_enc_items_snoc(v@.take(k as int), v@[k as int], models_entry_enc_f());
            assert(out@ =~= base + s_enc_items(v@.take(k + 1), models_entry_enc_f()));
        }
        k += 1;
    }
    proof {
        assert(v@.take(v@.len() as int) =~= v@);
        assert(out@ =~= old(out)@ + s_enc_list(v@, models_entry_enc_f()));
    }
}


#[verifier::loop_isolation(false)]
fn dec_models_entries(b: &Vec<u8>, pos: usize) -> (r: Option<(Vec<(usize, Vec<(usize, DataIO)>)>, usize)>)
    requires
        pos <= b@.len(),
    ensures
        match s_dec_list(b@.skip(pos as int), models_entry_dec_f()) {
            Some((a, rest)) => {
                &&& r matches Some((v, p2)) && v@.map_values(models_entry_abs_f()) == a && pos <= p2
                    <= b@.len() && b@.skip(p2 as int) == rest
            },
            None => r is None,
        },
{
    let (cnt, p1) = match dec_u64(b, pos) {
        None => {
            return None;
        },
        Some(v) => v,
    };
    let ghost full = s_dec_items(b@.skip(p1 as int), models_entry_dec_f(), cnt as nat);
    let mut acc: Vec<(usize, Vec<(usize, DataIO)>)> = Vec::new();
    let mut cur = p1;
    let mut k: u64 = 0;
    while k < cnt
        invariant
            k <= cnt,
            pos <= cur <= b@.len(),
            full == (match s_dec_items(b@.skip(cur as int), models_entry_dec_f(), (cnt - k) as nat) {
                Some((t, rest)) => Some((acc@.map_values(models_entry_abs_f()) + t, rest)),
                None => None::<(Seq<(usize, Seq<(usize, DataIO)>)>, Seq<u8>)>,
            }),
        decreases cnt - k,
    {
        let ghost rem = (cnt - k) as nat;
        let ghost here = b@.skip(cur as int);
        proof {
            assert(models_entry_dec_f()(here) == s_dec_models_entry(here));
        }
        match dec_models_entry(b, cur) {
            None => {
                proof {
                    assert(s_dec_items(here, models_entry_dec_f(), rem) is None);
                }
                return None;
            },
            Some((t, p2)) => {
                let ghost a = (t.0, t.1@.map_values(model_entry_abs_f()));
                proof {
                    let abs_acc = acc@.map_values(models_entry_abs_f());
                    assert(s_dec_models_entry(here) == Some((a, b@.skip(p2 as int))));
                    assert(s_dec_items(here, models_entry_dec_f(), rem) == (
                    match s_dec_items(b@.skip(p2 as int), models_entry_dec_f(), (rem - 1) as nat) {
                        Some((tail, b2)) => Some((seq![a] + tail, b2)),
                        None => None::<(Seq<(usize, Seq<(usize, DataIO)>)>, Seq<u8>)>,
                    }));
                    assert((acc@.push(t)).map_values(models_entry_abs_f()) =~= abs_acc.push(
                        models_entry_abs_f()(t),
                    ));
                    assert(models_entry_abs_f()(t) == a);
                    match s_dec_items(b@.skip(p2 as int), models_entry_dec_f(), (rem - 1) as nat) {
                        Some((tail, b2)) => {
                            assert(abs_acc.push(a) + tail =~= abs_acc + (seq![a] + tail));
                        },
                        None => {},
                    }
                }
                acc.push(t);
                cur = p2;
                k += 1;
            },
        }
    }
    proof {
        assert(s_dec_items(b@.skip(cur as int), models_entry_dec_f(), 0) == Some((
            Seq::<(usize, Seq<(usize, DataIO)>)>::empty(),
            b@.skip(cur as int),
        )));
        assert(acc@.map_values(models_entry_abs_f()) + Seq::<(usize, Seq<(usize, DataIO)>)>::empty()
            =~= acc@.map_values(models_entry_abs_f()));
        assert(full == Some((acc@.map_values(models_entry_abs_f()), b@.skip(cur as int))));
        assert(s_dec_list(b@.skip(pos as int), models_entry_dec_f()) == full);
    }
    Some((acc, cur))
}


// --- the resource record ---

/// The mathematical shape of a `Resources` record.
pub ghost struct ResourcesAbs {
    pub resources: Seq<(Seq<char>, (usize, ResourceIO))>,
    pub resource_instances: Seq<(usize, usize)>,
    pub models: Seq<(usize, Seq<(usize, DataIO)>)>,
    pub next_resource_id: usize,
}

pub open spec fn resources_abs(x: Resources) -> ResourcesAbs {
    ResourcesAbs {
        resources: x.resources@.map_values(res_entry_abs_f()),
        resource_instances: x.resource_instances@.map_values(pair_entry_abs_f()),
        models: x.models@.map_values(models_entry_abs_f()),
        next_resource_id: x.next_resource_id,
    }
}

/// Every list fits its length prefix and every string its own.
pub open spec fn resources_encodable(x: Resources) -> bool {
    &&& x.resources@.len() <= u64::MAX
    &&& x.resource_instances@.len() <= u64::MAX
    &&& x.models@.len() <= u64::MAX
    &&& forall|i: int|
        0 <= i < x.resources@.len() ==> encodable_str((#[trigger] x.resources@[i]).0@)
    &&& forall|i: int| 0 <= i < x.models@.len() ==> (#[trigger] x.models@[i]).1@.len() <= u64::MAX
}

pub open spec fn s_enc_resources(x: Resources) -> Seq<u8> {
    s_enc_list(x.resources@, res_entry_enc_f()) + s_enc_list(
        x.resource_instances@,
        pair_entry_enc_f(),
    ) + s_enc_list(x.models@, models_entry_enc_f()) + s_enc_usize(x.next_resource_id)
}

pub open spec fn s_dec_resources(b: Seq<u8>) -> Option<(ResourcesAbs, Seq<u8>)> {
    match s_dec_list(b, res_entry_dec_f()) {
        Some((rs, b1)) => match s_dec_list(b1, pair_entry_dec_f()) {
            Some((ps, b2)) => match s_dec_list(b2, models_entry_dec_f()) {
                Some((ms, b3)) => match s_dec_usize(b3) {
                    Some((n, rest)) => Some(
                        (
                            ResourcesAbs {
                                resources: rs,
                                resource_instances: ps,
                                models: ms,
                                next_resource_id: n,
                            },
                            rest,
                        ),
                    ),
                    None => None,
                },
                None => None,
            },
            None => None,
        },
        None => None,
    }
}

/// The round trip for the resource record: decoding an encoded record gives
/// back the record it was encoded from, models and counter included.
pub proof fn lemma_resources_round_trip(x: Resources, rest: Seq<u8>)
    requires
        resources_encodable(x),
    ensures
        s_dec_resources(s_enc_resources(x) + rest) == Some((resources_abs(x), rest)),
{
    let t3 = s_enc_usize(x.next_resource_id) + rest;
    let t2 = s_enc_list(x.models@, models_entry_enc_f()) + t3;
    let t1 = s_enc_list(x.resource_instances@, pair_entry_enc_f()) + t2;
    assert(s_enc_resources(x) + rest =~= s_enc_list(x.resources@, res_entry_enc_f()) + t1);
    assert forall|e: (String, (usize, ResourceIO)), r2: Seq<u8>| x.resources@.contains(e) implies
        #[trigger] res_entry_dec_f()(res_entry_enc_f()(e) + r2) == Some((
        res_entry_abs_f()(e),
        r2,
    )) by {
        let i = choose|i: int| 0 <= i < x.resources@.len() && x.resources@[i] == e;
        assert(encodable_str(e.0@));
        lemma_rt_res_entry(e, r2);
    }
    lemma_list_rt(x.resources@, res_entry_enc_f(), res_entry_dec_f(), res_entry_abs_f(), t1);
    assert forall|e: (usize, usize), r2: Seq<u8>| x.resource_instances@.contains(e) implies
        #[trigger] pair_entry_dec_f()(pair_entry_enc_f()(e) + r2) == Some((
        pair_entry_abs_f()(e),
        r2,
    )) by {
        lemma_rt_pair_entry(e, r2);
    }
    lemma_list_rt(
        x.resource_instances@,
        pair_entry_enc_f(),
        pair_entry_dec_f(),
        pair_entry_abs_f(),
        t2,
    );
    assert forall|e: (usize, Vec<(usize, DataIO)>), r2: Seq<u8>| x.models@.contains(e) implies
        #[trigger] models_entry_dec_f()(models_entry_enc_f()(e) + r2) == Some((
        models_entry_abs_f()(e),
        r2,
    )) by {
        let i = choose|i: int| 0 <= i < x.models@.len() && x.models@[i] == e;
        assert(e.1@.len() <= u64::MAX);
        lemma_rt_models_entry(e, r2);
    }
    lemma_list_rt(x.models@, models_entry_enc_f(), models_entry_dec_f(), models_entry_abs_f(), t3);
    lemma_rt_usize(x.next_resource_id, rest);
}

impl Resources {
    /// Encodes the record into the persisted byte form.
    pub fn save(&self) -> (out: Vec<u8>)
        ensures
            out@ == s_enc_resources(*self),
            resources_encodable(*self),
    {
        let mut out: Vec<u8> = Vec::new();
        enc_res_entries(&mut out, &self.resources);
        enc_pair_entries(&mut out, &self.resource_instances);
        enc_models_entries(&mut out, &self.models);
        enc_usize(&mut out, self.next_resource_id);
        proof {
            assert(out@ =~= s_enc_resources(*self));
        }
        out
    }

    /// Decodes a persisted record; anything the encoder cannot have
    /// produced, trailing bytes included, is a load failure.
    pub fn load(bytes: &Vec<u8>) -> (r: DBResult<Resources>)
        ensures
            match s_dec_resources(bytes@) {
                Some((a, rest)) => if rest.len() == 0 {
                    r matches Ok(x) && resources_abs(x) == a
                } else {
                    r matches Err(e) && e matches DatabaseError::FailedToLoadFile(_)
                },
                None => r matches Err(e) && e matches DatabaseError::FailedToLoadFile(_),
            },
    {
        proof {
            assert(bytes@.skip(0) =~= bytes@);
        }
        let (rs, p1) = match dec_res_entries(bytes, 0) {
            None => {
                return Err(
                    DatabaseError::FailedToLoadFile(String::from_str("Malformed resource record")),
                );
            },
            Some(v) => v,
        };
        let (ps, p2) = match dec_pair_entries(bytes, p1) {
            None => {
                return Err(
                    DatabaseError::FailedToLoadFile(String::from_str("Malformed resource record")),
                );
            },
            Some(v) => v,
        };
        let (ms, p3) = match dec_models_entries(bytes, p2) {
            None => {
                return Err(
                    DatabaseError::FailedToLoadFile(String::from_str("Malformed resource record")),
                );
            },
            Some(v) => v,
        };
        let (next, p4) = match dec_usize(bytes, p3) {
            None => {
                return Err(
                    DatabaseError::FailedToLoadFile(String::from_str("Malformed resource record")),
                );
            },
            Some(v) => v,
        };
        if p4 != bytes.len() {
            return Err(
                DatabaseError::FailedToLoadFile(
                    String::from_str("Trailing bytes in resource record"),
                ),
            );
        }
        Ok(
            Resources {
                resources: rs,
                resource_instances: ps,
                models: ms,
                next_resource_id: next,
            },
        )
    }
}

} // verus!
