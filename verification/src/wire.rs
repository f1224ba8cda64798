//! The builder wire format: framed, packed, little-endian binary encodings
//! of the compile request and response exchanged between client and builder.
//!
//! Integers are four bytes little-endian; text is a count followed by one
//! code point per character; byte strings are a count followed by the bytes;
//! an optional field is a presence byte followed by the value.  Decoding is
//! the exact inverse of encoding, proved below.

use vstd::prelude::*;
use vstd::string::*;
use crate::task::{BuildError, OutputInfo};

verus! {

/// Relies on char::from_u32: `Some` exactly for Unicode scalar values, and
/// the inverse of casting a char to u32.
pub assume_specification[ char::from_u32 ](v: u32) -> (r: Option<char>)
    ensures
        r == (if vstd::utf8::is_scalar(v) {
            Some(v as char)
        } else {
            None::<char>
        }),
;

/// Relies on String::push: appends exactly the one character.
pub assume_specification[ String::push ](s: &mut String, c: char)
    ensures
        final(s)@ == old(s)@.push(c),
;

/// A 32-bit value as four little-endian bytes.
#[verifier::opaque]
pub open spec fn enc_u32(v: int) -> Seq<u8> {
    seq![
        (v % 256) as u8,
        ((v / 256) % 256) as u8,
        ((v / 65536) % 256) as u8,
        ((v / 16777216) % 256) as u8,
    ]
}

/// The value of four little-endian bytes.
#[verifier::opaque]
pub open spec fn dec_u32_val(b: Seq<u8>) -> int {
    b[0] + 256 * b[1] + 65536 * b[2] + 16777216 * b[3]
}

/// Decode a 32-bit value, returning it with the remaining input.
pub open spec fn dec_u32(data: Seq<u8>) -> Option<(int, Seq<u8>)> {
    if data.len() >= 4 {
        Some((dec_u32_val(data.take(4)), data.skip(4)))
    } else {
        None
    }
}

/// Each character as its code point, four bytes each.
pub open spec fn enc_codepoints(cs: Seq<char>) -> Seq<u8>
    decreases cs.len(),
{
    if cs.len() == 0 {
        Seq::empty()
    } else {
        enc_u32(cs[0] as u32 as int) + enc_codepoints(cs.skip(1))
    }
}

/// Decode `count` code points.
pub open spec fn dec_codepoints(data: Seq<u8>, count: int) -> Option<(Seq<char>, Seq<u8>)>
    decreases count,
{
    if count <= 0 {
        Some((Seq::empty(), data))
    } else {
        match dec_u32(data) {
            None => None,
            Some((v, rest)) => if 0 <= v < 0x1_0000_0000 && vstd::utf8::is_scalar(v as u32) {
                match dec_codepoints(rest, count - 1) {
                    None => None,
                    Some((cs, rest2)) => Some((seq![(v as u32) as char] + cs, rest2)),
                }
            } else {
                None
            },
        }
    }
}

/// Text: a character count, then the code points.
pub open spec fn enc_str(s: Seq<char>) -> Seq<u8> {
    enc_u32(s.len() as int) + enc_codepoints(s)
}

pub open spec fn dec_str(data: Seq<u8>) -> Option<(Seq<char>, Seq<u8>)> {
    match dec_u32(data) {
        None => None,
        Some((count, rest)) => dec_codepoints(rest, count),
    }
}

/// A byte string: a count, then the bytes.
pub open spec fn enc_bytes(b: Seq<u8>) -> Seq<u8> {
    enc_u32(b.len() as int) + b
}

pub open spec fn dec_bytes(data: Seq<u8>) -> Option<(Seq<u8>, Seq<u8>)> {
    match dec_u32(data) {
        None => None,
        Some((count, rest)) => if 0 <= count <= rest.len() {
            Some((rest.take(count), rest.skip(count)))
        } else {
            None
        },
    }
}

/// The views of a list of strings.
pub open spec fn strs_view(v: Seq<String>) -> Seq<Seq<char>>
    decreases v.len(),
{
    if v.len() == 0 {
        Seq::empty()
    } else {
        seq![v[0]@] + strs_view(v.skip(1))
    }
}

/// Each string in turn.
pub open spec fn enc_strs(l: Seq<Seq<char>>) -> Seq<u8>
    decreases l.len(),
{
    if l.len() == 0 {
        Seq::empty()
    } else {
        enc_str(l[0]) + enc_strs(l.skip(1))
    }
}

pub open spec fn dec_strs(data: Seq<u8>, count: int) -> Option<(Seq<Seq<char>>, Seq<u8>)>
    decreases count,
{
    if count <= 0 {
        Some((Seq::empty(), data))
    } else {
        match dec_str(data) {
            None => None,
            Some((s, rest)) => match dec_strs(rest, count - 1) {
                None => None,
                Some((l, rest2)) => Some((seq![s] + l, rest2)),
            },
        }
    }
}

/// A string list: a count, then the strings.
pub open spec fn enc_str_list(l: Seq<Seq<char>>) -> Seq<u8> {
    enc_u32(l.len() as int) + enc_strs(l)
}

pub open spec fn dec_str_list(data: Seq<u8>) -> Option<(Seq<Seq<char>>, Seq<u8>)> {
    match dec_u32(data) {
        None => None,
        Some((count, rest)) => dec_strs(rest, count),
    }
}

/// An optional string: a presence byte, then the value when present.
pub open spec fn enc_opt_str(o: Option<Seq<char>>) -> Seq<u8> {
    match o {
        None => seq![0u8],
        Some(s) => seq![1u8] + enc_str(s),
    }
}

pub open spec fn dec_opt_str(data: Seq<u8>) -> Option<(Option<Seq<char>>, Seq<u8>)> {
    if data.len() < 1 {
        None
    } else if data[0] == 0 {
        Some((None, data.skip(1)))
    } else if data[0] == 1 {
        match dec_str(data.skip(1)) {
            None => None,
            Some((s, rest)) => Some((Some(s), rest)),
        }
    } else {
        None
    }
}

/// The request's mathematical content: toolchain, arguments, preprocessed
/// bytes, and the optional precompiled-header hash.
pub open spec fn enc_request(
    toolchain: Seq<char>,
    args: Seq<Seq<char>>,
    data: Seq<u8>,
    hash: Option<Seq<char>>,
) -> Seq<u8> {
    enc_str(toolchain) + enc_str_list(args) + enc_bytes(data) + enc_opt_str(hash)
}

pub open spec fn dec_request(data: Seq<u8>) -> Option<
    (Seq<char>, Seq<Seq<char>>, Seq<u8>, Option<Seq<char>>),
> {
    match dec_str(data) {
        None => None,
        Some((toolchain, r1)) => match dec_str_list(r1) {
            None => None,
            Some((args, r2)) => match dec_bytes(r2) {
                None => None,
                Some((bytes, r3)) => match dec_opt_str(r3) {
                    None => None,
                    Some((hash, r4)) => if r4.len() == 0 {
                        Some((toolchain, args, bytes, hash))
                    } else {
                        None
                    },
                },
            },
        },
    }
}

/// Four little-endian bytes read back as the value they encode.
proof fn lemma_u32_round(v: int)
    requires
        0 <= v < 0x1_0000_0000,
    ensures
        enc_u32(v).len() == 4,
        dec_u32_val(enc_u32(v)) == v,
{
    reveal(enc_u32);
    reveal(dec_u32_val);
    let x = v as u32;
    assert(x % 256 + 256 * ((x / 256) % 256) + 65536 * ((x / 65536) % 256) + 16777216 * ((x
        / 16777216) % 256) == x) by (bit_vector);
    assert(x / 16777216 < 256) by (bit_vector);
    assert(v == x as int);
}

/// Decoding undoes encoding a 32-bit value, leaving the rest untouched.
proof fn lemma_dec_enc_u32(v: int, rest: Seq<u8>)
    requires
        0 <= v < 0x1_0000_0000,
    ensures
        dec_u32(enc_u32(v) + rest) == Some((v, rest)),
{
    lemma_u32_round(v);
    assert((enc_u32(v) + rest).take(4) =~= enc_u32(v));
    assert((enc_u32(v) + rest).skip(4) =~= rest);
}

/// Code-point encoding distributes over concatenation.
proof fn lemma_enc_codepoints_concat(a: Seq<char>, b: Seq<char>)
    ensures
        enc_codepoints(a + b) == enc_codepoints(a) + enc_codepoints(b),
    decreases a.len(),
{
    if a.len() == 0 {
        assert(a + b =~= b);
        assert(enc_codepoints(a) + enc_codepoints(b) =~= enc_codepoints(b));
    } else {
        lemma_enc_codepoints_concat(a.skip(1), b);
        assert((a + b).skip(1) =~= a.skip(1) + b);
        assert((a + b)[0] == a[0]);
        vstd::seq_lib::lemma_concat_associative(
            enc_u32(a[0] as u32 as int),
            enc_codepoints(a.skip(1)),
            enc_codepoints(b),
        );
    }
}

/// Decoding undoes encoding a character sequence.
proof fn lemma_dec_enc_codepoints(cs: Seq<char>, rest: Seq<u8>)
    ensures
        dec_codepoints(enc_codepoints(cs) + rest, cs.len() as int) == Some((cs, rest)),
    decreases cs.len(),
{
    if cs.len() == 0 {
        assert(enc_codepoints(cs) + rest =~= rest);
    } else {
        let c0 = cs[0];
        let v = c0 as u32 as int;
        vstd::utf8::char_is_scalar(c0);
        assert(vstd::utf8::is_scalar(c0 as u32));
        let tail = enc_codepoints(cs.skip(1)) + rest;
        vstd::seq_lib::lemma_concat_associative(
            enc_u32(v),
            enc_codepoints(cs.skip(1)),
            rest,
        );
        assert(enc_codepoints(cs) + rest == enc_u32(v) + tail);
        lemma_dec_enc_u32(v, tail);
        lemma_dec_enc_codepoints(cs.skip(1), rest);
        vstd::utf8::char_u32_cast(c0, v as u32);
        assert((v as u32) as char == c0);
        assert(seq![c0] + cs.skip(1) =~= cs);
    }
}

/// Decoding undoes encoding a string.
proof fn lemma_dec_enc_str(s: Seq<char>, rest: Seq<u8>)
    requires
        s.len() < 0x1_0000_0000,
    ensures
        dec_str(enc_str(s) + rest) == Some((s, rest)),
{
    vstd::seq_lib::lemma_concat_associative(
        enc_u32(s.len() as int),
        enc_codepoints(s),
        rest,
    );
    lemma_dec_enc_u32(s.len() as int, enc_codepoints(s) + rest);
    lemma_dec_enc_codepoints(s, rest);
}

/// Decoding undoes encoding a byte string.
proof fn lemma_dec_enc_bytes(b: Seq<u8>, rest: Seq<u8>)
    requires
        b.len() < 0x1_0000_0000,
    ensures
        dec_bytes(enc_bytes(b) + rest) == Some((b, rest)),
{
    vstd::seq_lib::lemma_concat_associative(enc_u32(b.len() as int), b, rest);
    lemma_dec_enc_u32(b.len() as int, b + rest);
    assert((b + rest).take(b.len() as int) =~= b);
    assert((b + rest).skip(b.len() as int) =~= rest);
}

/// String-list encoding distributes over concatenation.
proof fn lemma_enc_strs_concat(a: Seq<Seq<char>>, b: Seq<Seq<char>>)
    ensures
        enc_strs(a + b) == enc_strs(a) + enc_strs(b),
    decreases a.len(),
{
    if a.len() == 0 {
        assert(a + b =~= b);
        assert(enc_strs(a) + enc_strs(b) =~= enc_strs(b));
    } else {
        lemma_enc_strs_concat(a.skip(1), b);
        assert((a + b).skip(1) =~= a.skip(1) + b);
        assert((a + b)[0] == a[0]);
        vstd::seq_lib::lemma_concat_associative(
            enc_str(a[0]),
            enc_strs(a.skip(1)),
            enc_strs(b),
        );
    }
}

/// All strings of a list fit the count field.
pub open spec fn strs_fit(l: Seq<Seq<char>>) -> bool {
    forall|i: int| 0 <= i < l.len() ==> #[trigger] l[i].len() < 0x1_0000_0000
}

/// Decoding undoes encoding a sequence of strings.
proof fn lemma_dec_enc_strs(l: Seq<Seq<char>>, rest: Seq<u8>)
    requires
        strs_fit(l),
    ensures
        dec_strs(enc_strs(l) + rest, l.len() as int) == Some((l, rest)),
    decreases l.len(),
{
    if l.len() == 0 {
        assert(enc_strs(l) + rest =~= rest);
    } else {
        let tail = enc_strs(l.skip(1)) + rest;
        vstd::seq_lib::lemma_concat_associative(enc_str(l[0]), enc_strs(l.skip(1)), rest);
        assert(enc_strs(l) + rest == enc_str(l[0]) + tail);
        lemma_dec_enc_str(l[0], tail);
        assert(strs_fit(l.skip(1)));
        lemma_dec_enc_strs(l.skip(1), rest);
        assert(seq![l[0]] + l.skip(1) =~= l);
    }
}

/// Decoding undoes encoding a string list.
proof fn lemma_dec_enc_str_list(l: Seq<Seq<char>>, rest: Seq<u8>)
    requires
        strs_fit(l),
        l.len() < 0x1_0000_0000,
    ensures
        dec_str_list(enc_str_list(l) + rest) == Some((l, rest)),
{
    vstd::seq_lib::lemma_concat_associative(enc_u32(l.len() as int), enc_strs(l), rest);
    lemma_dec_enc_u32(l.len() as int, enc_strs(l) + rest);
    lemma_dec_enc_strs(l, rest);
}

/// Decoding undoes encoding an optional string.
proof fn lemma_dec_enc_opt_str(o: Option<Seq<char>>, rest: Seq<u8>)
    requires
        match o {
            Some(s) => s.len() < 0x1_0000_0000,
            None => true,
        },
    ensures
        dec_opt_str(enc_opt_str(o) + rest) == Some((o, rest)),
{
    match o {
        None => {
            assert((seq![0u8] + rest)[0] == 0);
            assert((seq![0u8] + rest).skip(1) =~= rest);
        },
        Some(s) => {
            vstd::seq_lib::lemma_concat_associative(seq![1u8], enc_str(s), rest);
            assert((seq![1u8] + (enc_str(s) + rest))[0] == 1);
            assert((seq![1u8] + (enc_str(s) + rest)).skip(1) =~= enc_str(s) + rest);
            lemma_dec_enc_str(s, rest);
        },
    }
}

/// The fields a request frame can carry.
pub open spec fn request_fits(
    toolchain: Seq<char>,
    args: Seq<Seq<char>>,
    data: Seq<u8>,
    hash: Option<Seq<char>>,
) -> bool {
    &&& toolchain.len() < 0x1_0000_0000
    &&& args.len() < 0x1_0000_0000
    &&& strs_fit(args)
    &&& data.len() < 0x1_0000_0000
    &&& (match hash {
        Some(s) => s.len() < 0x1_0000_0000,
        None => true,
    })
}

/// Reading a written request recovers every field, the optional
/// precompiled-header hash included.
pub proof fn lemma_request_round_trip(
    toolchain: Seq<char>,
    args: Seq<Seq<char>>,
    data: Seq<u8>,
    hash: Option<Seq<char>>,
)
    requires
        request_fits(toolchain, args, data, hash),
    ensures
        dec_request(enc_request(toolchain, args, data, hash)) == Some(
            (toolchain, args, data, hash),
        ),
{
    let p1 = enc_str(toolchain);
    let p2 = enc_str_list(args);
    let p3 = enc_bytes(data);
    let p4 = enc_opt_str(hash);
    let whole = enc_request(toolchain, args, data, hash);
    assert(whole == p1 + p2 + p3 + p4);
    vstd::seq_lib::lemma_concat_associative(p1 + p2, p3, p4);
    vstd::seq_lib::lemma_concat_associative(p1, p2, p3 + p4);
    assert(whole == p1 + (p2 + (p3 + p4)));
    lemma_dec_enc_str(toolchain, p2 + (p3 + p4));
    vstd::seq_lib::lemma_concat_associative(p2, p3, p4);
    assert(p2 + (p3 + p4) == p2 + p3 + p4);
    lemma_dec_enc_str_list(args, p3 + p4);
    lemma_dec_enc_bytes(data, p4);
    lemma_dec_enc_opt_str(hash, Seq::empty());
    assert(p4 + Seq::<u8>::empty() =~= p4);
}

/// A compile handed to a remote builder: which toolchain to use, the
/// compile arguments, the preprocessed source, and the optional hash of the
/// precompiled header it depends on.
#[derive(Debug)]
pub struct CompileRequest {
    pub toolchain: String,
    pub args: Vec<String>,
    pub preprocessed_data: Vec<u8>,
    pub precompiled_hash: Option<String>,
}

impl CompileRequest {
    /// The view of the optional hash.
    pub open spec fn hash_view(self) -> Option<Seq<char>> {
        match self.precompiled_hash {
            None => None,
            Some(s) => Some(s@),
        }
    }

    /// This request's encoding.
    pub open spec fn enc(self) -> Seq<u8> {
        enc_request(self.toolchain@, strs_view(self.args@), self.preprocessed_data@, self.hash_view())
    }
}

/// Views of a string list, related to its elements.
proof fn lemma_strs_view_props(v: Seq<String>)
    ensures
        strs_view(v).len() == v.len(),
        forall|i: int| 0 <= i < v.len() ==> strs_view(v)[i] == v[i]@,
    decreases v.len(),
{
    if v.len() > 0 {
        lemma_strs_view_props(v.skip(1));
        assert forall|i: int| 0 <= i < v.len() implies strs_view(v)[i] == v[i]@ by {
            if i > 0 {
                assert(strs_view(v.skip(1))[i - 1] == v.skip(1)[i - 1]@);
            }
        }
    }
}

fn push_u32(out: &mut Vec<u8>, v: u32)
    ensures
        final(out)@ == old(out)@ + enc_u32(v as int),
{
    proof {
        reveal(enc_u32);
    }
    out.push((v % 256) as u8);
    out.push(((v / 256) % 256) as u8);
    out.push(((v / 65536) % 256) as u8);
    out.push(((v / 16777216) % 256) as u8);
    proof {
        assert(out@ =~= old(out)@ + enc_u32(v as int));
    }
}

fn push_chars(out: &mut Vec<u8>, s: &str)
    ensures
        final(out)@ == old(out)@ + enc_codepoints(s@),
{
    let n = s.unicode_len();
    let mut i: usize = 0;
    proof {
        assert(s@.take(0) =~= Seq::<char>::empty());
        assert(out@ =~= out@ + enc_codepoints(s@.take(0)));
    }
    while i < n
        invariant
            n == s@.len(),
            i <= n,
            out@ == old(out)@ + enc_codepoints(s@.take(i as int)),
        decreases n - i,
    {
        let c = s.get_char(i);
        push_u32(out, c as u32);
        proof {
            lemma_enc_codepoints_concat(s@.take(i as int), seq![c]);
            assert(s@.take(i + 1) =~= s@.take(i as int) + seq![c]);
            assert(seq![c].skip(1) =~= Seq::<char>::empty());
            assert(enc_codepoints(Seq::<char>::empty()) =~= Seq::<u8>::empty());
            assert(enc_codepoints(seq![c]) =~= enc_u32(c as u32 as int) + Seq::<u8>::empty());
            assert(enc_u32(c as u32 as int) + Seq::<u8>::empty() =~= enc_u32(c as u32 as int));
            vstd::seq_lib::lemma_concat_associative(
                old(out)@,
                enc_codepoints(s@.take(i as int)),
                enc_u32(c as u32 as int),
            );
        }
        i = i + 1;
    }
    proof {
        assert(s@.take(n as int) =~= s@);
    }
}

fn push_str(out: &mut Vec<u8>, s: &str)
    requires
        s@.len() < 0x1_0000_0000,
    ensures
        final(out)@ == old(out)@ + enc_str(s@),
{
    let n = s.unicode_len();
    push_u32(out, n as u32);
    push_chars(out, s);
    proof {
        vstd::seq_lib::lemma_concat_associative(
            old(out)@,
            enc_u32(s@.len() as int),
            enc_codepoints(s@),
        );
    }
}

fn push_bytes(out: &mut Vec<u8>, b: &Vec<u8>)
    requires
        b@.len() < 0x1_0000_0000,
    ensures
        final(out)@ == old(out)@ + enc_bytes(b@),
{
    let n = b.len();
    push_u32(out, n as u32);
    out.extend_from_slice(b.as_slice());
    proof {
        vstd::seq_lib::lemma_concat_associative(old(out)@, enc_u32(b@.len() as int), b@);
    }
}

fn read_u32_at(data: &Vec<u8>, pos: usize) -> (r: Result<(u32, usize), BuildError>)
    requires
        pos <= data@.len(),
    ensures
        match r {
            Ok(p) => {
                &&& dec_u32(data@.skip(pos as int)) == Some((p.0 as int, data@.skip(p.1 as int)))
                &&& p.1 == pos + 4
                &&& p.1 <= data@.len()
            },
            Err(e) => {
                &&& e == BuildError::MalformedFrame
                &&& dec_u32(data@.skip(pos as int)) is None
            },
        },
{
    if data.len() - pos < 4 {
        return Err(BuildError::MalformedFrame);
    }
    let b0 = data[pos] as u32;
    let b1 = data[pos + 1] as u32;
    let b2 = data[pos + 2] as u32;
    let b3 = data[pos + 3] as u32;
    let v = b0 + 256 * b1 + 65536 * b2 + 16777216 * b3;
    proof {
        reveal(dec_u32_val);
        let t = data@.skip(pos as int);
        assert(t.take(4)[0] == data@[pos as int]);
        assert(t.take(4)[1] == data@[pos as int + 1]);
        assert(t.take(4)[2] == data@[pos as int + 2]);
        assert(t.take(4)[3] == data@[pos as int + 3]);
        assert(dec_u32_val(t.take(4)) == v as int);
        assert(t.skip(4) =~= data@.skip(pos + 4));
    }
    Ok((v, pos + 4))
}

fn read_string_at(data: &Vec<u8>, pos: usize) -> (r: Result<(String, usize), BuildError>)
    requires
        pos <= data@.len(),
    ensures
        match r {
            Ok(p) => {
                &&& dec_str(data@.skip(pos as int)) == Some((p.0@, data@.skip(p.1 as int)))
                &&& pos <= p.1 <= data@.len()
            },
            Err(e) => {
                &&& e == BuildError::MalformedFrame
                &&& dec_str(data@.skip(pos as int)) is None
            },
        },
{
    let ghost orig = data@.skip(pos as int);
    let first = match read_u32_at(data, pos) {
        Err(e) => {
            return Err(e);
        },
        Ok(pair) => pair,
    };
    let count_u32 = first.0;
    let mut p = first.1;
    let count = count_u32 as usize;
    let ghost after_count = data@.skip(p as int);
    let mut acc = String::new();
    let mut j: usize = 0;
    proof {
        if dec_codepoints(after_count, count as int) is Some {
            let t = dec_codepoints(after_count, count as int)->Some_0;
            assert(Seq::<char>::empty() + t.0 =~= t.0);
        }
    }
    while j < count
        invariant
            j <= count,
            pos <= data@.len(),
            pos <= p,
            p <= data@.len(),
            acc@.len() == j,
            count == count_u32 as int,
            orig == data@.skip(pos as int),
            dec_u32(orig) == Some((count as int, after_count)),
            match dec_codepoints(data@.skip(p as int), count - j) {
                Some(t) => dec_codepoints(after_count, count as int) == Some(
                    (acc@ + t.0, t.1),
                ),
                None => dec_codepoints(after_count, count as int) is None,
            },
        decreases count - j,
    {
        let ghost cur = data@.skip(p as int);
        match read_u32_at(data, p) {
            Err(_) => {
                proof {
                    assert(dec_codepoints(cur, count - j) is None);
                }
                return Err(BuildError::MalformedFrame);
            },
            Ok(pair) => {
                let v = pair.0;
                match char::from_u32(v) {
                    None => {
                        proof {
                            assert(dec_codepoints(cur, count - j) is None);
                        }
                        return Err(BuildError::MalformedFrame);
                    },
                    Some(c) => {
                        let ghost acc0 = acc@;
                        acc.push(c);
                        proof {
                            let next = data@.skip(pair.1 as int);
                            assert(dec_codepoints(cur, count - j) == (match dec_codepoints(
                                next,
                                count - j - 1,
                            ) {
                                Some(t2) => Some::<(Seq<char>, Seq<u8>)>(
                                    (seq![c] + t2.0, t2.1),
                                ),
                                None => None::<(Seq<char>, Seq<u8>)>,
                            }));
                            if dec_codepoints(next, count - j - 1) is Some {
                                let t2 = dec_codepoints(next, count - j - 1)->Some_0;
                                vstd::seq_lib::lemma_concat_associative(acc0, seq![c], t2.0);
                                assert(acc0.push(c) =~= acc0 + seq![c]);
                            }
                        }
                        p = pair.1;
                    },
                }
            },
        }
        j = j + 1;
    }
    proof {
        assert(dec_codepoints(data@.skip(p as int), 0) == Some(
            (Seq::<char>::empty(), data@.skip(p as int)),
        ));
        assert(acc@ + Seq::<char>::empty() =~= acc@);
    }
    Ok((acc, p))
}

#[verifier::rlimit(50)]
fn read_bytes_at(data: &Vec<u8>, pos: usize) -> (r: Result<(Vec<u8>, usize), BuildError>)
    requires
        pos <= data@.len(),
    ensures
        match r {
            Ok(p) => {
                &&& dec_bytes(data@.skip(pos as int)) == Some((p.0@, data@.skip(p.1 as int)))
                &&& pos <= p.1 <= data@.len()
            },
            Err(e) => {
                &&& e == BuildError::MalformedFrame
                &&& dec_bytes(data@.skip(pos as int)) is None
            },
        },
{
    let first = match read_u32_at(data, pos) {
        Err(e) => {
            return Err(e);
        },
        Ok(pair) => pair,
    };
    let count_u32 = first.0;
    let p = first.1;
    let count = count_u32 as usize;
    if count > data.len() - p {
        proof {
            assert(data@.skip(p as int).len() < count as int);
        }
        return Err(BuildError::MalformedFrame);
    }
    let mut acc: Vec<u8> = Vec::new();
    let end = p + count;
    let mut idx: usize = p;
    proof {
        assert(acc@ =~= data@.skip(p as int).take(0));
    }
    while idx < end
        invariant
            p <= idx <= end,
            end == p + count,
            end <= data@.len(),
            acc@ == data@.skip(p as int).take(idx - p),
        decreases end - idx,
    {
        let b = data[idx];
        acc.push(b);
        proof {
            assert(data@.skip(p as int)[idx - p] == data@[idx as int]);
            assert(acc@ =~= data@.skip(p as int).take(idx - p + 1));
        }
        idx = idx + 1;
    }
    proof {
        assert(data@.skip(p as int).skip(count as int) =~= data@.skip(p + count));
    }
    Ok((acc, p + count))
}

fn read_opt_str_at(data: &Vec<u8>, pos: usize) -> (r: Result<
    (Option<String>, usize),
    BuildError,
>)
    requires
        pos <= data@.len(),
    ensures
        match r {
            Ok(p) => {
                &&& dec_opt_str(data@.skip(pos as int)) == Some(
                    (
                        match p.0 {
                            None => None::<Seq<char>>,
                            Some(s) => Some(s@),
                        },
                        data@.skip(p.1 as int),
                    ),
                )
                &&& pos <= p.1 <= data@.len()
            },
            Err(e) => {
                &&& e == BuildError::MalformedFrame
                &&& dec_opt_str(data@.skip(pos as int)) is None
            },
        },
{
    let ghost orig = data@.skip(pos as int);
    if pos >= data.len() {
        return Err(BuildError::MalformedFrame);
    }
    let tag = data[pos];
    proof {
        assert(orig[0] == tag);
        assert(orig.skip(1) =~= data@.skip(pos + 1));
    }
    if tag == 0 {
        Ok((None, pos + 1))
    } else if tag == 1 {
        match read_string_at(data, pos + 1) {
            Err(e) => Err(e),
            Ok(pair) => Ok((Some(pair.0), pair.1)),
        }
    } else {
        Err(BuildError::MalformedFrame)
    }
}

/// Append the encoding of a string list.
pub(crate) fn push_str_list(out: &mut Vec<u8>, args: &Vec<String>)
    requires
        strs_view(args@).len() < 0x1_0000_0000,
        strs_fit(strs_view(args@)),
    ensures
        final(out)@ == old(out)@ + enc_str_list(strs_view(args@)),
{
    proof {
        lemma_strs_view_props(args@);
    }
    let ghost l = strs_view(args@);
    let n = args.len();
    push_u32(out, n as u32);
    let ghost base2 = out@;
    let mut i: usize = 0;
    proof {
        assert(l.take(0) =~= Seq::<Seq<char>>::empty());
        assert(out@ =~= base2 + enc_strs(l.take(0)));
    }
    while i < n
        invariant
            n == args@.len(),
            l == strs_view(args@),
            l.len() == n,
            forall|k: int| 0 <= k < n ==> l[k] == args@[k]@,
            strs_fit(l),
            i <= n,
            out@ == base2 + enc_strs(l.take(i as int)),
        decreases n - i,
    {
        proof {
            assert(l[i as int].len() < 0x1_0000_0000);
            assert(args@[i as int]@ == l[i as int]);
        }
        push_str(out, args[i].as_str());
        proof {
            lemma_enc_strs_concat(l.take(i as int), seq![l[i as int]]);
            assert(l.take(i + 1) =~= l.take(i as int) + seq![l[i as int]]);
            assert(seq![l[i as int]].skip(1) =~= Seq::<Seq<char>>::empty());
            assert(enc_strs(Seq::<Seq<char>>::empty()) =~= Seq::<u8>::empty());
            assert(enc_strs(seq![l[i as int]]) =~= enc_str(l[i as int]) + Seq::<u8>::empty());
            assert(enc_str(l[i as int]) + Seq::<u8>::empty() =~= enc_str(l[i as int]));
            vstd::seq_lib::lemma_concat_associative(
                base2,
                enc_strs(l.take(i as int)),
                enc_str(l[i as int]),
            );
        }
        i = i + 1;
    }
    proof {
        assert(l.take(n as int) =~= l);
        vstd::seq_lib::lemma_concat_associative(
            old(out)@,
            enc_u32(l.len() as int),
            enc_strs(l),
        );
        assert(base2 =~= old(out)@ + enc_u32(l.len() as int));
    }
}

impl CompileRequest {
    /// Frame this request as bytes.
    pub fn write(&self) -> (out: Vec<u8>)
        requires
            request_fits(
                self.toolchain@,
                strs_view(self.args@),
                self.preprocessed_data@,
                self.hash_view(),
            ),
        ensures
            out@ == self.enc(),
    {
        let ghost l = strs_view(self.args@);
        let mut out: Vec<u8> = Vec::new();
        push_str(&mut out, self.toolchain.as_str());
        let ghost base1 = out@;
        push_str_list(&mut out, &self.args);
        proof {
            assert(out@ == base1 + enc_str_list(l));
        }
        let ghost base3 = out@;
        push_bytes(&mut out, &self.preprocessed_data);
        let ghost base4 = out@;
        match &self.precompiled_hash {
            None => {
                out.push(0u8);
                proof {
                    assert(out@ =~= base4 + enc_opt_str(self.hash_view()));
                }
            },
            Some(h) => {
                out.push(1u8);
                let ghost base5 = out@;
                push_str(&mut out, h.as_str());
                proof {
                    assert(base5 =~= base4 + seq![1u8]);
                    vstd::seq_lib::lemma_concat_associative(base4, seq![1u8], enc_str(h@));
                    assert(out@ == base4 + enc_opt_str(self.hash_view()));
                }
            },
        }
        proof {
            let p1 = enc_str(self.toolchain@);
            let p2 = enc_str_list(l);
            let p3 = enc_bytes(self.preprocessed_data@);
            let p4 = enc_opt_str(self.hash_view());
            vstd::seq_lib::lemma_concat_associative(p1, p2, p3);
            vstd::seq_lib::lemma_concat_associative(p1 + p2, p3, p4);
            assert(out@ == p1 + p2 + p3 + p4);
        }
        out
    }

    /// Parse one framed request.  Succeeds exactly on a complete well-formed
    /// frame, and then recovers every field.
    pub fn read(data: &Vec<u8>) -> (r: Result<CompileRequest, BuildError>)
        ensures
            match r {
                Ok(req) => dec_request(data@) == Some(
                    (req.toolchain@, strs_view(req.args@), req.preprocessed_data@, req.hash_view()),
                ),
                Err(e) => {
                    &&& e == BuildError::MalformedFrame
                    &&& dec_request(data@) is None
                },
            },
{
        let ghost whole = data@;
        proof {
            assert(data@.skip(0) =~= whole);
        }
        let toolchain_pair = match read_string_at(data, 0) {
            Err(e) => {
                return Err(e);
            },
            Ok(p) => p,
        };
        let toolchain = toolchain_pair.0;
        let p1 = toolchain_pair.1;
        let count_pair = match read_u32_at(data, p1) {
            Err(e) => {
                return Err(e);
            },
            Ok(p) => p,
        };
        let arg_count = count_pair.0 as usize;
        let mut p = count_pair.1;
        let ghost after_count = data@.skip(p as int);
        let mut args: Vec<String> = Vec::new();
        let mut j: usize = 0;
        proof {
            assert(strs_view(Seq::<String>::empty()) =~= Seq::<Seq<char>>::empty());
            if dec_strs(after_count, arg_count as int) is Some {
                let t = dec_strs(after_count, arg_count as int)->Some_0;
                assert(Seq::<Seq<char>>::empty() + t.0 =~= t.0);
            }
        }
        while j < arg_count
            invariant
                j <= arg_count,
                p1 <= data@.len(),
                p <= data@.len(),
                args@.len() == j,
                dec_str(data@) == Some((toolchain@, data@.skip(p1 as int))),
                dec_u32(data@.skip(p1 as int)) == Some((arg_count as int, after_count)),
                match dec_strs(data@.skip(p as int), arg_count - j) {
                    Some(t) => dec_strs(after_count, arg_count as int) == Some(
                        (strs_view(args@) + t.0, t.1),
                    ),
                    None => dec_strs(after_count, arg_count as int) is None,
                },
            decreases arg_count - j,
        {
            let ghost cur = data@.skip(p as int);
            let ghost args0 = args@;
            match read_string_at(data, p) {
                Err(_) => {
                    proof {
                        assert(dec_strs(cur, arg_count - j) is None);
                    }
                    return Err(BuildError::MalformedFrame);
                },
                Ok(pair) => {
                    let s = pair.0;
                    let ghost sv = s@;
                    args.push(s);
                    proof {
                        let next = data@.skip(pair.1 as int);
                        lemma_strs_view_push(args0, args@[args0.len() as int]);
                        if dec_strs(next, arg_count - j - 1) is Some {
                            let t2 = dec_strs(next, arg_count - j - 1)->Some_0;
                            vstd::seq_lib::lemma_concat_associative(
                                strs_view(args0),
                                seq![sv],
                                t2.0,
                            );
                        }
                    }
                    p = pair.1;
                },
            }
            j = j + 1;
        }
        proof {
            assert(dec_strs(data@.skip(p as int), 0) == Some(
                (Seq::<Seq<char>>::empty(), data@.skip(p as int)),
            ));
            assert(strs_view(args@) + Seq::<Seq<char>>::empty() =~= strs_view(args@));
        }
        let bytes_pair = match read_bytes_at(data, p) {
            Err(e) => {
                return Err(e);
            },
            Ok(pr) => pr,
        };
        let preprocessed_data = bytes_pair.0;
        let p3 = bytes_pair.1;
        let hash_pair = match read_opt_str_at(data, p3) {
            Err(e) => {
                return Err(e);
            },
            Ok(pr) => pr,
        };
        let precompiled_hash = hash_pair.0;
        let p4 = hash_pair.1;
        if p4 != data.len() {
            return Err(BuildError::MalformedFrame);
        }
        proof {
            assert(data@.skip(p4 as int).len() == 0);
        }
        Ok(
            CompileRequest {
                toolchain,
                args,
                preprocessed_data,
                precompiled_hash,
            },
        )
    }
}

/// An optional exit status: a presence byte, then the status bits.
pub open spec fn enc_opt_status(o: Option<i32>) -> Seq<u8> {
    match o {
        None => seq![0u8],
        Some(v) => seq![1u8] + enc_u32((v as u32) as int),
    }
}

pub open spec fn dec_opt_status(data: Seq<u8>) -> Option<(Option<i32>, Seq<u8>)> {
    if data.len() < 1 {
        None
    } else if data[0] == 0 {
        Some((None, data.skip(1)))
    } else if data[0] == 1 {
        match dec_u32(data.skip(1)) {
            None => None,
            Some((v, rest)) => Some((Some((v as u32) as i32), rest)),
        }
    } else {
        None
    }
}

/// A successful response's content: the tool's stdio, its exit status, and
/// the compiled artifact bytes.
pub open spec fn enc_success(
    stdout: Seq<u8>,
    stderr: Seq<u8>,
    status: Option<i32>,
    artifact: Seq<u8>,
) -> Seq<u8> {
    enc_bytes(stdout) + enc_bytes(stderr) + enc_opt_status(status) + enc_bytes(artifact)
}

/// A response frame: a tag byte, then for the success variant its content.
pub open spec fn enc_response(m: Option<(Seq<u8>, Seq<u8>, Option<i32>, Seq<u8>)>) -> Seq<u8> {
    match m {
        None => seq![0u8],
        Some((stdout, stderr, status, artifact)) => seq![1u8] + enc_success(
            stdout,
            stderr,
            status,
            artifact,
        ),
    }
}

pub open spec fn dec_response(data: Seq<u8>) -> Option<
    Option<(Seq<u8>, Seq<u8>, Option<i32>, Seq<u8>)>,
> {
    if data.len() < 1 {
        None
    } else if data[0] == 0 {
        if data.len() == 1 {
            Some(None)
        } else {
            None
        }
    } else if data[0] == 1 {
        match dec_bytes(data.skip(1)) {
            None => None,
            Some((stdout, r1)) => match dec_bytes(r1) {
                None => None,
                Some((stderr, r2)) => match dec_opt_status(r2) {
                    None => None,
                    Some((status, r3)) => match dec_bytes(r3) {
                        None => None,
                        Some((artifact, r4)) => if r4.len() == 0 {
                            Some(Some((stdout, stderr, status, artifact)))
                        } else {
                            None
                        },
                    },
                },
            },
        }
    } else {
        None
    }
}

/// A builder's answer: the compile's captured output and artifact, or its
/// error variant, which the client answers with a local fallback.
#[derive(Debug)]
pub enum CompileResponse {
    Success(OutputInfo, Vec<u8>),
    Error(BuildError),
}

impl CompileResponse {
    /// The response's mathematical content.
    pub open spec fn model(self) -> Option<(Seq<u8>, Seq<u8>, Option<i32>, Seq<u8>)> {
        match self {
            CompileResponse::Success(o, artifact) => Some(
                (o.stdout@, o.stderr@, o.status, artifact@),
            ),
            CompileResponse::Error(_) => None,
        }
    }

    /// The fields a response frame can carry.
    pub open spec fn fits(self) -> bool {
        match self {
            CompileResponse::Success(o, artifact) => o.stdout@.len() < 0x1_0000_0000
                && o.stderr@.len() < 0x1_0000_0000 && artifact@.len() < 0x1_0000_0000,
            CompileResponse::Error(_) => true,
        }
    }

    /// Frame this response as bytes.
    pub fn write(&self) -> (out: Vec<u8>)
        requires
            self.fits(),
        ensures
            out@ == enc_response(self.model()),
    {
        let mut out: Vec<u8> = Vec::new();
        match self {
            CompileResponse::Error(_) => {
                out.push(0u8);
                proof {
                    assert(out@ =~= enc_response(self.model()));
                }
            },
            CompileResponse::Success(o, artifact) => {
                out.push(1u8);
                let ghost base0 = out@;
                push_bytes(&mut out, &o.stdout);
                let ghost base1 = out@;
                push_bytes(&mut out, &o.stderr);
                let ghost base2 = out@;
                match o.status {
                    None => {
                        out.push(0u8);
                        proof {
                            assert(out@ =~= base2 + enc_opt_status(o.status));
                        }
                    },
                    Some(v) => {
                        out.push(1u8);
                        let ghost base3 = out@;
                        push_u32(&mut out, v as u32);
                        proof {
                            assert(base3 =~= base2 + seq![1u8]);
                            vstd::seq_lib::lemma_concat_associative(
                                base2,
                                seq![1u8],
                                enc_u32((v as u32) as int),
                            );
                            assert(out@ == base2 + enc_opt_status(o.status));
                        }
                    },
                }
                let ghost base4 = out@;
                push_bytes(&mut out, artifact);
                proof {
                    let p1 = enc_bytes(o.stdout@);
                    let p2 = enc_bytes(o.stderr@);
                    let p3 = enc_opt_status(o.status);
                    let p4 = enc_bytes(artifact@);
                    assert(base0 =~= seq![1u8]);
                    vstd::seq_lib::lemma_concat_associative(seq![1u8], p1, p2);
                    vstd::seq_lib::lemma_concat_associative(seq![1u8] + p1, p2, p3);
                    vstd::seq_lib::lemma_concat_associative(seq![1u8] + p1 + p2, p3, p4);
                    vstd::seq_lib::lemma_concat_associative(p1, p2, p3);
                    vstd::seq_lib::lemma_concat_associative(p1 + p2, p3, p4);
                    assert(out@ == seq![1u8] + (p1 + p2 + p3 + p4));
                    assert(enc_response(self.model()) == seq![1u8] + (p1 + p2 + p3 + p4));
                }
            },
        }
        out
    }

    /// Parse one framed response.  A well-formed error frame is a successful
    /// parse: it reports the builder's error variant, which callers treat as
    /// reason for a local fallback.
    pub fn read(data: &Vec<u8>) -> (r: Result<CompileResponse, BuildError>)
        ensures
            match r {
                Ok(resp) => {
                    &&& dec_response(data@) == Some(resp.model())
                    &&& (resp is Error ==> resp == CompileResponse::Error(
                        BuildError::RemoteCompileError,
                    ))
                },
                Err(e) => {
                    &&& e == BuildError::MalformedFrame
                    &&& dec_response(data@) is None
                },
            },
    {
        if data.len() < 1 {
            return Err(BuildError::MalformedFrame);
        }
        let tag = data[0];
        if tag == 0 {
            if data.len() == 1 {
                return Ok(CompileResponse::Error(BuildError::RemoteCompileError));
            }
            return Err(BuildError::MalformedFrame);
        }
        if tag != 1 {
            return Err(BuildError::MalformedFrame);
        }
        proof {
            assert(data@.skip(0).skip(1) =~= data@.skip(1));
        }
        let stdout_pair = match read_bytes_at(data, 1) {
            Err(e) => {
                return Err(e);
            },
            Ok(p) => p,
        };
        let stderr_pair = match read_bytes_at(data, stdout_pair.1) {
            Err(e) => {
                return Err(e);
            },
            Ok(p) => p,
        };
        let p2 = stderr_pair.1;
        let ghost r2 = data@.skip(p2 as int);
        let status: Option<i32>;
        let p3: usize;
        if p2 >= data.len() {
            return Err(BuildError::MalformedFrame);
        }
        let stag = data[p2];
        proof {
            assert(r2[0] == stag);
            assert(r2.skip(1) =~= data@.skip(p2 + 1));
        }
        if stag == 0 {
            status = None;
            p3 = p2 + 1;
        } else if stag == 1 {
            let vp = match read_u32_at(data, p2 + 1) {
                Err(e) => {
                    return Err(e);
                },
                Ok(p) => p,
            };
            status = Some(vp.0 as i32);
            p3 = vp.1;
        } else {
            return Err(BuildError::MalformedFrame);
        }
        let artifact_pair = match read_bytes_at(data, p3) {
            Err(e) => {
                return Err(e);
            },
            Ok(p) => p,
        };
        let p4 = artifact_pair.1;
        if p4 != data.len() {
            return Err(BuildError::MalformedFrame);
        }
        proof {
            assert(data@.skip(p4 as int).len() == 0);
        }
        Ok(
            CompileResponse::Success(
                OutputInfo {
                    stdout: stdout_pair.0,
                    stderr: stderr_pair.0,
                    status,
                },
                artifact_pair.0,
            ),
        )
    }
}

impl From<Result<(OutputInfo, Vec<u8>), BuildError>> for CompileResponse {
    fn from(result: Result<(OutputInfo, Vec<u8>), BuildError>) -> (r: CompileResponse) {
        match result {
            Ok((output, content)) => CompileResponse::Success(output, content),
            Err(e) => CompileResponse::Error(e),
        }
    }
}

impl vstd::std_specs::convert::FromSpecImpl<Result<(OutputInfo, Vec<u8>), BuildError>> for CompileResponse {
    open spec fn obeys_from_spec() -> bool {
        true
    }

    open spec fn from_spec(result: Result<(OutputInfo, Vec<u8>), BuildError>) -> CompileResponse {
        match result {
            Ok((output, content)) => CompileResponse::Success(output, content),
            Err(e) => CompileResponse::Error(e),
        }
    }
}

/// Reading a written response recovers the variant and, for a success, its
/// captured output, status, and artifact.
pub proof fn lemma_response_round_trip(m: Option<(Seq<u8>, Seq<u8>, Option<i32>, Seq<u8>)>)
    requires
        match m {
            None => true,
            Some((stdout, stderr, status, artifact)) => stdout.len() < 0x1_0000_0000
                && stderr.len() < 0x1_0000_0000 && artifact.len() < 0x1_0000_0000,
        },
    ensures
        dec_response(enc_response(m)) == Some(m),
{
    match m {
        None => {
        },
        Some((stdout, stderr, status, artifact)) => {
            let p1 = enc_bytes(stdout);
            let p2 = enc_bytes(stderr);
            let p3 = enc_opt_status(status);
            let p4 = enc_bytes(artifact);
            let whole = enc_response(m);
            vstd::seq_lib::lemma_concat_associative(p1, p2, p3);
            vstd::seq_lib::lemma_concat_associative(p1 + p2, p3, p4);
            vstd::seq_lib::lemma_concat_associative(p1, p2, p3 + p4);
            vstd::seq_lib::lemma_concat_associative(p2, p3, p4);
            assert(whole == seq![1u8] + (p1 + (p2 + (p3 + p4))));
            assert(whole[0] == 1);
            assert(whole.skip(1) =~= p1 + (p2 + (p3 + p4)));
            lemma_dec_enc_bytes(stdout, p2 + (p3 + p4));
            lemma_dec_enc_bytes(stderr, p3 + p4);
            match status {
                None => {
                    assert((p3 + p4)[0] == 0);
                    assert((p3 + p4).skip(1) =~= p4);
                },
                Some(v) => {
                    vstd::seq_lib::lemma_concat_associative(
                        seq![1u8],
                        enc_u32((v as u32) as int),
                        p4,
                    );
                    assert((p3 + p4)[0] == 1);
                    assert((p3 + p4).skip(1) =~= enc_u32((v as u32) as int) + p4);
                    lemma_dec_enc_u32((v as u32) as int, p4);
                    let x = v;
                    assert(((x as u32) as i32) == x) by (bit_vector);
                },
            }
            lemma_dec_enc_bytes(artifact, Seq::empty());
            assert(p4 + Seq::<u8>::empty() =~= p4);
        },
    }
}

/// Appending a string extends the viewed list by its view.
pub(crate) proof fn lemma_strs_view_push(v: Seq<String>, s: String)
    ensures
        strs_view(v.push(s)) == strs_view(v) + seq![s@],
    decreases v.len(),
{
    if v.len() == 0 {
        assert(v.push(s)[0] == s);
        assert(v.push(s).skip(1) =~= Seq::<String>::empty());
        assert(strs_view(Seq::<String>::empty()) =~= Seq::<Seq<char>>::empty());
        assert(seq![s@] + Seq::<Seq<char>>::empty() =~= seq![s@]);
        assert(strs_view(v) + seq![s@] =~= seq![s@]);
        assert(strs_view(v.push(s)) =~= strs_view(v) + seq![s@]);
    } else {
        lemma_strs_view_push(v.skip(1), s);
        assert(v.push(s).skip(1) =~= v.skip(1).push(s));
        assert(v.push(s)[0] == v[0]);
        vstd::seq_lib::lemma_concat_associative(seq![v[0]@], strs_view(v.skip(1)), seq![s@]);
    }
}

} // verus!
