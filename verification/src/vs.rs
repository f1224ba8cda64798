//! The Microsoft compiler wrapper: argument classification, the
//! preprocess/compile split, and content fingerprinting.
//!
//! Each compile is split into a preprocess step and a compile step so that
//! the cache can key on the preprocessed text.  Argument scopes decide which
//! arguments each sub-invocation sees; the fingerprint is a hex digest over
//! a canonical form of the effective arguments and the filtered preprocessed
//! bytes.

use vstd::prelude::*;
use vstd::string::*;
use sha1::Digest;
use crate::task::{BuildError, OutputInfo};
use crate::wire::{enc_str_list, strs_view};

verus! {

/// What the SHA-1 function yields on given bytes.
pub uninterp spec fn sha1_of(data: Seq<u8>) -> Seq<u8>;

/// Which sub-invocations an argument belongs to.
#[derive(Clone, Copy, Debug, PartialEq, Eq, Structural)]
pub enum Scope {
    Preprocessor,
    Compiler,
    Shared,
    Ignore,
}

/// A classified compiler argument.
#[derive(Clone, Debug)]
pub enum Arg {
    Flag { scope: Scope, flag: String },
    Param { scope: Scope, flag: String, value: String },
    Input { file: String },
    Output { file: String },
}

/// A compile derived from classified arguments.
#[derive(Clone, Debug)]
pub struct CompilationTask {
    pub args: Vec<Arg>,
    pub language: String,
    pub input_source: String,
    pub input_precompiled: Option<String>,
    pub output_object: String,
    pub output_precompiled: Option<String>,
    pub marker_precompiled: Option<String>,
}

/// What the preprocess step hands the compile step: the cache key and the
/// filtered preprocessed text.
#[derive(Clone, Debug)]
pub struct PreprocessResult {
    pub hash: String,
    pub content: Vec<u8>,
}

/// What an argument contributes to the preprocess invocation: only
/// preprocessor-scoped and shared arguments appear, rendered as `/name` or
/// `/name value-fused`.
pub open spec fn emit_preprocess(a: Arg) -> Option<Seq<char>> {
    match a {
        Arg::Flag { scope, flag } => match scope {
            Scope::Preprocessor | Scope::Shared => Some(seq!['/'] + flag@),
            Scope::Compiler | Scope::Ignore => None,
        },
        Arg::Param { scope, flag, value } => match scope {
            Scope::Preprocessor | Scope::Shared => Some(seq!['/'] + flag@ + value@),
            Scope::Compiler | Scope::Ignore => None,
        },
        Arg::Input { .. } => None,
        Arg::Output { .. } => None,
    }
}

/// What an argument contributes to the compile invocation: everything but
/// ignored arguments, inputs and outputs.
pub open spec fn emit_compile(a: Arg) -> Option<Seq<char>> {
    match a {
        Arg::Flag { scope, flag } => match scope {
            Scope::Preprocessor | Scope::Compiler | Scope::Shared => Some(seq!['/'] + flag@),
            Scope::Ignore => None,
        },
        Arg::Param { scope, flag, value } => match scope {
            Scope::Preprocessor | Scope::Compiler | Scope::Shared => Some(
                seq!['/'] + flag@ + value@,
            ),
            Scope::Ignore => None,
        },
        Arg::Input { .. } => None,
        Arg::Output { .. } => None,
    }
}

/// The arguments forwarded to the preprocess invocation, in order.
pub open spec fn preprocess_args_spec(args: Seq<Arg>) -> Seq<Seq<char>>
    decreases args.len(),
{
    if args.len() == 0 {
        Seq::empty()
    } else {
        let rest = preprocess_args_spec(args.skip(1));
        match emit_preprocess(args[0]) {
            Some(s) => seq![s] + rest,
            None => rest,
        }
    }
}

/// The arguments forwarded to the compile invocation, in order.
pub open spec fn compile_args_spec(args: Seq<Arg>) -> Seq<Seq<char>>
    decreases args.len(),
{
    if args.len() == 0 {
        Seq::empty()
    } else {
        let rest = compile_args_spec(args.skip(1));
        match emit_compile(args[0]) {
            Some(s) => seq![s] + rest,
            None => rest,
        }
    }
}

/// Render one argument for a sub-invocation: `/` then the flag, with a
/// fused value for parameters.
fn render_flag(flag: &String, value: Option<&String>) -> (r: String)
    ensures
        r@ == (match value {
            Some(v) => seq!['/'] + flag@ + v@,
            None => seq!['/'] + flag@,
        }),
{
    let mut s = String::new();
    proof {
        reveal_strlit("/");
        assert("/"@ =~= seq!['/']);
    }
    s.append("/");
    s.append(flag.as_str());
    match value {
        Some(v) => {
            s.append(v.as_str());
            proof {
                assert(s@ =~= seq!['/'] + flag@ + v@);
            }
        },
        None => {
            proof {
                assert(s@ =~= seq!['/'] + flag@);
            }
        },
    }
    s
}

/// Helper for the snoc step of the argument filters.
proof fn lemma_filter_snoc_pre(args: Seq<Arg>, i: int)
    requires
        0 <= i < args.len(),
    ensures
        preprocess_args_spec(args.take(i + 1)) == (match emit_preprocess(args[i]) {
            Some(s) => preprocess_args_spec(args.take(i)).push(s),
            None => preprocess_args_spec(args.take(i)),
        }),
    decreases i,
{
    let t1 = args.take(i + 1);
    let t0 = args.take(i);
    if i == 0 {
        assert(t1.skip(1) =~= Seq::<Arg>::empty());
        assert(t0 =~= Seq::<Arg>::empty());
        match emit_preprocess(args[0]) {
            Some(s) => {
                assert(seq![s] + Seq::<Seq<char>>::empty() =~= preprocess_args_spec(t0).push(s));
            },
            None => {
            },
        }
    } else {
        lemma_filter_snoc_pre(args.skip(1), i - 1);
        assert(t1.skip(1) =~= args.skip(1).take(i));
        assert(t0.skip(1) =~= args.skip(1).take(i - 1));
        assert(t1[0] == args[0]);
        assert(t0[0] == args[0]);
        assert(args.skip(1)[i - 1] == args[i]);
        match emit_preprocess(args[i]) {
            Some(s) => {
                match emit_preprocess(args[0]) {
                    Some(s0) => {
                        assert(seq![s0] + preprocess_args_spec(args.skip(1).take(i - 1)).push(s)
                            =~= (seq![s0] + preprocess_args_spec(args.skip(1).take(i - 1))).push(
                            s,
                        ));
                    },
                    None => {
                    },
                }
            },
            None => {
            },
        }
    }
}

/// Helper for the snoc step of the compile filter.
proof fn lemma_filter_snoc_cmp(args: Seq<Arg>, i: int)
    requires
        0 <= i < args.len(),
    ensures
        compile_args_spec(args.take(i + 1)) == (match emit_compile(args[i]) {
            Some(s) => compile_args_spec(args.take(i)).push(s),
            None => compile_args_spec(args.take(i)),
        }),
    decreases i,
{
    let t1 = args.take(i + 1);
    let t0 = args.take(i);
    if i == 0 {
        assert(t1.skip(1) =~= Seq::<Arg>::empty());
        assert(t0 =~= Seq::<Arg>::empty());
        match emit_compile(args[0]) {
            Some(s) => {
                assert(seq![s] + Seq::<Seq<char>>::empty() =~= compile_args_spec(t0).push(s));
            },
            None => {
            },
        }
    } else {
        lemma_filter_snoc_cmp(args.skip(1), i - 1);
        assert(t1.skip(1) =~= args.skip(1).take(i));
        assert(t0.skip(1) =~= args.skip(1).take(i - 1));
        assert(t1[0] == args[0]);
        assert(t0[0] == args[0]);
        assert(args.skip(1)[i - 1] == args[i]);
        match emit_compile(args[i]) {
            Some(s) => {
                match emit_compile(args[0]) {
                    Some(s0) => {
                        assert(seq![s0] + compile_args_spec(args.skip(1).take(i - 1)).push(s)
                            =~= (seq![s0] + compile_args_spec(args.skip(1).take(i - 1))).push(s));
                    },
                    None => {
                    },
                }
            },
            None => {
            },
        }
    }
}

/// The preprocess sub-invocation's arguments: exactly the preprocessor and
/// shared scoped ones; ignored, compiler-only, input and output arguments
/// never appear.
pub fn filter_preprocess_args(args: &Vec<Arg>) -> (r: Vec<String>)
    ensures
        strs_view(r@) == preprocess_args_spec(args@),
{
    let mut r: Vec<String> = Vec::new();
    let n = args.len();
    let mut i: usize = 0;
    proof {
        assert(args@.take(0) =~= Seq::<Arg>::empty());
        assert(strs_view(r@) =~= preprocess_args_spec(args@.take(0)));
    }
    while i < n
        invariant
            n == args@.len(),
            i <= n,
            strs_view(r@) == preprocess_args_spec(args@.take(i as int)),
        decreases n - i,
    {
        let ghost r0 = r@;
        match &args[i] {
            Arg::Flag { scope, flag } => {
                match scope {
                    Scope::Preprocessor | Scope::Shared => {
                        r.push(render_flag(flag, None));
                        proof {
                            crate::wire::lemma_strs_view_push(r0, r@[r0.len() as int]);
                        }
                    },
                    _ => {
                    },
                }
            },
            Arg::Param { scope, flag, value } => {
                match scope {
                    Scope::Preprocessor | Scope::Shared => {
                        r.push(render_flag(flag, Some(value)));
                        proof {
                            crate::wire::lemma_strs_view_push(r0, r@[r0.len() as int]);
                        }
                    },
                    _ => {
                    },
                }
            },
            _ => {
            },
        }
        proof {
            lemma_filter_snoc_pre(args@, i as int);
            match emit_preprocess(args@[i as int]) {
                Some(s) => {
                    assert(strs_view(r@) =~= preprocess_args_spec(args@.take(i as int)).push(s));
                },
                None => {
                },
            }
        }
        i = i + 1;
    }
    proof {
        assert(args@.take(n as int) =~= args@);
    }
    r
}

/// The compile sub-invocation's arguments: the preprocessor, compiler and
/// shared scoped ones; ignored, input and output arguments never appear.
pub fn filter_compile_args(args: &Vec<Arg>) -> (r: Vec<String>)
    ensures
        strs_view(r@) == compile_args_spec(args@),
{
    let mut r: Vec<String> = Vec::new();
    let n = args.len();
    let mut i: usize = 0;
    proof {
        assert(args@.take(0) =~= Seq::<Arg>::empty());
        assert(strs_view(r@) =~= compile_args_spec(args@.take(0)));
    }
    while i < n
        invariant
            n == args@.len(),
            i <= n,
            strs_view(r@) == compile_args_spec(args@.take(i as int)),
        decreases n - i,
    {
        let ghost r0 = r@;
        match &args[i] {
            Arg::Flag { scope, flag } => {
                match scope {
                    Scope::Preprocessor | Scope::Compiler | Scope::Shared => {
                        r.push(render_flag(flag, None));
                        proof {
                            crate::wire::lemma_strs_view_push(r0, r@[r0.len() as int]);
                        }
                    },
                    _ => {
                    },
                }
            },
            Arg::Param { scope, flag, value } => {
                match scope {
                    Scope::Preprocessor | Scope::Compiler | Scope::Shared => {
                        r.push(render_flag(flag, Some(value)));
                        proof {
                            crate::wire::lemma_strs_view_push(r0, r@[r0.len() as int]);
                        }
                    },
                    _ => {
                    },
                }
            },
            _ => {
            },
        }
        proof {
            lemma_filter_snoc_cmp(args@, i as int);
            match emit_compile(args@[i as int]) {
                Some(s) => {
                    assert(strs_view(r@) =~= compile_args_spec(args@.take(i as int)).push(s));
                },
                None => {
                },
            }
        }
        i = i + 1;
    }
    proof {
        assert(args@.take(n as int) =~= args@);
    }
    r
}

/// Relies on sha1's `Sha1`: the digest is twenty bytes and depends on the
/// input bytes alone.
#[verifier::external_body]
fn sha1_digest(data: &Vec<u8>) -> (r: Vec<u8>)
    ensures
        r@ == sha1_of(data@),
        r@.len() == 20,
{
    sha1::Sha1::digest(data.as_slice()).to_vec()
}

/// The lower-case hex digit for a value below sixteen.
pub open spec fn hex_digit(n: int) -> char {
    if n == 0 {
        '0'
    } else if n == 1 {
        '1'
    } else if n == 2 {
        '2'
    } else if n == 3 {
        '3'
    } else if n == 4 {
        '4'
    } else if n == 5 {
        '5'
    } else if n == 6 {
        '6'
    } else if n == 7 {
        '7'
    } else if n == 8 {
        '8'
    } else if n == 9 {
        '9'
    } else if n == 10 {
        'a'
    } else if n == 11 {
        'b'
    } else if n == 12 {
        'c'
    } else if n == 13 {
        'd'
    } else if n == 14 {
        'e'
    } else {
        'f'
    }
}

/// Bytes as lower-case hex text, two digits per byte.
pub open spec fn hex_of(b: Seq<u8>) -> Seq<char>
    decreases b.len(),
{
    if b.len() == 0 {
        Seq::empty()
    } else {
        seq![hex_digit((b[0] as int) / 16), hex_digit((b[0] as int) % 16)] + hex_of(b.skip(1))
    }
}

fn hex_digit_char(n: u8) -> (c: char)
    requires
        n < 16,
    ensures
        c == hex_digit(n as int),
{
    if n == 0 {
        '0'
    } else if n == 1 {
        '1'
    } else if n == 2 {
        '2'
    } else if n == 3 {
        '3'
    } else if n == 4 {
        '4'
    } else if n == 5 {
        '5'
    } else if n == 6 {
        '6'
    } else if n == 7 {
        '7'
    } else if n == 8 {
        '8'
    } else if n == 9 {
        '9'
    } else if n == 10 {
        'a'
    } else if n == 11 {
        'b'
    } else if n == 12 {
        'c'
    } else if n == 13 {
        'd'
    } else if n == 14 {
        'e'
    } else {
        'f'
    }
}

/// Render bytes as lower-case hex.
pub fn to_hex(bytes: &Vec<u8>) -> (r: String)
    ensures
        r@ == hex_of(bytes@),
{
    let mut r = String::new();
    let n = bytes.len();
    let mut i: usize = 0;
    proof {
        assert(bytes@.take(0) =~= Seq::<u8>::empty());
        assert(r@ =~= hex_of(bytes@.take(0)));
    }
    while i < n
        invariant
            n == bytes@.len(),
            i <= n,
            r@ == hex_of(bytes@.take(i as int)),
        decreases n - i,
    {
        let b = bytes[i];
        let ghost r0 = r@;
        r.push(hex_digit_char(b / 16));
        r.push(hex_digit_char(b % 16));
        proof {
            lemma_hex_of_snoc(bytes@, i as int);
            assert(r@ =~= r0 + seq![hex_digit((b / 16) as int), hex_digit((b % 16) as int)]);
        }
        i = i + 1;
    }
    proof {
        assert(bytes@.take(n as int) =~= bytes@);
    }
    r
}

/// The snoc step of hex rendering.
proof fn lemma_hex_of_snoc(b: Seq<u8>, i: int)
    requires
        0 <= i < b.len(),
    ensures
        hex_of(b.take(i + 1)) == hex_of(b.take(i)) + seq![
            hex_digit((b[i] as int) / 16),
            hex_digit((b[i] as int) % 16),
        ],
    decreases i,
{
    let t1 = b.take(i + 1);
    let t0 = b.take(i);
    if i == 0 {
        assert(t1.skip(1) =~= Seq::<u8>::empty());
        assert(t0 =~= Seq::<u8>::empty());
        assert(hex_of(t1) =~= hex_of(t0) + seq![hex_digit((b[0] as int) / 16), hex_digit((b[0] as int) % 16)]);
    } else {
        lemma_hex_of_snoc(b.skip(1), i - 1);
        assert(t1.skip(1) =~= b.skip(1).take(i));
        assert(t0.skip(1) =~= b.skip(1).take(i - 1));
        assert(t1[0] == b[0]);
        assert(t0[0] == b[0]);
        assert(b.skip(1)[i - 1] == b[i]);
        assert(seq![hex_digit((b[0] as int) / 16), hex_digit((b[0] as int) % 16)] + (hex_of(
            b.skip(1).take(i - 1),
        ) + seq![hex_digit((b[i] as int) / 16), hex_digit((b[i] as int) % 16)]) =~= (seq![
            hex_digit((b[0] as int) / 16),
            hex_digit((b[0] as int) % 16),
        ] + hex_of(b.skip(1).take(i - 1))) + seq![
            hex_digit((b[i] as int) / 16),
            hex_digit((b[i] as int) % 16),
        ]);
    }
}

/// The canonical bytes a fingerprint digests: a leading marker byte, the
/// effective arguments, then the filtered preprocessed text.
pub open spec fn canonical_input(args: Seq<Seq<char>>, content: Seq<u8>) -> Seq<u8> {
    seq![0u8] + enc_str_list(args) + content
}

/// The fingerprint: a hex digest over the canonical form of the effective
/// arguments followed by the preprocessed bytes — a function of exactly
/// those two inputs.
pub open spec fn fingerprint_spec(args: Seq<Seq<char>>, content: Seq<u8>) -> Seq<char> {
    hex_of(sha1_of(canonical_input(args, content)))
}

/// Compute the cache fingerprint of a compile: same arguments and same
/// preprocessed bytes give the same digest, byte for byte.
pub fn fingerprint(args: &Vec<String>, content: &Vec<u8>) -> (r: String)
    requires
        strs_view(args@).len() < 0x1_0000_0000,
        crate::wire::strs_fit(strs_view(args@)),
    ensures
        r@ == fingerprint_spec(strs_view(args@), content@),
{
    let mut buf: Vec<u8> = Vec::new();
    buf.push(0u8);
    proof {
        assert(buf@ =~= seq![0u8]);
    }
    let ghost base1 = buf@;
    crate::wire::push_str_list(&mut buf, args);
    let ghost base2 = buf@;
    buf.extend_from_slice(content.as_slice());
    proof {
        vstd::seq_lib::lemma_concat_associative(
            seq![0u8],
            enc_str_list(strs_view(args@)),
            content@,
        );
        assert(buf@ == canonical_input(strs_view(args@), content@));
    }
    let digest = sha1_digest(&buf);
    to_hex(&digest)
}

/// A byte-for-byte occurrence of `pat` at position `i` of `content`.
pub open spec fn pat_at(content: Seq<u8>, pat: Seq<u8>, i: int) -> bool {
    &&& 0 <= i
    &&& i + pat.len() <= content.len()
    &&& content.subrange(i, i + pat.len()) == pat
}

/// The first occurrence of `pat` at or after `i`, if any.
pub open spec fn find_pat_from(content: Seq<u8>, pat: Seq<u8>, i: nat) -> Option<nat>
    decreases content.len() + 1 - i,
{
    if i + pat.len() > content.len() {
        None
    } else if pat_at(content, pat, i as int) {
        Some(i)
    } else {
        find_pat_from(content, pat, i + 1)
    }
}

/// A scan that saw no occurrence in `[s, e)` and one at `e` found the first.
proof fn lemma_find_pat_found(content: Seq<u8>, pat: Seq<u8>, s: nat, e: nat)
    requires
        s <= e,
        e + pat.len() <= content.len(),
        forall|j: int| s <= j < e ==> !pat_at(content, pat, j),
        pat_at(content, pat, e as int),
    ensures
        find_pat_from(content, pat, s) == Some(e),
    decreases e - s,
{
    if s < e {
        lemma_find_pat_found(content, pat, s + 1, e);
    }
}

/// A scan that saw no occurrence from `s` on finds none.
proof fn lemma_find_pat_none(content: Seq<u8>, pat: Seq<u8>, s: nat)
    requires
        forall|j: int| s <= j ==> !pat_at(content, pat, j),
    ensures
        find_pat_from(content, pat, s) == None::<nat>,
    decreases content.len() + 1 - s,
{
    if s + pat.len() <= content.len() {
        lemma_find_pat_none(content, pat, s + 1);
    }
}

/// Find the first occurrence of `pat` in `content`.
fn find_pattern(content: &Vec<u8>, pat: &Vec<u8>) -> (r: Option<usize>)
    ensures
        match r {
            Some(i) => {
                &&& find_pat_from(content@, pat@, 0) == Some(i as nat)
                &&& i + pat@.len() <= content@.len()
                &&& pat_at(content@, pat@, i as int)
            },
            None => find_pat_from(content@, pat@, 0) is None,
        },
{
    let n = content.len();
    let m = pat.len();
    if m > n {
        proof {
            lemma_find_pat_none(content@, pat@, 0);
        }
        return None;
    }
    if m == 0 {
        proof {
            assert(content@.subrange(0, 0) =~= pat@);
            assert(pat_at(content@, pat@, 0));
            lemma_find_pat_found(content@, pat@, 0, 0);
        }
        return Some(0);
    }
    let mut i: usize = 0;
    while i <= n - m
        invariant
            n == content@.len(),
            m == pat@.len(),
            1 <= m <= n,
            i <= n - m + 1,
            forall|j: int| 0 <= j < i ==> !pat_at(content@, pat@, j),
        decreases n - m + 1 - i,
    {
        let mut k: usize = 0;
        let mut matched = true;
        while k < m && matched
            invariant
                n == content@.len(),
                m == pat@.len(),
                m <= n,
                i <= n - m,
                k <= m,
                matched ==> forall|t: int| 0 <= t < k ==> content@[i + t] == pat@[t],
                !matched ==> !pat_at(content@, pat@, i as int),
            decreases m - k, (if matched {
                1int
            } else {
                0int
            }),
        {
            if content[i + k] != pat[k] {
                matched = false;
                proof {
                    if pat_at(content@, pat@, i as int) {
                        let sub = content@.subrange(i as int, i + pat@.len());
                        assert(sub[k as int] == pat@[k as int]);
                    }
                }
            } else {
                k = k + 1;
            }
        }
        if matched {
            proof {
                assert(content@.subrange(i as int, i + pat@.len()) =~= pat@);
                assert(pat_at(content@, pat@, i as int));
                lemma_find_pat_found(content@, pat@, 0, i as nat);
            }
            return Some(i);
        }
        i = i + 1;
    }
    proof {
        assert forall|j: int| 0 <= j implies !pat_at(content@, pat@, j) by {
            if j < i {
            } else {
                assert(j + pat@.len() > content@.len());
            }
        }
        lemma_find_pat_none(content@, pat@, 0);
    }
    None
}

/// The UTF-8 bytes of the text.
fn str_bytes(s: &str) -> (r: Vec<u8>)
    ensures
        r@ == vstd::utf8::encode_utf8(s@),
{
    vstd::slice::slice_to_vec(s.as_bytes())
}

/// Normalize the preprocessor's output for fingerprinting and compiling.
///
/// Without a precompiled-header marker the text passes through unchanged.
/// With one, the compiler-relevant portion starts at the marker's first
/// occurrence; output that does not contain the marker cannot be parsed.
pub fn filter_preprocessed(content: &Vec<u8>, marker: &Option<String>) -> (r: Result<
    Vec<u8>,
    BuildError,
>)
    ensures
        match r {
            Ok(out) => (match marker {
                None => out@ == content@,
                Some(m) => {
                    exists|i: nat|
                        find_pat_from(content@, vstd::utf8::encode_utf8(m@), 0) == Some(i)
                            && out@ == content@.skip(i as int)
                },
            }),
            Err(e) => {
                &&& e == BuildError::PreprocessedUnparseable
                &&& (match marker {
                    None => false,
                    Some(m) => find_pat_from(content@, vstd::utf8::encode_utf8(m@), 0) is None,
                })
            },
        },
{
    match marker {
        None => Ok(content.clone()),
        Some(m) => {
            let pat = str_bytes(m.as_str());

            match find_pattern(content, &pat) {
                None => Err(BuildError::PreprocessedUnparseable),
                Some(i) => {
                    let n = content.len();
                    let mut out: Vec<u8> = Vec::new();
                    let mut k: usize = i;
                    proof {
                        assert(out@ =~= content@.skip(i as int).take(0));
                    }
                    while k < n
                        invariant
                            n == content@.len(),
                            i <= k <= n,
                            out@ == content@.skip(i as int).take(k - i),
                        decreases n - k,
                    {
                        let b = content[k];
                        out.push(b);
                        proof {
                            assert(content@.skip(i as int)[k - i] == content@[k as int]);
                            assert(out@ =~= content@.skip(i as int).take(k - i + 1));
                        }
                        k = k + 1;
                    }
                    proof {
                        assert(content@.skip(i as int).take(n - i) =~= content@.skip(i as int));
                    }
                    Ok(out)
                },
            }
        },
    }
}

/// The fixed tail of the preprocess command: no logo, the language
/// selector, preprocess-to-file, and the source path.
pub open spec fn preprocess_extras(t: CompilationTask) -> Seq<Seq<char>> {
    seq![
        seq!['/', 'n', 'o', 'l', 'o', 'g', 'o'],
        seq!['/', 'T'] + t.language@,
        seq!['/', 'P'],
        t.input_source@,
    ]
}

/// The fixed tail of the compile command: the language selector and the
/// precompiled-header arguments where configured.
pub open spec fn compile_extras(t: CompilationTask) -> Seq<Seq<char>> {
    let base = seq![seq!['/', 'T'] + t.language@];
    let with_use = (match t.input_precompiled {
        Some(p) => base + seq![seq!['/', 'Y', 'u'], seq!['/', 'F', 'p'] + p@],
        None => base,
    });
    match t.output_precompiled {
        Some(_) => with_use + seq![seq!['/', 'Y', 'c']],
        None => with_use,
    }
}

/// Prefix a literal onto a string.
fn lit_concat(prefix: &str, rest: &str) -> (r: String)
    ensures
        r@ == prefix@ + rest@,
{
    let mut s = String::new();
    s.append(prefix);
    s.append(rest);
    proof {
        assert(s@ =~= prefix@ + rest@);
    }
    s
}

/// The Microsoft compiler wrapper.  It owns the directory its temporary
/// preprocessed files live in.
pub struct VsCompiler {
    pub temp_dir: String,
}

impl VsCompiler {
    pub fn new(temp_dir: &str) -> (r: VsCompiler)
        ensures
            r.temp_dir@ == temp_dir@,
    {
        VsCompiler { temp_dir: temp_dir.to_owned() }
    }

    /// The preprocess sub-invocation: the preprocessor- and shared-scoped
    /// arguments, then the fixed preprocess tail.
    pub fn prepare_preprocess_args(task: &CompilationTask) -> (r: Vec<String>)
        ensures
            strs_view(r@) == preprocess_args_spec(task.args@) + preprocess_extras(*task),
    {
        let mut r = filter_preprocess_args(&task.args);
        proof {
            reveal_strlit("/nologo");
            reveal_strlit("/T");
            reveal_strlit("/P");
            assert("/nologo"@ =~= seq!['/', 'n', 'o', 'l', 'o', 'g', 'o']);
            assert("/T"@ =~= seq!['/', 'T']);
            assert("/P"@ =~= seq!['/', 'P']);
        }
        let ghost r0 = r@;
        r.push("/nologo".to_owned());
        proof {
            crate::wire::lemma_strs_view_push(r0, r@[r0.len() as int]);
        }
        let ghost r1 = r@;
        r.push(lit_concat("/T", task.language.as_str()));
        proof {
            crate::wire::lemma_strs_view_push(r1, r@[r1.len() as int]);
        }
        let ghost r2 = r@;
        r.push("/P".to_owned());
        proof {
            crate::wire::lemma_strs_view_push(r2, r@[r2.len() as int]);
        }
        let ghost r3 = r@;
        r.push(task.input_source.clone());
        proof {
            crate::wire::lemma_strs_view_push(r3, r@[r3.len() as int]);
            assert(strs_view(r@) =~= preprocess_args_spec(task.args@) + preprocess_extras(
                *task,
            ));
        }
        r
    }

    /// The compile sub-invocation: the preprocessor-, compiler- and
    /// shared-scoped arguments, then the fixed compile tail.
    pub fn prepare_compile_args(task: &CompilationTask) -> (r: Vec<String>)
        ensures
            strs_view(r@) == compile_args_spec(task.args@) + compile_extras(*task),
    {
        let mut r = filter_compile_args(&task.args);
        proof {
            reveal_strlit("/T");
            reveal_strlit("/Yu");
            reveal_strlit("/Fp");
            reveal_strlit("/Yc");
            assert("/T"@ =~= seq!['/', 'T']);
            assert("/Yu"@ =~= seq!['/', 'Y', 'u']);
            assert("/Fp"@ =~= seq!['/', 'F', 'p']);
            assert("/Yc"@ =~= seq!['/', 'Y', 'c']);
        }
        let ghost r0 = r@;
        r.push(lit_concat("/T", task.language.as_str()));
        proof {
            crate::wire::lemma_strs_view_push(r0, r@[r0.len() as int]);
        }
        match &task.input_precompiled {
            Some(p) => {
                let ghost r1 = r@;
                r.push("/Yu".to_owned());
                proof {
                    crate::wire::lemma_strs_view_push(r1, r@[r1.len() as int]);
                }
                let ghost r2 = r@;
                r.push(lit_concat("/Fp", p.as_str()));
                proof {
                    crate::wire::lemma_strs_view_push(r2, r@[r2.len() as int]);
                }
            },
            None => {
            },
        }
        if task.output_precompiled.is_some() {
            let ghost r3 = r@;
            r.push("/Yc".to_owned());
            proof {
                crate::wire::lemma_strs_view_push(r3, r@[r3.len() as int]);
            }
        }
        proof {
            assert(strs_view(r@) =~= compile_args_spec(task.args@) + compile_extras(*task));
        }
        r
    }

    /// Conclude the preprocess step from the preprocessor's captured result
    /// and the raw preprocessed bytes.
    ///
    /// A non-zero preprocessor exit fails the task; output whose configured
    /// precompiled-header marker cannot be found cannot be parsed; otherwise
    /// the filtered text is fingerprinted together with the effective
    /// arguments.
    pub fn preprocess_finish(
        task: &CompilationTask,
        args: &Vec<String>,
        output: &OutputInfo,
        raw: &Vec<u8>,
    ) -> (r: Result<PreprocessResult, BuildError>)
        requires
            strs_view(args@).len() < 0x1_0000_0000,
            crate::wire::strs_fit(strs_view(args@)),
        ensures
            match r {
                Ok(p) => {
                    &&& output.spec_success()
                    &&& (match task.marker_precompiled {
                        None => p.content@ == raw@,
                        Some(m) => exists|i: nat|
                            find_pat_from(raw@, vstd::utf8::encode_utf8(m@), 0) == Some(i)
                                && p.content@ == raw@.skip(i as int),
                    })
                    &&& p.hash@ == fingerprint_spec(strs_view(args@), p.content@)
                },
                Err(e) => {
                    &&& (e == BuildError::PreprocessorFailed || e
                        == BuildError::PreprocessedUnparseable)
                    &&& (e == BuildError::PreprocessorFailed <==> !output.spec_success())
                    &&& (e == BuildError::PreprocessedUnparseable ==> (match task
                        .marker_precompiled {
                        None => false,
                        Some(m) => find_pat_from(raw@, vstd::utf8::encode_utf8(m@), 0) is None,
                    }))
                },
            },
    {
        if !output.success() {
            return Err(BuildError::PreprocessorFailed);
        }
        match filter_preprocessed(raw, &task.marker_precompiled) {
            Err(_) => Err(BuildError::PreprocessedUnparseable),
            Ok(content) => {
                let hash = fingerprint(args, &content);
                Ok(PreprocessResult { hash, content })
            },
        }
    }
}

} // verus!
