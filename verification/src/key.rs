//! The key under which a translation is cached: a hash of everything that the answer depends on.

use crate::qwen::Qwen;
use crate::text::string_texts;
use std::collections::hash_map::DefaultHasher;
use std::hash::Hasher;
use vstd::bytes::{lemma_auto_spec_u64_to_from_le_bytes, spec_u64_from_le_bytes, spec_u64_to_le_bytes, u64_to_le_bytes};
use vstd::prelude::*;
use vstd::std_specs::hash::DefaultHasherAdditionalSpecFns;
use vstd::utf8::{decode_utf8, encode_utf8, encode_utf8_decode_utf8};

verus! {

/// What is hashed of a number: eight bytes, the lowest first.
pub open spec fn number_writes(n: u64) -> Seq<Seq<u8>> {
    seq![spec_u64_to_le_bytes(n)]
}

/// What is hashed of a text: its bytes, and one that no text holds.
pub open spec fn text_writes(s: Seq<char>) -> Seq<Seq<u8>> {
    seq![encode_utf8(s), seq![0xffu8]]
}

/// What is hashed of a text that may be missing: whether it is there, and the text.
pub open spec fn maybe_writes(s: Option<Seq<char>>) -> Seq<Seq<u8>> {
    match s {
        Some(t) => number_writes(1) + text_writes(t),
        None => number_writes(0),
    }
}

/// What is hashed of texts one after the other.
pub open spec fn each_writes(s: Seq<Seq<char>>) -> Seq<Seq<u8>>
    decreases s.len(),
{
    if s.len() == 0 {
        Seq::empty()
    } else {
        each_writes(s.drop_last()) + text_writes(s.last())
    }
}

/// What is hashed of a list of texts: how many there are, and each.
pub open spec fn list_writes(s: Seq<Seq<char>>) -> Seq<Seq<u8>> {
    number_writes(s.len() as u64) + each_writes(s)
}

/// What is hashed of bytes: how many there are, and they themselves.
pub open spec fn byte_writes(s: Seq<u8>) -> Seq<Seq<u8>> {
    number_writes(s.len() as u64) + seq![s]
}

/// The model that is asked for, if one is.
pub open spec fn model_of(q: Qwen) -> Option<Seq<char>> {
    match q.model {
        Some(m) => Some(m@),
        None => None,
    }
}

/// What is hashed for a request: the settings, the script's own text, so that a changed prompt
/// invalidates old results, and the request.
pub open spec fn key_writes(q: Qwen, script: Seq<u8>, request: Seq<char>) -> Seq<Seq<u8>> {
    maybe_writes(model_of(q)) + list_writes(string_texts(q.extra_args@)) + number_writes(
        q.batch_lines as u64,
    ) + byte_writes(script) + text_writes(request)
}

// ---- Hashing -------------------------------------------------------------------------------

fn hash_number(h: &mut DefaultHasher, n: u64)
    ensures
        final(h)@ == old(h)@ + number_writes(n),
{
    let bytes = u64_to_le_bytes(n);
    h.write(bytes.as_slice());
    assert(h@ =~= old(h)@ + number_writes(n));
}

fn hash_text(h: &mut DefaultHasher, s: &str)
    ensures
        final(h)@ == old(h)@ + text_writes(s@),
{
    h.write(s.as_bytes());
    let end: [u8; 1] = [0xffu8];
    h.write(end.as_slice());
    assert(end@ =~= seq![0xffu8]);
    assert(h@ =~= old(h)@ + text_writes(s@));
}

fn hash_list(h: &mut DefaultHasher, list: &[String])
    ensures
        final(h)@ == old(h)@ + list_writes(string_texts(list@)),
{
    let ghost texts = string_texts(list@);
    hash_number(h, list.len() as u64);
    let ghost start = h@;
    assert(texts.take(0) =~= Seq::empty());
    assert(start =~= start + each_writes(texts.take(0)));
    for i in 0..list.len()
        invariant
            texts == string_texts(list@),
            h@ == start + each_writes(texts.take(i as int)),
    {
        hash_text(h, list[i].as_str());
        proof {
            let next = texts.take(i + 1);
            assert(next.drop_last() =~= texts.take(i as int));
            assert(next.last() == list@[i as int]@);
            assert(h@ =~= start + each_writes(next));
        }
    }
    assert(texts.take(list@.len() as int) =~= texts);
    assert(h@ =~= old(h)@ + list_writes(texts));
}

impl Qwen {
    /// The key of a request: the hash of all that the answer depends on.
    pub fn key(&self, script: &[u8], request: &str) -> (r: u64)
        ensures
            r == DefaultHasher::spec_finish(key_writes(*self, script@, request@)),
    {
        let mut h = DefaultHasher::new();
        match &self.model {
            Some(m) => {
                hash_number(&mut h, 1);
                hash_text(&mut h, m.as_str());
            },
            None => {
                hash_number(&mut h, 0);
            },
        }
        assert(h@ =~= maybe_writes(model_of(*self)));
        hash_list(&mut h, self.extra_args.as_slice());
        hash_number(&mut h, self.batch_lines as u64);
        hash_number(&mut h, script.len() as u64);
        h.write(script);
        hash_text(&mut h, request);
        assert(h@ =~= key_writes(*self, script@, request@));
        h.finish()
    }
}

// ---- What the key covers -------------------------------------------------------------------

/// Different numbers have different bytes.
proof fn lemma_numbers_differ(m: u64, n: u64)
    requires
        spec_u64_to_le_bytes(m) == spec_u64_to_le_bytes(n),
    ensures
        m == n,
{
    lemma_auto_spec_u64_to_from_le_bytes();
    assert(spec_u64_from_le_bytes(spec_u64_to_le_bytes(m)) == m);
    assert(spec_u64_from_le_bytes(spec_u64_to_le_bytes(n)) == n);
}

/// Different texts have different bytes.
proof fn lemma_texts_differ(s: Seq<char>, t: Seq<char>)
    requires
        encode_utf8(s) == encode_utf8(t),
    ensures
        s == t,
{
    encode_utf8_decode_utf8(s);
    encode_utf8_decode_utf8(t);
    assert(decode_utf8(encode_utf8(s)) == decode_utf8(encode_utf8(t)));
}

/// Where a text's bytes are among those of a list.
proof fn lemma_each(s: Seq<Seq<char>>, i: int)
    ensures
        each_writes(s).len() == 2 * s.len(),
        0 <= i < s.len() ==> each_writes(s)[2 * i] == encode_utf8(s[i]),
    decreases s.len(),
{
    if s.len() > 0 {
        lemma_each(s.drop_last(), i);
    }
}

/// A list of which what is hashed begins with the same writes is the same list.
proof fn lemma_lists_differ(s: Seq<Seq<char>>, t: Seq<Seq<char>>, a: Seq<Seq<u8>>, b: Seq<Seq<u8>>)
    requires
        s.len() <= u64::MAX,
        t.len() <= u64::MAX,
        list_writes(s) + a == list_writes(t) + b,
    ensures
        s == t,
        a == b,
{
    let p = list_writes(s) + a;
    let q = list_writes(t) + b;
    assert(p[0] == spec_u64_to_le_bytes(s.len() as u64));
    assert(q[0] == spec_u64_to_le_bytes(t.len() as u64));
    lemma_numbers_differ(s.len() as u64, t.len() as u64);
    lemma_each(s, 0);
    lemma_each(t, 0);
    assert forall|i: int| 0 <= i < s.len() implies s[i] == t[i] by {
        lemma_each(s, i);
        lemma_each(t, i);
        assert(p[1 + 2 * i] == each_writes(s)[2 * i]);
        assert(q[1 + 2 * i] == each_writes(t)[2 * i]);
        lemma_texts_differ(s[i], t[i]);
    }
    assert(s =~= t);
    lemma_same_rest(list_writes(s), a, b);
}

/// What follows the same writes.
proof fn lemma_same_rest(front: Seq<Seq<u8>>, a: Seq<Seq<u8>>, b: Seq<Seq<u8>>)
    requires
        front + a == front + b,
    ensures
        a == b,
{
    assert((front + a).skip(front.len() as int) =~= a);
    assert((front + b).skip(front.len() as int) =~= b);
}

/// A text that may be missing is found from what is hashed.
proof fn lemma_maybes_differ(s: Option<Seq<char>>, t: Option<Seq<char>>, a: Seq<Seq<u8>>, b: Seq<Seq<u8>>)
    requires
        maybe_writes(s) + a == maybe_writes(t) + b,
    ensures
        s == t,
        a == b,
{
    let p = maybe_writes(s) + a;
    let q = maybe_writes(t) + b;
    let m: u64 = if s is Some { 1 } else { 0 };
    let n: u64 = if t is Some { 1 } else { 0 };
    assert(p[0] == spec_u64_to_le_bytes(m));
    assert(q[0] == spec_u64_to_le_bytes(n));
    lemma_numbers_differ(m, n);
    if s is Some {
        assert(p[1] == encode_utf8(s->0));
        assert(q[1] == encode_utf8(t->0));
        lemma_texts_differ(s->0, t->0);
    }
    lemma_same_rest(maybe_writes(s), a, b);
}

/// Law: the key covers the model, the extra arguments, the batch size, the script's text and the
/// request. Where one of them differs, something else is hashed.
pub proof fn law_key_covers(
    p: Qwen,
    p_script: Seq<u8>,
    p_request: Seq<char>,
    q: Qwen,
    q_script: Seq<u8>,
    q_request: Seq<char>,
)
    requires
        p.extra_args@.len() <= u64::MAX,
        q.extra_args@.len() <= u64::MAX,
        key_writes(p, p_script, p_request) == key_writes(q, q_script, q_request),
    ensures
        model_of(p) == model_of(q),
        string_texts(p.extra_args@) == string_texts(q.extra_args@),
        p.batch_lines == q.batch_lines,
        p_script == q_script,
        p_request == q_request,
{
    let a = number_writes(p.batch_lines as u64) + byte_writes(p_script) + text_writes(p_request);
    let b = number_writes(q.batch_lines as u64) + byte_writes(q_script) + text_writes(q_request);
    let s = list_writes(string_texts(p.extra_args@));
    let t = list_writes(string_texts(q.extra_args@));
    assert(key_writes(p, p_script, p_request) =~= maybe_writes(model_of(p)) + (s + a));
    assert(key_writes(q, q_script, q_request) =~= maybe_writes(model_of(q)) + (t + b));
    lemma_maybes_differ(model_of(p), model_of(q), s + a, t + b);
    lemma_lists_differ(string_texts(p.extra_args@), string_texts(q.extra_args@), a, b);
    assert(a[0] == spec_u64_to_le_bytes(p.batch_lines as u64));
    assert(b[0] == spec_u64_to_le_bytes(q.batch_lines as u64));
    lemma_numbers_differ(p.batch_lines as u64, q.batch_lines as u64);
    assert(a[2] == p_script);
    assert(b[2] == q_script);
    assert(a[3] == encode_utf8(p_request));
    assert(b[3] == encode_utf8(q_request));
    lemma_texts_differ(p_request, q_request);
}

/// Law: the same settings, script and request have the same key, wherever the script lies and
/// whatever runs it.
pub proof fn law_key_repeats(p: Qwen, q: Qwen, script: Seq<u8>, request: Seq<char>)
    requires
        model_of(p) == model_of(q),
        string_texts(p.extra_args@) == string_texts(q.extra_args@),
        p.batch_lines == q.batch_lines,
    ensures
        key_writes(p, script, request) == key_writes(q, script, request),
{
}

} // verus!
