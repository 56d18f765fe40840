use vstd::prelude::*;
use vstd::slice::{slice_subrange, slice_to_vec};
use vstd::utf8::{
    decode_utf8, encode_scalar, encode_utf8, is_char_boundary_iff_is_leading_byte, valid_utf8,
    valid_utf8_concat, valid_utf8_split,
};

use crate::seqs::{append_bytes, bytes_eq};
use crate::text::string_from_utf8;

verus! {

broadcast use {
    vstd::seq::group_seq_axioms,
    vstd::slice::group_slice_axioms,
    vstd::utf8::encode_utf8_valid_utf8,
    vstd::utf8::encode_utf8_decode_utf8,
};

/// The byte `?`, which ends a discovery query.
pub const QUESTION_MARK: u8 = 0x3f;

/// The byte `|`, which separates a file name from an address.
pub const PIPE: u8 = 0x7c;

/// Why a discovery response was refused.
#[derive(Clone, Copy, Debug, PartialEq, Eq, Structural)]
pub enum DiscoveryError {
    /// The response is not UTF-8 text of the form `name|address`.
    InvalidResponse,
    /// The response answers for another file.
    WrongFile,
}

/// The query that asks for the receiver of `file_name`: the name, then `?`.
pub open spec fn query_bytes(file_name: Seq<char>) -> Seq<u8> {
    encode_utf8(file_name).push(QUESTION_MARK)
}

/// The answer of the receiver of `file_name` at `receiver_addr`: the name,
/// `|`, then the address.
pub open spec fn response_bytes(file_name: Seq<char>, receiver_addr: Seq<char>) -> Seq<u8> {
    encode_utf8(file_name).push(PIPE) + encode_utf8(receiver_addr)
}

/// The first `|` of `r` stands at `i`.
pub open spec fn first_pipe_at(r: Seq<u8>, i: int) -> bool {
    &&& 0 <= i < r.len()
    &&& r[i] == PIPE
    &&& forall|j: int| 0 <= j < i ==> r[j] != PIPE
}

/// The address a response gives for `file_name`, or why it is refused: the
/// response must be UTF-8, the part before its first `|` must be the file
/// name, and the address is the rest.
pub open spec fn spec_parse_response(file_name: Seq<char>, response: Seq<u8>) -> Result<
    Seq<char>,
    DiscoveryError,
> {
    if !valid_utf8(response) {
        Err(DiscoveryError::InvalidResponse)
    } else if !(exists|i: int| first_pipe_at(response, i)) {
        Err(DiscoveryError::InvalidResponse)
    } else {
        let i = choose|i: int| first_pipe_at(response, i);
        if response.take(i) != encode_utf8(file_name) {
            Err(DiscoveryError::WrongFile)
        } else {
            Ok(decode_utf8(response.skip(i + 1)))
        }
    }
}

proof fn lemma_first_pipe_unique(r: Seq<u8>, i: int, j: int)
    requires
        first_pipe_at(r, i),
        first_pipe_at(r, j),
    ensures
        i == j,
{
    if i < j {
        assert(r[i] != PIPE);
    } else if j < i {
        assert(r[j] != PIPE);
    }
}

/// The query that asks for the receiver of `file_name`.
pub fn discovery_query(file_name: &str) -> (r: Vec<u8>)
    ensures
        r@ == query_bytes(file_name@),
{
    let mut query = slice_to_vec(file_name.as_bytes());
    query.push(QUESTION_MARK);
    query
}

/// The answer that the receiver of `file_name` at `receiver_addr` sends.
pub fn discovery_response(file_name: &str, receiver_addr: &str) -> (r: Vec<u8>)
    ensures
        r@ == response_bytes(file_name@, receiver_addr@),
{
    let mut response = slice_to_vec(file_name.as_bytes());
    response.push(PIPE);
    append_bytes(&mut response, receiver_addr.as_bytes());
    response
}

/// What the receiver of `file_name` at `receiver_addr` answers to a
/// datagram: its response where the datagram is the query for that file,
/// nothing otherwise.
pub fn discovery_reply(file_name: &str, receiver_addr: &str, request: &[u8]) -> (r: Option<
    Vec<u8>,
>)
    ensures
        r matches Some(v) ==> v@ == response_bytes(file_name@, receiver_addr@),
        r is Some <==> request@ == query_bytes(file_name@),
{
    let query = discovery_query(file_name);
    if bytes_eq(request, query.as_slice()) {
        Some(discovery_response(file_name, receiver_addr))
    } else {
        None
    }
}

/// Reads the address out of a discovery response for `file_name`.
pub fn parse_discovery_response(file_name: &str, response: &[u8]) -> (r: Result<String, DiscoveryError>)
    ensures
        match r {
            Ok(addr) => spec_parse_response(file_name@, response@) == Ok::<
                Seq<char>,
                DiscoveryError,
            >(addr@),
            Err(e) => spec_parse_response(file_name@, response@) == Err::<Seq<char>, DiscoveryError>(
                e,
            ),
        },
{
    if string_from_utf8(slice_to_vec(response)).is_none() {
        return Err(DiscoveryError::InvalidResponse);
    }
    let len = response.len();
    let mut i: usize = 0;
    while i < len && response[i] != PIPE
        invariant
            len == response@.len(),
            i <= len,
            forall|j: int| 0 <= j < i ==> response@[j] != PIPE,
        decreases len - i,
    {
        i += 1;
    }
    if i == len {
        assert forall|j: int| !first_pipe_at(response@, j) by {
            if 0 <= j < len {
            }
        }
        return Err(DiscoveryError::InvalidResponse);
    }
    assert(first_pipe_at(response@, i as int));
    proof {
        let k = choose|k: int| first_pipe_at(response@, k);
        lemma_first_pipe_unique(response@, k, i as int);
    }
    if !bytes_eq(slice_subrange(response, 0, i), file_name.as_bytes()) {
        return Err(DiscoveryError::WrongFile);
    }
    proof {
        let b = response@;
        is_char_boundary_iff_is_leading_byte(b, i as int);
        valid_utf8_split(b, i as int);
        let t = b.subrange(i as int, b.len() as int);
        assert(t.len() > 0);
        assert(t.subrange(1, t.len() as int) =~= b.skip(i + 1));
    }
    match string_from_utf8(slice_to_vec(slice_subrange(response, i + 1, len))) {
        Some(addr) => {
            assert(response@.subrange(i + 1, len as int) =~= response@.skip(i + 1));
            Ok(addr)
        },
        None => Err(DiscoveryError::InvalidResponse),
    }
}

/// The UTF-8 encoding of a character other than `|` holds no `|` byte.
proof fn lemma_scalar_has_no_pipe(c: char)
    requires
        c != '|',
    ensures
        forall|j: int|
            0 <= j < encode_scalar(c as u32).len() ==> #[trigger] encode_scalar(c as u32)[j] != PIPE,
{
    let v = c as u32;
    assert(forall|x: u32| #![auto] (0xC0u8 | ((x >> 6) & 0x1F) as u8) >= 0x80u8) by (bit_vector);
    assert(forall|x: u32| #![auto] (0xE0u8 | ((x >> 12) & 0x0F) as u8) >= 0x80u8) by (bit_vector);
    assert(forall|x: u32| #![auto] (0xF0u8 | ((x >> 18) & 0x7) as u8) >= 0x80u8) by (bit_vector);
    assert(forall|x: u32| #![auto] (0x80u8 | (x & 0x3F) as u8) >= 0x80u8) by (bit_vector);
    assert(forall|x: u32| #![auto] (0x80u8 | ((x >> 6) & 0x3F) as u8) >= 0x80u8) by (bit_vector);
    assert(forall|x: u32| #![auto] (0x80u8 | ((x >> 12) & 0x3F) as u8) >= 0x80u8) by (bit_vector);
    assert(forall|x: u32| x <= 0x7f ==> #[trigger] ((x & 0x7F) as u8) == x) by (bit_vector);
}

/// The UTF-8 encoding of characters other than `|` holds no `|` byte.
proof fn lemma_encoding_has_no_pipe(chars: Seq<char>)
    requires
        forall|i: int| 0 <= i < chars.len() ==> chars[i] != '|',
    ensures
        forall|j: int| 0 <= j < encode_utf8(chars).len() ==> #[trigger] encode_utf8(chars)[j] != PIPE,
    decreases chars.len(),
{
    if chars.len() > 0 {
        lemma_scalar_has_no_pipe(chars[0]);
        lemma_encoding_has_no_pipe(chars.drop_first());
        let h = encode_scalar(chars[0] as u32);
        let t = encode_utf8(chars.drop_first());
        assert(encode_utf8(chars) == h + t);
        assert forall|j: int| 0 <= j < encode_utf8(chars).len() implies encode_utf8(chars)[j] != PIPE by {
            if j < h.len() {
                assert(encode_utf8(chars)[j] == h[j]);
            } else {
                assert(encode_utf8(chars)[j] == t[j - h.len()]);
            }
        }
    }
}

/// The response of a receiver reads back as its address, for a file name
/// without `|`.
pub proof fn lemma_response_reads_back(file_name: Seq<char>, receiver_addr: Seq<char>)
    requires
        forall|i: int| 0 <= i < file_name.len() ==> file_name[i] != '|',
    ensures
        spec_parse_response(file_name, response_bytes(file_name, receiver_addr)) == Ok::<
            Seq<char>,
            DiscoveryError,
        >(receiver_addr),
{
    let n = encode_utf8(file_name);
    let a = encode_utf8(receiver_addr);
    let r = response_bytes(file_name, receiver_addr);
    let i = n.len() as int;
    lemma_encoding_has_no_pipe(file_name);
    let pipe = encode_utf8(seq!['|']);
    assert(encode_utf8(seq!['|']) == encode_scalar('|' as u32) + encode_utf8(seq!['|'].drop_first()));
    assert(seq!['|'].drop_first() =~= Seq::<char>::empty());
    assert('|' as u32 == 0x7c);
    assert((0x7cu32 & 0x7F) as u8 == 0x7cu8) by (bit_vector);
    assert(pipe =~= seq![PIPE]);
    valid_utf8_concat(n, pipe);
    valid_utf8_concat(n + pipe, a);
    assert(r =~= n + pipe + a);
    assert(first_pipe_at(r, i));
    let k = choose|k: int| first_pipe_at(r, k);
    lemma_first_pipe_unique(r, k, i);
    assert(r.take(i) =~= n);
    assert(r.skip(i + 1) =~= a);
}

} // verus!
