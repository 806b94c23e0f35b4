//! The one-way anonymizing transform: authors become hex-encoded SHA-256
//! digests, permalinks become the digest of their topic segment, or a
//! placeholder when that segment does not exist.

use vstd::prelude::*;
use vstd::utf8::encode_utf8;

use crate::nodestructs::{Node, NodeView};
use crate::strutil::{digit_char, push_char, strings_view};

verus! {

/// The largest byte count the digest function accepts in this library:
/// beyond it the digest library's bit-length counter would overflow.
pub const MAX_DIGEST_INPUT: u64 = 0x2000000000000000;

/// The SHA-256 digest of `data`, a function of the bytes alone.
pub uninterp spec fn sha256_of(data: Seq<u8>) -> Seq<u8>;

/// Relies on `ring::digest::digest` with `ring::digest::SHA256`: returns
/// the 32-byte SHA-256 digest of `data`, a function of the bytes alone.
/// Inputs long enough to overflow the library's bit-length counter are
/// excluded: on those it would panic.
#[verifier::external_body]
pub fn sha256(data: &[u8]) -> (r: Vec<u8>)
    requires
        data@.len() < MAX_DIGEST_INPUT,
    ensures
        r@ == sha256_of(data@),
        r@.len() == 32,
{
    ring::digest::digest(&ring::digest::SHA256, data).as_ref().to_vec()
}

/// The lowercase hex digit character for the value `d`.
pub open spec fn hex_digit_char(d: int) -> char {
    if d < 10 {
        digit_char(d)
    } else {
        ((87 + d) as u8) as char
    }
}

/// The lowercase hex encoding of `data`: two digits for each byte.
pub open spec fn hex_of(data: Seq<u8>) -> Seq<char>
    decreases data.len(),
{
    if data.len() == 0 {
        Seq::<char>::empty()
    } else {
        seq![
            hex_digit_char((data.first() >> 4) as int),
            hex_digit_char((data.first() & 0x0f) as int),
        ] + hex_of(data.drop_first())
    }
}

/// A hex encoding is twice as long as its input.
pub proof fn lemma_hex_of_len(data: Seq<u8>)
    ensures
        hex_of(data).len() == 2 * data.len(),
    decreases data.len(),
{
    if data.len() > 0 {
        lemma_hex_of_len(data.drop_first());
    }
}

/// Relies on `hex::encode`: the lowercase hex encoding of `data`, two
/// digits for each byte.
#[verifier::external_body]
pub fn hex_encode(data: &Vec<u8>) -> (r: String)
    ensures
        r@ == hex_of(data@),
{
    hex::encode(data.as_slice())
}

/// `s` split at every `sep`, with `cur` the segment read so far.
pub open spec fn split_acc(s: Seq<char>, sep: char, cur: Seq<char>) -> Seq<Seq<char>>
    decreases s.len(),
{
    if s.len() == 0 {
        seq![cur]
    } else if s.first() == sep {
        seq![cur] + split_acc(s.drop_first(), sep, Seq::<char>::empty())
    } else {
        split_acc(s.drop_first(), sep, cur.push(s.first()))
    }
}

/// `s` split at every `sep`: the separator-free segments in order, one
/// more than there are separators.
pub open spec fn split_char(s: Seq<char>, sep: char) -> Seq<Seq<char>> {
    split_acc(s, sep, Seq::<char>::empty())
}

/// Splits `s` at every slash.
pub fn split_slash(s: &str) -> (r: Vec<String>)
    ensures
        strings_view(r@) == split_char(s@, '/'),
{
    let n = s.unicode_len();
    let mut out: Vec<String> = Vec::new();
    let mut cur = String::new();
    proof {
        assert(s@.skip(0) =~= s@);
        assert(strings_view(out@) =~= Seq::<Seq<char>>::empty());
        assert(Seq::<Seq<char>>::empty() + split_acc(s@, '/', cur@) =~= split_acc(s@, '/', cur@));
    }
    for i in 0..n
        invariant
            n == s@.len(),
            split_char(s@, '/') == strings_view(out@) + split_acc(s@.skip(i as int), '/', cur@),
    {
        proof {
            assert(s@.skip(i as int).first() == s@[i as int]);
            assert(s@.skip(i as int).drop_first() =~= s@.skip(i + 1));
        }
        let c = s.get_char(i);
        if c == '/' {
            let ghost prev_out = out@;
            let ghost prev_cur = cur@;
            out.push(cur);
            cur = String::new();
            assert(strings_view(out@) =~= strings_view(prev_out).push(prev_cur));
        } else {
            push_char(&mut cur, c);
        }
    }
    assert(s@.skip(n as int) =~= Seq::<char>::empty());
    out.push(cur);
    assert(strings_view(out@) =~= split_char(s@, '/'));
    out
}

/// The anonymized spelling of a sensitive field: the lowercase hex
/// encoding of its SHA-256 digest. The rare field too long for the digest
/// library passes through unchanged.
pub open spec fn anonymized_of(s: Seq<char>) -> Seq<char> {
    if encode_utf8(s).len() < MAX_DIGEST_INPUT {
        hex_of(sha256_of(encode_utf8(s)))
    } else {
        s
    }
}

/// The topic identifier of a permalink: its sixth slash-delimited
/// segment, where that exists.
pub open spec fn topic_of(permalink: Seq<char>) -> Option<Seq<char>> {
    let segments = split_char(permalink, '/');
    if segments.len() > 5 {
        Some(segments[5])
    } else {
        None
    }
}

/// What a permalink is replaced by: the anonymized topic, or a literal
/// placeholder when there is no topic segment.
pub open spec fn topic_digest_of(permalink: Seq<char>) -> Seq<char> {
    match topic_of(permalink) {
        Some(topic) => anonymized_of(topic),
        None => "NA"@,
    }
}

/// The anonymizing transform on one record: the author and the
/// permalink-derived topic are replaced by digests; time and collection
/// name stay.
pub open spec fn anonymize_node_spec(n: NodeView) -> NodeView {
    NodeView {
        author: anonymized_of(n.author),
        created_utc: n.created_utc,
        permalink: topic_digest_of(n.permalink),
        subreddit: n.subreddit,
    }
}

/// Two records by the same author anonymize to the same author digest.
pub proof fn lemma_anonymize_deterministic(a: NodeView, b: NodeView)
    requires
        a.author == b.author,
    ensures
        anonymize_node_spec(a).author == anonymize_node_spec(b).author,
{
}

/// Anonymizes one field. A field the digest library accepts becomes a
/// 64-character digest.
fn anonymize_field(s: &str) -> (r: String)
    ensures
        r@ == anonymized_of(s@),
        encode_utf8(s@).len() < MAX_DIGEST_INPUT ==> r@.len() == 64,
{
    let bytes = s.as_bytes();
    if (bytes.len() as u64) < MAX_DIGEST_INPUT {
        let digest = sha256(bytes);
        proof {
            lemma_hex_of_len(digest@);
        }
        hex_encode(&digest)
    } else {
        s.to_owned()
    }
}

/// Anonymizes one record. An author or topic the digest library accepts
/// becomes a 64-character digest.
pub fn anonymize_node(n: &Node) -> (r: Node)
    ensures
        r@ == anonymize_node_spec(n@),
        encode_utf8(n@.author).len() < MAX_DIGEST_INPUT ==> r@.author.len() == 64,
        (topic_of(n@.permalink) matches Some(t) && encode_utf8(t).len() < MAX_DIGEST_INPUT)
            ==> r@.permalink.len() == 64,
{
    let author = anonymize_field(n.author.as_str());
    let segments = split_slash(n.permalink.as_str());
    let permalink = if segments.len() > 5 {
        proof {
            assert(strings_view(segments@)[5] == segments@[5]@);
        }
        anonymize_field(segments[5].as_str())
    } else {
        let mut na = String::new();
        na.append("NA");
        assert(na@ =~= "NA"@);
        na
    };
    Node { author, created_utc: n.created_utc, permalink, subreddit: n.subreddit.clone() }
}

} // verus!
