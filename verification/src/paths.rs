use vstd::prelude::*;

verus! {

/// Whether std takes the two texts for the same path (`Path`'s `==`, which
/// compares paths component by component).
pub uninterp spec fn same_path(a: Seq<char>, b: Seq<char>) -> bool;

/// The parent that std gives for a path (`Path::parent`): the path without
/// its last component, or none for a root, a prefix or the empty path.
pub uninterp spec fn parent_path(p: Seq<char>) -> Option<Seq<char>>;

/// Compares two paths with `std::path::Path`'s `==`. The contract claims that
/// the result is `same_path` of the two texts, and, as `Path` is `Eq`, that
/// equal texts are the same path.
#[verifier::external_body]
pub(crate) fn paths_equal(a: &str, b: &str) -> (r: bool)
    ensures
        r == same_path(a@, b@),
        a@ == b@ ==> r,
{
    std::path::Path::new(a) == std::path::Path::new(b)
}

/// The parent of a path, from `std::path::Path::parent`. The contract claims
/// that the result is `parent_path` of the text. A parent of a path given as
/// text is a prefix of that text, so converting it back to text loses nothing.
#[verifier::external_body]
pub(crate) fn parent_of(p: &str) -> (r: Option<String>)
    ensures
        match r {
            Some(q) => parent_path(p@) == Some(q@),
            None => parent_path(p@) is None,
        },
{
    match std::path::Path::new(p).parent() {
        Some(q) => Some(q.to_string_lossy().into_owned()),
        None => None,
    }
}

/// Appends a character with `String::push`. The contract claims what its
/// documentation says: the text grows by exactly that character.
#[verifier::external_body]
fn push_char(s: &mut String, c: char)
    ensures
        final(s)@ == old(s)@.push(c),
{
    s.push(c)
}

/// The text that stands for a path given by its bytes: each byte becomes the
/// character with the same code. ASCII, and with it every separator and
/// every `.`, stands for itself, so std's path comparisons and parents work
/// on the text as on the path.
pub open spec fn path_text_of(bytes: Seq<u8>) -> Seq<char> {
    bytes.map_values(|b: u8| b as char)
}

/// A text that stands for some path: every character has a code below 256.
pub open spec fn is_path_text(t: Seq<char>) -> bool {
    forall|k: int| 0 <= k < t.len() ==> (#[trigger] t[k] as u32) < 256
}

/// The bytes of the path that a text stands for.
pub open spec fn path_bytes_of(t: Seq<char>) -> Seq<u8> {
    t.map_values(|c: char| c as u8)
}

/// The text that stands for the path with these bytes.
pub fn encode_path(bytes: &[u8]) -> (r: String)
    ensures
        r@ == path_text_of(bytes@),
{
    let mut out = String::new();
    let mut i: usize = 0;
    while i < bytes.len()
        invariant
            i <= bytes@.len(),
            out@ == path_text_of(bytes@.take(i as int)),
        decreases bytes@.len() - i,
    {
        push_char(&mut out, bytes[i] as char);
        proof {
            assert(path_text_of(bytes@.take(i + 1)) =~= path_text_of(bytes@.take(i as int)).push(
                bytes@[i as int] as char,
            ));
        }
        i = i + 1;
    }
    proof {
        assert(bytes@.take(bytes@.len() as int) == bytes@);
    }
    out
}

/// The bytes of the path that a text stands for; nothing where it stands
/// for no path.
pub fn decode_path(text: &str) -> (r: Option<Vec<u8>>)
    ensures
        match r {
            Some(b) => is_path_text(text@) && b@ == path_bytes_of(text@),
            None => !is_path_text(text@),
        },
{
    let n = text.unicode_len();
    let mut out: Vec<u8> = Vec::new();
    let mut i: usize = 0;
    while i < n
        invariant
            n == text@.len(),
            i <= n,
            out@ == path_bytes_of(text@.take(i as int)),
            forall|k: int| 0 <= k < i ==> (#[trigger] text@[k] as u32) < 256,
        decreases n - i,
    {
        let c = text.get_char(i);
        let code = c as u32;
        if code >= 256 {
            return None;
        }
        out.push(code as u8);
        proof {
            assert(path_bytes_of(text@.take(i + 1)) =~= path_bytes_of(text@.take(i as int)).push(
                c as u8,
            ));
        }
        i = i + 1;
    }
    proof {
        assert(text@.take(n as int) == text@);
    }
    Some(out)
}

/// The text of a path stands for that path and gives its bytes back, and
/// each of its characters has the code of the byte it stands for.
pub proof fn lemma_path_text_round_trip(bytes: Seq<u8>)
    ensures
        is_path_text(path_text_of(bytes)),
        path_bytes_of(path_text_of(bytes)) == bytes,
        path_text_of(bytes).len() == bytes.len(),
        forall|k: int| 0 <= k < bytes.len() ==> (#[trigger] path_text_of(bytes)[k] as u32) == bytes[k],
{
    let t = path_text_of(bytes);
    assert forall|k: int| 0 <= k < bytes.len() implies (#[trigger] t[k] as u32) == bytes[k] by {
        assert(t[k] == bytes[k] as char);
    }
    assert(path_bytes_of(t) =~= bytes) by {
        assert forall|k: int| 0 <= k < bytes.len() implies path_bytes_of(t)[k] == bytes[k] by {
            assert(t[k] == bytes[k] as char);
        }
    }
}

/// Two paths with different bytes have different texts.
pub proof fn lemma_path_text_injective(a: Seq<u8>, b: Seq<u8>)
    requires
        path_text_of(a) == path_text_of(b),
    ensures
        a == b,
{
    lemma_path_text_round_trip(a);
    lemma_path_text_round_trip(b);
}

} // verus!
